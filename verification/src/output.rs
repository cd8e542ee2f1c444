//! Where the chunks of a run go.

use crate::config::YekConfig;
use vstd::prelude::*;
use vstd::string::StringExecFns;

verus! {

/// Where the chunks of a run are written.
#[derive(Debug)]
pub enum OutputTarget {
    /// To standard output, one after the other.
    Stream,
    /// Into the directory that was asked for with the run.
    Requested,
    /// Into the directory that the configuration names.
    Configured(String),
    /// Into a temporary directory named by the checksum of the tree.
    Temporary,
}

/// An output target as plain values.
pub enum TargetView {
    Stream,
    Requested,
    Configured(Seq<char>),
    Temporary,
}

impl View for OutputTarget {
    type V = TargetView;

    open spec fn view(&self) -> TargetView {
        match self {
            OutputTarget::Stream => TargetView::Stream,
            OutputTarget::Requested => TargetView::Requested,
            OutputTarget::Configured(dir) => TargetView::Configured(dir@),
            OutputTarget::Temporary => TargetView::Temporary,
        }
    }
}

/// The output directory that a configuration names, if there is a
/// configuration and it names one.
pub open spec fn configured_dir(config: Option<YekConfig>) -> Option<Seq<char>> {
    match config {
        Some(c) => match c.output_dir {
            Some(dir) => Some(dir@),
            None => None,
        },
        None => None,
    }
}

/// The output target of a run. Streaming goes before everything; then a
/// directory asked for with the run, then one that the configuration names,
/// and a temporary directory where there is neither.
pub open spec fn output_target(stream: bool, requested: bool, configured: Option<Seq<char>>) -> TargetView {
    if stream {
        TargetView::Stream
    } else if requested {
        TargetView::Requested
    } else {
        match configured {
            Some(dir) => TargetView::Configured(dir),
            None => TargetView::Temporary,
        }
    }
}

/// Settles where the chunks of a run are written.
pub fn resolve_output(stream: bool, requested: bool, config: Option<&YekConfig>) -> (target:
    OutputTarget)
    ensures
        target@ == output_target(
            stream,
            requested,
            configured_dir(
                match config {
                    Some(c) => Some(*c),
                    None => None,
                },
            ),
        ),
{
    if stream {
        return OutputTarget::Stream;
    }
    if requested {
        return OutputTarget::Requested;
    }
    match config {
        Some(c) => match &c.output_dir {
            Some(dir) => OutputTarget::Configured(dir.clone()),
            None => OutputTarget::Temporary,
        },
        None => OutputTarget::Temporary,
    }
}

/// The name of the temporary directory of a tree with the given checksum.
pub open spec fn temporary_name(checksum: Seq<char>) -> Seq<char> {
    "yek-"@ + checksum
}

/// Names the temporary directory of a tree by its checksum.
pub fn temporary_dir_name(checksum: &str) -> (name: String)
    ensures
        name@ == temporary_name(checksum@),
{
    let mut name = String::from_str("yek-");
    name.append(checksum);
    name
}

} // verus!
