//! Selection, prioritisation and size-bounded chunking of the text files of a
//! source tree.
//!
//! Every function here works on plain values: paths and patterns as strings,
//! file contents as bytes. Walking directories, reading files and running
//! version-control commands is left to the caller.

pub mod assemble;
pub mod checksum;
pub mod chunk;
pub mod classify;
pub mod collect;
pub mod config;
pub mod history;
pub mod order;
pub mod output;
pub mod pattern;
pub mod pipeline;
pub mod report;
pub mod rules;
pub mod text;
pub mod unicode;

pub use assemble::{assemble, try_assemble, Assembler, Assembly};
pub use checksum::{
    fallback_timestamp, get_repo_checksum, repo_checksum, tracked_files, TrackedFile,
};
pub use chunk::{can_be_split, render_chunk, split_file, Chunk, Record};
pub use classify::{has_binary_extension, is_text_content, is_text_file};
pub use collect::{
    last_commit_time, qualify, recency_cutoff, screen, screen_in_tree, select, LeftOut,
};
pub use config::{
    checked_config, validate_config, ConfigError, IgnoreConfig, OutputDirStatus, PriorityRule,
    YekConfig,
};
pub use history::{get_recent_commit_times, read_timestamp, CommitTimeIndex};
pub use order::{sort_by_priority, FileEntry};
pub use output::{resolve_output, temporary_dir_name, OutputTarget};
pub use pipeline::{serialize_repo, FoundFile};
pub use report::format_size;
pub use rules::{
    build_final_config, compile_all, default_ignore_patterns, default_priority_list,
    get_file_priority, sort_priority_list, FinalConfig, PriorityPattern,
};
pub use text::{count_size, measure, trim};
