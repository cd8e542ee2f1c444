//! Telling text files from binary ones, by extension and by content.

use crate::config::strings_view;
use crate::text::text_eq;
use vstd::prelude::*;
use vstd::string::StringExecFns;

verus! {

/// Number of leading bytes of a file that are looked at.
pub const SCAN_LIMIT: usize = 4096;

/// What `str::to_lowercase` returns for a text.
pub uninterp spec fn lowercase(s: Seq<char>) -> Seq<char>;

/// `str::to_lowercase`: the lower-case equivalent of a text. The result
/// depends on the text alone.
#[verifier::external_body]
pub(crate) fn to_lowercase(s: &str) -> (r: String)
    ensures
        r@ == lowercase(s@),
{
    s.to_lowercase()
}

/// The extensions, each with its dot, of files that are binary whatever they
/// hold.
pub open spec fn builtin_binary_extensions() -> Seq<Seq<char>> {
    seq![
        ".jpg"@,
        ".pdf"@,
        ".mid"@,
        ".blend"@,
        ".p12"@,
        ".rco"@,
        ".tgz"@,
        ".jpeg"@,
        ".mp4"@,
        ".midi"@,
        ".crt"@,
        ".p7b"@,
        ".ovl"@,
        ".bz2"@,
        ".png"@,
        ".webm"@,
        ".aac"@,
        ".key"@,
        ".gbr"@,
        ".mo"@,
        ".xz"@,
        ".gif"@,
        ".mov"@,
        ".flac"@,
        ".pem"@,
        ".pcb"@,
        ".nib"@,
        ".dat"@,
        ".ico"@,
        ".mp3"@,
        ".bmp"@,
        ".der"@,
        ".icns"@,
        ".xap"@,
        ".lib"@,
        ".webp"@,
        ".wav"@,
        ".psd"@,
        ".png2"@,
        ".xdf"@,
        ".psf"@,
        ".jar"@,
        ".ttf"@,
        ".exe"@,
        ".ai"@,
        ".jp2"@,
        ".zip"@,
        ".pak"@,
        ".vhd"@,
        ".woff"@,
        ".dll"@,
        ".eps"@,
        ".swc"@,
        ".rar"@,
        ".img3"@,
        ".gho"@,
        ".woff2"@,
        ".bin"@,
        ".raw"@,
        ".mso"@,
        ".7z"@,
        ".img4"@,
        ".efi"@,
        ".eot"@,
        ".iso"@,
        ".tif"@,
        ".class"@,
        ".gz"@,
        ".msi"@,
        ".ocx"@,
        ".sys"@,
        ".img"@,
        ".tiff"@,
        ".apk"@,
        ".tar"@,
        ".cab"@,
        ".scr"@,
        ".so"@,
        ".dmg"@,
        ".3ds"@,
        ".com"@,
        ".elf"@,
        ".o"@,
        ".max"@,
        ".obj"@,
        ".drv"@,
        ".rom"@,
        ".a"@,
        ".vhdx"@,
        ".fbx"@,
        ".bpl"@,
        ".cpl"@,
    ]
}

/// The built-in binary extensions as texts.
fn builtin_binary_list() -> (out: Vec<&'static str>)
    ensures
        out@.len() == builtin_binary_extensions().len(),
        forall|i: int| 0 <= i < out@.len() ==> (#[trigger] out@[i])@ == builtin_binary_extensions()[i],
{
    let mut out: Vec<&'static str> = Vec::new();
    out.push(".jpg");
    out.push(".pdf");
    out.push(".mid");
    out.push(".blend");
    out.push(".p12");
    out.push(".rco");
    out.push(".tgz");
    out.push(".jpeg");
    out.push(".mp4");
    out.push(".midi");
    out.push(".crt");
    out.push(".p7b");
    out.push(".ovl");
    out.push(".bz2");
    out.push(".png");
    out.push(".webm");
    out.push(".aac");
    out.push(".key");
    out.push(".gbr");
    out.push(".mo");
    out.push(".xz");
    out.push(".gif");
    out.push(".mov");
    out.push(".flac");
    out.push(".pem");
    out.push(".pcb");
    out.push(".nib");
    out.push(".dat");
    out.push(".ico");
    out.push(".mp3");
    out.push(".bmp");
    out.push(".der");
    out.push(".icns");
    out.push(".xap");
    out.push(".lib");
    out.push(".webp");
    out.push(".wav");
    out.push(".psd");
    out.push(".png2");
    out.push(".xdf");
    out.push(".psf");
    out.push(".jar");
    out.push(".ttf");
    out.push(".exe");
    out.push(".ai");
    out.push(".jp2");
    out.push(".zip");
    out.push(".pak");
    out.push(".vhd");
    out.push(".woff");
    out.push(".dll");
    out.push(".eps");
    out.push(".swc");
    out.push(".rar");
    out.push(".img3");
    out.push(".gho");
    out.push(".woff2");
    out.push(".bin");
    out.push(".raw");
    out.push(".mso");
    out.push(".7z");
    out.push(".img4");
    out.push(".efi");
    out.push(".eot");
    out.push(".iso");
    out.push(".tif");
    out.push(".class");
    out.push(".gz");
    out.push(".msi");
    out.push(".ocx");
    out.push(".sys");
    out.push(".img");
    out.push(".tiff");
    out.push(".apk");
    out.push(".tar");
    out.push(".cab");
    out.push(".scr");
    out.push(".so");
    out.push(".dmg");
    out.push(".3ds");
    out.push(".com");
    out.push(".elf");
    out.push(".o");
    out.push(".max");
    out.push(".obj");
    out.push(".drv");
    out.push(".rom");
    out.push(".a");
    out.push(".vhdx");
    out.push(".fbx");
    out.push(".bpl");
    out.push(".cpl");
    out
}

/// An extension as it is looked up: in lower case, behind a dot.
pub open spec fn dotted(extension: Seq<char>) -> Seq<char> {
    "."@ + lowercase(extension)
}

/// Whether an extension marks a file as binary. In lower case it is one of
/// the extensions that the user gave, written with or without the dot, or
/// with its dot it is one of the built-in extensions.
pub open spec fn is_binary_extension(extension: Seq<char>, user: Seq<Seq<char>>) -> bool {
    ||| builtin_binary_extensions().contains(dotted(extension))
    ||| user.contains(lowercase(extension))
    ||| user.contains(dotted(extension))
}

/// Whether the extension of a file marks it as binary.
pub fn has_binary_extension(extension: &str, user_binary_extensions: &[String]) -> (binary: bool)
    ensures
        binary == is_binary_extension(extension@, strings_view(user_binary_extensions@)),
{
    let lower = to_lowercase(extension);
    let mut key = String::from_str(".");
    key.append(lower.as_str());
    assert(key@ =~= dotted(extension@));
    let builtin = builtin_binary_list();
    let mut i: usize = 0;
    while i < builtin.len()
        invariant
            i <= builtin.len(),
            builtin@.len() == builtin_binary_extensions().len(),
            forall|j: int|
                0 <= j < builtin@.len() ==> (#[trigger] builtin@[j])@
                    == builtin_binary_extensions()[j],
            forall|j: int| 0 <= j < i ==> builtin_binary_extensions()[j] != key@,
            key@ == dotted(extension@),
        decreases builtin.len() - i,
    {
        if text_eq(builtin[i], key.as_str()) {
            assert(builtin_binary_extensions()[i as int] == key@);
            assert(builtin_binary_extensions().contains(key@));
            return true;
        }
        i = i + 1;
    }
    let ghost user = strings_view(user_binary_extensions@);
    let mut k: usize = 0;
    while k < user_binary_extensions.len()
        invariant
            k <= user_binary_extensions.len(),
            user == strings_view(user_binary_extensions@),
            !builtin_binary_extensions().contains(key@),
            forall|j: int| 0 <= j < k ==> user[j] != key@ && user[j] != lower@,
            key@ == dotted(extension@),
            lower@ == lowercase(extension@),
        decreases user_binary_extensions.len() - k,
    {
        let given = user_binary_extensions[k].as_str();
        if text_eq(given, lower.as_str()) || text_eq(given, key.as_str()) {
            assert(user[k as int] == given@);
            assert(user.contains(given@));
            return true;
        }
        k = k + 1;
    }
    false
}

/// The part of a file that is looked at: its first 4096 bytes.
pub open spec fn scanned(head: Seq<u8>) -> Seq<u8> {
    if head.len() <= SCAN_LIMIT {
        head
    } else {
        head.take(SCAN_LIMIT as int)
    }
}

/// Content is text where none of its first 4096 bytes is zero.
pub open spec fn is_text_bytes(head: Seq<u8>) -> bool {
    !scanned(head).contains(0u8)
}

/// Whether the leading bytes of a file are those of a text.
pub fn is_text_content(head: &[u8]) -> (text: bool)
    ensures
        text == is_text_bytes(head@),
{
    let end: usize = if head.len() <= SCAN_LIMIT {
        head.len()
    } else {
        SCAN_LIMIT
    };
    let mut i: usize = 0;
    while i < end
        invariant
            i <= end,
            end == scanned(head@).len(),
            end <= head.len(),
            forall|j: int| 0 <= j < i ==> head@[j] != 0,
        decreases end - i,
    {
        if head[i] == 0 {
            assert(scanned(head@)[i as int] == 0u8);
            return false;
        }
        i = i + 1;
    }
    assert forall|j: int| 0 <= j < scanned(head@).len() implies scanned(head@)[j] != 0u8 by {
        assert(scanned(head@)[j] == head@[j]);
    }
    true
}

/// A file is text where its extension does not mark it as binary, its content
/// could be read, and none of the first 4096 bytes is zero.
pub open spec fn is_text(
    extension: Option<Seq<char>>,
    user: Seq<Seq<char>>,
    head: Option<Seq<u8>>,
) -> bool {
    &&& extension matches Some(e) ==> !is_binary_extension(e, user)
    &&& head matches Some(bytes) && is_text_bytes(bytes)
}

/// An optional text as plain values.
pub open spec fn option_text_view(text: Option<&str>) -> Option<Seq<char>> {
    match text {
        Some(t) => Some(t@),
        None => None,
    }
}

/// Optional bytes as plain values.
pub open spec fn option_bytes_view(bytes: Option<&[u8]>) -> Option<Seq<u8>> {
    match bytes {
        Some(b) => Some(b@),
        None => None,
    }
}

/// Decides whether a file is text, from the extension of its name, where it
/// has one, and from its leading bytes, where they could be read.
pub fn is_text_file(
    extension: Option<&str>,
    user_binary_extensions: &[String],
    head: Option<&[u8]>,
) -> (text: bool)
    ensures
        text == is_text(
            option_text_view(extension),
            strings_view(user_binary_extensions@),
            option_bytes_view(head),
        ),
{
    match extension {
        Some(e) => {
            if has_binary_extension(e, user_binary_extensions) {
                return false;
            }
        },
        None => {},
    }
    match head {
        Some(bytes) => is_text_content(bytes),
        None => false,
    }
}

/// The extension decides first. A file whose extension is a built-in binary
/// extension or one that the user gave is binary whatever its content is,
/// read or not.
pub proof fn law_extension_decides(
    extension: Seq<char>,
    user: Seq<Seq<char>>,
    head: Option<Seq<u8>>,
)
    requires
        is_binary_extension(extension, user),
    ensures
        !is_text(Some(extension), user, head),
{
}

/// An extension of the user decides. A file whose extension, in lower case,
/// is one that the user gave, with or without a dot, is binary whatever its
/// content is, read or not.
pub proof fn law_user_extension_decides(
    extension: Seq<char>,
    user: Seq<Seq<char>>,
    head: Option<Seq<u8>>,
)
    requires
        user.contains(lowercase(extension)) || user.contains(dotted(extension)),
    ensures
        !is_text(Some(extension), user, head),
{
}

/// A built-in extension decides. A file whose extension, in lower case and
/// behind a dot, is a built-in binary extension is binary whatever its
/// content is, read or not, and whatever the user gave.
pub proof fn law_builtin_extension_decides(
    extension: Seq<char>,
    user: Seq<Seq<char>>,
    head: Option<Seq<u8>>,
)
    requires
        builtin_binary_extensions().contains(dotted(extension)),
    ensures
        !is_text(Some(extension), user, head),
{
}

/// Only the first 4096 bytes count. Two contents that agree there are both
/// text or both binary, and a content is binary exactly where one of these
/// bytes is zero.
pub proof fn law_content_prefix(a: Seq<u8>, b: Seq<u8>)
    requires
        scanned(a) == scanned(b),
    ensures
        is_text_bytes(a) == is_text_bytes(b),
        !is_text_bytes(a) <==> exists|i: int| 0 <= i < a.len() && i < 4096 && a[i] == 0u8,
{
    if !is_text_bytes(a) {
        let i = choose|i: int| 0 <= i < scanned(a).len() && scanned(a)[i] == 0u8;
        assert(a[i] == 0u8);
    }
    if exists|i: int| 0 <= i < a.len() && i < 4096 && a[i] == 0u8 {
        let i = choose|i: int| 0 <= i < a.len() && i < 4096 && a[i] == 0u8;
        assert(scanned(a)[i] == 0u8);
    }
}

} // verus!
