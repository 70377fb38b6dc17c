//! Naming of the directories that snapshots are written to.
use vstd::prelude::*;

verus! {

/// What `Path::parent` gives for a path written as `p`: the path without its
/// final component, or nothing when `p` ends in a root or is empty.
pub uninterp spec fn parent_of(p: Seq<char>) -> Option<Seq<char>>;

/// Relies on std::path::Path::parent (with Path::to_str, which cannot fail on
/// a path made from a `&str`): the parent depends on the text alone, and the
/// empty path has none.
#[verifier::external_body]
fn path_parent(path_str: &str) -> (r: Option<String>)
    ensures
        r matches Some(s) ==> parent_of(path_str@) == Some(s@),
        r is None ==> parent_of(path_str@) is None,
        path_str@.len() == 0 ==> r is None,
{
    std::path::Path::new(path_str).parent().and_then(std::path::Path::to_str).map(str::to_owned)
}

/// The directory named by a parent path: the current directory `.` when
/// there is no parent or it is empty.
pub open spec fn directory_of(parent: Option<Seq<char>>) -> Seq<char> {
    match parent {
        Some(p) => if p.len() == 0 { "."@ } else { p },
        None => "."@,
    }
}

/// The text that an optional string holds.
pub open spec fn text_of(s: Option<String>) -> Option<Seq<char>> {
    match s {
        Some(t) => Some(t@),
        None => None,
    }
}

/// Turn the parent of a path, as `Path::parent` gives it, into a directory
/// name.
pub fn directory_or_current(parent: Option<String>) -> (r: String)
    ensures
        r@ == directory_of(text_of(parent)),
{
    match parent {
        Some(p) => {
            if p.unicode_len() == 0 {
                String::from_str(".")
            } else {
                p
            }
        },
        None => String::from_str("."),
    }
}

/// Return the directory that holds the file at `path_str`, or `.` when the
/// path names no directory.
pub fn parent_directory(path_str: &str) -> (r: String)
    ensures
        r@ == directory_of(parent_of(path_str@)),
{
    let parent = path_parent(path_str);
    proof {
        assert(text_of(parent) == parent_of(path_str@));
    }
    directory_or_current(parent)
}

/// What `Path::extension` gives for a path written as `p`, as text.
pub uninterp spec fn extension_of(p: Seq<char>) -> Option<Seq<char>>;

/// Relies on std::path::Path::extension (with OsStr::to_str, which cannot
/// fail on a path made from a `&str`): the extension depends on the text
/// alone, and the empty path has none.
#[verifier::external_body]
fn path_extension(path_str: &str) -> (r: Option<String>)
    ensures
        text_of(r) == extension_of(path_str@),
        path_str@.len() == 0 ==> r is None,
{
    std::path::Path::new(path_str).extension().and_then(|e| e.to_str()).map(str::to_owned)
}

/// What an input file holds, judged by its extension.
#[derive(Clone, Copy, Debug, PartialEq, Eq, Structural)]
pub enum InputKind {
    /// A YAML configuration (`.yaml`).
    Config,
    /// A CBOR snapshot of a run (`.cbor`).
    Snapshot,
    /// Anything else.
    Unknown,
}

/// The kind of input that a file extension announces.
pub open spec fn kind_of_extension(ext: Option<Seq<char>>) -> InputKind {
    match ext {
        Some(e) => if e == "yaml"@ {
            InputKind::Config
        } else if e == "cbor"@ {
            InputKind::Snapshot
        } else {
            InputKind::Unknown
        },
        None => InputKind::Unknown,
    }
}

/// Classify an input by its extension, as `Path::extension` gives it.
pub fn input_kind_of_extension(ext: Option<String>) -> (r: InputKind)
    ensures
        r == kind_of_extension(text_of(ext)),
{
    match ext {
        Some(e) => {
            if e == String::from_str("yaml") {
                InputKind::Config
            } else if e == String::from_str("cbor") {
                InputKind::Snapshot
            } else {
                InputKind::Unknown
            }
        },
        None => InputKind::Unknown,
    }
}

/// Classify the input file at `path_str` by its extension.
pub fn input_kind(path_str: &str) -> (r: InputKind)
    ensures
        r == kind_of_extension(extension_of(path_str@)),
{
    input_kind_of_extension(path_extension(path_str))
}

} // verus!
