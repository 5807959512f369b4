//! Paths of the output directory and of the extracted files.
//!
//! Paths are held as text. What a path means is left to `typed_path`, which
//! reads the text by the path syntax of the platform that the crate is built
//! for. The three calls into it are the functions at the end of this module;
//! their contracts are not proved. Each gives the result of its call a name,
//! and nothing here says what that result is on a given text.

use typed_path::Utf8NativePath;
use vstd::prelude::*;

verus! {

/// The stem that `typed_path` finds in the native path `path`: the final
/// component without its extension, or `None` where the path has no file
/// name.
pub uninterp spec fn file_stem_of(path: Seq<char>) -> Option<Seq<char>>;

/// The native path `path` without its final component, as `typed_path`
/// computes it, or `None` where the path ends in a root or a prefix.
pub uninterp spec fn parent_of(path: Seq<char>) -> Option<Seq<char>>;

/// The native path that `typed_path` gives for `path` adjoined to `base`.
pub uninterp spec fn joined(base: Seq<char>, path: Seq<char>) -> Seq<char>;

/// What is appended to a file's stem to name its output directory.
pub open spec fn dir_suffix() -> Seq<char> {
    seq!['_', 'p', 'n', 'g', 's']
}

/// The name of the output directory for a file with the given stem.
pub open spec fn dir_name_of(stem: Seq<char>) -> Seq<char> {
    stem + dir_suffix()
}

/// The output directory for the file at `file`: a directory beside the file,
/// named after the file's stem. There is none for a path without a file name.
pub open spec fn output_dir_of(file: Seq<char>) -> Option<Seq<char>> {
    match (file_stem_of(file), parent_of(file)) {
        (Some(stem), Some(parent)) => Some(joined(parent, dir_name_of(stem))),
        _ => None,
    }
}

/// The name of the output directory for a file with the given stem:
/// `game` gives `game_pngs`.
pub fn dir_name(stem: &str) -> (name: String)
    ensures
        name@ == dir_name_of(stem@),
{
    proof {
        reveal_strlit("_pngs");
    }
    let mut name = String::new();
    name.append(stem);
    name.append("_pngs");
    assert(name@ =~= stem@ + dir_suffix());
    name
}

/// The directory into which the images found in the file at `file` are
/// written, or `None` where `file` does not name a file.
pub fn output_dir(file: &str) -> (dir: Option<String>)
    ensures
        dir.deep_view() == output_dir_of(file@),
{
    match (file_stem(file), parent(file)) {
        (Some(stem), Some(beside)) => {
            let name = dir_name(stem.as_str());
            Some(join(beside.as_str(), name.as_str()))
        },
        _ => None,
    }
}

/// Calls `Utf8Path::file_stem` of `typed_path` on `path`, read as a native
/// path. Trusted: the call computes its result from the text of the path and
/// from nothing else, so that the result is what `file_stem_of` names.
#[verifier::external_body]
fn file_stem(path: &str) -> (stem: Option<String>)
    ensures
        stem.deep_view() == file_stem_of(path@),
{
    Utf8NativePath::new(path).file_stem().map(String::from)
}

/// Calls `Utf8Path::parent` of `typed_path` on `path`, read as a native
/// path. Trusted: the call computes its result from the text of the path and
/// from nothing else, so that the result is what `parent_of` names.
#[verifier::external_body]
fn parent(path: &str) -> (beside: Option<String>)
    ensures
        beside.deep_view() == parent_of(path@),
{
    Utf8NativePath::new(path).parent().map(|p| String::from(p.as_str()))
}

/// Calls `Utf8Path::join` of `typed_path` on `base`, read as a native path,
/// with `path` as the path to adjoin. Trusted: the call computes its result
/// from the two texts and from nothing else, so that the result is what
/// `joined` names.
#[verifier::external_body]
pub(crate) fn join(base: &str, path: &str) -> (whole: String)
    ensures
        whole@ == joined(base@, path@),
{
    Utf8NativePath::new(base).join(path).into_string()
}

} // verus!
