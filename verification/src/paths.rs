//! The few `std::path` queries the library makes. Path syntax is the
//! platform's, so what each returns is named rather than spelled out: the
//! names below stand for what std computes on the target the crate is
//! built for, with every path taken as UTF-8 text.

use vstd::prelude::*;

verus! {

/// What `Path::file_stem` gives for the path `p`.
pub uninterp spec fn path_file_stem(p: Seq<char>) -> Option<Seq<char>>;

/// What `Path::file_name` gives for the path `p`.
pub uninterp spec fn path_file_name(p: Seq<char>) -> Option<Seq<char>>;

/// What `Path::parent` gives for the path `p`.
pub uninterp spec fn path_parent(p: Seq<char>) -> Option<Seq<char>>;

/// What `Path::join` gives for `base` joined with `p`.
pub uninterp spec fn path_join(base: Seq<char>, p: Seq<char>) -> Seq<char>;

/// Whether `Path::strip_prefix` of `p` by `root` succeeds, i.e. whether the
/// components of `root` begin those of `p`.
pub uninterp spec fn path_under(p: Seq<char>, root: Seq<char>) -> bool;

/// What `Path::with_file_name` gives for `p` with its file name set to `name`.
pub uninterp spec fn path_with_file_name(p: Seq<char>, name: Seq<char>) -> Seq<char>;

/// What `PathBuf::set_extension` leaves in a buffer holding `p`, given `ext`.
pub uninterp spec fn path_with_extension(p: Seq<char>, ext: Seq<char>) -> Seq<char>;

/// `Path::new(p).file_stem()` as a `String`: the file name without its
/// final extension, as `path_file_stem` names it.
#[verifier::external_body]
pub(crate) fn file_stem_of(p: &str) -> (r: Option<String>)
    ensures
        match r {
            Some(s) => path_file_stem(p@) == Some(s@),
            None => path_file_stem(p@) is None,
        },
{
    std::path::Path::new(p).file_stem().and_then(|s| s.to_str()).map(|s| s.to_string())
}

/// `Path::new(p).file_name()` as a `String`: the last component, as
/// `path_file_name` names it.
#[verifier::external_body]
pub(crate) fn file_name_of(p: &str) -> (r: Option<String>)
    ensures
        match r {
            Some(s) => path_file_name(p@) == Some(s@),
            None => path_file_name(p@) is None,
        },
{
    std::path::Path::new(p).file_name().and_then(|s| s.to_str()).map(|s| s.to_string())
}

/// `Path::new(p).parent()` as a `String`: the path without its last
/// component, as `path_parent` names it.
#[verifier::external_body]
pub(crate) fn parent_of(p: &str) -> (r: Option<String>)
    ensures
        match r {
            Some(s) => path_parent(p@) == Some(s@),
            None => path_parent(p@) is None,
        },
{
    std::path::Path::new(p).parent().map(|q| q.to_string_lossy().into_owned())
}

/// `Path::new(base).join(p)` as a `String`, as `path_join` names it.
#[verifier::external_body]
pub(crate) fn join_path(base: &str, p: &str) -> (r: String)
    ensures
        r@ == path_join(base@, p@),
{
    std::path::Path::new(base).join(p).to_string_lossy().into_owned()
}

/// Whether `Path::new(p).strip_prefix(root)` succeeds, as `path_under`
/// names it.
#[verifier::external_body]
pub(crate) fn is_under(p: &str, root: &str) -> (b: bool)
    ensures
        b == path_under(p@, root@),
{
    std::path::Path::new(p).strip_prefix(root).is_ok()
}

/// `Path::new(p).with_file_name(name)` as a `String`, as
/// `path_with_file_name` names it.
#[verifier::external_body]
pub(crate) fn with_file_name(p: &str, name: &str) -> (r: String)
    ensures
        r@ == path_with_file_name(p@, name@),
{
    std::path::Path::new(p).with_file_name(name).to_string_lossy().into_owned()
}

/// A `PathBuf` holding `p` after `set_extension(ext)`, as a `String`, as
/// `path_with_extension` names it. `set_extension` panics on an extension
/// that holds a path separator, so `ext` may hold neither `/` nor `\`
/// (the separators of every target).
#[verifier::external_body]
pub(crate) fn with_extension(p: &str, ext: &str) -> (r: String)
    requires
        forall|i: int| 0 <= i < ext@.len() ==> ext@[i] != '/' && ext@[i] != '\\',
    ensures
        r@ == path_with_extension(p@, ext@),
{
    let mut b = std::path::PathBuf::from(p);
    b.set_extension(ext);
    b.to_string_lossy().into_owned()
}

} // verus!
