use std::path::Path;
use vstd::prelude::*;

verus! {

/// The extension of the last component of a path, as `Path::extension` reads it.
pub uninterp spec fn path_extension(p: Seq<char>) -> Option<Seq<char>>;

/// The last component without its extension, as `Path::file_stem` reads it.
pub uninterp spec fn path_stem(p: Seq<char>) -> Option<Seq<char>>;

/// The last component, as `Path::file_name` reads it.
pub uninterp spec fn path_file_name(p: Seq<char>) -> Option<Seq<char>>;

/// The path without its last component, as `Path::parent` reads it.
pub uninterp spec fn path_parent(p: Seq<char>) -> Option<Seq<char>>;

/// The path with its last component replaced, as `Path::with_file_name` makes it.
pub uninterp spec fn path_with_file_name(p: Seq<char>, name: Seq<char>) -> Seq<char>;

/// `Path::extension`. Claimed: the result depends on the path's text alone.
#[verifier::external_body]
pub(crate) fn extension(p: &str) -> (r: Option<String>)
    ensures
        match r {
            Some(e) => path_extension(p@) == Some(e@),
            None => path_extension(p@) is None,
        },
{
    Path::new(p).extension().map(|e| e.to_string_lossy().into_owned())
}

/// `Path::file_stem`. Claimed: the result depends on the path's text alone.
#[verifier::external_body]
pub(crate) fn file_stem(p: &str) -> (r: Option<String>)
    ensures
        match r {
            Some(e) => path_stem(p@) == Some(e@),
            None => path_stem(p@) is None,
        },
{
    Path::new(p).file_stem().map(|e| e.to_string_lossy().into_owned())
}

/// `Path::file_name`. Claimed: the result depends on the path's text alone.
#[verifier::external_body]
pub(crate) fn file_name(p: &str) -> (r: Option<String>)
    ensures
        match r {
            Some(e) => path_file_name(p@) == Some(e@),
            None => path_file_name(p@) is None,
        },
{
    Path::new(p).file_name().map(|e| e.to_string_lossy().into_owned())
}

/// `Path::parent`. Claimed: the result depends on the path's text alone.
#[verifier::external_body]
pub(crate) fn parent(p: &str) -> (r: Option<String>)
    ensures
        match r {
            Some(e) => path_parent(p@) == Some(e@),
            None => path_parent(p@) is None,
        },
{
    Path::new(p).parent().map(|e| e.to_string_lossy().into_owned())
}

/// `Path::with_file_name`. Claimed: the result depends on the two texts alone.
#[verifier::external_body]
pub(crate) fn with_file_name(p: &str, name: &str) -> (r: String)
    ensures
        r@ == path_with_file_name(p@, name@),
{
    Path::new(p).with_file_name(name).to_string_lossy().into_owned()
}

} // verus!
