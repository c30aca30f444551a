//! Where a `source = ` line of the configuration leads: a missing `.conf`
//! file stands for the `*.conf` files beside it, and a path under the usual
//! configuration directory is taken under the directory of the file being
//! read when it is found there.
use crate::parser::{joined_path, opt_view, parent_path, path_join, path_parent};
use vstd::prelude::*;

verus! {

broadcast use vstd::string::group_string_axioms;

/// Whether the path ends with the path `child`, whole components compared
/// (`Path::ends_with`).
pub uninterp spec fn path_ends_with(p: Seq<char>, child: Seq<char>) -> bool;

/// The rest of `p` after the leading path `base`, whole components
/// compared (`Path::strip_prefix`), if `base` leads it.
pub uninterp spec fn stripped_path(p: Seq<char>, base: Seq<char>) -> Option<Seq<char>>;

/// Whether two paths have the same components (`==` on `Path`).
pub uninterp spec fn same_path(a: Seq<char>, b: Seq<char>) -> bool;

/// `Path::ends_with`; its result is named.
#[verifier::external_body]
fn ends_with_path(p: &str, child: &str) -> (r: bool)
    ensures
        r == path_ends_with(p@, child@),
{
    std::path::Path::new(p).ends_with(child)
}

/// `Path::strip_prefix`; its result is named.
#[verifier::external_body]
fn strip_path_prefix(p: &str, base: &str) -> (r: Option<String>)
    ensures
        opt_view(r) == stripped_path(p@, base@),
{
    std::path::Path::new(p).strip_prefix(base).ok().map(|q| q.to_string_lossy().into_owned())
}

/// `==` on two `Path`s; its result is named.
#[verifier::external_body]
fn paths_equal(a: &str, b: &str) -> (r: bool)
    ensures
        r == same_path(a@, b@),
{
    std::path::Path::new(a) == std::path::Path::new(b)
}

/// A sourced path after the `*.conf` fallback: a missing path whose last
/// component is `.conf` stands for `*.conf` in its directory.
pub open spec fn fallback_of(path: Seq<char>, path_exists: bool) -> Seq<char> {
    if !path_exists && path_ends_with(path, ".conf"@) {
        match parent_path(path) {
            Some(d) => joined_path(d, "*.conf"@),
            None => path,
        }
    } else {
        path
    }
}

/// Where the path would lead under the directory being read, when the two
/// configuration roots differ and the path lies under the usual one.
pub open spec fn remap_of(path: Seq<char>, path_exists: bool, system_root: Seq<char>, active_root: Seq<char>) -> Option<
    Seq<char>,
> {
    let f = fallback_of(path, path_exists);
    if !same_path(system_root, active_root) {
        match stripped_path(f, system_root) {
            Some(rest) => Some(joined_path(active_root, rest)),
            None => None,
        }
    } else {
        None
    }
}

/// The path a `source = ` line leads to: the remapped path when there is
/// one and it was found, else the path after the `*.conf` fallback.
pub open spec fn source_target_of(
    path: Seq<char>,
    path_exists: bool,
    system_root: Seq<char>,
    active_root: Seq<char>,
    remapped_found: bool,
) -> Seq<char> {
    match remap_of(path, path_exists, system_root, active_root) {
        Some(r) => if remapped_found {
            r
        } else {
            fallback_of(path, path_exists)
        },
        None => fallback_of(path, path_exists),
    }
}

fn fallback(path: &str, path_exists: bool) -> (r: String)
    ensures
        r@ == fallback_of(path@, path_exists),
{
    if !path_exists && ends_with_path(path, ".conf") {
        match path_parent(path) {
            Some(d) => path_join(d.as_str(), "*.conf"),
            None => path.to_string(),
        }
    } else {
        path.to_string()
    }
}

/// The path to look for under the directory being read, if the line's
/// path is remapped there when found.
pub fn remap_candidate(path: &str, path_exists: bool, system_root: &str, active_root: &str) -> (r: Option<String>)
    ensures
        opt_view(r) == remap_of(path@, path_exists, system_root@, active_root@),
{
    let f = fallback(path, path_exists);
    if !paths_equal(system_root, active_root) {
        match strip_path_prefix(f.as_str(), system_root) {
            Some(rest) => Some(path_join(active_root, rest.as_str())),
            None => None,
        }
    } else {
        None
    }
}

/// The path a `source = ` line leads to; `path_exists` tells whether the
/// expanded path exists, `remapped_found` whether the remapped path (see
/// `remap_candidate`) exists or, as a pattern, matches a file.
pub fn source_target(
    path: &str,
    path_exists: bool,
    system_root: &str,
    active_root: &str,
    remapped_found: bool,
) -> (r: String)
    ensures
        r@ == source_target_of(path@, path_exists, system_root@, active_root@, remapped_found),
{
    match remap_candidate(path, path_exists, system_root, active_root) {
        Some(r) => if remapped_found {
            r
        } else {
            fallback(path, path_exists)
        },
        None => fallback(path, path_exists),
    }
}

} // verus!
