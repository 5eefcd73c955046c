//! Application discovery on macOS, from the application paths that Launch
//! Services gives for a file.
use vstd::prelude::*;

use crate::options::OpenOption;
use crate::paths::{file_name, file_stem, lemma_rfind_in_bounds, path_file_name, rfind_in, stem_of};
use crate::text::opt_text;

verus! {

/// The name shown for the application at path text `p`: the stem of its file
/// name (`Mail` for `/Applications/Mail.app`), or the whole path where it has
/// no file name.
pub open spec fn app_display_name(p: Seq<char>) -> Seq<char> {
    match path_file_name(p) {
        Some(n) => stem_of(n),
        None => p,
    }
}

/// The name shown for an application is its path where the path has no file
/// name; else the file name where no dot follows its first character; else
/// the file name up to its last dot (`zoom.us` for `zoom.us.app`).
pub proof fn lemma_display_name_is_stem(p: Seq<char>)
    ensures
        path_file_name(p) is None ==> app_display_name(p) == p,
        path_file_name(p) matches Some(n) ==> (forall|i: int| 1 <= i < n.len() ==> n[i] != '.')
            ==> app_display_name(p) == n,
        path_file_name(p) matches Some(n) ==> (exists|i: int| 1 <= i < n.len() && n[i] == '.') ==> {
            let d = app_display_name(p);
            &&& 1 <= d.len() < n.len()
            &&& d == n.take(d.len() as int)
            &&& n[d.len() as int] == '.'
            &&& forall|i: int| d.len() < i < n.len() ==> n[i] != '.'
        },
{
    if let Some(n) = path_file_name(p) {
        lemma_rfind_in_bounds(n, '.');
        let k = rfind_in(n, '.');
        if exists|i: int| 1 <= i < n.len() && n[i] == '.' {
            let i = choose|i: int| 1 <= i < n.len() && n[i] == '.';
            assert(k >= i);
        } else {
            if k >= 1 {
                assert(n[k] == '.');
            }
        }
    }
}

/// The name shown for the application at `path`, given the stem and the file
/// name of that path: the stem, else the file name, else the path itself.
pub fn display_name_from_parts(path: &str, stem: Option<String>, name: Option<String>) -> (r: String)
    ensures
        r@ == match opt_text(stem) {
            Some(s) => s,
            None => match opt_text(name) {
                Some(n) => n,
                None => path@,
            },
        },
{
    match stem {
        Some(s) => s,
        None => match name {
            Some(n) => n,
            None => path.to_string(),
        },
    }
}

/// The name shown for the application at `path`.
pub fn display_name_from_app_path(path: &str) -> (r: String)
    ensures
        r@ == app_display_name(path@),
{
    let stem = file_stem(path);
    let name = if stem.is_some() {
        None
    } else {
        file_name(path)
    };
    display_name_from_parts(path, stem, name)
}

/// The paths held by `ps`, in order, leaving out the missing ones.
pub open spec fn present_paths(ps: Seq<Option<String>>) -> Seq<String>
    decreases ps.len(),
{
    if ps.len() == 0 {
        seq![]
    } else {
        present_paths(ps.drop_last()) + match ps.last() {
            Some(p) => seq![p],
            None => seq![],
        }
    }
}

/// The options for the applications at `app_paths` (one entry per application
/// that Launch Services listed, `None` where its path could not be read): for
/// each path, in order, its display name and the path itself.
pub fn discover_open_options(app_paths: &Vec<Option<String>>) -> (r: Vec<OpenOption>)
    ensures
        r@.len() == present_paths(app_paths@).len(),
        forall|j: int|
            0 <= j < r@.len() ==> {
                let p = present_paths(app_paths@)[j];
                &&& (#[trigger] r@[j]).name@ == app_display_name(p@)
                &&& r@[j].id is None
                &&& r@[j].path == Some(p)
            },
{
    let mut r: Vec<OpenOption> = Vec::new();
    for i in 0..app_paths.len()
        invariant
            r@.len() == present_paths(app_paths@.take(i as int)).len(),
            forall|j: int|
                0 <= j < r@.len() ==> {
                    let p = present_paths(app_paths@.take(i as int))[j];
                    &&& (#[trigger] r@[j]).name@ == app_display_name(p@)
                    &&& r@[j].id is None
                    &&& r@[j].path == Some(p)
                },
    {
        let ghost before = present_paths(app_paths@.take(i as int));
        assert(app_paths@.take(i + 1).drop_last() == app_paths@.take(i as int));
        if let Some(p) = &app_paths[i] {
            let name = display_name_from_app_path(p.as_str());
            r.push(OpenOption { name, id: None, path: Some(p.clone()) });
            assert(present_paths(app_paths@.take(i + 1)) == before.push(*p));
        } else {
            assert(present_paths(app_paths@.take(i + 1)) == before);
        }
    }
    assert(app_paths@.take(app_paths@.len() as int) == app_paths@);
    r
}

/// `before + quoted + after`, as a text.
fn message(before: &str, quoted: &str, after: &str) -> (r: String)
    ensures
        r@ == before@ + quoted@ + after@,
{
    let mut r = String::new();
    r.append(before);
    r.append(quoted);
    r.append(after);
    assert(Seq::<char>::empty() + before@ == before@);
    r
}

/// The failure text when Launch Services answered the query for `path` with
/// the status whose decimal text is `status`.
pub fn launch_services_failure(path: &str, status: &str) -> (r: String)
    ensures
        r@ == "could not query Launch Services for '"@ + path@ + "': status "@ + status@,
{
    let mut r = message("could not query Launch Services for '", path, "': status ");
    r.append(status);
    r
}

/// The failure text when `path` holds a NUL byte and cannot be handed over.
pub fn interior_nul_failure(path: &str) -> (r: String)
    ensures
        r@ == "path contains an interior NUL byte: '"@ + path@ + "'"@,
{
    message("path contains an interior NUL byte: '", path, "'")
}

/// The failure text when no file URL could be made for `path`.
pub fn file_url_failure(path: &str) -> (r: String)
    ensures
        r@ == "could not create file URL for '"@ + path@ + "'"@,
{
    message("could not create file URL for '", path, "'")
}

} // verus!
