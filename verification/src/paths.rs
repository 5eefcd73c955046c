//! File-system path texts, read with `std::path`.
use vstd::prelude::*;

use crate::text::opt_text;

verus! {

/// What `Path::file_name` returns for a path text: its final component,
/// unless the path ends in `..` or has no normal component. Which characters
/// separate components is fixed by the platform the library is built for.
pub uninterp spec fn path_file_name(p: Seq<char>) -> Option<Seq<char>>;

/// What `Path::join` returns for a base path and a path text: the second
/// appended to the first with a separator where one is needed (or the second
/// alone where it is absolute), by the path rules of the platform the library
/// is built for.
pub uninterp spec fn joined_path(base: Seq<char>, rel: Seq<char>) -> Seq<char>;

/// The index of the last `c` in `s`, or `-1` where there is none.
pub open spec fn rfind_in(s: Seq<char>, c: char) -> int
    decreases s.len(),
{
    if s.len() == 0 {
        -1
    } else if s.last() == c {
        s.len() - 1
    } else {
        rfind_in(s.drop_last(), c)
    }
}

pub proof fn lemma_rfind_in_bounds(s: Seq<char>, c: char)
    ensures
        -1 <= rfind_in(s, c) < s.len(),
        rfind_in(s, c) >= 0 ==> s[rfind_in(s, c)] == c,
        forall|i: int| rfind_in(s, c) < i < s.len() ==> s[i] != c,
    decreases s.len(),
{
    if s.len() > 0 && s.last() != c {
        lemma_rfind_in_bounds(s.drop_last(), c);
        assert forall|i: int| rfind_in(s, c) < i < s.len() implies s[i] != c by {
            if i < s.len() - 1 {
                assert(s[i] == s.drop_last()[i]);
            }
        }
    }
}

/// The stem of a file name, as `Path::file_stem` documents it: the whole
/// name when it holds no `.` or holds one only at its start, else the part
/// before the last `.`.
pub open spec fn stem_of(name: Seq<char>) -> Seq<char> {
    let d = rfind_in(name, '.');
    if d <= 0 {
        name
    } else {
        name.take(d)
    }
}

/// The extension of a file name, as `Path::extension` documents it: none when
/// the name holds no `.` or holds one only at its start, else the part after
/// the last `.`.
pub open spec fn extension_of(name: Seq<char>) -> Option<Seq<char>> {
    let d = rfind_in(name, '.');
    if d <= 0 {
        None
    } else {
        Some(name.skip(d + 1))
    }
}

/// The stem of the file name of path text `p`, if it has a file name.
pub open spec fn path_file_stem(p: Seq<char>) -> Option<Seq<char>> {
    match path_file_name(p) {
        Some(n) => Some(stem_of(n)),
        None => None,
    }
}

/// The extension of the file name of path text `p`, if it has one.
pub open spec fn path_extension(p: Seq<char>) -> Option<Seq<char>> {
    match path_file_name(p) {
        Some(n) => extension_of(n),
        None => None,
    }
}

/// The final component of path `p`, by `Path::file_name`. The contract claims
/// only that the result is the value named `path_file_name` of the text.
#[verifier::external_body]
pub(crate) fn file_name(p: &str) -> (r: Option<String>)
    ensures
        opt_text(r) == path_file_name(p@),
{
    std::path::Path::new(p).file_name().and_then(|n| n.to_str()).map(|n| n.to_string())
}

/// The stem of the file name of path `p`, by `Path::file_stem`. The contract
/// claims what its documentation says: none without a file name, else the
/// stem of that name as `stem_of` reads it.
#[verifier::external_body]
pub(crate) fn file_stem(p: &str) -> (r: Option<String>)
    ensures
        opt_text(r) == path_file_stem(p@),
{
    std::path::Path::new(p).file_stem().and_then(|n| n.to_str()).map(|n| n.to_string())
}

/// The extension of the file name of path `p`, by `Path::extension`. The
/// contract claims what its documentation says: none without a file name,
/// else the extension of that name as `extension_of` reads it.
#[verifier::external_body]
pub(crate) fn extension(p: &str) -> (r: Option<String>)
    ensures
        opt_text(r) == path_extension(p@),
{
    std::path::Path::new(p).extension().and_then(|n| n.to_str()).map(|n| n.to_string())
}

/// Path `rel` joined onto path `base`, by `Path::join`. The contract claims
/// only that the result is the value named `joined_path` of the two texts.
#[verifier::external_body]
pub(crate) fn join_path(base: &str, rel: &str) -> (r: String)
    ensures
        r@ == joined_path(base@, rel@),
{
    std::path::Path::new(base).join(rel).to_string_lossy().into_owned()
}

} // verus!
