//! Application discovery on Windows, from the `assoc` and `ftype` file
//! associations that `cmd` reports.
use vstd::prelude::*;

use crate::options::OpenOption;
use crate::paths::{extension, file_stem, path_extension, path_file_stem};
use crate::text::{
    lemma_trim_ends,
    chars_of, char_is_white_space, find_char, find_in, is_white_space, lemma_find_in_bounds,
    opt_text, string_of_range, trim, trim_range,
};

verus! {

/// The index of the first white space character in `s`, or `s.len()`.
pub open spec fn find_white_space(s: Seq<char>) -> int
    decreases s.len(),
{
    if s.len() == 0 {
        0
    } else if is_white_space(s[0]) {
        0
    } else {
        1 + find_white_space(s.drop_first())
    }
}

/// The part of `s` after its first `sep`, if it holds one (`str::split_once`).
pub open spec fn after_first(s: Seq<char>, sep: char) -> Option<Seq<char>> {
    let k = find_in(s, sep);
    if 0 <= k < s.len() {
        Some(s.skip(k + 1))
    } else {
        None
    }
}

/// The program path at the start of a command line: the text between a
/// leading pair of double quotes, else the first white-space separated word.
pub open spec fn command_program(command: Seq<char>) -> Option<Seq<char>> {
    let t = trim(command);
    if t.len() > 0 && t[0] == '"' {
        let rest = t.drop_first();
        let q = find_in(rest, '"');
        if 0 <= q < rest.len() {
            Some(rest.take(q))
        } else {
            None
        }
    } else if t.len() == 0 {
        None
    } else {
        Some(t.take(find_white_space(t)))
    }
}

proof fn lemma_find_white_space_bounds(s: Seq<char>)
    ensures
        0 <= find_white_space(s) <= s.len(),
        find_white_space(s) < s.len() ==> is_white_space(s[find_white_space(s)]),
        forall|i: int| 0 <= i < find_white_space(s) ==> !is_white_space(s[i]),
    decreases s.len(),
{
    if s.len() > 0 && !is_white_space(s[0]) {
        lemma_find_white_space_bounds(s.drop_first());
        assert forall|i: int| 0 <= i < find_white_space(s) implies !is_white_space(s[i]) by {
            if i > 0 {
                assert(s[i] == s.drop_first()[i - 1]);
            }
        }
    }
}

/// The program that a command line names: nothing for a blank command; for
/// an unquoted one, its first word, which is not empty, holds no white space,
/// and ends where white space or the command ends; for one that opens with a
/// double quote, the text up to the next double quote, or nothing where none
/// follows.
pub proof fn lemma_command_program_shape(command: Seq<char>)
    ensures
        trim(command).len() == 0 ==> command_program(command) is None,
        trim(command).len() > 0 && trim(command)[0] != '"' ==> (command_program(command) matches Some(p)
            && p.len() > 0 && p.is_prefix_of(trim(command)) && (forall|i: int|
            0 <= i < p.len() ==> !is_white_space(#[trigger] p[i])) && (p.len() == trim(command).len()
            || is_white_space(trim(command)[p.len() as int]))),
        trim(command).len() > 0 && trim(command)[0] == '"' ==> match command_program(command) {
            Some(p) => p.len() + 1 < trim(command).len() && trim(command)[p.len() as int + 1] == '"' && p
                == trim(command).subrange(1, p.len() as int + 1) && !p.contains('"'),
            None => forall|i: int| 1 <= i < trim(command).len() ==> trim(command)[i] != '"',
        },
{
    let t = trim(command);
    lemma_trim_ends(command);
    if t.len() > 0 && t[0] != '"' {
        lemma_find_white_space_bounds(t);
        let f = find_white_space(t);
        assert(f > 0);
        let p = t.take(f);
        assert forall|i: int| 0 <= i < p.len() implies !is_white_space(#[trigger] p[i]) by {
            assert(p[i] == t[i]);
        }
        assert(p.is_prefix_of(t));
    }
    if t.len() > 0 && t[0] == '"' {
        let rest = t.drop_first();
        lemma_find_in_bounds(rest, '"');
        let q = find_in(rest, '"');
        if q < rest.len() {
            let p = rest.take(q);
            assert(p == t.subrange(1, q + 1));
            assert(t[q + 1] == rest[q]);
            assert forall|i: int| 0 <= i < p.len() implies p[i] != '"' by {
                assert(p[i] == rest[i]);
            }
        } else {
            assert forall|i: int| 1 <= i < t.len() implies t[i] != '"' by {
                assert(t[i] == rest[i - 1]);
            }
        }
    }
}

/// The program path at the start of `command`.
pub fn command_program_path(command: &str) -> (r: Option<String>)
    ensures
        opt_text(r) == command_program(command@),
{
    let v = chars_of(command);
    let (a, b) = trim_range(&v, 0, v.len());
    let ghost t = v@.subrange(a as int, b as int);
    assert(v@.subrange(0, v@.len() as int) == v@);
    if a < b && v[a] == '"' {
        let q = find_char(&v, a + 1, b, '"');
        proof {
            assert(t.drop_first() == v@.subrange(a + 1, b as int));
            lemma_find_in_bounds(t.drop_first(), '"');
        }
        if q < b {
            assert(t.drop_first().take(q - (a + 1)) == v@.subrange(a + 1, q as int));
            Some(string_of_range(&v, a + 1, q))
        } else {
            None
        }
    } else if a == b {
        None
    } else {
        let mut e = a;
        while e < b && !char_is_white_space(v[e])
            invariant
                a <= e <= b <= v@.len(),
                find_white_space(t) == (e - a) + find_white_space(v@.subrange(e as int, b as int)),
            decreases b - e,
        {
            assert(v@.subrange(e as int, b as int).drop_first() == v@.subrange(e + 1, b as int));
            e = e + 1;
        }
        assert(t.take(e - a) == v@.subrange(a as int, e as int));
        Some(string_of_range(&v, a, e))
    }
}

/// The stem of the program that `command` runs (`notepad` for
/// `"C:\Windows\notepad.exe" %1`).
pub fn executable_name(command: &str) -> (r: Option<String>)
    ensures
        opt_text(r) == match command_program(command@) {
            Some(p) => path_file_stem(p),
            None => None,
        },
{
    match command_program_path(command) {
        Some(p) => file_stem(p.as_str()),
        None => None,
    }
}

/// The text that a `cmd` query gives: its trimmed output when it succeeded,
/// else nothing.
pub fn command_output_text(success: bool, stdout: &str) -> (r: String)
    ensures
        r@ == if success {
            trim(stdout@)
        } else {
            Seq::empty()
        },
{
    if success {
        let v = chars_of(stdout);
        let (a, b) = trim_range(&v, 0, v.len());
        assert(v@.subrange(0, v@.len() as int) == v@);
        string_of_range(&v, a, b)
    } else {
        String::new()
    }
}

/// The argument of the `assoc` query for `file`: its extension with a leading
/// dot, or `None` where it has no extension.
pub fn assoc_argument(file: &str) -> (r: Option<String>)
    ensures
        opt_text(r) == match path_extension(file@) {
            Some(e) => Some(seq!['.'] + e),
            None => None,
        },
{
    match extension(file) {
        Some(e) => {
            let mut s = String::new();
            s.append(".");
            s.append(e.as_str());
            proof {
                reveal_strlit(".");
                assert("."@ =~= seq!['.']);
                assert(Seq::<char>::empty() + "."@ == "."@);
            }
            Some(s)
        },
        None => None,
    }
}

/// The text after the first `sep` in `v[a..b]`, if it holds one.
fn text_after(v: &Vec<char>, a: usize, b: usize, sep: char) -> (r: Option<String>)
    requires
        a <= b <= v@.len(),
    ensures
        opt_text(r) == after_first(v@.subrange(a as int, b as int), sep),
{
    let k = find_char(v, a, b, sep);
    proof {
        lemma_find_in_bounds(v@.subrange(a as int, b as int), sep);
    }
    if k < b {
        assert(v@.subrange(a as int, b as int).skip(k - a + 1) == v@.subrange(k + 1, b as int));
        Some(string_of_range(v, k + 1, b))
    } else {
        None
    }
}

/// The program identifier that an `assoc` answer (`.txt=txtfile`) names.
pub fn prog_id_of(assoc: &str) -> (r: Option<String>)
    ensures
        opt_text(r) == after_first(trim(assoc@), '='),
{
    let v = chars_of(assoc);
    let (a, b) = trim_range(&v, 0, v.len());
    assert(v@.subrange(0, v@.len() as int) == v@);
    text_after(&v, a, b, '=')
}

/// The name shown for program identifier `prog_id`, given the stem of the
/// program that its `ftype` command runs: that stem, else the identifier.
pub fn option_for_program(prog_id: &str, program_stem: Option<String>) -> (r: OpenOption)
    ensures
        r.name@ == match opt_text(program_stem) {
            Some(n) => n,
            None => prog_id@,
        },
        opt_text(r.id) == Some(prog_id@),
        r.path is None,
{
    let name = match program_stem {
        Some(n) => n,
        None => prog_id.to_string(),
    };
    OpenOption { name, id: Some(prog_id.to_string()), path: None }
}

/// The stem of the program that an `ftype` answer (`txtfile=notepad.exe %1`)
/// runs, if it names one.
pub open spec fn ftype_program_stem(ftype: Seq<char>) -> Option<Seq<char>> {
    match after_first(ftype, '=') {
        Some(command) => match command_program(command) {
            Some(p) => path_file_stem(p),
            None => None,
        },
        None => None,
    }
}

/// The options for a file whose extension is associated with `prog_id`, given
/// the `ftype` answer for it: one option, named after the program that the
/// association runs (or after the identifier where none can be read from it).
pub fn discover_open_options(prog_id: &str, ftype: &str) -> (r: Vec<OpenOption>)
    ensures
        r@.len() == 1,
        r@[0].name@ == match ftype_program_stem(ftype@) {
            Some(n) => n,
            None => prog_id@,
        },
        opt_text(r@[0].id) == Some(prog_id@),
        r@[0].path is None,
{
    let v = chars_of(ftype);
    assert(v@.subrange(0, v@.len() as int) == v@);
    let stem = match text_after(&v, 0, v.len(), '=') {
        Some(command) => executable_name(command.as_str()),
        None => None,
    };
    let mut r = Vec::new();
    r.push(option_for_program(prog_id, stem));
    r
}

/// The failure text when `cmd` could not be run to query the file
/// associations, quoting the reason.
pub fn query_failure_message(reason: &str) -> (r: String)
    ensures
        r@ == "could not query Windows file associations: "@ + reason@,
{
    let mut r = String::new();
    r.append("could not query Windows file associations: ");
    r.append(reason);
    assert(Seq::<char>::empty() + "could not query Windows file associations: "@
        == "could not query Windows file associations: "@);
    r
}

/// Where discovery on Windows stands: the next query to make, or its result.
pub enum WindowsStep {
    /// Ask `assoc` for the program identifier of this dotted extension.
    QueryAssoc(String),
    /// Ask `ftype` for the command of this program identifier.
    QueryFtype(String),
    /// Discovery is over.
    Done(Result<Vec<OpenOption>, String>),
}

/// The first step of discovery for `file`: query its extension's association,
/// or list nothing where it has no extension.
pub fn start_discovery(file: &str) -> (r: WindowsStep)
    ensures
        match path_extension(file@) {
            Some(e) => r matches WindowsStep::QueryAssoc(a) && a@ == seq!['.'] + e,
            None => r matches WindowsStep::Done(Ok(v)) && v@.len() == 0,
        },
{
    match assoc_argument(file) {
        Some(a) => WindowsStep::QueryAssoc(a),
        None => WindowsStep::Done(Ok(Vec::new())),
    }
}

/// The step after the `assoc` query: its failure ends discovery; an answer
/// that names a program identifier leads to the `ftype` query; any other
/// answer lists nothing.
pub fn after_assoc(answer: Result<String, String>) -> (r: WindowsStep)
    ensures
        match answer {
            Err(e) => r matches WindowsStep::Done(Err(f)) && f == e,
            Ok(a) => match after_first(trim(a@), '=') {
                Some(p) => r matches WindowsStep::QueryFtype(q) && q@ == p,
                None => r matches WindowsStep::Done(Ok(v)) && v@.len() == 0,
            },
        },
{
    match answer {
        Err(e) => WindowsStep::Done(Err(e)),
        Ok(a) => match prog_id_of(a.as_str()) {
            Some(p) => WindowsStep::QueryFtype(p),
            None => WindowsStep::Done(Ok(Vec::new())),
        },
    }
}

/// The step after the `ftype` query for `prog_id`: the one option of
/// `discover_open_options`, read from the answer, or from an empty answer
/// where the query failed.
pub fn after_ftype(prog_id: &str, answer: Result<String, String>) -> (r: WindowsStep)
    ensures
        r matches WindowsStep::Done(Ok(v)) && v@.len() == 1 && v@[0].name@ == match ftype_program_stem(
            match answer {
                Ok(t) => t@,
                Err(_) => Seq::<char>::empty(),
            },
        ) {
            Some(n) => n,
            None => prog_id@,
        } && opt_text(v@[0].id) == Some(prog_id@) && v@[0].path is None,
{
    let text = match answer {
        Ok(t) => t,
        Err(_) => String::new(),
    };
    WindowsStep::Done(Ok(discover_open_options(prog_id, text.as_str())))
}

} // verus!
