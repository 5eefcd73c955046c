//! Application discovery from freedesktop `.desktop` files.
use vstd::prelude::*;

use crate::options::{option_view, OpenOption, OptionView};
use crate::paths::{extension, file_name, join_path, joined_path, path_extension, path_file_name};
use crate::text::{
    ascii_lower_code, chars_of, opt_text, eq_ignore_ascii_case, is_white_space, trim_end, trim_start, find_char, find_in, lemma_find_in_bounds, range_eq,
    range_eq_ignore_ascii_case, range_starts_with, string_of_range, text_eq, trim, trim_range,
};

verus! {

/// What a `.desktop` file says of an application: the name to show and the
/// MIME types it declares it can open.
pub struct DesktopEntry {
    pub name: String,
    pub mime_types: Vec<String>,
}

/// The mathematical value of a [`DesktopEntry`].
pub struct DesktopEntryView {
    pub name: Seq<char>,
    pub mime_types: Seq<Seq<char>>,
}

impl View for DesktopEntry {
    type V = DesktopEntryView;

    open spec fn view(&self) -> DesktopEntryView {
        DesktopEntryView { name: self.name@, mime_types: self.mime_types.deep_view() }
    }
}

/// What has been read of a `.desktop` file after some of its lines.
pub struct EntryScan {
    /// The last group header seen was `[Desktop Entry]`.
    pub in_entry: bool,
    /// `NoDisplay` was set to `true` in a `[Desktop Entry]` group.
    pub hidden: bool,
    /// The value of the last `Name` key.
    pub name: Option<Seq<char>>,
    /// The value of the first localized `Name[..]` key.
    pub localized: Option<Seq<char>>,
    /// The MIME types of all `MimeType` keys, in order.
    pub mime_types: Seq<Seq<char>>,
}

pub open spec fn initial_scan() -> EntryScan {
    EntryScan { in_entry: false, hidden: false, name: None, localized: None, mime_types: seq![] }
}

/// The non-empty pieces of `v` between occurrences of `sep`, in order
/// (`str::split` with the empty pieces left out).
pub open spec fn nonempty_fields(v: Seq<char>, sep: char) -> Seq<Seq<char>>
    decreases v.len(),
{
    let e = find_in(v, sep);
    let piece = v.take(e);
    let rest = if 0 <= e < v.len() {
        nonempty_fields(v.skip(e + 1), sep)
    } else {
        seq![]
    };
    if piece.len() > 0 {
        seq![piece] + rest
    } else {
        rest
    }
}

/// A piece with no separator in it is one field, or none where it is empty.
pub proof fn lemma_fields_of_piece(a: Seq<char>, sep: char)
    requires
        !a.contains(sep),
    ensures
        nonempty_fields(a, sep) == if a.len() > 0 {
            seq![a]
        } else {
            seq![]
        },
{
    lemma_find_in_bounds(a, sep);
    if find_in(a, sep) < a.len() {
        assert(a[find_in(a, sep)] == sep);
    }
    assert(a.take(a.len() as int) == a);
}

/// Splitting at the first separator: the fields of `a`, which holds none,
/// then those of what follows the separator.
pub proof fn lemma_fields_split(a: Seq<char>, b: Seq<char>, sep: char)
    requires
        !a.contains(sep),
    ensures
        nonempty_fields(a + seq![sep] + b, sep) == nonempty_fields(a, sep) + nonempty_fields(b, sep),
{
    let s = a + seq![sep] + b;
    lemma_fields_of_piece(a, sep);
    lemma_find_in_bounds(s, sep);
    assert(s[a.len() as int] == sep);
    assert forall|i: int| 0 <= i < a.len() implies s[i] != sep by {
        assert(s[i] == a[i]);
        if a[i] == sep {
            assert(a.contains(sep));
        }
    }
    assert(find_in(s, sep) == a.len()) by {
        if find_in(s, sep) < a.len() {
            assert(s[find_in(s, sep)] == sep);
        }
    }
    assert(s.take(a.len() as int) == a);
    assert(s.skip(a.len() as int + 1) == b);
}

/// The effect of one trimmed line `t` of a `.desktop` file.
pub open spec fn scan_line(st: EntryScan, t: Seq<char>) -> EntryScan {
    if st.hidden || t.len() == 0 || t[0] == '#' {
        st
    } else if t[0] == '[' && t.last() == ']' {
        EntryScan { in_entry: t == "[Desktop Entry]"@, ..st }
    } else if !st.in_entry {
        st
    } else {
        let k = find_in(t, '=');
        if !(0 <= k < t.len()) {
            st
        } else {
            let key = t.take(k);
            let value = t.skip(k + 1);
            if key == "NoDisplay"@ && eq_ignore_ascii_case(value, "true"@) {
                EntryScan { hidden: true, ..st }
            } else if key == "Name"@ {
                EntryScan { name: Some(value), ..st }
            } else if "Name["@.is_prefix_of(key) && st.localized is None {
                EntryScan { localized: Some(value), ..st }
            } else if key == "MimeType"@ {
                EntryScan { mime_types: st.mime_types + nonempty_fields(value, ';'), ..st }
            } else {
                st
            }
        }
    }
}

/// The scan state after reading every line of `s`, starting from `st`. Lines
/// end at `'\n'`; each is trimmed of white space (which takes a `'\r'` before
/// the `'\n'` with it), and a final `'\n'` starts no further line.
pub open spec fn scan_text(s: Seq<char>, st: EntryScan) -> EntryScan
    decreases s.len(),
{
    if s.len() == 0 {
        st
    } else {
        let e = find_in(s, '\n');
        let next = scan_line(st, trim(s.take(e)));
        if 0 <= e < s.len() {
            scan_text(s.skip(e + 1), next)
        } else {
            next
        }
    }
}

/// The entry that a `.desktop` file with text `contents` describes: none when
/// it hides itself or names no application; else the first localized name if
/// there is one, the last plain `Name` otherwise, with all declared MIME types.
pub open spec fn desktop_entry_of(contents: Seq<char>) -> Option<DesktopEntryView> {
    let st = scan_text(contents, initial_scan());
    if st.hidden {
        None
    } else {
        match st.localized {
            Some(n) => Some(DesktopEntryView { name: n, mime_types: st.mime_types }),
            None => match st.name {
                Some(n) => Some(DesktopEntryView { name: n, mime_types: st.mime_types }),
                None => None,
            },
        }
    }
}

proof fn lemma_hidden_stays(s: Seq<char>, st: EntryScan)
    requires
        st.hidden,
    ensures
        scan_text(s, st) == st,
    decreases s.len(),
{
    if s.len() > 0 {
        lemma_find_in_bounds(s, '\n');
        let e = find_in(s, '\n');
        if e < s.len() {
            lemma_hidden_stays(s.skip(e + 1), st);
        }
    }
}

/// Reading `t + u`, where `t` ends at a line break, reads `t` and then `u`.
pub proof fn lemma_scan_text_append(t: Seq<char>, u: Seq<char>, st: EntryScan)
    requires
        t.len() == 0 || t.last() == '\n',
    ensures
        scan_text(t + u, st) == scan_text(u, scan_text(t, st)),
    decreases t.len(),
{
    if t.len() > 0 {
        let e = find_in(t, '\n');
        lemma_find_in_bounds(t, '\n');
        lemma_find_in_bounds(t + u, '\n');
        let e2 = find_in(t + u, '\n');
        assert(e < t.len());
        assert((t + u)[e] == '\n');
        assert forall|i: int| 0 <= i < e implies (t + u)[i] != '\n' by {
            assert((t + u)[i] == t[i]);
        }
        assert(e2 == e) by {
            if e2 < e {
                assert((t + u)[e2] == t[e2]);
            }
        }
        assert((t + u).take(e) == t.take(e));
        let next = scan_line(st, trim(t.take(e)));
        let rest = t.skip(e + 1);
        assert((t + u).skip(e + 1) == rest + u);
        if rest.len() > 0 {
            assert(rest.last() == t.last());
        }
        lemma_scan_text_append(rest, u, next);
        if rest.len() == 0 {
            assert(rest + u == u);
        }
    } else {
        assert(t + u == u);
    }
}

/// A file that hides itself in its `[Desktop Entry]` group describes no
/// application, whatever lines follow.
pub proof fn lemma_hidden_whatever_follows(t: Seq<char>, u: Seq<char>)
    requires
        t.len() == 0 || t.last() == '\n',
        scan_text(t, initial_scan()).hidden,
    ensures
        desktop_entry_of(t + u) is None,
{
    lemma_scan_text_append(t, u, initial_scan());
    lemma_hidden_stays(u, scan_text(t, initial_scan()));
}

/// Blank lines and comment lines change nothing: a file reads the same with
/// such a line `c` put in at any line break.
pub proof fn lemma_comment_line_ignored(t: Seq<char>, c: Seq<char>, u: Seq<char>)
    requires
        t.len() == 0 || t.last() == '\n',
        !c.contains('\n'),
        trim(c).len() == 0 || trim(c)[0] == '#',
    ensures
        desktop_entry_of(t + (c.push('\n') + u)) == desktop_entry_of(t + u),
{
    let st = scan_text(t, initial_scan());
    let line = c.push('\n');
    lemma_scan_text_append(t, line + u, initial_scan());
    lemma_scan_text_append(line, u, st);
    lemma_scan_text_append(t, u, initial_scan());
    lemma_find_in_bounds(line, '\n');
    assert forall|i: int| 0 <= i < c.len() implies line[i] != '\n' by {
        assert(line[i] == c[i]);
        if c[i] == '\n' {
            assert(c.contains('\n'));
        }
    }
    assert(find_in(line, '\n') == c.len()) by {
        assert(line[c.len() as int] == '\n');
        if find_in(line, '\n') < c.len() {
            assert(line[find_in(line, '\n')] == '\n');
        }
    }
    assert(line.take(c.len() as int) == c);
    assert(line.skip(c.len() as int + 1).len() == 0);
    assert(scan_text(line.skip(c.len() as int + 1), scan_line(st, trim(c))) == scan_line(st, trim(c)));
    assert(scan_text(line, st) == scan_line(st, trim(c)));
}

proof fn lemma_scan_append_line(t: Seq<char>, l: Seq<char>, st: EntryScan)
    requires
        t.len() == 0 || t.last() == '\n',
        !l.contains('\n'),
    ensures
        scan_text(t + l.push('\n'), st) == scan_line(scan_text(t, st), trim(l)),
{
    let s = scan_text(t, st);
    let line = l.push('\n');
    lemma_scan_text_append(t, line, st);
    lemma_find_in_bounds(line, '\n');
    assert forall|i: int| 0 <= i < l.len() implies line[i] != '\n' by {
        assert(line[i] == l[i]);
        if l[i] == '\n' {
            assert(l.contains('\n'));
        }
    }
    assert(find_in(line, '\n') == l.len()) by {
        assert(line[l.len() as int] == '\n');
        if find_in(line, '\n') < l.len() {
            assert(line[find_in(line, '\n')] == '\n');
        }
    }
    assert(line.take(l.len() as int) == l);
    assert(line.skip(l.len() as int + 1).len() == 0);
    assert(scan_text(line.skip(l.len() as int + 1), scan_line(s, trim(l))) == scan_line(s, trim(l)));
}

proof fn lemma_trim_plain(s: Seq<char>)
    requires
        s.len() > 0 ==> !is_white_space(s[0]) && !is_white_space(s.last()),
    ensures
        trim(s) == s,
{
    assert(trim_start(s) == s);
    assert(trim_end(s) == s);
}

/// A line `key=v` as the scan reads it.
proof fn lemma_key_line(key: Seq<char>, v: Seq<char>)
    requires
        key.len() > 0,
        !key.contains('='),
        !key.contains('\n'),
        !is_white_space(key[0]),
        !v.contains('\n'),
        v.len() == 0 || !is_white_space(v.last()),
    ensures
        ({
            let l = key + "="@ + v;
            &&& trim(l) == l
            &&& !l.contains('\n')
            &&& l.len() > 0 && l[0] == key[0]
            &&& find_in(l, '=') == key.len()
            &&& l.take(key.len() as int) == key
            &&& l.skip(key.len() as int + 1) == v
        }),
{
    reveal_strlit("=");
    let l = key + "="@ + v;
    assert(l[0] == key[0]);
    assert(l.last() == if v.len() == 0 { '=' } else { v.last() });
    lemma_trim_plain(l);
    lemma_find_in_bounds(l, '=');
    assert(l[key.len() as int] == '=');
    assert forall|i: int| 0 <= i < key.len() implies l[i] != '=' by {
        assert(l[i] == key[i]);
        if key[i] == '=' {
            assert(key.contains('='));
        }
    }
    assert(find_in(l, '=') == key.len()) by {
        if find_in(l, '=') < key.len() {
            assert(l[find_in(l, '=')] == '=');
        }
    }
    assert(l.take(key.len() as int) == key);
    assert(l.skip(key.len() as int + 1) == v);
    assert(!l.contains('\n')) by {
        if l.contains('\n') {
            let i = choose|i: int| 0 <= i < l.len() && l[i] == '\n';
            if i < key.len() {
                assert(key[i] == '\n');
                assert(key.contains('\n'));
            } else if i > key.len() {
                assert(v[i - key.len() - 1] == '\n');
                assert(v.contains('\n'));
            }
        }
    }
}

/// A `MimeType=v` line in the `[Desktop Entry]` group adds the non-empty
/// `;`-separated fields of `v`, in order, after the types declared before it,
/// and changes nothing else of the entry.
pub proof fn lemma_mime_type_line_extends(t: Seq<char>, v: Seq<char>)
    requires
        t.len() == 0 || t.last() == '\n',
        scan_text(t, initial_scan()).in_entry,
        !v.contains('\n'),
        v.len() == 0 || !is_white_space(v.last()),
    ensures
        desktop_entry_of(t + ("MimeType="@ + v).push('\n')) == match desktop_entry_of(t) {
            None => None,
            Some(e) => Some(
                DesktopEntryView { name: e.name, mime_types: e.mime_types + nonempty_fields(v, ';') },
            ),
        },
{
    reveal_strlit("MimeType");
    reveal_strlit("MimeType=");
    reveal_strlit("=");
    reveal_strlit("NoDisplay");
    reveal_strlit("Name");
    reveal_strlit("Name[");
    let key = "MimeType"@;
    assert("MimeType="@ + v == key + "="@ + v);
    lemma_key_line(key, v);
    lemma_scan_append_line(t, key + "="@ + v, initial_scan());
    assert(key != "NoDisplay"@);
    assert(key != "Name"@);
    assert(!"Name["@.is_prefix_of(key)) by {
        assert(key[4] != "Name["@[4]);
    }
}

/// A plain `Name=v` line in the `[Desktop Entry]` group names the entry `v`,
/// replacing any plain name before it, unless a localized `Name[..]` came
/// first, which keeps its place; the declared types stay as they were.
pub proof fn lemma_name_line_sets_name(t: Seq<char>, v: Seq<char>)
    requires
        t.len() == 0 || t.last() == '\n',
        scan_text(t, initial_scan()).in_entry,
        !v.contains('\n'),
        v.len() == 0 || !is_white_space(v.last()),
    ensures
        ({
            let st = scan_text(t, initial_scan());
            desktop_entry_of(t + ("Name="@ + v).push('\n')) == if st.hidden {
                None
            } else {
                Some(
                    DesktopEntryView {
                        name: match st.localized {
                            Some(n) => n,
                            None => v,
                        },
                        mime_types: st.mime_types,
                    },
                )
            }
        }),
{
    reveal_strlit("Name=");
    reveal_strlit("=");
    reveal_strlit("NoDisplay");
    reveal_strlit("Name");
    let key = "Name"@;
    assert("Name="@ + v == key + "="@ + v);
    lemma_key_line(key, v);
    lemma_scan_append_line(t, key + "="@ + v, initial_scan());
    assert(key != "NoDisplay"@);
}

/// A localized `Name[loc]=v` line in the `[Desktop Entry]` group names the
/// entry `v` where no localized name came before it; the first one stays
/// otherwise, and it wins over every plain `Name`.
pub proof fn lemma_localized_name_line(t: Seq<char>, loc: Seq<char>, v: Seq<char>)
    requires
        t.len() == 0 || t.last() == '\n',
        scan_text(t, initial_scan()).in_entry,
        !loc.contains('='),
        !loc.contains('\n'),
        !v.contains('\n'),
        v.len() == 0 || !is_white_space(v.last()),
    ensures
        ({
            let st = scan_text(t, initial_scan());
            desktop_entry_of(t + ("Name["@ + loc + "]="@ + v).push('\n')) == if st.hidden {
                None
            } else {
                match st.localized {
                    Some(n) => Some(DesktopEntryView { name: n, mime_types: st.mime_types }),
                    None => Some(DesktopEntryView { name: v, mime_types: st.mime_types }),
                }
            }
        }),
{
    reveal_strlit("Name[");
    reveal_strlit("]=");
    reveal_strlit("]");
    reveal_strlit("=");
    reveal_strlit("NoDisplay");
    reveal_strlit("Name");
    let key = "Name["@ + loc + "]"@;
    assert("Name["@ + loc + "]="@ + v == key + "="@ + v);
    assert(!key.contains('=')) by {
        if key.contains('=') {
            let i = choose|i: int| 0 <= i < key.len() && key[i] == '=';
            if 5 <= i < 5 + loc.len() {
                assert(loc[i - 5] == '=');
                assert(loc.contains('='));
            }
        }
    }
    assert(!key.contains('\n')) by {
        if key.contains('\n') {
            let i = choose|i: int| 0 <= i < key.len() && key[i] == '\n';
            if 5 <= i < 5 + loc.len() {
                assert(loc[i - 5] == '\n');
                assert(loc.contains('\n'));
            }
        }
    }
    assert(key[0] == 'N');
    lemma_key_line(key, v);
    lemma_scan_append_line(t, key + "="@ + v, initial_scan());
    assert(key != "NoDisplay"@) by {
        assert(key[2] != "NoDisplay"@[2]);
    }
    assert(key != "Name"@);
    reveal_strlit("MimeType");
    assert(key != "MimeType"@) by {
        assert(key[1] != "MimeType"@[1]);
    }
    assert("Name["@.is_prefix_of(key)) by {
        assert(key.take(5) == "Name["@);
    }
}

/// A `NoDisplay` line in the `[Desktop Entry]` group whose value is `true` in
/// any ASCII case hides the application, whatever comes before or after it.
pub proof fn lemma_no_display_hides(t: Seq<char>, v: Seq<char>, u: Seq<char>)
    requires
        t.len() == 0 || t.last() == '\n',
        scan_text(t, initial_scan()).in_entry,
        eq_ignore_ascii_case(v, "true"@),
    ensures
        desktop_entry_of(t + (("NoDisplay="@ + v).push('\n') + u)) is None,
{
    reveal_strlit("NoDisplay=");
    reveal_strlit("=");
    reveal_strlit("NoDisplay");
    reveal_strlit("true");
    let key = "NoDisplay"@;
    let l = key + "="@ + v;
    assert("NoDisplay="@ + v == l);
    assert(v.len() == 4);
    assert(!is_white_space(v.last())) by {
        assert(ascii_lower_code(v[3]) == ascii_lower_code('e'));
    }
    assert(!v.contains('\n')) by {
        if v.contains('\n') {
            let i = choose|i: int| 0 <= i < v.len() && v[i] == '\n';
            assert(ascii_lower_code(v[i]) == ascii_lower_code("true"@[i]));
        }
    }
    lemma_key_line(key, v);
    lemma_scan_append_line(t, l, initial_scan());
    let t2 = t + l.push('\n');
    assert(t2.last() == '\n');
    assert(scan_text(t2, initial_scan()).hidden);
    lemma_hidden_whatever_follows(t2, u);
    assert(t + (l.push('\n') + u) == t2 + u);
}

/// The lines of `s`, each trimmed, as `scan_text` reads them.
pub open spec fn trimmed_lines(s: Seq<char>) -> Seq<Seq<char>>
    decreases s.len(),
{
    if s.len() == 0 {
        seq![]
    } else {
        let e = find_in(s, '\n');
        let first = trim(s.take(e));
        if 0 <= e < s.len() {
            seq![first] + trimmed_lines(s.skip(e + 1))
        } else {
            seq![first]
        }
    }
}

/// A trimmed line that opens a group: `[` .. `]`.
pub open spec fn is_group_header(t: Seq<char>) -> bool {
    t.len() > 0 && t[0] == '[' && t.last() == ']'
}

/// A trimmed line that is blank or a comment.
pub open spec fn is_blank_or_comment(t: Seq<char>) -> bool {
    t.len() == 0 || t[0] == '#'
}

/// `s` opens a group other than `[Desktop Entry]` before any key, and holds
/// no `[Desktop Entry]` line.
pub open spec fn opens_other_group(s: Seq<char>) -> bool {
    let ls = trimmed_lines(s);
    &&& forall|i: int| 0 <= i < ls.len() ==> ls[i] != "[Desktop Entry]"@
    &&& exists|g: int|
        0 <= g < ls.len() && is_group_header(#[trigger] ls[g]) && forall|i: int|
            0 <= i < g ==> is_blank_or_comment(ls[i])
}

/// Two scan states that say the same of the entry.
pub open spec fn same_entry(a: EntryScan, b: EntryScan) -> bool {
    &&& a.hidden == b.hidden
    &&& a.name == b.name
    &&& a.localized == b.localized
    &&& a.mime_types == b.mime_types
}

/// Ending the last line with a line break changes nothing.
proof fn lemma_scan_text_push_newline(t: Seq<char>, st: EntryScan)
    ensures
        scan_text(t.push('\n'), st) == scan_text(t, st),
    decreases t.len(),
{
    let tn = t.push('\n');
    lemma_find_in_bounds(t, '\n');
    lemma_find_in_bounds(tn, '\n');
    let e = find_in(t, '\n');
    let en = find_in(tn, '\n');
    assert(en == e) by {
        assert(tn[t.len() as int] == '\n');
        if en < e {
            assert(tn[en] == t[en]);
        }
        if e < en {
            assert(tn[e] == t[e]);
        }
    }
    if t.len() == 0 {
        assert(trim(tn.take(0)) == Seq::<char>::empty());
        assert(tn.skip(1).len() == 0);
        assert(scan_text(tn.skip(1), st) == st);
    } else if e < t.len() {
        assert(tn.take(e) == t.take(e));
        assert(tn.skip(e + 1) == t.skip(e + 1).push('\n'));
        lemma_scan_text_push_newline(t.skip(e + 1), scan_line(st, trim(t.take(e))));
    } else {
        assert(tn.take(e) == t.take(e));
        assert(tn.skip(e + 1).len() == 0);
        let next = scan_line(st, trim(t.take(e)));
        assert(scan_text(tn.skip(e + 1), next) == next);
    }
}

/// Lines read outside `[Desktop Entry]` groups, up to and past the header of
/// another group, leave the entry as it was.
proof fn lemma_inert_lines(s: Seq<char>, st: EntryScan)
    requires
        forall|i: int|
            0 <= i < trimmed_lines(s).len() ==> trimmed_lines(s)[i] != "[Desktop Entry]"@,
        st.in_entry ==> exists|g: int|
            0 <= g < trimmed_lines(s).len() && is_group_header(#[trigger] trimmed_lines(s)[g])
                && forall|i: int| 0 <= i < g ==> is_blank_or_comment(trimmed_lines(s)[i]),
    ensures
        same_entry(scan_text(s, st), st),
    decreases s.len(),
{
    if st.hidden {
        lemma_hidden_stays(s, st);
    } else if s.len() > 0 {
        let ls = trimmed_lines(s);
        lemma_find_in_bounds(s, '\n');
        let e = find_in(s, '\n');
        let first = trim(s.take(e));
        let next = scan_line(st, first);
        assert(ls[0] == first);
        assert(first != "[Desktop Entry]"@);
        if st.in_entry {
            let g = choose|g: int|
                0 <= g < ls.len() && is_group_header(#[trigger] ls[g]) && forall|i: int|
                    0 <= i < g ==> is_blank_or_comment(ls[i]);
            if g > 0 {
                assert(is_blank_or_comment(ls[0]));
            }
        }
        assert(same_entry(next, st));
        if e < s.len() {
            let rest = s.skip(e + 1);
            let lr = trimmed_lines(rest);
            assert(ls == seq![first] + lr);
            assert forall|i: int| 0 <= i < lr.len() implies lr[i] != "[Desktop Entry]"@ by {
                assert(lr[i] == ls[i + 1]);
            }
            if next.in_entry {
                let g = choose|g: int|
                    0 <= g < ls.len() && is_group_header(#[trigger] ls[g]) && forall|i: int|
                        0 <= i < g ==> is_blank_or_comment(ls[i]);
                assert(g > 0);
                assert(lr[g - 1] == ls[g]);
                assert forall|i: int| 0 <= i < g - 1 implies is_blank_or_comment(lr[i]) by {
                    assert(lr[i] == ls[i + 1]);
                }
            }
            lemma_inert_lines(rest, next);
        }
    }
}

/// A file followed, after a line break, by another group that holds no
/// `[Desktop Entry]` line reads the same as the file alone.
pub proof fn lemma_other_group_ignored(t: Seq<char>, s: Seq<char>)
    requires
        opens_other_group(s),
    ensures
        desktop_entry_of(t.push('\n') + s) == desktop_entry_of(t),
{
    let st = scan_text(t, initial_scan());
    lemma_scan_text_append(t.push('\n'), s, initial_scan());
    lemma_scan_text_push_newline(t, initial_scan());
    lemma_inert_lines(s, st);
}

/// Appends to `out` the non-empty pieces of `v[a..b]` between occurrences of
/// `sep`.
fn push_fields(v: &Vec<char>, a: usize, b: usize, sep: char, out: &mut Vec<String>)
    requires
        a <= b <= v@.len(),
    ensures
        final(out).deep_view() == old(out).deep_view() + nonempty_fields(
            v@.subrange(a as int, b as int),
            sep,
        ),
{
    let ghost start = out.deep_view();
    let mut pos = a;
    let mut more = true;
    while more
        invariant
            a <= pos <= b <= v@.len(),
            more ==> start + nonempty_fields(v@.subrange(a as int, b as int), sep)
                == out.deep_view() + nonempty_fields(v@.subrange(pos as int, b as int), sep),
            !more ==> out.deep_view() == start + nonempty_fields(
                v@.subrange(a as int, b as int),
                sep,
            ),
        decreases (b - pos) as int + (if more {
            1int
        } else {
            0int
        }),
    {
        let ghost rest = v@.subrange(pos as int, b as int);
        let ghost before = out.deep_view();
        let e = find_char(v, pos, b, sep);
        proof {
            lemma_find_in_bounds(rest, sep);
            assert(rest.take(e - pos) == v@.subrange(pos as int, e as int));
            if e < b {
                assert(rest.skip(e - pos + 1) == v@.subrange(e + 1, b as int));
            }
        }
        if e > pos {
            let piece = string_of_range(v, pos, e);
            out.push(piece);
            proof {
                assert(out.deep_view() == before.push(piece@));
            }
        }
        if e < b {
            pos = e + 1;
        } else {
            more = false;
            assert(nonempty_fields(v@.subrange(e as int, b as int), sep) == Seq::<Seq<char>>::empty())
                by {
                assert(v@.subrange(e as int, b as int).len() == 0);
            }
        }
    }
}

/// Reads a `.desktop` file: the application it describes, or `None` when it
/// hides itself (`NoDisplay=true`) or names none.
pub fn parse_desktop_entry(contents: &str) -> (r: Option<DesktopEntry>)
    ensures
        match r {
            Some(e) => desktop_entry_of(contents@) == Some(e@),
            None => desktop_entry_of(contents@) is None,
        },
{
    let v = chars_of(contents);
    let n = v.len();
    let ghost init = initial_scan();
    let mut in_entry = false;
    let mut name: Option<String> = None;
    let mut localized: Option<String> = None;
    let mut mime_types: Vec<String> = Vec::new();
    let mut pos: usize = 0;
    assert(v@.skip(0) == v@);
    assert(mime_types.deep_view() == Seq::<Seq<char>>::empty());
    while pos < n
        invariant
            pos <= n == v@.len(),
            v@ == contents@,
            init == initial_scan(),
            scan_text(v@, init) == scan_text(
                v@.skip(pos as int),
                EntryScan {
                    in_entry,
                    hidden: false,
                    name: opt_text(name),
                    localized: opt_text(localized),
                    mime_types: mime_types.deep_view(),
                },
            ),
        decreases n - pos,
    {
        let ghost st = EntryScan {
            in_entry,
            hidden: false,
            name: opt_text(name),
            localized: opt_text(localized),
            mime_types: mime_types.deep_view(),
        };
        let ghost rest = v@.skip(pos as int);
        let e = find_char(&v, pos, n, '\n');
        let (a, b) = trim_range(&v, pos, e);
        let ghost t = v@.subrange(a as int, b as int);
        proof {
            assert(v@.subrange(pos as int, n as int) == rest);
            lemma_find_in_bounds(rest, '\n');
            assert(rest.take(e - pos) == v@.subrange(pos as int, e as int));
            if e < n {
                assert(rest.skip(e - pos + 1) == v@.skip(e + 1));
            }
        }
        if a == b || v[a] == '#' {
        } else if v[a] == '[' && v[b - 1] == ']' {
            in_entry = range_eq(&v, a, b, "[Desktop Entry]");
        } else if in_entry {
            let k = find_char(&v, a, b, '=');
            proof {
                lemma_find_in_bounds(t, '=');
                if k < b {
                    assert(t.take(k - a) == v@.subrange(a as int, k as int));
                    assert(t.skip(k - a + 1) == v@.subrange(k + 1, b as int));
                }
            }
            if k < b {
                if range_eq(&v, a, k, "NoDisplay") && range_eq_ignore_ascii_case(
                    &v,
                    k + 1,
                    b,
                    "true",
                ) {
                    proof {
                        let hidden_st = scan_line(st, t);
                        assert(hidden_st.hidden);
                        assert(trim(rest.take(e - pos)) == t);
                        assert(scan_line(st, trim(rest.take(find_in(rest, '\n')))) == hidden_st);
                        if e < n {
                            lemma_hidden_stays(v@.skip(e + 1), hidden_st);
                            assert(scan_text(rest, st) == scan_text(v@.skip(e + 1), hidden_st));
                        } else {
                            assert(scan_text(rest, st) == hidden_st);
                        }
                    }
                    return None;
                }
                if range_eq(&v, a, k, "Name") {
                    name = Some(string_of_range(&v, k + 1, b));
                } else if range_starts_with(&v, a, k, "Name[") && localized.is_none() {
                    localized = Some(string_of_range(&v, k + 1, b));
                } else if range_eq(&v, a, k, "MimeType") {
                    push_fields(&v, k + 1, b, ';', &mut mime_types);
                }
            }
        }
        pos = if e < n {
            e + 1
        } else {
            n
        };
    }
    proof {
        assert(v@.skip(n as int).len() == 0);
    }
    let chosen = match localized {
        Some(l) => Some(l),
        None => name,
    };
    match chosen {
        Some(n) => Some(DesktopEntry { name: n, mime_types }),
        None => None,
    }
}

/// A `.desktop` file found in an application directory: its path, and its
/// text where it could be read.
pub struct DesktopFile {
    pub path: String,
    pub contents: Option<String>,
}

/// The option that a `.desktop` file at `path` with text `contents` offers
/// for a file of MIME type `mime`, where `default` is the name of the
/// `.desktop` file that is the default application for that type: the entry's
/// name, the file's name as identifier and its path, when the entry is the
/// default or declares the type.
pub open spec fn linux_option(
    mime: Seq<char>,
    default: Option<Seq<char>>,
    path: Seq<char>,
    contents: Option<Seq<char>>,
) -> Option<OptionView> {
    match contents {
        None => None,
        Some(c) => match desktop_entry_of(c) {
            None => None,
            Some(e) => {
                let is_default = match default {
                    Some(d) => path_file_name(path) == Some(d),
                    None => false,
                };
                if is_default || e.mime_types.contains(mime) {
                    Some((e.name, path_file_name(path), Some(path)))
                } else {
                    None
                }
            },
        },
    }
}

/// The options that `files` offer, in order, for a file of MIME type `mime`;
/// none when the type is unknown (empty).
pub open spec fn linux_options(
    mime: Seq<char>,
    default: Option<Seq<char>>,
    files: Seq<DesktopFile>,
) -> Seq<OptionView>
    decreases files.len(),
{
    if mime.len() == 0 || files.len() == 0 {
        seq![]
    } else {
        linux_options(mime, default, files.drop_last()) + match linux_option(
            mime,
            default,
            files.last().path@,
            opt_text(files.last().contents),
        ) {
            Some(o) => seq![o],
            None => seq![],
        }
    }
}

/// An application whose readable, shown `.desktop` entry declares the queried
/// MIME type anywhere in its `MimeType` list, or which is the default
/// application, is listed, with its entry's name, its file name and its path.
pub proof fn lemma_qualifying_entry_listed(
    mime: Seq<char>,
    default: Option<Seq<char>>,
    files: Seq<DesktopFile>,
    i: int,
    c: Seq<char>,
    e: DesktopEntryView,
)
    requires
        mime.len() > 0,
        0 <= i < files.len(),
        opt_text(files[i].contents) == Some(c),
        desktop_entry_of(c) == Some(e),
        (exists|k: int| 0 <= k < e.mime_types.len() && e.mime_types[k] == mime) || (default matches Some(
            d,
        ) && path_file_name(files[i].path@) == Some(d)),
    ensures
        linux_options(mime, default, files).contains(
            (e.name, path_file_name(files[i].path@), Some(files[i].path@)),
        ),
    decreases files.len(),
{
    let x = (e.name, path_file_name(files[i].path@), Some(files[i].path@));
    let init = files.drop_last();
    let rest = linux_options(mime, default, init);
    if exists|k: int| 0 <= k < e.mime_types.len() && e.mime_types[k] == mime {
        let k = choose|k: int| 0 <= k < e.mime_types.len() && e.mime_types[k] == mime;
        assert(e.mime_types.contains(mime));
    }
    if i == files.len() - 1 {
        assert(linux_option(mime, default, files.last().path@, opt_text(files.last().contents))
            == Some(x));
        let all = linux_options(mime, default, files);
        assert(all == rest + seq![x]);
        assert(all[rest.len() as int] == x);
    } else {
        assert(init[i] == files[i]);
        lemma_qualifying_entry_listed(mime, default, init, i, c, e);
        let j = choose|j: int| 0 <= j < rest.len() && rest[j] == x;
        let all = linux_options(mime, default, files);
        assert(all[j] == x);
    }
}

/// The entry that a `.desktop` file describes, where it could be read.
pub open spec fn entry_of_file(f: DesktopFile) -> Option<DesktopEntryView> {
    match opt_text(f.contents) {
        Some(c) => desktop_entry_of(c),
        None => None,
    }
}

/// The file at index `i` offers the option view `x` for a file of MIME type
/// `mime`: it reads as a shown entry that declares the type or is the default
/// application, and `x` is that entry's name, the file's name and its path.
pub open spec fn file_offers(
    mime: Seq<char>,
    default: Option<Seq<char>>,
    files: Seq<DesktopFile>,
    i: int,
    x: OptionView,
) -> bool {
    &&& 0 <= i < files.len()
    &&& entry_of_file(files[i]) is Some
    &&& x == (entry_of_file(files[i])->0.name, path_file_name(files[i].path@), Some(files[i].path@))
    &&& entry_of_file(files[i])->0.mime_types.contains(mime) || (default is Some && path_file_name(
        files[i].path@,
    ) == default)
}

/// The indices of the files whose options are listed, in order.
pub open spec fn listed_sources(mime: Seq<char>, default: Option<Seq<char>>, files: Seq<DesktopFile>) -> Seq<int>
    decreases files.len(),
{
    if mime.len() == 0 || files.len() == 0 {
        seq![]
    } else {
        listed_sources(mime, default, files.drop_last()) + if linux_option(
            mime,
            default,
            files.last().path@,
            opt_text(files.last().contents),
        ) is Some {
            seq![files.len() - 1]
        } else {
            seq![]
        }
    }
}

/// Every listed option is offered by its own file, and the files come in the
/// order given: the `j`-th option is offered by file `listed_sources(..)[j]`,
/// and those indices strictly increase.
pub proof fn lemma_listed_entries_qualify(mime: Seq<char>, default: Option<Seq<char>>, files: Seq<DesktopFile>)
    ensures
        linux_options(mime, default, files).len() == listed_sources(mime, default, files).len(),
        forall|j: int|
            0 <= j < linux_options(mime, default, files).len() ==> file_offers(
                mime,
                default,
                files,
                #[trigger] listed_sources(mime, default, files)[j],
                linux_options(mime, default, files)[j],
            ),
        forall|j1: int, j2: int|
            0 <= j1 < j2 < listed_sources(mime, default, files).len() ==> #[trigger] listed_sources(
                mime,
                default,
                files,
            )[j1] < #[trigger] listed_sources(mime, default, files)[j2],
        forall|j: int|
            0 <= j < listed_sources(mime, default, files).len() ==> 0 <= #[trigger] listed_sources(
                mime,
                default,
                files,
            )[j] < files.len(),
    decreases files.len(),
{
    if mime.len() > 0 && files.len() > 0 {
        let init = files.drop_last();
        lemma_listed_entries_qualify(mime, default, init);
        let n = files.len() - 1;
        let rs = listed_sources(mime, default, init);
        let ro = linux_options(mime, default, init);
        let src = listed_sources(mime, default, files);
        let all = linux_options(mime, default, files);
        assert(files[n] == files.last());
        assert forall|j: int| 0 <= j < all.len() implies file_offers(
            mime,
            default,
            files,
            #[trigger] src[j],
            all[j],
        ) by {
            if j < ro.len() {
                assert(src[j] == rs[j] && all[j] == ro[j]);
                assert(file_offers(mime, default, init, rs[j], ro[j]));
                assert(files[rs[j]] == init[rs[j]]);
            }
        }
        assert forall|j1: int, j2: int| 0 <= j1 < j2 < src.len() implies #[trigger] src[j1] < #[trigger] src[j2] by {
            if j2 < rs.len() {
                assert(src[j1] == rs[j1] && src[j2] == rs[j2]);
            } else {
                assert(src[j1] == rs[j1]);
                assert(0 <= rs[j1] < init.len());
            }
        }
        assert forall|j: int| 0 <= j < src.len() implies 0 <= #[trigger] src[j] < files.len() by {
            if j < rs.len() {
                assert(src[j] == rs[j]);
            }
        }
    }
}

fn declares_type(types: &Vec<String>, mime: &str) -> (r: bool)
    ensures
        r == types.deep_view().contains(mime@),
{
    let mut i: usize = 0;
    while i < types.len()
        invariant
            i <= types@.len(),
            forall|j: int| 0 <= j < i ==> types.deep_view()[j] != mime@,
        decreases types.len() - i,
    {
        if text_eq(types[i].as_str(), mime) {
            assert(types.deep_view()[i as int] == mime@);
            return true;
        }
        i = i + 1;
    }
    false
}

/// The options that the `.desktop` files `files` offer for a file of MIME
/// type `mime_type`, where `default_app` names the default application's
/// `.desktop` file.
pub fn discover_open_options(
    mime_type: &str,
    default_app: Option<&str>,
    files: &Vec<DesktopFile>,
) -> (r: Vec<OpenOption>)
    ensures
        r@.map_values(|o: OpenOption| option_view(o)) == linux_options(
            mime_type@,
            match default_app {
                Some(d) => Some(d@),
                None => None,
            },
            files@,
        ),
{
    let ghost default = match default_app {
        Some(d) => Some(d@),
        None => None,
    };
    let mut r: Vec<OpenOption> = Vec::new();
    if mime_type.is_empty() {
        assert(r@.map_values(|o: OpenOption| option_view(o)) =~= Seq::<OptionView>::empty());
        return r;
    }
    for i in 0..files.len()
        invariant
            mime_type@.len() > 0,
            default == match default_app {
                Some(d) => Some(d@),
                None => None,
            },
            r@.map_values(|o: OpenOption| option_view(o)) == linux_options(
                mime_type@,
                default,
                files@.take(i as int),
            ),
    {
        let ghost before = r@;
        let f = &files[i];
        assert(files@.take(i + 1).drop_last() == files@.take(i as int));
        assert(files@.take(i + 1).last() == *f);
        let ghost lo = linux_option(mime_type@, default, f.path@, opt_text(f.contents));
        assert(linux_options(mime_type@, default, files@.take(i + 1)) == linux_options(
            mime_type@,
            default,
            files@.take(i as int),
        ) + match lo {
            Some(o) => seq![o],
            None => seq![],
        });
        if let Some(c) = &f.contents {
            if let Some(entry) = parse_desktop_entry(c.as_str()) {
                let name = file_name(f.path.as_str());
                let is_default = match default_app {
                    Some(d) => match &name {
                        Some(n) => text_eq(n.as_str(), d),
                        None => false,
                    },
                    None => false,
                };
                let ghost e = entry@;
                if is_default || declares_type(&entry.mime_types, mime_type) {
                    r.push(OpenOption { name: entry.name, id: name, path: Some(f.path.clone()) });
                    assert(lo == Some(option_view(r@.last())));
                    assert(r@.map_values(|o: OpenOption| option_view(o)) =~= before.map_values(
                        |o: OpenOption| option_view(o),
                    ).push(option_view(r@.last())));
                } else {
                    assert(lo is None);
                }
            } else {
                assert(lo is None);
            }
        } else {
            assert(lo is None);
        }
    }
    assert(files@.take(files@.len() as int) == files@);
    r
}

/// The failure text of an `xdg-mime` query that ended with the (trimmed)
/// error output `detail`.
pub open spec fn xdg_mime_failure(detail: Seq<char>) -> Seq<char> {
    if detail.len() == 0 {
        "xdg-mime failed"@
    } else {
        "xdg-mime failed: "@ + detail
    }
}

/// The result of an `xdg-mime` query that ran: its trimmed output when it
/// succeeded, else a failure text that quotes its trimmed error output.
pub fn xdg_mime_outcome(success: bool, stdout: &str, stderr: &str) -> (r: Result<String, String>)
    ensures
        match r {
            Ok(out) => success && out@ == trim(stdout@),
            Err(e) => !success && e@ == xdg_mime_failure(trim(stderr@)),
        },
{
    if success {
        let v = chars_of(stdout);
        let (a, b) = trim_range(&v, 0, v.len());
        assert(v@.subrange(0, v@.len() as int) == v@);
        Ok(string_of_range(&v, a, b))
    } else {
        let v = chars_of(stderr);
        let (a, b) = trim_range(&v, 0, v.len());
        assert(v@.subrange(0, v@.len() as int) == v@);
        let mut e = String::new();
        if a == b {
            e.append("xdg-mime failed");
        } else {
            e.append("xdg-mime failed: ");
            let detail = string_of_range(&v, a, b);
            e.append(detail.as_str());
        }
        assert(Seq::<char>::empty() + "xdg-mime failed"@ == "xdg-mime failed"@);
        assert(Seq::<char>::empty() + "xdg-mime failed: "@ == "xdg-mime failed: "@);
        Err(e)
    }
}

/// The failure text when `xdg-mime` could not be run, quoting the reason.
pub fn xdg_mime_spawn_failure(reason: &str) -> (r: String)
    ensures
        r@ == "could not run xdg-mime: "@ + reason@,
{
    let mut r = String::new();
    r.append("could not run xdg-mime: ");
    r.append(reason);
    assert(Seq::<char>::empty() + "could not run xdg-mime: "@ == "could not run xdg-mime: "@);
    r
}

/// The directories searched for `.desktop` files, given the values of the
/// environment variables `XDG_DATA_HOME` and `HOME`, and the paths listed in
/// `XDG_DATA_DIRS`: the user's `applications` directory, then that of each
/// listed data directory, or of `/usr/local/share` and `/usr/share` where
/// none are listed.
pub open spec fn application_dirs_of(
    data_home: Option<Seq<char>>,
    home: Option<Seq<char>>,
    data_dirs: Option<Seq<Seq<char>>>,
) -> Seq<Seq<char>> {
    let user = match data_home {
        Some(h) => seq![joined_path(h, "applications"@)],
        None => match home {
            Some(h) => seq![joined_path(h, ".local/share/applications"@)],
            None => seq![],
        },
    };
    let system = match data_dirs {
        Some(ds) => ds.map_values(|d: Seq<char>| joined_path(d, "applications"@)),
        None => seq!["/usr/local/share/applications"@, "/usr/share/applications"@],
    };
    user + system
}

/// The directories searched: first the user's own, which comes from
/// `XDG_DATA_HOME` where it is set, else from `HOME` where that is set,
/// whatever `XDG_DATA_DIRS` holds (and is left out where neither is set);
/// then one per listed data directory in order, or `/usr/local/share` and
/// `/usr/share` where none are listed.
pub proof fn lemma_application_dirs_order(
    data_home: Option<Seq<char>>,
    home: Option<Seq<char>>,
    data_dirs: Option<Seq<Seq<char>>>,
)
    ensures
        ({
            let r = application_dirs_of(data_home, home, data_dirs);
            let u: int = if data_home is Some || home is Some {
                1
            } else {
                0
            };
            &&& data_home matches Some(h) ==> r[0] == joined_path(h, "applications"@)
            &&& data_home is None ==> (home matches Some(h) ==> r[0] == joined_path(
                h,
                ".local/share/applications"@,
            ))
            &&& data_dirs matches Some(ds) ==> r.len() == u + ds.len() && forall|i: int|
                0 <= i < ds.len() ==> r[u + i] == joined_path(#[trigger] ds[i], "applications"@)
            &&& data_dirs is None ==> r.len() == u + 2 && r[u] == "/usr/local/share/applications"@
                && r[u + 1] == "/usr/share/applications"@
        }),
{
    let r = application_dirs_of(data_home, home, data_dirs);
    let u: int = if data_home is Some || home is Some {
        1
    } else {
        0
    };
    let user = match data_home {
        Some(h) => seq![joined_path(h, "applications"@)],
        None => match home {
            Some(h) => seq![joined_path(h, ".local/share/applications"@)],
            None => seq![],
        },
    };
    assert(user.len() == u);
    if let Some(ds) = data_dirs {
        let sys = ds.map_values(|d: Seq<char>| joined_path(d, "applications"@));
        assert(r == user + sys);
        assert forall|i: int| 0 <= i < ds.len() implies r[u + i] == joined_path(
            #[trigger] ds[i],
            "applications"@,
        ) by {
            assert(r[u + i] == sys[i]);
        }
    }
}

/// The directories searched for `.desktop` files.
pub fn application_dirs(
    data_home: Option<&str>,
    home: Option<&str>,
    data_dirs: Option<&Vec<String>>,
) -> (r: Vec<String>)
    ensures
        r.deep_view() == application_dirs_of(
            match data_home {
                Some(h) => Some(h@),
                None => None,
            },
            match home {
                Some(h) => Some(h@),
                None => None,
            },
            match data_dirs {
                Some(ds) => Some(ds.deep_view()),
                None => None,
            },
        ),
{
    let mut r: Vec<String> = Vec::new();
    match data_home {
        Some(h) => r.push(join_path(h, "applications")),
        None => match home {
            Some(h) => r.push(join_path(h, ".local/share/applications")),
            None => {},
        },
    }
    let ghost user = r.deep_view();
    match data_dirs {
        Some(ds) => {
            for i in 0..ds.len()
                invariant
                    r.deep_view() == user + ds.deep_view().take(i as int).map_values(
                        |d: Seq<char>| joined_path(d, "applications"@),
                    ),
            {
                let ghost before = r.deep_view();
                r.push(join_path(ds[i].as_str(), "applications"));
                assert(ds.deep_view().take(i + 1) == ds.deep_view().take(i as int).push(
                    ds[i as int]@,
                ));
                assert(r.deep_view() =~= before.push(joined_path(ds[i as int]@, "applications"@)));
                assert(user + ds.deep_view().take(i + 1).map_values(
                    |d: Seq<char>| joined_path(d, "applications"@),
                ) =~= (user + ds.deep_view().take(i as int).map_values(
                    |d: Seq<char>| joined_path(d, "applications"@),
                )).push(joined_path(ds[i as int]@, "applications"@)));
            }
            assert(ds.deep_view().take(ds.len() as int) == ds.deep_view());
        },
        None => {
            r.push("/usr/local/share/applications".to_string());
            r.push("/usr/share/applications".to_string());
            assert(r.deep_view() =~= user + seq![
                "/usr/local/share/applications"@,
                "/usr/share/applications"@,
            ]);
        },
    }
    r
}

/// Whether the file at `path` is a `.desktop` file, by its extension.
pub fn is_desktop_file(path: &str) -> (r: bool)
    ensures
        r == (path_extension(path@) == Some("desktop"@)),
{
    match extension(path) {
        Some(e) => text_eq(e.as_str(), "desktop"),
        None => false,
    }
}

/// Where discovery on Linux stands after the `xdg-mime` file type query: the
/// next thing to do, or the result.
pub enum LinuxStep {
    /// Ask `xdg-mime` for the default application of this MIME type.
    QueryDefault(String),
    /// Read the `.desktop` files, for this MIME type and default application.
    ReadFiles { mime_type: String, default_app: Option<String> },
    /// Discovery is over.
    Done(Result<Vec<OpenOption>, String>),
}

/// The step after the file type query: its failure ends discovery, an unknown
/// (empty) type lists nothing, a known type leads to the default query.
pub fn after_type_query(answer: Result<String, String>) -> (r: LinuxStep)
    ensures
        match answer {
            Err(e) => r matches LinuxStep::Done(Err(f)) && f == e,
            Ok(m) => if m@.len() == 0 {
                r matches LinuxStep::Done(Ok(v)) && v@.len() == 0
            } else {
                r matches LinuxStep::QueryDefault(n) && n@ == m@
            },
        },
{
    match answer {
        Err(e) => LinuxStep::Done(Err(e)),
        Ok(m) => if m.as_str().is_empty() {
            LinuxStep::Done(Ok(Vec::new()))
        } else {
            LinuxStep::QueryDefault(m)
        },
    }
}

/// The step after the default application query for `mime_type`: read the
/// `.desktop` files, with the default application where the query answered.
pub fn after_default_query(mime_type: String, answer: Result<String, String>) -> (r: LinuxStep)
    ensures
        r matches LinuxStep::ReadFiles { mime_type: m, default_app: d } && m@ == mime_type@
            && opt_text(d) == match answer {
            Ok(a) => Some(a@),
            Err(_) => None,
        },
{
    LinuxStep::ReadFiles { mime_type, default_app: answer.ok() }
}

/// The last step: the options that the `.desktop` files `files` offer.
pub fn after_reading_files(mime_type: &str, default_app: Option<&str>, files: &Vec<DesktopFile>) -> (r: LinuxStep)
    ensures
        r matches LinuxStep::Done(Ok(v)) && v@.map_values(|o: OpenOption| option_view(o))
            == linux_options(
            mime_type@,
            match default_app {
                Some(d) => Some(d@),
                None => None,
            },
            files@,
        ),
{
    LinuxStep::Done(Ok(discover_open_options(mime_type, default_app, files)))
}

} // verus!
