//! The descriptor-file format: a line-based key/value document with
//! bracketed section headers. The catalog consumes only the section
//! named `Desktop Entry` and, within it, the keys `Name`, `Exec`,
//! `GenericName`, `Comment` and `Terminal`.
//!
//! A line is, after trimming: empty (skipped); a comment starting with
//! `;` or `#` (skipped); a section header `[name]`; or `key=value` with
//! key and value trimmed. Any other line makes the whole document
//! invalid, and an invalid document produces no entry.

use vstd::prelude::*;
use vstd::string::StrSliceExecFns;
use crate::strings::{trimmed, trim_str, str_eq};
use crate::entry::{Entry, EntryModel, Timestamp, opt_str_view};

verus! {

/// The first position of `c` in `s` (the length of `s` if absent).
pub open spec fn find_char(s: Seq<char>, c: char) -> int
    decreases s.len(),
{
    if s.len() == 0 {
        0
    } else if s[0] == c {
        0
    } else {
        1 + find_char(s.drop_first(), c)
    }
}

/// A position before which `c` does not occur and which holds `c` or is
/// the end is the first position of `c`.
pub proof fn lemma_find_char_at(s: Seq<char>, c: char, p: int)
    requires
        0 <= p <= s.len(),
        forall|j: int| 0 <= j < p ==> s[j] != c,
        p < s.len() ==> s[p] == c,
    ensures
        find_char(s, c) == p,
    decreases s.len(),
{
    if s.len() > 0 && s[0] != c {
        let t = s.drop_first();
        assert(forall|j: int| 0 <= j < p - 1 ==> t[j] == s[j + 1] && s[j + 1] != c);
        if p - 1 < t.len() {
            assert(t[p - 1] == s[p]);
        }
        lemma_find_char_at(t, c, p - 1);
    }
}

/// The document cut at every newline; the separators are not part of
/// the lines.
pub open spec fn split_lines(s: Seq<char>) -> Seq<Seq<char>>
    decreases s.len(),
{
    let i = find_char(s, '\n');
    if !(0 <= i < s.len()) {
        seq![s]
    } else {
        seq![s.take(i)] + split_lines(s.skip(i + 1))
    }
}

/// The name of the one consumed section.
pub open spec fn de_section() -> Seq<char> {
    "Desktop Entry"@
}

/// Folds the lines of a document into the key/value map of the
/// `Desktop Entry` section. `in_de` says whether the current section is
/// that section; `acc` holds the pairs seen so far, a later occurrence
/// of a key replacing an earlier one. A malformed line yields `None`.
pub open spec fn apply_lines(
    lines: Seq<Seq<char>>,
    in_de: bool,
    acc: Map<Seq<char>, Seq<char>>,
) -> Option<Map<Seq<char>, Seq<char>>>
    decreases lines.len(),
{
    if lines.len() == 0 {
        Some(acc)
    } else {
        let l = trimmed(lines[0]);
        let rest = lines.drop_first();
        if l.len() == 0 {
            apply_lines(rest, in_de, acc)
        } else if l[0] == ';' || l[0] == '#' {
            apply_lines(rest, in_de, acc)
        } else if l[0] == '[' {
            if l.len() >= 2 && l.last() == ']' {
                apply_lines(rest, trimmed(l.subrange(1, l.len() - 1)) == de_section(), acc)
            } else {
                None
            }
        } else {
            let e = find_char(l, '=');
            if !(0 <= e < l.len()) {
                None
            } else {
                let k = trimmed(l.take(e));
                let v = trimmed(l.skip(e + 1));
                if k.len() == 0 {
                    None
                } else if in_de {
                    apply_lines(rest, in_de, acc.insert(k, v))
                } else {
                    apply_lines(rest, in_de, acc)
                }
            }
        }
    }
}

/// The key/value pairs of the `Desktop Entry` section of a document, or
/// `None` if the document is malformed.
pub open spec fn parse_descriptor(content: Seq<char>) -> Option<Map<Seq<char>, Seq<char>>> {
    apply_lines(split_lines(content), false, Map::empty())
}

/// An upper-case ASCII letter folded to lower case; other characters
/// unchanged.
pub open spec fn lower_char(c: char) -> char {
    if 65 <= c as int && c as int <= 90 {
        ((c as int) + 32) as char
    } else {
        c
    }
}

/// Equality up to ASCII case.
pub open spec fn eq_ic(a: Seq<char>, b: Seq<char>) -> bool {
    a.len() == b.len() && forall|i: int|
        0 <= i < a.len() ==> lower_char(a[i]) == lower_char(b[i])
}

/// Lenient boolean reading: case-insensitive `true`, `t`, `yes`, `y` or
/// the digit `1` mean true; case-insensitive `false`, `f`, `no`, `n` or
/// the digit `0` mean false; anything else does not read as a boolean.
pub open spec fn lenient_bool_of(s: Seq<char>) -> Option<bool> {
    if eq_ic(s, "true"@) || eq_ic(s, "t"@) || eq_ic(s, "yes"@) || eq_ic(s, "y"@) || s == "1"@ {
        Some(true)
    } else if eq_ic(s, "false"@) || eq_ic(s, "f"@) || eq_ic(s, "no"@) || eq_ic(s, "n"@) || s
        == "0"@ {
        Some(false)
    } else {
        None
    }
}

/// Compares two strings up to ASCII case.
pub fn eq_ignore_case(a: &str, b: &str) -> (r: bool)
    ensures
        r == eq_ic(a@, b@),
{
    let alen = a.unicode_len();
    let blen = b.unicode_len();
    if alen != blen {
        return false;
    }
    let mut i: usize = 0;
    while i < alen
        invariant
            i <= alen,
            alen == a@.len(),
            alen == b@.len(),
            forall|j: int| 0 <= j < i ==> lower_char(a@[j]) == lower_char(b@[j]),
        decreases alen - i,
    {
        let ca = a.get_char(i) as u32;
        let cb = b.get_char(i) as u32;
        let la = if 65 <= ca && ca <= 90 {
            ca + 32
        } else {
            ca
        };
        let lb = if 65 <= cb && cb <= 90 {
            cb + 32
        } else {
            cb
        };
        if la != lb {
            proof {
                assert(lower_char(a@[i as int]) as int == la);
                assert(lower_char(b@[i as int]) as int == lb);
            }
            return false;
        }
        proof {
            assert(lower_char(a@[i as int]) as int == la);
            assert(lower_char(b@[i as int]) as int == lb);
        }
        i = i + 1;
    }
    true
}

/// Reads a lenient boolean.
pub fn parse_lenient_bool(s: &str) -> (r: Option<bool>)
    ensures
        r == lenient_bool_of(s@),
{
    if eq_ignore_case(s, "true") || eq_ignore_case(s, "t") || eq_ignore_case(s, "yes")
        || eq_ignore_case(s, "y") || str_eq(s, "1") {
        Some(true)
    } else if eq_ignore_case(s, "false") || eq_ignore_case(s, "f") || eq_ignore_case(s, "no")
        || eq_ignore_case(s, "n") || str_eq(s, "0") {
        Some(false)
    } else {
        None
    }
}

/// The values that the `Desktop Entry` section gives the five consumed
/// keys, each `None` where the key is absent.
pub struct DescriptorFields {
    pub name: Option<String>,
    pub exec_cmd: Option<String>,
    pub generic_name: Option<String>,
    pub comment: Option<String>,
    pub terminal: Option<String>,
}

/// The value stored under `k`, if any.
pub open spec fn map_val(kv: Map<Seq<char>, Seq<char>>, k: Seq<char>) -> Option<Seq<char>> {
    if kv.contains_key(k) {
        Some(kv[k])
    } else {
        None
    }
}

pub open spec fn fields_match(f: DescriptorFields, kv: Map<Seq<char>, Seq<char>>) -> bool {
    &&& opt_str_view(f.name) == map_val(kv, "Name"@)
    &&& opt_str_view(f.exec_cmd) == map_val(kv, "Exec"@)
    &&& opt_str_view(f.generic_name) == map_val(kv, "GenericName"@)
    &&& opt_str_view(f.comment) == map_val(kv, "Comment"@)
    &&& opt_str_view(f.terminal) == map_val(kv, "Terminal"@)
}

/// The first position of `c` in `s` at or after `from`.
fn scan_to_char(s: &str, from: usize, c: char) -> (j: usize)
    requires
        from <= s@.len(),
    ensures
        from <= j <= s@.len(),
        forall|m: int| from <= m < j ==> s@[m] != c,
        j < s@.len() ==> s@[j as int] == c,
{
    let n = s.unicode_len();
    let mut j = from;
    while j < n && s.get_char(j) != c
        invariant
            from <= j <= n,
            n == s@.len(),
            forall|m: int| from <= m < j ==> s@[m] != c,
        decreases n - j,
    {
        j = j + 1;
    }
    j
}

/// Reads the five consumed keys out of a document, or `None` if the
/// document is malformed.
pub fn parse_fields(content: &str) -> (r: Option<DescriptorFields>)
    ensures
        match r {
            None => parse_descriptor(content@) is None,
            Some(f) => parse_descriptor(content@) matches Some(kv) && fields_match(f, kv),
        },
{
    let n = content.unicode_len();
    let mut i: usize = 0;
    let mut in_de = false;
    let ghost mut acc: Map<Seq<char>, Seq<char>> = Map::empty();
    let mut name_v: Option<String> = None;
    let mut exec_v: Option<String> = None;
    let mut gname_v: Option<String> = None;
    let mut comment_v: Option<String> = None;
    let mut terminal_v: Option<String> = None;
    proof {
        assert(content@.skip(0) =~= content@);
    }
    loop
        invariant_except_break
            parse_descriptor(content@) == apply_lines(split_lines(content@.skip(i as int)), in_de, acc),
        invariant
            i <= n,
            n == content@.len(),
            opt_str_view(name_v) == map_val(acc, "Name"@),
            opt_str_view(exec_v) == map_val(acc, "Exec"@),
            opt_str_view(gname_v) == map_val(acc, "GenericName"@),
            opt_str_view(comment_v) == map_val(acc, "Comment"@),
            opt_str_view(terminal_v) == map_val(acc, "Terminal"@),
        ensures
            parse_descriptor(content@) == Some(acc),
        decreases n - i,
    {
        proof {
            reveal_strlit("Name");
            reveal_strlit("Exec");
            reveal_strlit("GenericName");
            reveal_strlit("Comment");
            reveal_strlit("Terminal");
            assert("Name"@ != "Exec"@) by {
                assert("Name"@[0] == 'N');
                assert("Exec"@[0] == 'E');
            }
            assert("Name"@.len() == 4 && "Exec"@.len() == 4 && "GenericName"@.len() == 11
                && "Comment"@.len() == 7 && "Terminal"@.len() == 8);
        }
        let j = scan_to_char(content, i, '\n');
        let line = content.substring_char(i, j);
        let ghost lines = split_lines(content@.skip(i as int));
        let ghost rest = if j < n {
            split_lines(content@.skip(j as int + 1))
        } else {
            Seq::<Seq<char>>::empty()
        };
        proof {
            let t = content@.skip(i as int);
            assert(forall|m: int| 0 <= m < j - i ==> t[m] == content@[m + i] && t[m] != '\n');
            if j < n {
                assert(t[j - i] == content@[j as int]);
            }
            lemma_find_char_at(t, '\n', j - i);
            assert(t.take(j - i) =~= content@.subrange(i as int, j as int));
            if j < n {
                assert(t.skip(j - i + 1) =~= content@.skip(j as int + 1));
                assert(lines == seq![line@] + rest);
                assert((seq![line@] + rest)[0] == line@);
                assert((seq![line@] + rest).drop_first() =~= rest);
            } else {
                assert(t.take(j - i) =~= t);
                assert(lines == seq![line@]);
                assert(lines[0] == line@);
                assert(lines.drop_first() =~= rest);
            }
            assert(lines.len() > 0);
        }
        let lt = trim_str(line);
        let ltn = lt.as_str().unicode_len();
        let ghost l = trimmed(line@);
        if ltn == 0 {
            proof {
                assert(apply_lines(lines, in_de, acc) == apply_lines(rest, in_de, acc));
            }
        } else {
            let c0 = lt.as_str().get_char(0);
            if c0 == ';' || c0 == '#' {
                proof {
                    assert(apply_lines(lines, in_de, acc) == apply_lines(rest, in_de, acc));
                }
            } else if c0 == '[' {
                let cl = lt.as_str().get_char(ltn - 1);
                if ltn >= 2 && cl == ']' {
                    let sect = trim_str(lt.as_str().substring_char(1, ltn - 1));
                    let flag = str_eq(sect.as_str(), "Desktop Entry");
                    proof {
                        assert(sect@ == trimmed(l.subrange(1, l.len() - 1)));
                        assert(flag == (trimmed(l.subrange(1, l.len() - 1)) == de_section()));
                        assert(apply_lines(lines, in_de, acc) == apply_lines(
                            rest,
                            trimmed(l.subrange(1, l.len() - 1)) == de_section(),
                            acc,
                        ));
                    }
                    in_de = flag;
                } else {
                    proof {
                        assert(apply_lines(lines, in_de, acc) is None);
                    }
                    return None;
                }
            } else {
                let e = scan_to_char(lt.as_str(), 0, '=');
                proof {
                    lemma_find_char_at(l, '=', e as int);
                }
                if e == ltn {
                    proof {
                        assert(apply_lines(lines, in_de, acc) is None);
                    }
                    return None;
                }
                let k = trim_str(lt.as_str().substring_char(0, e));
                let v = trim_str(lt.as_str().substring_char(e + 1, ltn));
                proof {
                    assert(lt@.subrange(0, e as int) =~= l.take(e as int));
                    assert(lt@.subrange(e as int + 1, ltn as int) =~= l.skip(e as int + 1));
                    assert(k@ == trimmed(l.take(e as int)));
                    assert(v@ == trimmed(l.skip(e as int + 1)));
                }
                if k.as_str().is_empty() {
                    proof {
                        assert(k@.len() == 0);
                        assert(apply_lines(lines, in_de, acc) is None);
                    }
                    return None;
                }
                if in_de {
                    proof {
                        assert(apply_lines(lines, in_de, acc) == apply_lines(
                            rest,
                            in_de,
                            acc.insert(k@, v@),
                        ));
                        acc = acc.insert(k@, v@);
                    }
                    if str_eq(k.as_str(), "Name") {
                        name_v = Some(v);
                    } else if str_eq(k.as_str(), "Exec") {
                        exec_v = Some(v);
                    } else if str_eq(k.as_str(), "GenericName") {
                        gname_v = Some(v);
                    } else if str_eq(k.as_str(), "Comment") {
                        comment_v = Some(v);
                    } else if str_eq(k.as_str(), "Terminal") {
                        terminal_v = Some(v);
                    }
                } else {
                    proof {
                        assert(apply_lines(lines, in_de, acc) == apply_lines(rest, in_de, acc));
                    }
                }
            }
        }
        if j == n {
            proof {
                assert(apply_lines(rest, in_de, acc) == Some(acc));
            }
            break;
        } else {
            i = j + 1;
        }
    }
    Some(DescriptorFields {
        name: name_v,
        exec_cmd: exec_v,
        generic_name: gname_v,
        comment: comment_v,
        terminal: terminal_v,
    })
}

/// The entry that the `Desktop Entry` pairs describe: `Name` and `Exec`
/// are required, `Terminal` must read as a lenient boolean when present;
/// otherwise there is no entry.
pub open spec fn entry_from_map(
    path: Seq<char>,
    mtime: Timestamp,
    kv: Map<Seq<char>, Seq<char>>,
    prior: u32,
) -> Option<EntryModel> {
    if !kv.contains_key("Name"@) || !kv.contains_key("Exec"@) {
        None
    } else {
        let term = if kv.contains_key("Terminal"@) {
            lenient_bool_of(kv["Terminal"@])
        } else {
            Some(false)
        };
        match term {
            None => None,
            Some(t) => Some(
                EntryModel {
                    path: path,
                    mtime: Some(mtime),
                    name: kv["Name"@],
                    exec_cmd: kv["Exec"@],
                    generic_name: map_val(kv, "GenericName"@),
                    comment: map_val(kv, "Comment"@),
                    terminal: t,
                    desktop: true,
                    count: prior,
                },
            ),
        }
    }
}

/// The entry a descriptor document yields, or `None` where the document
/// is malformed or misses a required key.
pub open spec fn descriptor_entry(
    path: Seq<char>,
    mtime: Timestamp,
    content: Seq<char>,
    prior: u32,
) -> Option<EntryModel> {
    match parse_descriptor(content) {
        None => None,
        Some(kv) => entry_from_map(path, mtime, kv, prior),
    }
}

pub open spec fn opt_entry_view(r: Option<Entry>) -> Option<EntryModel> {
    match r {
        Some(e) => Some(e@),
        None => None,
    }
}

/// Parses one descriptor document into an entry. The entry's usage
/// counter is seeded with `prior_count`; a document with no `Name` or no
/// `Exec`, an unreadable `Terminal` value, or any malformed line gives
/// no entry.
pub fn parse_desktop_file(path: &String, mtime: Timestamp, content: &str, prior_count: u32) -> (r:
    Option<Entry>)
    ensures
        opt_entry_view(r) == descriptor_entry(path@, mtime, content@, prior_count),
{
    let f = match parse_fields(content) {
        None => {
            return None;
        },
        Some(f) => f,
    };
    let name = match f.name {
        None => {
            return None;
        },
        Some(s) => s,
    };
    let exec_cmd = match f.exec_cmd {
        None => {
            return None;
        },
        Some(s) => s,
    };
    let terminal = match &f.terminal {
        None => false,
        Some(ts) => match parse_lenient_bool(ts.as_str()) {
            None => {
                return None;
            },
            Some(t) => t,
        },
    };
    Some(
        Entry {
            path: path.clone(),
            mtime: Some(mtime),
            name: name,
            exec_cmd: exec_cmd,
            generic_name: f.generic_name,
            comment: f.comment,
            terminal: terminal,
            desktop: true,
            count: prior_count,
        },
    )
}

} // verus!
