//! The dispatcher: turns one chosen entry, or a raw typed string, into
//! the final shell command line. Field-code placeholders are stripped,
//! terminal-bound entries are wrapped in a terminal launch command, and
//! the chosen entry's usage counter is incremented in the catalog. The
//! caller persists the catalog and spawns the process.

use vstd::prelude::*;
use vstd::string::{StrSliceExecFns, StringExecFns};
use crate::strings::{is_space, is_word_char, space_char, word_char, trimmed, trim_str};
use crate::entry::{Entry, EntryModel, opt_str_view};
use crate::store::{
    EntryMap, CatalogModel, entries_of, has_key, value_of, upsert, map_get, map_insert,
};

verus! {

/// The dispatcher's settings, resolved elsewhere: an explicit terminal
/// launch command, and a global command prefix prepended to every
/// launched command line.
pub struct Settings {
    pub terminal_command: Option<String>,
    pub command_prefix: Option<String>,
}

pub ghost struct SettingsModel {
    pub terminal_command: Option<Seq<char>>,
    pub command_prefix: Option<Seq<char>>,
}

impl View for Settings {
    type V = SettingsModel;

    open spec fn view(&self) -> SettingsModel {
        SettingsModel {
            terminal_command: opt_str_view(self.terminal_command),
            command_prefix: opt_str_view(self.command_prefix),
        }
    }
}

/// The number of whitespace characters at the front.
pub open spec fn leading_spaces(s: Seq<char>) -> nat
    decreases s.len(),
{
    if s.len() > 0 && is_space(s[0]) {
        1 + leading_spaces(s.drop_first())
    } else {
        0
    }
}

pub proof fn lemma_leading_spaces_at(s: Seq<char>, m: int)
    requires
        0 <= m <= s.len(),
        forall|j: int| 0 <= j < m ==> is_space(s[j]),
        m < s.len() ==> !is_space(s[m]),
    ensures
        leading_spaces(s) == m,
    decreases s.len(),
{
    if s.len() > 0 && is_space(s[0]) {
        let t = s.drop_first();
        assert(forall|j: int| 0 <= j < m - 1 ==> (#[trigger] t[j]) == s[j + 1]);
        if m - 1 < t.len() {
            assert(t[m - 1] == s[m]);
        }
        lemma_leading_spaces_at(t, m - 1);
    }
}

/// A field code stands at the front: optional whitespace, then a
/// percent sign followed by one word character.
pub open spec fn code_at_front(s: Seq<char>) -> bool {
    let m = leading_spaces(s);
    m + 1 < s.len() && s[m as int] == '%' && is_word_char(s[m as int + 1])
}

/// The string with every field code removed: scanning left to right,
/// each whitespace-prefixed percent sign followed by a word character
/// disappears together with that whitespace.
pub open spec fn strip_codes(s: Seq<char>) -> Seq<char>
    decreases s.len(),
{
    if s.len() == 0 {
        s
    } else if code_at_front(s) {
        strip_codes(s.skip(leading_spaces(s) as int + 2))
    } else {
        seq![s[0]] + strip_codes(s.drop_first())
    }
}

/// Strips field codes from a command string.
pub fn strip_field_codes(s: &str) -> (r: String)
    ensures
        r@ == strip_codes(s@),
{
    let n = s.unicode_len();
    let mut out = String::new();
    let mut i: usize = 0;
    proof {
        assert(s@.skip(0) =~= s@);
        assert(out@ + strip_codes(s@) =~= strip_codes(s@));
    }
    while i < n
        invariant
            i <= n,
            n == s@.len(),
            strip_codes(s@) == out@ + strip_codes(s@.skip(i as int)),
        decreases n - i,
    {
        let ghost t = s@.skip(i as int);
        let mut j = i;
        while j < n && space_char(s.get_char(j))
            invariant
                i <= j <= n,
                n == s@.len(),
                forall|m: int| i <= m < j ==> is_space(s@[m]),
            decreases n - j,
        {
            j = j + 1;
        }
        proof {
            assert(forall|m: int| 0 <= m < j - i ==> t[m] == s@[m + i]);
            if j < n {
                assert(t[j - i] == s@[j as int]);
            }
            lemma_leading_spaces_at(t, j - i);
        }
        let is_code = j < n && j + 1 < n && s.get_char(j) == '%' && word_char(s.get_char(j + 1));
        if is_code {
            proof {
                assert(t[j - i] == s@[j as int]);
                assert(t[j - i + 1] == s@[j as int + 1]);
                assert(code_at_front(t));
                assert(t.skip(j - i + 2) =~= s@.skip(j as int + 2));
                assert(strip_codes(s@) == out@ + strip_codes(s@.skip(j as int + 2)));
            }
            i = j + 2;
        } else {
            proof {
                assert(!code_at_front(t)) by {
                    if j < n {
                        assert(t[j - i] == s@[j as int]);
                        if j + 1 < n {
                            assert(t[j - i + 1] == s@[j as int + 1]);
                        }
                    }
                }
                assert(strip_codes(t) == seq![t[0]] + strip_codes(t.drop_first()));
                assert(t[0] == s@[i as int]);
                assert(t.drop_first() =~= s@.skip(i as int + 1));
            }
            let piece = s.substring_char(i, i + 1);
            out.append(piece);
            proof {
                assert(piece@ =~= seq![s@[i as int]]);
                assert(strip_codes(s@) =~= out@ + strip_codes(s@.skip(i as int + 1)));
            }
            i = i + 1;
        }
    }
    proof {
        assert(s@.skip(n as int) =~= Seq::<char>::empty());
        assert(out@ + strip_codes(s@.skip(n as int)) =~= out@);
    }
    out
}

/// The command with the global prefix in front, where one is set and
/// not empty.
pub open spec fn prefixed(cmd: Seq<char>, prefix: Option<Seq<char>>) -> Seq<char> {
    match prefix {
        Some(p) => if p.len() > 0 {
            p + seq![' '] + cmd
        } else {
            cmd
        },
        None => cmd,
    }
}

/// Applies the global command prefix.
pub fn apply_prefix(cmd: String, settings: &Settings) -> (r: String)
    ensures
        r@ == prefixed(cmd@, settings@.command_prefix),
{
    match &settings.command_prefix {
        Some(p) => {
            if !p.as_str().is_empty() {
                let mut r = p.clone();
                r.append(" ");
                r.append(cmd.as_str());
                proof {
                    reveal_strlit(" ");
                    assert(" "@ =~= seq![' ']);
                    assert(r@ =~= p@ + seq![' '] + cmd@);
                }
                r
            } else {
                cmd
            }
        },
        None => cmd,
    }
}

/// Builds the command for a raw typed string, chosen past the catalog:
/// trimmed, with the global prefix applied. No usage counter changes.
pub fn execute_raw(cmd: String, settings: &Settings) -> (r: String)
    ensures
        r@ == prefixed(trimmed(cmd@), settings@.command_prefix),
{
    let t = trim_str(cmd.as_str());
    apply_prefix(t, settings)
}

/// The models of a vector of words.
pub open spec fn words_model(v: Seq<String>) -> Seq<Seq<char>> {
    v.map_values(|s: String| s@)
}

/// What shlex's word splitting returns on a command line; `None` where
/// the line cannot be split.
pub uninterp spec fn split_of(s: Seq<char>) -> Option<Seq<Seq<char>>>;

/// Relies on shlex::split: POSIX-shell-like word splitting of a command
/// line; `None` exactly on erroneous input (an unclosed quote or a
/// trailing escape). The outcome depends on the characters alone.
#[verifier::external_body]
fn shell_split(s: &str) -> (r: Option<Vec<String>>)
    ensures
        match r {
            Some(v) => split_of(s@) == Some(words_model(v@)),
            None => split_of(s@) is None,
        },
{
    shlex::split(s)
}

/// Some word holds a nul character.
pub open spec fn has_nul(words: Seq<Seq<char>>) -> bool {
    exists|i: int| 0 <= i < words.len() && (#[trigger] words[i]).contains('\0')
}

/// What shlex's quoting join returns on a list of words.
pub uninterp spec fn join_of(words: Seq<Seq<char>>) -> Seq<char>;

/// Relies on shlex::try_join: joins words into one shell-quoted command
/// line, a single space between quoted words; fails exactly when some
/// word holds a nul character. The result depends on the words alone.
#[verifier::external_body]
fn shell_join(words: &Vec<String>) -> (r: Option<String>)
    ensures
        r is Some <==> !has_nul(words_model(words@)),
        r matches Some(s) ==> s@ == join_of(words_model(words@)),
{
    match shlex::try_join(words.iter().map(|w| w.as_str())) {
        Ok(s) => Some(s),
        Err(_) => None,
    }
}

/// Why no command could be built for a chosen entry.
#[derive(Debug, PartialEq, Eq)]
pub enum ExecError {
    /// The chosen path is not in the catalog.
    EntryNotFound,
    /// The terminal-command override cannot be split into words.
    TerminalCommandUnparsable,
    /// A word of the terminal command holds a nul character.
    CommandNotQuotable,
}

/// The hard-coded fallback terminal emulator.
pub open spec fn fallback_terminal() -> Seq<char> {
    seq!['a', 'l', 'a', 'c', 'r', 'i', 't', 't', 'y']
}

/// The flag that hands a terminal emulator the command to run.
pub open spec fn term_flag() -> Seq<char> {
    seq!['-', 'e']
}

/// The terminal launch words: the split override when one is set
/// (`None` when it cannot be split), else the environment's terminal
/// with the command flag, else the fallback terminal with the flag.
pub open spec fn term_words(s: SettingsModel, env_term: Option<Seq<char>>) -> Option<
    Seq<Seq<char>>,
> {
    match s.terminal_command {
        Some(tc) => split_of(tc),
        None => match env_term {
            Some(t) => Some(seq![t, term_flag()]),
            None => Some(seq![fallback_terminal(), term_flag()]),
        },
    }
}

/// What a terminal launch returns: the cleaned command appended as the
/// last word, the words shell-quoted and joined, the prefix applied;
/// or the error naming what failed.
pub open spec fn term_command_outcome(
    e: EntryModel,
    s: SettingsModel,
    env_term: Option<Seq<char>>,
    r: Result<String, ExecError>,
) -> bool {
    let cleaned = strip_codes(trimmed(e.exec_cmd));
    match term_words(s, env_term) {
        None => r == Err::<String, ExecError>(ExecError::TerminalCommandUnparsable),
        Some(ws) => {
            let full = ws.push(cleaned);
            if has_nul(full) {
                r == Err::<String, ExecError>(ExecError::CommandNotQuotable)
            } else {
                r matches Ok(c) && c@ == prefixed(join_of(full), s.command_prefix)
            }
        },
    }
}

/// Builds the command for a bare-executable entry: its command string
/// trimmed, the prefix applied. These strings never hold field codes,
/// so none are stripped.
pub fn exec_command(entry: &Entry, settings: &Settings) -> (r: String)
    ensures
        r@ == prefixed(trimmed(entry@.exec_cmd), settings@.command_prefix),
{
    let t = trim_str(entry.exec_cmd.as_str());
    apply_prefix(t, settings)
}

/// Builds the command for a windowed descriptor entry: trimmed, field
/// codes stripped, the prefix applied.
pub fn exec_app(entry: &Entry, settings: &Settings) -> (r: String)
    ensures
        r@ == prefixed(strip_codes(trimmed(entry@.exec_cmd)), settings@.command_prefix),
{
    let t = trim_str(entry.exec_cmd.as_str());
    let cleaned = strip_field_codes(t.as_str());
    apply_prefix(cleaned, settings)
}

/// Builds the command for a terminal-bound descriptor entry.
pub fn exec_term(entry: &Entry, settings: &Settings, env_term: &Option<String>) -> (r: Result<
    String,
    ExecError,
>)
    ensures
        term_command_outcome(entry@, settings@, opt_str_view(*env_term), r),
{
    let t = trim_str(entry.exec_cmd.as_str());
    let cleaned = strip_field_codes(t.as_str());
    let mut words: Vec<String>;
    match &settings.terminal_command {
        Some(tc) => {
            match shell_split(tc.as_str()) {
                Some(v) => {
                    words = v;
                },
                None => {
                    return Err(ExecError::TerminalCommandUnparsable);
                },
            }
        },
        None => {
            words = Vec::new();
            match env_term {
                Some(tname) => {
                    words.push(tname.clone());
                },
                None => {
                    words.push(String::from_str("alacritty"));
                    proof {
                        reveal_strlit("alacritty");
                        assert("alacritty"@ =~= fallback_terminal());
                    }
                },
            }
            words.push(String::from_str("-e"));
            proof {
                reveal_strlit("-e");
                assert("-e"@ =~= term_flag());
                assert(words_model(words@) =~= (match opt_str_view(*env_term) {
                    Some(tn) => seq![tn, term_flag()],
                    None => seq![fallback_terminal(), term_flag()],
                }));
            }
        },
    }
    let ghost ws = words_model(words@);
    proof {
        assert(term_words(settings@, opt_str_view(*env_term)) == Some(ws));
    }
    words.push(cleaned);
    proof {
        assert(words_model(words@) =~= ws.push(strip_codes(trimmed(entry@.exec_cmd))));
    }
    match shell_join(&words) {
        Some(j) => Ok(apply_prefix(j, settings)),
        None => Err(ExecError::CommandNotQuotable),
    }
}

/// The entry with its usage counter one higher.
pub open spec fn bump(e: EntryModel) -> EntryModel {
    EntryModel { count: (e.count + 1) as u32, ..e }
}

/// The catalog after one launch of the entry at `path`: its counter one
/// higher, everything else untouched; a missing path changes nothing.
pub open spec fn launch_step(cat: CatalogModel, path: Seq<char>) -> CatalogModel {
    if has_key(cat, path) {
        upsert(cat, path, bump(value_of(cat, path)))
    } else {
        cat
    }
}

/// What command a launch of the entry `e` yields.
pub open spec fn entry_command_outcome(
    e: EntryModel,
    s: SettingsModel,
    env_term: Option<Seq<char>>,
    r: Result<String, ExecError>,
) -> bool {
    if !e.desktop {
        r matches Ok(c) && c@ == prefixed(trimmed(e.exec_cmd), s.command_prefix)
    } else if !e.terminal {
        r matches Ok(c) && c@ == prefixed(strip_codes(trimmed(e.exec_cmd)), s.command_prefix)
    } else {
        term_command_outcome(e, s, env_term, r)
    }
}

/// Looks the chosen path up in the catalog, raises its usage counter by
/// exactly one, and builds the command line for it. The counter is
/// raised even where command building then fails; the caller persists
/// the catalog before spawning, so no launch is ever uncounted.
pub fn execute(
    pathstr: String,
    entries: &mut EntryMap,
    settings: &Settings,
    env_term: &Option<String>,
) -> (r: Result<String, ExecError>)
    requires
        has_key(entries_of(*old(entries)), pathstr@) ==> value_of(
            entries_of(*old(entries)),
            pathstr@,
        ).count < u32::MAX,
    ensures
        entries_of(*final(entries)) == launch_step(entries_of(*old(entries)), pathstr@),
        !has_key(entries_of(*old(entries)), pathstr@) ==> r == Err::<String, ExecError>(
            ExecError::EntryNotFound,
        ),
        has_key(entries_of(*old(entries)), pathstr@) ==> entry_command_outcome(
            value_of(entries_of(*old(entries)), pathstr@),
            settings@,
            opt_str_view(*env_term),
            r,
        ),
{
    let found = map_get(entries, pathstr.as_str());
    let e = match found {
        None => {
            return Err(ExecError::EntryNotFound);
        },
        Some(e) => e.duplicate(),
    };
    let mut e2 = e.duplicate();
    e2.count = e2.count + 1;
    map_insert(entries, pathstr.clone(), e2);
    if !e.desktop {
        Ok(exec_command(&e, settings))
    } else if !e.terminal {
        Ok(exec_app(&e, settings))
    } else {
        exec_term(&e, settings, env_term)
    }
}

} // verus!
