use indexmap::map::IndexMap;
use sklauncher::dispatch::{
    exec_app, exec_command, exec_term, execute, execute_raw, strip_field_codes, ExecError,
    Settings,
};
use sklauncher::entry::Entry;

fn plain_settings() -> Settings {
    Settings { terminal_command: None, command_prefix: None }
}

fn desktop_entry(path: &str, exec_cmd: &str, terminal: bool) -> Entry {
    let mut e = Entry::new();
    e.path = path.to_string();
    e.name = path.to_string();
    e.exec_cmd = exec_cmd.to_string();
    e.desktop = true;
    e.terminal = terminal;
    e
}

/// Field-code stripping: the exact output string, internal spacing
/// collapsing with the removed codes.
#[test]
fn field_code_stripping_exact() {
    assert_eq!(strip_field_codes("app %f --flag %u"), "app --flag");
    assert_eq!(strip_field_codes("app"), "app");
    assert_eq!(strip_field_codes("%f"), "");
    assert_eq!(strip_field_codes("a %"), "a %");
    assert_eq!(strip_field_codes("a %%f"), "a %");
    assert_eq!(strip_field_codes("x % f"), "x % f");
    assert_eq!(strip_field_codes(""), "");
}

/// The stripping rule agrees with the pattern `\s*%\w` replaced by
/// nothing, leftmost-first.
#[test]
fn field_code_stripping_matches_pattern() {
    let re = regex::Regex::new(r"\s*%\w").unwrap();
    for s in [
        "app %f --flag %u",
        "gedit %U",
        "a\t%d b",
        "%f%u",
        "cmd %1 %_ %%",
        "no codes at all",
        "  %x",
        "tail %",
    ] {
        assert_eq!(strip_field_codes(s), re.replace_all(s, "").into_owned(), "input: {:?}", s);
    }
}

#[test]
fn raw_command_is_trimmed_and_prefixed() {
    assert_eq!(execute_raw("  htop  ".to_string(), &plain_settings()), "htop");
    let prefixed = Settings { terminal_command: None, command_prefix: Some("env -i".to_string()) };
    assert_eq!(execute_raw(" htop ".to_string(), &prefixed), "env -i htop");
    let empty_prefix = Settings { terminal_command: None, command_prefix: Some(String::new()) };
    assert_eq!(execute_raw("htop".to_string(), &empty_prefix), "htop");
}

#[test]
fn bare_entry_command_passes_through() {
    let mut e = Entry::new();
    e.exec_cmd = " ls %f ".to_string();
    // bare executables keep their command verbatim but trimmed: no
    // field-code stripping on this path
    assert_eq!(exec_command(&e, &plain_settings()), "ls %f");
}

#[test]
fn windowed_entry_command_is_stripped() {
    let e = desktop_entry("/a.desktop", " gedit %U ", false);
    assert_eq!(exec_app(&e, &plain_settings()), "gedit");
}

/// Terminal wrapping: override unset, environment terminal `foo`,
/// cleaned command `edit file.txt`.
#[test]
fn terminal_wrapping_uses_env_terminal() {
    let e = desktop_entry("/e.desktop", "edit file.txt", true);
    let got = exec_term(&e, &plain_settings(), &Some("foo".to_string())).unwrap();
    let want = shlex::try_join(vec!["foo", "-e", "edit file.txt"]).unwrap();
    assert_eq!(got, want);
    assert_eq!(got, "foo -e 'edit file.txt'");
}

#[test]
fn terminal_wrapping_falls_back_without_env() {
    let e = desktop_entry("/e.desktop", "top", true);
    let got = exec_term(&e, &plain_settings(), &None).unwrap();
    assert_eq!(got, "alacritty -e top");
}

#[test]
fn terminal_override_is_split_like_a_shell() {
    let e = desktop_entry("/e.desktop", "top", true);
    let s = Settings {
        terminal_command: Some("term --title 'my term' -e".to_string()),
        command_prefix: None,
    };
    let got = exec_term(&e, &s, &Some("ignored".to_string())).unwrap();
    let want = shlex::try_join(vec!["term", "--title", "my term", "-e", "top"]).unwrap();
    assert_eq!(got, want);
}

#[test]
fn terminal_override_that_cannot_be_split_is_an_error() {
    let e = desktop_entry("/e.desktop", "top", true);
    let s = Settings { terminal_command: Some("term 'unclosed".to_string()), command_prefix: None };
    assert_eq!(exec_term(&e, &s, &None), Err(ExecError::TerminalCommandUnparsable));
}

#[test]
fn command_with_nul_is_an_error() {
    let e = desktop_entry("/e.desktop", "bad\u{0}cmd", true);
    assert_eq!(exec_term(&e, &plain_settings(), &None), Err(ExecError::CommandNotQuotable));
}

#[test]
fn execute_unknown_path_is_an_error() {
    let mut catalog: IndexMap<String, Entry> = IndexMap::new();
    let r = execute("/nowhere".to_string(), &mut catalog, &plain_settings(), &None);
    assert_eq!(r, Err(ExecError::EntryNotFound));
    assert!(catalog.is_empty());
}

/// Counter durability: launching an entry N times raises its counter by
/// exactly N; the caller persists after every step.
#[test]
fn counter_rises_once_per_launch() {
    let mut catalog: IndexMap<String, Entry> = IndexMap::new();
    let mut e = desktop_entry("/a.desktop", "run %f", false);
    e.count = 2;
    catalog.insert(e.path.clone(), e);
    let n = 5;
    for i in 0..n {
        let r = execute(
            "/a.desktop".to_string(),
            &mut catalog,
            &plain_settings(),
            &None,
        );
        assert_eq!(r.unwrap(), "run");
        assert_eq!(catalog.get("/a.desktop").unwrap().count, 2 + i + 1);
    }
    assert_eq!(catalog.get("/a.desktop").unwrap().count, 2 + n);
}

#[test]
fn execute_picks_the_right_path_per_entry_kind() {
    let settings = Settings {
        terminal_command: None,
        command_prefix: Some("setpriv".to_string()),
    };
    let mut catalog: IndexMap<String, Entry> = IndexMap::new();
    let mut bare = Entry::new();
    bare.path = "/bin/ls".to_string();
    bare.exec_cmd = "ls".to_string();
    catalog.insert(bare.path.clone(), bare);
    catalog.insert(
        "/w.desktop".to_string(),
        desktop_entry("/w.desktop", "gedit %U", false),
    );
    catalog.insert(
        "/t.desktop".to_string(),
        desktop_entry("/t.desktop", "vi notes.txt", true),
    );

    let r1 = execute("/bin/ls".to_string(), &mut catalog, &settings, &Some("xterm".to_string()));
    assert_eq!(r1.unwrap(), "setpriv ls");
    let r2 = execute("/w.desktop".to_string(), &mut catalog, &settings, &Some("xterm".to_string()));
    assert_eq!(r2.unwrap(), "setpriv gedit");
    let r3 = execute("/t.desktop".to_string(), &mut catalog, &settings, &Some("xterm".to_string()));
    assert_eq!(r3.unwrap(), "setpriv xterm -e 'vi notes.txt'");
}
