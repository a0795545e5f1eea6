use std::cmp::Ordering;
use lenient_bool::LenientBool;
use sklauncher::desktop::{parse_desktop_file, parse_fields, parse_lenient_bool};
use sklauncher::entry::{entry_cmp, Entry, Timestamp};
use sklauncher::options::{get_accent_color, AccentColor, Algorithm, Tiebreak};
use sklauncher::strings::{str_eq, str_le, trim_str};

fn ts(secs: u64) -> Timestamp {
    Timestamp { secs, nanos: 0 }
}

fn parse(content: &str) -> Option<Entry> {
    parse_desktop_file(&"/apps/x.desktop".to_string(), ts(1), content, 4)
}

#[test]
fn full_descriptor_is_read() {
    let e = parse(
        "# a comment\n[Desktop Entry]\nName = Files \nGenericName=Manager\nComment=Browse files\nExec=files %U\nTerminal=false\n",
    )
    .unwrap();
    assert_eq!(e.name, "Files");
    assert_eq!(e.generic_name, Some("Manager".to_string()));
    assert_eq!(e.comment, Some("Browse files".to_string()));
    assert_eq!(e.exec_cmd, "files %U");
    assert!(!e.terminal);
    assert!(e.desktop);
    assert_eq!(e.count, 4);
    assert_eq!(e.path, "/apps/x.desktop");
    assert_eq!(e.mtime, Some(ts(1)));
}

#[test]
fn required_keys_are_required() {
    assert!(parse("[Desktop Entry]\nExec=run\n").is_none());
    assert!(parse("[Desktop Entry]\nName=NoCommand\n").is_none());
    assert!(parse("").is_none());
}

#[test]
fn keys_outside_the_section_do_not_count() {
    assert!(parse("Name=Early\nExec=run\n[Desktop Entry]\n").is_none());
    let e = parse("[Other]\nName=Other\n[Desktop Entry]\nName=Real\nExec=run\n").unwrap();
    assert_eq!(e.name, "Real");
}

#[test]
fn later_keys_replace_earlier_ones() {
    let e = parse("[Desktop Entry]\nName=First\nName=Second\nExec=run\n").unwrap();
    assert_eq!(e.name, "Second");
}

#[test]
fn malformed_lines_invalidate_the_document() {
    assert!(parse("[Desktop Entry]\nName=App\nExec=run\njunk line\n").is_none());
    assert!(parse("[Desktop Entry\nName=App\nExec=run\n").is_none());
    assert!(parse("[Desktop Entry]\n=value\nName=App\nExec=run\n").is_none());
}

#[test]
fn comments_and_blank_lines_are_skipped() {
    let e = parse("; note\n\n# other note\n[Desktop Entry]\nName=App\nExec=run\n").unwrap();
    assert_eq!(e.name, "App");
}

#[test]
fn carriage_returns_and_missing_options_have_defaults() {
    let e = parse("[Desktop Entry]\r\nName=App\r\nExec=run\r\n").unwrap();
    assert_eq!(e.name, "App");
    assert_eq!(e.exec_cmd, "run");
    assert!(!e.terminal);
    assert_eq!(e.generic_name, None);
    assert_eq!(e.comment, None);
}

#[test]
fn unreadable_terminal_value_drops_the_entry() {
    assert!(parse("[Desktop Entry]\nName=App\nExec=run\nTerminal=maybe\n").is_none());
    let e = parse("[Desktop Entry]\nName=App\nExec=run\nTerminal=YES\n").unwrap();
    assert!(e.terminal);
}

/// The section reading agrees with a general-purpose ini reader on a
/// plain document.
#[test]
fn agrees_with_an_ini_reader() {
    let content = "[Desktop Entry]\nName=Files\nExec=files %U\nTerminal=true\n";
    let conf = ini::Ini::load_from_str(content).unwrap();
    let section = conf.section(Some("Desktop Entry")).unwrap();
    let f = parse_fields(content).unwrap();
    assert_eq!(f.name.as_deref(), section.get("Name"));
    assert_eq!(f.exec_cmd.as_deref(), section.get("Exec"));
    assert_eq!(f.terminal.as_deref(), section.get("Terminal"));
    assert_eq!(f.generic_name, None);
}

/// The lenient boolean reading agrees with the reference reader on
/// every outcome.
#[test]
fn lenient_bool_agrees_with_reference() {
    for s in [
        "true", "TRUE", "t", "T", "yes", "YeS", "y", "1", "false", "False", "f", "no", "n", "0",
        "on", "off", "2", "", "tru", " true",
    ] {
        let want = s.parse::<LenientBool>().ok().map(bool::from);
        assert_eq!(parse_lenient_bool(s), want, "input: {:?}", s);
    }
}

#[test]
fn trimming() {
    assert_eq!(trim_str("  a b \t\r\n"), "a b");
    assert_eq!(trim_str("\t \n"), "");
    assert_eq!(trim_str("x"), "x");
}

#[test]
fn string_order_is_case_sensitive() {
    assert!(str_le("Apple", "Zed"));
    assert!(str_le("Zed", "mid"));
    assert!(!str_le("mid", "Apple"));
    assert!(str_le("abc", "abcd"));
    assert!(str_eq("same", "same"));
    assert!(!str_eq("same", "Same"));
}

#[test]
fn entries_compare_by_name() {
    let mut a = Entry::new();
    a.name = "Apple".to_string();
    let mut z = Entry::new();
    z.name = "Zed".to_string();
    let k = String::new();
    assert_eq!(entry_cmp(&k, &a, &k, &z), Ordering::Less);
    assert_eq!(entry_cmp(&k, &z, &k, &a), Ordering::Greater);
    assert_eq!(entry_cmp(&k, &a, &k, &a), Ordering::Equal);
}

#[test]
fn option_names() {
    assert_eq!(Algorithm::SkimV2.as_str(), "skim_v2");
    assert_eq!(Algorithm::SkimV1.as_str(), "skim_v1");
    assert_eq!(Algorithm::Clangd.as_str(), "clangd");
    assert_eq!(Tiebreak::Score.to_string(), "score");
    assert_eq!(Tiebreak::End.to_string(), "end");
    assert_eq!(get_accent_color(None), 5);
    assert_eq!(get_accent_color(Some(AccentColor::Black)), 0);
    assert_eq!(get_accent_color(Some(AccentColor::White)), 7);
}
