use indexmap::map::IndexMap;
use sklauncher::catalog::{
    base_name_str, is_desktop_file, load_bin_entries, load_bin_entry, load_desktop_entries,
    load_desktop_entry_file, load_entries, needs_parse, presentation_order,
};
use sklauncher::entry::{Entry, Timestamp};

fn ts(secs: u64) -> Timestamp {
    Timestamp { secs, nanos: 0 }
}

fn desktop_content(name: &str, exec: &str) -> String {
    format!("[Desktop Entry]\nName={}\nExec={}\n", name, exec)
}

/// Drives the per-file scan protocol the way the surrounding program
/// does, counting how often a file's contents had to be read.
fn scan_files(
    history: &IndexMap<String, Entry>,
    files: &[(String, Timestamp, String)],
    reads: &mut usize,
) -> Vec<Entry> {
    let mut block = Vec::new();
    for (path, mtime, content) in files {
        let text = if needs_parse(history, path, *mtime) {
            *reads += 1;
            Some(content.as_str())
        } else {
            None
        };
        if let Some(e) = load_desktop_entry_file(history, path, *mtime, text) {
            block.push(e);
        }
    }
    block
}

#[test]
fn base_names() {
    assert_eq!(base_name_str("/usr/bin/ls"), "ls");
    assert_eq!(base_name_str("ls"), "ls");
    assert_eq!(base_name_str(""), "");
}

#[test]
fn desktop_extension_detection() {
    assert!(is_desktop_file("/apps/editor.desktop"));
    assert!(is_desktop_file("/apps/a.b.desktop"));
    assert!(!is_desktop_file("/apps/editor.desktop.bak"));
    assert!(!is_desktop_file("/apps/.desktop"));
    assert!(!is_desktop_file("/apps/editor"));
    assert!(!is_desktop_file("editor.Desktop"));
}

#[test]
fn bin_entry_fields_and_prior_count() {
    let mut history: IndexMap<String, Entry> = IndexMap::new();
    let mut prior = Entry::new();
    prior.path = "/bin/ls".to_string();
    prior.count = 7;
    history.insert("/bin/ls".to_string(), prior);

    let e = load_bin_entry(&"/bin/ls".to_string(), &history);
    assert_eq!(e.path, "/bin/ls");
    assert_eq!(e.name, "ls");
    assert_eq!(e.exec_cmd, "ls");
    assert_eq!(e.mtime, None);
    assert!(!e.desktop);
    assert!(!e.terminal);
    assert_eq!(e.count, 7);

    let fresh = load_bin_entry(&"/bin/cat".to_string(), &history);
    assert_eq!(fresh.count, 0);
}

/// Merge precedence: a path persisted with a usage count keeps that
/// count when rescanned as a bare executable.
#[test]
fn merge_precedence_keeps_counter() {
    let mut history: IndexMap<String, Entry> = IndexMap::new();
    let mut prior = Entry::new();
    prior.path = "/bin/vi".to_string();
    prior.name = "vi".to_string();
    prior.count = 7;
    history.insert("/bin/vi".to_string(), prior);

    let dirs = vec![vec!["/bin/vi".to_string()]];
    let catalog = load_entries(&history, &Vec::new(), &dirs);
    assert_eq!(catalog.get("/bin/vi").unwrap().count, 7);
}

/// Ordering: structured entries of one directory come out sorted by
/// display name, case-sensitively ascending.
#[test]
fn ordering_is_case_sensitive() {
    let names = ["Zed", "Apple", "mid"];
    let mut block = Vec::new();
    for (i, n) in names.iter().enumerate() {
        let history: IndexMap<String, Entry> = IndexMap::new();
        let path = format!("/apps/{}.desktop", i);
        let e = load_desktop_entry_file(
            &history,
            &path,
            ts(1),
            Some(desktop_content(n, "run").as_str()),
        )
        .unwrap();
        block.push(e);
    }
    let catalog = load_desktop_entries(&vec![block]);
    let got: Vec<String> = catalog.values().map(|e| e.name.clone()).collect();
    assert_eq!(got, vec!["Apple".to_string(), "Zed".to_string(), "mid".to_string()]);
}

/// Drop-on-invalid: a descriptor without `Exec` produces no catalog
/// entry and raises no error.
#[test]
fn invalid_descriptor_is_dropped() {
    let history: IndexMap<String, Entry> = IndexMap::new();
    let path = "/apps/broken.desktop".to_string();
    let content = "[Desktop Entry]\nName=Broken\n";
    let r = load_desktop_entry_file(&history, &path, ts(5), Some(content));
    assert!(r.is_none());

    let catalog = load_desktop_entries(&vec![Vec::new()]);
    assert!(catalog.get("/apps/broken.desktop").is_none());
    assert_eq!(catalog.len(), 0);
}

/// Invalidation: an unchanged modification time serves the cached entry
/// without reading the file; a changed one re-parses but keeps the
/// usage counter.
#[test]
fn invalidation_and_counter_preservation() {
    let path = "/apps/edit.desktop".to_string();
    let history: IndexMap<String, Entry> = IndexMap::new();
    let mut reads = 0usize;

    // first scan: the file must be read
    let files = vec![(path.clone(), ts(10), desktop_content("Edit", "edit %f"))];
    let block = scan_files(&history, &files, &mut reads);
    assert_eq!(reads, 1);
    let catalog = load_entries(&history, &vec![block], &Vec::new());

    // launch it a few times to give it a counter
    let mut catalog = catalog;
    let e = catalog.get_mut(path.as_str()).unwrap();
    e.count = 3;

    // unchanged mtime: no read, cached entry verbatim
    let mut reads2 = 0usize;
    let block2 = scan_files(&catalog, &files, &mut reads2);
    assert_eq!(reads2, 0);
    assert_eq!(block2[0], *catalog.get(path.as_str()).unwrap());

    // changed mtime and content: read again, fields renewed, counter kept
    let changed = vec![(path.clone(), ts(11), desktop_content("Editor", "editor %U"))];
    let mut reads3 = 0usize;
    let block3 = scan_files(&catalog, &changed, &mut reads3);
    assert_eq!(reads3, 1);
    assert_eq!(block3[0].name, "Editor");
    assert_eq!(block3[0].exec_cmd, "editor %U");
    assert_eq!(block3[0].mtime, Some(ts(11)));
    assert_eq!(block3[0].count, 3);
}

/// Idempotence: a second build over unchanged data gives a
/// byte-identical catalog in the same order, without reading any file.
#[test]
fn rebuild_is_idempotent() {
    let history: IndexMap<String, Entry> = IndexMap::new();
    let files = vec![
        ("/apps/b.desktop".to_string(), ts(2), desktop_content("Beta", "beta %f")),
        ("/apps/a.desktop".to_string(), ts(1), desktop_content("Alpha", "alpha")),
        ("/apps/bad.desktop".to_string(), ts(3), "no equals sign here".to_string()),
    ];
    let dirs = vec![vec!["/bin/zz".to_string(), "/bin/aa".to_string()]];

    let mut reads1 = 0usize;
    let block1 = scan_files(&history, &files, &mut reads1);
    assert_eq!(reads1, 3);
    let c1 = load_entries(&history, &vec![block1], &dirs);

    let mut reads2 = 0usize;
    let block2 = scan_files(&c1, &files, &mut reads2);
    // only the invalid file is re-read; the two good ones hit the cache
    assert_eq!(reads2, 1);
    let c2 = load_entries(&c1, &vec![block2], &dirs);

    let v1: Vec<(String, Entry)> = c1.iter().map(|(k, v)| (k.clone(), v.clone())).collect();
    let v2: Vec<(String, Entry)> = c2.iter().map(|(k, v)| (k.clone(), v.clone())).collect();
    assert_eq!(v1, v2);

    // desktop part sorted first, then the search-path block in order
    let keys: Vec<&str> = c1.keys().map(|k| k.as_str()).collect();
    assert_eq!(keys, vec!["/apps/a.desktop", "/apps/b.desktop", "/bin/aa", "/bin/zz"]);
}

/// Bare executables are re-derived every run: each directory block is
/// sorted by name, blocks keep search-path order.
#[test]
fn bin_blocks_sorted_within_directory() {
    let history: IndexMap<String, Entry> = IndexMap::new();
    let dirs = vec![
        vec!["/b/zeta".to_string(), "/b/alpha".to_string()],
        vec!["/a/delta".to_string(), "/a/beta".to_string()],
    ];
    let catalog = load_bin_entries(&history, &dirs);
    let names: Vec<&str> = catalog.values().map(|e| e.name.as_str()).collect();
    assert_eq!(names, vec!["alpha", "zeta", "beta", "delta"]);
}

/// The presentation order sorts by descending usage count and is stable
/// otherwise; the catalog itself is not reordered.
#[test]
fn presentation_order_by_count() {
    let mut catalog: IndexMap<String, Entry> = IndexMap::new();
    for (name, count) in [("one", 1u32), ("two", 5), ("three", 1), ("four", 9)] {
        let mut e = Entry::new();
        e.path = format!("/bin/{}", name);
        e.name = name.to_string();
        e.count = count;
        catalog.insert(e.path.clone(), e);
    }
    let ordered = presentation_order(&catalog);
    let names: Vec<&str> = ordered.iter().map(|e| e.name.as_str()).collect();
    assert_eq!(names, vec!["four", "two", "one", "three"]);
    let keys: Vec<&str> = catalog.keys().map(|k| k.as_str()).collect();
    assert_eq!(keys, vec!["/bin/one", "/bin/two", "/bin/three", "/bin/four"]);
}
