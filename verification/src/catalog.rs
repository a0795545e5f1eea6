//! The catalog build: per-file scanning steps, per-directory blocks, and
//! the merged, ordered catalog.
//!
//! Filesystem work stays outside: the surrounding program walks the
//! directories and reads files, and hands in plain values — paths,
//! modification times, file contents. Every decision (whether a file
//! must be re-parsed, what an entry holds, how the catalog is ordered
//! and merged) is made here.

use vstd::prelude::*;
use vstd::string::StrSliceExecFns;
use crate::strings::str_eq;
use crate::entry::{Entry, EntryModel, Timestamp};
use crate::store::{
    EntryMap, CatalogModel, entries_of, has_key, value_of, upsert_all, distinct_keys, map_new,
    map_get, map_pairs, map_extend_entries, map_extend_pairs, lemma_upsert_all_distinct,
    lemma_upsert_all_fresh,
};
use crate::desktop::{descriptor_entry, opt_entry_view, parse_desktop_file};
use crate::order::{
    pairs_model, entries_model, sort_by_name, sort_by_count, sort_pairs_by_name,
    sort_entries_by_count, lemma_sort_by_name_props,
};

verus! {

/// The file name: everything after the last slash.
pub open spec fn base_name(p: Seq<char>) -> Seq<char>
    decreases p.len(),
{
    if p.len() == 0 {
        p
    } else if p.last() == '/' {
        Seq::empty()
    } else {
        base_name(p.drop_last()).push(p.last())
    }
}

proof fn lemma_base_name_suffix(p: Seq<char>, k: int)
    requires
        0 <= k <= p.len(),
        forall|j: int| k <= j < p.len() ==> p[j] != '/',
        k > 0 ==> p[k - 1] == '/',
    ensures
        base_name(p) == p.skip(k),
    decreases p.len(),
{
    if p.len() == 0 {
        assert(p.skip(0) =~= p);
    } else if k == p.len() {
        assert(p.last() == '/');
        assert(p.skip(k) =~= Seq::<char>::empty());
    } else {
        assert(p.last() != '/');
        let q = p.drop_last();
        assert(forall|j: int| k <= j < q.len() ==> (#[trigger] q[j]) == p[j]);
        lemma_base_name_suffix(q, k);
        assert(q.skip(k).push(p.last()) =~= p.skip(k));
    }
}

/// The base name of a path string.
pub fn base_name_str(p: &str) -> (r: String)
    ensures
        r@ == base_name(p@),
{
    let n = p.unicode_len();
    let mut k: usize = n;
    while k > 0 && p.get_char(k - 1) != '/'
        invariant
            k <= n,
            n == p@.len(),
            forall|j: int| k <= j < n ==> p@[j] != '/',
        decreases k,
    {
        k = k - 1;
    }
    proof {
        lemma_base_name_suffix(p@, k as int);
        assert(p@.skip(k as int) =~= p@.subrange(k as int, n as int));
    }
    let piece = p.substring_char(k, n);
    piece.to_owned()
}

/// The extension of a file name, not counting a leading dot: the part
/// after the last dot of the tail `t` (the name without its first
/// character), or `None` when the tail has no dot.
pub open spec fn ext_of_tail(t: Seq<char>) -> Option<Seq<char>>
    decreases t.len(),
{
    if t.len() == 0 {
        None
    } else if t.last() == '.' {
        Some(Seq::empty())
    } else {
        match ext_of_tail(t.drop_last()) {
            None => None,
            Some(e) => Some(e.push(t.last())),
        }
    }
}

/// The extension of a file name: the part after its last dot, where a
/// dot in first position does not count (a leading-dot name alone has
/// no extension).
pub open spec fn ext_chars(b: Seq<char>) -> Option<Seq<char>> {
    if b.len() == 0 {
        None
    } else {
        ext_of_tail(b.drop_first())
    }
}

/// Whether a path names a descriptor file: its extension is `desktop`.
pub open spec fn is_desktop_path(p: Seq<char>) -> bool {
    ext_chars(base_name(p)) == Some("desktop"@)
}

proof fn lemma_ext_tail_at(t: Seq<char>, d: int)
    requires
        0 <= d < t.len(),
        t[d] == '.',
        forall|j: int| d < j < t.len() ==> t[j] != '.',
    ensures
        ext_of_tail(t) == Some(t.skip(d + 1)),
    decreases t.len(),
{
    if d == t.len() - 1 {
        assert(t.last() == '.');
        assert(t.skip(d + 1) =~= Seq::<char>::empty());
    } else {
        assert(t.last() != '.');
        let q = t.drop_last();
        assert(forall|j: int| 0 <= j < q.len() ==> (#[trigger] q[j]) == t[j]);
        lemma_ext_tail_at(q, d);
        assert(q.skip(d + 1).push(t.last()) =~= t.skip(d + 1));
    }
}

proof fn lemma_ext_tail_none(t: Seq<char>)
    requires
        forall|j: int| 0 <= j < t.len() ==> t[j] != '.',
    ensures
        ext_of_tail(t) is None,
    decreases t.len(),
{
    if t.len() > 0 {
        let q = t.drop_last();
        assert(forall|j: int| 0 <= j < q.len() ==> (#[trigger] q[j]) == t[j]);
        lemma_ext_tail_none(q);
    }
}

/// Whether a path names a descriptor file.
pub fn is_desktop_file(path: &str) -> (r: bool)
    ensures
        r == is_desktop_path(path@),
{
    let b = base_name_str(path);
    let n = b.as_str().unicode_len();
    if n == 0 {
        return false;
    }
    let mut d: usize = n;
    while d > 1 && b.as_str().get_char(d - 1) != '.'
        invariant
            1 <= d <= n,
            n == b@.len(),
            forall|j: int| d <= j < n ==> b@[j] != '.',
        decreases d,
    {
        d = d - 1;
    }
    if d <= 1 {
        proof {
            let t = b@.drop_first();
            assert(forall|j: int| 0 <= j < t.len() ==> (#[trigger] t[j]) == b@[j + 1] && b@[j + 1]
                != '.');
            lemma_ext_tail_none(t);
        }
        false
    } else {
        proof {
            let t = b@.drop_first();
            assert(t[d - 2] == b@[d - 1]);
            assert(b@[d - 1] == '.');
            assert(forall|j: int| d - 2 < j < t.len() ==> (#[trigger] t[j]) == b@[j + 1] && b@[j
                + 1] != '.');
            lemma_ext_tail_at(t, d - 2);
            assert(t.skip(d - 1) =~= b@.subrange(d as int, n as int));
        }
        let e = b.as_str().substring_char(d, n);
        str_eq(e, "desktop")
    }
}

/// An unchanged descriptor: the prior catalog has this path, with this
/// very modification time.
pub open spec fn fresh_in_cache(h: CatalogModel, path: Seq<char>, mtime: Timestamp) -> bool {
    has_key(h, path) && value_of(h, path).mtime == Some(mtime)
}

/// The usage counter carried over from the prior catalog, zero for a
/// path not seen before.
pub open spec fn prior_count(h: CatalogModel, path: Seq<char>) -> u32 {
    if has_key(h, path) {
        value_of(h, path).count
    } else {
        0
    }
}

/// Whether a descriptor file must be read and parsed: only when the
/// prior catalog has no entry at its path with the same stored
/// modification time. An unchanged descriptor costs only this check,
/// never a read of its contents.
pub fn needs_parse(history: &EntryMap, path: &String, mtime: Timestamp) -> (r: bool)
    ensures
        r == !fresh_in_cache(entries_of(*history), path@, mtime),
{
    match map_get(history, path.as_str()) {
        None => true,
        Some(e) => match e.mtime {
            None => true,
            Some(t) => !(t == mtime),
        },
    }
}

/// One descriptor file's scan outcome over the prior catalog: the
/// cached entry where the file is unchanged, otherwise the parse of its
/// content with the usage counter carried over; no content, no entry.
pub open spec fn scan_desktop_file(
    h: CatalogModel,
    path: Seq<char>,
    mtime: Timestamp,
    content: Option<Seq<char>>,
) -> Option<EntryModel> {
    if fresh_in_cache(h, path, mtime) {
        Some(value_of(h, path))
    } else {
        match content {
            None => None,
            Some(c) => descriptor_entry(path, mtime, c, prior_count(h, path)),
        }
    }
}

pub open spec fn opt_content_view(c: Option<&str>) -> Option<Seq<char>> {
    match c {
        Some(s) => Some(s@),
        None => None,
    }
}

/// One descriptor file's scan step. `content` is the file's text, to be
/// read only when `needs_parse` says so, and `None` where the file
/// could not be read; it is never consulted for an unchanged file.
pub fn load_desktop_entry_file(
    history: &EntryMap,
    path: &String,
    mtime: Timestamp,
    content: Option<&str>,
) -> (r: Option<Entry>)
    ensures
        opt_entry_view(r) == scan_desktop_file(
            entries_of(*history),
            path@,
            mtime,
            opt_content_view(content),
        ),
{
    let cached = map_get(history, path.as_str());
    let mut count: u32 = 0;
    match cached {
        Some(e) => {
            if let Some(t) = e.mtime {
                if t == mtime {
                    return Some(e.duplicate());
                }
            }
            count = e.count;
        },
        None => {},
    }
    match content {
        None => None,
        Some(c) => parse_desktop_file(path, mtime, c, count),
    }
}

/// The entry of one bare executable: named after its file, always
/// rescanned (no modification time), its usage counter carried over.
pub open spec fn bin_entry_model(h: CatalogModel, path: Seq<char>) -> EntryModel {
    EntryModel {
        path: path,
        mtime: None,
        name: base_name(path),
        exec_cmd: base_name(path),
        generic_name: None,
        comment: None,
        terminal: false,
        desktop: false,
        count: prior_count(h, path),
    }
}

/// Builds the entry of one bare executable on the search path.
pub fn load_bin_entry(path: &String, history: &EntryMap) -> (r: Entry)
    ensures
        r@ == bin_entry_model(entries_of(*history), path@),
{
    let name = base_name_str(path.as_str());
    let count = match map_get(history, path.as_str()) {
        Some(e) => e.count,
        None => 0,
    };
    Entry {
        path: path.clone(),
        mtime: None,
        name: name.clone(),
        exec_cmd: name,
        generic_name: None,
        comment: None,
        terminal: false,
        desktop: false,
        count: count,
    }
}

/// The models of a vector of path strings.
pub open spec fn files_model(v: Seq<String>) -> Seq<Seq<char>> {
    v.map_values(|s: String| s@)
}

/// The models of a vector of path-string vectors.
pub open spec fn dirs_model(v: Seq<Vec<String>>) -> Seq<Seq<Seq<char>>> {
    v.map_values(|d: Vec<String>| files_model(d@))
}

/// The models of a vector of entry vectors.
pub open spec fn blocks_model(v: Seq<Vec<Entry>>) -> Seq<Seq<EntryModel>> {
    v.map_values(|b: Vec<Entry>| entries_model(b@))
}

/// One search-path directory's pairs, in listing order.
pub open spec fn bin_dir_pairs(h: CatalogModel, files: Seq<Seq<char>>) -> CatalogModel {
    files.map_values(|p: Seq<char>| (p, bin_entry_model(h, p)))
}

/// One search-path directory's block: its entries sorted by name.
pub open spec fn bin_dir_model(h: CatalogModel, files: Seq<Seq<char>>) -> CatalogModel {
    sort_by_name(bin_dir_pairs(h, files))
}

/// The bare-executable catalog: each directory's sorted block, the
/// blocks concatenated in search-path order (a later entry for the same
/// path replacing an earlier one in place).
pub open spec fn bin_catalog_model(h: CatalogModel, dirs: Seq<Seq<Seq<char>>>) -> CatalogModel
    decreases dirs.len(),
{
    if dirs.len() == 0 {
        Seq::empty()
    } else {
        upsert_all(bin_catalog_model(h, dirs.drop_last()), bin_dir_model(h, dirs.last()))
    }
}

/// Builds one entry per listed file of each search-path directory, each
/// directory's entries sorted by name, the directories' blocks kept in
/// search-path order. Usage counters come from the prior catalog.
pub fn load_bin_entries(history: &EntryMap, dirs: &Vec<Vec<String>>) -> (r: EntryMap)
    ensures
        entries_of(r) == bin_catalog_model(entries_of(*history), dirs_model(dirs@)),
{
    let ghost h = entries_of(*history);
    let ghost dm = dirs_model(dirs@);
    let mut result = map_new();
    let mut di: usize = 0;
    proof {
        assert(dm.take(0) =~= Seq::<Seq<Seq<char>>>::empty());
    }
    while di < dirs.len()
        invariant
            di <= dirs.len(),
            h == entries_of(*history),
            dm == dirs_model(dirs@),
            entries_of(result) == bin_catalog_model(h, dm.take(di as int)),
        decreases dirs.len() - di,
    {
        let dir = &dirs[di];
        let ghost files = files_model(dir@);
        let mut pairs: Vec<(String, Entry)> = Vec::new();
        proof {
            assert(dm[di as int] == files);
            assert(pairs_model(pairs@) =~= bin_dir_pairs(h, files).take(0));
        }
        let mut fi: usize = 0;
        while fi < dir.len()
            invariant
                fi <= dir.len(),
                h == entries_of(*history),
                files == files_model(dir@),
                files.len() == dir@.len(),
                pairs@.len() == fi,
                pairs_model(pairs@) == bin_dir_pairs(h, files).take(fi as int),
            decreases dir.len() - fi,
        {
            let p = &dir[fi];
            let e = load_bin_entry(p, history);
            let k = p.clone();
            let ghost prev = pairs@;
            pairs.push((k, e));
            proof {
                assert(files[fi as int] == dir@[fi as int]@);
                assert(pairs@ == prev.push((k, e)));
                assert(pairs@.len() == fi + 1);
                assert(pairs_model(pairs@)[fi as int] == (k@, e@));
                assert(k@ == files[fi as int]);
                assert(e@ == bin_entry_model(h, files[fi as int]));
                assert(bin_dir_pairs(h, files)[fi as int] == (files[fi as int], bin_entry_model(h, files[fi as int])));
                assert(forall|m: int| 0 <= m < fi ==> pairs_model(pairs@)[m] == pairs_model(prev)[m]);
                assert(pairs_model(pairs@) =~~= bin_dir_pairs(h, files).take(fi as int + 1));
            }
            fi = fi + 1;
        }
        proof {
            assert(bin_dir_pairs(h, files).take(dir@.len() as int) =~= bin_dir_pairs(h, files));
        }
        let sorted = sort_pairs_by_name(&pairs);
        map_extend_pairs(&mut result, &sorted);
        di = di + 1;
        proof {
            assert(pairs_model(sorted@) == bin_dir_model(h, files));
            assert(dm.take(di as int).drop_last() =~= dm.take(di as int - 1));
            assert(dm.take(di as int).last() == files);
        }
    }
    proof {
        assert(dm.take(dirs@.len() as int) =~= dm);
    }
    result
}

/// The structured-descriptor pairs of one block, in scan order.
pub open spec fn entries_pairs(es: Seq<EntryModel>) -> CatalogModel {
    es.map_values(|e: EntryModel| (e.path, e))
}

/// All descriptor blocks flattened in root order, a later entry for the
/// same path replacing an earlier one in place.
pub open spec fn desktop_flat(blocks: Seq<Seq<EntryModel>>) -> CatalogModel
    decreases blocks.len(),
{
    if blocks.len() == 0 {
        Seq::empty()
    } else {
        upsert_all(desktop_flat(blocks.drop_last()), entries_pairs(blocks.last()))
    }
}

/// The structured-descriptor catalog: the flattened blocks, sorted as a
/// whole by display name.
pub open spec fn desktop_catalog_model(blocks: Seq<Seq<EntryModel>>) -> CatalogModel {
    sort_by_name(desktop_flat(blocks))
}

/// Merges the per-root descriptor entry blocks into one catalog, sorted
/// by display name. Each block holds the entries of one descriptor
/// root, in scan order, each entry keyed by its path.
pub fn load_desktop_entries(blocks: &Vec<Vec<Entry>>) -> (r: EntryMap)
    ensures
        entries_of(r) == desktop_catalog_model(blocks_model(blocks@)),
{
    let ghost bm = blocks_model(blocks@);
    let mut flat = map_new();
    let mut bi: usize = 0;
    proof {
        assert(bm.take(0) =~= Seq::<Seq<EntryModel>>::empty());
        assert(distinct_keys(entries_of(flat)));
    }
    while bi < blocks.len()
        invariant
            bi <= blocks.len(),
            bm == blocks_model(blocks@),
            entries_of(flat) == desktop_flat(bm.take(bi as int)),
            distinct_keys(entries_of(flat)),
        decreases blocks.len() - bi,
    {
        let block = &blocks[bi];
        proof {
            lemma_upsert_all_distinct(
                entries_of(flat),
                block@.map_values(|e: Entry| (e@.path, e@)),
            );
        }
        map_extend_entries(&mut flat, block);
        bi = bi + 1;
        proof {
            assert(bm[bi as int - 1] == entries_model(blocks@[bi as int - 1]@));
            assert(block@.map_values(|e: Entry| (e@.path, e@)) =~= entries_pairs(
                bm[bi as int - 1],
            ));
            assert(bm.take(bi as int).drop_last() =~= bm.take(bi as int - 1));
            assert(bm.take(bi as int).last() == bm[bi as int - 1]);
        }
    }
    proof {
        assert(bm.take(blocks@.len() as int) =~= bm);
    }
    let pairs = map_pairs(&flat);
    proof {
        assert(pairs_model(pairs@) =~= entries_of(flat));
    }
    let sorted = sort_pairs_by_name(&pairs);
    let mut result = map_new();
    map_extend_pairs(&mut result, &sorted);
    proof {
        lemma_sort_by_name_props(entries_of(flat));
        lemma_upsert_all_fresh(
            Seq::<(Seq<char>, EntryModel)>::empty(),
            sort_by_name(entries_of(flat)),
        );
        assert(Seq::<(Seq<char>, EntryModel)>::empty() + sort_by_name(entries_of(flat))
            =~= sort_by_name(entries_of(flat)));
    }
    result
}

/// The full merged catalog: descriptor entries first, sorted by name,
/// then the bare-executable blocks in search-path order; a later entry
/// for a path already present replaces it in place.
pub open spec fn merged_catalog(
    h: CatalogModel,
    blocks: Seq<Seq<EntryModel>>,
    dirs: Seq<Seq<Seq<char>>>,
) -> CatalogModel {
    upsert_all(desktop_catalog_model(blocks), bin_catalog_model(h, dirs))
}

/// Builds the whole catalog of one run: the descriptor blocks merged
/// and sorted, the search-path entries appended. The caller persists
/// the result as the next run's prior catalog.
pub fn load_entries(
    history: &EntryMap,
    desktop_blocks: &Vec<Vec<Entry>>,
    bin_dirs: &Vec<Vec<String>>,
) -> (r: EntryMap)
    ensures
        entries_of(r) == merged_catalog(
            entries_of(*history),
            blocks_model(desktop_blocks@),
            dirs_model(bin_dirs@),
        ),
{
    let mut entries = load_desktop_entries(desktop_blocks);
    let bins = load_bin_entries(history, bin_dirs);
    let bp = map_pairs(&bins);
    proof {
        assert(pairs_model(bp@) =~= entries_of(bins));
    }
    map_extend_pairs(&mut entries, &bp);
    entries
}

/// The entries of a catalog, without their keys.
pub open spec fn catalog_values(s: CatalogModel) -> Seq<EntryModel> {
    s.map_values(|p: (Seq<char>, EntryModel)| p.1)
}

/// The display-only ordering handed to the selection collaborator: the
/// catalog's entries by descending usage count, stable otherwise. The
/// catalog itself keeps its own order.
pub fn presentation_order(entries: &EntryMap) -> (r: Vec<Entry>)
    ensures
        entries_model(r@) == sort_by_count(catalog_values(entries_of(*entries))),
{
    let pairs = map_pairs(entries);
    let mut es: Vec<Entry> = Vec::new();
    let mut i: usize = 0;
    proof {
        assert(entries_model(es@) =~= catalog_values(entries_of(*entries)).take(0));
    }
    while i < pairs.len()
        invariant
            i <= pairs.len(),
            pairs@.len() == entries_of(*entries).len(),
            forall|j: int|
                0 <= j < pairs@.len() ==> (#[trigger] pairs@[j]).0@ == entries_of(*entries)[j].0
                    && pairs@[j].1@ == entries_of(*entries)[j].1,
            es@.len() == i,
            entries_model(es@) == catalog_values(entries_of(*entries)).take(i as int),
        decreases pairs.len() - i,
    {
        let pr = &pairs[i];
        let e = pr.1.duplicate();
        let ghost prev = es@;
        es.push(e);
        i = i + 1;
        proof {
            let cv = catalog_values(entries_of(*entries));
            assert(es@ == prev.push(e));
            assert(e@ == pairs@[i as int - 1].1@);
            assert(entries_model(es@)[i as int - 1] == e@);
            assert(cv[i as int - 1] == entries_of(*entries)[i as int - 1].1);
            assert(forall|m: int| 0 <= m < i - 1 ==> entries_model(es@)[m] == entries_model(prev)[m]);
            assert(entries_model(es@) =~~= cv.take(i as int));
        }
    }
    proof {
        assert(catalog_values(entries_of(*entries)).take(pairs@.len() as int) =~= catalog_values(
            entries_of(*entries),
        ));
    }
    sort_entries_by_count(&es)
}

} // verus!
