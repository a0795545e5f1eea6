//! The library's cross-function laws, stated over the spec functions
//! that the executable functions' contracts use, and proved here once
//! and for all: counter durability over repeated launches, uniqueness
//! and ordering of the built catalog, and idempotence of the whole
//! catalog build over unchanged filesystem data.

use vstd::prelude::*;
use crate::entry::{EntryModel, Timestamp};
use crate::store::{
    CatalogModel, has_key, value_of, distinct_keys, upsert_all, lemma_upsert, lemma_key_index,
    lemma_upsert_all_distinct, lemma_upsert_all_fresh,
};
use crate::order::{sorted_by_name, lemma_sort_by_name_props, lemma_value_by_contains};
use crate::desktop::descriptor_entry;
use crate::catalog::{
    scan_desktop_file, fresh_in_cache, prior_count, bin_entry_model,
    bin_dir_pairs, bin_dir_model, bin_catalog_model, entries_pairs, desktop_flat,
    desktop_catalog_model, merged_catalog,
};
use crate::dispatch::{launch_step, bump};

verus! {

/// The catalog after `n` launches of the entry at `path`.
pub open spec fn launch_n(cat: CatalogModel, path: Seq<char>, n: nat) -> CatalogModel
    decreases n,
{
    if n == 0 {
        cat
    } else {
        launch_step(launch_n(cat, path, (n - 1) as nat), path)
    }
}

/// Counter durability: launching an entry `n` times in sequence raises
/// its usage counter by exactly `n`, changes nothing else of it, and
/// leaves every other entry untouched.
pub proof fn lemma_counter_durability(cat: CatalogModel, path: Seq<char>, n: nat)
    requires
        has_key(cat, path),
        value_of(cat, path).count + n <= u32::MAX,
    ensures
        has_key(launch_n(cat, path, n), path),
        value_of(launch_n(cat, path, n), path) == (EntryModel {
            count: (value_of(cat, path).count + n) as u32,
            ..value_of(cat, path)
        }),
        forall|k: Seq<char>|
            k != path ==> #[trigger] has_key(launch_n(cat, path, n), k) == has_key(cat, k),
        forall|k: Seq<char>|
            k != path && has_key(cat, k) ==> #[trigger] value_of(launch_n(cat, path, n), k)
                == value_of(cat, k),
    decreases n,
{
    if n == 0 {
        assert(value_of(cat, path) == EntryModel {
            count: (value_of(cat, path).count + 0) as u32,
            ..value_of(cat, path)
        });
    } else {
        lemma_counter_durability(cat, path, (n - 1) as nat);
        let prev = launch_n(cat, path, (n - 1) as nat);
        lemma_upsert(prev, path, bump(value_of(prev, path)));
    }
}

/// Every pair of a catalog is keyed by its entry's own path.
pub open spec fn keyed_by_path(s: CatalogModel) -> bool {
    forall|i: int| 0 <= i < s.len() ==> (#[trigger] s[i]).0 == s[i].1.path
}

/// Uniqueness and ordering of the built catalog: the merged catalog
/// holds at most one entry per path, and its descriptor part is sorted
/// by display name.
pub proof fn lemma_catalog_unique_and_ordered(
    h: CatalogModel,
    blocks: Seq<Seq<EntryModel>>,
    dirs: Seq<Seq<Seq<char>>>,
)
    ensures
        distinct_keys(merged_catalog(h, blocks, dirs)),
        sorted_by_name(desktop_catalog_model(blocks)),
{
    lemma_desktop_flat_distinct(blocks);
    lemma_sort_by_name_props(desktop_flat(blocks));
    lemma_upsert_all_distinct(desktop_catalog_model(blocks), bin_catalog_model(h, dirs));
}

proof fn lemma_desktop_flat_distinct(blocks: Seq<Seq<EntryModel>>)
    ensures
        distinct_keys(desktop_flat(blocks)),
    decreases blocks.len(),
{
    if blocks.len() > 0 {
        lemma_desktop_flat_distinct(blocks.drop_last());
        lemma_upsert_all_distinct(
            desktop_flat(blocks.drop_last()),
            entries_pairs(blocks.last()),
        );
    }
}

/// One descriptor file as one run of the scanner sees it: its path, its
/// modification time, and its text.
pub ghost struct FileModel {
    pub path: Seq<char>,
    pub mtime: Timestamp,
    pub content: Seq<char>,
}

/// The scan outcome of one readable descriptor file.
pub open spec fn scan_file(h: CatalogModel, f: FileModel) -> Option<EntryModel> {
    scan_desktop_file(h, f.path, f.mtime, Some(f.content))
}

/// The entries of one descriptor root, in scan order; files that yield
/// no entry are dropped.
pub open spec fn block_entries(h: CatalogModel, files: Seq<FileModel>) -> Seq<EntryModel>
    decreases files.len(),
{
    if files.len() == 0 {
        Seq::empty()
    } else {
        match scan_file(h, files[0]) {
            Some(e) => seq![e] + block_entries(h, files.drop_first()),
            None => block_entries(h, files.drop_first()),
        }
    }
}

/// The per-root entry blocks of one run.
pub open spec fn scan_blocks(h: CatalogModel, roots: Seq<Seq<FileModel>>) -> Seq<Seq<EntryModel>> {
    roots.map_values(|files: Seq<FileModel>| block_entries(h, files))
}

/// The whole catalog of one run over the given filesystem data.
pub open spec fn full_build(
    h: CatalogModel,
    roots: Seq<Seq<FileModel>>,
    dirs: Seq<Seq<Seq<char>>>,
) -> CatalogModel {
    merged_catalog(h, scan_blocks(h, roots), dirs)
}

/// No two scanned files share a path: descriptor files pairwise, listed
/// executables pairwise, and none across the two sources.
pub open spec fn distinct_input_paths(
    roots: Seq<Seq<FileModel>>,
    dirs: Seq<Seq<Seq<char>>>,
) -> bool {
    &&& forall|i1: int, j1: int, i2: int, j2: int|
        0 <= i1 < roots.len() && 0 <= j1 < roots[i1].len() && 0 <= i2 < roots.len() && 0 <= j2
            < roots[i2].len() && (i1 != i2 || j1 != j2) ==> (#[trigger] roots[i1][j1]).path != (
        #[trigger] roots[i2][j2]).path
    &&& forall|i1: int, j1: int, i2: int, j2: int|
        0 <= i1 < dirs.len() && 0 <= j1 < dirs[i1].len() && 0 <= i2 < dirs.len() && 0 <= j2
            < dirs[i2].len() && (i1 != i2 || j1 != j2) ==> (#[trigger] dirs[i1][j1]) != (
        #[trigger] dirs[i2][j2])
    &&& forall|i1: int, j1: int, i2: int, j2: int|
        0 <= i1 < roots.len() && 0 <= j1 < roots[i1].len() && 0 <= i2 < dirs.len() && 0 <= j2
            < dirs[i2].len() ==> (#[trigger] roots[i1][j1]).path != (#[trigger] dirs[i2][j2])
}

/// A parsed descriptor entry carries the file's path and modification
/// time and the counter it was seeded with; whether it exists does not
/// depend on the seed.
proof fn lemma_descriptor_entry_fields(
    path: Seq<char>,
    mtime: Timestamp,
    content: Seq<char>,
    p1: u32,
    p2: u32,
)
    ensures
        match descriptor_entry(path, mtime, content, p1) {
            Some(e) => e.path == path && e.mtime == Some(mtime) && e.count == p1,
            None => descriptor_entry(path, mtime, content, p2) is None,
        },
{
}

/// A scanned entry carries its file's path and modification time, as
/// long as the prior catalog keys entries by their own paths.
proof fn lemma_scan_file_fields(h: CatalogModel, f: FileModel)
    requires
        keyed_by_path(h),
    ensures
        match scan_file(h, f) {
            Some(e) => e.path == f.path && e.mtime == Some(f.mtime),
            None => true,
        },
{
    if fresh_in_cache(h, f.path, f.mtime) {
        lemma_key_index(h, f.path);
    } else {
        lemma_descriptor_entry_fields(f.path, f.mtime, f.content, prior_count(h, f.path), 0);
    }
}

/// The entries of one root, characterised: an entry stands in the block
/// exactly when some file of the root scans to it, and no two block
/// positions share a path.
proof fn lemma_block_entries_props(h: CatalogModel, files: Seq<FileModel>)
    requires
        keyed_by_path(h),
        forall|j1: int, j2: int|
            0 <= j1 < j2 < files.len() ==> (#[trigger] files[j1]).path != (
            #[trigger] files[j2]).path,
    ensures
        forall|e: EntryModel| #[trigger]
            block_entries(h, files).contains(e) <==> exists|j: int|
                0 <= j < files.len() && scan_file(h, #[trigger] files[j]) == Some(e),
        forall|m1: int, m2: int|
            0 <= m1 < m2 < block_entries(h, files).len() ==> (#[trigger] block_entries(
                h,
                files,
            )[m1]).path != (#[trigger] block_entries(h, files)[m2]).path,
    decreases files.len(),
{
    let b = block_entries(h, files);
    if files.len() == 0 {
        assert forall|e: EntryModel| #[trigger] b.contains(e) <==> exists|j: int|
            0 <= j < files.len() && scan_file(h, #[trigger] files[j]) == Some(e) by {
            if b.contains(e) {
                let m = choose|m: int| 0 <= m < b.len() && b[m] == e;
            }
        }
    } else {
        let f0 = files[0];
        let t = files.drop_first();
        let bt = block_entries(h, t);
        assert(forall|j: int| 0 <= j < t.len() ==> (#[trigger] t[j]) == files[j + 1]);
        lemma_block_entries_props(h, t);
        lemma_scan_file_fields(h, f0);
        assert forall|e: EntryModel| #[trigger] bt.contains(e) implies e.path != f0.path by {
            let j = choose|j: int| 0 <= j < t.len() && scan_file(h, #[trigger] t[j]) == Some(e);
            lemma_scan_file_fields(h, t[j]);
            assert(files[j + 1].path != files[0].path);
        }
        match scan_file(h, f0) {
            Some(e0) => {
                assert(b == seq![e0] + bt);
                assert(b[0] == e0);
                assert(forall|m: int| 0 <= m < bt.len() ==> (#[trigger] bt[m]) == b[m + 1]);
                assert forall|e: EntryModel| #[trigger] b.contains(e) <==> exists|j: int|
                    0 <= j < files.len() && scan_file(h, #[trigger] files[j]) == Some(e) by {
                    if b.contains(e) {
                        let m = choose|m: int| 0 <= m < b.len() && b[m] == e;
                        if m == 0 {
                            assert(scan_file(h, files[0]) == Some(e));
                        } else {
                            assert(bt[m - 1] == e);
                            assert(bt.contains(e));
                            let j = choose|j: int|
                                0 <= j < t.len() && scan_file(h, #[trigger] t[j]) == Some(e);
                            assert(scan_file(h, files[j + 1]) == Some(e));
                        }
                    }
                    if exists|j: int|
                        0 <= j < files.len() && scan_file(h, #[trigger] files[j]) == Some(e) {
                        let j = choose|j: int|
                            0 <= j < files.len() && scan_file(h, #[trigger] files[j]) == Some(e);
                        if j == 0 {
                            assert(b[0] == e);
                        } else {
                            assert(scan_file(h, t[j - 1]) == Some(e));
                            assert(bt.contains(e));
                            let m = choose|m: int| 0 <= m < bt.len() && bt[m] == e;
                            assert(b[m + 1] == e);
                        }
                    }
                }
                assert forall|m1: int, m2: int| 0 <= m1 < m2 < b.len() implies (
                #[trigger] b[m1]).path != (#[trigger] b[m2]).path by {
                    if m1 == 0 {
                        assert(b[m2] == bt[m2 - 1]);
                        assert(bt.contains(bt[m2 - 1]));
                    } else {
                        assert(b[m1] == bt[m1 - 1] && b[m2] == bt[m2 - 1]);
                    }
                }
            },
            None => {
                assert(b == bt);
                assert forall|e: EntryModel| #[trigger] b.contains(e) <==> exists|j: int|
                    0 <= j < files.len() && scan_file(h, #[trigger] files[j]) == Some(e) by {
                    if b.contains(e) {
                        let j = choose|j: int|
                            0 <= j < t.len() && scan_file(h, #[trigger] t[j]) == Some(e);
                        assert(scan_file(h, files[j + 1]) == Some(e));
                    }
                    if exists|j: int|
                        0 <= j < files.len() && scan_file(h, #[trigger] files[j]) == Some(e) {
                        let j = choose|j: int|
                            0 <= j < files.len() && scan_file(h, #[trigger] files[j]) == Some(e);
                        assert(j != 0);
                        assert(scan_file(h, t[j - 1]) == Some(e));
                    }
                }
            },
        }
    }
}

/// The flattened descriptor pairs, characterised: a pair stands in the
/// flat sequence exactly when it is keyed by its entry's path and some
/// file scans to that entry; the keys are distinct.
proof fn lemma_desktop_flat_membership(h: CatalogModel, roots: Seq<Seq<FileModel>>)
    requires
        keyed_by_path(h),
        forall|i1: int, j1: int, i2: int, j2: int|
            0 <= i1 < roots.len() && 0 <= j1 < roots[i1].len() && 0 <= i2 < roots.len() && 0 <= j2
                < roots[i2].len() && (i1 != i2 || j1 != j2) ==> (#[trigger] roots[i1][j1]).path
                != (#[trigger] roots[i2][j2]).path,
    ensures
        distinct_keys(desktop_flat(scan_blocks(h, roots))),
        forall|x: (Seq<char>, EntryModel)| #[trigger]
            desktop_flat(scan_blocks(h, roots)).contains(x) <==> (x.0 == x.1.path && exists|
                i: int,
                j: int,
            |
                0 <= i < roots.len() && 0 <= j < roots[i].len() && scan_file(
                    h,
                    #[trigger] roots[i][j],
                ) == Some(x.1)),
    decreases roots.len(),
{
    let blocks = scan_blocks(h, roots);
    let flat = desktop_flat(blocks);
    if roots.len() == 0 {
        assert(blocks.len() == 0);
        assert forall|x: (Seq<char>, EntryModel)| #[trigger] flat.contains(x) <==> (x.0 == x.1.path
            && exists|i: int, j: int|
            0 <= i < roots.len() && 0 <= j < roots[i].len() && scan_file(h, #[trigger] roots[i][j])
                == Some(x.1)) by {
            if flat.contains(x) {
                let m = choose|m: int| 0 <= m < flat.len() && flat[m] == x;
            }
        }
    } else {
        let rs = roots.drop_last();
        assert(forall|i: int| 0 <= i < rs.len() ==> (#[trigger] rs[i]) == roots[i]);
        lemma_desktop_flat_membership(h, rs);
        let flat0 = desktop_flat(scan_blocks(h, rs));
        assert(blocks.drop_last() =~= scan_blocks(h, rs));
        assert(flat == upsert_all(flat0, entries_pairs(blocks.last())));
        let lastf = roots.last();
        let b = block_entries(h, lastf);
        assert(blocks.last() == b);
        let bp = entries_pairs(b);
        assert(forall|m: int| 0 <= m < bp.len() ==> (#[trigger] bp[m]) == (b[m].path, b[m]));
        lemma_block_entries_props(h, lastf);
        assert forall|e: EntryModel| #[trigger] b.contains(e) implies (exists|j: int|
            0 <= j < lastf.len() && scan_file(h, #[trigger] lastf[j]) == Some(e) && e.path
                == lastf[j].path) by {
            let j = choose|j: int| 0 <= j < lastf.len() && scan_file(h, #[trigger] lastf[j])
                == Some(e);
            lemma_scan_file_fields(h, lastf[j]);
        }
        assert(distinct_keys(bp)) by {
            assert(forall|m1: int, m2: int|
                0 <= m1 < m2 < bp.len() ==> (#[trigger] bp[m1]).0 != (#[trigger] bp[m2]).0);
        }
        assert forall|m: int| 0 <= m < bp.len() implies !has_key(flat0, (#[trigger] bp[m]).0) by {
            if has_key(flat0, bp[m].0) {
                let mi = choose|mi: int|
                    0 <= mi < flat0.len() && (#[trigger] flat0[mi]).0 == bp[m].0;
                assert(flat0.contains(flat0[mi]));
                let x = flat0[mi];
                let (i, j) = choose|i: int, j: int|
                    0 <= i < rs.len() && 0 <= j < rs[i].len() && scan_file(h, #[trigger] rs[i][j])
                        == Some(x.1);
                lemma_scan_file_fields(h, rs[i][j]);
                assert(x.0 == roots[i][j].path);
                assert(b.contains(b[m]));
                let j2 = choose|j2: int|
                    0 <= j2 < lastf.len() && scan_file(h, #[trigger] lastf[j2]) == Some(b[m]);
                lemma_scan_file_fields(h, lastf[j2]);
                assert(bp[m].0 == roots[roots.len() - 1][j2].path);
                assert(roots[i][j].path != roots[roots.len() - 1][j2].path);
            }
        }
        lemma_upsert_all_fresh(flat0, bp);
        assert(flat == flat0 + bp);
        assert(forall|m: int| 0 <= m < flat0.len() ==> (#[trigger] flat[m]) == flat0[m]);
        assert(forall|m: int| 0 <= m < bp.len() ==> (#[trigger] bp[m]) == flat[m + flat0.len()]);
        assert forall|i1: int, i2: int| 0 <= i1 < i2 < flat.len() implies (
        #[trigger] flat[i1]).0 != (#[trigger] flat[i2]).0 by {
            if i1 < flat0.len() && i2 >= flat0.len() {
                assert(flat[i2] == bp[i2 - flat0.len()]);
                assert(!has_key(flat0, bp[i2 - flat0.len()].0));
                if flat[i1].0 == flat[i2].0 {
                    assert(flat0[i1].0 == bp[i2 - flat0.len()].0);
                }
            } else if i2 < flat0.len() {
            } else {
                assert(flat[i1] == bp[i1 - flat0.len()] && flat[i2] == bp[i2 - flat0.len()]);
            }
        }
        assert forall|x: (Seq<char>, EntryModel)| #[trigger] flat.contains(x) <==> (x.0 == x.1.path
            && exists|i: int, j: int|
            0 <= i < roots.len() && 0 <= j < roots[i].len() && scan_file(h, #[trigger] roots[i][j])
                == Some(x.1)) by {
            if flat.contains(x) {
                let m = choose|m: int| 0 <= m < flat.len() && flat[m] == x;
                if m < flat0.len() {
                    assert(flat0.contains(x));
                    let (i, j) = choose|i: int, j: int|
                        0 <= i < rs.len() && 0 <= j < rs[i].len() && scan_file(
                            h,
                            #[trigger] rs[i][j],
                        ) == Some(x.1);
                    assert(roots[i][j] == rs[i][j]);
                    assert(scan_file(h, roots[i][j]) == Some(x.1));
                } else {
                    assert(x == bp[m - flat0.len()]);
                    let mb = m - flat0.len();
                    assert(b.contains(b[mb]));
                    let j = choose|j: int|
                        0 <= j < lastf.len() && scan_file(h, #[trigger] lastf[j]) == Some(b[mb]);
                    lemma_scan_file_fields(h, lastf[j]);
                    assert(scan_file(h, roots[roots.len() - 1][j]) == Some(x.1));
                }
            }
            if x.0 == x.1.path && exists|i: int, j: int|
                0 <= i < roots.len() && 0 <= j < roots[i].len() && scan_file(
                    h,
                    #[trigger] roots[i][j],
                ) == Some(x.1) {
                let (i, j) = choose|i: int, j: int|
                    0 <= i < roots.len() && 0 <= j < roots[i].len() && scan_file(
                        h,
                        #[trigger] roots[i][j],
                    ) == Some(x.1);
                if i < roots.len() - 1 {
                    assert(rs[i] == roots[i]);
                    assert(scan_file(h, rs[i][j]) == Some(x.1));
                    assert(flat0.contains(x));
                    let m = choose|m: int| 0 <= m < flat0.len() && flat0[m] == x;
                    assert(flat[m] == x);
                } else {
                    assert(scan_file(h, lastf[j]) == Some(x.1));
                    assert(b.contains(x.1));
                    let mb = choose|mb: int| 0 <= mb < b.len() && b[mb] == x.1;
                    lemma_scan_file_fields(h, lastf[j]);
                    assert(bp[mb] == (x.1.path, x.1));
                    assert(flat[mb + flat0.len()] == x);
                }
            }
        }
    }
}

/// The bare-executable catalog, characterised: a pair stands in it
/// exactly when some listed file has that path and the entry derived
/// from it; the keys are distinct.
proof fn lemma_bin_catalog_membership(h: CatalogModel, dirs: Seq<Seq<Seq<char>>>)
    requires
        forall|i1: int, j1: int, i2: int, j2: int|
            0 <= i1 < dirs.len() && 0 <= j1 < dirs[i1].len() && 0 <= i2 < dirs.len() && 0 <= j2
                < dirs[i2].len() && (i1 != i2 || j1 != j2) ==> (#[trigger] dirs[i1][j1]) != (
            #[trigger] dirs[i2][j2]),
    ensures
        distinct_keys(bin_catalog_model(h, dirs)),
        forall|x: (Seq<char>, EntryModel)| #[trigger]
            bin_catalog_model(h, dirs).contains(x) <==> exists|i: int, j: int|
                0 <= i < dirs.len() && 0 <= j < dirs[i].len() && x == (
                (#[trigger] dirs[i][j]),
                bin_entry_model(h, dirs[i][j]),
                ),
    decreases dirs.len(),
{
    let cat = bin_catalog_model(h, dirs);
    if dirs.len() == 0 {
        assert forall|x: (Seq<char>, EntryModel)| #[trigger] cat.contains(x) <==> exists|
            i: int,
            j: int,
        |
            0 <= i < dirs.len() && 0 <= j < dirs[i].len() && x == (
            (#[trigger] dirs[i][j]),
            bin_entry_model(h, dirs[i][j]),
            ) by {
            if cat.contains(x) {
                let m = choose|m: int| 0 <= m < cat.len() && cat[m] == x;
            }
        }
    } else {
        let ds = dirs.drop_last();
        assert(forall|i: int| 0 <= i < ds.len() ==> (#[trigger] ds[i]) == dirs[i]);
        lemma_bin_catalog_membership(h, ds);
        let cat0 = bin_catalog_model(h, ds);
        let lastd = dirs.last();
        let dp = bin_dir_pairs(h, lastd);
        assert(forall|m: int|
            0 <= m < dp.len() ==> (#[trigger] dp[m]) == (lastd[m], bin_entry_model(h, lastd[m])));
        assert(distinct_keys(dp)) by {
            assert(forall|m1: int, m2: int|
                0 <= m1 < m2 < dp.len() ==> (#[trigger] dp[m1]).0 != (#[trigger] dp[m2]).0);
        }
        lemma_sort_by_name_props(dp);
        let sdp = bin_dir_model(h, lastd);
        assert(cat == upsert_all(cat0, sdp));
        assert forall|m: int| 0 <= m < sdp.len() implies !has_key(cat0, (#[trigger] sdp[m]).0) by {
            assert(sdp.contains(sdp[m]));
            assert(dp.contains(sdp[m]));
            let mj = choose|mj: int| 0 <= mj < dp.len() && dp[mj] == sdp[m];
            if has_key(cat0, sdp[m].0) {
                let mi = choose|mi: int| 0 <= mi < cat0.len() && (#[trigger] cat0[mi]).0 == sdp[m].0;
                assert(cat0.contains(cat0[mi]));
                let (i, j) = choose|i: int, j: int|
                    0 <= i < ds.len() && 0 <= j < ds[i].len() && cat0[mi] == (
                    (#[trigger] ds[i][j]),
                    bin_entry_model(h, ds[i][j]),
                    );
                assert(dirs[i][j] != dirs[dirs.len() - 1][mj]);
            }
        }
        lemma_upsert_all_fresh(cat0, sdp);
        assert(cat == cat0 + sdp);
        assert(forall|m: int| 0 <= m < cat0.len() ==> (#[trigger] cat[m]) == cat0[m]);
        assert(forall|m: int| 0 <= m < sdp.len() ==> (#[trigger] sdp[m]) == cat[m + cat0.len()]);
        assert forall|i1: int, i2: int| 0 <= i1 < i2 < cat.len() implies (#[trigger] cat[i1]).0
            != (#[trigger] cat[i2]).0 by {
            if i1 < cat0.len() && i2 >= cat0.len() {
                assert(cat[i2] == sdp[i2 - cat0.len()]);
                assert(!has_key(cat0, sdp[i2 - cat0.len()].0));
                if cat[i1].0 == cat[i2].0 {
                    assert(cat0[i1].0 == sdp[i2 - cat0.len()].0);
                }
            } else if i2 < cat0.len() {
            } else {
                assert(cat[i1] == sdp[i1 - cat0.len()] && cat[i2] == sdp[i2 - cat0.len()]);
            }
        }
        assert forall|x: (Seq<char>, EntryModel)| #[trigger] cat.contains(x) <==> exists|
            i: int,
            j: int,
        |
            0 <= i < dirs.len() && 0 <= j < dirs[i].len() && x == (
            (#[trigger] dirs[i][j]),
            bin_entry_model(h, dirs[i][j]),
            ) by {
            if cat.contains(x) {
                let m = choose|m: int| 0 <= m < cat.len() && cat[m] == x;
                if m < cat0.len() {
                    assert(cat0.contains(x));
                    let (i, j) = choose|i: int, j: int|
                        0 <= i < ds.len() && 0 <= j < ds[i].len() && x == (
                        (#[trigger] ds[i][j]),
                        bin_entry_model(h, ds[i][j]),
                        );
                    assert(x == (dirs[i][j], bin_entry_model(h, dirs[i][j])));
                } else {
                    assert(x == sdp[m - cat0.len()]);
                    assert(sdp.contains(x));
                    assert(dp.contains(x));
                    let mj = choose|mj: int| 0 <= mj < dp.len() && dp[mj] == x;
                    assert(x == (dirs[dirs.len() - 1][mj], bin_entry_model(
                        h,
                        dirs[dirs.len() - 1][mj],
                    )));
                }
            }
            if exists|i: int, j: int|
                0 <= i < dirs.len() && 0 <= j < dirs[i].len() && x == (
                (#[trigger] dirs[i][j]),
                bin_entry_model(h, dirs[i][j]),
                ) {
                let (i, j) = choose|i: int, j: int|
                    0 <= i < dirs.len() && 0 <= j < dirs[i].len() && x == (
                    (#[trigger] dirs[i][j]),
                    bin_entry_model(h, dirs[i][j]),
                    );
                if i < dirs.len() - 1 {
                    assert(ds[i] == dirs[i]);
                    assert(cat0.contains(x));
                    let m = choose|m: int| 0 <= m < cat0.len() && cat0[m] == x;
                    assert(cat[m] == x);
                } else {
                    assert(dp[j] == x);
                    assert(dp.contains(x));
                    assert(sdp.contains(x));
                    let m = choose|m: int| 0 <= m < sdp.len() && sdp[m] == x;
                    assert(cat[m + cat0.len()] == x);
                }
            }
        }
    }
}

/// The built catalog, characterised: its keys are distinct, and a pair
/// stands in it exactly when a descriptor file scans to its entry or a
/// listed executable derives it.
proof fn lemma_full_build_props(h: CatalogModel, roots: Seq<Seq<FileModel>>, dirs: Seq<Seq<Seq<char>>>)
    requires
        keyed_by_path(h),
        distinct_input_paths(roots, dirs),
    ensures
        distinct_keys(full_build(h, roots, dirs)),
        keyed_by_path(full_build(h, roots, dirs)),
        forall|x: (Seq<char>, EntryModel)| #[trigger]
            full_build(h, roots, dirs).contains(x) <==> ((x.0 == x.1.path && exists|i: int, j: int|
                0 <= i < roots.len() && 0 <= j < roots[i].len() && scan_file(
                    h,
                    #[trigger] roots[i][j],
                ) == Some(x.1)) || exists|i: int, j: int|
                0 <= i < dirs.len() && 0 <= j < dirs[i].len() && x == (
                (#[trigger] dirs[i][j]),
                bin_entry_model(h, dirs[i][j]),
                )),
{
    let c1 = full_build(h, roots, dirs);
    let flat = desktop_flat(scan_blocks(h, roots));
    lemma_desktop_flat_membership(h, roots);
    lemma_sort_by_name_props(flat);
    let dcat = desktop_catalog_model(scan_blocks(h, roots));
    let bcat = bin_catalog_model(h, dirs);
    lemma_bin_catalog_membership(h, dirs);
    assert forall|m: int| 0 <= m < bcat.len() implies !has_key(dcat, (#[trigger] bcat[m]).0) by {
        assert(bcat.contains(bcat[m]));
        let (i, j) = choose|i: int, j: int|
            0 <= i < dirs.len() && 0 <= j < dirs[i].len() && bcat[m] == (
            (#[trigger] dirs[i][j]),
            bin_entry_model(h, dirs[i][j]),
            );
        if has_key(dcat, bcat[m].0) {
            let mi = choose|mi: int| 0 <= mi < dcat.len() && (#[trigger] dcat[mi]).0 == bcat[m].0;
            assert(dcat.contains(dcat[mi]));
            assert(flat.contains(dcat[mi]));
            let x = dcat[mi];
            let (i2, j2) = choose|i2: int, j2: int|
                0 <= i2 < roots.len() && 0 <= j2 < roots[i2].len() && scan_file(
                    h,
                    #[trigger] roots[i2][j2],
                ) == Some(x.1);
            lemma_scan_file_fields(h, roots[i2][j2]);
            assert(x.0 == roots[i2][j2].path);
            assert(roots[i2][j2].path != dirs[i][j]);
        }
    }
    lemma_upsert_all_fresh(dcat, bcat);
    assert(c1 == dcat + bcat);
    assert(forall|m: int| 0 <= m < dcat.len() ==> (#[trigger] c1[m]) == dcat[m]);
    assert(forall|m: int| 0 <= m < bcat.len() ==> (#[trigger] bcat[m]) == c1[m + dcat.len()]);
    assert forall|i1: int, i2: int| 0 <= i1 < i2 < c1.len() implies (#[trigger] c1[i1]).0 != (
    #[trigger] c1[i2]).0 by {
        if i1 < dcat.len() && i2 >= dcat.len() {
            assert(c1[i2] == bcat[i2 - dcat.len()]);
            assert(!has_key(dcat, bcat[i2 - dcat.len()].0));
            if c1[i1].0 == c1[i2].0 {
                assert(dcat[i1].0 == bcat[i2 - dcat.len()].0);
            }
        } else if i2 < dcat.len() {
        } else {
            assert(c1[i1] == bcat[i1 - dcat.len()] && c1[i2] == bcat[i2 - dcat.len()]);
        }
    }
    assert forall|x: (Seq<char>, EntryModel)| #[trigger] c1.contains(x) <==> ((x.0 == x.1.path
        && exists|i: int, j: int|
        0 <= i < roots.len() && 0 <= j < roots[i].len() && scan_file(h, #[trigger] roots[i][j])
            == Some(x.1)) || exists|i: int, j: int|
        0 <= i < dirs.len() && 0 <= j < dirs[i].len() && x == (
        (#[trigger] dirs[i][j]),
        bin_entry_model(h, dirs[i][j]),
        )) by {
        if c1.contains(x) {
            let m = choose|m: int| 0 <= m < c1.len() && c1[m] == x;
            if m < dcat.len() {
                assert(dcat.contains(x));
                assert(flat.contains(x));
            } else {
                assert(x == bcat[m - dcat.len()]);
                assert(bcat.contains(x));
            }
        }
        if x.0 == x.1.path && exists|i: int, j: int|
            0 <= i < roots.len() && 0 <= j < roots[i].len() && scan_file(h, #[trigger] roots[i][j])
                == Some(x.1) {
            assert(flat.contains(x));
            assert(dcat.contains(x));
            let m = choose|m: int| 0 <= m < dcat.len() && dcat[m] == x;
            assert(c1[m] == x);
        }
        if exists|i: int, j: int|
            0 <= i < dirs.len() && 0 <= j < dirs[i].len() && x == (
            (#[trigger] dirs[i][j]),
            bin_entry_model(h, dirs[i][j]),
            ) {
            assert(bcat.contains(x));
            let m = choose|m: int| 0 <= m < bcat.len() && bcat[m] == x;
            assert(c1[m + dcat.len()] == x);
        }
    }

    assert forall|i: int| 0 <= i < c1.len() implies (#[trigger] c1[i]).0 == c1[i].1.path by {
        assert(c1.contains(c1[i]));
        let x = c1[i];
        if !(x.0 == x.1.path) {
            let (i2, j2) = choose|i2: int, j2: int|
                0 <= i2 < dirs.len() && 0 <= j2 < dirs[i2].len() && x == (
                (#[trigger] dirs[i2][j2]),
                bin_entry_model(h, dirs[i2][j2]),
                );
            assert(x.1.path == dirs[i2][j2]);
        }
    }
}

/// Rescanning any tail of a root over the catalog a build produced
/// yields the very entries of the first scan: an unchanged file hits
/// the cache, and a dropped file stays dropped.
proof fn lemma_scan_blocks_stable(
    h: CatalogModel,
    roots: Seq<Seq<FileModel>>,
    dirs: Seq<Seq<Seq<char>>>,
    i: int,
    j0: int,
)
    requires
        keyed_by_path(h),
        distinct_input_paths(roots, dirs),
        0 <= i < roots.len(),
        0 <= j0 <= roots[i].len(),
    ensures
        block_entries(full_build(h, roots, dirs), roots[i].skip(j0)) == block_entries(
            h,
            roots[i].skip(j0),
        ),
    decreases roots[i].len() - j0,
{
    let c1 = full_build(h, roots, dirs);
    let fs = roots[i].skip(j0);
    if j0 == roots[i].len() {
        assert(fs =~= Seq::<FileModel>::empty());
    } else {
        let f = roots[i][j0];
        assert(fs[0] == f);
        assert(fs.drop_first() =~= roots[i].skip(j0 + 1));
        lemma_full_build_props(h, roots, dirs);
        lemma_scan_file_fields(h, f);
        match scan_file(h, f) {
            Some(e) => {
                let x = (f.path, e);
                assert(scan_file(h, roots[i][j0]) == Some(e));
                assert(c1.contains(x));
                lemma_value_by_contains(c1, f.path, e);
                assert(fresh_in_cache(c1, f.path, f.mtime));
                assert(scan_file(c1, f) == Some(e));
            },
            None => {
                assert(!has_key(c1, f.path)) by {
                    if has_key(c1, f.path) {
                        let mi = choose|mi: int|
                            0 <= mi < c1.len() && (#[trigger] c1[mi]).0 == f.path;
                        assert(c1.contains(c1[mi]));
                        let x = c1[mi];
                        if x.0 == x.1.path && exists|i2: int, j2: int|
                            0 <= i2 < roots.len() && 0 <= j2 < roots[i2].len() && scan_file(
                                h,
                                #[trigger] roots[i2][j2],
                            ) == Some(x.1) {
                            let (i2, j2) = choose|i2: int, j2: int|
                                0 <= i2 < roots.len() && 0 <= j2 < roots[i2].len() && scan_file(
                                    h,
                                    #[trigger] roots[i2][j2],
                                ) == Some(x.1);
                            lemma_scan_file_fields(h, roots[i2][j2]);
                            assert(roots[i2][j2].path == f.path);
                            assert(i2 == i && j2 == j0);
                        } else {
                            let (i2, j2) = choose|i2: int, j2: int|
                                0 <= i2 < dirs.len() && 0 <= j2 < dirs[i2].len() && x == (
                                (#[trigger] dirs[i2][j2]),
                                bin_entry_model(h, dirs[i2][j2]),
                                );
                            assert(roots[i][j0].path != dirs[i2][j2]);
                        }
                    }
                }
                assert(!fresh_in_cache(h, f.path, f.mtime));
                lemma_descriptor_entry_fields(
                    f.path,
                    f.mtime,
                    f.content,
                    prior_count(h, f.path),
                    0,
                );
                assert(scan_file(c1, f) is None);
            },
        }
        lemma_scan_blocks_stable(h, roots, dirs, i, j0 + 1);
        assert(block_entries(c1, fs) == block_entries(h, fs));
    }
}

/// Two prior catalogs that agree on every listed executable's entry
/// give the same bare-executable catalog.
proof fn lemma_bin_catalog_congruent(h1: CatalogModel, h2: CatalogModel, dirs: Seq<Seq<Seq<char>>>)
    requires
        forall|i: int, j: int|
            0 <= i < dirs.len() && 0 <= j < (#[trigger] dirs[i]).len() ==> bin_entry_model(
                h1,
                #[trigger] dirs[i][j],
            ) == bin_entry_model(h2, dirs[i][j]),
    ensures
        bin_catalog_model(h1, dirs) == bin_catalog_model(h2, dirs),
    decreases dirs.len(),
{
    if dirs.len() > 0 {
        let ds = dirs.drop_last();
        assert(forall|i: int| 0 <= i < ds.len() ==> (#[trigger] ds[i]) == dirs[i]);
        assert forall|i: int, j: int|
            0 <= i < ds.len() && 0 <= j < (#[trigger] ds[i]).len() implies bin_entry_model(
                h1,
                #[trigger] ds[i][j],
            ) == bin_entry_model(h2, ds[i][j]) by {
            assert(ds[i] == dirs[i]);
        }
        lemma_bin_catalog_congruent(h1, h2, ds);
        let lastd = dirs.last();
        assert forall|m: int|
            0 <= m < lastd.len() implies bin_entry_model(h1, #[trigger] lastd[m])
                == bin_entry_model(h2, lastd[m]) by {
            assert(dirs[dirs.len() - 1][m] == lastd[m]);
        }
        assert(bin_dir_pairs(h1, lastd) =~= bin_dir_pairs(h2, lastd));
        assert(bin_dir_model(h1, lastd) == bin_dir_model(h2, lastd));
    }
}

/// Idempotence: building the catalog again over the catalog a build
/// just produced, with the filesystem unchanged (every file with the
/// same path, modification time and text, and no path listed twice or
/// by both sources), yields that catalog unchanged.
pub proof fn lemma_build_idempotent(
    h: CatalogModel,
    roots: Seq<Seq<FileModel>>,
    dirs: Seq<Seq<Seq<char>>>,
)
    requires
        keyed_by_path(h),
        distinct_input_paths(roots, dirs),
    ensures
        full_build(full_build(h, roots, dirs), roots, dirs) == full_build(h, roots, dirs),
{
    let c1 = full_build(h, roots, dirs);
    lemma_full_build_props(h, roots, dirs);
    assert forall|i: int|
        0 <= i < roots.len() implies block_entries(c1, #[trigger] roots[i]) == block_entries(
        h,
        roots[i],
    ) by {
        lemma_scan_blocks_stable(h, roots, dirs, i, 0);
        assert(roots[i].skip(0) =~= roots[i]);
    }
    assert(scan_blocks(c1, roots) =~= scan_blocks(h, roots));
    assert forall|i: int, j: int|
        0 <= i < dirs.len() && 0 <= j < (#[trigger] dirs[i]).len() implies bin_entry_model(
            c1,
            #[trigger] dirs[i][j],
        ) == bin_entry_model(h, dirs[i][j]) by {
        let p = dirs[i][j];
        let x = (p, bin_entry_model(h, p));
        assert(c1.contains(x));
        lemma_value_by_contains(c1, p, bin_entry_model(h, p));
        assert(prior_count(c1, p) == prior_count(h, p));
    }
    lemma_bin_catalog_congruent(c1, h, dirs);
    assert(full_build(c1, roots, dirs) == upsert_all(
        desktop_catalog_model(scan_blocks(h, roots)),
        bin_catalog_model(h, dirs),
    ));
}

/// The build's output is itself keyed by each entry's own path, so the
/// idempotence law can be applied to it in turn, run after run.
pub proof fn lemma_build_keyed_by_path(
    h: CatalogModel,
    roots: Seq<Seq<FileModel>>,
    dirs: Seq<Seq<Seq<char>>>,
)
    requires
        keyed_by_path(h),
        distinct_input_paths(roots, dirs),
    ensures
        keyed_by_path(full_build(h, roots, dirs)),
{
    lemma_full_build_props(h, roots, dirs);
}

} // verus!