//! Ordering of catalogs: a stable insertion sort of key/entry pairs by
//! display name (the catalog order) and by descending usage count (the
//! presentation order). The sorts are deterministic spec functions, so
//! two runs over equal inputs give equal outputs.

use vstd::prelude::*;
use crate::entry::{Entry, EntryModel};
use crate::store::{CatalogModel, has_key, distinct_keys, value_of, key_index, lemma_key_index};
use crate::strings::{lex_le, str_le, lemma_lex_le_total, lemma_lex_le_trans};

verus! {

/// The model of a vector of key/entry pairs.
pub open spec fn pairs_model(v: Seq<(String, Entry)>) -> CatalogModel {
    v.map_values(|p: (String, Entry)| (p.0@, p.1@))
}

/// `p` inserted after every pair whose name orders at or before `p`'s:
/// the stable insertion step.
pub open spec fn insert_by_name(s: CatalogModel, p: (Seq<char>, EntryModel)) -> CatalogModel
    decreases s.len(),
{
    if s.len() == 0 {
        seq![p]
    } else if lex_le(s[0].1.name, p.1.name) {
        seq![s[0]] + insert_by_name(s.drop_first(), p)
    } else {
        seq![p] + s
    }
}

/// The pairs sorted by display name, stably.
pub open spec fn sort_by_name(s: CatalogModel) -> CatalogModel
    decreases s.len(),
{
    if s.len() == 0 {
        Seq::empty()
    } else {
        insert_by_name(sort_by_name(s.drop_last()), s.last())
    }
}

pub open spec fn sorted_by_name(s: CatalogModel) -> bool {
    forall|i: int, j: int|
        0 <= i < j < s.len() ==> lex_le((#[trigger] s[i]).1.name, (#[trigger] s[j]).1.name)
}

/// Inserting places the new pair exactly at the given boundary.
pub proof fn lemma_insert_by_name_at(s: CatalogModel, p: (Seq<char>, EntryModel), j: int)
    requires
        0 <= j <= s.len(),
        forall|m: int| 0 <= m < j ==> lex_le((#[trigger] s[m]).1.name, p.1.name),
        j < s.len() ==> !lex_le(s[j].1.name, p.1.name),
    ensures
        insert_by_name(s, p) == s.take(j) + seq![p] + s.skip(j),
    decreases s.len(),
{
    if s.len() == 0 {
        assert(s.take(0) + seq![p] + s.skip(0) =~= seq![p]);
    } else if j == 0 {
        assert(!lex_le(s[0].1.name, p.1.name));
        assert(s.take(0) + seq![p] + s.skip(0) =~= seq![p] + s);
    } else {
        assert(lex_le(s[0].1.name, p.1.name));
        let t = s.drop_first();
        assert(forall|m: int| 0 <= m < j - 1 ==> (#[trigger] t[m]) == s[m + 1]);
        if j - 1 < t.len() {
            assert(t[j - 1] == s[j]);
        }
        lemma_insert_by_name_at(t, p, j - 1);
        assert(seq![s[0]] + (t.take(j - 1) + seq![p] + t.skip(j - 1)) =~= s.take(j) + seq![p]
            + s.skip(j));
    }
}

/// Inserting adds one pair and otherwise keeps the pairs and their keys;
/// a fresh key keeps the keys distinct.
pub proof fn lemma_insert_by_name_props(s: CatalogModel, p: (Seq<char>, EntryModel))
    ensures
        insert_by_name(s, p).len() == s.len() + 1,
        forall|x: (Seq<char>, EntryModel)|
            #[trigger] insert_by_name(s, p).contains(x) <==> (s.contains(x) || x == p),
        forall|k: Seq<char>| #[trigger]
            has_key(insert_by_name(s, p), k) <==> (has_key(s, k) || k == p.0),
        distinct_keys(s) && !has_key(s, p.0) ==> distinct_keys(insert_by_name(s, p)),
    decreases s.len(),
{
    let r = insert_by_name(s, p);
    if s.len() == 0 {
        assert forall|x: (Seq<char>, EntryModel)| #[trigger]
            r.contains(x) <==> (s.contains(x) || x == p) by {
            assert(r[0] == p);
            if s.contains(x) {
                let i = choose|i: int| 0 <= i < s.len() && s[i] == x;
            }
        }
        assert forall|k: Seq<char>| #[trigger] has_key(r, k) <==> (has_key(s, k) || k == p.0) by {
            assert(r[0].0 == p.0);
        }
    } else if lex_le(s[0].1.name, p.1.name) {
        let t = s.drop_first();
        lemma_insert_by_name_props(t, p);
        let rt = insert_by_name(t, p);
        assert(r == seq![s[0]] + rt);
        assert(r[0] == s[0]);
        assert(forall|m: int| 0 <= m < rt.len() ==> (#[trigger] rt[m]) == r[m + 1]);
        assert forall|x: (Seq<char>, EntryModel)| #[trigger]
            r.contains(x) <==> (s.contains(x) || x == p) by {
            if r.contains(x) {
                let i = choose|i: int| 0 <= i < r.len() && r[i] == x;
                if i == 0 {
                    assert(s[0] == x);
                } else {
                    assert(rt[i - 1] == x);
                    assert(rt.contains(x));
                    if t.contains(x) {
                        let m = choose|m: int| 0 <= m < t.len() && t[m] == x;
                        assert(s[m + 1] == x);
                    }
                }
            }
            if s.contains(x) {
                let i = choose|i: int| 0 <= i < s.len() && s[i] == x;
                if i == 0 {
                    assert(r[0] == x);
                } else {
                    assert(t[i - 1] == x);
                    assert(rt.contains(x));
                    let m = choose|m: int| 0 <= m < rt.len() && rt[m] == x;
                    assert(r[m + 1] == x);
                }
            }
            if x == p {
                assert(rt.contains(x));
                let m = choose|m: int| 0 <= m < rt.len() && rt[m] == x;
                assert(r[m + 1] == x);
            }
        }
        assert forall|k: Seq<char>| #[trigger] has_key(r, k) <==> (has_key(s, k) || k == p.0) by {
            if has_key(r, k) {
                let i = choose|i: int| 0 <= i < r.len() && (#[trigger] r[i]).0 == k;
                if i == 0 {
                    assert(s[0].0 == k);
                } else {
                    assert(rt[i - 1].0 == k);
                    assert(has_key(rt, k));
                    if has_key(t, k) {
                        let m = choose|m: int| 0 <= m < t.len() && (#[trigger] t[m]).0 == k;
                        assert(s[m + 1].0 == k);
                    }
                }
            }
            if has_key(s, k) {
                let i = choose|i: int| 0 <= i < s.len() && (#[trigger] s[i]).0 == k;
                if i == 0 {
                    assert(r[0].0 == k);
                } else {
                    assert(t[i - 1].0 == k);
                    assert(has_key(rt, k));
                    let m = choose|m: int| 0 <= m < rt.len() && (#[trigger] rt[m]).0 == k;
                    assert(r[m + 1].0 == k);
                }
            }
            if k == p.0 {
                assert(has_key(rt, k));
                let m = choose|m: int| 0 <= m < rt.len() && (#[trigger] rt[m]).0 == k;
                assert(r[m + 1].0 == k);
            }
        }
        if distinct_keys(s) && !has_key(s, p.0) {
            assert(distinct_keys(t)) by {
                assert(forall|m: int| 0 <= m < t.len() ==> (#[trigger] t[m]) == s[m + 1]);
            }
            assert(!has_key(t, p.0)) by {
                if has_key(t, p.0) {
                    let m = choose|m: int| 0 <= m < t.len() && (#[trigger] t[m]).0 == p.0;
                    assert(s[m + 1].0 == p.0);
                }
            }
            assert forall|i: int, j: int| 0 <= i < j < r.len() implies (#[trigger] r[i]).0 != (
            #[trigger] r[j]).0 by {
                if i == 0 {
                    assert(r[j] == rt[j - 1]);
                    assert(has_key(rt, r[j].0));
                    if r[0].0 == r[j].0 {
                        assert(has_key(s, r[0].0));
                        assert(r[j].0 == p.0 || has_key(t, r[j].0));
                        if has_key(t, r[j].0) {
                            let m = choose|m: int|
                                0 <= m < t.len() && (#[trigger] t[m]).0 == r[j].0;
                            assert(s[m + 1].0 == s[0].0);
                        }
                    }
                } else {
                    assert(r[i] == rt[i - 1] && r[j] == rt[j - 1]);
                }
            }
        }
    } else {
        assert(r == seq![p] + s);
        assert(r[0] == p);
        assert(forall|m: int| 0 <= m < s.len() ==> (#[trigger] s[m]) == r[m + 1]);
        assert forall|x: (Seq<char>, EntryModel)| #[trigger]
            r.contains(x) <==> (s.contains(x) || x == p) by {
            if r.contains(x) {
                let i = choose|i: int| 0 <= i < r.len() && r[i] == x;
                if i > 0 {
                    assert(s[i - 1] == x);
                }
            }
            if s.contains(x) {
                let i = choose|i: int| 0 <= i < s.len() && s[i] == x;
                assert(r[i + 1] == x);
            }
        }
        assert forall|k: Seq<char>| #[trigger] has_key(r, k) <==> (has_key(s, k) || k == p.0) by {
            if has_key(r, k) {
                let i = choose|i: int| 0 <= i < r.len() && (#[trigger] r[i]).0 == k;
                if i > 0 {
                    assert(s[i - 1].0 == k);
                }
            }
            if has_key(s, k) {
                let i = choose|i: int| 0 <= i < s.len() && (#[trigger] s[i]).0 == k;
                assert(r[i + 1].0 == k);
            }
        }
        if distinct_keys(s) && !has_key(s, p.0) {
            assert forall|i: int, j: int| 0 <= i < j < r.len() implies (#[trigger] r[i]).0 != (
            #[trigger] r[j]).0 by {
                if i == 0 {
                    assert(r[j] == s[j - 1]);
                    if r[0].0 == r[j].0 {
                        assert(has_key(s, p.0));
                    }
                } else {
                    assert(r[i] == s[i - 1] && r[j] == s[j - 1]);
                }
            }
        }
    }
}

/// Inserting into a name-sorted sequence keeps it sorted.
pub proof fn lemma_insert_by_name_sorted(s: CatalogModel, p: (Seq<char>, EntryModel))
    requires
        sorted_by_name(s),
    ensures
        sorted_by_name(insert_by_name(s, p)),
    decreases s.len(),
{
    let r = insert_by_name(s, p);
    if s.len() == 0 {
    } else if lex_le(s[0].1.name, p.1.name) {
        let t = s.drop_first();
        assert(forall|m: int| 0 <= m < t.len() ==> (#[trigger] t[m]) == s[m + 1]);
        lemma_insert_by_name_sorted(t, p);
        lemma_insert_by_name_props(t, p);
        let rt = insert_by_name(t, p);
        assert(forall|m: int| 0 <= m < rt.len() ==> (#[trigger] rt[m]) == r[m + 1]);
        assert forall|i: int, j: int| 0 <= i < j < r.len() implies lex_le(
            (#[trigger] r[i]).1.name,
            (#[trigger] r[j]).1.name,
        ) by {
            if i == 0 {
                assert(rt.contains(rt[j - 1]));
                let x = rt[j - 1];
                if t.contains(x) {
                    let m = choose|m: int| 0 <= m < t.len() && t[m] == x;
                    assert(lex_le(s[0].1.name, s[m + 1].1.name));
                } else {
                    assert(x == p);
                }
            }
        }
    } else {
        lemma_lex_le_total(s[0].1.name, p.1.name);
        assert forall|i: int, j: int| 0 <= i < j < r.len() implies lex_le(
            (#[trigger] r[i]).1.name,
            (#[trigger] r[j]).1.name,
        ) by {
            if i == 0 {
                assert(r[j] == s[j - 1]);
                if j > 1 {
                    lemma_lex_le_trans(p.1.name, s[0].1.name, s[j - 1].1.name);
                }
            } else {
                assert(r[i] == s[i - 1] && r[j] == s[j - 1]);
            }
        }
    }
}

/// Sorting by name keeps the pairs and their keys, keeps distinct keys
/// distinct, and yields a name-sorted sequence.
pub proof fn lemma_sort_by_name_props(s: CatalogModel)
    ensures
        sort_by_name(s).len() == s.len(),
        forall|x: (Seq<char>, EntryModel)| #[trigger]
            sort_by_name(s).contains(x) <==> s.contains(x),
        forall|k: Seq<char>| #[trigger] has_key(sort_by_name(s), k) <==> has_key(s, k),
        distinct_keys(s) ==> distinct_keys(sort_by_name(s)),
        sorted_by_name(sort_by_name(s)),
    decreases s.len(),
{
    let r = sort_by_name(s);
    if s.len() == 0 {
        assert forall|x: (Seq<char>, EntryModel)| #[trigger] r.contains(x) <==> s.contains(x) by {
            if r.contains(x) {
                let i = choose|i: int| 0 <= i < r.len() && r[i] == x;
            }
            if s.contains(x) {
                let i = choose|i: int| 0 <= i < s.len() && s[i] == x;
            }
        }
    } else {
        let q = s.drop_last();
        let p = s.last();
        lemma_sort_by_name_props(q);
        let rq = sort_by_name(q);
        lemma_insert_by_name_props(rq, p);
        lemma_insert_by_name_sorted(rq, p);
        assert(forall|m: int| 0 <= m < q.len() ==> (#[trigger] q[m]) == s[m]);
        assert forall|x: (Seq<char>, EntryModel)| #[trigger] r.contains(x) <==> s.contains(x) by {
            if r.contains(x) {
                if rq.contains(x) {
                    assert(q.contains(x));
                    let i = choose|i: int| 0 <= i < q.len() && q[i] == x;
                    assert(s[i] == x);
                } else {
                    assert(x == p);
                    assert(s[s.len() - 1] == x);
                }
            }
            if s.contains(x) {
                let i = choose|i: int| 0 <= i < s.len() && s[i] == x;
                if i < s.len() - 1 {
                    assert(q[i] == x);
                    assert(q.contains(x));
                } else {
                    assert(x == p);
                }
            }
        }
        assert forall|k: Seq<char>| #[trigger] has_key(r, k) <==> has_key(s, k) by {
            if has_key(r, k) {
                if has_key(q, k) {
                    let i = choose|i: int| 0 <= i < q.len() && (#[trigger] q[i]).0 == k;
                    assert(s[i].0 == k);
                } else {
                    assert(k == p.0);
                    assert(s[s.len() - 1].0 == k);
                }
            }
            if has_key(s, k) {
                let i = choose|i: int| 0 <= i < s.len() && (#[trigger] s[i]).0 == k;
                if i < s.len() - 1 {
                    assert(q[i].0 == k);
                    assert(has_key(q, k));
                }
            }
        }
        if distinct_keys(s) {
            assert(distinct_keys(q));
            assert(!has_key(q, p.0)) by {
                if has_key(q, p.0) {
                    let i = choose|i: int| 0 <= i < q.len() && (#[trigger] q[i]).0 == p.0;
                    assert(s[i].0 == s[s.len() - 1].0);
                }
            }
            assert(!has_key(rq, p.0));
        }
    }
}

/// A pair a distinct-keyed sequence contains is the pair its key looks
/// up.
pub proof fn lemma_value_by_contains(s: CatalogModel, k: Seq<char>, v: EntryModel)
    requires
        distinct_keys(s),
        s.contains((k, v)),
    ensures
        has_key(s, k),
        value_of(s, k) == v,
{
    let i = choose|i: int| 0 <= i < s.len() && s[i] == (k, v);
    assert(s[i].0 == k);
    lemma_key_index(s, k);
    let j = key_index(s, k);
    if i != j {
        assert(s[i].0 == s[j].0);
        assert(false);
    }
}

/// Sorts key/entry pairs by the entries' display names, stably.
pub fn sort_pairs_by_name(ps: &Vec<(String, Entry)>) -> (r: Vec<(String, Entry)>)
    ensures
        pairs_model(r@) == sort_by_name(pairs_model(ps@)),
{
    let ghost whole = pairs_model(ps@);
    let mut out: Vec<(String, Entry)> = Vec::new();
    proof {
        assert(whole.take(0) =~= Seq::<(Seq<char>, EntryModel)>::empty());
        assert(pairs_model(out@) =~= Seq::<(Seq<char>, EntryModel)>::empty());
    }
    let mut i: usize = 0;
    while i < ps.len()
        invariant
            i <= ps.len(),
            whole == pairs_model(ps@),
            pairs_model(out@) == sort_by_name(whole.take(i as int)),
            out@.len() == i,
        decreases ps.len() - i,
    {
        let p = &ps[i];
        let ghost pm = (p.0@, p.1@);
        let ghost before = pairs_model(out@);
        let mut j: usize = 0;
        while j < out.len() && str_le(out[j].1.name.as_str(), p.1.name.as_str())
            invariant
                j <= out.len(),
                before == pairs_model(out@),
                pm.1 == p.1@,
                forall|m: int| 0 <= m < j ==> lex_le((#[trigger] before[m]).1.name, pm.1.name),
            decreases out.len() - j,
        {
            proof {
                assert(before[j as int] == (out@[j as int].0@, out@[j as int].1@));
            }
            j = j + 1;
        }
        out.insert(j, (p.0.clone(), p.1.duplicate()));
        i = i + 1;
        proof {
            lemma_insert_by_name_at(before, pm, j as int);
            assert(pairs_model(out@) =~= before.take(j as int) + seq![pm] + before.skip(j as int));
            assert(whole.take(i as int).drop_last() =~= whole.take(i as int - 1));
            assert(whole.take(i as int).last() == pm);
            assert(sort_by_name(whole.take(i as int)) == insert_by_name(
                sort_by_name(whole.take(i as int - 1)),
                pm,
            ));
        }
    }
    proof {
        assert(whole.take(ps@.len() as int) =~= whole);
    }
    out
}

/// `p` inserted after every pair with at least its usage count: the
/// stable insertion step of the presentation order.
pub open spec fn insert_by_count(s: Seq<EntryModel>, p: EntryModel) -> Seq<EntryModel>
    decreases s.len(),
{
    if s.len() == 0 {
        seq![p]
    } else if s[0].count >= p.count {
        seq![s[0]] + insert_by_count(s.drop_first(), p)
    } else {
        seq![p] + s
    }
}

/// The entries sorted by descending usage count, stably.
pub open spec fn sort_by_count(s: Seq<EntryModel>) -> Seq<EntryModel>
    decreases s.len(),
{
    if s.len() == 0 {
        Seq::empty()
    } else {
        insert_by_count(sort_by_count(s.drop_last()), s.last())
    }
}

pub proof fn lemma_insert_by_count_at(s: Seq<EntryModel>, p: EntryModel, j: int)
    requires
        0 <= j <= s.len(),
        forall|m: int| 0 <= m < j ==> (#[trigger] s[m]).count >= p.count,
        j < s.len() ==> !(s[j].count >= p.count),
    ensures
        insert_by_count(s, p) == s.take(j) + seq![p] + s.skip(j),
    decreases s.len(),
{
    if s.len() == 0 {
        assert(s.take(0) + seq![p] + s.skip(0) =~= seq![p]);
    } else if j == 0 {
        assert(s.take(0) + seq![p] + s.skip(0) =~= seq![p] + s);
    } else {
        let t = s.drop_first();
        assert(forall|m: int| 0 <= m < t.len() ==> (#[trigger] t[m]) == s[m + 1]);
        lemma_insert_by_count_at(t, p, j - 1);
        assert(seq![s[0]] + (t.take(j - 1) + seq![p] + t.skip(j - 1)) =~= s.take(j) + seq![p]
            + s.skip(j));
    }
}

pub open spec fn sorted_by_count(s: Seq<EntryModel>) -> bool {
    forall|i: int, j: int|
        0 <= i < j < s.len() ==> (#[trigger] s[i]).count >= (#[trigger] s[j]).count
}

proof fn lemma_insert_by_count_props(s: Seq<EntryModel>, p: EntryModel)
    ensures
        insert_by_count(s, p).len() == s.len() + 1,
        forall|x: EntryModel| #[trigger]
            insert_by_count(s, p).contains(x) <==> (s.contains(x) || x == p),
        sorted_by_count(s) ==> sorted_by_count(insert_by_count(s, p)),
    decreases s.len(),
{
    let r = insert_by_count(s, p);
    if s.len() == 0 {
        assert forall|x: EntryModel| #[trigger] r.contains(x) <==> (s.contains(x) || x == p) by {
            assert(r[0] == p);
            if s.contains(x) {
                let i = choose|i: int| 0 <= i < s.len() && s[i] == x;
            }
        }
    } else if s[0].count >= p.count {
        let t = s.drop_first();
        assert(forall|m: int| 0 <= m < t.len() ==> (#[trigger] t[m]) == s[m + 1]);
        lemma_insert_by_count_props(t, p);
        let rt = insert_by_count(t, p);
        assert(r == seq![s[0]] + rt);
        assert(r[0] == s[0]);
        assert(forall|m: int| 0 <= m < rt.len() ==> (#[trigger] rt[m]) == r[m + 1]);
        assert forall|x: EntryModel| #[trigger] r.contains(x) <==> (s.contains(x) || x == p) by {
            if r.contains(x) {
                let i = choose|i: int| 0 <= i < r.len() && r[i] == x;
                if i == 0 {
                    assert(s[0] == x);
                } else {
                    assert(rt[i - 1] == x);
                    assert(rt.contains(x));
                    if t.contains(x) {
                        let m = choose|m: int| 0 <= m < t.len() && t[m] == x;
                        assert(s[m + 1] == x);
                    }
                }
            }
            if s.contains(x) {
                let i = choose|i: int| 0 <= i < s.len() && s[i] == x;
                if i == 0 {
                    assert(r[0] == x);
                } else {
                    assert(t[i - 1] == x);
                    assert(rt.contains(x));
                    let m = choose|m: int| 0 <= m < rt.len() && rt[m] == x;
                    assert(r[m + 1] == x);
                }
            }
            if x == p {
                assert(rt.contains(x));
                let m = choose|m: int| 0 <= m < rt.len() && rt[m] == x;
                assert(r[m + 1] == x);
            }
        }
        if sorted_by_count(s) {
            assert(sorted_by_count(t));
            assert forall|i: int, j: int| 0 <= i < j < r.len() implies (#[trigger] r[i]).count
                >= (#[trigger] r[j]).count by {
                if i == 0 {
                    assert(rt.contains(rt[j - 1]));
                    let x = rt[j - 1];
                    if t.contains(x) {
                        let m = choose|m: int| 0 <= m < t.len() && t[m] == x;
                        assert(s[0].count >= s[m + 1].count);
                    } else {
                        assert(x == p);
                    }
                } else {
                    assert(r[i] == rt[i - 1] && r[j] == rt[j - 1]);
                }
            }
        }
    } else {
        assert(r == seq![p] + s);
        assert(r[0] == p);
        assert(forall|m: int| 0 <= m < s.len() ==> (#[trigger] s[m]) == r[m + 1]);
        assert forall|x: EntryModel| #[trigger] r.contains(x) <==> (s.contains(x) || x == p) by {
            if r.contains(x) {
                let i = choose|i: int| 0 <= i < r.len() && r[i] == x;
                if i > 0 {
                    assert(s[i - 1] == x);
                }
            }
            if s.contains(x) {
                let i = choose|i: int| 0 <= i < s.len() && s[i] == x;
                assert(r[i + 1] == x);
            }
        }
        if sorted_by_count(s) {
            assert forall|i: int, j: int| 0 <= i < j < r.len() implies (#[trigger] r[i]).count
                >= (#[trigger] r[j]).count by {
                if i == 0 {
                    assert(r[j] == s[j - 1]);
                    if j > 1 {
                        assert(s[0].count >= s[j - 1].count);
                    }
                } else {
                    assert(r[i] == s[i - 1] && r[j] == s[j - 1]);
                }
            }
        }
    }
}

/// The presentation order sorts by non-increasing usage count and keeps
/// exactly the catalog's entries.
pub proof fn lemma_sort_by_count_props(s: Seq<EntryModel>)
    ensures
        sort_by_count(s).len() == s.len(),
        forall|x: EntryModel| #[trigger] sort_by_count(s).contains(x) <==> s.contains(x),
        sorted_by_count(sort_by_count(s)),
    decreases s.len(),
{
    let r = sort_by_count(s);
    if s.len() == 0 {
        assert forall|x: EntryModel| #[trigger] r.contains(x) <==> s.contains(x) by {
            if r.contains(x) {
                let i = choose|i: int| 0 <= i < r.len() && r[i] == x;
            }
            if s.contains(x) {
                let i = choose|i: int| 0 <= i < s.len() && s[i] == x;
            }
        }
    } else {
        let q = s.drop_last();
        let p = s.last();
        lemma_sort_by_count_props(q);
        let rq = sort_by_count(q);
        lemma_insert_by_count_props(rq, p);
        assert(forall|m: int| 0 <= m < q.len() ==> (#[trigger] q[m]) == s[m]);
        assert forall|x: EntryModel| #[trigger] r.contains(x) <==> s.contains(x) by {
            if r.contains(x) {
                if rq.contains(x) {
                    assert(q.contains(x));
                    let i = choose|i: int| 0 <= i < q.len() && q[i] == x;
                    assert(s[i] == x);
                } else {
                    assert(x == p);
                    assert(s[s.len() - 1] == x);
                }
            }
            if s.contains(x) {
                let i = choose|i: int| 0 <= i < s.len() && s[i] == x;
                if i < s.len() - 1 {
                    assert(q[i] == x);
                    assert(q.contains(x));
                } else {
                    assert(x == p);
                }
            }
        }
    }
}

/// The model of a vector of entries.
pub open spec fn entries_model(v: Seq<Entry>) -> Seq<EntryModel> {
    v.map_values(|e: Entry| e@)
}

/// Sorts entries by descending usage count, stably.
pub fn sort_entries_by_count(es: &Vec<Entry>) -> (r: Vec<Entry>)
    ensures
        entries_model(r@) == sort_by_count(entries_model(es@)),
{
    let ghost whole = entries_model(es@);
    let mut out: Vec<Entry> = Vec::new();
    proof {
        assert(whole.take(0) =~= Seq::<EntryModel>::empty());
        assert(entries_model(out@) =~= Seq::<EntryModel>::empty());
    }
    let mut i: usize = 0;
    while i < es.len()
        invariant
            i <= es.len(),
            whole == entries_model(es@),
            entries_model(out@) == sort_by_count(whole.take(i as int)),
            out@.len() == i,
        decreases es.len() - i,
    {
        let e = &es[i];
        let ghost em = e@;
        let ghost before = entries_model(out@);
        let mut j: usize = 0;
        while j < out.len() && out[j].count >= e.count
            invariant
                j <= out.len(),
                before == entries_model(out@),
                em == e@,
                forall|m: int| 0 <= m < j ==> (#[trigger] before[m]).count >= em.count,
            decreases out.len() - j,
        {
            proof {
                assert(before[j as int] == out@[j as int]@);
            }
            j = j + 1;
        }
        out.insert(j, e.duplicate());
        i = i + 1;
        proof {
            lemma_insert_by_count_at(before, em, j as int);
            assert(entries_model(out@) =~= before.take(j as int) + seq![em] + before.skip(
                j as int,
            ));
            assert(whole.take(i as int).drop_last() =~= whole.take(i as int - 1));
            assert(whole.take(i as int).last() == em);
            assert(sort_by_count(whole.take(i as int)) == insert_by_count(
                sort_by_count(whole.take(i as int - 1)),
                em,
            ));
        }
    }
    proof {
        assert(whole.take(es@.len() as int) =~= whole);
    }
    out
}

} // verus!
