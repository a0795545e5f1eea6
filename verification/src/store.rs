//! The catalog container: an insertion-ordered map from filesystem path
//! to `Entry`, held in `indexmap::IndexMap` behind trusted wrappers.
//!
//! The map's contents are named by the uninterpreted function
//! `entries_of`, a sequence of key/model pairs in the map's order; every
//! wrapper states over that name what the indexmap documentation and
//! source show of the method it calls.

use vstd::prelude::*;
use indexmap::map::IndexMap;
use crate::entry::{Entry, EntryModel};

verus! {

#[verifier::external_type_specification]
#[verifier::external_body]
#[verifier::reject_recursive_types(K)]
#[verifier::reject_recursive_types(V)]
#[verifier::reject_recursive_types(S)]
pub struct ExIndexMap<K, V, S>(IndexMap<K, V, S>);

/// The catalog as a map from path to entry, in insertion order.
pub type EntryMap = IndexMap<String, Entry>;

/// The model of a catalog: the key/entry pairs in the map's order.
pub type CatalogModel = Seq<(Seq<char>, EntryModel)>;

/// What an `EntryMap` holds: its key/model pairs, in the map's order.
pub uninterp spec fn entries_of(m: EntryMap) -> CatalogModel;

/// Some pair of the sequence has this key.
pub open spec fn has_key(s: CatalogModel, k: Seq<char>) -> bool {
    exists|i: int| 0 <= i < s.len() && (#[trigger] s[i]).0 == k
}

/// The first position holding this key (the sequence's length if none).
pub open spec fn key_index(s: CatalogModel, k: Seq<char>) -> int
    decreases s.len(),
{
    if s.len() == 0 {
        0
    } else if s[0].0 == k {
        0
    } else {
        1 + key_index(s.drop_first(), k)
    }
}

/// The entry stored under this key.
pub open spec fn value_of(s: CatalogModel, k: Seq<char>) -> EntryModel {
    s[key_index(s, k)].1
}

/// No two pairs share a key.
pub open spec fn distinct_keys(s: CatalogModel) -> bool {
    forall|i: int, j: int| 0 <= i < j < s.len() ==> (#[trigger] s[i]).0 != (#[trigger] s[j]).0
}

/// The sequence after storing `v` under `k`: an existing key keeps its
/// position and gets the new value, a new key is appended last.
pub open spec fn upsert(s: CatalogModel, k: Seq<char>, v: EntryModel) -> CatalogModel {
    if has_key(s, k) {
        s.update(key_index(s, k), (k, v))
    } else {
        s.push((k, v))
    }
}

/// The sequence after storing every pair of `ps` in order.
pub open spec fn upsert_all(s: CatalogModel, ps: CatalogModel) -> CatalogModel
    decreases ps.len(),
{
    if ps.len() == 0 {
        s
    } else {
        upsert_all(upsert(s, ps[0].0, ps[0].1), ps.drop_first())
    }
}

pub proof fn lemma_key_index(s: CatalogModel, k: Seq<char>)
    requires
        has_key(s, k),
    ensures
        0 <= key_index(s, k) < s.len(),
        s[key_index(s, k)].0 == k,
        forall|j: int| 0 <= j < key_index(s, k) ==> (#[trigger] s[j]).0 != k,
    decreases s.len(),
{
    if s.len() > 0 && s[0].0 != k {
        let t = s.drop_first();
        assert(has_key(t, k)) by {
            let i = choose|i: int| 0 <= i < s.len() && (#[trigger] s[i]).0 == k;
            assert(t[i - 1] == s[i]);
        }
        lemma_key_index(t, k);
        assert forall|j: int| 0 <= j < key_index(s, k) implies (#[trigger] s[j]).0 != k by {
            if j > 0 {
                assert(t[j - 1] == s[j]);
            }
        }
    }
}

/// Storing under `k` leaves the pairs at other keys untouched and puts
/// `v` under `k`.
pub proof fn lemma_upsert(s: CatalogModel, k: Seq<char>, v: EntryModel)
    ensures
        has_key(upsert(s, k, v), k),
        value_of(upsert(s, k, v), k) == v,
        forall|k2: Seq<char>| k2 != k ==> #[trigger] has_key(upsert(s, k, v), k2) == has_key(s, k2),
        forall|k2: Seq<char>| k2 != k && has_key(s, k2) ==> #[trigger] value_of(
            upsert(s, k, v),
            k2,
        ) == value_of(s, k2),
{
    let r = upsert(s, k, v);
    if has_key(s, k) {
        lemma_key_index(s, k);
        let i = key_index(s, k);
        assert(r[i].0 == k);
        lemma_key_index_update(s, k, v, i);
    } else {
        assert(r[s.len() as int].0 == k);
        lemma_key_index_push(s, k, v);
    }
}

proof fn lemma_key_index_update(s: CatalogModel, k: Seq<char>, v: EntryModel, i: int)
    requires
        0 <= i < s.len(),
        s[i].0 == k,
        forall|j: int| 0 <= j < i ==> (#[trigger] s[j]).0 != k,
    ensures
        key_index(s.update(i, (k, v)), k) == i,
        value_of(s.update(i, (k, v)), k) == v,
        has_key(s.update(i, (k, v)), k),
        forall|k2: Seq<char>| k2 != k ==> #[trigger] has_key(s.update(i, (k, v)), k2) == has_key(
            s,
            k2,
        ),
        forall|k2: Seq<char>| k2 != k && has_key(s, k2) ==> #[trigger] value_of(
            s.update(i, (k, v)),
            k2,
        ) == value_of(s, k2),
    decreases s.len(),
{
    let r = s.update(i, (k, v));
    assert(r[i].0 == k);
    if i == 0 {
        assert(r[0].0 == k);
    } else {
        assert(r[0] == s[0]);
        assert(s[0].0 != k);
        lemma_key_index_update(s.drop_first(), k, v, i - 1);
        assert(s.drop_first().update(i - 1, (k, v)) =~= r.drop_first());
    }
    assert forall|k2: Seq<char>| k2 != k implies #[trigger] has_key(r, k2) == has_key(s, k2) by {
        if has_key(r, k2) {
            let j = choose|j: int| 0 <= j < r.len() && (#[trigger] r[j]).0 == k2;
            assert(j != i);
            assert(s[j].0 == k2);
        }
        if has_key(s, k2) {
            let j = choose|j: int| 0 <= j < s.len() && (#[trigger] s[j]).0 == k2;
            assert(j != i);
            assert(r[j].0 == k2);
        }
    }
    assert forall|k2: Seq<char>| k2 != k && has_key(s, k2) implies #[trigger] value_of(r, k2)
        == value_of(s, k2) by {
        lemma_key_index_stable(s, r, k2, i);
    }
}

/// Two equal-length sequences that differ only at a position whose key
/// is not `k2` give `k2` the same first position and value.
proof fn lemma_key_index_stable(s: CatalogModel, r: CatalogModel, k2: Seq<char>, i: int)
    requires
        s.len() == r.len(),
        0 <= i < s.len(),
        forall|j: int| 0 <= j < s.len() && j != i ==> #[trigger] r[j] == s[j],
        s[i].0 != k2,
        r[i].0 != k2,
        has_key(s, k2),
    ensures
        key_index(r, k2) == key_index(s, k2),
        value_of(r, k2) == value_of(s, k2),
    decreases s.len(),
{
    lemma_key_index(s, k2);
    if s[0].0 == k2 {
        assert(r[0] == s[0]);
    } else {
        if i == 0 {
            assert(forall|j: int| 1 <= j < s.len() ==> #[trigger] r[j] == s[j]);
        }
        assert(r[0].0 != k2);
        let st = s.drop_first();
        let rt = r.drop_first();
        assert(has_key(st, k2)) by {
            let j = choose|j: int| 0 <= j < s.len() && (#[trigger] s[j]).0 == k2;
            assert(st[j - 1] == s[j]);
        }
        if i == 0 {
            assert(st =~= rt);
            lemma_key_index(st, k2);
        } else {
            assert(forall|j: int|
                0 <= j < st.len() && j != i - 1 ==> #[trigger] rt[j] == st[j]) by {
                assert(forall|j: int|
                    0 <= j < st.len() && j != i - 1 ==> rt[j] == r[j + 1] && st[j] == s[j + 1]);
            }
            assert(st[i - 1].0 != k2);
            assert(rt[i - 1].0 != k2);
            lemma_key_index_stable(st, rt, k2, i - 1);
        }
    }
}

proof fn lemma_key_index_push(s: CatalogModel, k: Seq<char>, v: EntryModel)
    requires
        !has_key(s, k),
    ensures
        key_index(s.push((k, v)), k) == s.len(),
        value_of(s.push((k, v)), k) == v,
        forall|k2: Seq<char>| k2 != k ==> #[trigger] has_key(s.push((k, v)), k2) == has_key(s, k2),
        forall|k2: Seq<char>| k2 != k && has_key(s, k2) ==> #[trigger] value_of(s.push((k, v)), k2)
            == value_of(s, k2),
    decreases s.len(),
{
    let r = s.push((k, v));
    if s.len() == 0 {
        assert(r[0].0 == k);
    } else {
        assert(s[0].0 != k);
        assert(r[0] == s[0]);
        lemma_key_index_push(s.drop_first(), k, v);
        assert(s.drop_first().push((k, v)) =~= r.drop_first());
    }
    assert forall|k2: Seq<char>| k2 != k implies #[trigger] has_key(r, k2) == has_key(s, k2) by {
        if has_key(r, k2) {
            let j = choose|j: int| 0 <= j < r.len() && (#[trigger] r[j]).0 == k2;
            assert(j < s.len());
            assert(s[j].0 == k2);
        }
        if has_key(s, k2) {
            let j = choose|j: int| 0 <= j < s.len() && (#[trigger] s[j]).0 == k2;
            assert(r[j].0 == k2);
        }
    }
    assert forall|k2: Seq<char>| k2 != k && has_key(s, k2) implies #[trigger] value_of(r, k2)
        == value_of(s, k2) by {
        lemma_key_index_prefix(s, r, k2);
    }
}

/// A key present in a prefix keeps its first position in any extension.
proof fn lemma_key_index_prefix(s: CatalogModel, r: CatalogModel, k2: Seq<char>)
    requires
        s.len() <= r.len(),
        forall|j: int| 0 <= j < s.len() ==> #[trigger] r[j] == s[j],
        has_key(s, k2),
    ensures
        key_index(r, k2) == key_index(s, k2),
        value_of(r, k2) == value_of(s, k2),
    decreases s.len(),
{
    lemma_key_index(s, k2);
    if s[0].0 == k2 {
        assert(r[0] == s[0]);
    } else {
        assert(r[0].0 != k2);
        let st = s.drop_first();
        let rt = r.drop_first();
        assert(has_key(st, k2)) by {
            let j = choose|j: int| 0 <= j < s.len() && (#[trigger] s[j]).0 == k2;
            assert(st[j - 1] == s[j]);
        }
        assert(forall|j: int| 0 <= j < st.len() ==> #[trigger] rt[j] == st[j]) by {
            assert(forall|j: int| 0 <= j < st.len() ==> rt[j] == r[j + 1] && st[j] == s[j + 1]);
        }
        lemma_key_index_prefix(st, rt, k2);
    }
}

/// Storing a pair never breaks key distinctness.
pub proof fn lemma_upsert_distinct(s: CatalogModel, k: Seq<char>, v: EntryModel)
    requires
        distinct_keys(s),
    ensures
        distinct_keys(upsert(s, k, v)),
{
    let r = upsert(s, k, v);
    if has_key(s, k) {
        lemma_key_index(s, k);
    } else {
        assert forall|i: int, j: int| 0 <= i < j < r.len() implies (#[trigger] r[i]).0 != (
        #[trigger] r[j]).0 by {
            if j == s.len() {
                assert(r[i] == s[i]);
            }
        }
    }
}

/// Storing a batch keeps keys distinct.
pub proof fn lemma_upsert_all_distinct(s: CatalogModel, ps: CatalogModel)
    requires
        distinct_keys(s),
    ensures
        distinct_keys(upsert_all(s, ps)),
    decreases ps.len(),
{
    if ps.len() > 0 {
        lemma_upsert_distinct(s, ps[0].0, ps[0].1);
        lemma_upsert_all_distinct(upsert(s, ps[0].0, ps[0].1), ps.drop_first());
    }
}

/// Storing pairs with distinct keys, none of them present yet, appends
/// them in order.
pub proof fn lemma_upsert_all_fresh(s: CatalogModel, ps: CatalogModel)
    requires
        distinct_keys(ps),
        forall|i: int| 0 <= i < ps.len() ==> !has_key(s, (#[trigger] ps[i]).0),
    ensures
        upsert_all(s, ps) == s + ps,
    decreases ps.len(),
{
    if ps.len() == 0 {
        assert(s + ps =~= s);
    } else {
        let p0 = ps[0];
        assert(!has_key(s, p0.0));
        let s1 = upsert(s, p0.0, p0.1);
        assert(s1 == s.push(p0));
        let t = ps.drop_first();
        assert(forall|i: int| 0 <= i < t.len() ==> (#[trigger] t[i]) == ps[i + 1]);
        assert(distinct_keys(t));
        assert forall|i: int| 0 <= i < t.len() implies !has_key(s1, (#[trigger] t[i]).0) by {
            assert(t[i].0 != p0.0);
            if has_key(s1, t[i].0) {
                let j = choose|j: int| 0 <= j < s1.len() && (#[trigger] s1[j]).0 == t[i].0;
                if j < s.len() {
                    assert(s[j].0 == t[i].0);
                } else {
                    assert(s1[j] == p0);
                }
            }
        }
        lemma_upsert_all_fresh(s1, t);
        assert(s.push(p0) + t =~= s + ps);
    }
}

/// Relies on indexmap's `IndexMap::new`: a freshly created map is empty.
#[verifier::external_body]
pub fn map_new() -> (r: EntryMap)
    ensures
        entries_of(r) == Seq::<(Seq<char>, EntryModel)>::empty(),
{
    IndexMap::new()
}

/// Relies on indexmap's `IndexMap::insert`: an equivalent key keeps its
/// place in the order and gets the new value; a new key is appended last.
#[verifier::external_body]
pub fn map_insert(m: &mut EntryMap, k: String, v: Entry)
    ensures
        entries_of(*final(m)) == upsert(entries_of(*old(m)), k@, v@),
{
    m.insert(k, v);
}

/// Relies on indexmap's `IndexMap::get`: returns the value stored under
/// an equivalent key, if one is present.
#[verifier::external_body]
pub fn map_get<'a>(m: &'a EntryMap, k: &str) -> (r: Option<&'a Entry>)
    ensures
        match r {
            Some(e) => has_key(entries_of(*m), k@) && e@ == value_of(entries_of(*m), k@),
            None => !has_key(entries_of(*m), k@),
        },
{
    m.get(k)
}

/// Relies on indexmap's `IndexMap::iter`: yields the pairs in the map's
/// order, the order `entries_of` records.
#[verifier::external_body]
pub fn map_pairs(m: &EntryMap) -> (r: Vec<(String, Entry)>)
    ensures
        r@.len() == entries_of(*m).len(),
        forall|i: int|
            0 <= i < r@.len() ==> (#[trigger] r@[i]).0@ == entries_of(*m)[i].0 && r@[i].1@
                == entries_of(*m)[i].1,
{
    m.iter().map(|(k, v)| (k.clone(), v.clone())).collect()
}

/// Stores every entry of `es` in order, each under its own path.
pub fn map_extend_entries(m: &mut EntryMap, es: &Vec<Entry>)
    ensures
        entries_of(*final(m)) == upsert_all(
            entries_of(*old(m)),
            es@.map_values(|e: Entry| (e@.path, e@)),
        ),
{
    let ghost ps = es@.map_values(|e: Entry| (e@.path, e@));
    let ghost goal = upsert_all(entries_of(*m), ps);
    proof {
        assert(ps.skip(0) =~= ps);
    }
    let mut i: usize = 0;
    while i < es.len()
        invariant
            i <= es.len(),
            ps == es@.map_values(|e: Entry| (e@.path, e@)),
            goal == upsert_all(entries_of(*m), ps.skip(i as int)),
        decreases es.len() - i,
    {
        proof {
            let rem = ps.skip(i as int);
            assert(rem[0] == ps[i as int]);
            assert(rem.drop_first() =~= ps.skip(i as int + 1));
        }
        let e = es[i].duplicate();
        let k = e.path.clone();
        map_insert(m, k, e);
        i = i + 1;
    }
    proof {
        assert(ps.skip(es@.len() as int) =~= Seq::<(Seq<char>, EntryModel)>::empty());
    }
}

/// Stores every key/entry pair of `ps` in order.
pub fn map_extend_pairs(m: &mut EntryMap, ps: &Vec<(String, Entry)>)
    ensures
        entries_of(*final(m)) == upsert_all(
            entries_of(*old(m)),
            ps@.map_values(|p: (String, Entry)| (p.0@, p.1@)),
        ),
{
    let ghost pm = ps@.map_values(|p: (String, Entry)| (p.0@, p.1@));
    let ghost goal = upsert_all(entries_of(*m), pm);
    proof {
        assert(pm.skip(0) =~= pm);
    }
    let mut i: usize = 0;
    while i < ps.len()
        invariant
            i <= ps.len(),
            pm == ps@.map_values(|p: (String, Entry)| (p.0@, p.1@)),
            goal == upsert_all(entries_of(*m), pm.skip(i as int)),
        decreases ps.len() - i,
    {
        proof {
            let rem = pm.skip(i as int);
            assert(rem[0] == pm[i as int]);
            assert(rem.drop_first() =~= pm.skip(i as int + 1));
        }
        let p = &ps[i];
        let e = p.1.duplicate();
        let k = p.0.clone();
        map_insert(m, k, e);
        i = i + 1;
    }
    proof {
        assert(pm.skip(ps@.len() as int) =~= Seq::<(Seq<char>, EntryModel)>::empty());
    }
}

} // verus!
