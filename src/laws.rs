use vstd::prelude::*;

use crate::list::SkipList;

verus! {

/// Round trip: once `insert(k, v)` has succeeded on `before`, giving
/// `after`, `find(k)` on `after` returns `v`.
pub proof fn lemma_find_after_insert<V>(before: &SkipList<V>, after: &SkipList<V>, k: i64, v: V)
    requires
        after@ == before@.insert(k, v),
    ensures
        after@.contains_key(k),
        after@[k] == v,
{
}

/// Update in place: inserting `k` with `v1` and then with `v2` leaves the
/// map as a single insert of `v2` would, `find(k)` returns `v2`, and level 0
/// holds `k` on exactly one node.
pub proof fn lemma_insert_twice<V>(
    s0: &SkipList<V>,
    s1: &SkipList<V>,
    s2: &SkipList<V>,
    k: i64,
    v1: V,
    v2: V,
)
    requires
        s2.wf(),
        s1@ == s0@.insert(k, v1),
        s2@ == s1@.insert(k, v2),
    ensures
        s2@ == s0@.insert(k, v2),
        s2@.contains_key(k),
        s2@[k] == v2,
        s2.level_keys(0).contains(k),
        forall|i: int, j: int|
            0 <= i < s2.level_keys(0).len() && 0 <= j < s2.level_keys(0).len()
                && s2.level_keys(0)[i] == k && s2.level_keys(0)[j] == k ==> i == j,
{
    assert(s2@ =~= s0@.insert(k, v2));
    s2.lemma_level0_is_domain();
    s2.lemma_levels_sorted();
    assert forall|i: int, j: int|
        0 <= i < s2.level_keys(0).len() && 0 <= j < s2.level_keys(0).len() && s2.level_keys(0)[i]
            == k && s2.level_keys(0)[j] == k implies i == j by {
        if i < j {
            assert(s2.level_keys(0)[i] < s2.level_keys(0)[j]);
        } else if j < i {
            assert(s2.level_keys(0)[j] < s2.level_keys(0)[i]);
        }
    }
}

/// Deletion: after `insert(k, v)` gives `s1`, `delete(k)` returns `Some(v)`
/// and gives `s2`; on `s2`, `find(k)` returns nothing, and a second
/// `delete(k)` returns `None` and changes nothing.
pub proof fn lemma_delete_after_insert<V>(
    s0: &SkipList<V>,
    s1: &SkipList<V>,
    s2: &SkipList<V>,
    k: i64,
    v: V,
)
    requires
        s1@ == s0@.insert(k, v),
        s2@ == s1@.remove(k),
    ensures
        s1@.get(k) == Some(v),
        !s2@.contains_key(k),
        s2@.get(k) == None::<V>,
        s2@.remove(k) == s2@,
{
    assert(s2@.remove(k) =~= s2@);
}

/// The map left by inserting `entries` one after another, in order.
pub open spec fn insert_all<V>(m: Map<i64, V>, entries: Seq<(i64, V)>) -> Map<i64, V>
    decreases entries.len(),
{
    if entries.len() == 0 {
        m
    } else {
        insert_all(m, entries.drop_last()).insert(entries.last().0, entries.last().1)
    }
}

/// No lost insert: after a run of successful inserts, `find` succeeds on
/// exactly the keys that were present before or were inserted.
pub proof fn lemma_insert_all_keys<V>(m: Map<i64, V>, entries: Seq<(i64, V)>)
    ensures
        forall|k: i64|
            #[trigger] insert_all(m, entries).contains_key(k) <==> m.contains_key(k) || exists|i: int|
                0 <= i < entries.len() && (#[trigger] entries[i]).0 == k,
    decreases entries.len(),
{
    if entries.len() > 0 {
        let rest = entries.drop_last();
        lemma_insert_all_keys(m, rest);
        let n = entries.len() - 1;
        assert(insert_all(m, entries) == insert_all(m, rest).insert(entries[n].0, entries[n].1));
        assert forall|k: i64| #[trigger] insert_all(m, entries).contains_key(k) <==> m.contains_key(k)
            || exists|i: int| 0 <= i < entries.len() && (#[trigger] entries[i]).0 == k by {
            if k == entries[n].0 {
                assert(0 <= n < entries.len() && entries[n].0 == k);
            } else {
                if exists|i: int| 0 <= i < entries.len() && (#[trigger] entries[i]).0 == k {
                    let i = choose|i: int| 0 <= i < entries.len() && (#[trigger] entries[i]).0 == k;
                    assert(i < n);
                    assert(rest[i] == entries[i]);
                    assert(0 <= i < rest.len() && rest[i].0 == k);
                }
                if exists|i: int| 0 <= i < rest.len() && (#[trigger] rest[i]).0 == k {
                    let i = choose|i: int| 0 <= i < rest.len() && (#[trigger] rest[i]).0 == k;
                    assert(entries[i] == rest[i]);
                    assert(0 <= i < entries.len() && entries[i].0 == k);
                }
            }
        }
    }
}

/// Inserts of different keys commute: whichever order two exclusive inserts
/// of `a` and `b` run in, the list ends up holding the same map. So threads
/// that insert disjoint blocks of keys, each insert holding the list
/// exclusively, end with the same map whatever the interleaving.
pub proof fn lemma_distinct_inserts_commute<V>(m: Map<i64, V>, a: i64, va: V, b: i64, vb: V)
    requires
        a != b,
    ensures
        m.insert(a, va).insert(b, vb) == m.insert(b, vb).insert(a, va),
{
    assert(m.insert(a, va).insert(b, vb) =~= m.insert(b, vb).insert(a, va));
}

} // verus!
