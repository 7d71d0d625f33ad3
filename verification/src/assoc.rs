use vstd::prelude::*;

use crate::webview_id::WebViewId;

verus! {

/// The mapping denoted by an association list; a later entry for a key wins.
pub open spec fn map_of<V>(entries: Seq<(WebViewId, V)>) -> Map<WebViewId, V>
    decreases entries.len(),
{
    if entries.len() == 0 {
        Map::empty()
    } else {
        map_of(entries.drop_last()).insert(entries.last().0, entries.last().1)
    }
}

/// The keys of an association list are pairwise distinct.
pub open spec fn keys_distinct<V>(entries: Seq<(WebViewId, V)>) -> bool {
    forall|i: int, j: int|
        0 <= i < entries.len() && 0 <= j < entries.len() && i != j ==> (#[trigger] entries[i]).0
            != (#[trigger] entries[j]).0
}

/// Dropping the last entry keeps the keys pairwise distinct.
pub proof fn lemma_keys_distinct_drop_last<V>(entries: Seq<(WebViewId, V)>)
    requires
        entries.len() > 0,
        keys_distinct(entries),
    ensures
        keys_distinct(entries.drop_last()),
{
    assert forall|i: int, j: int|
        0 <= i < entries.drop_last().len() && 0 <= j < entries.drop_last().len() && i
            != j implies (#[trigger] entries.drop_last()[i]).0 != (#[trigger] entries.drop_last()[j]).0 by {
        assert(entries.drop_last()[i] == entries[i]);
        assert(entries.drop_last()[j] == entries[j]);
    }
}

/// Deleting an entry keeps the keys pairwise distinct.
pub proof fn lemma_keys_distinct_remove<V>(entries: Seq<(WebViewId, V)>, i: int)
    requires
        keys_distinct(entries),
        0 <= i < entries.len(),
    ensures
        keys_distinct(entries.remove(i)),
{
    let removed = entries.remove(i);
    assert forall|p: int, q: int|
        0 <= p < removed.len() && 0 <= q < removed.len() && p != q implies (
        #[trigger] removed[p]).0 != (#[trigger] removed[q]).0 by {
        let p0 = if p < i {
            p
        } else {
            p + 1
        };
        let q0 = if q < i {
            q
        } else {
            q + 1
        };
        assert(removed[p] == entries[p0]);
        assert(removed[q] == entries[q0]);
        assert(entries[p0].0 != entries[q0].0);
    }
}

/// A key is in the denoted map exactly when some entry carries it.
pub proof fn lemma_map_of_dom<V>(entries: Seq<(WebViewId, V)>, k: WebViewId)
    ensures
        map_of(entries).dom().contains(k) <==> exists|i: int|
            0 <= i < entries.len() && (#[trigger] entries[i]).0 == k,
    decreases entries.len(),
{
    if entries.len() == 0 {
    } else {
        lemma_map_of_dom(entries.drop_last(), k);
        if entries.last().0 == k {
            assert(entries[entries.len() - 1].0 == k);
        } else {
            if map_of(entries).dom().contains(k) {
                let i = choose|i: int|
                    0 <= i < entries.drop_last().len() && (#[trigger] entries.drop_last()[i]).0
                        == k;
                assert(entries[i].0 == k);
            }
            if exists|i: int| 0 <= i < entries.len() && (#[trigger] entries[i]).0 == k {
                let i = choose|i: int| 0 <= i < entries.len() && (#[trigger] entries[i]).0 == k;
                assert(i < entries.len() - 1);
                assert(entries.drop_last()[i].0 == k);
            }
        }
    }
}

/// With distinct keys, each entry's key is mapped to that entry's value.
pub proof fn lemma_map_of_index<V>(entries: Seq<(WebViewId, V)>, i: int)
    requires
        keys_distinct(entries),
        0 <= i < entries.len(),
    ensures
        map_of(entries).dom().contains(entries[i].0),
        map_of(entries)[entries[i].0] == entries[i].1,
    decreases entries.len(),
{
    if i == entries.len() - 1 {
    } else {
        assert(entries[i].0 != entries[entries.len() - 1].0);
        lemma_keys_distinct_drop_last(entries);
        lemma_map_of_index(entries.drop_last(), i);
        assert(entries.drop_last()[i] == entries[i]);
    }
}

/// Appending an entry inserts its key into the denoted map.
pub proof fn lemma_map_of_push<V>(entries: Seq<(WebViewId, V)>, k: WebViewId, v: V)
    ensures
        map_of(entries.push((k, v))) == map_of(entries).insert(k, v),
{
    assert(entries.push((k, v)).drop_last() =~= entries);
    assert(entries.push((k, v)).last() == (k, v));
}

/// Overwriting the value at an index reassigns that entry's key, provided the
/// keys are distinct.
pub proof fn lemma_map_of_update<V>(entries: Seq<(WebViewId, V)>, i: int, v: V)
    requires
        keys_distinct(entries),
        0 <= i < entries.len(),
    ensures
        map_of(entries.update(i, (entries[i].0, v))) == map_of(entries).insert(entries[i].0, v),
    decreases entries.len(),
{
    let k = entries[i].0;
    let updated = entries.update(i, (k, v));
    if i == entries.len() - 1 {
        assert(updated.drop_last() =~= entries.drop_last());
        assert(updated.last() == (k, v));
        assert(map_of(entries.drop_last()).insert(k, v) =~= map_of(entries.drop_last()).insert(
            k,
            entries.last().1,
        ).insert(k, v));
    } else {
        assert(k != entries[entries.len() - 1].0);
        lemma_keys_distinct_drop_last(entries);
        lemma_map_of_update(entries.drop_last(), i, v);
        assert(updated.drop_last() =~= entries.drop_last().update(i, (k, v)));
        assert(entries.drop_last()[i] == entries[i]);
        assert(updated.last() == entries[entries.len() - 1]);
        assert(map_of(entries.drop_last()).insert(k, v).insert(
            entries.last().0,
            entries.last().1,
        ) =~= map_of(entries.drop_last()).insert(entries.last().0, entries.last().1).insert(k, v));
    }
}

/// The all-values form of the update lemmas, for an update whose value is
/// fixed only later, for example through a mutable borrow handed out to the
/// caller.
pub proof fn lemma_map_of_update_all<V>(entries: Seq<(WebViewId, V)>, i: int)
    requires
        keys_distinct(entries),
        0 <= i < entries.len(),
    ensures
        forall|v: V| map_of(entries.update(i, (entries[i].0, v))) == #[trigger] map_of(
            entries,
        ).insert(entries[i].0, v),
        forall|v: V| #[trigger] keys_distinct(entries.update(i, (entries[i].0, v))),
        forall|v: V| (#[trigger] map_of(entries).insert(entries[i].0, v)).dom() == map_of(
            entries,
        ).dom(),
{
    assert forall|v: V|
        map_of(entries.update(i, (entries[i].0, v))) == #[trigger] map_of(entries).insert(
            entries[i].0,
            v,
        ) by {
        lemma_map_of_update(entries, i, v);
    }
    assert forall|v: V| #[trigger] keys_distinct(entries.update(i, (entries[i].0, v))) by {
        lemma_keys_distinct_update(entries, i, v);
    }
    assert forall|v: V|
        (#[trigger] map_of(entries).insert(entries[i].0, v)).dom() == map_of(entries).dom() by {
        lemma_map_of_index(entries, i);
        assert(map_of(entries).insert(entries[i].0, v).dom() =~= map_of(entries).dom());
    }
}

/// Overwriting the value at an index keeps the keys pairwise distinct.
pub proof fn lemma_keys_distinct_update<V>(entries: Seq<(WebViewId, V)>, i: int, v: V)
    requires
        keys_distinct(entries),
        0 <= i < entries.len(),
    ensures
        keys_distinct(entries.update(i, (entries[i].0, v))),
{
    let updated = entries.update(i, (entries[i].0, v));
    assert forall|p: int, q: int|
        0 <= p < updated.len() && 0 <= q < updated.len() && p != q implies (
        #[trigger] updated[p]).0 != (#[trigger] updated[q]).0 by {
        assert(updated[p].0 == entries[p].0);
        assert(updated[q].0 == entries[q].0);
        assert(entries[p].0 != entries[q].0);
    }
}

/// With distinct keys, deleting the entry at an index removes its key from
/// the denoted map.
pub proof fn lemma_map_of_remove<V>(entries: Seq<(WebViewId, V)>, i: int)
    requires
        keys_distinct(entries),
        0 <= i < entries.len(),
    ensures
        map_of(entries.remove(i)) == map_of(entries).remove(entries[i].0),
    decreases entries.len(),
{
    let k = entries[i].0;
    if i == entries.len() - 1 {
        assert(entries.remove(i) =~= entries.drop_last());
        assert(!map_of(entries.drop_last()).dom().contains(k)) by {
            lemma_map_of_dom(entries.drop_last(), k);
            if exists|j: int|
                0 <= j < entries.drop_last().len() && (#[trigger] entries.drop_last()[j]).0 == k {
                let j = choose|j: int|
                    0 <= j < entries.drop_last().len() && (#[trigger] entries.drop_last()[j]).0
                        == k;
                assert(entries[j].0 == entries[i].0);
            }
        }
        assert(map_of(entries).remove(k) =~= map_of(entries.drop_last()));
    } else {
        assert(k != entries[entries.len() - 1].0);
        lemma_keys_distinct_drop_last(entries);
        lemma_map_of_remove(entries.drop_last(), i);
        assert(entries.remove(i).drop_last() =~= entries.drop_last().remove(i));
        assert(entries.remove(i).last() == entries[entries.len() - 1]);
        assert(map_of(entries.drop_last()).remove(k).insert(
            entries.last().0,
            entries.last().1,
        ) =~= map_of(entries.drop_last()).insert(entries.last().0, entries.last().1).remove(k));
    }
}

} // verus!
