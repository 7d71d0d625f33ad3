use vstd::prelude::*;

use crate::webview_id::WebViewId;

verus! {

/// The sequence `s` with every occurrence of `id` removed, other elements in
/// their original order.
pub open spec fn without_id(s: Seq<WebViewId>, id: WebViewId) -> Seq<WebViewId>
    decreases s.len(),
{
    if s.len() == 0 {
        s
    } else if s.last() == id {
        without_id(s.drop_last(), id)
    } else {
        without_id(s.drop_last(), id).push(s.last())
    }
}

/// Pushing an element extends a sequence's members by exactly that element.
pub proof fn lemma_push_contains(s: Seq<WebViewId>, x: WebViewId, y: WebViewId)
    ensures
        s.push(x).contains(y) <==> (s.contains(y) || y == x),
{
    if s.contains(y) {
        let i = choose|i: int| 0 <= i < s.len() && s[i] == y;
        assert(s.push(x)[i] == y);
    }
    if y == x {
        assert(s.push(x)[s.len() as int] == y);
    }
    if s.push(x).contains(y) {
        let i = choose|i: int| 0 <= i < s.push(x).len() && s.push(x)[i] == y;
        if i < s.len() {
            assert(s[i] == y);
        }
    }
}

/// Dropping the last element keeps a sequence duplicate-free.
pub proof fn lemma_drop_last_no_duplicates(s: Seq<WebViewId>)
    requires
        s.len() > 0,
        s.no_duplicates(),
    ensures
        s.drop_last().no_duplicates(),
{
    assert forall|i: int, j: int|
        0 <= i < s.drop_last().len() && 0 <= j < s.drop_last().len() && i != j implies s.drop_last()[i]
        != s.drop_last()[j] by {
        assert(s.drop_last()[i] == s[i]);
        assert(s.drop_last()[j] == s[j]);
    }
}

/// `without_id` keeps exactly the members other than `id`.
pub proof fn lemma_without_id_contains(s: Seq<WebViewId>, id: WebViewId, y: WebViewId)
    ensures
        without_id(s, id).contains(y) <==> (s.contains(y) && y != id),
    decreases s.len(),
{
    if s.len() == 0 {
    } else {
        lemma_without_id_contains(s.drop_last(), id, y);
        lemma_push_contains(s.drop_last(), s.last(), y);
        assert(s.drop_last().push(s.last()) =~= s);
        if s.last() != id {
            lemma_push_contains(without_id(s.drop_last(), id), s.last(), y);
        }
    }
}

/// `without_id` of a duplicate-free sequence is duplicate-free.
pub proof fn lemma_without_id_no_duplicates(s: Seq<WebViewId>, id: WebViewId)
    requires
        s.no_duplicates(),
    ensures
        without_id(s, id).no_duplicates(),
    decreases s.len(),
{
    if s.len() == 0 {
    } else {
        lemma_drop_last_no_duplicates(s);
        lemma_without_id_no_duplicates(s.drop_last(), id);
        if s.last() != id {
            let rest = without_id(s.drop_last(), id);
            assert(!s.drop_last().contains(s.last())) by {
                if s.drop_last().contains(s.last()) {
                    let i = choose|i: int|
                        0 <= i < s.drop_last().len() && s.drop_last()[i] == s.last();
                    assert(s[i] == s[s.len() - 1]);
                }
            }
            lemma_without_id_contains(s.drop_last(), id, s.last());
            assert forall|i: int, j: int|
                0 <= i < rest.push(s.last()).len() && 0 <= j < rest.push(s.last()).len() && i
                    != j implies rest.push(s.last())[i] != rest.push(s.last())[j] by {
                if i < rest.len() && j < rest.len() {
                    assert(rest[i] != rest[j]);
                } else if j == rest.len() && i < rest.len() {
                    assert(rest.contains(rest[i]));
                } else if i == rest.len() && j < rest.len() {
                    assert(rest.contains(rest[j]));
                }
            }
        }
    }
}

/// Pushing a fresh element keeps a sequence duplicate-free.
pub proof fn lemma_push_no_duplicates(s: Seq<WebViewId>, x: WebViewId)
    requires
        s.no_duplicates(),
        !s.contains(x),
    ensures
        s.push(x).no_duplicates(),
{
    assert forall|i: int, j: int|
        0 <= i < s.push(x).len() && 0 <= j < s.push(x).len() && i != j implies s.push(x)[i]
        != s.push(x)[j] by {
        if i < s.len() && j < s.len() {
            assert(s[i] != s[j]);
        } else if j == s.len() && i < s.len() {
            assert(s.contains(s[i]));
        } else if i == s.len() && j < s.len() {
            assert(s.contains(s[j]));
        }
    }
}

/// Removing an absent identifier leaves a sequence unchanged.
pub proof fn lemma_without_id_absent(s: Seq<WebViewId>, id: WebViewId)
    requires
        !s.contains(id),
    ensures
        without_id(s, id) == s,
    decreases s.len(),
{
    if s.len() == 0 {
        assert(without_id(s, id) =~= s);
    } else {
        assert(s.contains(s.last())) by {
            assert(s[s.len() - 1] == s.last());
        }
        assert(!s.drop_last().contains(id)) by {
            if s.drop_last().contains(id) {
                let i = choose|i: int| 0 <= i < s.drop_last().len() && s.drop_last()[i] == id;
                assert(s[i] == id);
            }
        }
        lemma_without_id_absent(s.drop_last(), id);
        assert(without_id(s, id) =~= s.drop_last().push(s.last()));
        assert(s.drop_last().push(s.last()) =~= s);
    }
}

} // verus!
