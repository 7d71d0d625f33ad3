use vstd::prelude::*;

use crate::manager::focus_order_after;
use crate::seqs::lemma_without_id_absent;
use crate::seqs::lemma_without_id_contains;
use crate::seqs::without_id;
use crate::webview_id::WebViewId;

verus! {

/// Adding a webview and then looking it up yields exactly the payload that
/// was added: `add` makes the registry `registry.insert(id, payload)`, and on
/// that registry `get(id)` returns the payload.
pub proof fn lemma_add_then_get<W>(registry: Map<WebViewId, W>, id: WebViewId, payload: W)
    ensures
        registry.insert(id, payload).dom().contains(id),
        registry.insert(id, payload)[id] == payload,
{
}

/// Adding a webview and then removing it yields that payload back, and a
/// later lookup finds nothing: on `registry.insert(id, payload)`, `remove(id)`
/// returns the payload, and afterwards `id` is no longer registered.
pub proof fn lemma_add_then_remove_then_get<W>(
    registry: Map<WebViewId, W>,
    id: WebViewId,
    payload: W,
)
    ensures
        registry.insert(id, payload).dom().contains(id),
        registry.insert(id, payload)[id] == payload,
        !registry.insert(id, payload).remove(id).dom().contains(id),
{
}

/// Focusing an identifier leaves exactly one occurrence of it in the focus
/// order, at the tail; focusing it again consecutively changes nothing.
pub proof fn lemma_focus_order_after_idempotent(order: Seq<WebViewId>, id: WebViewId)
    ensures
        focus_order_after(order, id).last() == id,
        forall|i: int|
            0 <= i < focus_order_after(order, id).len() - 1 ==> focus_order_after(order, id)[i]
                != id,
        focus_order_after(focus_order_after(order, id), id) == focus_order_after(order, id),
{
    let once = focus_order_after(order, id);
    assert(!without_id(order, id).contains(id)) by {
        lemma_without_id_contains(order, id, id);
    }
    assert forall|i: int| 0 <= i < once.len() - 1 implies once[i] != id by {
        assert(once[i] == without_id(order, id)[i]);
        assert(without_id(order, id).contains(without_id(order, id)[i]));
        lemma_without_id_contains(order, id, without_id(order, id)[i]);
    }
    assert(once.drop_last() =~= without_id(order, id));
    assert(once.last() == id);
    lemma_without_id_absent(without_id(order, id), id);
    assert(without_id(once, id) == without_id(order, id));
}

} // verus!
