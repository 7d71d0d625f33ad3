use vstd::prelude::*;

use crate::assoc::keys_distinct;
use crate::assoc::lemma_keys_distinct_remove;
use crate::assoc::lemma_keys_distinct_update;
use crate::assoc::lemma_map_of_dom;
use crate::assoc::lemma_map_of_index;
use crate::assoc::lemma_map_of_push;
use crate::assoc::lemma_map_of_remove;
use crate::assoc::lemma_map_of_update;
use crate::assoc::lemma_map_of_update_all;
use crate::assoc::map_of;
use crate::seqs::lemma_push_contains;
use crate::seqs::lemma_push_no_duplicates;
use crate::seqs::lemma_without_id_contains;
use crate::seqs::lemma_without_id_no_duplicates;
use crate::seqs::without_id;
use crate::webview_id::WebViewId;

verus! {

/// The abstract state of a webview registry: the registered payloads, the
/// most-recently-focused ordering, the focused flag, and the two visibility
/// marker sets.
pub struct ManagerView<W> {
    pub registry: Map<WebViewId, W>,
    pub focus_order: Seq<WebViewId>,
    pub focused: bool,
    pub shown: Set<WebViewId>,
    pub invisible: Set<WebViewId>,
}

impl<W> ManagerView<W> {
    /// The invariants that hold after every public call: the focus order is
    /// duplicate-free, every identifier in the focus order and the two marker
    /// sets is registered, and the focused flag implies a registered tail.
    pub open spec fn wf(self) -> bool {
        &&& self.focus_order.no_duplicates()
        &&& self.focus_order.to_set().subset_of(self.registry.dom())
        &&& self.shown.subset_of(self.registry.dom())
        &&& self.invisible.subset_of(self.registry.dom())
        &&& (self.focused ==> self.focus_order.len() > 0 && self.registry.dom().contains(
            self.focus_order.last(),
        ))
    }

    /// Effective visibility of an identifier: marked shown and not marked
    /// invisible.
    pub open spec fn effectively_visible(self, id: WebViewId) -> bool {
        self.shown.contains(id) && !self.invisible.contains(id)
    }
}

/// The focus order that results from focusing `id`: every old occurrence of
/// `id` is removed, then `id` is appended at the tail.
pub open spec fn focus_order_after(order: Seq<WebViewId>, id: WebViewId) -> Seq<WebViewId> {
    without_id(order, id).push(id)
}

/// An in-process manager for the set of top-level webviews. It owns a
/// registry mapping identifier to payload, a focus-order sequence, a focused
/// flag, and the shown and invisible marker sets.
pub struct WebViewManager<W> {
    webviews: Vec<(WebViewId, W)>,
    focus_order: Vec<WebViewId>,
    is_focused: bool,
    shown_webviews: Vec<WebViewId>,
    invisible_webviews: Vec<WebViewId>,
}

impl<W> View for WebViewManager<W> {
    type V = ManagerView<W>;

    closed spec fn view(&self) -> ManagerView<W> {
        ManagerView {
            registry: map_of(self.webviews@),
            focus_order: self.focus_order@,
            focused: self.is_focused,
            shown: self.shown_webviews@.to_set(),
            invisible: self.invisible_webviews@.to_set(),
        }
    }
}

/// Whether `id` occurs in the identifier list.
fn id_list_contains(v: &Vec<WebViewId>, id: WebViewId) -> (r: bool)
    ensures
        r == v@.contains(id),
{
    let mut i: usize = 0;
    while i < v.len()
        invariant
            i <= v@.len(),
            forall|j: int| 0 <= j < i ==> v@[j] != id,
        decreases v@.len() - i,
    {
        if v[i] == id {
            assert(v@[i as int] == id);
            return true;
        }
        i = i + 1;
    }
    false
}

/// Adds `id` to a duplicate-free identifier list unless it is already there.
fn id_list_insert(v: &mut Vec<WebViewId>, id: WebViewId)
    requires
        old(v)@.no_duplicates(),
    ensures
        final(v)@.no_duplicates(),
        final(v)@.to_set() == old(v)@.to_set().insert(id),
{
    let present = id_list_contains(v, id);
    if !present {
        v.push(id);
        proof {
            assert forall|y: WebViewId| #[trigger]
                v@.to_set().contains(y) <==> old(v)@.to_set().insert(id).contains(y) by {
                lemma_push_contains(old(v)@, id, y);
            }
            assert(v@.to_set() =~= old(v)@.to_set().insert(id));
            assert forall|i: int, j: int|
                0 <= i < v@.len() && 0 <= j < v@.len() && i != j implies v@[i] != v@[j] by {
                if i < old(v)@.len() && j < old(v)@.len() {
                    assert(old(v)@[i] != old(v)@[j]);
                } else if j == old(v)@.len() {
                    assert(old(v)@.contains(old(v)@[i]));
                } else if i == old(v)@.len() {
                    assert(old(v)@.contains(old(v)@[j]));
                }
            }
        }
    } else {
        proof {
            assert(v@.to_set() =~= old(v)@.to_set().insert(id));
        }
    }
}

/// Removes every occurrence of `id` from an identifier list.
fn id_list_retain_ne(v: &mut Vec<WebViewId>, id: WebViewId)
    ensures
        final(v)@ == without_id(old(v)@, id),
{
    let mut out: Vec<WebViewId> = Vec::new();
    let mut i: usize = 0;
    while i < v.len()
        invariant
            i <= v@.len(),
            v@ == old(v)@,
            out@ == without_id(v@.subrange(0, i as int), id),
        decreases v@.len() - i,
    {
        proof {
            assert(v@.subrange(0, i as int + 1).drop_last() =~= v@.subrange(0, i as int));
            assert(v@.subrange(0, i as int + 1).last() == v@[i as int]);
        }
        if v[i] != id {
            out.push(v[i]);
        }
        i = i + 1;
    }
    proof {
        assert(v@.subrange(0, v@.len() as int) =~= v@);
    }
    *v = out;
}

/// Removes `id` from a duplicate-free identifier list.
fn id_list_remove(v: &mut Vec<WebViewId>, id: WebViewId)
    requires
        old(v)@.no_duplicates(),
    ensures
        final(v)@.no_duplicates(),
        final(v)@.to_set() == old(v)@.to_set().remove(id),
{
    id_list_retain_ne(v, id);
    proof {
        lemma_without_id_no_duplicates(old(v)@, id);
        assert forall|y: WebViewId| #[trigger]
            v@.to_set().contains(y) == old(v)@.to_set().remove(id).contains(y) by {
            lemma_without_id_contains(old(v)@, id, y);
        }
        assert(v@.to_set() =~= old(v)@.to_set().remove(id));
    }
}

/// The identifiers of `v` that do not occur in `excluded`, in order.
fn ids_not_in(v: &Vec<WebViewId>, excluded: &Vec<WebViewId>) -> (r: Vec<WebViewId>)
    requires
        v@.no_duplicates(),
    ensures
        r@.no_duplicates(),
        forall|y: WebViewId| #[trigger]
            r@.contains(y) <==> (v@.contains(y) && !excluded@.contains(y)),
{
    let mut out: Vec<WebViewId> = Vec::new();
    let mut i: usize = 0;
    while i < v.len()
        invariant
            i <= v@.len(),
            v@.no_duplicates(),
            out@.no_duplicates(),
            forall|y: WebViewId| #[trigger]
                out@.contains(y) <==> (v@.subrange(0, i as int).contains(y)
                    && !excluded@.contains(y)),
        decreases v@.len() - i,
    {
        let ghost prefix = v@.subrange(0, i as int);
        let ghost out_before = out@;
        proof {
            assert(v@.subrange(0, i as int + 1) =~= prefix.push(v@[i as int]));
        }
        let excluded_here = id_list_contains(excluded, v[i]);
        if !excluded_here {
            proof {
                assert(!prefix.contains(v@[i as int])) by {
                    if prefix.contains(v@[i as int]) {
                        let j = choose|j: int| 0 <= j < prefix.len() && prefix[j] == v@[i as int];
                        assert(v@[j] == v@[i as int]);
                    }
                }
                lemma_push_no_duplicates(out@, v@[i as int]);
            }
            out.push(v[i]);
        }
        proof {
            assert forall|y: WebViewId| #[trigger]
                out@.contains(y) == (v@.subrange(0, i as int + 1).contains(y)
                    && !excluded@.contains(y)) by {
                lemma_push_contains(prefix, v@[i as int], y);
                if !excluded@.contains(v@[i as int]) {
                    lemma_push_contains(out_before, v@[i as int], y);
                }
            }
        }
        i = i + 1;
    }
    proof {
        assert(v@.subrange(0, v@.len() as int) =~= v@);
    }
    out
}

/// The position of the entry carrying `id`, if one exists.
fn key_position<W>(v: &Vec<(WebViewId, W)>, id: WebViewId) -> (r: Option<usize>)
    ensures
        match r {
            Some(i) => i < v@.len() && v@[i as int].0 == id,
            None => forall|j: int| 0 <= j < v@.len() ==> (#[trigger] v@[j]).0 != id,
        },
{
    let mut i: usize = 0;
    while i < v.len()
        invariant
            i <= v@.len(),
            forall|j: int| 0 <= j < i ==> (#[trigger] v@[j]).0 != id,
        decreases v@.len() - i,
    {
        if v[i].0 == id {
            return Some(i);
        }
        i = i + 1;
    }
    None
}

impl<W> WebViewManager<W> {
    /// The representation invariant: distinct registry keys, duplicate-free
    /// identifier lists, and a well-formed abstract state.
    pub closed spec fn inv(&self) -> bool {
        &&& keys_distinct(self.webviews@)
        &&& self.focus_order@.no_duplicates()
        &&& self.shown_webviews@.no_duplicates()
        &&& self.invisible_webviews@.no_duplicates()
        &&& self@.wf()
    }

    /// Inserts or overwrites the registry entry for `id`. Focus order, the
    /// focused flag, and the marker sets are untouched.
    pub fn add(&mut self, id: WebViewId, webview: W)
        requires
            old(self).inv(),
        ensures
            final(self).inv(),
            final(self)@.registry == old(self)@.registry.insert(id, webview),
            final(self)@.focus_order == old(self)@.focus_order,
            final(self)@.focused == old(self)@.focused,
            final(self)@.shown == old(self)@.shown,
            final(self)@.invisible == old(self)@.invisible,
    {
        let position = key_position(&self.webviews, id);
        match position {
            Some(i) => {
                proof {
                    lemma_map_of_update(old(self).webviews@, i as int, webview);
                    lemma_keys_distinct_update(old(self).webviews@, i as int, webview);
                    lemma_map_of_index(old(self).webviews@, i as int);
                }
                self.webviews.set(i, (id, webview));
                proof {
                    assert(self.webviews@ == old(self).webviews@.update(
                        i as int,
                        (old(self).webviews@[i as int].0, webview),
                    ));
                    assert(self@.registry.dom() =~= old(self)@.registry.dom());
                }
            },
            None => {
                proof {
                    lemma_map_of_dom(old(self).webviews@, id);
                    lemma_map_of_push(old(self).webviews@, id, webview);
                }
                self.webviews.push((id, webview));
                proof {
                    assert forall|p: int, q: int|
                        0 <= p < self.webviews@.len() && 0 <= q < self.webviews@.len() && p
                            != q implies (#[trigger] self.webviews@[p]).0
                        != (#[trigger] self.webviews@[q]).0 by {
                        if p < old(self).webviews@.len() && q < old(self).webviews@.len() {
                            assert(old(self).webviews@[p].0 != old(self).webviews@[q].0);
                        }
                    }
                    assert(self@.registry.dom() =~= old(self)@.registry.dom().insert(id));
                    self.lemma_wider_registry_keeps_wf(old(self));
                }
            },
        }
    }

    /// Growing the registry while the other components stay put preserves
    /// well-formedness.
    proof fn lemma_wider_registry_keeps_wf(&self, prior: &Self)
        requires
            prior.inv(),
            self@.focus_order == prior@.focus_order,
            self@.focused == prior@.focused,
            self@.shown == prior@.shown,
            self@.invisible == prior@.invisible,
            prior@.registry.dom().subset_of(self@.registry.dom()),
        ensures
            self@.focus_order.to_set().subset_of(self@.registry.dom()),
            self@.shown.subset_of(self@.registry.dom()),
            self@.invisible.subset_of(self@.registry.dom()),
            self@.focused ==> self@.focus_order.len() > 0 && self@.registry.dom().contains(
                self@.focus_order.last(),
            ),
    {
        assert forall|x: WebViewId| #[trigger]
            self@.focus_order.to_set().contains(x) implies self@.registry.dom().contains(x) by {
            assert(prior@.focus_order.to_set().contains(x));
            assert(prior@.registry.dom().contains(x));
        }
        assert forall|x: WebViewId| #[trigger]
            self@.shown.contains(x) implies self@.registry.dom().contains(x) by {
            assert(prior@.shown.contains(x));
            assert(prior@.registry.dom().contains(x));
        }
        assert forall|x: WebViewId| #[trigger]
            self@.invisible.contains(x) implies self@.registry.dom().contains(x) by {
            assert(prior@.invisible.contains(x));
            assert(prior@.registry.dom().contains(x));
        }
        if self@.focused {
            assert(prior@.registry.dom().contains(prior@.focus_order.last()));
        }
    }

    /// Read access to the payload registered for `id`, or absence if `id` is
    /// not registered. No side effects.
    pub fn get(&self, id: WebViewId) -> (r: Option<&W>)
        requires
            self.inv(),
        ensures
            match r {
                Some(w) => self@.registry.dom().contains(id) && *w == self@.registry[id],
                None => !self@.registry.dom().contains(id),
            },
    {
        let position = key_position(&self.webviews, id);
        match position {
            Some(i) => {
                proof {
                    lemma_map_of_index(self.webviews@, i as int);
                }
                Some(&self.webviews[i].1)
            },
            None => {
                proof {
                    lemma_map_of_dom(self.webviews@, id);
                }
                None
            },
        }
    }

    /// The invariant, which every operation establishes and preserves, makes
    /// the abstract state well formed. In particular the focus order never
    /// contains a duplicate identifier, whatever sequence of calls produced
    /// the current state.
    pub proof fn lemma_well_formed(&self)
        requires
            self.inv(),
        ensures
            self@.wf(),
            self@.focus_order.no_duplicates(),
    {
    }

    /// Every overwrite of the payload at a registered entry keeps the
    /// abstract state well formed, whatever value the overwrite brings.
    proof fn lemma_payload_overwrite_wf(&self, i: int)
        requires
            self.inv(),
            0 <= i < self.webviews@.len(),
        ensures
            forall|v: W|
                (ManagerView {
                    registry: map_of(
                        #[trigger] self.webviews@.update(i, (self.webviews@[i].0, v)),
                    ),
                    focus_order: self@.focus_order,
                    focused: self@.focused,
                    shown: self@.shown,
                    invisible: self@.invisible,
                }).wf(),
    {
        assert forall|v: W|
            (ManagerView {
                registry: map_of(#[trigger] self.webviews@.update(i, (self.webviews@[i].0, v))),
                focus_order: self@.focus_order,
                focused: self@.focused,
                shown: self@.shown,
                invisible: self@.invisible,
            }).wf() by {
            lemma_map_of_index(self.webviews@, i);
            lemma_map_of_update(self.webviews@, i, v);
            assert(map_of(self.webviews@.update(i, (self.webviews@[i].0, v))).dom() =~= map_of(
                self.webviews@,
            ).dom());
        }
    }

    /// Mutable access to the payload registered for `id`, or absence if `id`
    /// is not registered. No other state is touched.
    pub fn get_mut(&mut self, id: WebViewId) -> (r: Option<&mut W>)
        requires
            old(self).inv(),
        ensures
            match r {
                Some(w) => old(self)@.registry.dom().contains(id) && *w
                    == old(self)@.registry[id] && final(self).inv() && final(self)@.registry
                    == old(self)@.registry.insert(id, *final(w)) && final(self)@.focus_order
                    == old(self)@.focus_order && final(self)@.focused == old(self)@.focused
                    && final(self)@.shown == old(self)@.shown && final(self)@.invisible
                    == old(self)@.invisible,
                None => !old(self)@.registry.dom().contains(id) && final(self).inv()
                    && final(self)@ == old(self)@,
            },
    {
        let position = key_position(&self.webviews, id);
        match position {
            Some(i) => {
                proof {
                    lemma_map_of_index(old(self).webviews@, i as int);
                    lemma_map_of_update_all::<W>(old(self).webviews@, i as int);
                    self.lemma_payload_overwrite_wf(i as int);
                }
                let entry = &mut self.webviews[i];
                Some(payload_mut(entry))
            },
            None => {
                proof {
                    lemma_map_of_dom(self.webviews@, id);
                }
                None
            },
        }
    }

    /// Deletes `id` from the registry, from the focus order, and from both
    /// marker sets. Clears the focused flag exactly when `id` was the tail of
    /// the focus order. Returns the removed payload, or absence if `id` was
    /// not registered.
    pub fn remove(&mut self, id: WebViewId) -> (r: Option<W>)
        requires
            old(self).inv(),
        ensures
            final(self).inv(),
            final(self)@.registry == old(self)@.registry.remove(id),
            final(self)@.focus_order == without_id(old(self)@.focus_order, id),
            final(self)@.focused == (old(self)@.focused && !(old(self)@.focus_order.len() > 0
                && old(self)@.focus_order.last() == id)),
            final(self)@.shown == old(self)@.shown.remove(id),
            final(self)@.invisible == old(self)@.invisible.remove(id),
            r == if old(self)@.registry.dom().contains(id) {
                Some(old(self)@.registry[id])
            } else {
                None::<W>
            },
    {
        if self.focus_order.len() > 0 {
            let tail = self.focus_order[self.focus_order.len() - 1];
            if tail == id {
                self.is_focused = false;
            }
        }
        id_list_retain_ne(&mut self.focus_order, id);
        id_list_remove(&mut self.shown_webviews, id);
        id_list_remove(&mut self.invisible_webviews, id);
        proof {
            lemma_without_id_no_duplicates(old(self).focus_order@, id);
        }
        let position = key_position(&self.webviews, id);
        let result = match position {
            Some(i) => {
                proof {
                    lemma_map_of_index(old(self).webviews@, i as int);
                    lemma_map_of_remove(old(self).webviews@, i as int);
                    lemma_keys_distinct_remove(old(self).webviews@, i as int);
                }
                let entry = self.webviews.remove(i);
                Some(entry.1)
            },
            None => {
                proof {
                    lemma_map_of_dom(old(self).webviews@, id);
                    assert(map_of(old(self).webviews@).remove(id) =~= map_of(
                        old(self).webviews@,
                    ));
                }
                None
            },
        };
        proof {
            self.lemma_remove_restores_wf(old(self), id);
        }
        result
    }

    /// After the removal surgery above, the representation is well formed
    /// again: every surviving identifier is still registered.
    proof fn lemma_remove_restores_wf(&self, prior: &Self, id: WebViewId)
        requires
            prior.inv(),
            keys_distinct(self.webviews@),
            self.focus_order@ == without_id(prior.focus_order@, id),
            self.focus_order@.no_duplicates(),
            self.shown_webviews@.no_duplicates(),
            self.invisible_webviews@.no_duplicates(),
            self@.registry == prior@.registry.remove(id),
            self@.shown == prior@.shown.remove(id),
            self@.invisible == prior@.invisible.remove(id),
            self@.focused == (prior@.focused && !(prior@.focus_order.len() > 0
                && prior@.focus_order.last() == id)),
        ensures
            self.inv(),
    {
        assert forall|y: WebViewId| #[trigger]
            self@.focus_order.to_set().contains(y) implies self@.registry.dom().contains(y) by {
            lemma_without_id_contains(prior@.focus_order, id, y);
            assert(prior@.focus_order.to_set().contains(y));
            assert(prior@.registry.dom().contains(y));
        }
        assert forall|y: WebViewId| #[trigger]
            self@.shown.contains(y) implies self@.registry.dom().contains(y) by {
            assert(prior@.shown.contains(y));
            assert(prior@.registry.dom().contains(y));
        }
        assert forall|y: WebViewId| #[trigger]
            self@.invisible.contains(y) implies self@.registry.dom().contains(y) by {
            assert(prior@.invisible.contains(y));
            assert(prior@.registry.dom().contains(y));
        }
        if self@.focused {
            let order = prior@.focus_order;
            assert(order.len() > 0 && order.last() != id);
            assert(without_id(order, id) == without_id(order.drop_last(), id).push(order.last()));
            assert(self@.focus_order.last() == order.last());
            assert(prior@.registry.dom().contains(order.last()));
        }
    }

    /// Removes any old occurrence of `id` from the focus order, appends `id`
    /// at the tail, and sets the focused flag. `id` must be registered.
    pub fn focus(&mut self, id: WebViewId)
        requires
            old(self).inv(),
            old(self)@.registry.dom().contains(id),
        ensures
            final(self).inv(),
            final(self)@.registry == old(self)@.registry,
            final(self)@.focus_order == focus_order_after(old(self)@.focus_order, id),
            final(self)@.focused,
            final(self)@.shown == old(self)@.shown,
            final(self)@.invisible == old(self)@.invisible,
    {
        id_list_retain_ne(&mut self.focus_order, id);
        self.focus_order.push(id);
        self.is_focused = true;
        proof {
            let order = old(self).focus_order@;
            lemma_without_id_no_duplicates(order, id);
            lemma_without_id_contains(order, id, id);
            lemma_push_no_duplicates(without_id(order, id), id);
            assert forall|y: WebViewId| #[trigger]
                self@.focus_order.to_set().contains(y) implies self@.registry.dom().contains(
                y,
            ) by {
                lemma_push_contains(without_id(order, id), id, y);
                if y != id {
                    lemma_without_id_contains(order, id, y);
                    assert(order.to_set().contains(y));
                    assert(old(self)@.registry.dom().contains(y));
                }
            }
        }
    }

    /// Clears the focused flag. The focus order is untouched.
    pub fn unfocus(&mut self)
        requires
            old(self).inv(),
        ensures
            final(self).inv(),
            final(self)@.registry == old(self)@.registry,
            final(self)@.focus_order == old(self)@.focus_order,
            !final(self)@.focused,
            final(self)@.shown == old(self)@.shown,
            final(self)@.invisible == old(self)@.invisible,
    {
        self.is_focused = false;
    }

    /// If the focused flag is set, the tail of the focus order paired with
    /// its payload; absent exactly when the flag is clear.
    pub fn focused_webview(&self) -> (r: Option<(WebViewId, &W)>)
        requires
            self.inv(),
        ensures
            match r {
                Some(p) => self@.focused && self@.focus_order.len() > 0 && p.0
                    == self@.focus_order.last() && self@.registry.dom().contains(p.0) && *p.1
                    == self@.registry[p.0],
                None => !self@.focused,
            },
    {
        if !self.is_focused {
            return None;
        }
        let tail = self.focus_order[self.focus_order.len() - 1];
        proof {
            assert(self@.focus_order.to_set().contains(tail));
        }
        let position = key_position(&self.webviews, tail);
        match position {
            Some(i) => {
                proof {
                    lemma_map_of_index(self.webviews@, i as int);
                }
                Some((tail, &self.webviews[i].1))
            },
            None => {
                proof {
                    lemma_map_of_dom(self.webviews@, tail);
                    assert(false);
                }
                None
            },
        }
    }

    /// Inserts `id` into the shown set. Returns true exactly when the
    /// insertion flipped `id`'s effective visibility. `id` must be registered.
    pub fn mark_webview_shown(&mut self, id: WebViewId) -> (r: bool)
        requires
            old(self).inv(),
            old(self)@.registry.dom().contains(id),
        ensures
            final(self).inv(),
            final(self)@.registry == old(self)@.registry,
            final(self)@.focus_order == old(self)@.focus_order,
            final(self)@.focused == old(self)@.focused,
            final(self)@.shown == old(self)@.shown.insert(id),
            final(self)@.invisible == old(self)@.invisible,
            r == (final(self)@.effectively_visible(id) != old(self)@.effectively_visible(id)),
    {
        let before = self.is_effectively_visible(id);
        id_list_insert(&mut self.shown_webviews, id);
        proof {
            assert forall|x: WebViewId| #[trigger]
                self@.shown.contains(x) implies self@.registry.dom().contains(x) by {
                if x != id {
                    assert(old(self)@.shown.contains(x));
                    assert(old(self)@.registry.dom().contains(x));
                }
            }
        }
        let after = self.is_effectively_visible(id);
        after != before
    }

    /// Removes `id` from the shown set. Returns true exactly when the removal
    /// flipped `id`'s effective visibility. `id` must be registered.
    pub fn mark_webview_not_shown(&mut self, id: WebViewId) -> (r: bool)
        requires
            old(self).inv(),
            old(self)@.registry.dom().contains(id),
        ensures
            final(self).inv(),
            final(self)@.registry == old(self)@.registry,
            final(self)@.focus_order == old(self)@.focus_order,
            final(self)@.focused == old(self)@.focused,
            final(self)@.shown == old(self)@.shown.remove(id),
            final(self)@.invisible == old(self)@.invisible,
            r == (final(self)@.effectively_visible(id) != old(self)@.effectively_visible(id)),
    {
        let before = self.is_effectively_visible(id);
        id_list_remove(&mut self.shown_webviews, id);
        proof {
            assert forall|x: WebViewId| #[trigger]
                self@.shown.contains(x) implies self@.registry.dom().contains(x) by {
                assert(old(self)@.shown.contains(x));
                assert(old(self)@.registry.dom().contains(x));
            }
        }
        let after = self.is_effectively_visible(id);
        after != before
    }

    /// Inserts `id` into the invisible set. Returns true exactly when the
    /// insertion flipped `id`'s effective visibility. `id` must be registered.
    pub fn mark_webview_invisible(&mut self, id: WebViewId) -> (r: bool)
        requires
            old(self).inv(),
            old(self)@.registry.dom().contains(id),
        ensures
            final(self).inv(),
            final(self)@.registry == old(self)@.registry,
            final(self)@.focus_order == old(self)@.focus_order,
            final(self)@.focused == old(self)@.focused,
            final(self)@.shown == old(self)@.shown,
            final(self)@.invisible == old(self)@.invisible.insert(id),
            r == (final(self)@.effectively_visible(id) != old(self)@.effectively_visible(id)),
    {
        let before = self.is_effectively_visible(id);
        id_list_insert(&mut self.invisible_webviews, id);
        proof {
            assert forall|x: WebViewId| #[trigger]
                self@.invisible.contains(x) implies self@.registry.dom().contains(x) by {
                if x != id {
                    assert(old(self)@.invisible.contains(x));
                    assert(old(self)@.registry.dom().contains(x));
                }
            }
        }
        let after = self.is_effectively_visible(id);
        after != before
    }

    /// Removes `id` from the invisible set. Returns true exactly when the
    /// removal flipped `id`'s effective visibility. `id` must be registered.
    pub fn mark_webview_not_invisible(&mut self, id: WebViewId) -> (r: bool)
        requires
            old(self).inv(),
            old(self)@.registry.dom().contains(id),
        ensures
            final(self).inv(),
            final(self)@.registry == old(self)@.registry,
            final(self)@.focus_order == old(self)@.focus_order,
            final(self)@.focused == old(self)@.focused,
            final(self)@.shown == old(self)@.shown,
            final(self)@.invisible == old(self)@.invisible.remove(id),
            r == (final(self)@.effectively_visible(id) != old(self)@.effectively_visible(id)),
    {
        let before = self.is_effectively_visible(id);
        id_list_remove(&mut self.invisible_webviews, id);
        proof {
            assert forall|x: WebViewId| #[trigger]
                self@.invisible.contains(x) implies self@.registry.dom().contains(x) by {
                assert(old(self)@.invisible.contains(x));
                assert(old(self)@.registry.dom().contains(x));
            }
        }
        let after = self.is_effectively_visible(id);
        after != before
    }

    /// Empties the shown set in one step. Returns exactly the previously
    /// shown identifiers whose effective visibility actually changed, that
    /// is, those that were not also marked invisible.
    pub fn mark_all_webviews_not_shown(&mut self) -> (r: Vec<WebViewId>)
        requires
            old(self).inv(),
        ensures
            final(self).inv(),
            final(self)@.registry == old(self)@.registry,
            final(self)@.focus_order == old(self)@.focus_order,
            final(self)@.focused == old(self)@.focused,
            final(self)@.shown == Set::<WebViewId>::empty(),
            final(self)@.invisible == old(self)@.invisible,
            r@.no_duplicates(),
            r@.to_set() == old(self)@.shown.difference(old(self)@.invisible),
    {
        let result = ids_not_in(&self.shown_webviews, &self.invisible_webviews);
        self.shown_webviews = Vec::new();
        proof {
            assert(self@.shown =~= Set::<WebViewId>::empty());
            assert(result@.to_set() =~= old(self)@.shown.difference(old(self)@.invisible));
            assert forall|x: WebViewId| #[trigger]
                self@.shown.contains(x) implies self@.registry.dom().contains(x) by {}
        }
        result
    }

    /// Whether `id` is marked shown and not marked invisible. `id` must be
    /// registered. Pure query, no side effects.
    pub fn is_effectively_visible(&self, id: WebViewId) -> (r: bool)
        requires
            self.inv(),
            self@.registry.dom().contains(id),
        ensures
            r == self@.effectively_visible(id),
    {
        let shown = id_list_contains(&self.shown_webviews, id);
        let invisible = id_list_contains(&self.invisible_webviews, id);
        shown && !invisible
    }

    /// The registered identifiers, oldest registration first.
    pub fn webview_ids(&self) -> (r: Vec<WebViewId>)
        requires
            self.inv(),
        ensures
            r@.no_duplicates(),
            forall|y: WebViewId| #[trigger] r@.contains(y) <==> self@.registry.dom().contains(y),
    {
        let mut out: Vec<WebViewId> = Vec::new();
        let mut i: usize = 0;
        while i < self.webviews.len()
            invariant
                i <= self.webviews@.len(),
                out@.len() == i,
                forall|j: int| 0 <= j < i ==> out@[j] == (#[trigger] self.webviews@[j]).0,
            decreases self.webviews@.len() - i,
        {
            out.push(self.webviews[i].0);
            i = i + 1;
        }
        proof {
            assert forall|p: int, q: int|
                0 <= p < out@.len() && 0 <= q < out@.len() && p != q implies out@[p]
                != out@[q] by {
                assert(self.webviews@[p].0 != self.webviews@[q].0);
            }
            assert forall|y: WebViewId| #[trigger]
                out@.contains(y) == self@.registry.dom().contains(y) by {
                lemma_map_of_dom(self.webviews@, y);
                if out@.contains(y) {
                    let j = choose|j: int| 0 <= j < out@.len() && out@[j] == y;
                    assert(self.webviews@[j].0 == y);
                }
                if exists|j: int|
                    0 <= j < self.webviews@.len() && (#[trigger] self.webviews@[j]).0 == y {
                    let j = choose|j: int|
                        0 <= j < self.webviews@.len() && (#[trigger] self.webviews@[j]).0 == y;
                    assert(out@[j] == y);
                }
            }
        }
        out
    }

    /// The focus order, oldest first; the tail is the most recently focused.
    pub fn focus_order(&self) -> (r: Vec<WebViewId>)
        ensures
            r@ == self@.focus_order,
    {
        copy_ids(&self.focus_order)
    }

    /// Whether the tail of the focus order is currently focused.
    pub fn is_focused(&self) -> (r: bool)
        ensures
            r == self@.focused,
    {
        self.is_focused
    }

    /// The identifiers currently in the shown set.
    pub fn shown_webviews(&self) -> (r: Vec<WebViewId>)
        requires
            self.inv(),
        ensures
            r@.no_duplicates(),
            r@.to_set() == self@.shown,
    {
        copy_ids(&self.shown_webviews)
    }

    /// The identifiers currently in the invisible set.
    pub fn invisible_webviews(&self) -> (r: Vec<WebViewId>)
        requires
            self.inv(),
        ensures
            r@.no_duplicates(),
            r@.to_set() == self@.invisible,
    {
        copy_ids(&self.invisible_webviews)
    }
}


/// Mutable access to the payload component of a registry entry.
fn payload_mut<W>(entry: &mut (WebViewId, W)) -> (r: &mut W)
    ensures
        *r == old(entry).1,
        *final(entry) == (old(entry).0, *final(r)),
{
    &mut entry.1
}

/// An element-wise copy of an identifier list.
fn copy_ids(v: &Vec<WebViewId>) -> (r: Vec<WebViewId>)
    ensures
        r@ == v@,
{
    let mut out: Vec<WebViewId> = Vec::new();
    let mut i: usize = 0;
    while i < v.len()
        invariant
            i <= v@.len(),
            out@.len() == i,
            forall|j: int| 0 <= j < i ==> out@[j] == v@[j],
        decreases v@.len() - i,
    {
        out.push(v[i]);
        i = i + 1;
    }
    proof {
        assert(out@ =~= v@);
    }
    out
}

impl<W> Default for WebViewManager<W> {
    /// A fresh, empty registry: nothing registered, nothing focused, nothing
    /// marked.
    fn default() -> (r: Self)
        ensures
            r.inv(),
            r@.registry == Map::<WebViewId, W>::empty(),
            r@.focus_order == Seq::<WebViewId>::empty(),
            !r@.focused,
            r@.shown == Set::<WebViewId>::empty(),
            r@.invisible == Set::<WebViewId>::empty(),
    {
        let r = WebViewManager {
            webviews: Vec::new(),
            focus_order: Vec::new(),
            is_focused: false,
            shown_webviews: Vec::new(),
            invisible_webviews: Vec::new(),
        };
        proof {
            assert(r@.registry =~= Map::<WebViewId, W>::empty());
            assert(r@.focus_order =~= Seq::<WebViewId>::empty());
            assert(r@.shown =~= Set::<WebViewId>::empty());
            assert(r@.invisible =~= Set::<WebViewId>::empty());
            assert forall|x: WebViewId| #[trigger]
                r@.focus_order.to_set().contains(x) implies r@.registry.dom().contains(x) by {}
            assert forall|x: WebViewId| #[trigger]
                r@.shown.contains(x) implies r@.registry.dom().contains(x) by {}
            assert forall|x: WebViewId| #[trigger]
                r@.invisible.contains(x) implies r@.registry.dom().contains(x) by {}
        }
        r
    }
}

} // verus!
