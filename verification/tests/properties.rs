use webview_registry::WebViewId;
use webview_registry::WebViewManager;

fn id(namespace_id: u32, index: u32) -> WebViewId {
    WebViewId::new(namespace_id, index)
}

fn sorted(mut v: Vec<WebViewId>) -> Vec<WebViewId> {
    v.sort();
    v
}

#[test]
fn default_state_is_empty() {
    let webviews: WebViewManager<u32> = WebViewManager::default();
    assert!(webviews.webview_ids().is_empty());
    assert!(webviews.focus_order().is_empty());
    assert_eq!(webviews.is_focused(), false);
    assert!(webviews.shown_webviews().is_empty());
    assert!(webviews.invisible_webviews().is_empty());
    assert!(webviews.get(id(0, 1)).is_none());
    assert!(webviews.focused_webview().is_none());
}

#[test]
fn add_then_get_yields_payload() {
    let mut webviews = WebViewManager::default();
    webviews.add(id(7, 1), "payload");
    assert_eq!(webviews.get(id(7, 1)), Some(&"payload"));
}

#[test]
fn add_overwrites_payload_only() {
    let mut webviews = WebViewManager::default();
    webviews.add(id(7, 1), 'x');
    webviews.focus(id(7, 1));
    webviews.mark_webview_shown(id(7, 1));
    webviews.add(id(7, 1), 'y');
    assert_eq!(webviews.get(id(7, 1)), Some(&'y'));
    assert_eq!(webviews.focus_order(), vec![id(7, 1)]);
    assert_eq!(webviews.is_focused(), true);
    assert_eq!(webviews.shown_webviews(), vec![id(7, 1)]);
}

#[test]
fn add_then_remove_then_get_yields_absence() {
    let mut webviews = WebViewManager::default();
    webviews.add(id(7, 2), 41u64);
    assert_eq!(webviews.remove(id(7, 2)), Some(41u64));
    assert!(webviews.get(id(7, 2)).is_none());
}

#[test]
fn remove_unregistered_yields_absence() {
    let mut webviews: WebViewManager<char> = WebViewManager::default();
    assert_eq!(webviews.remove(id(9, 9)), None);
}

#[test]
fn get_mut_updates_payload() {
    let mut webviews = WebViewManager::default();
    webviews.add(id(5, 1), 10u32);
    if let Some(payload) = webviews.get_mut(id(5, 1)) {
        *payload = 11;
    } else {
        panic!("Incorrect test case");
    }
    assert_eq!(webviews.get(id(5, 1)), Some(&11));
    assert!(webviews.get_mut(id(5, 2)).is_none());
}

#[test]
fn double_focus_keeps_single_occurrence_at_tail() {
    let mut webviews = WebViewManager::default();
    webviews.add(id(1, 1), 'a');
    webviews.add(id(1, 2), 'b');
    webviews.focus(id(1, 1));
    webviews.focus(id(1, 2));
    webviews.focus(id(1, 2));
    assert_eq!(webviews.focus_order(), vec![id(1, 1), id(1, 2)]);
    assert_eq!(webviews.is_focused(), true);
}

#[test]
fn focused_webview_follows_flag_and_tail() {
    let mut webviews = WebViewManager::default();
    webviews.add(id(2, 1), 'a');
    webviews.add(id(2, 2), 'b');
    assert!(webviews.focused_webview().is_none());
    webviews.focus(id(2, 1));
    webviews.focus(id(2, 2));
    assert_eq!(webviews.focused_webview(), Some((id(2, 2), &'b')));
    webviews.unfocus();
    assert!(webviews.focused_webview().is_none());
    webviews.focus(id(2, 1));
    assert_eq!(webviews.focused_webview(), Some((id(2, 1), &'a')));
}

#[test]
fn remove_clears_focused_flag_iff_tail() {
    // Register W. focus(W), then remove(W): the focused flag falls and every
    // structure excludes W.
    let mut webviews = WebViewManager::default();
    webviews.add(id(3, 1), 'w');
    webviews.focus(id(3, 1));
    assert_eq!(webviews.is_focused(), true);
    webviews.mark_webview_shown(id(3, 1));
    webviews.mark_webview_invisible(id(3, 1));
    assert_eq!(webviews.remove(id(3, 1)), Some('w'));
    assert_eq!(webviews.is_focused(), false);
    assert!(webviews.webview_ids().is_empty());
    assert!(webviews.focus_order().is_empty());
    assert!(webviews.shown_webviews().is_empty());
    assert!(webviews.invisible_webviews().is_empty());
}

#[test]
fn remove_non_tail_keeps_focused_flag() {
    let mut webviews = WebViewManager::default();
    webviews.add(id(3, 1), 'a');
    webviews.add(id(3, 2), 'b');
    webviews.focus(id(3, 1));
    webviews.focus(id(3, 2));
    webviews.remove(id(3, 1));
    assert_eq!(webviews.is_focused(), true);
    assert_eq!(webviews.focus_order(), vec![id(3, 2)]);
    // Removing the tail while the flag is already clear keeps it clear.
    webviews.unfocus();
    webviews.remove(id(3, 2));
    assert_eq!(webviews.is_focused(), false);
}

#[test]
fn focus_order_tracking() {
    // Register A, B, C. focus(B); focus(A); focus(C): order [B, A, C].
    // unfocus() leaves the order; focus(A) moves A to the tail, no duplicate.
    let mut webviews = WebViewManager::default();
    let a = id(4, 1);
    let b = id(4, 2);
    let c = id(4, 3);
    webviews.add(a, 'a');
    webviews.add(b, 'b');
    webviews.add(c, 'c');
    webviews.focus(b);
    webviews.focus(a);
    webviews.focus(c);
    assert_eq!(webviews.focus_order(), vec![b, a, c]);
    assert_eq!(webviews.is_focused(), true);
    webviews.unfocus();
    assert_eq!(webviews.focus_order(), vec![b, a, c]);
    assert_eq!(webviews.is_focused(), false);
    webviews.focus(a);
    assert_eq!(webviews.focus_order(), vec![b, c, a]);
    assert_eq!(webviews.is_focused(), true);
}

#[test]
fn invisible_masks_shown() {
    // Register X. mark_webview_invisible(X): shown {}, invisible {X}.
    // mark_webview_shown(X) returns false; unmarking invisible returns true.
    let mut webviews = WebViewManager::default();
    let x = id(5, 1);
    webviews.add(x, 'x');
    webviews.mark_webview_invisible(x);
    assert!(webviews.shown_webviews().is_empty());
    assert_eq!(webviews.invisible_webviews(), vec![x]);
    assert_eq!(webviews.mark_webview_shown(x), false);
    assert_eq!(webviews.mark_webview_not_invisible(x), true);
    assert_eq!(webviews.is_effectively_visible(x), true);
}

#[test]
fn mark_all_excludes_already_invisible() {
    // Register Y, Z; show both; mark Z invisible. The bulk clear empties the
    // shown set and reports exactly {Y}.
    let mut webviews = WebViewManager::default();
    let y = id(6, 1);
    let z = id(6, 2);
    webviews.add(y, 'y');
    webviews.add(z, 'z');
    webviews.mark_webview_shown(y);
    webviews.mark_webview_shown(z);
    webviews.mark_webview_invisible(z);
    let changed = webviews.mark_all_webviews_not_shown();
    assert!(webviews.shown_webviews().is_empty());
    assert_eq!(changed, vec![y]);
    // A second bulk clear changes nothing.
    let changed_again = webviews.mark_all_webviews_not_shown();
    assert!(changed_again.is_empty());
}

#[test]
fn mark_calls_report_exactly_the_flips() {
    let mut webviews = WebViewManager::default();
    let v = id(8, 1);
    webviews.add(v, 'v');
    assert_eq!(webviews.mark_webview_shown(v), true);
    assert_eq!(webviews.mark_webview_shown(v), false);
    assert_eq!(webviews.mark_webview_invisible(v), true);
    assert_eq!(webviews.mark_webview_invisible(v), false);
    assert_eq!(webviews.mark_webview_not_shown(v), false);
    assert_eq!(webviews.mark_webview_not_shown(v), false);
    assert_eq!(webviews.mark_webview_not_invisible(v), false);
    assert_eq!(webviews.mark_webview_shown(v), true);
    assert_eq!(webviews.mark_webview_not_shown(v), true);
}

#[test]
fn effective_visibility_is_shown_and_not_invisible() {
    let mut webviews = WebViewManager::default();
    let neither = id(9, 1);
    let shown = id(9, 2);
    let invisible = id(9, 3);
    let both = id(9, 4);
    webviews.add(neither, ' ');
    webviews.add(shown, ' ');
    webviews.add(invisible, ' ');
    webviews.add(both, ' ');
    webviews.mark_webview_shown(shown);
    webviews.mark_webview_shown(both);
    webviews.mark_webview_invisible(invisible);
    webviews.mark_webview_invisible(both);
    assert_eq!(webviews.is_effectively_visible(neither), false);
    assert_eq!(webviews.is_effectively_visible(shown), true);
    assert_eq!(webviews.is_effectively_visible(invisible), false);
    assert_eq!(webviews.is_effectively_visible(both), false);
    assert_eq!(
        sorted(webviews.shown_webviews()),
        sorted(vec![shown, both])
    );
    assert_eq!(
        sorted(webviews.invisible_webviews()),
        sorted(vec![invisible, both])
    );
}
