//! An in-process registry for a browsing engine's top-level renderable views
//! ("webviews"). It is the single source of truth for three facts about each
//! webview: its registered existence and payload, its position in a
//! most-recently-focused ordering, and its effective visibility, derived from
//! two independently toggled signals ("shown" and "marked invisible").

mod assoc;
mod laws;
mod manager;
mod seqs;
mod webview_id;

pub use laws::lemma_add_then_get;
pub use laws::lemma_add_then_remove_then_get;
pub use laws::lemma_focus_order_after_idempotent;
pub use manager::focus_order_after;
pub use manager::ManagerView;
pub use manager::WebViewManager;
pub use seqs::without_id;
pub use webview_id::WebViewId;
