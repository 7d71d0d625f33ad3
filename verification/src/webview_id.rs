use vstd::prelude::*;

verus! {

/// An opaque, totally ordered identifier naming a top-level webview.
///
/// Identifiers are produced by an external namespace authority: a namespace
/// number together with an index inside that namespace. The registry never
/// generates identifiers; it only consumes already-validated ones.
#[derive(Clone, Copy, Debug, Hash, PartialEq, Eq, Structural, PartialOrd, Ord)]
pub struct WebViewId {
    pub namespace_id: u32,
    pub index: u32,
}

impl WebViewId {
    pub fn new(namespace_id: u32, index: u32) -> (r: WebViewId)
        ensures
            r == (WebViewId { namespace_id, index }),
    {
        WebViewId { namespace_id, index }
    }
}

} // verus!
