//! A view together with its template and its skip-diff decisions.
use vstd::prelude::*;
use crate::node::{same_node, same_tree, Node};
use crate::skip_diff::SkipDiff;

verus! {

/// A view, the template extracted from it, and the decisions that say
/// which of its positions diffing can skip.
pub struct TemplatedView {
    /// The view.
    pub view: Node,
    /// The template of the view.
    pub template: Node,
    /// The skip-diff decisions for the view.
    pub skip_diff: SkipDiff,
}

impl PartialEq for TemplatedView {
    /// Two templated views are equal when their views are.
    fn eq(&self, other: &TemplatedView) -> (r: bool) {
        same_tree(&self.view, &other.view)
    }
}

impl vstd::std_specs::cmp::PartialEqSpecImpl for TemplatedView {
    open spec fn obeys_eq_spec() -> bool {
        true
    }

    open spec fn eq_spec(&self, other: &TemplatedView) -> bool {
        same_node(self.view, other.view)
    }
}

impl Eq for TemplatedView {}

} // verus!
