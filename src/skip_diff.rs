//! The skip-diff decision tree: one precomputed decision per position of
//! the new tree, saying whether diffing can skip that position.
use vstd::prelude::*;
use crate::tree_path::{lemma_paths_view_append, paths_view, TreePath};

verus! {

broadcast use vstd::std_specs::vec::group_vec_axioms, vstd::seq::group_seq_axioms;

/// One node of the decision tree: when `expr` is true, diffing at this node
/// is skipped; `children` are the decisions for the node's children.
#[derive(Debug)]
pub struct SkipDiff {
    pub expr: bool,
    pub children: Vec<SkipDiff>,
}

/// The paths that must be diffed in the subtree of `s` placed at `cur`:
/// `cur` itself when its decision is false, then those of its children
/// in order.
pub open spec fn node_paths(s: SkipDiff, cur: Seq<usize>) -> Seq<Seq<usize>>
    decreases s, 0int,
{
    let own: Seq<Seq<usize>> = if s.expr { Seq::empty() } else { seq![cur] };
    own + list_paths(s.children@, cur, s.children@.len() as int)
}

/// The paths that must be diffed under the first `n` siblings of `list`,
/// the sibling `i` being placed at `cur.push(i)`.
pub open spec fn list_paths(list: Seq<SkipDiff>, cur: Seq<usize>, n: int) -> Seq<Seq<usize>>
    decreases list, n,
{
    if n <= 0 || n > list.len() {
        Seq::empty()
    } else {
        list_paths(list, cur, n - 1) + node_paths(list[n - 1], cur.push((n - 1) as usize))
    }
}

/// The paths that `SkipDiff::traverse` gives for the roots `evals`: a
/// single root stands at the root path, several at indices under it.
pub open spec fn roots_paths(evals: Seq<SkipDiff>) -> Seq<Seq<usize>> {
    if evals.len() == 1 {
        node_paths(evals[0], Seq::empty())
    } else {
        list_paths(evals, Seq::empty(), evals.len() as int)
    }
}

/// Whether `s` and every decision under it is true.
pub open spec fn all_skippable(s: SkipDiff) -> bool
    decreases s, 0int,
{
    s.expr && all_skippable_list(s.children@, s.children@.len() as int)
}

/// Whether the first `n` siblings of `list` are skippable with their subtrees.
pub open spec fn all_skippable_list(list: Seq<SkipDiff>, n: int) -> bool
    decreases list, n,
{
    if n <= 0 || n > list.len() {
        true
    } else {
        all_skippable_list(list, n - 1) && all_skippable(list[n - 1])
    }
}

proof fn lemma_unskippable_prefix(list: Seq<SkipDiff>, i: int, n: int)
    requires
        0 <= i < n <= list.len(),
        !all_skippable(list[i]),
    ensures
        !all_skippable_list(list, n),
    decreases n,
{
    if n > i + 1 {
        lemma_unskippable_prefix(list, i, n - 1);
    }
}

impl SkipDiff {
    /// A decision node that evaluates to `val`, over the given children.
    pub fn new(val: bool, children: Vec<SkipDiff>) -> (r: SkipDiff)
        ensures
            r.expr == val,
            r.children@ == children@,
    {
        SkipDiff { expr: val, children }
    }

    /// The paths whose decision is false, in tree order (parent before
    /// children, siblings left to right). A single root stands at the root
    /// path; a list of roots has root `i` at path `[i]`.
    pub fn traverse(evals: &[SkipDiff]) -> (r: Vec<TreePath>)
        ensures
            paths_view(r@) == roots_paths(evals@),
    {
        let root = TreePath::root();
        if evals.len() == 1 {
            evals[0].traverse_recursive(root)
        } else {
            Self::traverse_list(evals, root)
        }
    }

    fn traverse_list(evals: &[SkipDiff], current: TreePath) -> (r: Vec<TreePath>)
        ensures
            paths_view(r@) == list_paths(evals@, current@, evals@.len() as int),
        decreases evals@, evals@.len(),
    {
        let mut paths: Vec<TreePath> = Vec::new();
        let mut i: usize = 0;
        while i < evals.len()
            invariant
                i <= evals@.len(),
                paths_view(paths@) == list_paths(evals@, current@, i as int),
            decreases evals@.len() - i,
        {
            let child_path = current.traverse(i);
            let mut more = evals[i].traverse_recursive(child_path);
            let ghost before = paths@;
            paths.append(&mut more);
            proof {
                lemma_paths_view_append(before, more@);
            }
            i = i + 1;
        }
        paths
    }

    fn traverse_recursive(&self, current: TreePath) -> (r: Vec<TreePath>)
        ensures
            paths_view(r@) == node_paths(*self, current@),
        decreases *self, 0int,
    {
        let mut paths: Vec<TreePath> = Vec::new();
        if !self.expr {
            paths.push(current.duplicate());
        }
        let mut more = Self::traverse_list(self.children.as_slice(), current);
        let ghost before = paths@;
        paths.append(&mut more);
        proof {
            lemma_paths_view_append(before, more@);
        }
        paths
    }

    /// Whether this decision and every decision under it is true, so that
    /// the whole subtree can be skipped.
    pub fn is_skippable_recursive(&self) -> (r: bool)
        ensures
            r == all_skippable(*self),
        decreases *self, 0int,
    {
        self.expr && Self::all_skippable_slice(self.children.as_slice())
    }

    fn all_skippable_slice(list: &[SkipDiff]) -> (r: bool)
        ensures
            r == all_skippable_list(list@, list@.len() as int),
        decreases list@, list@.len(),
    {
        let mut i: usize = 0;
        while i < list.len()
            invariant
                i <= list@.len(),
                all_skippable_list(list@, i as int),
            decreases list@.len() - i,
        {
            if !list[i].is_skippable_recursive() {
                proof {
                    lemma_unskippable_prefix(list@, i as int, list@.len() as int);
                }
                return false;
            }
            i = i + 1;
        }
        true
    }
}

/// A decision node that skips diffing at its position when `val` is true.
pub fn skip_if(val: bool, children: Vec<SkipDiff>) -> (r: SkipDiff)
    ensures
        r.expr == val,
        r.children@ == children@,
{
    SkipDiff::new(val, children)
}

/// Whether two decision trees are equal: the same decision and, pairwise,
/// equal children.
pub open spec fn same_skip(a: SkipDiff, b: SkipDiff) -> bool
    decreases a, 0int,
{
    a.expr == b.expr && a.children@.len() == b.children@.len() && same_skip_list(
        a.children@,
        b.children@,
        a.children@.len() as int,
    )
}

/// Whether the first `n` trees of two lists are pairwise `same_skip`.
pub open spec fn same_skip_list(l1: Seq<SkipDiff>, l2: Seq<SkipDiff>, n: int) -> bool
    decreases l1, n,
{
    if n <= 0 || n > l1.len() || n > l2.len() {
        true
    } else {
        same_skip_list(l1, l2, n - 1) && same_skip(l1[n - 1], l2[n - 1])
    }
}

proof fn lemma_same_skip_list_at(l1: Seq<SkipDiff>, l2: Seq<SkipDiff>, n: int, k: int)
    requires
        same_skip_list(l1, l2, n),
        0 <= k < n <= l1.len(),
        n <= l2.len(),
    ensures
        same_skip(l1[k], l2[k]),
    decreases n,
{
    if k < n - 1 {
        lemma_same_skip_list_at(l1, l2, n - 1, k);
    }
}

proof fn lemma_same_skip_list_each(l1: Seq<SkipDiff>, l2: Seq<SkipDiff>, n: int)
    requires
        0 <= n <= l1.len(),
        n <= l2.len(),
    ensures
        same_skip_list(l1, l2, n) <==> forall|k: int| 0 <= k < n ==> same_skip(#[trigger] l1[k], l2[k]),
    decreases n,
{
    if n > 0 {
        lemma_same_skip_list_each(l1, l2, n - 1);
        if same_skip_list(l1, l2, n) {
            assert forall|k: int| 0 <= k < n implies same_skip(#[trigger] l1[k], l2[k]) by {
                lemma_same_skip_list_at(l1, l2, n, k);
            }
        }
    }
}

/// Whether two decision trees are equal, as `same_skip` states it.
pub fn skip_eq(a: &SkipDiff, b: &SkipDiff) -> (r: bool)
    ensures
        r == same_skip(*a, *b),
    decreases *a, 1int,
{
    a.expr == b.expr && a.children.len() == b.children.len() && skip_list_eq(
        a.children.as_slice(),
        b.children.as_slice(),
    )
}

fn skip_list_eq(l1: &[SkipDiff], l2: &[SkipDiff]) -> (r: bool)
    requires
        l1@.len() == l2@.len(),
    ensures
        r == same_skip_list(l1@, l2@, l1@.len() as int),
    decreases l1@, 0int,
{
    let mut i: usize = 0;
    while i < l1.len()
        invariant
            i <= l1@.len(),
            l1@.len() == l2@.len(),
            forall|k: int| 0 <= k < i ==> same_skip(#[trigger] l1@[k], l2@[k]),
        decreases l1@.len() - i,
    {
        if !skip_eq(&l1[i], &l2[i]) {
            proof {
                lemma_same_skip_list_each(l1@, l2@, l1@.len() as int);
            }
            return false;
        }
        i = i + 1;
    }
    proof {
        lemma_same_skip_list_each(l1@, l2@, l1@.len() as int);
    }
    true
}

impl PartialEq for SkipDiff {
    /// Equal decisions and, pairwise, equal children.
    fn eq(&self, other: &SkipDiff) -> (r: bool) {
        skip_eq(self, other)
    }
}

impl Eq for SkipDiff {}

impl vstd::std_specs::cmp::PartialEqSpecImpl for SkipDiff {
    open spec fn obeys_eq_spec() -> bool {
        true
    }

    open spec fn eq_spec(&self, other: &SkipDiff) -> bool {
        same_skip(*self, *other)
    }
}

} // verus!
