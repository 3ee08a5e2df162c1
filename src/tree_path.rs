//! Positions in a tree, as the sequence of child indices from the root.
use vstd::prelude::*;

verus! {

/// A position in a tree: the child index taken at each level, from the root.
/// The derived order is lexicographic, which is the order in which a
/// depth-first, children-in-order walk visits the positions.
#[derive(Clone, Debug, PartialEq, Eq, Hash, PartialOrd, Ord)]
pub struct TreePath {
    pub path: Vec<usize>,
}

impl View for TreePath {
    type V = Seq<usize>;

    open spec fn view(&self) -> Seq<usize> {
        self.path@
    }
}

/// The views of a list of paths.
pub open spec fn paths_view(v: Seq<TreePath>) -> Seq<Seq<usize>> {
    v.map_values(|p: TreePath| p@)
}

/// Taking the views of two lists of paths joined is joining their views.
pub proof fn lemma_paths_view_append(a: Seq<TreePath>, b: Seq<TreePath>)
    ensures
        paths_view(a + b) == paths_view(a) + paths_view(b),
{
    assert(paths_view(a + b) =~= paths_view(a) + paths_view(b));
}

impl TreePath {
    /// The path of the root: no index at all.
    pub fn root() -> (r: TreePath)
        ensures
            r@ == Seq::<usize>::empty(),
    {
        TreePath { path: Vec::new() }
    }

    /// A path made of the given indices.
    pub fn new(path: Vec<usize>) -> (r: TreePath)
        ensures
            r@ == path@,
    {
        TreePath { path }
    }

    /// A copy of this path with the same indices.
    pub fn duplicate(&self) -> (r: TreePath)
        ensures
            r@ == self@,
    {
        let mut v: Vec<usize> = Vec::with_capacity(self.path.len());
        let mut i: usize = 0;
        while i < self.path.len()
            invariant
                i <= self.path@.len(),
                v@ == self.path@.subrange(0, i as int),
            decreases self.path@.len() - i,
        {
            v.push(self.path[i]);
            i = i + 1;
            assert(v@ =~= self.path@.subrange(0, i as int));
        }
        assert(v@ =~= self.path@);
        TreePath { path: v }
    }

    /// The path of child `index` of the node at this path; `self` is unchanged.
    pub fn traverse(&self, index: usize) -> (r: TreePath)
        ensures
            r@ == self@.push(index),
    {
        let mut r = self.duplicate();
        r.path.push(index);
        r
    }

    /// Whether this is the root path.
    pub fn is_empty(&self) -> (r: bool)
        ensures
            r == (self@.len() == 0),
    {
        self.path.len() == 0
    }
}

} // verus!
