//! Patches: positional mutations of the previous tree.
use vstd::prelude::*;
use crate::node::{copy_string, Attribute, Node};
use crate::tree_path::paths_view;
use crate::tree_path::TreePath;

verus! {

/// What a patch does at its target.
pub enum PatchType {
    /// Insert the nodes before the target.
    InsertBeforeNode { nodes: Vec<Node> },
    /// Insert the nodes after the target.
    InsertAfterNode { nodes: Vec<Node> },
    /// Append the nodes to the target's children.
    AppendChildren { children: Vec<Node> },
    /// Set these attributes on the target.
    AddAttributes { attrs: Vec<Attribute> },
    /// Remove these attributes from the target.
    RemoveAttributes { attrs: Vec<Attribute> },
    /// Replace the target with these nodes.
    ReplaceNode { replacement: Vec<Node> },
    /// Remove the target.
    RemoveNode,
    /// Remove all the children of the target.
    ClearChildren,
    /// Move the nodes at these paths before the target.
    MoveBeforeNode { nodes_path: Vec<TreePath> },
    /// Move the nodes at these paths after the target.
    MoveAfterNode { nodes_path: Vec<TreePath> },
}

/// One mutation, addressed by its path in the previous tree, with the tag
/// the target is expected to have.
pub struct Patch {
    pub patch_path: TreePath,
    pub tag: Option<String>,
    pub patch_type: PatchType,
}

/// The paths of the nodes that a patch relocates: those of a move, none
/// for any other patch.
pub open spec fn moved_paths(p: Patch) -> Seq<Seq<usize>> {
    match p.patch_type {
        PatchType::MoveBeforeNode { nodes_path } => paths_view(nodes_path@),
        PatchType::MoveAfterNode { nodes_path } => paths_view(nodes_path@),
        _ => Seq::empty(),
    }
}

/// The content of an optional tag.
pub open spec fn tag_view(t: Option<String>) -> Option<Seq<char>> {
    match t {
        Some(s) => Some(s@),
        None => None,
    }
}

/// The target of each of the first `n` patches, with its expected tag.
pub open spec fn targets_upto(patches: Seq<Patch>, n: int) -> Seq<(Seq<usize>, Option<Seq<char>>)>
    decreases n,
{
    if n <= 0 || n > patches.len() {
        Seq::empty()
    } else {
        targets_upto(patches, n - 1).push(
            (patches[n - 1].patch_path@, tag_view(patches[n - 1].tag)),
        )
    }
}

/// The paths, each with no tag.
pub open spec fn untagged(s: Seq<Seq<usize>>) -> Seq<(Seq<usize>, Option<Seq<char>>)> {
    s.map_values(|q: Seq<usize>| (q, None::<Seq<char>>))
}

/// The relocated paths of the first `n` patches, in order, with no tag.
pub open spec fn moved_upto(patches: Seq<Patch>, n: int) -> Seq<(Seq<usize>, Option<Seq<char>>)>
    decreases n,
{
    if n <= 0 || n > patches.len() {
        Seq::empty()
    } else {
        moved_upto(patches, n - 1) + untagged(moved_paths(patches[n - 1]))
    }
}

/// Every path that has to be found in the live tree before any of the
/// patches is applied: the target of each patch with its expected tag, then
/// the nodes that the moves relocate.
pub open spec fn to_resolve(patches: Seq<Patch>) -> Seq<(Seq<usize>, Option<Seq<char>>)> {
    targets_upto(patches, patches.len() as int) + moved_upto(patches, patches.len() as int)
}

/// The content of a list of paths with optional tags.
pub open spec fn lookups_view(v: Seq<(TreePath, Option<String>)>) -> Seq<
    (Seq<usize>, Option<Seq<char>>),
> {
    v.map_values(|e: (TreePath, Option<String>)| (e.0@, tag_view(e.1)))
}

fn copy_tag(t: &Option<String>) -> (r: Option<String>)
    ensures
        tag_view(r) == tag_view(*t),
{
    match t {
        Some(s) => Some(copy_string(s)),
        None => None,
    }
}

/// Every path that has to be found in the live tree before any of the
/// patches is applied: the target of each patch with its expected tag,
/// then the nodes that the moves relocate, with no tag.
pub fn paths_to_resolve(patches: &Vec<Patch>) -> (r: Vec<(TreePath, Option<String>)>)
    ensures
        lookups_view(r@) == to_resolve(patches@),
{
    let mut targets: Vec<(TreePath, Option<String>)> = Vec::new();
    let mut i: usize = 0;
    while i < patches.len()
        invariant
            i <= patches@.len(),
            lookups_view(targets@) == targets_upto(patches@, i as int),
        decreases patches@.len() - i,
    {
        let ghost before = lookups_view(targets@);
        targets.push((patches[i].patch_path.duplicate(), copy_tag(&patches[i].tag)));
        assert(lookups_view(targets@) =~= before.push(
            (patches@[i as int].patch_path@, tag_view(patches@[i as int].tag)),
        ));
        i = i + 1;
    }
    let mut moved: Vec<(TreePath, Option<String>)> = Vec::new();
    let mut i: usize = 0;
    while i < patches.len()
        invariant
            i <= patches@.len(),
            lookups_view(moved@) == moved_upto(patches@, i as int),
        decreases patches@.len() - i,
    {
        let paths = patches[i].node_paths();
        let ghost before = lookups_view(moved@);
        let mut k: usize = 0;
        while k < paths.len()
            invariant
                k <= paths@.len(),
                lookups_view(moved@) == before + untagged(paths_view(paths@).subrange(0, k as int)),
            decreases paths@.len() - k,
        {
            let ghost prev = lookups_view(moved@);
            let ghost pv = paths_view(paths@);
            moved.push((paths[k].duplicate(), None));
            assert(lookups_view(moved@) =~= prev.push((pv[k as int], None)));
            assert(untagged(pv.subrange(0, k + 1)) =~= untagged(pv.subrange(0, k as int)).push(
                (pv[k as int], None),
            ));
            k = k + 1;
        }
        assert(paths_view(paths@).subrange(0, k as int) =~= paths_view(paths@));
        i = i + 1;
    }
    let mut all = targets;
    let ghost t = lookups_view(all@);
    all.append(&mut moved);
    assert(lookups_view(all@) =~= t + moved_upto(patches@, patches@.len() as int));
    all
}

/// Why a patch cannot be applied to the live tree.
#[derive(Debug, PartialEq, Eq, Structural, Clone, Copy)]
pub enum ResolveError {
    /// The path at `index` of the paths to resolve was not found in the
    /// live tree.
    PathNotFound { index: usize },
    /// The target of the patch at `index` does not have the expected tag.
    TagMismatch { index: usize },
}

/// Whether the expected tag of `p` agrees with the tag `live` of the node
/// found for it: they are equal, or one of them is absent.
pub open spec fn tag_agrees(p: Patch, live: Option<String>) -> bool {
    match (p.tag, live) {
        (Some(a), Some(b)) => a@ == b@,
        _ => true,
    }
}

/// Whether entry `j` of what was looked up for `patches` (in the order of
/// `to_resolve`) was found, with a tag that agrees for a patch's target.
/// `found[j]` is `None` when the path was not found, else the tag of the
/// node found.
pub open spec fn entry_ok(patches: Seq<Patch>, found: Seq<Option<Option<String>>>, j: int) -> bool {
    0 <= j < found.len() && found[j] is Some && (j < patches.len() ==> tag_agrees(
        patches[j],
        found[j]->Some_0,
    ))
}

/// Checks what was found in the live tree for every path of
/// `to_resolve(patches)` (each patch's target, then the moved nodes), in
/// that order, and reports the first entry that fails: a path not found, or
/// a target whose tag disagrees. `Ok` when every entry is found and agrees.
/// Either failure means the live tree has drifted from the previous tree:
/// callers treat it as fatal, never skipping a patch.
pub fn check_targets(patches: &Vec<Patch>, found: &Vec<Option<Option<String>>>) -> (r: Result<
    (),
    ResolveError,
>)
    ensures
        r is Ok <==> forall|j: int| 0 <= j < to_resolve(patches@).len() ==> entry_ok(patches@, found@, j),
        match r {
            Ok(_) => true,
            Err(ResolveError::PathNotFound { index }) => index < to_resolve(patches@).len() && !(
            index < found@.len() && found@[index as int] is Some) && forall|j: int|
                0 <= j < index ==> entry_ok(patches@, found@, j),
            Err(ResolveError::TagMismatch { index }) => index < patches@.len() && index
                < found@.len() && found@[index as int] is Some && !tag_agrees(
                patches@[index as int],
                found@[index as int]->Some_0,
            ) && forall|j: int| 0 <= j < index ==> entry_ok(patches@, found@, j),
        },
{
    let total = paths_to_resolve(patches).len();
    proof {
        lemma_targets_len(patches@, patches@.len() as int);
        assert(total == to_resolve(patches@).len());
    }
    let mut i: usize = 0;
    while i < total
        invariant
            i <= total,
            total == to_resolve(patches@).len(),
            patches@.len() <= total,
            forall|j: int| 0 <= j < i ==> entry_ok(patches@, found@, j),
        decreases total - i,
    {
        if i >= found.len() {
            assert(!entry_ok(patches@, found@, i as int));
            return Err(ResolveError::PathNotFound { index: i });
        }
        match &found[i] {
            None => {
                assert(!entry_ok(patches@, found@, i as int));
                return Err(ResolveError::PathNotFound { index: i });
            },
            Some(live) => {
                if i < patches.len() {
                    let agrees = match (&patches[i].tag, live) {
                        (Some(a), Some(b)) => *a == *b,
                        _ => true,
                    };
                    if !agrees {
                        assert(!entry_ok(patches@, found@, i as int));
                        return Err(ResolveError::TagMismatch { index: i });
                    }
                }
            },
        }
        i = i + 1;
    }
    Ok(())
}

proof fn lemma_targets_len(patches: Seq<Patch>, n: int)
    requires
        0 <= n <= patches.len(),
    ensures
        targets_upto(patches, n).len() == n,
    decreases n,
{
    if n > 0 {
        lemma_targets_len(patches, n - 1);
    }
}

/// How many live nodes `p` carries once materialised: one per node it
/// inserts, appends or replaces with, or per path it moves; none otherwise.
pub open spec fn carried(p: Patch) -> nat {
    match p.patch_type {
        PatchType::InsertBeforeNode { nodes } => nodes@.len(),
        PatchType::InsertAfterNode { nodes } => nodes@.len(),
        PatchType::AppendChildren { children } => children@.len(),
        PatchType::ReplaceNode { replacement } => replacement@.len(),
        PatchType::MoveBeforeNode { nodes_path } => nodes_path@.len(),
        PatchType::MoveAfterNode { nodes_path } => nodes_path@.len(),
        _ => 0,
    }
}

impl Patch {
    /// The paths of the nodes this patch relocates: those of a move, none
    /// for any other patch.
    pub fn node_paths(&self) -> (r: &[TreePath])
        ensures
            paths_view(r@) == moved_paths(*self),
    {
        match &self.patch_type {
            PatchType::MoveBeforeNode { nodes_path } => nodes_path.as_slice(),
            PatchType::MoveAfterNode { nodes_path } => nodes_path.as_slice(),
            _ => {
                let r: &[TreePath] = &[];
                assert(paths_view(r@) =~= Seq::empty());
                r
            },
        }
    }

    /// The path of the target.
    pub fn path(&self) -> (r: &TreePath)
        ensures
            r == &self.patch_path,
    {
        &self.patch_path
    }

    /// The tag the target is expected to have.
    pub fn tag(&self) -> (r: &Option<String>)
        ensures
            r == &self.tag,
    {
        &self.tag
    }
}

} // verus!
