//! The diff engine: compares a previous and a new tree and produces the
//! patches that turn the one into the other, position by position.
use vstd::prelude::*;
use crate::node::{
    attr_view, attrs_plain, attrs_view, find_name, index_of_name, lemma_no_reserved_each, lemma_same_list_each, name_is, no_reserved,
    no_reserved_list, copy_string, is_reserved, lemma_index_of_name_from_bounds,
    lemma_index_of_unique, lemma_index_not_found, lemma_merge_unique, merge_upto, merged, names_unique, reserved, same_list, same_node, same_values, lemma_same_node_refl,
    values_view, replace_set, opt_view, same_opt, Attribute, AttributeValue, Node, ValueView,
};
use crate::patch::{Patch, PatchType};
use crate::skip_diff::SkipDiff;
use crate::lis::{as_ints, increasing_in, longest_increasing_subsequence};
use crate::tree_path::{paths_view, TreePath};

verus! {

broadcast use vstd::std_specs::vec::group_vec_axioms, vstd::seq::group_seq_axioms;

/// Whether `p` is a prefix of `q`: `q` lies in the subtree at `p`.
pub open spec fn is_prefix(p: Seq<usize>, q: Seq<usize>) -> bool {
    p.len() <= q.len() && q.subrange(0, p.len() as int) == p
}

/// Whether every patch of `patches` targets a node in the subtree at `p`.
pub open spec fn all_under(p: Seq<usize>, patches: Seq<Patch>) -> bool {
    forall|k: int| 0 <= k < patches.len() ==> is_prefix(p, (#[trigger] patches[k]).patch_path@)
}

proof fn lemma_under_child(p: Seq<usize>, i: usize, patches: Seq<Patch>)
    requires
        all_under(p.push(i), patches),
    ensures
        all_under(p, patches),
{
    assert forall|k: int| 0 <= k < patches.len() implies is_prefix(
        p,
        (#[trigger] patches[k]).patch_path@,
    ) by {
        let q = patches[k].patch_path@;
        assert(q.subrange(0, p.len() as int) =~= q.subrange(0, p.len() as int + 1).subrange(
            0,
            p.len() as int,
        ));
        assert(p.push(i).subrange(0, p.len() as int) =~= p);
    }
}

proof fn lemma_under_append(p: Seq<usize>, a: Seq<Patch>, b: Seq<Patch>)
    requires
        all_under(p, a),
        all_under(p, b),
    ensures
        all_under(p, a + b),
{
    assert forall|k: int| 0 <= k < (a + b).len() implies is_prefix(
        p,
        (#[trigger] (a + b)[k]).patch_path@,
    ) by {
        if k < a.len() {
            assert((a + b)[k] == a[k]);
        } else {
            assert((a + b)[k] == b[k - a.len()]);
        }
    }
}

proof fn lemma_prefix_self_and_child(p: Seq<usize>, i: usize)
    ensures
        is_prefix(p, p),
        is_prefix(p, p.push(i)),
{
    assert(p.subrange(0, p.len() as int) =~= p);
    assert(p.push(i).subrange(0, p.len() as int) =~= p);
}

/// Whether `p` is `path` itself, or, for `Some(i)`, the child `i` of it.
pub open spec fn at_child(p: Seq<usize>, path: Seq<usize>, child: Option<usize>) -> bool {
    match child {
        Some(i) => p == path.push(i),
        None => p == path,
    }
}

fn push_at(
    patches: &mut Vec<Patch>,
    path: &TreePath,
    child: Option<usize>,
    tag: Option<String>,
    patch_type: PatchType,
)
    requires
        all_under(path@, old(patches)@),
    ensures
        final(patches)@.len() == old(patches)@.len() + 1,
        forall|k: int| 0 <= k < old(patches)@.len() ==> final(patches)@[k] == old(patches)@[k],
        at_child(final(patches)@.last().patch_path@, path@, child),
        final(patches)@.last().tag == tag,
        final(patches)@.last().patch_type == patch_type,
        final(patches)@.drop_last() == old(patches)@,
        all_under(path@, final(patches)@),
        edits_below(path@, old(patches)@) && (is_sibling_edit(patch_type) ==> child is Some)
            ==> edits_below(path@, final(patches)@),
{
    let patch_path = match child {
        Some(i) => path.traverse(i),
        None => path.duplicate(),
    };
    proof {
        match child {
            Some(i) => lemma_prefix_self_and_child(path@, i),
            None => lemma_prefix_self_and_child(path@, 0),
        }
    }
    let ghost before = patches@;
    patches.push(Patch { patch_path, tag, patch_type });
    assert(patches@.drop_last() =~= before);
}

/// Whether two child lists are reconciled by key: the old list is not
/// empty, some child on either side has a key, and the keys are not the
/// same position by position.
pub open spec fn keyed_children(old: Seq<Node>, new: Seq<Node>) -> bool {
    old.len() > 0 && !(old.len() == new.len() && forall|k: int|
        0 <= k < old.len() ==> node_key(#[trigger] old[k]) == node_key(new[k])) && ((exists|k: int|
        0 <= k < old.len() && node_key(#[trigger] old[k]) is Some) || (exists|k: int|
        0 <= k < new.len() && node_key(#[trigger] new[k]) is Some))
}

/// Whether a patch of this type removes, moves or inserts siblings of its
/// target, or the target itself.
pub open spec fn is_sibling_edit(t: PatchType) -> bool {
    t is RemoveNode || t is MoveBeforeNode || t is MoveAfterNode || t is InsertBeforeNode
        || t is InsertAfterNode
}

/// Whether every removal, move or insertion in `patches` targets a node
/// strictly below `p`.
pub open spec fn edits_below(p: Seq<usize>, patches: Seq<Patch>) -> bool {
    forall|k: int|
        0 <= k < patches.len() && is_sibling_edit((#[trigger] patches[k]).patch_type)
            ==> patches[k].patch_path@.len() > p.len()
}

/// Whether every removal of a child of the node at `p` removes an old child
/// that no new child could claim: each new child with its key has another
/// old child with that key.
pub open spec fn removals_justified(
    old: Seq<Node>,
    new: Seq<Node>,
    p: Seq<usize>,
    patches: Seq<Patch>,
) -> bool {
    forall|k: int|
        0 <= k < patches.len() && (#[trigger] patches[k]).patch_type is RemoveNode
            && patches[k].patch_path@.len() == p.len() + 1 ==> removable(
            old,
            new,
            patches[k].patch_path@[p.len() as int],
        )
}

/// Whether old child `i` can be removed: it exists, and each new child that
/// has its key has another old child with that key.
pub open spec fn removable(old: Seq<Node>, new: Seq<Node>, i: usize) -> bool {
    i < old.len() && forall|j: int|
        0 <= j < new.len() && node_key(#[trigger] new[j]) is Some && node_key(new[j]) == node_key(
            old[i as int],
        ) ==> exists|i2: int| 0 <= i2 < old.len() && i2 != i && node_key(old[i2]) == node_key(new[j])
}

proof fn lemma_edits_below_append(p: Seq<usize>, a: Seq<Patch>, b: Seq<Patch>)
    requires
        edits_below(p, a),
        edits_below(p, b),
    ensures
        edits_below(p, a + b),
{
    assert forall|k: int|
        0 <= k < (a + b).len() && is_sibling_edit((#[trigger] (a + b)[k]).patch_type) implies (a
        + b)[k].patch_path@.len() > p.len() by {
        if k < a.len() {
            assert((a + b)[k] == a[k]);
        } else {
            assert((a + b)[k] == b[k - a.len()]);
        }
    }
}

proof fn lemma_edits_below_child(p: Seq<usize>, i: usize, b: Seq<Patch>)
    requires
        edits_below(p.push(i), b),
    ensures
        edits_below(p, b),
{
}

proof fn lemma_justified_append(old: Seq<Node>, new: Seq<Node>, p: Seq<usize>, a: Seq<Patch>, i: usize, b: Seq<Patch>)
    requires
        removals_justified(old, new, p, a),
        edits_below(p.push(i), b),
    ensures
        removals_justified(old, new, p, a + b),
        edits_below(p, b),
{
    assert forall|k: int|
        0 <= k < (a + b).len() && (#[trigger] (a + b)[k]).patch_type is RemoveNode
            && (a + b)[k].patch_path@.len() == p.len() + 1 implies removable(
        old,
        new,
        (a + b)[k].patch_path@[p.len() as int],
    ) by {
        if k < a.len() {
            assert((a + b)[k] == a[k]);
        } else {
            assert((a + b)[k] == b[k - a.len()]);
        }
    }
}

proof fn lemma_justified_push(old: Seq<Node>, new: Seq<Node>, p: Seq<usize>, s: Seq<Patch>)
    requires
        s.len() > 0,
        removals_justified(old, new, p, s.drop_last()),
        s.last().patch_type is RemoveNode && s.last().patch_path@.len() == p.len() + 1
            ==> removable(old, new, s.last().patch_path@[p.len() as int]),
    ensures
        removals_justified(old, new, p, s),
{
    assert forall|k: int|
        0 <= k < s.len() && (#[trigger] s[k]).patch_type is RemoveNode && s[k].patch_path@.len()
            == p.len() + 1 implies removable(old, new, s[k].patch_path@[p.len() as int]) by {
        if k < s.len() - 1 {
            assert(s[k] == s.drop_last()[k]);
        }
    }
}

/// Whether the decision at this position says to skip it.
pub open spec fn skip_here(skip: Option<&SkipDiff>) -> bool {
    match skip {
        Some(s) => s.expr,
        None => false,
    }
}

/// Whether `a` is a `skip` attribute that is set: its first value is the
/// simple value `true`.
pub open spec fn skip_set(a: Attribute) -> bool {
    a.name@ == "skip"@ && a.value@.len() > 0 && a.value@[0]@ == ValueView::Simple("true"@)
}

/// Whether the new node opts out of diffing: an element with a set `skip`
/// attribute.
pub open spec fn has_skip(n: Node) -> bool {
    match n {
        Node::Element { attrs, .. } => exists|i: int| 0 <= i < attrs@.len() && skip_set(#[trigger] attrs@[i]),
        _ => false,
    }
}

/// The values of the first attribute from index `i` on named
/// `skip_criteria`, if there is one.
pub open spec fn criteria_from(s: Seq<(Seq<char>, Seq<ValueView>)>, i: int) -> Option<Seq<ValueView>>
    decreases s.len() - i,
{
    if i < 0 || i >= s.len() {
        None
    } else if s[i].0 == "skip_criteria"@ {
        Some(s[i].1)
    } else {
        criteria_from(s, i + 1)
    }
}

/// The skip criteria of a node: those of its attributes for an element.
pub open spec fn node_criteria(n: Node) -> Option<Seq<ValueView>> {
    match n {
        Node::Element { attrs, .. } => criteria_from(attrs_view(attrs@), 0),
        _ => None,
    }
}

/// Whether both nodes carry skip criteria and they are equal: the new node
/// is then taken as unchanged.
pub open spec fn criteria_unchanged(old: Node, new: Node) -> bool {
    node_criteria(old) is Some && node_criteria(old) == node_criteria(new)
}

/// Whether the nodes themselves opt out of diffing: a set `skip` on the new
/// node, or unchanged skip criteria.
pub open spec fn opted_out(old: Node, new: Node) -> bool {
    has_skip(new) || criteria_unchanged(old, new)
}

/// Whether diffing at this position is skipped: by the decision for it, or
/// by the nodes themselves.
pub open spec fn skipped(skip: Option<&SkipDiff>, old: Node, new: Node) -> bool {
    skip_here(skip) || opted_out(old, new)
}

/// The skip criteria of a node, as `node_criteria` states them.
fn criteria_of(n: &Node) -> (r: Option<&Vec<AttributeValue>>)
    ensures
        match r {
            Some(v) => node_criteria(*n) == Some(values_view(v@)),
            None => node_criteria(*n) is None,
        },
{
    match n {
        Node::Element { attrs, .. } => {
            let ghost v = attrs_view(attrs@);
            let mut i: usize = 0;
            while i < attrs.len()
                invariant
                    i <= attrs@.len(),
                    v == attrs_view(attrs@),
                    node_criteria(*n) == criteria_from(v, 0),
                    criteria_from(v, 0) == criteria_from(v, i as int),
                decreases attrs@.len() - i,
            {
                if name_is(&attrs[i].name, "skip_criteria") {
                    proof {
                        assert(v[i as int].0 == attrs@[i as int].name@);
                        assert(v[i as int].1 == values_view(attrs@[i as int].value@));
                    }
                    return Some(&attrs[i].value);
                }
                i = i + 1;
            }
            None
        },
        _ => None,
    }
}

fn criteria_same(old: &Node, new: &Node) -> (r: bool)
    ensures
        r == criteria_unchanged(*old, *new),
{
    match (criteria_of(old), criteria_of(new)) {
        (Some(a), Some(b)) => same_values(a, b),
        _ => false,
    }
}

fn has_skip_attr(n: &Node) -> (r: bool)
    ensures
        r == has_skip(*n),
{
    match n {
        Node::Element { attrs, .. } => {
            let mut i: usize = 0;
            while i < attrs.len()
                invariant
                    i <= attrs@.len(),
                    forall|k: int| 0 <= k < i ==> !skip_set(#[trigger] attrs@[k]),
                    has_skip(*n) == (exists|k: int| 0 <= k < attrs@.len() && skip_set(#[trigger] attrs@[k])),
                decreases attrs@.len() - i,
            {
                if name_is(&attrs[i].name, "skip") && attrs[i].value.len() > 0 {
                    if let AttributeValue::Simple(v) = &attrs[i].value[0] {
                        if name_is(v, "true") {
                            assert(skip_set(attrs@[i as int]));
                            return true;
                        }
                    }
                }
                i = i + 1;
            }
            false
        },
        _ => false,
    }
}

/// Whether some attribute of `a` is a set `replace`.
pub open spec fn has_replace(a: Seq<Attribute>) -> bool {
    exists|i: int| 0 <= i < a.len() && replace_set(#[trigger] a[i])
}

/// Whether the new node is not patched in place but replaces the old one:
/// the kinds differ, the tags or namespaces differ, a leaf's content differs, or the new
/// element asks for replacement.
pub open spec fn needs_replace(old: Node, new: Node) -> bool {
    match (old, new) {
        (
            Node::Element { tag: t1, namespace: n1, .. },
            Node::Element { tag: t2, namespace: n2, attrs, .. },
        ) => t1@ != t2@ || opt_view(n1) != opt_view(n2) || has_replace(attrs@),
        (Node::Leaf(s1), Node::Leaf(s2)) => s1@ != s2@,
        (Node::Fragment(_), Node::Fragment(_)) => false,
        _ => true,
    }
}

/// Whether `p` replaces the node at `path` by one copy of `new`.
pub open spec fn is_replace(p: Patch, path: Seq<usize>, new: Node) -> bool {
    p.patch_path@ == path && match p.patch_type {
        PatchType::ReplaceNode { replacement } => replacement@.len() == 1 && same_node(
            new,
            replacement@[0],
        ),
        _ => false,
    }
}

/// Whether `p` appends copies of `children` to the node at `path`.
pub open spec fn is_append(p: Patch, path: Seq<usize>, children: Seq<Node>) -> bool {
    p.patch_path@ == path && match p.patch_type {
        PatchType::AppendChildren { children: c } => c@.len() == children.len() && same_list(
            children,
            c@,
            children.len() as int,
        ),
        _ => false,
    }
}

/// Whether `p` sets exactly the attributes `attrs` on the node at `path`.
pub open spec fn is_add_attrs(p: Patch, path: Seq<usize>, attrs: Seq<(Seq<char>, Seq<ValueView>)>) -> bool {
    p.patch_path@ == path && match p.patch_type {
        PatchType::AddAttributes { attrs: a } => attrs_view(a@) == attrs,
        _ => false,
    }
}

/// Whether `p` removes exactly the attributes `attrs` from the node at
/// `path`.
pub open spec fn is_remove_attrs(p: Patch, path: Seq<usize>, attrs: Seq<(Seq<char>, Seq<ValueView>)>) -> bool {
    p.patch_path@ == path && match p.patch_type {
        PatchType::RemoveAttributes { attrs: a } => attrs_view(a@) == attrs,
        _ => false,
    }
}

/// For two elements, whether `r` begins with the attribute patches at
/// `path`: one that sets `attrs_to_add` when it is not empty, then one that
/// removes `attrs_to_remove` when it is not empty. Holds of other nodes.
pub open spec fn leads_with_attr_patches(old: Node, new: Node, path: Seq<usize>, r: Seq<Patch>) -> bool {
    match (old, new) {
        (Node::Element { attrs: a1, .. }, Node::Element { attrs: a2, .. }) => {
            let adds = attrs_to_add(a1@, a2@);
            let rems = attrs_to_remove(a1@, a2@);
            let n_add: int = if adds.len() > 0 { 1 } else { 0 };
            let n_rem: int = if rems.len() > 0 { 1 } else { 0 };
            r.len() >= n_add + n_rem && (adds.len() > 0 ==> is_add_attrs(r[0], path, adds)) && (
            rems.len() > 0 ==> is_remove_attrs(r[n_add], path, rems))
        },
        _ => true,
    }
}

/// Whether every patch of `s` targets a node under some child `i < n` of
/// the node at `p` (the child `p.push(i)` or below it), the children's
/// patches coming in increasing order of `i`.
pub open spec fn in_pair_order(p: Seq<usize>, n: int, s: Seq<Patch>) -> bool {
    (forall|k: int|
        0 <= k < s.len() ==> (#[trigger] s[k]).patch_path@.len() > p.len() && s[k].patch_path@[p.len() as int]
            < n && is_prefix(p.push(s[k].patch_path@[p.len() as int]), s[k].patch_path@)) && (
    forall|k1: int, k2: int|
        0 <= k1 < k2 < s.len() ==> (#[trigger] s[k1]).patch_path@[p.len() as int] <= (
        #[trigger] s[k2]).patch_path@[p.len() as int])
}

/// How many patches end the positional diff of children: one
/// `ClearChildren`, one `RemoveNode` per extra old child, one
/// `AppendChildren`, or none.
pub open spec fn tail_len(old: Seq<Node>, new: Seq<Node>) -> int {
    if new.len() < old.len() {
        if new.len() == 0 {
            1
        } else {
            old.len() - new.len()
        }
    } else if new.len() > old.len() {
        1
    } else {
        0
    }
}

proof fn lemma_pair_order_append(p: Seq<usize>, n: int, i: usize, a: Seq<Patch>, b: Seq<Patch>)
    requires
        in_pair_order(p, i as int, a),
        all_under(p.push(i), b),
        i < n,
    ensures
        in_pair_order(p, i + 1, a + b),
{
    let s = a + b;
    assert forall|k: int| 0 <= k < s.len() implies (#[trigger] s[k]).patch_path@.len() > p.len()
        && s[k].patch_path@[p.len() as int] < i + 1 && is_prefix(
        p.push(s[k].patch_path@[p.len() as int]),
        s[k].patch_path@,
    ) by {
        if k < a.len() {
            assert(s[k] == a[k]);
        } else {
            assert(s[k] == b[k - a.len()]);
            let q = b[k - a.len()].patch_path@;
            assert(is_prefix(p.push(i), q));
            assert(q.subrange(0, p.len() as int + 1)[p.len() as int] == q[p.len() as int]);
            assert(p.push(i)[p.len() as int] == i);
        }
    }
    assert forall|k1: int, k2: int| 0 <= k1 < k2 < s.len() implies (#[trigger] s[k1]).patch_path@[p.len() as int]
        <= (#[trigger] s[k2]).patch_path@[p.len() as int] by {
        if k2 >= a.len() {
            let q = b[k2 - a.len()].patch_path@;
            assert(s[k2] == b[k2 - a.len()]);
            assert(is_prefix(p.push(i), q));
            assert(q.subrange(0, p.len() as int + 1)[p.len() as int] == q[p.len() as int]);
            assert(p.push(i)[p.len() as int] == i);
            if k1 < a.len() {
                assert(s[k1] == a[k1]);
            } else {
                let q1 = b[k1 - a.len()].patch_path@;
                assert(s[k1] == b[k1 - a.len()]);
                assert(is_prefix(p.push(i), q1));
                assert(q1.subrange(0, p.len() as int + 1)[p.len() as int] == q1[p.len() as int]);
            }
        } else {
            assert(s[k1] == a[k1]);
            assert(s[k2] == a[k2]);
        }
    }
}

/// Like `leads_with_attr_patches`, for the patches of `r` from index `k`.
pub open spec fn leads_at(old: Node, new: Node, path: Seq<usize>, r: Seq<Patch>, k: int) -> bool {
    match (old, new) {
        (Node::Element { attrs: a1, .. }, Node::Element { attrs: a2, .. }) => {
            let adds = attrs_to_add(a1@, a2@);
            let rems = attrs_to_remove(a1@, a2@);
            let n_add: int = if adds.len() > 0 { 1 } else { 0 };
            let n_rem: int = if rems.len() > 0 { 1 } else { 0 };
            0 <= k && r.len() >= k + n_add + n_rem && (adds.len() > 0 ==> is_add_attrs(r[k], path, adds))
                && (rems.len() > 0 ==> is_remove_attrs(r[k + n_add], path, rems))
        },
        _ => true,
    }
}

/// Whether the patches of `r` from index `k` begin as those of the pair
/// `old`, `new` at `path` must, unless `sk` says it is skipped: the
/// replacement when the new node replaces the old one, else the attribute
/// patches.
pub open spec fn pair_fixed(old: Node, new: Node, sk: bool, path: Seq<usize>, r: Seq<Patch>, k: int) -> bool {
    (!sk && needs_replace(old, new) ==> 0 <= k < r.len() && is_replace(r[k], path, new)) && (!sk
        && !needs_replace(old, new) ==> leads_at(old, new, path, r, k))
}

/// Whether diffing the child `i` is skipped: by the decision for it in
/// `skip`, or by the children `o` and `n` themselves.
pub open spec fn child_skipped(skip: Option<&SkipDiff>, i: int, o: Node, n: Node) -> bool {
    (match skip {
        Some(s) => 0 <= i < s.children@.len() && s.children@[i].expr,
        None => false,
    }) || opted_out(o, n)
}

/// Whether the pair `i` of children paired by position is diffed in `r`:
/// its patches start somewhere in `r`, at `path.push(i)`.
pub open spec fn pair_done(
    old: Seq<Node>,
    new: Seq<Node>,
    skip: Option<&SkipDiff>,
    path: Seq<usize>,
    r: Seq<Patch>,
    i: int,
) -> bool {
    exists|k: int|
        #[trigger] pair_fixed(old[i], new[i], child_skipped(skip, i, old[i], new[i]), path.push(i as usize), r, k)
}

proof fn lemma_fixed_keep(o: Node, n: Node, sk: bool, p: Seq<usize>, s1: Seq<Patch>, s2: Seq<Patch>, k: int)
    requires
        pair_fixed(o, n, sk, p, s1, k),
        s1.len() <= s2.len(),
        forall|j: int| 0 <= j < s1.len() ==> s2[j] == s1[j],
    ensures
        pair_fixed(o, n, sk, p, s2, k),
{
    if !sk && !needs_replace(o, n) {
        if let (Node::Element { attrs: a1, .. }, Node::Element { attrs: a2, .. }) = (o, n) {
            let adds = attrs_to_add(a1@, a2@);
            let n_add: int = if adds.len() > 0 { 1 } else { 0 };
            if adds.len() > 0 {
                assert(s2[k] == s1[k]);
            }
            if attrs_to_remove(a1@, a2@).len() > 0 {
                assert(s2[k + n_add] == s1[k + n_add]);
            }
        }
    }
    if !sk && needs_replace(o, n) {
        assert(s2[k] == s1[k]);
    }
}

/// Whether the matched new child `j` is diffed in `r` against the old child
/// it was matched with, at that old child's path.
pub open spec fn keyed_pair_done(
    old: Seq<Node>,
    new: Seq<Node>,
    m: Seq<usize>,
    skip: Option<&SkipDiff>,
    path: Seq<usize>,
    r: Seq<Patch>,
    j: int,
) -> bool {
    exists|k: int|
        #[trigger] pair_fixed(
            old[m[j] as int],
            new[j],
            child_skipped(skip, j, old[m[j] as int], new[j]),
            path.push(m[j]),
            r,
            k,
        )
}

proof fn lemma_keyed_pair_keep(
    old: Seq<Node>,
    new: Seq<Node>,
    m: Seq<usize>,
    skip: Option<&SkipDiff>,
    path: Seq<usize>,
    s1: Seq<Patch>,
    s2: Seq<Patch>,
    j: int,
)
    requires
        keyed_pair_done(old, new, m, skip, path, s1, j),
        s1.len() <= s2.len(),
        forall|q: int| 0 <= q < s1.len() ==> s2[q] == s1[q],
    ensures
        keyed_pair_done(old, new, m, skip, path, s2, j),
{
    let o = old[m[j] as int];
    let sk = child_skipped(skip, j, o, new[j]);
    let k = choose|k: int| #[trigger] pair_fixed(o, new[j], sk, path.push(m[j]), s1, k);
    lemma_fixed_keep(o, new[j], sk, path.push(m[j]), s1, s2, k);
}

proof fn lemma_pair_keep(
    old: Seq<Node>,
    new: Seq<Node>,
    skip: Option<&SkipDiff>,
    path: Seq<usize>,
    s1: Seq<Patch>,
    s2: Seq<Patch>,
    i: int,
)
    requires
        pair_done(old, new, skip, path, s1, i),
        s1.len() <= s2.len(),
        forall|j: int| 0 <= j < s1.len() ==> s2[j] == s1[j],
    ensures
        pair_done(old, new, skip, path, s2, i),
{
    let sk = child_skipped(skip, i, old[i], new[i]);
    let p = path.push(i as usize);
    let k = choose|k: int| #[trigger] pair_fixed(old[i], new[i], sk, p, s1, k);
    if !sk && !needs_replace(old[i], new[i]) {
        if let (Node::Element { attrs: a1, .. }, Node::Element { attrs: a2, .. }) = (old[i], new[i]) {
            let adds = attrs_to_add(a1@, a2@);
            let n_add: int = if adds.len() > 0 { 1 } else { 0 };
            if adds.len() > 0 {
                assert(s2[k] == s1[k]);
            }
            if attrs_to_remove(a1@, a2@).len() > 0 {
                assert(s2[k + n_add] == s1[k + n_add]);
            }
        }
    }
    if !sk && needs_replace(old[i], new[i]) {
        assert(s2[k] == s1[k]);
    }
    assert(pair_fixed(old[i], new[i], sk, p, s2, k));
}

/// Whether `p` removes all the children of the node at `path`.
pub open spec fn is_clear(p: Patch, path: Seq<usize>) -> bool {
    p.patch_path@ == path && p.patch_type is ClearChildren
}

/// Whether `p` removes the node at `path`.
pub open spec fn is_remove_at(p: Patch, path: Seq<usize>) -> bool {
    p.patch_path@ == path && p.patch_type is RemoveNode
}

/// For children paired by position, how `r` ends: with one `ClearChildren`
/// at `path` (and nothing else) when no new child is left; with a
/// `RemoveNode` at `path.push(j)` for each old child `j` past the new ones,
/// in order; with one `AppendChildren` at `path` of copies of the new
/// children past the old ones.
pub open spec fn positional_tail(old: Seq<Node>, new: Seq<Node>, path: Seq<usize>, r: Seq<Patch>) -> bool {
    (new.len() == 0 && old.len() > 0 ==> r.len() == 1 && is_clear(r[0], path)) && (0 < new.len()
        < old.len() ==> r.len() >= old.len() - new.len() && forall|t: int|
        0 <= t < old.len() - new.len() ==> #[trigger] is_remove_at(
            r[r.len() - (old.len() - new.len()) + t],
            path.push((new.len() + t) as usize),
        )) && (new.len() > old.len() ==> r.len() >= 1 && is_append(
        r[r.len() - 1],
        path,
        new.subrange(old.len() as int, new.len() as int),
    ))
}

/// Whether the new element is the old one, with the same attributes and no
/// reserved one, where the old had no children and the new has some.
pub open spec fn only_children_added(old: Node, new: Node) -> bool {
    match (old, new) {
        (
            Node::Element { tag: t1, namespace: n1, attrs: a1, children: c1 },
            Node::Element { tag: t2, namespace: n2, attrs: a2, children: c2 },
        ) => t1@ == t2@ && opt_view(n1) == opt_view(n2) && attrs_view(a1@) == attrs_view(a2@) && attrs_plain(a2@) && c1@.len()
            == 0 && c2@.len() > 0,
        _ => false,
    }
}

/// Whether an attribute of the new tree is applied: its name is not among
/// the old merged attributes, its values differ from theirs, or its name is
/// reserved.
pub open spec fn attr_changed(
    old_merged: Seq<(Seq<char>, Seq<ValueView>)>,
    a: (Seq<char>, Seq<ValueView>),
) -> bool {
    let k = index_of_name(old_merged, a.0);
    k >= old_merged.len() || old_merged[k].1 != a.1 || reserved(a.0)
}

/// Whether an attribute of the old tree is gone from the new merged ones.
pub open spec fn attr_gone(
    new_merged: Seq<(Seq<char>, Seq<ValueView>)>,
    a: (Seq<char>, Seq<ValueView>),
) -> bool {
    index_of_name(new_merged, a.0) >= new_merged.len()
}

/// The predicate `attr_changed` against fixed old attributes.
pub open spec fn changed_in(old_merged: Seq<(Seq<char>, Seq<ValueView>)>) -> spec_fn(
    (Seq<char>, Seq<ValueView>),
) -> bool {
    |a: (Seq<char>, Seq<ValueView>)| attr_changed(old_merged, a)
}

/// The predicate `attr_gone` against fixed new attributes.
pub open spec fn gone_from(new_merged: Seq<(Seq<char>, Seq<ValueView>)>) -> spec_fn(
    (Seq<char>, Seq<ValueView>),
) -> bool {
    |a: (Seq<char>, Seq<ValueView>)| attr_gone(new_merged, a)
}

/// The merged new attributes to apply, in order.
pub open spec fn attrs_to_add(old: Seq<Attribute>, new: Seq<Attribute>) -> Seq<
    (Seq<char>, Seq<ValueView>),
> {
    merged(attrs_view(new)).filter(changed_in(merged(attrs_view(old))))
}

/// The merged old attributes to remove, in order.
pub open spec fn attrs_to_remove(old: Seq<Attribute>, new: Seq<Attribute>) -> Seq<
    (Seq<char>, Seq<ValueView>),
> {
    merged(attrs_view(old)).filter(gone_from(merged(attrs_view(new))))
}

proof fn lemma_filter_from(
    m: Seq<(Seq<char>, Seq<ValueView>)>,
    f: spec_fn((Seq<char>, Seq<ValueView>)) -> bool,
)
    ensures
        forall|i: int|
            0 <= i < m.filter(f).len() ==> exists|q: int|
                0 <= q < m.len() && m[q] == #[trigger] m.filter(f)[i],
    decreases m.len(),
{
    reveal(Seq::filter);
    if m.len() > 0 {
        let d = m.drop_last();
        lemma_filter_from(d, f);
        assert forall|i: int| 0 <= i < m.filter(f).len() implies exists|q: int|
            0 <= q < m.len() && m[q] == #[trigger] m.filter(f)[i] by {
            if i < d.filter(f).len() {
                let q = choose|q: int| 0 <= q < d.len() && d[q] == d.filter(f)[i];
                assert(m[q] == m.filter(f)[i]);
            } else {
                assert(m[m.len() - 1] == m.filter(f)[i]);
            }
        }
    }
}

/// Keeping some entries of a list with distinct names keeps the names
/// distinct.
pub proof fn lemma_filter_unique(
    m: Seq<(Seq<char>, Seq<ValueView>)>,
    f: spec_fn((Seq<char>, Seq<ValueView>)) -> bool,
)
    requires
        names_unique(m),
    ensures
        names_unique(m.filter(f)),
    decreases m.len(),
{
    reveal(Seq::filter);
    if m.len() > 0 {
        let d = m.drop_last();
        assert(names_unique(d));
        lemma_filter_unique(d, f);
        lemma_filter_from(d, f);
        if f(m.last()) {
            let r = m.filter(f);
            assert forall|i: int, j: int| 0 <= i < j < r.len() implies r[i].0 != r[j].0 by {
                if j == r.len() - 1 {
                    let q = choose|q: int| 0 <= q < d.len() && d[q] == d.filter(f)[i];
                    assert(m[q] == r[i]);
                }
            }
        }
    }
}

/// Nothing is kept of a list whose entries all fail the predicate.
proof fn lemma_filter_none(
    m: Seq<(Seq<char>, Seq<ValueView>)>,
    f: spec_fn((Seq<char>, Seq<ValueView>)) -> bool,
)
    requires
        forall|i: int| 0 <= i < m.len() ==> !f(#[trigger] m[i]),
    ensures
        m.filter(f).len() == 0,
    decreases m.len(),
{
    reveal(Seq::filter);
    if m.len() > 0 {
        let d = m.drop_last();
        assert forall|i: int| 0 <= i < d.len() implies !f(#[trigger] d[i]) by {
            assert(d[i] == m[i]);
        }
        lemma_filter_none(d, f);
        assert(!f(m[m.len() - 1]));
    }
}

/// The values of the entry named `x` in `m`, if there is one.
pub open spec fn lookup(m: Seq<(Seq<char>, Seq<ValueView>)>, x: Seq<char>) -> Option<Seq<ValueView>> {
    let k = index_of_name(m, x);
    if k < m.len() {
        Some(m[k].1)
    } else {
        None
    }
}

/// The values of the attribute named `x` once the attributes `adds` are set
/// and the attributes `removes` removed on an element whose merged
/// attributes are `m`.
pub open spec fn after_attr_patches(
    m: Seq<(Seq<char>, Seq<ValueView>)>,
    adds: Seq<(Seq<char>, Seq<ValueView>)>,
    removes: Seq<(Seq<char>, Seq<ValueView>)>,
    x: Seq<char>,
) -> Option<Seq<ValueView>> {
    match lookup(adds, x) {
        Some(v) => Some(v),
        None => if lookup(removes, x) is Some {
            None
        } else {
            lookup(m, x)
        },
    }
}

proof fn lemma_lookup_at(m: Seq<(Seq<char>, Seq<ValueView>)>, k: int)
    requires
        names_unique(m),
        0 <= k < m.len(),
    ensures
        lookup(m, m[k].0) == Some(m[k].1),
{
    lemma_index_of_unique(m, 0, k);
}

proof fn lemma_lookup_none(m: Seq<(Seq<char>, Seq<ValueView>)>, x: Seq<char>)
    requires
        forall|k: int| 0 <= k < m.len() ==> (#[trigger] m[k]).0 != x,
    ensures
        lookup(m, x) is None,
{
    lemma_index_of_name_from_bounds(m, x, 0);
}

proof fn lemma_filter_kept(
    m: Seq<(Seq<char>, Seq<ValueView>)>,
    f: spec_fn((Seq<char>, Seq<ValueView>)) -> bool,
    q: int,
)
    requires
        0 <= q < m.filter(f).len(),
    ensures
        f(m.filter(f)[q]),
        exists|k: int| 0 <= k < m.len() && m[k] == m.filter(f)[q],
{
    m.lemma_filter_pred(f, q);
    lemma_filter_from(m, f);
}

/// Setting the attributes that `diff_attributes` adds and removing those it
/// removes, on an element with the old attributes, gives every name the
/// values it has among the new attributes (merged by name on both sides).
pub proof fn lemma_attribute_patches_reach_new(old: Seq<Attribute>, new: Seq<Attribute>, x: Seq<char>)
    ensures
        after_attr_patches(
            merged(attrs_view(old)),
            attrs_to_add(old, new),
            attrs_to_remove(old, new),
            x,
        ) == lookup(merged(attrs_view(new)), x),
{
    let om = merged(attrs_view(old));
    let nm = merged(attrs_view(new));
    let a = attrs_to_add(old, new);
    let r = attrs_to_remove(old, new);
    lemma_merge_unique(attrs_view(old), attrs_view(old).len() as int);
    lemma_merge_unique(attrs_view(new), attrs_view(new).len() as int);
    lemma_filter_unique(nm, changed_in(om));
    lemma_filter_unique(om, gone_from(nm));
    lemma_index_of_name_from_bounds(nm, x, 0);
    lemma_index_of_name_from_bounds(om, x, 0);
    let kn = index_of_name(nm, x);
    let ko = index_of_name(om, x);
    if kn < nm.len() {
        if changed_in(om)(nm[kn]) {
            nm.lemma_filter_contains(changed_in(om), kn);
            let q = choose|q: int| 0 <= q < a.len() && a[q] == nm[kn];
            lemma_lookup_at(a, q);
        } else {
            assert forall|q: int| 0 <= q < a.len() implies (#[trigger] a[q]).0 != x by {
                lemma_filter_kept(nm, changed_in(om), q);
                let k = choose|k: int| 0 <= k < nm.len() && nm[k] == a[q];
                if a[q].0 == x {
                    lemma_index_of_unique(nm, 0, k);
                }
            }
            lemma_lookup_none(a, x);
            assert forall|q: int| 0 <= q < r.len() implies (#[trigger] r[q]).0 != x by {
                lemma_filter_kept(om, gone_from(nm), q);
            }
            lemma_lookup_none(r, x);
        }
    } else {
        assert forall|q: int| 0 <= q < a.len() implies (#[trigger] a[q]).0 != x by {
            lemma_filter_kept(nm, changed_in(om), q);
            let k = choose|k: int| 0 <= k < nm.len() && nm[k] == a[q];
            lemma_index_not_found(nm, x, 0, k);
        }
        lemma_lookup_none(a, x);
        assert forall|k: int| 0 <= k < nm.len() implies (#[trigger] nm[k]).0 != x by {
            lemma_index_not_found(nm, x, 0, k);
        }
        lemma_lookup_none(nm, x);
        if ko < om.len() {
            om.lemma_filter_contains(gone_from(nm), ko);
            let q = choose|q: int| 0 <= q < r.len() && r[q] == om[ko];
            lemma_lookup_at(r, q);
        }
    }
}

/// The values of all the entries of the first `n` of `s` named `x`, in
/// order.
pub open spec fn values_named(s: Seq<(Seq<char>, Seq<ValueView>)>, n: int, x: Seq<char>) -> Seq<ValueView>
    decreases n,
{
    if n <= 0 || n > s.len() {
        Seq::empty()
    } else {
        values_named(s, n - 1, x) + if s[n - 1].0 == x {
            s[n - 1].1
        } else {
            Seq::empty()
        }
    }
}

/// Whether one of the first `n` entries of `s` is named `x`.
pub open spec fn named_in(s: Seq<(Seq<char>, Seq<ValueView>)>, n: int, x: Seq<char>) -> bool {
    exists|k: int| 0 <= k < n && s[k].0 == x
}

proof fn lemma_values_named_empty(s: Seq<(Seq<char>, Seq<ValueView>)>, n: int, x: Seq<char>)
    requires
        0 <= n <= s.len(),
        !named_in(s, n, x),
    ensures
        values_named(s, n, x) == Seq::<ValueView>::empty(),
    decreases n,
{
    if n > 0 {
        assert(!named_in(s, n - 1, x)) by {
            if named_in(s, n - 1, x) {
                let k = choose|k: int| 0 <= k < n - 1 && s[k].0 == x;
            }
        }
        lemma_values_named_empty(s, n - 1, x);
        assert(s[n - 1].0 != x);
        assert(values_named(s, n, x) =~= Seq::<ValueView>::empty());
    }
}

/// Merging attributes by name keeps each name that occurs once, holding
/// the values of all the attributes of that name in order, and brings in no
/// other name.
pub proof fn lemma_merge_by_name(s: Seq<(Seq<char>, Seq<ValueView>)>, n: int, x: Seq<char>)
    requires
        0 <= n <= s.len(),
    ensures
        lookup(merge_upto(s, n), x) == if named_in(s, n, x) {
            Some(values_named(s, n, x))
        } else {
            None
        },
    decreases n,
{
    if n == 0 {
        lemma_lookup_none(merge_upto(s, 0), x);
    } else {
        lemma_merge_by_name(s, n - 1, x);
        let m = merge_upto(s, n - 1);
        let a = s[n - 1];
        let m2 = merge_upto(s, n);
        lemma_merge_unique(s, n - 1);
        lemma_merge_unique(s, n);
        lemma_index_of_name_from_bounds(m, a.0, 0);
        lemma_index_of_name_from_bounds(m, x, 0);
        let k = index_of_name(m, a.0);
        let kx = index_of_name(m, x);
        if a.0 == x {
            assert(named_in(s, n, x)) by {
                assert(s[n - 1].0 == x);
            }
            if k < m.len() {
                lemma_lookup_at(m, k);
                lemma_lookup_at(m2, k);
                assert(named_in(s, n - 1, x));
                assert(values_named(s, n, x) == values_named(s, n - 1, x) + a.1);
            } else {
                assert forall|j: int| 0 <= j < m.len() implies (#[trigger] m[j]).0 != x by {
                    lemma_index_not_found(m, x, 0, j);
                }
                lemma_lookup_none(m, x);
                assert(!named_in(s, n - 1, x));
                lemma_values_named_empty(s, n - 1, x);
                lemma_lookup_at(m2, m.len() as int);
                assert(values_named(s, n, x) =~= a.1);
            }
        } else {
            assert(values_named(s, n, x) =~= values_named(s, n - 1, x));
            assert(named_in(s, n, x) == named_in(s, n - 1, x)) by {
                if named_in(s, n, x) {
                    let j = choose|j: int| 0 <= j < n && s[j].0 == x;
                    assert(j < n - 1);
                }
            }
            if kx < m.len() {
                lemma_lookup_at(m, kx);
                assert(m2[kx].0 == x);
                if k < m.len() {
                    assert(kx != k);
                }
                assert(m2[kx] == m[kx]);
                lemma_lookup_at(m2, kx);
            } else {
                assert forall|j: int| 0 <= j < m2.len() implies (#[trigger] m2[j]).0 != x by {
                    if j < m.len() {
                        lemma_index_not_found(m, x, 0, j);
                    }
                }
                lemma_lookup_none(m2, x);
            }
        }
    }
}

/// The attributes to apply and to remove when the attributes of an element
/// go from `old` to `new`. Both sides are merged by name first, so each
/// name occurs at most once in each result.
pub fn diff_attributes(old: &Vec<Attribute>, new: &Vec<Attribute>) -> (r: (
    Vec<Attribute>,
    Vec<Attribute>,
))
    ensures
        attrs_view(r.0@) == attrs_to_add(old@, new@),
        attrs_view(r.1@) == attrs_to_remove(old@, new@),
        names_unique(attrs_view(r.0@)),
        names_unique(attrs_view(r.1@)),
        attrs_view(old@) == attrs_view(new@) && attrs_plain(new@) ==> r.0@.len() == 0
            && r.1@.len() == 0,
{
    let om = Attribute::merge_attributes_of_same_name(old);
    let nm = Attribute::merge_attributes_of_same_name(new);
    let ghost omv = attrs_view(om@);
    let ghost nmv = attrs_view(nm@);
    let mut adds: Vec<Attribute> = Vec::new();
    let mut j: usize = 0;
    while j < nm.len()
        invariant
            j <= nm@.len(),
            omv == attrs_view(om@),
            nmv == attrs_view(nm@),
            attrs_view(adds@) == nmv.subrange(0, j as int).filter(changed_in(omv)),
        decreases nm@.len() - j,
    {
        let k = find_name(&om, &nm[j].name);
        let changed = k >= om.len() || !same_values_of(&om[k], &nm[j]) || is_reserved(&nm[j].name);
        let ghost before = attrs_view(adds@);
        proof {
            reveal(Seq::filter);
        }
        assert(nmv.subrange(0, j + 1).drop_last() =~= nmv.subrange(0, j as int));
        assert(nmv.subrange(0, j + 1).last() == nmv[j as int]);
        assert(changed == changed_in(omv)(nmv[j as int]));
        if changed {
            adds.push(nm[j].duplicate());
            assert(attrs_view(adds@) =~= before.push(nmv[j as int]));
        }
        j = j + 1;
    }
    let mut removes: Vec<Attribute> = Vec::new();
    let mut i: usize = 0;
    while i < om.len()
        invariant
            i <= om@.len(),
            omv == attrs_view(om@),
            nmv == attrs_view(nm@),
            attrs_view(removes@) == omv.subrange(0, i as int).filter(gone_from(nmv)),
        decreases om@.len() - i,
    {
        let k = find_name(&nm, &om[i].name);
        let ghost before = attrs_view(removes@);
        proof {
            reveal(Seq::filter);
        }
        assert(omv.subrange(0, i + 1).drop_last() =~= omv.subrange(0, i as int));
        assert(omv.subrange(0, i + 1).last() == omv[i as int]);
        assert((k >= nm.len()) == gone_from(nmv)(omv[i as int]));
        if k >= nm.len() {
            removes.push(om[i].duplicate());
            assert(attrs_view(removes@) =~= before.push(omv[i as int]));
        }
        i = i + 1;
    }
    proof {
        assert(nmv.subrange(0, nmv.len() as int) =~= nmv);
        assert(omv.subrange(0, omv.len() as int) =~= omv);
        lemma_filter_unique(nmv, changed_in(omv));
        lemma_filter_unique(omv, gone_from(nmv));
        if attrs_view(old@) == attrs_view(new@) && attrs_plain(new@) {
            assert(omv == nmv);
            assert forall|q: int| 0 <= q < nmv.len() implies !changed_in(omv)(#[trigger] nmv[q]) by {
                lemma_index_of_unique(nmv, 0, q);
                assert(!reserved(nmv[q].0)) by {
                    reserved_names_kept(attrs_view(new@), nmv[q].0);
                }
            }
            assert forall|q: int| 0 <= q < omv.len() implies !gone_from(nmv)(#[trigger] omv[q]) by {
                lemma_index_of_unique(nmv, 0, q);
            }
            lemma_filter_none(nmv, changed_in(omv));
            lemma_filter_none(omv, gone_from(nmv));
        }
    }
    (adds, removes)
}

fn same_values_of(a: &Attribute, b: &Attribute) -> (r: bool)
    ensures
        r == (attr_view(*a).1 == attr_view(*b).1),
{
    same_values(&a.value, &b.value)
}

/// A name that occurs among the merged attributes occurs among the
/// attributes themselves; so merging brings in no reserved name.
proof fn reserved_names_kept(s: Seq<(Seq<char>, Seq<ValueView>)>, name: Seq<char>)
    requires
        forall|i: int| 0 <= i < s.len() ==> !reserved(#[trigger] s[i].0),
        exists|q: int| 0 <= q < merged(s).len() && merged(s)[q].0 == name,
    ensures
        !reserved(name),
{
    lemma_merge_names(s, s.len() as int);
}

proof fn lemma_merge_names(s: Seq<(Seq<char>, Seq<ValueView>)>, n: int)
    requires
        0 <= n <= s.len(),
    ensures
        forall|q: int|
            0 <= q < merge_upto(s, n).len() ==> exists|p: int|
                0 <= p < n && s[p].0 == #[trigger] merge_upto(s, n)[q].0,
    decreases n,
{
    if n > 0 {
        lemma_merge_names(s, n - 1);
        let m = merge_upto(s, n - 1);
        lemma_index_of_name_from_bounds(m, s[n - 1].0, 0);
        assert forall|q: int| 0 <= q < merge_upto(s, n).len() implies exists|p: int|
            0 <= p < n && s[p].0 == #[trigger] merge_upto(s, n)[q].0 by {
            if q < m.len() {
                let p = choose|p: int| 0 <= p < n - 1 && s[p].0 == m[q].0;
                assert(s[p].0 == merge_upto(s, n)[q].0);
            } else {
                assert(s[n - 1].0 == merge_upto(s, n)[q].0);
            }
        }
    }
}

/// The children of a node: those of an element or a fragment, none for a
/// leaf.
pub open spec fn children_of(n: Node) -> Seq<Node> {
    match n {
        Node::Element { children, .. } => children@,
        Node::Leaf(_) => Seq::empty(),
        Node::Fragment(children) => children@,
    }
}

fn has_replace_attr(attrs: &Vec<Attribute>) -> (r: bool)
    ensures
        r == has_replace(attrs@),
{
    let mut i: usize = 0;
    while i < attrs.len()
        invariant
            i <= attrs@.len(),
            forall|k: int| 0 <= k < i ==> !replace_set(#[trigger] attrs@[k]),
        decreases attrs@.len() - i,
    {
        if name_is(&attrs[i].name, "replace") && attrs[i].value.len() > 0 {
            if let AttributeValue::Simple(v) = &attrs[i].value[0] {
                if name_is(v, "true") {
                    return true;
                }
            }
        }
        i = i + 1;
    }
    false
}

fn needs_replacing(old: &Node, new: &Node) -> (r: bool)
    ensures
        r == needs_replace(*old, *new),
{
    match (old, new) {
        (
            Node::Element { tag: t1, namespace: n1, .. },
            Node::Element { tag: t2, namespace: n2, attrs, .. },
        ) => { !(*t1 == *t2) || !same_opt(n1, n2) || has_replace_attr(attrs) },
        (Node::Leaf(s1), Node::Leaf(s2)) => !(*s1 == *s2),
        (Node::Fragment(_), Node::Fragment(_)) => false,
        _ => true,
    }
}

fn tag_of(n: &Node) -> (r: Option<String>)
    ensures
        match n {
            Node::Element { tag, .. } => r is Some && r->Some_0@ == tag@,
            _ => r is None,
        },
{
    match n {
        Node::Element { tag, .. } => Some(copy_string(tag)),
        _ => None,
    }
}

fn child_skip<'a>(skip: Option<&'a SkipDiff>, i: usize) -> (r: Option<&'a SkipDiff>)
    ensures
        match skip {
            Some(s) => if i < s.children@.len() {
                r == Some(&s.children@[i as int])
            } else {
                r is None
            },
            None => r is None,
        },
{
    match skip {
        Some(s) => if i < s.children.len() {
            Some(&s.children[i])
        } else {
            None
        },
        None => None,
    }
}

fn copy_from(l: &Vec<Node>, lo: usize) -> (r: Vec<Node>)
    requires
        lo <= l@.len(),
    ensures
        r@.len() == l@.len() - lo,
        forall|k: int| 0 <= k < r@.len() ==> same_node(l@[lo + k], #[trigger] r@[k]),
{
    let mut out: Vec<Node> = Vec::new();
    let mut i: usize = lo;
    while i < l.len()
        invariant
            lo <= i <= l@.len(),
            out@.len() == i - lo,
            forall|k: int| 0 <= k < out@.len() ==> same_node(l@[lo + k], #[trigger] out@[k]),
        decreases l@.len() - i,
    {
        out.push(l[i].duplicate());
        i = i + 1;
    }
    out
}

/// The key among the attributes `s` from index `i` on: the first simple
/// value of the first attribute named `key`, if it has one.
pub open spec fn key_from(s: Seq<(Seq<char>, Seq<ValueView>)>, i: int) -> Option<Seq<char>>
    decreases s.len() - i,
{
    if i < 0 || i >= s.len() {
        None
    } else if s[i].0 == "key"@ {
        if s[i].1.len() > 0 && s[i].1[0] is Simple {
            Some(s[i].1[0]->Simple_0)
        } else {
            None
        }
    } else {
        key_from(s, i + 1)
    }
}

/// The key of a node: that of its attributes for an element, none
/// otherwise.
pub open spec fn node_key(n: Node) -> Option<Seq<char>> {
    match n {
        Node::Element { attrs, .. } => key_from(attrs_view(attrs@), 0),
        _ => None,
    }
}

/// The key of a node, as `node_key` states it.
pub fn key_of(n: &Node) -> (r: Option<&String>)
    ensures
        match r {
            Some(k) => node_key(*n) == Some(k@),
            None => node_key(*n) is None,
        },
{
    match n {
        Node::Element { attrs, .. } => {
            let ghost v = attrs_view(attrs@);
            let mut i: usize = 0;
            while i < attrs.len()
                invariant
                    i <= attrs@.len(),
                    v == attrs_view(attrs@),
                    node_key(*n) == key_from(v, 0),
                    key_from(v, 0) == key_from(v, i as int),
                decreases attrs@.len() - i,
            {
                if name_is(&attrs[i].name, "key") {
                    proof {
                        assert(v[i as int].0 == attrs@[i as int].name@);
                        assert(v[i as int].1 == values_view(attrs@[i as int].value@));
                    }
                    if attrs[i].value.len() > 0 {
                        proof {
                            assert(v[i as int].1[0] == attrs@[i as int].value@[0]@);
                        }
                        if let AttributeValue::Simple(k) = &attrs[i].value[0] {
                            return Some(k);
                        }
                    }
                    return None;
                }
                i = i + 1;
            }
            None
        },
        _ => None,
    }
}

fn same_key(a: Option<&String>, b: Option<&String>) -> (r: bool)
    ensures
        r == (match (a, b) {
            (Some(x), Some(y)) => x@ == y@,
            (None, None) => true,
            _ => false,
        }),
{
    match (a, b) {
        (Some(x), Some(y)) => *x == *y,
        (None, None) => true,
        _ => false,
    }
}

/// Whether the two lists have the same length and the same key at each
/// position.
fn same_keys(old: &Vec<Node>, new: &Vec<Node>) -> (r: bool)
    ensures
        r == (old@.len() == new@.len() && forall|k: int|
            0 <= k < old@.len() ==> node_key(#[trigger] old@[k]) == node_key(new@[k])),
{
    if old.len() != new.len() {
        return false;
    }
    let mut i: usize = 0;
    while i < old.len()
        invariant
            i <= old@.len(),
            old@.len() == new@.len(),
            forall|k: int| 0 <= k < i ==> node_key(#[trigger] old@[k]) == node_key(new@[k]),
        decreases old@.len() - i,
    {
        if !same_key(key_of(&old[i]), key_of(&new[i])) {
            return false;
        }
        i = i + 1;
    }
    true
}

/// Whether some node of the list has a key.
fn any_key(l: &Vec<Node>) -> (r: bool)
    ensures
        r == exists|k: int| 0 <= k < l@.len() && node_key(#[trigger] l@[k]) is Some,
{
    let mut i: usize = 0;
    while i < l.len()
        invariant
            i <= l@.len(),
            forall|k: int| 0 <= k < i ==> node_key(#[trigger] l@[k]) is None,
        decreases l@.len() - i,
    {
        if key_of(&l[i]).is_some() {
            return true;
        }
        i = i + 1;
    }
    false
}

fn single_path(p: TreePath) -> (r: Vec<TreePath>)
    ensures
        r@ == seq![p],
{
    let mut v: Vec<TreePath> = Vec::new();
    v.push(p);
    assert(v@ =~= seq![p]);
    v
}

fn single_node(n: Node) -> (r: Vec<Node>)
    ensures
        r@ == seq![n],
{
    let mut v: Vec<Node> = Vec::new();
    v.push(n);
    assert(v@ =~= seq![n]);
    v
}

/// For each new child, the index of the old child it is matched with by
/// key, or the number of old children when it has none: a new child with
/// a key takes the first old child with the same key that no earlier new
/// child took.
pub fn match_by_key(old: &Vec<Node>, new: &Vec<Node>) -> (r: Vec<usize>)
    ensures
        r@.len() == new@.len(),
        forall|j: int|
            0 <= j < r@.len() ==> #[trigger] r@[j] <= old@.len() && (r@[j] < old@.len() ==> (
            node_key(new@[j]) is Some && node_key(old@[r@[j] as int]) == node_key(new@[j]))),
        forall|a: int, b: int|
            0 <= a < b < r@.len() && r@[a] < old@.len() ==> r@[a] != r@[b],
        forall|j: int, i: int|
            0 <= j < r@.len() && r@[j] == old@.len() && node_key(new@[j]) is Some && 0 <= i
                < old@.len() && node_key(#[trigger] old@[i]) == node_key(#[trigger] new@[j])
                ==> exists|q: int| 0 <= q < j && r@[q] == i,
{
    let no = old.len();
    let mut used: Vec<bool> = Vec::new();
    while used.len() < no
        invariant
            used@.len() <= no,
            forall|k: int| 0 <= k < used@.len() ==> !#[trigger] used@[k],
        decreases no - used@.len(),
    {
        used.push(false);
    }
    let mut matched: Vec<usize> = Vec::new();
    let mut j: usize = 0;
    while j < new.len()
        invariant
            no == old@.len(),
            used@.len() == no,
            j <= new@.len(),
            matched@.len() == j,
            forall|q: int|
                0 <= q < j ==> #[trigger] matched@[q] <= no && (matched@[q] < no ==> (node_key(
                    new@[q],
                ) is Some && node_key(old@[matched@[q] as int]) == node_key(new@[q])
                    && used@[matched@[q] as int])),
            forall|a: int, b: int|
                0 <= a < b < j && matched@[a] < no ==> matched@[a] != matched@[b],
            forall|i: int| 0 <= i < no && #[trigger] used@[i] ==> exists|q: int| 0 <= q < j && matched@[q] == i,
            forall|q: int, i: int|
                0 <= q < j && matched@[q] == no && node_key(new@[q]) is Some && 0 <= i < no
                    && node_key(#[trigger] old@[i]) == node_key(#[trigger] new@[q])
                    ==> exists|q2: int| 0 <= q2 < q && matched@[q2] == i,
        decreases new@.len() - j,
    {
        let mut m: usize = no;
        let k = key_of(&new[j]);
        if k.is_some() {
            let mut i: usize = 0;
            while i < no
                invariant
                    no == old@.len(),
                    used@.len() == no,
                    i <= no,
                    k is Some,
                    m == no || (m < no && !used@[m as int] && node_key(old@[m as int]) == node_key(
                        new@[j as int],
                    )),
                    match k {
                        Some(x) => node_key(new@[j as int]) == Some(x@),
                        None => true,
                    },
                    m == no ==> forall|i2: int|
                        0 <= i2 < i ==> used@[i2] || node_key(#[trigger] old@[i2]) != node_key(
                            new@[j as int],
                        ),
                decreases no - i,
            {
                if m == no && !used[i] && same_key(key_of(&old[i]), k) {
                    m = i;
                }
                i = i + 1;
            }
        }
        let ghost used_before = used@;
        if m < no {
            used.set(m, true);
        }
        proof {
            assert forall|a: int, b: int|
                0 <= a < b < j + 1 && matched@.push(m)[a] < no implies matched@.push(m)[a]
                != matched@.push(m)[b] by {
                if b == j {
                    assert(used_before[matched@[a] as int]);
                }
            }
        }
        let ghost matched_before = matched@;
        matched.push(m);
        proof {
            assert forall|i: int| 0 <= i < no && #[trigger] used@[i] implies exists|q: int|
                0 <= q < j + 1 && matched@[q] == i by {
                if i == m {
                    assert(matched@[j as int] == i);
                } else {
                    assert(used_before[i]);
                    let q = choose|q: int| 0 <= q < j && matched_before[q] == i;
                    assert(matched@[q] == i);
                }
            }
            assert forall|q: int, i: int|
                0 <= q < j + 1 && matched@[q] == no && node_key(new@[q]) is Some && 0 <= i < no
                    && node_key(#[trigger] old@[i]) == node_key(#[trigger] new@[q]) implies exists|
                q2: int,
            | 0 <= q2 < q && matched@[q2] == i by {
                if q == j {
                    assert(used_before[i]);
                    let q2 = choose|q2: int| 0 <= q2 < j && matched_before[q2] == i;
                    assert(matched@[q2] == i);
                } else {
                    assert(matched_before[q] == no);
                    let q2 = choose|q2: int| 0 <= q2 < q && matched_before[q2] == i;
                    assert(matched@[q2] == i);
                }
            }
        }
        j = j + 1;
    }
    matched
}

/// Whether `u` lists new positions in increasing order whose children are
/// all matched (`matched[j] < no`), with old indices increasing as well:
/// children that can stay where they are relative to each other.
pub open spec fn in_order(matched: Seq<usize>, no: usize, u: Seq<int>) -> bool {
    (forall|k: int|
        0 <= k < u.len() ==> 0 <= #[trigger] u[k] < matched.len() && matched[u[k]] < no) && (
    forall|x: int, y: int|
        0 <= x < y < u.len() ==> u[x] < u[y] && matched[u[x]] < matched[u[y]])
}

/// The new positions of the children that stay in place in a keyed
/// reconciliation, given for each new child the old index it is matched
/// with (`no` when none): a largest set of matched children whose old
/// indices increase along the new order. Every other matched child has to
/// move, so this keeps the number of moves least.
pub fn keyed_anchors(matched: &Vec<usize>, no: usize) -> (r: Vec<usize>)
    ensures
        in_order(matched@, no, as_ints(r@)),
        forall|u: Seq<int>| in_order(matched@, no, u) ==> u.len() <= r@.len(),
        forall|u: Seq<int>|
            in_order(matched@, no, u) && u.len() == r@.len() && u.len() > 0 ==> r@[0] <= u[0],
{
    let nn = matched.len();
    let mut order: Vec<usize> = Vec::new();
    let mut pos: Vec<usize> = Vec::new();
    let ghost mut inv: Seq<int> = Seq::new(nn as nat, |j: int| 0int);
    let mut j: usize = 0;
    while j < nn
        invariant
            nn == matched@.len(),
            j <= nn,
            inv.len() == nn,
            order@.len() == pos@.len(),
            forall|q: int| 0 <= q < pos@.len() ==> #[trigger] pos@[q] < j,
            forall|q: int|
                0 <= q < pos@.len() ==> order@[q] == matched@[#[trigger] pos@[q] as int]
                    && matched@[pos@[q] as int] < no,
            forall|a: int, b: int| 0 <= a < b < pos@.len() ==> pos@[a] < pos@[b],
            forall|x: int|
                0 <= x < j && matched@[x] < no ==> 0 <= #[trigger] inv[x] < pos@.len()
                    && pos@[inv[x]] == x,
        decreases nn - j,
    {
        if matched[j] < no {
            proof {
                inv = inv.update(j as int, pos@.len() as int);
            }
            order.push(matched[j]);
            pos.push(j);
        }
        j = j + 1;
    }
    let lis = longest_increasing_subsequence(&order);
    let ghost li = as_ints(lis@);
    let mut r: Vec<usize> = Vec::new();
    let mut t: usize = 0;
    while t < lis.len()
        invariant
            li == as_ints(lis@),
            increasing_in(order@, li),
            t <= lis@.len(),
            r@.len() == t,
            order@.len() == pos@.len(),
            forall|q: int| 0 <= q < pos@.len() ==> #[trigger] pos@[q] < nn,
            forall|q: int|
                0 <= q < pos@.len() ==> order@[q] == matched@[#[trigger] pos@[q] as int]
                    && matched@[pos@[q] as int] < no,
            forall|a: int, b: int| 0 <= a < b < pos@.len() ==> pos@[a] < pos@[b],
            forall|k: int| 0 <= k < t ==> #[trigger] r@[k] == pos@[li[k]],
        decreases lis@.len() - t,
    {
        assert(li[t as int] == lis@[t as int] as int);
        r.push(pos[lis[t]]);
        t = t + 1;
    }
    proof {
        let ri = as_ints(r@);
        assert forall|k: int| 0 <= k < ri.len() implies 0 <= #[trigger] ri[k] < matched@.len()
            && matched@[ri[k]] < no by {
            assert(ri[k] == r@[k] as int);
        }
        assert forall|x: int, y: int| 0 <= x < y < ri.len() implies ri[x] < ri[y] && matched@[ri[x]]
            < matched@[ri[y]] by {
            assert(ri[x] == r@[x] as int);
            assert(ri[y] == r@[y] as int);
        }
        assert forall|u: Seq<int>| in_order(matched@, no, u) implies u.len() <= r@.len() by {
            let tt = Seq::new(u.len(), |k: int| inv[u[k]]);
            assert forall|k: int| 0 <= k < tt.len() implies 0 <= #[trigger] tt[k] < order@.len() by {
                assert(0 <= u[k] < nn && matched@[u[k]] < no);
            }
            assert forall|x: int, y: int| 0 <= x < y < tt.len() implies tt[x] < tt[y]
                && order@[tt[x]] < order@[tt[y]] by {
                assert(0 <= u[x] < nn && matched@[u[x]] < no);
                assert(0 <= u[y] < nn && matched@[u[y]] < no);
                assert(pos@[tt[x]] == u[x]);
                assert(pos@[tt[y]] == u[y]);
                if tt[x] >= tt[y] {
                    if tt[x] > tt[y] {
                        assert(pos@[tt[y]] < pos@[tt[x]]);
                    }
                }
                assert(order@[tt[x]] == matched@[pos@[tt[x]] as int]);
                assert(order@[tt[y]] == matched@[pos@[tt[y]] as int]);
            }
            assert(increasing_in(order@, tt));
        }
        assert forall|u: Seq<int>|
            in_order(matched@, no, u) && u.len() == r@.len() && u.len() > 0 implies r@[0] <= u[0] by {
            let tt = Seq::new(u.len(), |k: int| inv[u[k]]);
            assert forall|k: int| 0 <= k < tt.len() implies 0 <= #[trigger] tt[k] < order@.len() by {
                assert(0 <= u[k] < nn && matched@[u[k]] < no);
            }
            assert forall|x: int, y: int| 0 <= x < y < tt.len() implies tt[x] < tt[y]
                && order@[tt[x]] < order@[tt[y]] by {
                assert(0 <= u[x] < nn && matched@[u[x]] < no);
                assert(0 <= u[y] < nn && matched@[u[y]] < no);
                assert(pos@[tt[x]] == u[x]);
                assert(pos@[tt[y]] == u[y]);
                if tt[x] > tt[y] {
                    assert(pos@[tt[y]] < pos@[tt[x]]);
                }
                assert(order@[tt[x]] == matched@[pos@[tt[x]] as int]);
                assert(order@[tt[y]] == matched@[pos@[tt[y]] as int]);
            }
            assert(increasing_in(order@, tt));
            assert(tt.len() == lis@.len());
            assert(lis@[0] <= tt[0]);
            assert(0 <= u[0] < nn && matched@[u[0]] < no);
            assert(pos@[tt[0]] == u[0]);
            assert(li[0] == lis@[0] as int);
            assert(r@[0] == pos@[li[0]]);
            if li[0] < tt[0] {
                assert(pos@[li[0]] < pos@[tt[0]]);
            }
        }
    }
    r
}

/// Whether new position `j` is among `anchors`.
pub open spec fn anchor_at(anchors: Seq<usize>, j: int) -> bool {
    exists|t: int| 0 <= t < anchors.len() && anchors[t] as int == j
}

/// For each of the first `n` new positions, whether it is among `anchors`.
pub open spec fn anchor_flags(anchors: Seq<usize>, n: nat) -> Seq<bool> {
    Seq::new(n, |q: int| anchor_at(anchors, q))
}

/// Whether `p`, at a child of the node at `path`, moves the old child `i`
/// (and only it).
pub open spec fn moves_child(p: Patch, path: Seq<usize>, i: usize) -> bool {
    p.patch_path@.len() == path.len() + 1 && match p.patch_type {
        PatchType::MoveBeforeNode { nodes_path } => paths_view(nodes_path@) == seq![path.push(i)],
        PatchType::MoveAfterNode { nodes_path } => paths_view(nodes_path@) == seq![path.push(i)],
        _ => false,
    }
}

/// Whether `p`, at a child of the node at `path`, inserts one copy of `n`.
pub open spec fn inserts_child(p: Patch, path: Seq<usize>, n: Node) -> bool {
    p.patch_path@.len() == path.len() + 1 && match p.patch_type {
        PatchType::InsertBeforeNode { nodes } => nodes@.len() == 1 && same_node(n, nodes@[0]),
        PatchType::InsertAfterNode { nodes } => nodes@.len() == 1 && same_node(n, nodes@[0]),
        _ => false,
    }
}

/// Whether new child `j` is placed by `p`: moved when it is matched, or
/// inserted when it is not.
pub open spec fn places(
    matched: Seq<usize>,
    no: usize,
    new: Seq<Node>,
    path: Seq<usize>,
    p: Patch,
    j: int,
) -> bool {
    (matched[j] < no && moves_child(p, path, matched[j])) || (matched[j] == no && inserts_child(
        p,
        path,
        new[j],
    ))
}

/// Whether every move or insertion among the children of the node at
/// `path` places a new child that is not anchored.
pub open spec fn placements_sound(
    matched: Seq<usize>,
    no: usize,
    anch: Seq<bool>,
    new: Seq<Node>,
    path: Seq<usize>,
    s: Seq<Patch>,
) -> bool {
    forall|k: int|
        0 <= k < s.len() && (#[trigger] s[k]).patch_path@.len() == path.len() + 1
            && is_sibling_edit(s[k].patch_type) && !(s[k].patch_type is RemoveNode) ==> exists|j: int|
            0 <= j < matched.len() && !anch[j] && places(matched, no, new, path, s[k], j)
}

/// Whether new child `j` is placed, when it has to be: a matched child
/// that is not anchored is moved, a child with no match is inserted.
pub open spec fn placed(
    matched: Seq<usize>,
    no: usize,
    anch: Seq<bool>,
    new: Seq<Node>,
    path: Seq<usize>,
    s: Seq<Patch>,
    j: int,
) -> bool {
    (!anch[j] && matched[j] <= no) ==> exists|k: int|
        0 <= k < s.len() && places(matched, no, new, path, #[trigger] s[k], j)
}

proof fn lemma_sound_push(
    matched: Seq<usize>,
    no: usize,
    anch: Seq<bool>,
    new: Seq<Node>,
    path: Seq<usize>,
    s: Seq<Patch>,
)
    requires
        s.len() > 0,
        placements_sound(matched, no, anch, new, path, s.drop_last()),
        s.last().patch_path@.len() == path.len() + 1 && is_sibling_edit(s.last().patch_type)
            && !(s.last().patch_type is RemoveNode) ==> exists|j: int|
            0 <= j < matched.len() && !anch[j] && places(matched, no, new, path, s.last(), j),
    ensures
        placements_sound(matched, no, anch, new, path, s),
{
    assert forall|k: int|
        0 <= k < s.len() && (#[trigger] s[k]).patch_path@.len() == path.len() + 1
            && is_sibling_edit(s[k].patch_type) && !(s[k].patch_type is RemoveNode) implies exists|
        j: int,
    | 0 <= j < matched.len() && !anch[j] && places(matched, no, new, path, s[k], j) by {
        if k < s.len() - 1 {
            assert(s[k] == s.drop_last()[k]);
        }
    }
}

proof fn lemma_sound_append(
    matched: Seq<usize>,
    no: usize,
    anch: Seq<bool>,
    new: Seq<Node>,
    path: Seq<usize>,
    a: Seq<Patch>,
    i: usize,
    b: Seq<Patch>,
)
    requires
        placements_sound(matched, no, anch, new, path, a),
        edits_below(path.push(i), b),
    ensures
        placements_sound(matched, no, anch, new, path, a + b),
{
    assert forall|k: int|
        0 <= k < (a + b).len() && (#[trigger] (a + b)[k]).patch_path@.len() == path.len() + 1
            && is_sibling_edit((a + b)[k].patch_type) && !((a + b)[k].patch_type is RemoveNode) implies exists|
        j: int,
    | 0 <= j < matched.len() && !anch[j] && places(matched, no, new, path, (a + b)[k], j) by {
        if k < a.len() {
            assert((a + b)[k] == a[k]);
        } else {
            assert((a + b)[k] == b[k - a.len()]);
        }
    }
}

proof fn lemma_placed_push(
    matched: Seq<usize>,
    no: usize,
    anch: Seq<bool>,
    new: Seq<Node>,
    path: Seq<usize>,
    s: Seq<Patch>,
    j: int,
)
    requires
        s.len() > 0,
        placed(matched, no, anch, new, path, s.drop_last(), j),
    ensures
        placed(matched, no, anch, new, path, s, j),
{
    if !anch[j] && matched[j] <= no {
        let k = choose|k: int|
            0 <= k < s.drop_last().len() && places(matched, no, new, path, #[trigger] s.drop_last()[k], j);
        assert(s[k] == s.drop_last()[k]);
    }
}

/// The patches that turn keyed children `old` of the node at `path` into
/// `new`. Children are matched by key; the matched ones whose old indices,
/// taken in new order, form a longest increasing subsequence stay where
/// they are and anchor the others. Every other matched child is moved,
/// every new child without a match is inserted, next to the nearest anchor
/// after it (or after the last anchor), and every old child without a match
/// is removed. Matched children are diffed at their old paths.
/// How many patches of `s` satisfy `f`.
pub open spec fn count_patches(s: Seq<Patch>, f: spec_fn(Patch) -> bool) -> nat
    decreases s.len(),
{
    if s.len() == 0 {
        0
    } else {
        count_patches(s.drop_last(), f) + if f(s.last()) {
            1nat
        } else {
            0nat
        }
    }
}

/// How many positions in `lo..hi` satisfy `f`.
pub open spec fn count_positions(lo: int, hi: int, f: spec_fn(int) -> bool) -> nat
    decreases hi - lo,
{
    if hi <= lo {
        0
    } else {
        count_positions(lo, hi - 1, f) + if f(hi - 1) {
            1nat
        } else {
            0nat
        }
    }
}

/// A move or an insertion at a child of the node at `path`.
pub open spec fn placement_at(path: Seq<usize>) -> spec_fn(Patch) -> bool {
    |p: Patch|
        p.patch_path@.len() == path.len() + 1 && is_sibling_edit(p.patch_type) && !(
        p.patch_type is RemoveNode)
}

/// A move at a child of the node at `path`.
pub open spec fn move_at(path: Seq<usize>) -> spec_fn(Patch) -> bool {
    |p: Patch|
        p.patch_path@.len() == path.len() + 1 && (p.patch_type is MoveBeforeNode
            || p.patch_type is MoveAfterNode)
}

/// A new position that is not anchored.
pub open spec fn unanchored(anch: Seq<bool>) -> spec_fn(int) -> bool {
    |j: int| !anch[j]
}

/// A new position that is matched and not anchored: a child that moves.
pub open spec fn to_move(anch: Seq<bool>, matched: Seq<usize>, no: usize) -> spec_fn(int) -> bool {
    |j: int| !anch[j] && matched[j] < no
}

/// Whether no new child was matched with old child `i`.
pub open spec fn untaken(matched: Seq<usize>, i: int) -> bool {
    forall|j: int| 0 <= j < matched.len() ==> matched[j] != i
}

/// Whether every old child that no new child took has a removal in `s`.
pub open spec fn removed_all(matched: Seq<usize>, no: usize, path: Seq<usize>, s: Seq<Patch>, upto: int) -> bool {
    forall|i: int|
        0 <= i < upto && i < no && untaken(matched, i) ==> exists|k: int|
            0 <= k < s.len() && #[trigger] is_remove_at(s[k], path.push(i as usize))
}

proof fn lemma_removed_push(matched: Seq<usize>, no: usize, path: Seq<usize>, s: Seq<Patch>, upto: int)
    requires
        s.len() > 0,
        removed_all(matched, no, path, s.drop_last(), upto),
    ensures
        removed_all(matched, no, path, s, upto),
{
    assert forall|i: int| 0 <= i < upto && i < no && untaken(matched, i) implies exists|k: int|
        0 <= k < s.len() && #[trigger] is_remove_at(s[k], path.push(i as usize)) by {
        let k = choose|k: int|
            0 <= k < s.drop_last().len() && #[trigger] is_remove_at(s.drop_last()[k], path.push(i as usize));
        assert(s[k] == s.drop_last()[k]);
    }
}

proof fn lemma_removed_append(matched: Seq<usize>, no: usize, path: Seq<usize>, a: Seq<Patch>, b: Seq<Patch>)
    requires
        removed_all(matched, no, path, a, no as int),
    ensures
        removed_all(matched, no, path, a + b, no as int),
{
    assert forall|i: int| 0 <= i < no && i < no && untaken(matched, i) implies exists|k: int|
        0 <= k < (a + b).len() && #[trigger] is_remove_at((a + b)[k], path.push(i as usize)) by {
        let k = choose|k: int| 0 <= k < a.len() && #[trigger] is_remove_at(a[k], path.push(i as usize));
        assert((a + b)[k] == a[k]);
    }
}

proof fn lemma_count_append_none(a: Seq<Patch>, b: Seq<Patch>, f: spec_fn(Patch) -> bool)
    requires
        forall|k: int| 0 <= k < b.len() ==> !f(#[trigger] b[k]),
    ensures
        count_patches(a + b, f) == count_patches(a, f),
    decreases b.len(),
{
    if b.len() > 0 {
        let c = b.drop_last();
        assert forall|k: int| 0 <= k < c.len() implies !f(#[trigger] c[k]) by {
            assert(c[k] == b[k]);
        }
        lemma_count_append_none(a, c, f);
        assert((a + b).drop_last() =~= a + c);
        assert((a + b).last() == b.last());
        assert(!f(b[b.len() - 1]));
    }
}

proof fn lemma_count_front(lo: int, hi: int, f: spec_fn(int) -> bool)
    requires
        lo < hi,
    ensures
        count_positions(lo, hi, f) == count_positions(lo + 1, hi, f) + if f(lo) {
            1nat
        } else {
            0nat
        },
    decreases hi - lo,
{
    if hi - 1 > lo {
        lemma_count_front(lo, hi - 1, f);
    } else {
        assert(count_positions(lo, hi - 1, f) == 0);
        assert(count_positions(lo + 1, hi, f) == 0);
    }
}

proof fn lemma_count_split(lo: int, m: int, hi: int, f: spec_fn(int) -> bool)
    requires
        lo <= m <= hi,
    ensures
        count_positions(lo, hi, f) == count_positions(lo, m, f) + count_positions(m, hi, f),
    decreases hi - m,
{
    if hi > m {
        lemma_count_split(lo, m, hi - 1, f);
    }
}

proof fn lemma_nested_not_counted(path: Seq<usize>, i: usize, b: Seq<Patch>)
    requires
        edits_below(path.push(i), b),
    ensures
        forall|k: int| 0 <= k < b.len() ==> !placement_at(path)(#[trigger] b[k]),
        forall|k: int| 0 <= k < b.len() ==> !move_at(path)(#[trigger] b[k]),
{
}

/// `matched` gives for each new child the old index it is matched with (the
/// number of old children when none), as `match_by_key` makes it;
/// `anchors` are the new positions that stay, as `keyed_anchors` picks
/// them.
pub fn diff_keyed(
    old: &Vec<Node>,
    new: &Vec<Node>,
    matched: &Vec<usize>,
    anchors: &Vec<usize>,
    skip: Option<&SkipDiff>,
    path: &TreePath,
    tag: Option<String>,
) -> (r: Vec<Patch>)
    requires
        matched@.len() == new@.len(),
        forall|j: int|
            0 <= j < matched@.len() ==> #[trigger] matched@[j] <= old@.len() && (matched@[j]
                < old@.len() ==> (node_key(new@[j]) is Some && node_key(old@[matched@[j] as int])
                == node_key(new@[j]))),
        forall|j: int, i: int|
            0 <= j < matched@.len() && matched@[j] == old@.len() && node_key(new@[j]) is Some && 0
                <= i < old@.len() && node_key(#[trigger] old@[i]) == node_key(#[trigger] new@[j])
                ==> exists|q: int| 0 <= q < j && matched@[q] == i,
        in_order(matched@, old@.len() as usize, as_ints(anchors@)),
    ensures
        all_under(path@, r@),
        edits_below(path@, r@),
        removals_justified(old@, new@, path@, r@),
        placements_sound(
            matched@,
            old@.len() as usize,
            anchor_flags(anchors@, new@.len()),
            new@,
            path@,
            r@,
        ),
        anchors@.len() > 0 ==> forall|j: int|
            0 <= j < new@.len() ==> #[trigger] placed(
                matched@,
                old@.len() as usize,
                anchor_flags(anchors@, new@.len()),
                new@,
                path@,
                r@,
                j,
            ),
        removed_all(matched@, old@.len() as usize, path@, r@, old@.len() as int),
        forall|j: int|
            0 <= j < new@.len() && matched@[j] < old@.len() ==> #[trigger] keyed_pair_done(
                old@,
                new@,
                matched@,
                skip,
                path@,
                r@,
                j,
            ),
        anchors@.len() > 0 ==> count_patches(r@, placement_at(path@)) == count_positions(
            0,
            new@.len() as int,
            unanchored(anchor_flags(anchors@, new@.len())),
        ),
        anchors@.len() > 0 ==> count_patches(r@, move_at(path@)) == count_positions(
            0,
            new@.len() as int,
            to_move(anchor_flags(anchors@, new@.len()), matched@, old@.len() as usize),
        ),
        anchors@.len() == 0 && new@.len() > 0 ==> r@.len() > 0 && is_append(
            r@[r@.len() - 1],
            path@,
            new@,
        ),
    decreases old@, 0int,
{
    let no = old.len();
    let nn = new.len();
    let ghost anch = anchor_flags(anchors@, nn as nat);
    let mut patches: Vec<Patch> = Vec::new();
    // Old children that no new child took are removed.
    let mut taken: Vec<bool> = Vec::new();
    while taken.len() < no
        invariant
            all_under(path@, patches@),
            edits_below(path@, patches@),
            removals_justified(old@, new@, path@, patches@),
            placements_sound(matched@, no, anch, new@, path@, patches@),
            anch == anchor_flags(anchors@, new@.len()),
            taken@.len() <= no,
            count_patches(patches@, placement_at(path@)) == 0,
            count_patches(patches@, move_at(path@)) == 0,
            forall|k: int| 0 <= k < taken@.len() ==> !#[trigger] taken@[k],
            patches@.len() == 0,
        decreases no - taken@.len(),
    {
        taken.push(false);
    }
    let mut j: usize = 0;
    while j < nn
        invariant
            all_under(path@, patches@),
            edits_below(path@, patches@),
            removals_justified(old@, new@, path@, patches@),
            placements_sound(matched@, no, anch, new@, path@, patches@),
            anch == anchor_flags(anchors@, new@.len()),
            taken@.len() == no,
            matched@.len() == nn,
            j <= nn,
            forall|q: int| 0 <= q < nn ==> #[trigger] matched@[q] <= no,
            forall|q: int| 0 <= q < j && matched@[q] < no ==> taken@[#[trigger] matched@[q] as int],
            count_patches(patches@, placement_at(path@)) == 0,
            count_patches(patches@, move_at(path@)) == 0,
            patches@.len() == 0,
            forall|i2: int| 0 <= i2 < no && #[trigger] taken@[i2] ==> exists|q: int| 0 <= q < j && matched@[q] == i2,
        decreases nn - j,
    {
        let ghost before = taken@;
        if matched[j] < no {
            taken.set(matched[j], true);
        }
        proof {
            assert forall|i2: int| 0 <= i2 < no && #[trigger] taken@[i2] implies exists|q: int|
                0 <= q < j + 1 && matched@[q] == i2 by {
                if before[i2] {
                    let q = choose|q: int| 0 <= q < j && matched@[q] == i2;
                } else {
                    assert(matched@[j as int] == i2);
                }
            }
        }
        j = j + 1;
    }
    let mut i: usize = 0;
    while i < no
        invariant
            all_under(path@, patches@),
            edits_below(path@, patches@),
            removals_justified(old@, new@, path@, patches@),
            placements_sound(matched@, no, anch, new@, path@, patches@),
            anch == anchor_flags(anchors@, new@.len()),
            taken@.len() == no,
            no == old@.len(),
            nn == new@.len(),
            matched@.len() == nn,
            forall|q: int| 0 <= q < nn && matched@[q] < no ==> taken@[#[trigger] matched@[q] as int],
            forall|q: int|
                0 <= q < nn ==> #[trigger] matched@[q] <= no && (matched@[q] < no ==> (node_key(
                    new@[q],
                ) is Some && node_key(old@[matched@[q] as int]) == node_key(new@[q]))),
            forall|q: int, i2: int|
                0 <= q < nn && matched@[q] == no && node_key(new@[q]) is Some && 0 <= i2 < no
                    && node_key(#[trigger] old@[i2]) == node_key(#[trigger] new@[q])
                    ==> exists|q2: int| 0 <= q2 < q && matched@[q2] == i2,
            count_patches(patches@, placement_at(path@)) == 0,
            count_patches(patches@, move_at(path@)) == 0,
            i <= no,
            removed_all(matched@, no, path@, patches@, i as int),
            forall|i2: int| 0 <= i2 < no && #[trigger] taken@[i2] ==> exists|q: int| 0 <= q < nn && matched@[q] == i2,
        decreases no - i,
    {
        if !taken[i] {
            proof {
                assert forall|j: int|
                    0 <= j < new@.len() && node_key(#[trigger] new@[j]) is Some && node_key(new@[j])
                        == node_key(old@[i as int]) implies exists|i2: int|
                    0 <= i2 < old@.len() && i2 != i && node_key(old@[i2]) == node_key(new@[j]) by {
                    if matched@[j] < no {
                        if matched@[j] == i {
                            assert(taken@[matched@[j] as int]);
                        }
                        assert(node_key(old@[matched@[j] as int]) == node_key(new@[j]));
                    } else {
                        assert(node_key(old@[i as int]) == node_key(new@[j]));
                        let q2 = choose|q2: int| 0 <= q2 < j && matched@[q2] == i;
                        assert(taken@[matched@[q2] as int]);
                    }
                }
                assert(removable(old@, new@, i));
            }
            push_at(&mut patches, path, Some(i), tag_of(&old[i]), PatchType::RemoveNode);
            proof {
                assert(patches@.last().patch_path@[path@.len() as int] == i);
                lemma_justified_push(old@, new@, path@, patches@);
                lemma_sound_push(matched@, no, anch, new@, path@, patches@);
                lemma_removed_push(matched@, no, path@, patches@, i as int);
                assert(is_remove_at(patches@[patches@.len() - 1], path@.push(i)));
                assert forall|i2: int| 0 <= i2 < i + 1 && i2 < no && untaken(matched@, i2) implies exists|k: int|
                    0 <= k < patches@.len() && #[trigger] is_remove_at(patches@[k], path@.push(i2 as usize)) by {
                    if i2 == i {
                        assert(is_remove_at(patches@[patches@.len() - 1], path@.push(i2 as usize)));
                    }
                }
            }
        } else {
            proof {
                let q = choose|q: int| 0 <= q < nn && matched@[q] == i;
                assert(!untaken(matched@, i as int));
                assert forall|i2: int| 0 <= i2 < i + 1 && i2 < no && untaken(matched@, i2) implies exists|k: int|
                    0 <= k < patches@.len() && #[trigger] is_remove_at(patches@[k], path@.push(i2 as usize)) by {
                    if i2 == i {
                        assert(!untaken(matched@, i2));
                    }
                }
            }
        }
        i = i + 1;
    }
    let mut anchored: Vec<bool> = Vec::new();
    while anchored.len() < nn
        invariant
            anchored@.len() <= nn,
            forall|q: int| 0 <= q < anchored@.len() ==> !#[trigger] anchored@[q],
            count_patches(patches@, placement_at(path@)) == 0,
            count_patches(patches@, move_at(path@)) == 0,
            removed_all(matched@, no, path@, patches@, no as int),
        decreases nn - anchored@.len(),
    {
        anchored.push(false);
    }
    let mut t: usize = 0;
    while t < anchors.len()
        invariant
            all_under(path@, patches@),
            edits_below(path@, patches@),
            removals_justified(old@, new@, path@, patches@),
            placements_sound(matched@, no, anch, new@, path@, patches@),
            anch == anchor_flags(anchors@, new@.len()),
            anchored@.len() == nn,
            matched@.len() == nn,
            in_order(matched@, no, as_ints(anchors@)),
            forall|q: int| 0 <= q < nn && anchored@[q] ==> #[trigger] matched@[q] < no,
            t <= anchors@.len(),
            nn == new@.len(),
            forall|q: int|
                0 <= q < nn ==> #[trigger] anchored@[q] == exists|tt: int|
                    0 <= tt < t && anchors@[tt] as int == q,
            count_patches(patches@, placement_at(path@)) == 0,
            count_patches(patches@, move_at(path@)) == 0,
            removed_all(matched@, no, path@, patches@, no as int),
        decreases anchors@.len() - t,
    {
        assert(as_ints(anchors@)[t as int] == anchors@[t as int] as int);
        let ghost before = anchored@;
        anchored.set(anchors[t], true);
        proof {
            assert forall|q: int| 0 <= q < nn implies #[trigger] anchored@[q] == exists|tt: int|
                0 <= tt < t + 1 && anchors@[tt] as int == q by {
                if q == anchors@[t as int] as int {
                } else {
                    assert(anchored@[q] == before[q]);
                    if anchored@[q] {
                        let tt = choose|tt: int| 0 <= tt < t && anchors@[tt] as int == q;
                    }
                }
            }
        }
        t = t + 1;
    }
    proof {
        assert(anchored@ =~= anch);
    }
    // Matched children are diffed where they stand in the old tree.
    let mut j: usize = 0;
    while j < nn
        invariant
            all_under(path@, patches@),
            edits_below(path@, patches@),
            removals_justified(old@, new@, path@, patches@),
            placements_sound(matched@, no, anch, new@, path@, patches@),
            anch == anchor_flags(anchors@, new@.len()),
            no == old@.len(),
            nn == new@.len(),
            matched@.len() == nn,
            anchored@.len() == nn,
            anchored@ == anch,
            forall|q: int| 0 <= q < nn && anchored@[q] ==> #[trigger] matched@[q] < no,
            count_patches(patches@, placement_at(path@)) == 0,
            count_patches(patches@, move_at(path@)) == 0,
            removed_all(matched@, no, path@, patches@, no as int),
            forall|q: int| 0 <= q < j && matched@[q] < no ==> #[trigger] keyed_pair_done(old@, new@, matched@, skip, path@, patches@, q),
        decreases nn - j,
    {
        let m = matched[j];
        if m < no {
            let child_path = path.traverse(m);
            let cs = child_skip(skip, j);
            let mut more = diff_recursive(&old[m], &new[j], cs, &child_path);
            proof {
                let all = patches@ + more@;
                assert forall|q: int| 0 <= q < j && matched@[q] < no implies #[trigger] keyed_pair_done(
                    old@, new@, matched@, skip, path@, all, q) by {
                    lemma_keyed_pair_keep(old@, new@, matched@, skip, path@, patches@, all, q);
                }
                let o = old@[m as int];
                let sk = child_skipped(skip, j as int, o, new@[j as int]);
                assert(skipped(cs, o, new@[j as int]) == sk);
                let k = patches@.len() as int;
                if !sk && needs_replace(o, new@[j as int]) {
                    assert(all[k] == more@[0]);
                }
                if !sk && !needs_replace(o, new@[j as int]) {
                    if let (Node::Element { attrs: a1, .. }, Node::Element { attrs: a2, .. }) = (o, new@[j as int]) {
                        let adds = attrs_to_add(a1@, a2@);
                        let n_add: int = if adds.len() > 0 { 1 } else { 0 };
                        if adds.len() > 0 {
                            assert(all[k] == more@[0]);
                        }
                        if attrs_to_remove(a1@, a2@).len() > 0 {
                            assert(all[k + n_add] == more@[n_add]);
                        }
                    }
                }
                assert(pair_fixed(o, new@[j as int], sk, path@.push(m), all, k));
                assert(keyed_pair_done(old@, new@, matched@, skip, path@, all, j as int));
                lemma_under_child(path@, m, more@);
                lemma_under_append(path@, patches@, more@);
                lemma_justified_append(old@, new@, path@, patches@, m, more@);
                lemma_edits_below_append(path@, patches@, more@);
                lemma_sound_append(matched@, no, anch, new@, path@, patches@, m, more@);
                lemma_removed_append(matched@, no, path@, patches@, more@);
                lemma_nested_not_counted(path@, m, more@);
                lemma_count_append_none(patches@, more@, placement_at(path@));
                lemma_count_append_none(patches@, more@, move_at(path@));
            }
            patches.append(&mut more);
        }
        proof {
            if m >= no {
                assert forall|q: int| 0 <= q < j + 1 && matched@[q] < no implies #[trigger] keyed_pair_done(
                    old@, new@, matched@, skip, path@, patches@, q) by {}
            }
        }
        j = j + 1;
    }
    // The last anchor, if any.
    let mut last: usize = nn;
    let mut j: usize = 0;
    while j < nn
        invariant
            all_under(path@, patches@),
            edits_below(path@, patches@),
            removals_justified(old@, new@, path@, patches@),
            placements_sound(matched@, no, anch, new@, path@, patches@),
            anch == anchor_flags(anchors@, new@.len()),
            anchored@.len() == nn,
            matched@.len() == nn,
            last <= nn,
            j <= nn,
            last < nn ==> anchored@[last as int] && last < j,
            forall|q: int| 0 <= q < j && q > last ==> !#[trigger] anchored@[q],
            last == nn ==> forall|q: int| 0 <= q < j ==> !#[trigger] anchored@[q],
            anchored@ == anch,
            forall|q: int| 0 <= q < nn && anchored@[q] ==> #[trigger] matched@[q] < no,
            count_patches(patches@, placement_at(path@)) == 0,
            count_patches(patches@, move_at(path@)) == 0,
            removed_all(matched@, no, path@, patches@, no as int),
            forall|q: int| 0 <= q < nn && matched@[q] < no ==> #[trigger] keyed_pair_done(old@, new@, matched@, skip, path@, patches@, q),
        decreases nn - j,
    {
        if anchored[j] {
            last = j;
        }
        j = j + 1;
    }
    proof {
        if anchors@.len() > 0 {
            assert(as_ints(anchors@)[0] == anchors@[0] as int);
            assert(anch[anchors@[0] as int]);
        }
    }
    if last == nn {
        // No child was matched: the new children are appended.
        if nn > 0 {
            let children = copy_from(new, 0);
            proof {
                assert forall|k: int| 0 <= k < new@.len() implies same_node(
                    #[trigger] new@[k],
                    children@[k],
                ) by {
                    assert(new@[0 + k] == new@[k]);
                }
                lemma_same_list_each(new@, children@, new@.len() as int);
            }
            let ghost before_push = patches@;
            push_at(&mut patches, path, None, tag, PatchType::AppendChildren { children });
            proof {
                assert forall|q: int| 0 <= q < nn && matched@[q] < no implies #[trigger] keyed_pair_done(
                    old@, new@, matched@, skip, path@, patches@, q) by {
                    lemma_keyed_pair_keep(old@, new@, matched@, skip, path@, before_push, patches@, q);
                }
            }
            proof {
                lemma_removed_push(matched@, no, path@, patches@, no as int);
                lemma_justified_push(old@, new@, path@, patches@);
                lemma_sound_push(matched@, no, anch, new@, path@, patches@);
            }
        }
        return patches;
    }
    // Children before an anchor go before the nearest anchor after them.
    let mut j: usize = 0;
    while j < last
        invariant
            all_under(path@, patches@),
            edits_below(path@, patches@),
            removals_justified(old@, new@, path@, patches@),
            placements_sound(matched@, no, anch, new@, path@, patches@),
            anch == anchor_flags(anchors@, new@.len()),
            no == old@.len(),
            nn == new@.len(),
            last < nn,
            anchored@.len() == nn,
            matched@.len() == nn,
            forall|q: int| 0 <= q < nn && anchored@[q] ==> #[trigger] matched@[q] < no,
            anchored@[last as int],
            anchored@ == anch,
            j <= last,
            forall|q: int| last < q < nn ==> !#[trigger] anchored@[q],
            forall|q: int| 0 <= q < j ==> #[trigger] placed(matched@, no, anch, new@, path@, patches@, q),
            forall|q: int| 0 <= q < nn ==> #[trigger] matched@[q] <= no,
            removed_all(matched@, no, path@, patches@, no as int),
            count_patches(patches@, placement_at(path@)) == count_positions(0, j as int, unanchored(anch)),
            count_patches(patches@, move_at(path@)) == count_positions(0, j as int, to_move(anch, matched@, no)),
            forall|q: int| 0 <= q < nn && matched@[q] < no ==> #[trigger] keyed_pair_done(old@, new@, matched@, skip, path@, patches@, q),
        decreases last - j,
    {
        if !anchored[j] {
            let mut a: usize = j + 1;
            while a < last && !anchored[a]
                invariant
                    j < a <= last,
                    last < nn,
                    anchored@.len() == nn,
                decreases last - a,
            {
                a = a + 1;
            }
            assert(anchored@[a as int]);
            let target = matched[a];
            let patch_type = if matched[j] < no {
                let tp = path.traverse(matched[j]);
                let np = single_path(tp);
                assert(paths_view(np@) =~= seq![path@.push(matched@[j as int])]);
                PatchType::MoveBeforeNode { nodes_path: np }
            } else {
                PatchType::InsertBeforeNode { nodes: single_node(new[j].duplicate()) }
            };
            let ghost before_push = patches@;
            push_at(&mut patches, path, Some(target), tag_of(&old[target]), patch_type);
            proof {
                assert forall|q: int| 0 <= q < nn && matched@[q] < no implies #[trigger] keyed_pair_done(
                    old@, new@, matched@, skip, path@, patches@, q) by {
                    lemma_keyed_pair_keep(old@, new@, matched@, skip, path@, before_push, patches@, q);
                }
            }
            proof {
                lemma_justified_push(old@, new@, path@, patches@);
                lemma_removed_push(matched@, no, path@, patches@, no as int);
                assert(places(matched@, no, new@, path@, patches@.last(), j as int));
                lemma_sound_push(matched@, no, anch, new@, path@, patches@);
                assert forall|q: int| 0 <= q < j implies #[trigger] placed(matched@, no, anch, new@, path@, patches@, q) by {
                    lemma_placed_push(matched@, no, anch, new@, path@, patches@, q);
                }
                assert(patches@[patches@.len() - 1] == patches@.last());
            }
        }
        j = j + 1;
    }
    proof {
        assert(count_positions(0, last as int, unanchored(anch)) == count_patches(patches@, placement_at(path@)));
    }
    // Children after the last anchor go right after it, the last first.
    assert(anchored@[last as int]);
    let target = matched[last];
    let mut j: usize = nn;
    while j > last + 1
        invariant
            all_under(path@, patches@),
            edits_below(path@, patches@),
            removals_justified(old@, new@, path@, patches@),
            placements_sound(matched@, no, anch, new@, path@, patches@),
            anch == anchor_flags(anchors@, new@.len()),
            no == old@.len(),
            nn == new@.len(),
            matched@.len() == nn,
            last < j <= nn,
            target < no,
            anchored@.len() == nn,
            anchored@ == anch,
            anchored@[last as int],
            forall|q: int| last < q < nn ==> !#[trigger] anchored@[q],
            forall|q: int| 0 <= q < nn ==> #[trigger] matched@[q] <= no,
            forall|q: int|
                (0 <= q < last || j <= q < nn) ==> #[trigger] placed(matched@, no, anch, new@, path@, patches@, q),
            removed_all(matched@, no, path@, patches@, no as int),
            count_patches(patches@, placement_at(path@)) == count_positions(0, last as int, unanchored(anch))
                + count_positions(j as int, nn as int, unanchored(anch)),
            count_patches(patches@, move_at(path@)) == count_positions(0, last as int, to_move(anch, matched@, no))
                + count_positions(j as int, nn as int, to_move(anch, matched@, no)),
            forall|q: int| 0 <= q < nn && matched@[q] < no ==> #[trigger] keyed_pair_done(old@, new@, matched@, skip, path@, patches@, q),
        decreases j,
    {
        j = j - 1;
        let patch_type = if matched[j] < no {
            let tp = path.traverse(matched[j]);
            let np = single_path(tp);
            assert(paths_view(np@) =~= seq![path@.push(matched@[j as int])]);
            PatchType::MoveAfterNode { nodes_path: np }
        } else {
            PatchType::InsertAfterNode { nodes: single_node(new[j].duplicate()) }
        };
        let ghost before_push = patches@;
        push_at(&mut patches, path, Some(target), tag_of(&old[target]), patch_type);
        proof {
            assert forall|q: int| 0 <= q < nn && matched@[q] < no implies #[trigger] keyed_pair_done(
                old@, new@, matched@, skip, path@, patches@, q) by {
                lemma_keyed_pair_keep(old@, new@, matched@, skip, path@, before_push, patches@, q);
            }
            lemma_justified_push(old@, new@, path@, patches@);
            lemma_removed_push(matched@, no, path@, patches@, no as int);
            lemma_count_front(j as int, nn as int, unanchored(anch));
            lemma_count_front(j as int, nn as int, to_move(anch, matched@, no));
            assert(!anch[j as int]);
            assert(places(matched@, no, new@, path@, patches@.last(), j as int));
            lemma_sound_push(matched@, no, anch, new@, path@, patches@);
            assert forall|q: int| (0 <= q < last || j + 1 <= q < nn) implies #[trigger] placed(
                matched@,
                no,
                anch,
                new@,
                path@,
                patches@,
                q,
            ) by {
                lemma_placed_push(matched@, no, anch, new@, path@, patches@, q);
            }
            assert(patches@[patches@.len() - 1] == patches@.last());
        }
    }
    proof {
        assert(anch[last as int]);
        lemma_count_split(0, last as int, nn as int, unanchored(anch));
        lemma_count_front(last as int, nn as int, unanchored(anch));
        lemma_count_split(0, last as int, nn as int, to_move(anch, matched@, no));
        lemma_count_front(last as int, nn as int, to_move(anch, matched@, no));
    }
    patches
}

/// A new position that is matched with an old child.
pub open spec fn is_matched(matched: Seq<usize>, no: usize) -> spec_fn(int) -> bool {
    |j: int| matched[j] < no
}

proof fn lemma_count_disjoint(lo: int, hi: int, h: spec_fn(int) -> bool, g: spec_fn(int) -> bool)
    requires
        forall|j: int| lo <= j < hi && #[trigger] g(j) ==> h(j),
    ensures
        count_positions(lo, hi, |j: int| h(j) && !g(j)) + count_positions(lo, hi, g)
            == count_positions(lo, hi, h),
    decreases hi - lo,
{
    if hi > lo {
        lemma_count_disjoint(lo, hi - 1, h, g);
    }
}

proof fn lemma_count_add_one(lo: int, hi: int, f: spec_fn(int) -> bool, f2: spec_fn(int) -> bool, x: int)
    requires
        lo <= x < hi,
        !f(x),
        forall|j: int| #[trigger] f2(j) == (f(j) || j == x),
    ensures
        count_positions(lo, hi, f2) == count_positions(lo, hi, f) + 1,
    decreases hi - lo,
{
    if hi - 1 > x {
        lemma_count_add_one(lo, hi - 1, f, f2, x);
        assert(f2(hi - 1) == f(hi - 1));
    } else {
        assert forall|j: int| lo <= j < hi - 1 implies #[trigger] f2(j) == f(j) by {}
        lemma_count_same(lo, hi - 1, f, f2);
    }
}

proof fn lemma_count_same(lo: int, hi: int, f: spec_fn(int) -> bool, f2: spec_fn(int) -> bool)
    requires
        forall|j: int| lo <= j < hi ==> #[trigger] f2(j) == f(j),
    ensures
        count_positions(lo, hi, f2) == count_positions(lo, hi, f),
    decreases hi - lo,
{
    if hi > lo {
        lemma_count_same(lo, hi - 1, f, f2);
    }
}

proof fn lemma_count_anchors(a: Seq<int>, n: int)
    requires
        forall|k: int| 0 <= k < a.len() ==> 0 <= #[trigger] a[k] < n,
        forall|x: int, y: int| 0 <= x < y < a.len() ==> a[x] < a[y],
    ensures
        count_positions(0, n, |j: int| exists|t: int| 0 <= t < a.len() && a[t] == j) == a.len(),
    decreases a.len(),
{
    let f2 = |j: int| exists|t: int| 0 <= t < a.len() && a[t] == j;
    if a.len() == 0 {
        lemma_count_none(0, n, f2);
    } else {
        let d = a.drop_last();
        let f = |j: int| exists|t: int| 0 <= t < d.len() && d[t] == j;
        lemma_count_anchors(d, n);
        let x = a[a.len() - 1];
        assert(!f(x)) by {
            if f(x) {
                let t = choose|t: int| 0 <= t < d.len() && d[t] == x;
                assert(a[t] < a[a.len() - 1]);
            }
        }
        assert forall|j: int| #[trigger] f2(j) == (f(j) || j == x) by {
            if f2(j) {
                let t = choose|t: int| 0 <= t < a.len() && a[t] == j;
                if t < a.len() - 1 {
                    assert(d[t] == j);
                }
            }
            if f(j) {
                let t = choose|t: int| 0 <= t < d.len() && d[t] == j;
                assert(a[t] == j);
            }
        }
        lemma_count_add_one(0, n, f, f2, x);
    }
}

proof fn lemma_count_none(lo: int, hi: int, f: spec_fn(int) -> bool)
    requires
        forall|j: int| lo <= j < hi ==> !#[trigger] f(j),
    ensures
        count_positions(lo, hi, f) == 0,
    decreases hi - lo,
{
    if hi > lo {
        lemma_count_none(lo, hi - 1, f);
    }
}

/// In keyed reconciliation the children that move are the matched ones
/// outside the anchors: their number is the number of matched children
/// less the number of anchors.
pub proof fn lemma_moves_are_matched_minus_anchors(m: Seq<usize>, no: usize, a: Seq<usize>)
    requires
        in_order(m, no, as_ints(a)),
    ensures
        count_positions(0, m.len() as int, to_move(anchor_flags(a, m.len()), m, no)) + a.len()
            == count_positions(0, m.len() as int, is_matched(m, no)),
{
    let n = m.len() as int;
    let anch = anchor_flags(a, m.len());
    let ai = as_ints(a);
    let g = |j: int| anch[j];
    let h = is_matched(m, no);
    assert forall|j: int| 0 <= j < n && #[trigger] g(j) implies h(j) by {
        let t = choose|t: int| 0 <= t < a.len() && a[t] as int == j;
        assert(ai[t] == a[t] as int);
    }
    lemma_count_disjoint(0, n, h, g);
    lemma_count_same(0, n, |j: int| h(j) && !g(j), to_move(anch, m, no));
    assert forall|k: int| 0 <= k < ai.len() implies 0 <= #[trigger] ai[k] < n by {}
    lemma_count_anchors(ai, n);
    let f2 = |j: int| exists|t: int| 0 <= t < ai.len() && ai[t] == j;
    assert forall|j: int| 0 <= j < n implies #[trigger] g(j) == f2(j) by {
        if g(j) {
            let t = choose|t: int| 0 <= t < a.len() && a[t] as int == j;
            assert(ai[t] == j);
        }
        if f2(j) {
            let t = choose|t: int| 0 <= t < ai.len() && ai[t] == j;
            assert(a[t] as int == j);
        }
    }
    lemma_count_same(0, n, f2, g);
}

/// What keyed reconciliation of `old` into `new` at `path` gives as `r`,
/// for the matching `m` and the anchors `a`: `m` matches new children with
/// old ones of the same key, `a` is a largest, earliest-starting set of
/// matched children in increasing old order; each matched child is diffed
/// against its old child at the old child's path; every old child no new child
/// took is removed, and each removal is justified; every new child outside
/// `a` is placed by a move (when matched) or an insertion (when not), every
/// move or insertion at that level places such a child, and there are as
/// many of them as such children (as many moves as matched ones); with no
/// anchor, the new children are appended.
pub open spec fn keyed_outcome(
    old: Seq<Node>,
    new: Seq<Node>,
    m: Seq<usize>,
    a: Seq<usize>,
    skip: Option<&SkipDiff>,
    path: Seq<usize>,
    r: Seq<Patch>,
) -> bool {
    let no = old.len() as usize;
    let anch = anchor_flags(a, new.len());
    &&& m.len() == new.len()
    &&& forall|j: int|
        0 <= j < m.len() ==> #[trigger] m[j] <= no && (m[j] < no ==> (node_key(new[j]) is Some
            && node_key(old[m[j] as int]) == node_key(new[j])))
    &&& in_order(m, no, as_ints(a))
    &&& forall|u: Seq<int>| #[trigger] in_order(m, no, u) ==> u.len() <= a.len()
    &&& forall|u: Seq<int>|
        #[trigger] in_order(m, no, u) && u.len() == a.len() && u.len() > 0 ==> a[0] <= u[0]
    &&& removals_justified(old, new, path, r)
    &&& removed_all(m, no, path, r, old.len() as int)
    &&& forall|j: int|
        0 <= j < new.len() && m[j] < no ==> #[trigger] keyed_pair_done(old, new, m, skip, path, r, j)
    &&& placements_sound(m, no, anch, new, path, r)
    &&& a.len() > 0 ==> forall|j: int| 0 <= j < new.len() ==> #[trigger] placed(m, no, anch, new, path, r, j)
    &&& a.len() > 0 ==> count_patches(r, placement_at(path)) == count_positions(
        0,
        new.len() as int,
        unanchored(anch),
    )
    &&& a.len() > 0 ==> count_patches(r, move_at(path)) == count_positions(
        0,
        new.len() as int,
        to_move(anch, m, no),
    )
    &&& a.len() == 0 && new.len() > 0 ==> r.len() > 0 && is_append(r[r.len() - 1], path, new)
}

/// What diffing the children `old` into `new` of the node at `path` gives
/// as `r`: keyed reconciliation when `keyed_children` holds, else
/// positional pairing with its tail, each pair diffed at its child path.
pub open spec fn children_outcome(
    old: Seq<Node>,
    new: Seq<Node>,
    skip: Option<&SkipDiff>,
    path: Seq<usize>,
    r: Seq<Patch>,
) -> bool {
    &&& keyed_children(old, new) ==> exists|m: Seq<usize>, a: Seq<usize>|
        #[trigger] keyed_outcome(old, new, m, a, skip, path, r)
    &&& !keyed_children(old, new) ==> positional_tail(old, new, path, r)
    &&& !keyed_children(old, new) ==> forall|i: int|
        0 <= i < old.len() && i < new.len() ==> #[trigger] pair_done(old, new, skip, path, r, i)
    &&& !keyed_children(old, new) ==> r.len() >= tail_len(old, new) && in_pair_order(
        path,
        if old.len() < new.len() {
            old.len() as int
        } else {
            new.len() as int
        },
        r.subrange(0, r.len() - tail_len(old, new)),
    )
}

/// How many attribute patches lead the patches of two elements.
pub open spec fn attr_patch_count(old: Node, new: Node) -> int {
    match (old, new) {
        (Node::Element { attrs: a1, .. }, Node::Element { attrs: a2, .. }) => (if attrs_to_add(
            a1@,
            a2@,
        ).len() > 0 {
            1int
        } else {
            0int
        }) + (if attrs_to_remove(a1@, a2@).len() > 0 {
            1int
        } else {
            0int
        }),
        _ => 0,
    }
}

/// Whether the nodes are two elements or two fragments: nodes whose
/// children are diffed when neither replaces the other.
pub open spec fn same_kind_with_children(old: Node, new: Node) -> bool {
    (old is Element && new is Element) || (old is Fragment && new is Fragment)
}

/// The patches that turn the subtree `old` at `path` of the previous tree
/// into `new`. `skip` is the decision for this position, when there is one.
pub fn diff_recursive(old: &Node, new: &Node, skip: Option<&SkipDiff>, path: &TreePath) -> (r: Vec<
    Patch,
>)
    ensures
        skipped(skip, *old, *new) ==> r@.len() == 0,
        !skipped(skip, *old, *new) && needs_replace(*old, *new) ==> r@.len() == 1 && is_replace(
            r@[0],
            path@,
            *new,
        ),
        same_node(*old, *new) && no_reserved(*new) ==> r@.len() == 0,
        !skipped(skip, *old, *new) && only_children_added(*old, *new) ==> r@.len() == 1 && is_append(
            r@[0],
            path@,
            children_of(*new),
        ),
        all_under(path@, r@),
        edits_below(path@, r@),
        !skipped(skip, *old, *new) && !needs_replace(*old, *new) ==> leads_with_attr_patches(
            *old,
            *new,
            path@,
            r@,
        ),
        !skipped(skip, *old, *new) && !needs_replace(*old, *new) && same_kind_with_children(
            *old,
            *new,
        ) ==> r@.len() >= attr_patch_count(*old, *new) && children_outcome(
            children_of(*old),
            children_of(*new),
            skip,
            path@,
            r@.subrange(attr_patch_count(*old, *new), r@.len() as int),
        ),
    decreases *old, 1int,
{
    if let Some(s) = skip {
        if s.expr {
            return Vec::new();
        }
    }
    if has_skip_attr(new) || criteria_same(old, new) {
        return Vec::new();
    }
    if needs_replacing(old, new) {
        proof {
            if same_node(*old, *new) && no_reserved(*new) {
                if let Node::Element { attrs, .. } = new {
                    if has_replace(attrs@) {
                        let i = choose|i: int| 0 <= i < attrs@.len() && replace_set(#[trigger] attrs@[i]);
                        assert(!replace_set(attrs@[i]));
                    }
                }
            }
        }
        let mut replacement: Vec<Node> = Vec::new();
        replacement.push(new.duplicate());
        let mut r: Vec<Patch> = Vec::new();
        push_at(&mut r, path, None, tag_of(old), PatchType::ReplaceNode { replacement });
        return r;
    }
    match (old, new) {
        (
            Node::Element { tag, attrs: a1, children: c1, .. },
            Node::Element { attrs: a2, children: c2, .. },
        ) => {
            let (adds, removes) = diff_attributes(a1, a2);
            let mut r: Vec<Patch> = Vec::new();
            if adds.len() > 0 {
                push_at(&mut r, path, None, Some(copy_string(tag)), PatchType::AddAttributes { attrs: adds });
            }
            if removes.len() > 0 {
                push_at(&mut r, path, None, Some(copy_string(tag)), PatchType::RemoveAttributes { attrs: removes });
            }
            let ghost lead = r@;
            let mut more = diff_children(c1, c2, skip, path, Some(copy_string(tag)));
            proof {
                assert((lead + more@).subrange(lead.len() as int, (lead + more@).len() as int) =~= more@);
                assert(attrs_view(adds@).len() == adds@.len());
                assert(attrs_view(removes@).len() == removes@.len());
                assert(lead.len() == attr_patch_count(*old, *new));
                lemma_under_append(path@, r@, more@);
                lemma_edits_below_append(path@, r@, more@);
            }
            r.append(&mut more);
            r
        },
        (Node::Fragment(c1), Node::Fragment(c2)) => {
            let r = diff_children(c1, c2, skip, path, None);
            assert(r@.subrange(0, r@.len() as int) =~= r@);
            r
        },
        _ => Vec::new(),
    }
}

/// The patches that turn the children `old` of the node at `path` into
/// `new`. When some child carries a key and the keys differ position by
/// position, the children are reconciled by key (see `diff_keyed`).
/// Otherwise they are paired by position: pairs are diffed at `path`
/// extended by their index, old children past the new ones are removed (all
/// of them at once when no new child is left), and new children past the old
/// ones are appended in one patch. `tag` is the parent's tag.
pub fn diff_children(
    old: &Vec<Node>,
    new: &Vec<Node>,
    skip: Option<&SkipDiff>,
    path: &TreePath,
    tag: Option<String>,
) -> (r: Vec<Patch>)
    ensures
        old@.len() == new@.len() && same_list(old@, new@, old@.len() as int) && no_reserved_list(
            new@,
            new@.len() as int,
        ) ==> r@.len() == 0,
        old@.len() == 0 && new@.len() > 0 ==> r@.len() == 1 && is_append(r@[0], path@, new@),
        all_under(path@, r@),
        edits_below(path@, r@),
        keyed_children(old@, new@) ==> removals_justified(old@, new@, path@, r@),
        keyed_children(old@, new@) ==> exists|m: Seq<usize>, a: Seq<usize>|
            #[trigger] keyed_outcome(old@, new@, m, a, skip, path@, r@),
        !keyed_children(old@, new@) ==> positional_tail(old@, new@, path@, r@),
        !keyed_children(old@, new@) ==> forall|i: int|
            0 <= i < old@.len() && i < new@.len() ==> #[trigger] pair_done(old@, new@, skip, path@, r@, i),
        !keyed_children(old@, new@) ==> r@.len() >= tail_len(old@, new@) && in_pair_order(
            path@,
            if old@.len() < new@.len() {
                old@.len() as int
            } else {
                new@.len() as int
            },
            r@.subrange(0, r@.len() - tail_len(old@, new@)),
        ),
        children_outcome(old@, new@, skip, path@, r@),
    decreases old@, 1int,
{
    let ghost unchanged = old@.len() == new@.len() && same_list(old@, new@, old@.len() as int)
        && no_reserved_list(new@, new@.len() as int);
    proof {
        if unchanged {
            lemma_same_list_each(old@, new@, old@.len() as int);
            lemma_no_reserved_each(new@, new@.len() as int);
        }
    }
    if old.len() > 0 && !same_keys(old, new) && (any_key(old) || any_key(new)) {
        proof {
            if unchanged {
                assert forall|k: int| 0 <= k < old@.len() implies node_key(#[trigger] old@[k])
                    == node_key(new@[k]) by {
                    assert(same_node(old@[k], new@[k]));
                }
            }
        }
        let matched = match_by_key(old, new);
        let anchors = keyed_anchors(&matched, old.len());
        let r = diff_keyed(old, new, &matched, &anchors, skip, path, tag);
        assert(keyed_outcome(old@, new@, matched@, anchors@, skip, path@, r@));
        return r;
    }
    let mut patches: Vec<Patch> = Vec::new();
    let n = if old.len() < new.len() {
        old.len()
    } else {
        new.len()
    };
    let mut i: usize = 0;
    while i < n
        invariant
            all_under(path@, patches@),
            edits_below(path@, patches@),
            i <= n,
            n <= old@.len(),
            n <= new@.len(),
            n == old@.len() || n == new@.len(),
            unchanged ==> forall|k: int| 0 <= k < old@.len() ==> same_node(#[trigger] old@[k], new@[k]),
            unchanged ==> forall|k: int| 0 <= k < new@.len() ==> no_reserved(#[trigger] new@[k]),
            unchanged ==> patches@.len() == 0,
            unchanged ==> old@.len() == new@.len(),
            old@.len() == 0 ==> patches@.len() == 0,
            new@.len() == 0 ==> patches@.len() == 0,
            in_pair_order(path@, i as int, patches@),
            forall|q: int| 0 <= q < i ==> #[trigger] pair_done(old@, new@, skip, path@, patches@, q),
        decreases n - i,
    {
        let child_path = path.traverse(i);
        let cs = child_skip(skip, i);
        let mut more = diff_recursive(&old[i], &new[i], cs, &child_path);
        proof {
            let all = patches@ + more@;
            assert forall|q: int| 0 <= q < i implies #[trigger] pair_done(old@, new@, skip, path@, all, q) by {
                lemma_pair_keep(old@, new@, skip, path@, patches@, all, q);
            }
            let sk = child_skipped(skip, i as int, old@[i as int], new@[i as int]);
            assert(skipped(cs, old@[i as int], new@[i as int]) == sk);
            let k = patches@.len() as int;
            if !sk && needs_replace(old@[i as int], new@[i as int]) {
                assert(all[k] == more@[0]);
            }
            if !sk && !needs_replace(old@[i as int], new@[i as int]) {
                if let (Node::Element { attrs: a1, .. }, Node::Element { attrs: a2, .. }) = (old@[i as int], new@[i as int]) {
                    let adds = attrs_to_add(a1@, a2@);
                    let n_add: int = if adds.len() > 0 { 1 } else { 0 };
                    if adds.len() > 0 {
                        assert(all[k] == more@[0]);
                    }
                    if attrs_to_remove(a1@, a2@).len() > 0 {
                        assert(all[k + n_add] == more@[n_add]);
                    }
                }
            }
            assert(pair_fixed(old@[i as int], new@[i as int], sk, path@.push(i), all, k));
            assert(path@.push(i) == path@.push((i as int) as usize));
            assert(pair_fixed(old@[i as int], new@[i as int], sk, path@.push((i as int) as usize), all, k));
            assert(pair_done(old@, new@, skip, path@, all, i as int));
            lemma_pair_order_append(path@, n as int, i, patches@, more@);
            lemma_under_child(path@, i, more@);
            lemma_under_append(path@, patches@, more@);
            lemma_edits_below_child(path@, i, more@);
            lemma_edits_below_append(path@, patches@, more@);
        }
        patches.append(&mut more);
        i = i + 1;
    }
    let ghost head = patches@;
    assert(in_pair_order(path@, n as int, head));
    assert(forall|q: int| 0 <= q < n ==> #[trigger] pair_done(old@, new@, skip, path@, head, q));
    if new.len() < old.len() {
        if new.len() == 0 {
            push_at(&mut patches, path, None, tag, PatchType::ClearChildren);
            assert(n == 0);
        } else {
            let mut j: usize = new.len();
            let ghost base = patches@.len();
            while j < old.len()
                invariant
                    new@.len() <= j <= old@.len(),
                    all_under(path@, patches@),
                    edits_below(path@, patches@),
                    patches@.len() == base + (j - new@.len()),
                    patches@.subrange(0, base as int) == head,
                    base == head.len(),
                    n == new@.len(),
                    forall|q: int| 0 <= q < n ==> #[trigger] pair_done(old@, new@, skip, path@, patches@, q),
                    forall|t: int|
                        0 <= t < j - new@.len() ==> #[trigger] is_remove_at(
                            patches@[base + t],
                            path@.push((new@.len() + t) as usize),
                        ),
                decreases old@.len() - j,
            {
                let ghost before = patches@;
                push_at(&mut patches, path, Some(j), tag_of(&old[j]), PatchType::RemoveNode);
                proof {
                    assert(patches@.subrange(0, base as int) =~= before.subrange(0, base as int));
                    assert forall|q: int| 0 <= q < n implies #[trigger] pair_done(old@, new@, skip, path@, patches@, q) by {
                        lemma_pair_keep(old@, new@, skip, path@, before, patches@, q);
                    }
                    assert forall|t: int| 0 <= t < j + 1 - new@.len() implies #[trigger] is_remove_at(
                        patches@[base + t],
                        path@.push((new@.len() + t) as usize),
                    ) by {
                        if t < j - new@.len() {
                            assert(patches@[base + t] == before[base + t]);
                        }
                    }
                }
                j = j + 1;
            }
            proof {
                assert forall|t: int| 0 <= t < old@.len() - new@.len() implies #[trigger] is_remove_at(
                    patches@[patches@.len() - (old@.len() - new@.len()) + t],
                    path@.push((new@.len() + t) as usize),
                ) by {
                    assert(patches@.len() - (old@.len() - new@.len()) + t == base + t);
                }
            }
        }
    } else if new.len() > old.len() {
        let children = copy_from(new, old.len());
        proof {
            if old@.len() == 0 {
                assert forall|k: int| 0 <= k < new@.len() implies same_node(
                    #[trigger] new@[k],
                    children@[k],
                ) by {
                    assert(new@[0 + k] == new@[k]);
                }
                lemma_same_list_each(new@, children@, new@.len() as int);
            }
            let sub = new@.subrange(old@.len() as int, new@.len() as int);
            assert forall|k: int| 0 <= k < sub.len() implies same_node(#[trigger] sub[k], children@[k]) by {
                assert(sub[k] == new@[old@.len() + k]);
            }
            lemma_same_list_each(sub, children@, sub.len() as int);
        }
        let ghost before = patches@;
        push_at(&mut patches, path, None, tag, PatchType::AppendChildren { children });
        proof {
            assert forall|q: int| 0 <= q < n implies #[trigger] pair_done(old@, new@, skip, path@, patches@, q) by {
                lemma_pair_keep(old@, new@, skip, path@, before, patches@, q);
            }
        }
    }
    patches
}

/// The patches that turn the previous tree `old` into `new`. Comparing a
/// tree with itself gives none, when no attribute in it has a reserved
/// name or is a set `replace`.
pub fn diff(old: &Node, new: &Node) -> (r: Vec<Patch>)
    ensures
        opted_out(*old, *new) ==> r@.len() == 0,
        !opted_out(*old, *new) && needs_replace(*old, *new) ==> r@.len() == 1 && is_replace(
            r@[0],
            Seq::empty(),
            *new,
        ),
        same_node(*old, *new) && no_reserved(*new) ==> r@.len() == 0,
        old == new && no_reserved(*new) ==> r@.len() == 0,
        !opted_out(*old, *new) && !needs_replace(*old, *new) ==> leads_with_attr_patches(
            *old,
            *new,
            Seq::empty(),
            r@,
        ),
        !opted_out(*old, *new) && !needs_replace(*old, *new) && same_kind_with_children(*old, *new)
            ==> r@.len() >= attr_patch_count(*old, *new) && children_outcome(
            children_of(*old),
            children_of(*new),
            None,
            Seq::empty(),
            r@.subrange(attr_patch_count(*old, *new), r@.len() as int),
        ),
        !opted_out(*old, *new) && only_children_added(*old, *new) ==> r@.len() == 1 && is_append(
            r@[0],
            Seq::empty(),
            children_of(*new),
        ),
{
    proof {
        lemma_same_node_refl(*new);
    }
    diff_recursive(old, new, None, &TreePath::root())
}

/// The patches that turn `old` into `new`, skipping the positions whose
/// decision in `skip` is true. A true decision at the root gives no patch
/// at all, whatever the two trees are.
pub fn diff_with_skip(old: &Node, new: &Node, skip: &SkipDiff) -> (r: Vec<Patch>)
    ensures
        skip.expr || opted_out(*old, *new) ==> r@.len() == 0,
        !skip.expr && !opted_out(*old, *new) && needs_replace(*old, *new) ==> r@.len() == 1 && is_replace(
            r@[0],
            Seq::empty(),
            *new,
        ),
        same_node(*old, *new) && no_reserved(*new) ==> r@.len() == 0,
        !skip.expr && !opted_out(*old, *new) && !needs_replace(*old, *new) ==> leads_with_attr_patches(
            *old,
            *new,
            Seq::empty(),
            r@,
        ),
        !skip.expr && !opted_out(*old, *new) && !needs_replace(*old, *new)
            && same_kind_with_children(*old, *new) ==> r@.len() >= attr_patch_count(*old, *new)
            && children_outcome(
            children_of(*old),
            children_of(*new),
            Some(skip),
            Seq::empty(),
            r@.subrange(attr_patch_count(*old, *new), r@.len() as int),
        ),
        !skip.expr && !opted_out(*old, *new) && only_children_added(*old, *new) ==> r@.len() == 1 && is_append(
            r@[0],
            Seq::empty(),
            children_of(*new),
        ),
{
    diff_recursive(old, new, Some(skip), &TreePath::root())
}

} // verus!
