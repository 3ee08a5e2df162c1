//! Patches whose nodes have been materialised in the live tree: the form
//! in which the platform layer applies them.
use vstd::prelude::*;
use crate::node::{
    copy_opt, copy_string, merged, opt_view, attrs_view, values_view, Attribute, AttributeValue, StyleEntry, ValueView,
};
use crate::patch::{carried, Patch, PatchType};
use crate::tree_path::TreePath;

verus! {

broadcast use vstd::std_specs::vec::group_vec_axioms, vstd::seq::group_seq_axioms;

/// A patch whose target and nodes are live nodes of type `N`, with
/// attributes of type `A`.
pub struct DomPatch<N, A> {
    /// The path of the target in the previous tree.
    pub patch_path: TreePath,
    /// The live target node.
    pub target_element: N,
    /// What to do at the target.
    pub patch_variant: PatchVariant<N, A>,
}

/// What a materialised patch does at its target.
pub enum PatchVariant<N, A> {
    /// Insert the nodes before the target.
    InsertBeforeNode { nodes: Vec<N> },
    /// Insert the nodes after the target.
    InsertAfterNode { nodes: Vec<N> },
    /// Append the nodes to the target's children.
    AppendChildren { children: Vec<N> },
    /// Set the attributes on the target.
    AddAttributes { attrs: Vec<A> },
    /// Remove the attributes from the target.
    RemoveAttributes { attrs: Vec<A> },
    /// Replace the target with the nodes.
    ReplaceNode { replacement: Vec<N> },
    /// Remove the target.
    RemoveNode,
    /// Remove all the children of the target.
    ClearChildren,
    /// Move the nodes before the target.
    MoveBeforeNode { for_moving: Vec<N> },
    /// Move the nodes after the target.
    MoveAfterNode { for_moving: Vec<N> },
}

/// A value of an attribute as the live tree takes it: never empty.
pub enum DomAttrValue {
    /// A plain value, as text.
    Simple(String),
    /// Style entries.
    Style(Vec<StyleEntry>),
    /// An event callback, by its handle.
    EventListener(u64),
    /// A function-call-like value, as its descriptor.
    FunctionCall(String),
}

/// An attribute as the live tree takes it.
pub struct DomAttr {
    pub namespace: Option<String>,
    pub name: String,
    pub value: Vec<DomAttrValue>,
}

/// The content of a live attribute value, as that of an attribute value.
pub open spec fn dom_value_view(v: DomAttrValue) -> ValueView {
    match v {
        DomAttrValue::Simple(s) => ValueView::Simple(s@),
        DomAttrValue::Style(e) => ValueView::Style(crate::node::style_view(e@)),
        DomAttrValue::EventListener(h) => ValueView::EventListener(h),
        DomAttrValue::FunctionCall(s) => ValueView::FunctionCall(s@),
    }
}

/// The content of a live attribute: its name and its values.
pub open spec fn dom_attr_view(a: DomAttr) -> (Seq<char>, Seq<ValueView>) {
    (a.name@, a.value@.map_values(|v: DomAttrValue| dom_value_view(v)))
}

/// The contents of a list of live attributes.
pub open spec fn dom_attrs_view(v: Seq<DomAttr>) -> Seq<(Seq<char>, Seq<ValueView>)> {
    v.map_values(|a: DomAttr| dom_attr_view(a))
}

/// The values without the empty ones.
pub open spec fn non_empty(v: Seq<ValueView>) -> Seq<ValueView> {
    v.filter(|x: ValueView| !(x is Empty))
}

/// The attributes, each without its empty values.
pub open spec fn without_empty(s: Seq<(Seq<char>, Seq<ValueView>)>) -> Seq<
    (Seq<char>, Seq<ValueView>),
> {
    s.map_values(|a: (Seq<char>, Seq<ValueView>)| (a.0, non_empty(a.1)))
}

/// The live form of a value: none for an empty value.
pub fn convert_attr_value(v: &AttributeValue) -> (r: Option<DomAttrValue>)
    ensures
        v@ is Empty ==> r is None,
        !(v@ is Empty) ==> r is Some && dom_value_view(r->Some_0) == v@,
{
    match v.duplicate() {
        AttributeValue::Simple(s) => Some(DomAttrValue::Simple(s)),
        AttributeValue::Style(e) => Some(DomAttrValue::Style(e)),
        AttributeValue::EventListener(h) => Some(DomAttrValue::EventListener(h)),
        AttributeValue::FunctionCall(s) => Some(DomAttrValue::FunctionCall(s)),
        AttributeValue::Empty => None,
    }
}

/// The live form of an attribute: the same name, the values without the
/// empty ones, in order.
pub fn convert_attr(a: &Attribute) -> (r: DomAttr)
    ensures
        dom_attr_view(r) == (a.name@, non_empty(values_view(a.value@))),
        opt_view(r.namespace) == opt_view(a.namespace),
{
    let ghost vv = values_view(a.value@);
    let mut out: Vec<DomAttrValue> = Vec::new();
    let mut i: usize = 0;
    while i < a.value.len()
        invariant
            i <= a.value@.len(),
            vv == values_view(a.value@),
            out@.map_values(|v: DomAttrValue| dom_value_view(v)) == non_empty(vv.subrange(0, i as int)),
        decreases a.value@.len() - i,
    {
        let ghost before = out@.map_values(|v: DomAttrValue| dom_value_view(v));
        proof {
            reveal(Seq::filter);
            assert(vv.subrange(0, i + 1).drop_last() =~= vv.subrange(0, i as int));
            assert(vv.subrange(0, i + 1).last() == vv[i as int]);
        }
        match convert_attr_value(&a.value[i]) {
            Some(d) => {
                out.push(d);
                assert(out@.map_values(|v: DomAttrValue| dom_value_view(v)) =~= before.push(vv[i as int]));
            },
            None => {},
        }
        i = i + 1;
    }
    assert(vv.subrange(0, i as int) =~= vv);
    DomAttr { namespace: copy_opt(&a.namespace), name: copy_string(&a.name), value: out }
}

fn convert_attrs(attrs: &Vec<Attribute>) -> (r: Vec<DomAttr>)
    ensures
        dom_attrs_view(r@) == without_empty(attrs_view(attrs@)),
{
    let mut out: Vec<DomAttr> = Vec::new();
    let mut i: usize = 0;
    while i < attrs.len()
        invariant
            i <= attrs@.len(),
            out@.len() == i,
            forall|k: int|
                0 <= k < i ==> dom_attr_view(#[trigger] out@[k]) == (attrs@[k].name@, non_empty(
                    values_view(attrs@[k].value@),
                )),
        decreases attrs@.len() - i,
    {
        out.push(convert_attr(&attrs[i]));
        i = i + 1;
    }
    assert(dom_attrs_view(out@) =~= without_empty(attrs_view(attrs@)));
    out
}

/// The materialised form of `patch` at the live node `target`. `nodes`
/// are the live nodes the patch carries: those created for the nodes it
/// inserts, appends or replaces with, or those found for the paths it
/// moves, one for each; other patches take none. Attributes to add are merged by name
/// first; all attributes lose their empty values.
pub fn convert_patch<N>(patch: &Patch, target: N, nodes: Vec<N>) -> (r: DomPatch<N, DomAttr>)
    requires
        nodes@.len() == carried(*patch),
    ensures
        r.patch_path@ == patch.patch_path@,
        r.target_element == target,
        match (patch.patch_type, r.patch_variant) {
            (PatchType::InsertBeforeNode { .. }, PatchVariant::InsertBeforeNode { nodes: n }) => n@
                == nodes@,
            (PatchType::InsertAfterNode { .. }, PatchVariant::InsertAfterNode { nodes: n }) => n@
                == nodes@,
            (PatchType::AppendChildren { .. }, PatchVariant::AppendChildren { children: n }) => n@
                == nodes@,
            (PatchType::ReplaceNode { .. }, PatchVariant::ReplaceNode { replacement: n }) => n@
                == nodes@,
            (PatchType::MoveBeforeNode { .. }, PatchVariant::MoveBeforeNode { for_moving: n }) => n@
                == nodes@,
            (PatchType::MoveAfterNode { .. }, PatchVariant::MoveAfterNode { for_moving: n }) => n@
                == nodes@,
            (PatchType::AddAttributes { attrs }, PatchVariant::AddAttributes { attrs: a }) => dom_attrs_view(
                a@,
            ) == without_empty(merged(attrs_view(attrs@))),
            (PatchType::RemoveAttributes { attrs }, PatchVariant::RemoveAttributes { attrs: a }) => dom_attrs_view(
                a@,
            ) == without_empty(attrs_view(attrs@)),
            (PatchType::RemoveNode, PatchVariant::RemoveNode) => true,
            (PatchType::ClearChildren, PatchVariant::ClearChildren) => true,
            _ => false,
        },
{
    let patch_path = patch.patch_path.duplicate();
    let patch_variant = match &patch.patch_type {
        PatchType::InsertBeforeNode { .. } => PatchVariant::InsertBeforeNode { nodes },
        PatchType::InsertAfterNode { .. } => PatchVariant::InsertAfterNode { nodes },
        PatchType::AppendChildren { .. } => PatchVariant::AppendChildren { children: nodes },
        PatchType::ReplaceNode { .. } => PatchVariant::ReplaceNode { replacement: nodes },
        PatchType::MoveBeforeNode { .. } => PatchVariant::MoveBeforeNode { for_moving: nodes },
        PatchType::MoveAfterNode { .. } => PatchVariant::MoveAfterNode { for_moving: nodes },
        PatchType::AddAttributes { attrs } => {
            let m = Attribute::merge_attributes_of_same_name(attrs);
            PatchVariant::AddAttributes { attrs: convert_attrs(&m) }
        },
        PatchType::RemoveAttributes { attrs } => PatchVariant::RemoveAttributes {
            attrs: convert_attrs(attrs),
        },
        PatchType::RemoveNode => PatchVariant::RemoveNode,
        PatchType::ClearChildren => PatchVariant::ClearChildren,
    };
    DomPatch { patch_path, target_element: target, patch_variant }
}

} // verus!
