use sauron_core::{diff, diff_with_skip, skip_if, Attribute, AttributeValue, Node, Patch, PatchType};
use sauron_core::diff::diff_attributes;

fn attr(name: &str, v: &str) -> Attribute {
    Attribute { namespace: None, name: name.to_string(), value: vec![AttributeValue::Simple(v.to_string())] }
}

fn el(tag: &str, attrs: Vec<Attribute>, children: Vec<Node>) -> Node {
    Node::Element { tag: tag.to_string(), namespace: None, attrs, children }
}

fn text(s: &str) -> Node {
    Node::Leaf(s.to_string())
}

fn sample() -> Node {
    el(
        "div",
        vec![attr("class", "a"), attr("id", "x")],
        vec![el("span", vec![], vec![text("hi")]), text("there")],
    )
}

fn kind(p: &Patch) -> &'static str {
    match &p.patch_type {
        PatchType::InsertBeforeNode { .. } => "insert_before",
        PatchType::InsertAfterNode { .. } => "insert_after",
        PatchType::AppendChildren { .. } => "append",
        PatchType::AddAttributes { .. } => "add_attrs",
        PatchType::RemoveAttributes { .. } => "remove_attrs",
        PatchType::ReplaceNode { .. } => "replace",
        PatchType::RemoveNode => "remove",
        PatchType::ClearChildren => "clear",
        PatchType::MoveBeforeNode { .. } => "move_before",
        PatchType::MoveAfterNode { .. } => "move_after",
    }
}

#[test]
fn same_tree_gives_no_patch() {
    let t = sample();
    assert!(diff(&t, &t).is_empty());
    assert!(diff(&t, &sample()).is_empty());
}

#[test]
fn reserved_attribute_is_reapplied() {
    let t = el("input", vec![attr("value", "hello")], vec![]);
    let patches = diff(&t, &t);
    assert_eq!(patches.len(), 1);
    assert_eq!(kind(&patches[0]), "add_attrs");
    match &patches[0].patch_type {
        PatchType::AddAttributes { attrs } => {
            assert_eq!(attrs.len(), 1);
            assert_eq!(attrs[0].name, "value");
        }
        _ => unreachable!(),
    }
}

#[test]
fn different_tags_replace_the_node() {
    let old = el("div", vec![], vec![text("a")]);
    let new = el("p", vec![], vec![text("b")]);
    let patches = diff(&old, &new);
    assert_eq!(patches.len(), 1);
    assert_eq!(kind(&patches[0]), "replace");
    assert!(patches[0].patch_path.path.is_empty());
    assert_eq!(patches[0].tag.as_deref(), Some("div"));
}

#[test]
fn replace_attribute_forces_replacement() {
    let old = el("div", vec![], vec![]);
    let new = el("div", vec![attr("replace", "true")], vec![]);
    let patches = diff(&old, &new);
    assert_eq!(patches.len(), 1);
    assert_eq!(kind(&patches[0]), "replace");
}

#[test]
fn changed_leaf_is_replaced_at_its_path() {
    let old = el("div", vec![], vec![text("a"), text("b")]);
    let new = el("div", vec![], vec![text("a"), text("c")]);
    let patches = diff(&old, &new);
    assert_eq!(patches.len(), 1);
    assert_eq!(kind(&patches[0]), "replace");
    assert_eq!(patches[0].patch_path.path, vec![1]);
}

#[test]
fn new_children_on_empty_element_are_one_append() {
    let old = el("ul", vec![], vec![]);
    let new = el("ul", vec![], vec![el("li", vec![], vec![]), el("li", vec![], vec![]), el("li", vec![], vec![])]);
    let patches = diff(&old, &new);
    assert_eq!(patches.len(), 1);
    match &patches[0].patch_type {
        PatchType::AppendChildren { children } => assert_eq!(children.len(), 3),
        _ => panic!("expected one append"),
    }
    assert!(patches[0].patch_path.path.is_empty());
}

#[test]
fn extra_old_children_are_removed_or_cleared() {
    let old = el("ul", vec![], vec![text("a"), text("b"), text("c")]);
    let fewer = el("ul", vec![], vec![text("a")]);
    let patches = diff(&old, &fewer);
    assert_eq!(patches.len(), 2);
    assert_eq!(kind(&patches[0]), "remove");
    assert_eq!(patches[0].patch_path.path, vec![1]);
    assert_eq!(patches[1].patch_path.path, vec![2]);
    let none = el("ul", vec![], vec![]);
    let patches = diff(&old, &none);
    assert_eq!(patches.len(), 1);
    assert_eq!(kind(&patches[0]), "clear");
}

#[test]
fn skipped_root_gives_no_patch_whatever_changed() {
    let old = el("div", vec![], vec![text("a")]);
    let new = el("p", vec![attr("x", "y")], vec![text("b"), text("c")]);
    assert!(diff_with_skip(&old, &new, &skip_if(true, vec![])).is_empty());
    assert_eq!(diff_with_skip(&old, &new, &skip_if(false, vec![])).len(), 1);
}

#[test]
fn skipped_child_is_not_compared() {
    let old = el("div", vec![], vec![text("a"), text("b")]);
    let new = el("div", vec![], vec![text("x"), text("y")]);
    let skip = skip_if(false, vec![skip_if(true, vec![]), skip_if(false, vec![])]);
    let patches = diff_with_skip(&old, &new, &skip);
    assert_eq!(patches.len(), 1);
    assert_eq!(patches[0].patch_path.path, vec![1]);
}

#[test]
fn attributes_of_one_name_are_merged() {
    let old = vec![attr("class", "a"), attr("class", "b"), attr("id", "x")];
    let new = vec![attr("class", "a"), attr("title", "t"), attr("class", "c")];
    let (adds, removes) = diff_attributes(&old, &new);
    let names: Vec<&str> = adds.iter().map(|a| a.name.as_str()).collect();
    assert_eq!(names, vec!["class", "title"]);
    assert_eq!(adds[0].value.len(), 2);
    let removed: Vec<&str> = removes.iter().map(|a| a.name.as_str()).collect();
    assert_eq!(removed, vec!["id"]);
    let same = diff_attributes(&old, &vec![attr("class", "a"), attr("id", "x"), attr("class", "b")]);
    assert!(same.0.is_empty());
    assert!(same.1.is_empty());
}

#[test]
fn merging_keeps_first_occurrence_order() {
    let attrs = vec![attr("b", "1"), attr("a", "2"), attr("b", "3")];
    let merged = Attribute::merge_attributes_of_same_name(&attrs);
    assert_eq!(merged.len(), 2);
    assert_eq!(merged[0].name, "b");
    assert_eq!(merged[0].value.len(), 2);
    assert_eq!(merged[1].name, "a");
}

#[test]
fn replace_attribute_not_set_does_not_replace() {
    let t = el("div", vec![attr("replace", "false")], vec![]);
    assert!(diff(&t, &t).is_empty());
    let old = el("ul", vec![attr("replace", "false")], vec![]);
    let new = el("ul", vec![attr("replace", "false")], vec![el("li", vec![], vec![])]);
    let patches = diff(&old, &new);
    assert_eq!(patches.len(), 1);
    assert_eq!(kind(&patches[0]), "append");
}

#[test]
fn attribute_patches_come_first() {
    let old = el("div", vec![attr("id", "x")], vec![text("a")]);
    let new = el("div", vec![attr("class", "c")], vec![text("b")]);
    let patches = diff(&old, &new);
    assert_eq!(patches.len(), 3);
    assert_eq!(kind(&patches[0]), "add_attrs");
    assert_eq!(kind(&patches[1]), "remove_attrs");
    assert_eq!(kind(&patches[2]), "replace");
    assert_eq!(patches[2].patch_path.path, vec![0]);
}

#[test]
fn skip_attribute_opts_out_of_diffing() {
    let old = el("div", vec![], vec![text("a")]);
    let new = el("div", vec![attr("skip", "true"), attr("id", "x")], vec![text("b")]);
    assert!(diff(&old, &new).is_empty());
    let not_set = el("div", vec![attr("skip", "false")], vec![text("b")]);
    assert!(!diff(&old, &not_set).is_empty());
}

#[test]
fn templated_views_compare_by_view() {
    let a = sauron_core::TemplatedView { view: sample(), template: text("t1"), skip_diff: skip_if(false, vec![]) };
    let b = sauron_core::TemplatedView { view: sample(), template: text("t2"), skip_diff: skip_if(true, vec![]) };
    assert!(a == b);
    let c = sauron_core::TemplatedView { view: text("other"), template: text("t1"), skip_diff: skip_if(false, vec![]) };
    assert!(a != c);
    assert!(sauron_core::node::same_tree(&sample(), &sample()));
}

#[test]
fn namespace_change_replaces_the_element() {
    let old = el("svg", vec![], vec![]);
    let new = Node::Element {
        tag: "svg".to_string(),
        namespace: Some("http://www.w3.org/2000/svg".to_string()),
        attrs: vec![],
        children: vec![],
    };
    let patches = diff(&old, &new);
    assert_eq!(patches.len(), 1);
    assert_eq!(kind(&patches[0]), "replace");
    assert!(diff(&new, &new).is_empty());
}

#[test]
fn unchanged_skip_criteria_skip_the_subtree() {
    let old = el("div", vec![attr("skip_criteria", "v1")], vec![text("a")]);
    let same = el("div", vec![attr("skip_criteria", "v1")], vec![text("b")]);
    assert!(diff(&old, &same).is_empty());
    let changed = el("div", vec![attr("skip_criteria", "v2")], vec![text("b")]);
    let patches = diff(&old, &changed);
    assert!(patches.iter().any(|p| kind(p) == "replace" && p.patch_path.path == vec![0]));
}
