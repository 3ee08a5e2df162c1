use sauron_core::lis::longest_increasing_subsequence;
use sauron_core::{diff, Attribute, AttributeValue, Node, Patch, PatchType};

fn keyed(key: &str) -> Node {
    Node::Element {
        tag: "li".to_string(),
        namespace: None,
        attrs: vec![Attribute {
            namespace: None,
            name: "key".to_string(),
            value: vec![AttributeValue::Simple(key.to_string())],
        }],
        children: vec![Node::Leaf(key.to_string())],
    }
}

fn list(keys: &[&str]) -> Node {
    Node::Element {
        tag: "ul".to_string(),
        namespace: None,
        attrs: vec![],
        children: keys.iter().map(|k| keyed(k)).collect(),
    }
}

fn count(patches: &[Patch], f: fn(&PatchType) -> bool) -> usize {
    patches.iter().filter(|p| f(&p.patch_type)).count()
}

fn is_move(t: &PatchType) -> bool {
    matches!(t, PatchType::MoveBeforeNode { .. } | PatchType::MoveAfterNode { .. })
}

fn is_insert(t: &PatchType) -> bool {
    matches!(
        t,
        PatchType::InsertBeforeNode { .. } | PatchType::InsertAfterNode { .. } | PatchType::AppendChildren { .. }
    )
}

fn is_remove(t: &PatchType) -> bool {
    matches!(t, PatchType::RemoveNode | PatchType::ClearChildren | PatchType::ReplaceNode { .. })
}

#[test]
fn rotated_keys_are_moved_not_recreated() {
    let patches = diff(&list(&["a", "b", "c"]), &list(&["c", "a", "b"]));
    assert_eq!(count(&patches, is_move), 1);
    assert_eq!(count(&patches, is_insert), 0);
    assert_eq!(count(&patches, is_remove), 0);
    assert_eq!(patches.len(), 1);
    match &patches[0].patch_type {
        PatchType::MoveBeforeNode { nodes_path } => {
            assert_eq!(nodes_path.len(), 1);
            assert_eq!(nodes_path[0].path, vec![2]);
            assert_eq!(patches[0].patch_path.path, vec![0]);
        }
        _ => panic!("expected a move before the first anchor"),
    }
}

#[test]
fn one_swap_moves_exactly_one_node() {
    let patches = diff(&list(&["1", "2", "3", "4", "5"]), &list(&["1", "3", "2", "4", "5"]));
    assert_eq!(patches.len(), 1);
    assert_eq!(count(&patches, is_move), 1);
    match &patches[0].patch_type {
        PatchType::MoveBeforeNode { nodes_path } => {
            let moved = &nodes_path[0].path;
            assert!(moved == &vec![1] || moved == &vec![2]);
        }
        _ => panic!("expected one move"),
    }
}

#[test]
fn new_and_gone_keys_insert_and_remove() {
    let patches = diff(&list(&["a", "b", "c"]), &list(&["a", "x", "c"]));
    assert_eq!(count(&patches, is_move), 0);
    assert_eq!(count(&patches, is_remove), 1);
    assert_eq!(count(&patches, is_insert), 1);
    let removed: Vec<&Patch> = patches.iter().filter(|p| matches!(p.patch_type, PatchType::RemoveNode)).collect();
    assert_eq!(removed[0].patch_path.path, vec![1]);
    let inserted: Vec<&Patch> = patches
        .iter()
        .filter(|p| matches!(p.patch_type, PatchType::InsertBeforeNode { .. }))
        .collect();
    assert_eq!(inserted.len(), 1);
    assert_eq!(inserted[0].patch_path.path, vec![2]);
}

#[test]
fn trailing_new_keys_go_after_the_last_anchor() {
    let patches = diff(&list(&["a"]), &list(&["a", "y", "z"]));
    assert_eq!(patches.len(), 2);
    for p in &patches {
        assert!(matches!(p.patch_type, PatchType::InsertAfterNode { .. }));
        assert_eq!(p.patch_path.path, vec![0]);
    }
    match &patches[0].patch_type {
        PatchType::InsertAfterNode { nodes } => match &nodes[0] {
            Node::Element { children, .. } => assert!(matches!(&children[0], Node::Leaf(s) if s == "z")),
            _ => panic!(),
        },
        _ => panic!(),
    }
}

#[test]
fn same_keyed_list_gives_no_patch() {
    let t = list(&["a", "b", "c"]);
    assert!(diff(&t, &t).is_empty());
}

#[test]
fn changed_content_of_matched_key_is_diffed_at_old_path() {
    let old = list(&["a", "b"]);
    let mut new = list(&["b", "a"]);
    if let Node::Element { children, .. } = &mut new {
        if let Node::Element { children: inner, .. } = &mut children[0] {
            inner[0] = Node::Leaf("B".to_string());
        }
    }
    let patches = diff(&old, &new);
    let replaced: Vec<&Patch> = patches
        .iter()
        .filter(|p| matches!(p.patch_type, PatchType::ReplaceNode { .. }))
        .collect();
    assert_eq!(replaced.len(), 1);
    assert_eq!(replaced[0].patch_path.path, vec![1, 0]);
    assert_eq!(count(&patches, is_move), 1);
}

#[test]
fn lis_of_examples() {
    assert_eq!(longest_increasing_subsequence(&vec![0, 2, 1, 3, 4]), vec![0, 1, 3, 4]);
    assert_eq!(longest_increasing_subsequence(&vec![2, 0, 1]), vec![1, 2]);
    assert_eq!(longest_increasing_subsequence(&vec![]), Vec::<usize>::new());
    assert_eq!(longest_increasing_subsequence(&vec![5, 4, 3]), vec![0]);
    assert_eq!(longest_increasing_subsequence(&vec![3, 1, 2, 0, 4]).len(), 3);
}

#[test]
fn moves_are_matched_minus_kept_in_order() {
    let patches = diff(&list(&["a", "b", "c", "d"]), &list(&["d", "c", "b", "a", "e"]));
    // a, b, c, d all matched; a longest run keeping old order has one child,
    // so three move and the new key is inserted; nothing is removed.
    assert_eq!(count(&patches, is_move), 3);
    assert_eq!(count(&patches, is_insert), 1);
    assert_eq!(count(&patches, is_remove), 0);
    let gone = diff(&list(&["a", "b", "c"]), &list(&["c", "a"]));
    assert_eq!(count(&gone, is_remove), 1);
    assert_eq!(count(&gone, is_move), 1);
    assert_eq!(count(&gone, is_insert), 0);
}
