use sauron_core::{check_targets, diff, paths_to_resolve, Attribute, AttributeValue, Node, Patch, PatchType, ResolveError, TreePath};

fn patch(path: Vec<usize>, tag: Option<&str>, patch_type: PatchType) -> Patch {
    Patch { patch_path: TreePath::new(path), tag: tag.map(|t| t.to_string()), patch_type }
}

#[test]
fn targets_then_moved_paths_are_resolved() {
    let patches = vec![
        patch(vec![0], Some("li"), PatchType::MoveBeforeNode { nodes_path: vec![TreePath::new(vec![2]), TreePath::new(vec![3])] }),
        patch(vec![1], None, PatchType::RemoveNode),
        patch(vec![4], Some("li"), PatchType::MoveAfterNode { nodes_path: vec![TreePath::new(vec![5])] }),
    ];
    let all = paths_to_resolve(&patches);
    let got: Vec<(Vec<usize>, Option<String>)> = all.into_iter().map(|(p, t)| (p.path, t)).collect();
    assert_eq!(
        got,
        vec![
            (vec![0], Some("li".to_string())),
            (vec![1], None),
            (vec![4], Some("li".to_string())),
            (vec![2], None),
            (vec![3], None),
            (vec![5], None),
        ]
    );
    assert!(paths_to_resolve(&vec![]).is_empty());
}

#[test]
fn node_paths_only_for_moves() {
    let m = patch(vec![0], None, PatchType::MoveAfterNode { nodes_path: vec![TreePath::new(vec![1])] });
    assert_eq!(m.node_paths().len(), 1);
    let r = patch(vec![0], None, PatchType::ClearChildren);
    assert!(r.node_paths().is_empty());
}

#[test]
fn target_checks_report_the_first_fault() {
    let patches = vec![
        patch(vec![0], Some("div"), PatchType::RemoveNode),
        patch(vec![1], Some("span"), PatchType::RemoveNode),
        patch(vec![2], None, PatchType::RemoveNode),
    ];
    let ok = vec![Some(Some("div".to_string())), Some(None), Some(Some("p".to_string()))];
    assert_eq!(check_targets(&patches, &ok), Ok(()));
    let mismatch = vec![Some(Some("div".to_string())), Some(Some("p".to_string())), None];
    assert_eq!(check_targets(&patches, &mismatch), Err(ResolveError::TagMismatch { index: 1 }));
    let missing = vec![Some(Some("div".to_string())), None, None];
    assert_eq!(check_targets(&patches, &missing), Err(ResolveError::PathNotFound { index: 1 }));
    let short = vec![Some(Some("div".to_string()))];
    assert_eq!(check_targets(&patches, &short), Err(ResolveError::PathNotFound { index: 1 }));
    assert_eq!(check_targets(&vec![], &vec![]), Ok(()));
}

#[test]
fn moved_paths_must_be_found_too() {
    let patches = vec![patch(
        vec![0],
        Some("li"),
        PatchType::MoveBeforeNode { nodes_path: vec![TreePath::new(vec![2])] },
    )];
    let all_found = vec![Some(Some("li".to_string())), Some(Some("li".to_string()))];
    assert_eq!(check_targets(&patches, &all_found), Ok(()));
    let moved_missing = vec![Some(Some("li".to_string())), None];
    assert_eq!(check_targets(&patches, &moved_missing), Err(ResolveError::PathNotFound { index: 1 }));
    let only_target = vec![Some(Some("li".to_string()))];
    assert_eq!(check_targets(&patches, &only_target), Err(ResolveError::PathNotFound { index: 1 }));
}

#[test]
fn diff_patches_resolve_under_their_parent() {
    let old = Node::Element { tag: "div".to_string(), namespace: None, attrs: vec![], children: vec![Node::Leaf("a".to_string())] };
    let new = Node::Element {
        tag: "div".to_string(),
        namespace: None,
        attrs: vec![Attribute { namespace: None, name: "id".to_string(), value: vec![AttributeValue::Simple("x".to_string())] }],
        children: vec![Node::Leaf("b".to_string())],
    };
    let patches = diff(&old, &new);
    let all = paths_to_resolve(&patches);
    assert_eq!(all.len(), 2);
    assert_eq!(all[0].0.path, Vec::<usize>::new());
    assert_eq!(all[0].1.as_deref(), Some("div"));
    assert_eq!(all[1].0.path, vec![0]);
}

use sauron_core::dom_patch::{convert_attr, convert_attr_value, convert_patch, DomAttrValue};
use sauron_core::PatchVariant;

#[test]
fn empty_values_are_dropped_in_live_attributes() {
    let a = Attribute {
        namespace: None,
        name: "class".to_string(),
        value: vec![AttributeValue::Simple("a".to_string()), AttributeValue::Empty, AttributeValue::EventListener(7)],
    };
    let d = convert_attr(&a);
    assert_eq!(d.name, "class");
    assert_eq!(d.value.len(), 2);
    assert!(matches!(&d.value[0], DomAttrValue::Simple(s) if s == "a"));
    assert!(matches!(d.value[1], DomAttrValue::EventListener(7)));
    assert!(convert_attr_value(&AttributeValue::Empty).is_none());
}

#[test]
fn converted_patches_carry_the_given_live_nodes() {
    let p = patch(vec![1], Some("ul"), PatchType::AppendChildren { children: vec![Node::Leaf("x".to_string())] });
    let d = convert_patch(&p, 10u32, vec![42u32]);
    assert_eq!(d.patch_path.path, vec![1]);
    assert_eq!(d.target_element, 10);
    assert!(matches!(&d.patch_variant, PatchVariant::AppendChildren { children } if children == &vec![42]));
    let m = patch(vec![0], None, PatchType::MoveBeforeNode { nodes_path: vec![TreePath::new(vec![3])] });
    let d = convert_patch(&m, 1u32, vec![5u32]);
    assert!(matches!(&d.patch_variant, PatchVariant::MoveBeforeNode { for_moving } if for_moving == &vec![5]));
}

#[test]
fn added_attributes_are_merged_before_conversion() {
    let attrs = vec![
        Attribute { namespace: None, name: "class".to_string(), value: vec![AttributeValue::Simple("a".to_string())] },
        Attribute { namespace: None, name: "id".to_string(), value: vec![AttributeValue::Empty] },
        Attribute { namespace: None, name: "class".to_string(), value: vec![AttributeValue::Simple("b".to_string())] },
    ];
    let p = patch(vec![], Some("div"), PatchType::AddAttributes { attrs });
    let d = convert_patch::<u32>(&p, 0, vec![]);
    match &d.patch_variant {
        PatchVariant::AddAttributes { attrs } => {
            assert_eq!(attrs.len(), 2);
            assert_eq!(attrs[0].name, "class");
            assert_eq!(attrs[0].value.len(), 2);
            assert_eq!(attrs[1].name, "id");
            assert!(attrs[1].value.is_empty());
        }
        _ => panic!("expected added attributes"),
    }
}

#[test]
fn namespace_is_kept_in_live_attributes() {
    let a = Attribute {
        namespace: Some("http://www.w3.org/1999/xlink".to_string()),
        name: "href".to_string(),
        value: vec![AttributeValue::Simple("#a".to_string())],
    };
    let d = convert_attr(&a);
    assert_eq!(d.namespace.as_deref(), Some("http://www.w3.org/1999/xlink"));
    assert_eq!(d.name, "href");
}
