use sauron_core::{skip_if, Effects, SkipDiff, TreePath};

fn paths(v: Vec<TreePath>) -> Vec<Vec<usize>> {
    v.into_iter().map(|p| p.path).collect()
}

#[test]
fn skipped_leaf_root_gives_no_path() {
    let root = SkipDiff::new(true, vec![]);
    assert!(SkipDiff::traverse(&[root]).is_empty());
}

#[test]
fn unskipped_positions_in_tree_order() {
    let root = skip_if(
        false,
        vec![skip_if(true, vec![skip_if(false, vec![])]), skip_if(false, vec![])],
    );
    assert_eq!(paths(SkipDiff::traverse(&[root])), vec![vec![], vec![0, 0], vec![1]]);
}

#[test]
fn several_roots_are_indexed() {
    let roots = [skip_if(false, vec![skip_if(false, vec![])]), skip_if(true, vec![]), skip_if(false, vec![])];
    assert_eq!(paths(SkipDiff::traverse(&roots)), vec![vec![0], vec![0, 0], vec![2]]);
    assert!(SkipDiff::traverse(&[]).is_empty());
}

#[test]
fn skippable_only_when_every_decision_is_true() {
    let all = skip_if(true, vec![skip_if(true, vec![]), skip_if(true, vec![skip_if(true, vec![])])]);
    assert!(all.is_skippable_recursive());
    let one_false = skip_if(true, vec![skip_if(true, vec![]), skip_if(true, vec![skip_if(false, vec![])])]);
    assert!(!one_false.is_skippable_recursive());
    assert!(!skip_if(false, vec![]).is_skippable_recursive());
}

#[test]
fn tree_path_traverse_appends() {
    let root = TreePath::root();
    assert!(root.is_empty());
    let p = root.traverse(2).traverse(5);
    assert_eq!(p.path, vec![2, 5]);
    assert!(root.is_empty());
    assert!(TreePath::new(vec![0]) < TreePath::new(vec![0, 1]));
    assert!(TreePath::new(vec![0, 1]) < TreePath::new(vec![1]));
}

#[test]
fn effects_constructors_and_mapping() {
    let e: Effects<u32, &str> = Effects::new(vec![1, 2, 3], vec!["p"]);
    let m = e.map_follow_ups(|x| x * 10);
    assert_eq!(m.follow_ups, vec![10, 20, 30]);
    assert_eq!(m.effects, vec!["p"]);
    let f: Effects<u32, u8> = Effects::with_follow_ups(vec![7]);
    assert_eq!(f.follow_ups, vec![7]);
    assert!(f.effects.is_empty());
    let g: Effects<u32, u8> = Effects::with_effects(vec![9]);
    assert!(g.follow_ups.is_empty());
    assert_eq!(g.effects, vec![9]);
    let n: Effects<u32, u8> = Effects::none();
    assert!(n.follow_ups.is_empty() && n.effects.is_empty());
}

#[test]
fn skip_diffs_compare_decisions_and_children() {
    assert!(SkipDiff::new(true, vec![]) != SkipDiff::new(false, vec![]));
    assert!(skip_if(true, vec![skip_if(false, vec![])]) == skip_if(true, vec![skip_if(false, vec![])]));
    assert!(skip_if(true, vec![skip_if(false, vec![])]) != skip_if(true, vec![skip_if(true, vec![])]));
    assert!(skip_if(true, vec![]) != skip_if(true, vec![skip_if(true, vec![])]));
}
