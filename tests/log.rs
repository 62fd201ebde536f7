use gitegylet::log_view::{Branch, BranchMessage, LogError, LogView};
use gitegylet::store::{Node, NodeStore};
use gitegylet::traversal::traverse;

fn node(timestamp: i64, parents: Vec<usize>, summary: &str) -> Node {
    Node {
        timestamp,
        parents,
        summary: summary.to_string(),
        author: "someone".to_string(),
        message: format!("{}\n", summary),
    }
}

/// C <- B <- A, A newest. Returns (store, a, b, c).
fn linear() -> (NodeStore, usize, usize, usize) {
    let mut store = NodeStore::new();
    let c = store.insert(node(100, vec![], "c"));
    let b = store.insert(node(200, vec![c], "b"));
    let a = store.insert(node(300, vec![b], "a"));
    (store, a, b, c)
}

/// M is the parent of both A and B; A newer than B. Returns (store, a, b, m).
fn shared_parent() -> (NodeStore, usize, usize, usize) {
    let mut store = NodeStore::new();
    let m = store.insert(node(10, vec![], "m"));
    let a = store.insert(node(30, vec![m], "a"));
    let b = store.insert(node(20, vec![m], "b"));
    (store, a, b, m)
}

/// A diamond with a merge: R <- L, R <- K, (L, K) <- G (merge), G <- T.
fn diamond() -> (NodeStore, Vec<usize>) {
    let mut store = NodeStore::new();
    let r = store.insert(node(1, vec![], "r"));
    let l = store.insert(node(3, vec![r], "l"));
    let k = store.insert(node(2, vec![r], "k"));
    let g = store.insert(node(4, vec![l, k], "g"));
    let t = store.insert(node(5, vec![g], "t"));
    (store, vec![r, l, k, g, t])
}

fn no_duplicates(log: &[usize]) -> bool {
    (0..log.len()).all(|i| (i + 1..log.len()).all(|j| log[i] != log[j]))
}

#[test]
fn linear_tip_bound_two() {
    let (store, a, b, _c) = linear();
    assert_eq!(traverse(&store, &vec![a], 2), vec![a, b]);
}

#[test]
fn linear_tip_unbounded_walks_to_root() {
    let (store, a, b, c) = linear();
    assert_eq!(traverse(&store, &vec![a], 50), vec![a, b, c]);
}

#[test]
fn shared_ancestor_emitted_once() {
    let (store, a, b, m) = shared_parent();
    assert_eq!(traverse(&store, &vec![a, b], 3), vec![a, b, m]);
    assert_eq!(traverse(&store, &vec![b, a], 10), vec![a, b, m]);
}

#[test]
fn missing_parent_is_skipped() {
    let mut store = NodeStore::new();
    let gone = store.insert_missing();
    let b = store.insert(node(5, vec![], "b"));
    let a = store.insert(node(9, vec![gone, 1000, b], "a"));
    assert!(store.resolve(gone).is_none());
    assert!(store.resolve(1000).is_none());
    assert_eq!(traverse(&store, &vec![a], 10), vec![a, b]);
}

#[test]
fn missing_seed_is_skipped() {
    let (store, a, b, c) = linear();
    assert_eq!(traverse(&store, &vec![77, a], 10), vec![a, b, c]);
    assert_eq!(traverse(&store, &vec![77], 10), Vec::<usize>::new());
}

#[test]
fn deselect_keeps_shared_ancestor() {
    // Y <- X <- tip "x";  Y <- Z <- tip "z".
    let mut store = NodeStore::new();
    let y = store.insert(node(1, vec![], "y"));
    let x = store.insert(node(3, vec![y], "x"));
    let z = store.insert(node(2, vec![y], "z"));
    let tips = vec![Branch::new("x".to_string(), x), Branch::new("z".to_string(), z)];
    let mut view = LogView::initialize(tips, &store, 50);
    assert_eq!(view.current_log(), &vec![x, z, y]);
    assert!(view.set_selected(&"x".to_string(), false, &store).is_ok());
    assert_eq!(view.current_log(), &vec![z, y]);
    assert!(!view.branches()[0].selected);
    assert!(view.branches()[1].selected);
}

#[test]
fn zero_bound_gives_empty_log() {
    let (store, ids) = diamond();
    assert!(traverse(&store, &ids, 0).is_empty());
    let tips = vec![Branch::new("main".to_string(), ids[4])];
    let view = LogView::initialize(tips, &store, 0);
    assert!(view.current_log().is_empty());
}

#[test]
fn empty_tip_list_gives_empty_log() {
    let (store, _ids) = diamond();
    let view = LogView::initialize(vec![], &store, 50);
    assert!(view.current_log().is_empty());
    assert!(view.branches().is_empty());
}

#[test]
fn empty_seed_list_gives_empty_log() {
    let (store, _ids) = diamond();
    assert!(traverse(&store, &vec![], 50).is_empty());
}

#[test]
fn merge_reached_twice_appears_once() {
    let (store, ids) = diamond();
    let log = traverse(&store, &vec![ids[4], ids[3], ids[4]], 50);
    assert!(no_duplicates(&log));
    assert_eq!(log, vec![ids[4], ids[3], ids[1], ids[2], ids[0]]);
}

#[test]
fn length_is_bound_or_reachable_count() {
    let (store, ids) = diamond();
    for bound in 0..8usize {
        let log = traverse(&store, &vec![ids[4]], bound);
        assert_eq!(log.len(), bound.min(5));
        let from_k = traverse(&store, &vec![ids[2]], bound);
        assert_eq!(from_k.len(), bound.min(2));
    }
}

#[test]
fn log_is_newest_first() {
    let (store, ids) = diamond();
    let log = traverse(&store, &vec![ids[4], ids[2]], 50);
    for w in log.windows(2) {
        let t0 = store.resolve(w[0]).unwrap().timestamp;
        let t1 = store.resolve(w[1]).unwrap().timestamp;
        assert!(t0 >= t1);
    }
}

#[test]
fn parent_newer_than_child_still_follows_traversal_order() {
    // A clock-skewed parent: the child comes first, as the frontier finds it.
    let mut store = NodeStore::new();
    let p = store.insert(node(50, vec![], "p"));
    let c = store.insert(node(10, vec![p], "c"));
    assert_eq!(traverse(&store, &vec![c], 10), vec![c, p]);
}

#[test]
fn equal_timestamps_break_ties_by_larger_id() {
    let mut store = NodeStore::new();
    let a = store.insert(node(7, vec![], "a"));
    let b = store.insert(node(7, vec![], "b"));
    let c = store.insert(node(7, vec![], "c"));
    assert_eq!(traverse(&store, &vec![a, c, b], 10), vec![c, b, a]);
    assert!(store.is_newer(c, a));
    assert!(!store.is_newer(a, c));
}

#[test]
fn seeds_appear_when_bound_allows() {
    let (store, a, b, _m) = shared_parent();
    let log = traverse(&store, &vec![b, a], 2);
    assert!(log.contains(&a));
    assert!(log.contains(&b));
    // With room for one node only the newest seed is kept.
    assert_eq!(traverse(&store, &vec![b, a], 1), vec![a]);
}

#[test]
fn deselecting_adds_no_node() {
    let (store, ids) = diamond();
    let tips = vec![
        Branch::new("top".to_string(), ids[4]),
        Branch::new("left".to_string(), ids[1]),
        Branch::new("right".to_string(), ids[2]),
    ];
    let mut view = LogView::initialize(tips, &store, 50);
    let before = view.current_log().clone();
    view.set_selected(&"top".to_string(), false, &store).ok().unwrap();
    let after = view.current_log().clone();
    assert!(after.iter().all(|x| before.contains(x)));
    assert_eq!(after, vec![ids[1], ids[2], ids[0]]);
    view.set_selected(&"left".to_string(), false, &store).ok().unwrap();
    assert_eq!(view.current_log(), &vec![ids[2], ids[0]]);
}

#[test]
fn recompute_twice_gives_same_log() {
    let (store, ids) = diamond();
    let tips = vec![Branch::new("top".to_string(), ids[4]), Branch::new("k".to_string(), ids[2])];
    let mut view = LogView::initialize(tips, &store, 3);
    let first = view.current_log().clone();
    view.recompute(&store, 3);
    let second = view.current_log().clone();
    view.recompute(&store, 3);
    assert_eq!(first, second);
    assert_eq!(second, view.current_log().clone());
    assert_eq!(first, vec![ids[4], ids[3], ids[1]]);
}

#[test]
fn recompute_with_new_bound() {
    let (store, a, b, c) = linear();
    let mut view = LogView::initialize(vec![Branch::new("main".to_string(), a)], &store, 1);
    assert_eq!(view.current_log(), &vec![a]);
    view.recompute(&store, 5);
    assert_eq!(view.bound(), 5);
    assert_eq!(view.current_log(), &vec![a, b, c]);
}

#[test]
fn unknown_tip_changes_nothing() {
    let (store, a, b, _c) = linear();
    let mut view = LogView::initialize(vec![Branch::new("main".to_string(), a)], &store, 2);
    let r = view.set_selected(&"feature".to_string(), false, &store);
    assert!(matches!(r, Err(LogError::UnknownTip)));
    assert_eq!(view.current_log(), &vec![a, b]);
    assert!(view.branches()[0].selected);
}

#[test]
fn initialize_selects_every_tip() {
    let (store, a, b, c) = linear();
    let mut off = Branch::new("old".to_string(), c);
    off.selected = false;
    off.head = true;
    let view = LogView::initialize(vec![off, Branch::new("main".to_string(), a)], &store, 50);
    assert!(view.branches().iter().all(|t| t.selected));
    assert!(view.branches()[0].head);
    assert_eq!(view.current_log(), &vec![a, b, c]);
}

#[test]
fn deselecting_all_tips_empties_the_log() {
    let (store, a, _b, _c) = linear();
    let mut view = LogView::initialize(vec![Branch::new("main".to_string(), a)], &store, 50);
    view.set_selected(&"main".to_string(), false, &store).ok().unwrap();
    assert!(view.current_log().is_empty());
    view.set_selected(&"main".to_string(), true, &store).ok().unwrap();
    assert_eq!(view.current_log().len(), 3);
}

#[test]
fn update_branch_by_index() {
    let (store, a, b, m) = shared_parent();
    let tips = vec![Branch::new("a".to_string(), a), Branch::new("b".to_string(), b)];
    let mut view = LogView::initialize(tips, &store, 50);
    view.update_branch(0, BranchMessage::Selected(false), &store);
    assert_eq!(view.current_log(), &vec![b, m]);
    view.update_branch(9, BranchMessage::Selected(false), &store);
    assert_eq!(view.current_log(), &vec![b, m]);
    view.update_branch(0, BranchMessage::Selected(true), &store);
    assert_eq!(view.current_log(), &vec![a, b, m]);
}

#[test]
fn branch_new_and_update() {
    let mut branch = Branch::new("main".to_string(), 4);
    assert_eq!(branch.name, "main");
    assert_eq!(branch.target, 4);
    assert!(!branch.head);
    assert!(branch.selected);
    branch.update(BranchMessage::Selected(false));
    assert!(!branch.selected);
    assert_eq!(branch.name, "main");
    branch.update(BranchMessage::Selected(true));
    assert!(branch.selected);
}

#[test]
fn store_resolves_records() {
    let (store, a, b, _c) = linear();
    assert_eq!(store.len(), 3);
    assert!(store.contains(a));
    assert!(!store.contains(3));
    let rec = store.resolve(a).unwrap();
    assert_eq!(rec.timestamp, 300);
    assert_eq!(rec.parents, vec![b]);
    assert_eq!(rec.summary, "a");
    assert!(store.is_newer(a, b));
}
