//! Behavioural tests for the identifier-addressed tree arena: identifier
//! issue, navigation, depth-first walks, cascading deletion, predicate
//! search, handles, and the lock helpers.

use std::cell::Cell;
use std::cell::RefCell;
use std::sync::Arc;
use std::sync::RwLock;

use tree_arena::arena::Arena;
use tree_arena::arena_types::HasId;
use tree_arena::mt_arena::MTArena;
use tree_arena::safe_unwrap::call_if_some;
use tree_arena::safe_unwrap::unwrap_arc_read_lock_and_call;
use tree_arena::safe_unwrap::unwrap_arc_write_lock_and_call;
use tree_arena::safe_unwrap::with_mut;

/// root -> {a, b}, a -> {a1, a2}; identifiers are 0, 1, 2, 3, 4 in this
/// order.
fn build_family_tree() -> (Arena<String>, usize, usize, usize, usize, usize) {
    let mut arena: Arena<String> = Arena::new();
    let root = arena.add_new_node("root".to_string(), None);
    let a = arena.add_new_node("a".to_string(), Some(root));
    let b = arena.add_new_node("b".to_string(), Some(root));
    let a1 = arena.add_new_node("a1".to_string(), Some(a));
    let a2 = arena.add_new_node("a2".to_string(), Some(a));
    (arena, root, a, b, a1, a2)
}

#[test]
fn test_identifiers_are_distinct_and_contiguous_from_zero() {
    let (_, root, a, b, a1, a2) = build_family_tree();
    let issued = vec![root, a, b, a1, a2];
    assert_eq!(issued, vec![0, 1, 2, 3, 4]);
    for x in 0..issued.len() {
        for y in (x + 1)..issued.len() {
            assert_ne!(issued[x], issued[y]);
        }
    }
}

#[test]
fn test_identifiers_are_never_reused_after_delete() {
    let mut arena: Arena<i32> = Arena::new();
    let first = arena.add_new_node(1, None);
    arena.delete_node(first);
    let second = arena.add_new_node(2, None);
    assert_ne!(first, second);
    assert_eq!(second, 1);
}

#[test]
fn test_navigation_and_existence() {
    let (arena, root, a, b, a1, a2) = build_family_tree();
    assert!(arena.node_exists(root));
    assert!(!arena.node_exists(99));
    assert_eq!(arena.get_parent_of(root), None);
    assert_eq!(arena.get_parent_of(a), Some(root));
    assert_eq!(arena.get_parent_of(a1), Some(a));
    assert_eq!(arena.get_parent_of(99), None);
    assert_eq!(arena.get_children_of(root), Some(vec![a, b]));
    assert_eq!(arena.get_children_of(a), Some(vec![a1, a2]));
    assert_eq!(arena.get_children_of(b), Some(vec![]));
    assert_eq!(arena.get_children_of(99), None);
    assert!(!arena.has_parent(root));
    assert!(arena.has_parent(a));
    assert!(arena.has_parent(a2));
    assert!(!arena.has_parent(99));
}

#[test]
fn test_parent_child_symmetry() {
    let (arena, _, _, _, _, _) = build_family_tree();
    for id in 0..5 {
        if let Some(p) = arena.get_parent_of(id) {
            let children = arena.get_children_of(p).unwrap();
            let occurrences = children.iter().filter(|c| **c == id).count();
            assert_eq!(occurrences, 1);
        }
    }
}

#[test]
fn test_tree_walk_dfs_order_and_completeness() {
    let (arena, root, a, b, a1, a2) = build_family_tree();
    // The walk pops later children first: root, then b's subtree, then a's.
    let walk = arena.tree_walk_dfs(root).unwrap();
    assert_eq!(walk, vec![root, b, a, a2, a1]);
    // Every node of the subtree appears exactly once.
    assert_eq!(walk.len(), 5);
    for id in [root, a, b, a1, a2] {
        assert_eq!(walk.iter().filter(|x| **x == id).count(), 1);
    }
    // A walk from an inner node covers exactly its subtree.
    assert_eq!(arena.tree_walk_dfs(a).unwrap(), vec![a, a2, a1]);
    assert_eq!(arena.tree_walk_dfs(b).unwrap(), vec![b]);
    assert_eq!(arena.tree_walk_dfs(99), None);
}

#[test]
fn test_cascading_delete() {
    let (mut arena, root, a, b, a1, a2) = build_family_tree();
    let deleted = arena.delete_node(root).unwrap();
    assert_eq!(deleted.len(), 5);
    for id in [root, a, b, a1, a2] {
        assert_eq!(deleted.iter().filter(|x| **x == id).count(), 1);
        assert!(!arena.node_exists(id));
    }
    assert_eq!(arena.delete_node(root), None);
}

#[test]
fn test_partial_delete() {
    let (mut arena, root, a, b, a1, a2) = build_family_tree();
    let deleted = arena.delete_node(a).unwrap();
    assert_eq!(deleted.len(), 3);
    for id in [a, a1, a2] {
        assert_eq!(deleted.iter().filter(|x| **x == id).count(), 1);
        assert!(!arena.node_exists(id));
    }
    assert_eq!(arena.get_children_of(root), Some(vec![b]));
    assert!(arena.node_exists(b));
    assert!(arena.node_exists(root));
}

#[test]
fn test_filter_round_trip() {
    let mut arena: Arena<i32> = Arena::new();
    let id1 = arena.add_new_node(1, None);
    let id2 = arena.add_new_node(2, Some(id1));
    let _id3 = arena.add_new_node(3, Some(id1));
    assert_eq!(arena.filter_all_nodes_by(&|_id: usize, v: &i32| *v == 2), Some(vec![id2]));
    assert_eq!(arena.filter_all_nodes_by(&|_id: usize, v: &i32| *v == 99), None);
    assert_eq!(arena.filter_all_nodes_by(&|_id: usize, v: &i32| *v > 0), Some(vec![0, 1, 2]));
}

#[test]
fn test_walk_visit_matches_dfs_and_visits_in_order() {
    let (arena, root, _, _, _, _) = build_family_tree();
    let log: RefCell<Vec<(usize, String)>> = RefCell::new(Vec::new());
    let visitor = |id: usize, payload: &String| {
        log.borrow_mut().push((id, payload.clone()));
    };
    let visited = arena.tree_walk_visit(root, &visitor).unwrap();
    assert_eq!(visited, arena.tree_walk_dfs(root).unwrap());
    let seen = log.into_inner();
    assert_eq!(seen.len(), visited.len());
    for (k, id) in visited.iter().enumerate() {
        assert_eq!(seen[k].0, *id);
    }
    assert_eq!(seen[0].1, "root");
}

#[test]
fn test_mt_arena_shares_one_arena() {
    let mt: MTArena<i32> = MTArena::new();
    let arena_arc = mt.get_arena_arc();
    let root;
    {
        let mut arena = arena_arc.write().unwrap();
        root = arena.add_new_node(10, None);
        arena.add_new_node(20, Some(root));
    }
    {
        let other_handle = mt.get_arena_arc();
        let arena = other_handle.read().unwrap();
        assert!(arena.node_exists(root));
        assert_eq!(arena.tree_walk_dfs(root).unwrap().len(), 2);
    }
}

#[test]
fn test_node_arc_keeps_node_alive_after_delete() {
    let mut arena: Arena<String> = Arena::new();
    let id = arena.add_new_node("kept".to_string(), None);
    let handle = arena.get_node_arc(id).unwrap();
    assert_eq!(handle.get_id(), id);
    assert_eq!(handle.payload, "kept");
    arena.delete_node(id);
    assert!(!arena.node_exists(id));
    assert_eq!(arena.get_node_arc(id).map(|_| ()), None);
    // The shared handle still keeps the storage alive and readable.
    assert_eq!(handle.payload, "kept");
}

#[test]
fn test_weak_handle_fails_once_nothing_keeps_the_node_alive() {
    let mut arena: Arena<i32> = Arena::new();
    let id = arena.add_new_node(7, None);
    assert!(arena.get_node_arc_weak(99).is_none());
    let weak = arena.get_node_arc_weak(id).unwrap();
    // While the table holds the node, upgrading succeeds.
    let upgraded = weak.upgrade().unwrap();
    assert_eq!(upgraded.id, id);
    assert_eq!(upgraded.payload, 7);
    drop(upgraded);
    arena.delete_node(id);
    // Nothing keeps the node alive any more: upgrading now fails.
    assert!(weak.upgrade().is_none());
}

#[test]
fn test_weak_handle_survives_delete_while_a_shared_handle_lives() {
    let mut arena: Arena<i32> = Arena::new();
    let id = arena.add_new_node(8, None);
    let strong = arena.get_node_arc(id).unwrap();
    let weak = arena.get_node_arc_weak(id).unwrap();
    arena.delete_node(id);
    assert_eq!(weak.upgrade().unwrap().payload, 8);
    drop(strong);
    assert!(weak.upgrade().is_none());
}

#[test]
fn test_deep_chain_walk_uses_no_recursion_depth() {
    // A chain deep enough that a recursive walk would exhaust the call
    // stack; the explicit-stack walk handles it.
    let depth: usize = 50_000;
    let mut arena: Arena<usize> = Arena::new();
    let root = arena.add_new_node(0, None);
    let mut current = root;
    for k in 1..depth {
        current = arena.add_new_node(k, Some(current));
    }
    let walk = arena.tree_walk_dfs(root).unwrap();
    assert_eq!(walk.len(), depth);
    for (k, id) in walk.iter().enumerate() {
        assert_eq!(*id, k);
    }
    let deleted = arena.delete_node(root).unwrap();
    assert_eq!(deleted.len(), depth);
    assert!(!arena.node_exists(depth - 1));
}

#[test]
fn test_unwrap_arc_read_lock_and_call() {
    let shared = Arc::new(RwLock::new(21));
    let doubled = unwrap_arc_read_lock_and_call(&shared, &|v: &i32| *v * 2);
    assert_eq!(doubled, 42);
}

#[test]
fn test_unwrap_arc_write_lock_and_call() {
    let shared = Arc::new(RwLock::new(7));
    let previous = unwrap_arc_write_lock_and_call(&shared, &|v: &i32| (*v + 1, *v));
    assert_eq!(previous, 7);
    assert_eq!(*shared.read().unwrap(), 8);
}

#[test]
fn test_call_if_some() {
    let seen: Cell<i32> = Cell::new(0);
    call_if_some(&Some(5), &|v: &i32| seen.set(*v));
    assert_eq!(seen.get(), 5);
    call_if_some(&None::<i32>, &|_v: &i32| seen.set(99));
    assert_eq!(seen.get(), 5);
}

#[test]
fn test_with_mut() {
    let mut value: i32 = 5;
    let report = with_mut(&mut value, &|v: &i32| (*v + 1, *v * 10));
    assert_eq!(report, 50);
    assert_eq!(value, 6);
}
