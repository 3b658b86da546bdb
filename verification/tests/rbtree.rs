use rtsched::rbtree::{Color, RBTree};
use rtsched::sync::SyncEntity;

fn entity(key: u64) -> SyncEntity {
    let mut entity = SyncEntity::new();
    entity.set_deadline_at(key);
    entity
}

fn arena(keys: &[u64]) -> Vec<SyncEntity> {
    keys.iter().map(|key| entity(*key)).collect()
}

fn collect_keys(tree: &RBTree<SyncEntity>, arena: &Vec<SyncEntity>) -> Vec<u64> {
    let mut keys = Vec::new();
    let mut current = tree.first(arena);
    while let Some(slot) = current {
        keys.push(arena[slot].deadline_at());
        current = tree.next(arena, slot);
    }
    keys
}

fn color_of(arena: &Vec<SyncEntity>, node: Option<usize>) -> Color {
    match node {
        None => Color::Black,
        Some(slot) => arena[slot].rb_node.color,
    }
}

fn assert_rb_invariants(tree: &RBTree<SyncEntity>, arena: &Vec<SyncEntity>) {
    match tree.root() {
        None => assert_eq!(tree.len(), 0),
        Some(root) => {
            assert_eq!(arena[root].rb_node.color, Color::Black);
            assert_subtree_invariants(arena, Some(root), None, None);
        }
    }
}

fn assert_subtree_invariants(
    arena: &Vec<SyncEntity>,
    node: Option<usize>,
    min: Option<(u64, usize)>,
    max: Option<(u64, usize)>,
) -> usize {
    let Some(slot) = node else {
        return 1;
    };
    let here = (arena[slot].deadline_at(), slot);
    if let Some(min) = min {
        assert!(min < here);
    }
    if let Some(max) = max {
        assert!(here < max);
    }

    let links = arena[slot].rb_node;
    if links.color == Color::Red {
        assert_eq!(color_of(arena, links.left), Color::Black);
        assert_eq!(color_of(arena, links.right), Color::Black);
    }
    if let Some(left) = links.left {
        assert_eq!(arena[left].rb_node.parent, Some(slot));
    }
    if let Some(right) = links.right {
        assert_eq!(arena[right].rb_node.parent, Some(slot));
    }

    let left_black_height = assert_subtree_invariants(arena, links.left, min, Some(here));
    let right_black_height = assert_subtree_invariants(arena, links.right, Some(here), max);
    assert_eq!(left_black_height, right_black_height);
    left_black_height + usize::from(links.color == Color::Black)
}

#[test]
fn insert_keeps_entities_in_key_order() {
    let mut tree = RBTree::<SyncEntity>::new();
    let mut entities = arena(&[7, 3, 9, 1, 5]);

    for slot in 0..5 {
        tree.insert(&mut entities, slot);
        assert_rb_invariants(&tree, &entities);
    }

    assert_eq!(tree.len(), entities.len());
    assert_eq!(collect_keys(&tree, &entities), [1, 3, 5, 7, 9]);
    assert_eq!(entities[tree.first(&entities).unwrap()].deadline_at(), 1);
    assert_eq!(entities[tree.last(&entities).unwrap()].deadline_at(), 9);
}

#[test]
fn contains_reports_tree_membership_including_root() {
    let mut tree = RBTree::<SyncEntity>::new();
    let mut entities = arena(&[10, 5, 7]);
    let (root, child, detached) = (0, 1, 2);

    tree.insert(&mut entities, root);
    assert!(tree.contains(&entities, root));
    assert!(!tree.contains(&entities, child));

    tree.insert(&mut entities, child);
    assert!(tree.contains(&entities, root));
    assert!(tree.contains(&entities, child));
    assert!(!tree.contains(&entities, detached));
}

#[test]
fn equal_keys_are_ordered_by_entity_address() {
    let mut tree = RBTree::<SyncEntity>::new();
    let mut entities = arena(&[4, 4]);

    tree.insert(&mut entities, 0);
    tree.insert(&mut entities, 1);

    assert_rb_invariants(&tree, &entities);
    assert_eq!(tree.len(), 2);
    assert_eq!(collect_keys(&tree, &entities), [4, 4]);
    assert_eq!(tree.entities(&entities), [0, 1]);
}

#[test]
fn remove_detaches_entity_and_preserves_order() {
    let mut tree = RBTree::<SyncEntity>::new();
    let mut entities = arena(&[10, 4, 14, 2, 6, 12, 16]);

    for slot in 0..7 {
        tree.insert(&mut entities, slot);
    }

    let removed = tree.remove(&mut entities, 1);

    assert_eq!(removed, 1);
    assert!(!entities[1].rb_node.is_linked());
    assert_eq!(tree.len(), 6);
    assert_eq!(collect_keys(&tree, &entities), [2, 6, 10, 12, 14, 16]);
    assert_rb_invariants(&tree, &entities);
}

#[test]
fn pop_first_removes_entities_in_order() {
    let mut tree = RBTree::<SyncEntity>::new();
    let mut entities = arena(&[8, 3, 11, 1]);

    for slot in 0..4 {
        tree.insert(&mut entities, slot);
    }

    let mut popped = Vec::new();
    while let Some(slot) = tree.pop_first(&mut entities) {
        popped.push(entities[slot].deadline_at());
        assert!(!entities[slot].rb_node.is_linked());
        assert_rb_invariants(&tree, &entities);
    }

    assert_eq!(popped, [1, 3, 8, 11]);
    assert!(tree.is_empty(&entities));
    assert_eq!(tree.len(), 0);
}

#[test]
fn repeated_insert_remove_preserves_rb_invariants() {
    let mut tree = RBTree::<SyncEntity>::new();
    let mut entities = arena(&[20, 5, 15, 30, 25, 10, 35, 1, 18]);

    for slot in 0..9 {
        tree.insert(&mut entities, slot);
        assert_rb_invariants(&tree, &entities);
    }

    for index in [3, 1, 7, 0, 5] {
        tree.remove(&mut entities, index);
        assert_rb_invariants(&tree, &entities);
    }

    assert_eq!(collect_keys(&tree, &entities), [15, 18, 25, 35]);
}

#[test]
fn many_insertions_and_removals_keep_the_tree_balanced() {
    let mut tree = RBTree::<SyncEntity>::new();
    let keys: Vec<u64> = (0..300u64).map(|n| (n * 7919) % 101).collect();
    let mut entities = arena(&keys);

    for slot in 0..300 {
        tree.insert(&mut entities, slot);
        assert_rb_invariants(&tree, &entities);
    }

    let mut depth = 0;
    for slot in 0..300 {
        let mut steps = 1;
        let mut cursor = slot;
        while let Some(parent) = entities[cursor].rb_node.parent {
            cursor = parent;
            steps += 1;
        }
        depth = depth.max(steps);
    }
    assert!(1usize << (depth / 2) <= 301);

    let mut expected: Vec<(u64, usize)> = (0..300).map(|slot| (keys[slot], slot)).collect();
    expected.sort();
    let listed: Vec<usize> = expected.iter().map(|pair| pair.1).collect();
    assert_eq!(tree.entities(&entities), listed);

    for slot in (0..300).rev().step_by(2) {
        tree.remove(&mut entities, slot);
        assert_rb_invariants(&tree, &entities);
    }
    let left: Vec<usize> = listed.into_iter().filter(|slot| slot % 2 == 0).collect();
    assert_eq!(tree.entities(&entities), left);
    assert_eq!(tree.len(), 150);
}

#[test]
fn removing_what_was_inserted_leaves_the_same_entities() {
    let mut tree = RBTree::<SyncEntity>::default();
    let mut entities = arena(&[6, 2, 9]);
    tree.insert(&mut entities, 0);
    tree.insert(&mut entities, 1);
    assert_eq!(tree.entities(&entities), [1, 0]);
    tree.insert(&mut entities, 2);
    assert_eq!(tree.entities(&entities), [1, 0, 2]);
    tree.remove(&mut entities, 2);
    assert_eq!(tree.entities(&entities), [1, 0]);
}

#[test]
fn empty_tree_has_no_first_or_last() {
    let mut tree = RBTree::<SyncEntity>::new();
    let mut entities = arena(&[]);
    assert_eq!(tree.first(&entities), None);
    assert_eq!(tree.last(&entities), None);
    assert_eq!(tree.root(), None);
    assert_eq!(tree.pop_first(&mut entities), None);
    assert!(tree.is_empty(&entities));
}
