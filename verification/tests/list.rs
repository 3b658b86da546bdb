use rtsched::list::{List, ListLink};

fn links(count: usize) -> Vec<ListLink> {
    vec![ListLink::new(); count]
}

#[test]
fn list_pushes_and_pops_in_fifo_order() {
    let mut list = List::new();
    let values = [1, 2, 3];
    let mut links = links(3);

    list.push_back(&mut links, 0);
    list.push_back(&mut links, 1);
    list.push_back(&mut links, 2);

    assert_eq!(list.len(&links), 3);
    assert!(list.contains(&links, 0));
    assert!(list.contains(&links, 1));
    assert!(list.contains(&links, 2));

    assert_eq!(list.pop_front(&mut links).map(|slot| values[slot]), Some(1));
    assert_eq!(list.pop_front(&mut links).map(|slot| values[slot]), Some(2));
    assert_eq!(list.pop_front(&mut links).map(|slot| values[slot]), Some(3));
    assert!(list.pop_front(&mut links).is_none());

    assert!(list.is_empty(&links));
}

#[test]
fn next_traverses_linked_entries() {
    let mut list = List::new();
    let values = [1, 2];
    let mut links = links(2);

    list.push_back(&mut links, 0);
    list.push_back(&mut links, 1);

    let first = list.first(&links);
    let second = list.next(&links, first);

    assert_eq!(values[first.unwrap()], 1);
    assert_eq!(values[second.unwrap()], 2);
    assert_eq!(list.next(&links, second), None);
    assert_eq!(list.next(&links, None), None);
}

#[test]
fn popped_entities_can_be_appended_again() {
    let mut list = List::default();
    let mut links = links(4);

    list.push_back(&mut links, 2);
    list.push_back(&mut links, 0);
    assert_eq!(list.pop_front(&mut links), Some(2));
    assert_eq!(links[2], ListLink::default());
    assert!(!list.contains(&links, 2));
    list.push_back(&mut links, 2);
    list.push_back(&mut links, 3);
    assert_eq!(list.len(&links), 3);
    assert_eq!(list.pop_front(&mut links), Some(0));
    assert_eq!(list.pop_front(&mut links), Some(2));
    assert_eq!(list.pop_front(&mut links), Some(3));
    assert_eq!(list.first(&links), None);
}
