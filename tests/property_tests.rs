use kodiak_sets::{Node, Pos, Sequence};

fn abc() -> Sequence<String> {
    let mut seq: Sequence<String> = Sequence::new();
    seq.push("A".to_string());
    seq.push("B".to_string());
    seq.push("C".to_string());
    seq
}

fn elements(seq: Sequence<String>) -> Vec<String> {
    seq.into_iter().map(|node: Node<String>| node.element().unwrap()).collect()
}

fn slot_count(seq: &Sequence<String>) -> usize {
    let mut n = 0;
    for _node in seq {
        n += 1;
    }
    n
}

#[test]
fn push_adds_one_with_a_greater_key() {
    let mut seq: Sequence<u32> = Sequence::new();
    for i in 0..20u32 {
        let before = seq.len();
        seq.push(i);
        assert_eq!(seq.len(), before + 1);
        if i > 0 {
            let prev = seq.position_from(i as usize - 1).unwrap();
            let last = seq.position_from(i as usize).unwrap();
            assert!(prev < last);
        }
    }
    assert_eq!(seq.pos_from(19), Some((20, 1)));
}

#[test]
fn insert_then_get_reads_the_new_element() {
    for i in 0..=3usize {
        let mut seq = abc();
        seq.insert(i, "X".to_string());
        assert_eq!(seq.len(), 4);
        assert_eq!(seq.get(i), Some(&"X".to_string()));
        let mut expected = vec!["A".to_string(), "B".to_string(), "C".to_string()];
        expected.insert(i, "X".to_string());
        assert_eq!(elements(seq), expected);
    }
}

#[test]
fn insert_at_front_uses_mediant_with_zero() {
    let mut seq = abc();
    seq.insert(0, "X".to_string());
    assert_eq!(seq.pos_from(0), Some((1, 2)));
    seq.insert(2, "Y".to_string());
    assert_eq!(seq.pos_from(2), Some((3, 2)));
    assert!(seq.position_from(1).unwrap() < seq.position_from(2).unwrap());
    assert!(seq.position_from(2).unwrap() < seq.position_from(3).unwrap());
}

#[test]
fn remove_then_get_reads_the_next_element() {
    let mut seq = abc();
    seq.push("D".to_string());
    let next = seq.get(2).cloned();
    assert_eq!(seq.remove(1), Some("B".to_string()));
    assert_eq!(seq.len(), 3);
    assert_eq!(seq.get(1).cloned(), next);
    // Index 2 holds "C", which the scan from index 2 reaches first.
    assert_eq!(seq.remove(2), Some("C".to_string()));
    assert_eq!(seq.len(), 2);
    assert_eq!(seq.get(2), None);
    assert_eq!(seq.get(1), Some(&"D".to_string()));
}

#[test]
fn remove_then_insert_reuses_the_key() {
    let mut seq = abc();
    let key = seq.position_from(1).unwrap();
    assert_eq!(seq.remove(1), Some("B".to_string()));
    seq.insert(1, "X".to_string());
    assert_eq!(seq.position_from(1), Some(key));
    assert_eq!(seq.pos_from(1), Some((2, 1)));
    assert_eq!(slot_count(&seq), 3);
    assert_eq!(seq.get(1), Some(&"X".to_string()));
}

#[test]
fn insert_at_an_equal_fraction_overwrites() {
    let mut seq = abc();
    assert_eq!(seq.index_from(Pos::new(4, 2)), Some(1));
    seq.insert_at(Pos::new(4, 2), "X".to_string());
    assert_eq!(seq.len(), 3);
    assert_eq!(seq.index_from(Pos::new(4, 2)), Some(1));
    assert_eq!(seq.get(1), Some(&"X".to_string()));
    assert_eq!(slot_count(&seq), 3);
}

#[test]
fn scenario_push_remove_insert() {
    let mut seq: Sequence<String> = Sequence::new();
    seq.push("A".to_string());
    seq.push("B".to_string());
    seq.push("C".to_string());
    assert_eq!(seq.pos_from(0), Some((1, 1)));
    assert_eq!(seq.pos_from(1), Some((2, 1)));
    assert_eq!(seq.pos_from(2), Some((3, 1)));
    assert_eq!(seq.len(), 3);

    assert_eq!(seq.remove(1), Some("B".to_string()));
    assert_eq!(seq.len(), 2);
    assert_eq!(seq.get(1), Some(&"C".to_string()));
    assert_eq!(seq.first(), Some(&"A".to_string()));
    assert_eq!(seq.last(), Some(&"C".to_string()));

    seq.insert(1, "X".to_string());
    assert_eq!(seq.pos_from(1), Some((2, 1)));
    assert_eq!(seq.len(), 3);
    assert_eq!(seq.get(1), Some(&"X".to_string()));
}

#[test]
fn clone_with_tombstones_keeps_length_and_traversal() {
    let mut seq = abc();
    seq.push("D".to_string());
    seq.remove(1);
    seq.remove(2);
    let copy = seq.clone();
    assert_eq!(copy.len(), seq.len());
    assert_eq!(slot_count(&copy), slot_count(&seq));
    assert_eq!(copy.pos_from(1), seq.pos_from(1));
    assert_eq!(elements(copy), elements(seq));
}

#[test]
fn empty_sequence_has_nothing() {
    let mut seq: Sequence<String> = Sequence::with_capacity(8);
    assert!(seq.capacity() >= 8);
    assert!(seq.is_empty());
    assert_eq!(seq.first(), None);
    assert_eq!(seq.last(), None);
    assert_eq!(seq.get(0), None);
    assert_eq!(seq.get_mut(0), None);
    assert_eq!(seq.remove(0), None);
    assert_eq!(seq.remove_at(Pos::new(1, 1)), None);
    assert_eq!(seq.index_from(Pos::new(1, 1)), None);
    assert_eq!(seq.position_from(0), None);
}

#[test]
fn borrowing_traversal_shows_tombstones_owning_one_drops_them() {
    let mut seq = abc();
    seq.remove(0);
    let vacant = (&seq).into_iter().filter(|node| node.is_none()).count();
    assert_eq!(vacant, 1);
    assert_eq!(slot_count(&seq), 3);
    assert_eq!(elements(seq), vec!["B".to_string(), "C".to_string()]);
}

#[test]
fn remove_at_a_tombstone_key_scans_on() {
    let mut seq = abc();
    seq.remove(0);
    // The key 1/1 now marks a tombstone at index 0; removing there reaches "B".
    assert_eq!(seq.remove_at(Pos::new(2, 2)), Some("B".to_string()));
    assert_eq!(seq.len(), 1);
}

#[test]
fn insert_at_between_keys_lands_between() {
    let mut seq = abc();
    seq.insert_at(Pos::new(5, 2), "X".to_string());
    assert_eq!(seq.len(), 4);
    assert_eq!(seq.pos_from(2), Some((5, 2)));
    assert_eq!(seq.get(2), Some(&"X".to_string()));
    assert_eq!(
        elements(seq),
        vec!["A".to_string(), "B".to_string(), "X".to_string(), "C".to_string()]
    );
}

#[test]
fn keys_equal_by_reduced_form() {
    assert!(Pos::new(6, 4) == Pos::new(3, 2));
    assert!(Pos::new(2, 4) != Pos::new(1, 3));
    assert!(Pos::new(2, 3) != Pos::new(3, 4));
    assert!(Pos::new(0, 5) == Pos::new(0, 1));
}

#[test]
fn keys_ordered_by_value() {
    assert!(Pos::new(3, 2) < Pos::new(2, 1));
    assert!(Pos::new(1, 2) < Pos::new(1, 1));
    assert!(Pos::new(5, 3) > Pos::new(3, 2));
    assert!(Pos::new(4, 2) <= Pos::new(2, 1));
    assert!(Pos::new(4, 2) >= Pos::new(2, 1));
}

#[test]
fn from_nodes_keeps_valid_storage() {
    let nodes = vec![
        Node::new(Pos::new(1, 1), "A".to_string()),
        Node::new_empty(Pos::new(3, 2)),
        Node::new(Pos::new(2, 1), "C".to_string()),
    ];
    let seq = Sequence::from_nodes(nodes).unwrap();
    assert_eq!(seq.len(), 2);
    assert_eq!(seq.pos_from(1), Some((3, 2)));
    assert_eq!(seq.get(1), Some(&"C".to_string()));
}

#[test]
fn from_nodes_refuses_unordered_or_invalid_keys() {
    let unordered = vec![
        Node::new(Pos::new(2, 1), "A".to_string()),
        Node::new(Pos::new(3, 2), "B".to_string()),
    ];
    assert!(Sequence::from_nodes(unordered).is_none());
    let repeated = vec![
        Node::new(Pos::new(1, 1), "A".to_string()),
        Node::new(Pos::new(2, 2), "B".to_string()),
    ];
    assert!(Sequence::from_nodes(repeated).is_none());
    let zero = vec![Node::new(Pos::new(0, 1), "A".to_string())];
    assert!(Sequence::from_nodes(zero).is_none());
    let vacant_denominator = vec![Node::new(Pos { num: 1, denom: 0 }, "A".to_string())];
    assert!(Sequence::from_nodes(vacant_denominator).is_none());
}

#[test]
fn remove_over_a_tombstone_takes_the_logical_element() {
    let mut seq = abc();
    seq.push("D".to_string());
    seq.remove(1);
    // Index 1 is a tombstone; logically it is "C", and after removal "D" follows.
    assert_eq!(seq.remove(1), Some("C".to_string()));
    assert_eq!(seq.len(), 2);
    assert_eq!(seq.get(1), Some(&"D".to_string()));
}

#[test]
fn index_mut_keeping_key_and_occupancy() {
    let mut seq = abc();
    seq[1].set("X".to_string());
    assert_eq!(seq.len(), 3);
    assert_eq!(seq.get(1), Some(&"X".to_string()));
    for node in &mut seq {
        if let Some(element) = node.element_as_mut() {
            element.push('!');
        }
    }
    assert_eq!(elements(seq), vec!["A!".to_string(), "X!".to_string(), "C!".to_string()]);
}
