use kodiak_sets::{Pos, Sequence};

fn setup_seq_empty() -> Sequence<String> {
    let seq: Sequence<String> = Sequence::new();
    seq
}

fn setup_seq_abc() -> Sequence<String> {
    let mut seq: Sequence<String> = Sequence::new();

    seq.push("A".to_string());
    seq.push("B".to_string());
    seq.push("C".to_string());

    seq
}

#[test]
fn sequence_tests_test_new_sequence_empty() {
    let seq = setup_seq_empty();

    assert_eq!(seq.len(), 0);
}

#[test]
fn sequence_tests_test_new_sequence_3() {
    let seq = setup_seq_abc();

    assert_eq!(seq.len(), 3);
}

#[test]
fn test_first_none() {
    let seq = setup_seq_empty();

    assert_eq!(seq.first(), None);
}

#[test]
fn test_last_some_t() {
    let seq = setup_seq_abc();

    assert_eq!(seq.last(), Some(&"C".to_string()));
}

#[test]
fn test_get_some_t() {
    let seq = setup_seq_abc();

    assert_eq!(seq.get(1), Some(&"B".to_string()));
}

#[test]
fn test_get_mut_some_t() {
    let mut seq = setup_seq_abc();

    assert_eq!(seq.get_mut(1), Some(&mut "B".to_string()));
}

#[test]
fn sequence_tests_test_insert_into_empty_sequence() {
    let mut seq = setup_seq_empty();
    seq.insert(0, "A".to_string());

    assert_eq!(seq.len(), 1);
    assert_eq!(seq.first(), Some(&"A".to_string()));
    assert_eq!(seq.last(), Some(&"A".to_string()));
}

#[test]
fn sequence_tests_test_insert_into_non_empty_sequence_index_gt_len() {
    let mut seq = setup_seq_abc();
    seq.insert(8, "H".to_string());

    assert_eq!(seq.len(), 4);
    assert_eq!(seq.get(3), Some(&"H".to_string()));
    assert_eq!(seq.last(), Some(&"H".to_string()));
}

#[test]
fn sequence_tests_test_insert_into_non_empty_sequence_index_0() {
    let mut seq = setup_seq_abc();
    seq.insert(0, "_H".to_string());

    assert_eq!(seq.len(), 4);
    assert_eq!(seq.get(0), Some(&"_H".to_string()));
    assert_eq!(seq.first(), Some(&"_H".to_string()));
}

#[test]
fn sequence_tests_test_insert_into_non_empty_sequence_index_1() {
    let mut seq = setup_seq_abc();
    seq.insert(1, "AA".to_string());

    assert_eq!(seq.len(), 4);
    assert_eq!(seq.get(1), Some(&"AA".to_string()));
}

#[test]
fn test_insert_into_non_empty_sequence_element_none() {
    let mut seq = setup_seq_abc();

    seq.remove(1);
    assert_eq!(seq.len(), 2);

    seq.insert(1, "AA".to_string());
    assert_eq!(seq.len(), 3);
    assert_eq!(seq.get(1), Some(&"AA".to_string()));
}

#[test]
fn sequence_tests_test_insert_at_pos_into_non_empty_sequence() {
    let mut seq = setup_seq_abc();
    seq.insert_at(Pos::new(4, 1), "D".to_string());

    assert_eq!(seq.len(), 4);
    assert_eq!(seq.get(3), Some(&"D".to_string()));
}

#[test]
fn sequence_tests_test_insert_at_pos_into_non_empty_sequence_at_existing_middle_pos() {
    let mut seq = setup_seq_abc();
    let len = seq.len();

    seq.insert_at(Pos::new(2, 1), "BB".to_string());
    assert_eq!(seq.len(), len);
    assert_eq!(seq.get(1), Some(&"BB".to_string()));
}

#[test]
fn sequence_tests_test_insert_at_pos_into_non_empty_sequence_at_existing_end_pos() {
    let mut seq = setup_seq_abc();
    let len = seq.len();

    seq.insert_at(Pos::new(3, 1), "D".to_string());
    assert_eq!(seq.len(), len);
    assert_eq!(seq.get(2), Some(&"D".to_string()));

    seq.insert_at(Pos::new(3, 1), "E".to_string());
    assert_eq!(seq.len(), len);
    assert_eq!(seq.get(2), Some(&"E".to_string()));
}

#[test]
fn test_remove_element_none() {
    let mut seq = setup_seq_abc();
    let _node = seq.remove(1);
    let len = seq.len();

    // Index 1 is a tombstone now: the scan goes on to "C", the next element.
    assert_eq!(seq.remove(1), Some("C".to_string()));
    assert_eq!(seq.len(), len - 1);
}

#[test]
fn test_trait_impl_into_iterator_t() {
    let mut seq = setup_seq_abc();
    seq.remove(1);

    for node in seq {
        assert_eq!(node.element.is_some(), true);
    }
}
