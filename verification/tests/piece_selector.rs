use dfdaemon_core::piece_selector::{CollectedPiece, PieceSelector, SelectStep};

fn piece(number: u32, parents: &[&str]) -> CollectedPiece {
    CollectedPiece {
        number,
        length: 4096,
        parents: parents.iter().map(|p| p.to_string()).collect(),
    }
}

#[test]
fn fifo_drain_in_insertion_order() {
    let mut selector = PieceSelector::new();
    selector.insert(piece(7, &["p1"]));
    selector.insert(piece(3, &["p2"]));
    selector.insert(piece(9, &["p3"]));
    for expected in [7u32, 3, 9] {
        match selector.select_fifo() {
            SelectStep::Selected(p) => assert_eq!(p.number, expected),
            _ => panic!("expected a selected piece"),
        }
    }
    // a fourth consumer step would block on the empty buffer; close
    // wakes it and yields the terminal signal
    assert_eq!(selector.len(), 0);
    selector.close();
    assert!(matches!(selector.select_fifo(), SelectStep::Terminal));
}

#[test]
fn parent_merge_by_union() {
    let mut selector = PieceSelector::new();
    selector.insert(piece(5, &["peer-a"]));
    selector.insert(piece(5, &["peer-b"]));
    assert_eq!(selector.len(), 1);
    match selector.select_fifo() {
        SelectStep::Selected(p) => {
            assert_eq!(p.number, 5);
            assert_eq!(p.parents, vec!["peer-a".to_string(), "peer-b".to_string()]);
        }
        _ => panic!("expected a selected piece"),
    }
    // the dedup released only one permit in total: the buffer is empty
    // and a second consumer step would block
    assert_eq!(selector.len(), 0);
}

#[test]
fn duplicate_insert_with_overlapping_parents() {
    let mut selector = PieceSelector::new();
    selector.insert(piece(5, &["peer-a", "peer-b"]));
    selector.insert(piece(5, &["peer-b", "peer-c"]));
    assert_eq!(selector.len(), 1);
    match selector.select_fifo() {
        SelectStep::Selected(p) => {
            assert_eq!(
                p.parents,
                vec![
                    "peer-a".to_string(),
                    "peer-b".to_string(),
                    "peer-c".to_string()
                ]
            );
        }
        _ => panic!("expected a selected piece"),
    }
}

#[test]
fn selected_piece_is_never_rebuffered() {
    let mut selector = PieceSelector::new();
    selector.insert(piece(1, &["p"]));
    match selector.select_fifo() {
        SelectStep::Selected(p) => assert_eq!(p.number, 1),
        _ => panic!("expected a selected piece"),
    }
    selector.insert(piece(1, &["q"]));
    assert_eq!(selector.len(), 0);
    selector.close();
    let drained = selector.drain_after_close();
    assert!(drained.is_empty());
}

#[test]
fn drain_after_close_pops_everything_then_terminates() {
    let mut selector = PieceSelector::new();
    selector.insert(piece(2, &["a"]));
    selector.insert(piece(4, &["b"]));
    selector.insert(piece(6, &["c"]));
    selector.close();
    let drained = selector.drain_after_close();
    let numbers: Vec<u32> = drained.iter().map(|p| p.number).collect();
    assert_eq!(numbers, vec![2, 4, 6]);
    assert_eq!(selector.len(), 0);
}

#[test]
fn close_on_empty_buffer_yields_terminal() {
    let mut selector = PieceSelector::new();
    selector.close();
    assert!(matches!(selector.select_fifo(), SelectStep::Terminal));
}

#[test]
fn random_selection_returns_a_buffered_piece() {
    let mut selector = PieceSelector::new();
    selector.insert(piece(42, &["p"]));
    match selector.select_random() {
        SelectStep::Selected(p) => assert_eq!(p.number, 42),
        _ => panic!("expected a selected piece"),
    }
    assert_eq!(selector.len(), 0);
}

#[test]
fn random_drain_hands_out_each_piece_once() {
    let mut selector = PieceSelector::new();
    for n in 0..20u32 {
        selector.insert(piece(n, &["p"]));
    }
    let mut seen = Vec::new();
    for _ in 0..20 {
        match selector.select_random() {
            SelectStep::Selected(p) => {
                assert!(!seen.contains(&p.number));
                seen.push(p.number);
            }
            _ => panic!("expected a selected piece"),
        }
    }
    assert_eq!(selector.len(), 0);
    seen.sort();
    let expected: Vec<u32> = (0..20).collect();
    assert_eq!(seen, expected);
}

#[test]
fn custom_rule_over_snapshot() {
    let mut selector = PieceSelector::new();
    selector.insert(piece(3, &["a"]));
    selector.insert(piece(11, &["b"]));
    selector.insert(piece(6, &["c"]));
    // a caller-supplied rule: pick the highest piece number
    let snapshot = selector.snapshot();
    let choice = snapshot
        .iter()
        .enumerate()
        .max_by_key(|(_, p)| p.number)
        .map(|(i, _)| i);
    match selector.select_with(choice) {
        SelectStep::Selected(p) => assert_eq!(p.number, 11),
        _ => panic!("expected a selected piece"),
    }
    assert_eq!(selector.len(), 2);
}

#[test]
fn out_of_range_choice_retries_while_open() {
    let mut selector = PieceSelector::new();
    selector.insert(piece(1, &["a"]));
    assert!(matches!(selector.select_with(Some(9)), SelectStep::Retry));
    assert!(matches!(selector.select_with(None), SelectStep::Retry));
    // the piece is still there and selectable
    assert!(matches!(
        selector.select_with(Some(0)),
        SelectStep::Selected(_)
    ));
}

#[test]
fn insert_after_close_is_dropped() {
    let mut selector = PieceSelector::new();
    selector.insert(piece(1, &["a"]));
    selector.close();
    // after close no notice may enter the buffer
    selector.insert(piece(2, &["b"]));
    assert_eq!(selector.len(), 1);
    let drained = selector.drain_after_close();
    assert_eq!(drained.len(), 1);
    assert_eq!(drained[0].number, 1);
}
