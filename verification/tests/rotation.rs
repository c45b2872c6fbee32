use drftr::draft_types::linear_draft;
use drftr::draft_types::snake_draft;

#[test]
fn snake_draft_returns_correct_next_seat() {
    assert_eq!(snake_draft(7, 5), 1);
}

#[test]
fn linear_draft_returns_correct_next_seat() {
    assert_eq!(linear_draft(4, 5), 0);
    assert_eq!(linear_draft(5, 5), 1);
}

#[test]
fn snake_draft_walks_down_and_back() {
    // three seats: picks 1..=6 sit at 1, 2, 2, 1, 0, 0
    assert_eq!(snake_draft(0, 3), 1);
    assert_eq!(snake_draft(1, 3), 2);
    assert_eq!(snake_draft(2, 3), 2);
    assert_eq!(snake_draft(3, 3), 1);
    assert_eq!(snake_draft(4, 3), 0);
    assert_eq!(snake_draft(5, 3), 0);
    assert_eq!(snake_draft(6, 3), 1);
}

#[test]
fn linear_draft_wraps_around_the_table() {
    // three seats: picks 1..=6 sit at 1, 2, 0, 1, 2, 0
    assert_eq!(linear_draft(0, 3), 1);
    assert_eq!(linear_draft(1, 3), 2);
    assert_eq!(linear_draft(2, 3), 0);
    assert_eq!(linear_draft(3, 3), 1);
    assert_eq!(linear_draft(4, 3), 2);
    assert_eq!(linear_draft(5, 3), 0);
}

#[test]
fn snake_draft_single_seat_always_zero() {
    assert_eq!(snake_draft(0, 1), 0);
    assert_eq!(snake_draft(9, 1), 0);
    assert_eq!(linear_draft(0, 1), 0);
    assert_eq!(linear_draft(9, 1), 0);
}
