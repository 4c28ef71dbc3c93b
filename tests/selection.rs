use greyxml::selection::{next_index, previous_index};

#[test]
fn next_wraps_to_first() {
    assert_eq!(next_index(Some(0), 3), 1);
    assert_eq!(next_index(Some(2), 3), 0);
    assert_eq!(next_index(Some(7), 3), 0);
    assert_eq!(next_index(None, 3), 0);
}

#[test]
fn previous_wraps_to_last() {
    assert_eq!(previous_index(Some(2), 3), 1);
    assert_eq!(previous_index(Some(0), 3), 2);
    assert_eq!(previous_index(None, 0), 0);
}
