use arthouse::utils::RangeExt;

#[test]
fn simple() {
    assert_eq!((1..3).intersect(1..3), Some(1..3));
    assert_eq!((1..3).intersect(2..3), Some(2..3));
    assert_eq!((1..3).intersect(2..4), Some(2..3));
    assert_eq!((1..3).intersect(1..1), Some(1..1));
    assert_eq!((1..3).intersect(3..3), Some(3..3));
    assert_eq!((1..3).intersect(0..0), None);
    assert_eq!((1..1).intersect(0..0), None);
}

#[test]
fn intersect_is_symmetric_on_numbers() {
    assert_eq!((2usize..9).intersect(5..20), Some(5..9));
    assert_eq!((5usize..20).intersect(2..9), Some(5..9));
    assert_eq!((0usize..4).intersect(5..6), None);
    assert_eq!((5usize..6).intersect(0..4), None);
}

#[test]
fn intersect_of_an_inverted_range_is_nothing() {
    assert_eq!((3usize..1).intersect(0..5), None);
}
