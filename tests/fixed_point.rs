use mcts_rs::uct::{integer_sqrt, ln_fixed_of, log2_fixed_of, uct_score, LN2_FIXED, SCALE};

#[test]
fn integer_square_roots() {
    assert_eq!(integer_sqrt(0), 0);
    assert_eq!(integer_sqrt(15), 3);
    assert_eq!(integer_sqrt(16), 4);
    assert_eq!(integer_sqrt(5954076672), 77162);
    assert_eq!(integer_sqrt(0xFF_FFFF_FFFF), 1048575);
}

#[test]
fn fixed_point_logarithms() {
    assert_eq!(log2_fixed_of(1), 0);
    assert_eq!(log2_fixed_of(2), SCALE);
    assert_eq!(log2_fixed_of(3), 98304);
    assert_eq!(log2_fixed_of(10), 212992);
    assert_eq!(ln_fixed_of(1), 0);
    assert_eq!(ln_fixed_of(2), LN2_FIXED);
    assert_eq!(ln_fixed_of(10), 147634);
}

#[test]
fn uct_scores() {
    assert_eq!(uct_score(2, 1, 1), 65536);
    assert_eq!(uct_score(0, 1, 2), 77162);
    assert_eq!(uct_score(3, 4, 10), 94129);
}
