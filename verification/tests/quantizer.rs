use ascii_art::constants::ENGLISH;
use ascii_art::utils::{get_char, get_char_, get_index, Mean};

fn mean_of(sum: u128, den: u128) -> Mean {
    Mean { sum, den }
}

#[test]
fn index_bounds() {
    // A mean of 0 always lands on the first character, a mean of 255 on the
    // last, whatever the set length or the mean's representation.
    for len in 1..100usize {
        assert_eq!(get_index(len, mean_of(0, 1)), 0);
        assert_eq!(get_index(len, mean_of(0, 432)), 0);
        assert_eq!(get_index(len, mean_of(255, 1)), len - 1);
        assert_eq!(get_index(len, mean_of(255 * 432, 432)), len - 1);
    }
}

#[test]
fn index_in_range() {
    for len in [1usize, 2, 3, 52, 97] {
        for m in 0..=255u128 {
            let i = get_index(len, mean_of(m, 1));
            assert!(i < len);
        }
    }
}

#[test]
fn index_monotonic() {
    for len in [1usize, 2, 52] {
        let mut prev = 0usize;
        for m in 0..=255u128 {
            let i = get_index(len, mean_of(m, 1));
            assert!(i >= prev);
            prev = i;
        }
    }
}

#[test]
fn index_rounds_to_nearest() {
    // round(116.67 / 255 * 52) = round(23.79) = 24.
    assert_eq!(get_index(52, mean_of(350, 3)), 24);
    // round(100 / 255 * 52) = round(20.39) = 20.
    assert_eq!(get_index(52, mean_of(100, 1)), 20);
    // round(128 / 255 * 2) = round(1.004) = 1.
    assert_eq!(get_index(2, mean_of(128, 1)), 1);
    // round(127 / 255 * 2) = round(0.996) = 1.
    assert_eq!(get_index(2, mean_of(127, 1)), 1);
    // round(63 / 255 * 2) = round(0.494) = 0.
    assert_eq!(get_index(2, mean_of(63, 1)), 0);
    // Halves round up: 25.5 / 255 * 5 = 0.5.
    assert_eq!(get_index(5, mean_of(51, 2)), 1);
}

#[test]
fn quantizer_is_pure() {
    // Feeding the same sampled mean through the quantizer twice picks the
    // same character.
    let m = mean_of(350, 3);
    let a = get_char(ENGLISH, m);
    let b = get_char(ENGLISH, m);
    assert_eq!(a, b);
    // And two representations of the same rational mean agree.
    let c = get_char(ENGLISH, mean_of(700, 6));
    assert_eq!(a, c);
}

#[test]
fn char_selection() {
    assert_eq!(get_char(ENGLISH, mean_of(0, 1)), 'A');
    assert_eq!(get_char(ENGLISH, mean_of(255, 1)), 'z');
    assert_eq!(get_char(ENGLISH, mean_of(350, 3)), 'M');
    assert_eq!(get_char("Aa", mean_of(0, 1)), 'A');
    assert_eq!(get_char("Aa", mean_of(255, 1)), 'a');
}

#[test]
fn char_indexing_is_by_character_not_byte() {
    // A multi-byte character before the index must not shift it.
    assert_eq!(get_char_("\u{e4}bc", 0), '\u{e4}');
    assert_eq!(get_char_("\u{e4}bc", 1), 'b');
    assert_eq!(get_char_("\u{e4}bc", 2), 'c');
}
