use normalized_string::normalized::PyNormalizedString;
use normalized_string::offsets::{bytes_to_char, char_to_bytes, char_width, is_whitespace};
use normalized_string::range::PyRange;

#[test]
fn new_keeps_both_texts_and_aligns_each_character() {
    let n = PyNormalizedString::new("héllo");
    assert_eq!(n.get_original(), "héllo");
    assert_eq!(n.get_normalized(), "héllo");
    assert_eq!(n.alignments(), &vec![(0, 1), (1, 3), (3, 4), (4, 5), (5, 6)]);
}

#[test]
fn char_width_agrees_with_std_on_every_character() {
    for v in 0..=0x10FFFFu32 {
        if let Some(c) = char::from_u32(v) {
            assert_eq!(char_width(c), c.len_utf8());
        }
    }
}

#[test]
fn is_whitespace_agrees_with_std_on_every_character() {
    for v in 0..=0x10FFFFu32 {
        if let Some(c) = char::from_u32(v) {
            assert_eq!(is_whitespace(c), c.is_whitespace());
        }
    }
}

#[test]
fn char_to_bytes_cuts_off_at_the_end() {
    assert_eq!(char_to_bytes("héllo", 1..3), Some(1..4));
    assert_eq!(char_to_bytes("héllo", 3..10), Some(4..6));
    assert_eq!(char_to_bytes("héllo", 5..6), None);
    assert_eq!(char_to_bytes("héllo", 2..2), None);
}

#[test]
fn bytes_to_char_wants_boundaries() {
    assert_eq!(bytes_to_char("héllo", 1..3), Some(1..2));
    assert_eq!(bytes_to_char("héllo", 2..3), None);
    assert_eq!(bytes_to_char("héllo", 0..6), Some(0..5));
    assert_eq!(bytes_to_char("héllo", 0..7), None);
}

#[test]
fn slice_single_negative_index() {
    let n = PyNormalizedString::new("hello");
    let part = n.slice(&PyRange::Single(-1)).unwrap().unwrap();
    assert_eq!(part.get_normalized(), "o");
    assert_eq!(part.get_original(), "o");
    assert_eq!(part.alignments(), &vec![(0, 1)]);
}

#[test]
fn nfkd_expansion_shares_the_source_range() {
    let mut n = PyNormalizedString::new("ŉ");
    n.nfkd();
    assert_eq!(n.get_normalized(), "ʼn");
    assert_eq!(n.alignments(), &vec![(0, 2), (0, 2)]);
}

#[test]
fn strip_removes_whitespace_at_both_ends() {
    let mut n = PyNormalizedString::new("  a b \n");
    n.strip();
    assert_eq!(n.get_normalized(), "a b");
    assert_eq!(n.alignments(), &vec![(2, 3), (3, 4), (4, 5)]);
}
