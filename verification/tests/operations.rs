use normalized_string::error::NormalizedError;
use normalized_string::normalized::PyNormalizedString;
use normalized_string::range::{PyRange, SliceBounds};

fn texts(parts: &[PyNormalizedString]) -> Vec<String> {
    parts.iter().map(|p| p.get_normalized().to_string()).collect()
}

#[test]
fn lowercase_keeps_one_alignment_per_character() {
    let mut n = PyNormalizedString::new("HÉllo Wörld");
    let before = n.alignments().clone();
    n.lowercase();
    assert_eq!(n.get_normalized(), "héllo wörld");
    assert_eq!(n.get_original(), "HÉllo Wörld");
    assert_eq!(n.alignments(), &before);
    assert_eq!(n.get_normalized().chars().count(), n.alignments().len());
}

#[test]
fn uppercase_keeps_one_alignment_per_character() {
    let mut n = PyNormalizedString::new("héllo");
    let before = n.alignments().clone();
    n.uppercase();
    assert_eq!(n.get_normalized(), "HÉLLO");
    assert_eq!(n.alignments(), &before);
    assert_eq!(n.len(), 5);
}

#[test]
fn uppercase_takes_the_first_character_of_a_longer_mapping() {
    let mut n = PyNormalizedString::new("ßa");
    n.uppercase();
    assert_eq!(n.get_normalized(), "SA");
    assert_eq!(n.alignments(), &vec![(0, 2), (2, 3)]);
}

#[test]
fn map_replaces_one_for_one() {
    let mut n = PyNormalizedString::new("abc");
    let r = n.map(|c| Some(((c as u8 + 1) as char).to_string()));
    assert_eq!(r, Ok(()));
    assert_eq!(n.get_normalized(), "bcd");
    assert_eq!(n.alignments(), &vec![(0, 1), (1, 2), (2, 3)]);
}

#[test]
fn map_refuses_an_answer_of_two_characters() {
    let mut n = PyNormalizedString::new("abc");
    let r = n.map(|c| if c == 'b' { Some("xy".to_string()) } else { Some(c.to_string()) });
    assert_eq!(r, Err(NormalizedError::ContractViolation));
    assert_eq!(n.get_normalized(), "abc");
    assert_eq!(n.alignments(), &vec![(0, 1), (1, 2), (2, 3)]);
}

#[test]
fn map_refuses_an_empty_answer() {
    let mut n = PyNormalizedString::new("abc");
    let r = n.map(|_| Some(String::new()));
    assert_eq!(r, Err(NormalizedError::ContractViolation));
    assert_eq!(n.get_normalized(), "abc");
}

#[test]
fn map_reports_a_callback_that_gives_no_string() {
    let mut n = PyNormalizedString::new("abc");
    let r = n.map(|c| if c == 'c' { None } else { Some("z".to_string()) });
    assert_eq!(r, Err(NormalizedError::CallbackError));
    assert_eq!(n.get_normalized(), "abc");
}

#[test]
fn filter_drops_characters_with_their_alignments() {
    let mut n = PyNormalizedString::new("a1b2c3");
    let r = n.filter(|c| Some(c.is_alphabetic()));
    assert_eq!(r, Ok(()));
    assert_eq!(n.get_normalized(), "abc");
    assert_eq!(n.get_original(), "a1b2c3");
    assert_eq!(n.alignments(), &vec![(0, 1), (2, 3), (4, 5)]);
}

#[test]
fn filter_reports_a_callback_that_gives_no_flag() {
    let mut n = PyNormalizedString::new("a1b2c3");
    let r = n.filter(|c| if c == '2' { None } else { Some(false) });
    assert_eq!(r, Err(NormalizedError::CallbackError));
    assert_eq!(n.get_normalized(), "a1b2c3");
    assert_eq!(n.alignments().len(), 6);
}

#[test]
fn filter_with_takes_flags() {
    let mut n = PyNormalizedString::new("héllo");
    n.filter_with(&vec![false, true, false, false, true]);
    assert_eq!(n.get_normalized(), "éo");
    assert_eq!(n.alignments(), &vec![(1, 3), (5, 6)]);
}

#[test]
fn for_each_visits_in_order_and_changes_nothing() {
    let n = PyNormalizedString::new("héllo");
    let seen = std::cell::RefCell::new(String::new());
    let r = n.for_each(|c| {
        seen.borrow_mut().push(c);
        Some(())
    });
    assert_eq!(r, Ok(()));
    assert_eq!(seen.borrow().as_str(), "héllo");
    assert_eq!(n.get_normalized(), "héllo");
}

#[test]
fn for_each_stops_at_the_first_failure() {
    let n = PyNormalizedString::new("abcd");
    let seen = std::cell::RefCell::new(String::new());
    let r = n.for_each(|c| {
        seen.borrow_mut().push(c);
        if c == 'b' {
            None
        } else {
            Some(())
        }
    });
    assert_eq!(r, Err(NormalizedError::CallbackError));
    assert_eq!(seen.borrow().as_str(), "ab");
}

#[test]
fn prepend_gives_empty_ranges_at_the_start() {
    let mut n = PyNormalizedString::new("there");
    n.prepend("Hey ");
    assert_eq!(n.get_normalized(), "Hey there");
    assert_eq!(n.get_original(), "there");
    assert_eq!(
        n.alignments(),
        &vec![(0, 0), (0, 0), (0, 0), (0, 0), (0, 1), (1, 2), (2, 3), (3, 4), (4, 5)]
    );
}

#[test]
fn append_gives_empty_ranges_at_the_end() {
    let mut n = PyNormalizedString::new("Hey");
    n.append(" there");
    assert_eq!(n.get_normalized(), "Hey there");
    assert_eq!(
        n.alignments(),
        &vec![(0, 1), (1, 2), (2, 3), (3, 3), (3, 3), (3, 3), (3, 3), (3, 3), (3, 3)]
    );
}

#[test]
fn prepend_and_append_on_an_empty_text() {
    let mut n = PyNormalizedString::new("");
    n.prepend("a");
    n.append("b");
    assert_eq!(n.get_normalized(), "ab");
    assert_eq!(n.alignments(), &vec![(0, 0), (0, 0)]);
}

#[test]
fn lstrip_and_rstrip_cut_one_end_each() {
    let mut n = PyNormalizedString::new("\t héllo \u{3000}");
    n.lstrip();
    assert_eq!(n.get_normalized(), "héllo \u{3000}");
    assert_eq!(n.alignments()[0], (2, 3));
    n.rstrip();
    assert_eq!(n.get_normalized(), "héllo");
    assert_eq!(n.alignments(), &vec![(2, 3), (3, 5), (5, 6), (6, 7), (7, 8)]);
    assert_eq!(n.get_original(), "\t héllo \u{3000}");
}

#[test]
fn strip_equals_lstrip_then_rstrip() {
    for s in ["", " ", "   ", "a", " a", "a ", "  a b  ", "\n\tx y\u{a0}", "no space"] {
        let mut both = PyNormalizedString::new(s);
        both.strip();
        let mut one = PyNormalizedString::new(s);
        one.lstrip();
        one.rstrip();
        assert_eq!(both.get_normalized(), one.get_normalized());
        assert_eq!(both.alignments(), one.alignments());
        assert_eq!(both.get_original(), one.get_original());
        assert_eq!(both.get_normalized(), s.trim());
    }
}

#[test]
fn clear_keeps_the_original() {
    let mut n = PyNormalizedString::new("hello");
    n.clear();
    assert_eq!(n.get_normalized(), "");
    assert_eq!(n.get_original(), "hello");
    assert!(n.alignments().is_empty());
    assert_eq!(n.len(), 0);
}

#[test]
fn nfd_splits_a_composed_character() {
    let mut n = PyNormalizedString::new("élégant");
    n.nfd();
    assert_eq!(n.get_normalized(), "e\u{301}le\u{301}gant");
    assert_eq!(
        n.alignments(),
        &vec![(0, 2), (0, 2), (2, 3), (3, 5), (3, 5), (5, 6), (6, 7), (7, 8), (8, 9)]
    );
    assert_eq!(n.get_original(), "élégant");
}

#[test]
fn nfc_joins_a_decomposed_character() {
    let mut n = PyNormalizedString::new("e\u{301}le\u{301}gant");
    n.nfc();
    assert_eq!(n.get_normalized(), "élégant");
    assert_eq!(
        n.alignments(),
        &vec![(0, 3), (3, 4), (4, 7), (7, 8), (8, 9), (9, 10), (10, 11)]
    );
}

#[test]
fn nfkc_folds_a_ligature() {
    let mut n = PyNormalizedString::new("ﬁn");
    n.nfkc();
    assert_eq!(n.get_normalized(), "fin");
    assert_eq!(n.alignments(), &vec![(0, 3), (0, 3), (3, 4)]);
}

#[test]
fn nfc_twice_is_nfc_once() {
    for s in ["e\u{301}le\u{301}gant", "ŉ", "ﬁn", "Å\u{30a}", "\u{1e9b}\u{323}", "plain"] {
        let mut once = PyNormalizedString::new(s);
        once.nfc();
        let mut twice = PyNormalizedString::new(s);
        twice.nfc();
        twice.nfc();
        assert_eq!(once.get_normalized(), twice.get_normalized());
        assert_eq!(once.alignments(), twice.alignments());
    }
}

#[test]
fn transform_follows_the_changes() {
    let mut n = PyNormalizedString::new("abcd");
    // 'x' stands for a and b, 'y' is added, 'z' stands for c, 'w' for d
    n.transform(&vec![('x', -1), ('y', 1), ('z', 0), ('w', 0)]);
    assert_eq!(n.get_normalized(), "xyzw");
    assert_eq!(n.alignments(), &vec![(0, 2), (0, 2), (2, 3), (3, 4)]);
}

#[test]
fn apply_changes_leaves_the_text_where_the_changes_do_not_fit() {
    let mut n = PyNormalizedString::new("abcd");
    n.apply_changes(&vec![('x', 0), ('y', 0)]);
    assert_eq!(n.get_normalized(), "abcd");
    n.apply_changes(&vec![('x', -4)]);
    assert_eq!(n.get_normalized(), "abcd");
    n.apply_changes(&vec![('q', 1), ('x', -3)]);
    assert_eq!(n.get_normalized(), "qx");
    assert_eq!(n.alignments(), &vec![(0, 0), (0, 4)]);
}

#[test]
fn slice_of_a_pair_restarts_the_alignments() {
    let n = PyNormalizedString::new("héllo wörld");
    let part = n.slice(&PyRange::Range(6, 9)).unwrap().unwrap();
    assert_eq!(part.get_normalized(), "wör");
    assert_eq!(part.get_original(), "wör");
    assert_eq!(part.alignments(), &vec![(0, 1), (1, 3), (3, 4)]);
    assert_eq!(n.get_normalized(), "héllo wörld");
}

#[test]
fn slice_is_cut_off_at_the_end_and_none_past_it() {
    let n = PyNormalizedString::new("hello");
    let part = n.slice(&PyRange::Range(3, 10)).unwrap().unwrap();
    assert_eq!(part.get_normalized(), "lo");
    assert!(n.slice(&PyRange::Range(5, 10)).unwrap().is_none());
    assert!(n.slice(&PyRange::Single(5)).unwrap().is_none());
    assert!(n.slice(&PyRange::Range(3, 2)).unwrap().is_none());
    assert!(n.slice(&PyRange::Range(2, 2)).unwrap().is_none());
}

#[test]
fn slice_refuses_a_negative_index_that_reaches_too_far() {
    let n = PyNormalizedString::new("hello");
    assert_eq!(n.slice(&PyRange::Single(-6)).err(), Some(NormalizedError::RangeError));
    let first = n.slice(&PyRange::Single(-5)).unwrap().unwrap();
    assert_eq!(first.get_normalized(), "h");
}

#[test]
fn slice_with_bounds_clamps() {
    let n = PyNormalizedString::new("hello");
    let all = SliceBounds { start: None, stop: None, step: None };
    assert_eq!(n.slice(&PyRange::Slice(all)).unwrap().unwrap().get_normalized(), "hello");
    let tail = SliceBounds { start: Some(-3), stop: Some(100), step: Some(1) };
    assert_eq!(n.slice(&PyRange::Slice(tail)).unwrap().unwrap().get_normalized(), "llo");
    let head = SliceBounds { start: Some(-100), stop: Some(-3), step: None };
    assert_eq!(n.slice(&PyRange::Slice(head)).unwrap().unwrap().get_normalized(), "he");
    let stepped = SliceBounds { start: None, stop: None, step: Some(2) };
    assert_eq!(n.slice(&PyRange::Slice(stepped)).err(), Some(NormalizedError::RangeError));
}

#[test]
fn slice_after_changes_keeps_the_source_of_each_character() {
    let mut n = PyNormalizedString::new("  élan  ");
    n.strip();
    n.nfd();
    n.prepend(">");
    // ">" + "e" + accent + "lan"
    assert_eq!(n.get_normalized(), ">e\u{301}lan");
    let part = n.slice(&PyRange::Range(1, 4)).unwrap().unwrap();
    assert_eq!(part.get_normalized(), "e\u{301}l");
    assert_eq!(part.get_original(), "él");
    assert_eq!(part.alignments(), &vec![(0, 2), (0, 2), (2, 3)]);
    let parts = texts(&[part]);
    assert_eq!(parts, vec!["e\u{301}l".to_string()]);
}

#[test]
fn to_range_resolves_each_kind() {
    assert_eq!(PyRange::Single(2).to_range(5), Ok(2..3));
    assert_eq!(PyRange::Single(7).to_range(5), Ok(7..8));
    assert_eq!(PyRange::Single(-1).to_range(5), Ok(4..5));
    assert_eq!(PyRange::Single(-5).to_range(5), Ok(0..1));
    assert_eq!(PyRange::Single(-6).to_range(5), Err(NormalizedError::RangeError));
    assert_eq!(PyRange::Single(isize::MIN).to_range(5), Err(NormalizedError::RangeError));
    assert_eq!(PyRange::Range(3, 1).to_range(5), Ok(3..1));
    let b = SliceBounds { start: Some(4), stop: Some(2), step: None };
    assert_eq!(PyRange::Slice(b).to_range(5), Ok(4..2));
    let b = SliceBounds { start: Some(isize::MIN), stop: Some(isize::MAX), step: Some(1) };
    assert_eq!(PyRange::Slice(b).to_range(5), Ok(0..5));
    let b = SliceBounds { start: None, stop: None, step: Some(-1) };
    assert_eq!(PyRange::Slice(b).to_range(5), Err(NormalizedError::RangeError));
}

#[test]
fn errors_have_messages() {
    assert_eq!(
        NormalizedError::HandleExpired.message(),
        "Cannot use a NormalizedStringRefMut outside `normalize`"
    );
    assert_eq!(NormalizedError::RangeError.message(), "the index is bigger than max len");
    assert_ne!(NormalizedError::PatternError.message(), NormalizedError::CallbackError.message());
    assert!(NormalizedError::ContractViolation.message().contains("fn(char) -> char"));
}

#[test]
fn slice_past_the_end_of_a_trimmed_text_is_none() {
    let mut n = PyNormalizedString::new("hello     ");
    assert_eq!(n.slice(&PyRange::Range(7, 9)).unwrap().unwrap().get_normalized(), "  ");
    n.rstrip();
    assert!(n.slice(&PyRange::Range(7, 9)).unwrap().is_none());
    assert!(n.slice(&PyRange::Single(5)).unwrap().is_none());
    assert_eq!(n.slice(&PyRange::Single(4)).unwrap().unwrap().get_normalized(), "o");
}
