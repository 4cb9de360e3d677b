use normalized_string::normalized::PyNormalizedString;
use normalized_string::offsets::{byte_offsets, bytes_to_char, char_to_bytes, chars_of, string_of};
use normalized_string::pattern::{find_literal_matches, PyRegex};
use normalized_string::split::{group_spans, SplitDelimiterBehavior};
use unicode_normalization_alignments::UnicodeNormalization;

/// Texts over a small alphabet with characters of every width, made by a
/// fixed sequence of numbers.
fn sample_texts() -> Vec<String> {
    let alphabet = ['a', 'b', ' ', '-', 'é', 'ß', '中', '\u{301}', '😀', 'A'];
    let mut state: u64 = 0x2545F4914F6CDD1D;
    let mut texts = vec![String::new()];
    for round in 0..200 {
        let mut text = String::new();
        for _ in 0..(round % 13) {
            state = state.wrapping_mul(6364136223846793005).wrapping_add(1442695040888963407);
            text.push(alphabet[((state >> 33) % alphabet.len() as u64) as usize]);
        }
        texts.push(text);
    }
    texts
}

#[test]
fn byte_offsets_agree_with_char_indices() {
    for text in sample_texts() {
        let chars = chars_of(&text);
        assert_eq!(chars, text.chars().collect::<Vec<_>>());
        assert_eq!(string_of(&chars), text);
        let mut expected: Vec<usize> = text.char_indices().map(|(b, _)| b).collect();
        expected.push(text.len());
        assert_eq!(byte_offsets(&chars), expected);
        for (k, b) in expected.iter().enumerate() {
            assert_eq!(bytes_to_char(&text, 0..*b), Some(0..k));
            if k > 0 {
                assert_eq!(char_to_bytes(&text, 0..k), Some(0..*b));
            }
        }
        for b in 0..=text.len() {
            assert_eq!(bytes_to_char(&text, b..text.len()).is_some(), text.is_char_boundary(b));
        }
    }
}

#[test]
fn literal_matches_agree_with_match_indices() {
    for text in sample_texts() {
        for needle in ["a", "ab", "é", " ", "--", "中a", "\u{301}", "😀", "aa", "b-"] {
            let spans = find_literal_matches(needle, &text);
            let found: Vec<(usize, usize)> =
                spans.iter().filter(|s| s.1).map(|s| s.0).collect();
            let expected: Vec<(usize, usize)> =
                text.match_indices(needle).map(|(b, m)| (b, b + m.len())).collect();
            assert_eq!(found, expected);
            let mut at = 0;
            for ((start, end), _) in spans.iter() {
                assert_eq!(*start, at);
                at = *end;
            }
            assert_eq!(at, text.len());
        }
    }
}

#[test]
fn regex_matches_agree_with_the_engine_s_own_iteration() {
    for source in [r"a+", r"\s*", r"b|-", r"[^a]*", r"(?=a)", r"é?", r"\w+", r"$", r"^"] {
        let ours = PyRegex::new(source).unwrap();
        let theirs = onig::Regex::new(source).unwrap();
        for text in sample_texts() {
            let expected: Vec<(usize, usize)> = theirs.find_iter(&text).collect();
            assert_eq!(ours.matches(&text), Ok(expected));
        }
    }
}

#[test]
fn alignments_point_at_the_source_of_unchanged_characters() {
    for text in sample_texts() {
        let mut n = PyNormalizedString::new(&text);
        n.strip();
        n.filter(|c| Some(c != 'b')).unwrap();
        n.prepend("> ");
        n.append(" <");
        assert!(n.is_valid());
        let kept: Vec<char> = n.get_normalized().chars().collect();
        for (c, (start, end)) in kept.iter().zip(n.alignments().iter()) {
            if start < end {
                assert_eq!(&text[*start..*end], c.to_string());
            }
        }
    }
}

#[test]
fn normalization_forms_agree_with_the_tables_and_stay_valid() {
    use_forms(|n| n.nfd(), |s| s.nfd().map(|c| c.0).collect());
    use_forms(|n| n.nfkd(), |s| s.nfkd().map(|c| c.0).collect());
    use_forms(|n| n.nfc(), |s| s.nfc().map(|c| c.0).collect());
    use_forms(|n| n.nfkc(), |s| s.nfkc().map(|c| c.0).collect());
}

fn use_forms(apply: fn(&mut PyNormalizedString), expected: fn(&str) -> String) {
    let mut texts = sample_texts();
    texts.push("ŉ ﬁ Å e\u{301}\u{323} \u{1e9b}\u{323} ①".to_string());
    for text in texts {
        let mut n = PyNormalizedString::new(&text);
        apply(&mut n);
        assert_eq!(n.get_normalized(), expected(&text));
        assert_eq!(n.get_original(), text);
        assert!(n.is_valid());
    }
}

#[test]
fn segments_cover_the_text_unless_matches_are_removed() {
    for text in sample_texts() {
        let spans = find_literal_matches("a", &text);
        for behavior in [
            SplitDelimiterBehavior::Isolated,
            SplitDelimiterBehavior::MergedWithPrevious,
            SplitDelimiterBehavior::MergedWithNext,
            SplitDelimiterBehavior::Contiguous,
        ] {
            let segments = group_spans(&spans, behavior);
            let mut at = 0;
            for (start, end) in segments {
                assert_eq!(start, at);
                assert!(start < end);
                at = end;
            }
            assert_eq!(at, text.len());
        }
        for (start, end) in group_spans(&spans, SplitDelimiterBehavior::Removed) {
            assert!(!text[start..end].contains('a'));
        }
    }
}

/// Every character of the basic plane, every 13th character beyond it, and
/// each of them behind a letter and before a combining mark.
fn sample_characters() -> Vec<char> {
    (0..=0xFFFFu32).chain((0x10000..=0x10FFFF).step_by(13)).filter_map(char::from_u32).collect()
}

fn settles(form: fn(&str) -> String) {
    for c in sample_characters() {
        let texts =
            [c.to_string(), format!("a{c}"), format!("{c}\u{301}"), format!("{c}\u{323}{c}")];
        for text in texts {
            let once = form(&text);
            assert_eq!(form(&once), once, "{:?}", text);
        }
    }
}

#[test]
fn form_d_of_form_d_is_the_same_text() {
    settles(|s| s.nfd().map(|c| c.0).collect());
}

#[test]
fn form_kd_of_form_kd_is_the_same_text() {
    settles(|s| s.nfkd().map(|c| c.0).collect());
}

#[test]
fn form_c_of_form_c_is_the_same_text() {
    settles(|s| s.nfc().map(|c| c.0).collect());
}

#[test]
fn form_kc_of_form_kc_is_the_same_text() {
    settles(|s| s.nfkc().map(|c| c.0).collect());
}
