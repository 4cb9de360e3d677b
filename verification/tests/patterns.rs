use normalized_string::error::NormalizedError;
use normalized_string::handle::PyNormalizedStringRefMut;
use normalized_string::normalized::PyNormalizedString;
use normalized_string::offsets::byte_offsets;
use normalized_string::pattern::{
    find_literal_matches, next_step, partition_at, PyPattern, PyRegex, ReplacePattern, SearchStep,
    SplitPattern,
};
use normalized_string::range::PyRange;
use normalized_string::split::{group_spans, PySplitDelimiterBehavior, SplitDelimiterBehavior};

fn split_texts(text: &str, pattern: PyPattern, behavior: SplitDelimiterBehavior) -> Vec<String> {
    let n = PyNormalizedString::new(text);
    n.split(pattern, PySplitDelimiterBehavior(behavior))
        .unwrap()
        .iter()
        .map(|p| p.get_normalized().to_string())
        .collect()
}

fn literal(s: &str) -> PyPattern {
    PyPattern::Str(s.to_string())
}

fn regex(s: &str) -> PyPattern {
    PyPattern::Regex(PyRegex::new(s).unwrap())
}

#[test]
fn literal_of_one_character_divides_the_text() {
    assert_eq!(
        find_literal_matches(",", "a,b,,c"),
        vec![
            ((0, 1), false),
            ((1, 2), true),
            ((2, 3), false),
            ((3, 4), true),
            ((4, 5), true),
            ((5, 6), false)
        ]
    );
    assert_eq!(
        find_literal_matches("é", "é-é"),
        vec![((0, 2), true), ((2, 3), false), ((3, 5), true)]
    );
}

#[test]
fn literal_of_several_characters_is_taken_without_overlap() {
    assert_eq!(find_literal_matches("aa", "aaaa"), vec![((0, 2), true), ((2, 4), true)]);
    assert_eq!(find_literal_matches("aa", "aaa"), vec![((0, 2), true), ((2, 3), false)]);
    assert_eq!(
        find_literal_matches("ab", "xabyab"),
        vec![((0, 1), false), ((1, 3), true), ((3, 4), false), ((4, 6), true)]
    );
    assert_eq!(find_literal_matches("abc", "ab"), vec![((0, 2), false)]);
}

#[test]
fn empty_needle_and_empty_text() {
    assert_eq!(find_literal_matches("", "héllo"), vec![((0, 6), false)]);
    assert_eq!(find_literal_matches("a", ""), vec![((0, 0), false)]);
    assert_eq!(find_literal_matches("", ""), vec![((0, 0), false)]);
}

#[test]
fn one_character_needle_agrees_with_the_general_search() {
    // the same text searched for "a" and, with a marker in front, for "#a"
    let one = find_literal_matches("a", "banana");
    assert_eq!(
        one,
        vec![
            ((0, 1), false),
            ((1, 2), true),
            ((2, 3), false),
            ((3, 4), true),
            ((4, 5), false),
            ((5, 6), true)
        ]
    );
    let pattern = literal("a");
    assert_eq!(pattern.find_matches("banana"), Ok(one));
}

#[test]
fn regex_matches_divide_the_text() {
    let re = PyRegex::new(r"\d+").unwrap();
    assert_eq!(re.pattern(), r"\d+");
    assert_eq!(
        re.find_matches("ab12cd345"),
        Ok(vec![((0, 2), false), ((2, 4), true), ((4, 6), false), ((6, 9), true)])
    );
    assert_eq!(re.find_matches(""), Ok(vec![((0, 0), false)]));
    assert_eq!(re.find_matches("abc"), Ok(vec![((0, 3), false)]));
}

#[test]
fn regex_with_empty_matches_ends() {
    let re = PyRegex::new(r"\d*").unwrap();
    assert_eq!(
        re.find_matches("a1é"),
        Ok(vec![((0, 0), true), ((0, 1), false), ((1, 2), true), ((2, 4), false), ((4, 4), true)])
    );
}

#[test]
fn malformed_regex_is_a_pattern_error() {
    assert_eq!(PyRegex::new("(").err(), Some(NormalizedError::PatternError));
    assert_eq!(PyRegex::new("[a").err(), Some(NormalizedError::PatternError));
}

#[test]
fn split_removed_drops_matches_and_empty_segments() {
    assert_eq!(
        split_texts("a,b,,c", literal(","), SplitDelimiterBehavior::Removed),
        vec!["a", "b", "c"]
    );
}

#[test]
fn split_merged_with_next_puts_the_match_in_front() {
    assert_eq!(
        split_texts("a,b,c", literal(","), SplitDelimiterBehavior::MergedWithNext),
        vec!["a", ",b", ",c"]
    );
}

#[test]
fn split_five_behaviours() {
    let text = "The-final--countdown";
    assert_eq!(
        split_texts(text, literal("-"), SplitDelimiterBehavior::Removed),
        vec!["The", "final", "countdown"]
    );
    assert_eq!(
        split_texts(text, literal("-"), SplitDelimiterBehavior::Isolated),
        vec!["The", "-", "final", "-", "-", "countdown"]
    );
    assert_eq!(
        split_texts(text, literal("-"), SplitDelimiterBehavior::MergedWithPrevious),
        vec!["The-", "final--", "countdown"]
    );
    assert_eq!(
        split_texts(text, literal("-"), SplitDelimiterBehavior::MergedWithNext),
        vec!["The", "-final", "--countdown"]
    );
    assert_eq!(
        split_texts(text, literal("-"), SplitDelimiterBehavior::Contiguous),
        vec!["The", "-", "final", "--", "countdown"]
    );
}

#[test]
fn split_where_a_match_stands_first_or_last() {
    assert_eq!(
        split_texts(",a,", literal(","), SplitDelimiterBehavior::MergedWithPrevious),
        vec![",", "a,"]
    );
    assert_eq!(
        split_texts(",a,", literal(","), SplitDelimiterBehavior::MergedWithNext),
        vec![",a", ","]
    );
    assert!(split_texts(",", literal(","), SplitDelimiterBehavior::Removed).is_empty());
    assert!(split_texts("", literal(","), SplitDelimiterBehavior::Isolated).is_empty());
}

#[test]
fn split_isolated_and_contiguous_lose_nothing() {
    for text in ["a,b,,c", ",,a", "a,,", "", ",", "héllo, wörld,,"] {
        for behavior in [SplitDelimiterBehavior::Isolated, SplitDelimiterBehavior::Contiguous] {
            let parts = split_texts(text, literal(","), behavior);
            assert_eq!(parts.concat(), text);
            let parts = split_texts(text, regex(r",|l+"), behavior);
            assert_eq!(parts.concat(), text);
        }
    }
}

#[test]
fn split_parts_own_their_piece_of_the_original() {
    let mut n = PyNormalizedString::new("Héllo, Wörld");
    n.lowercase();
    let parts = n
        .split(literal(", "), PySplitDelimiterBehavior(SplitDelimiterBehavior::Removed))
        .unwrap();
    assert_eq!(parts.len(), 2);
    assert_eq!(parts[0].get_normalized(), "héllo");
    assert_eq!(parts[0].get_original(), "Héllo");
    assert_eq!(parts[0].alignments(), &vec![(0, 1), (1, 3), (3, 4), (4, 5), (5, 6)]);
    assert_eq!(parts[1].get_normalized(), "wörld");
    assert_eq!(parts[1].get_original(), "Wörld");
    assert_eq!(parts[1].alignments(), &vec![(0, 1), (1, 3), (3, 4), (4, 5), (5, 6)]);
    assert_eq!(n.get_normalized(), "héllo, wörld");
}

#[test]
fn split_by_regex() {
    assert_eq!(
        split_texts("one1two22three", regex(r"\d+"), SplitDelimiterBehavior::Isolated),
        vec!["one", "1", "two", "22", "three"]
    );
    assert_eq!(
        split_texts("one1two22three", regex(r"\d"), SplitDelimiterBehavior::Contiguous),
        vec!["one", "1", "two", "22", "three"]
    );
}

#[test]
fn group_spans_skips_empty_spans() {
    let spans =
        vec![((0, 0), true), ((0, 1), false), ((1, 1), true), ((1, 2), true), ((2, 2), false)];
    assert_eq!(group_spans(&spans, SplitDelimiterBehavior::Isolated), vec![(0, 1), (1, 2)]);
    assert_eq!(group_spans(&spans, SplitDelimiterBehavior::Removed), vec![(0, 1)]);
    assert_eq!(group_spans(&spans, SplitDelimiterBehavior::MergedWithPrevious), vec![(0, 2)]);
    assert_eq!(group_spans(&spans, SplitDelimiterBehavior::MergedWithNext), vec![(0, 1), (1, 2)]);
    assert_eq!(group_spans(&spans, SplitDelimiterBehavior::Contiguous), vec![(0, 1), (1, 2)]);
}

#[test]
fn behaviour_from_its_name() {
    assert_eq!(
        PySplitDelimiterBehavior::from_name("removed"),
        Some(PySplitDelimiterBehavior(SplitDelimiterBehavior::Removed))
    );
    assert_eq!(
        PySplitDelimiterBehavior::from_name("isolated"),
        Some(PySplitDelimiterBehavior(SplitDelimiterBehavior::Isolated))
    );
    assert_eq!(
        PySplitDelimiterBehavior::from_name("merged_with_previous"),
        Some(PySplitDelimiterBehavior(SplitDelimiterBehavior::MergedWithPrevious))
    );
    assert_eq!(
        PySplitDelimiterBehavior::from_name("merged_with_next"),
        Some(PySplitDelimiterBehavior(SplitDelimiterBehavior::MergedWithNext))
    );
    assert_eq!(
        PySplitDelimiterBehavior::from_name("contiguous"),
        Some(PySplitDelimiterBehavior(SplitDelimiterBehavior::Contiguous))
    );
    assert_eq!(PySplitDelimiterBehavior::from_name("Removed"), None);
    assert_eq!(PySplitDelimiterBehavior::from_name(""), None);
}

#[test]
fn replace_literal_aligns_with_what_was_matched() {
    let mut n = PyNormalizedString::new("a--b");
    assert_eq!(n.replace(literal("--"), "+"), Ok(()));
    assert_eq!(n.get_normalized(), "a+b");
    assert_eq!(n.alignments(), &vec![(0, 1), (1, 3), (3, 4)]);
    assert_eq!(n.get_original(), "a--b");
}

#[test]
fn replace_with_longer_content_repeats_the_range() {
    let mut n = PyNormalizedString::new("héllo");
    assert_eq!(n.replace(literal("é"), "eee"), Ok(()));
    assert_eq!(n.get_normalized(), "heeello");
    assert_eq!(
        n.alignments(),
        &vec![(0, 1), (1, 3), (1, 3), (1, 3), (3, 4), (4, 5), (5, 6)]
    );
}

#[test]
fn replace_with_nothing_removes_the_matches() {
    let mut n = PyNormalizedString::new("a1b22c");
    assert_eq!(n.replace(regex(r"\d+"), ""), Ok(()));
    assert_eq!(n.get_normalized(), "abc");
    assert_eq!(n.alignments(), &vec![(0, 1), (2, 3), (5, 6)]);
}

#[test]
fn replace_at_empty_matches_inserts() {
    let mut n = PyNormalizedString::new("ab");
    assert_eq!(n.replace(regex(r"x*"), "-"), Ok(()));
    assert_eq!(n.get_normalized(), "-a-b-");
    assert_eq!(n.alignments(), &vec![(0, 0), (0, 1), (1, 1), (1, 2), (2, 2)]);
}

#[test]
fn replace_with_spans_given_by_the_caller() {
    let mut n = PyNormalizedString::new("abcd");
    n.replace_with(&vec![((0, 1), false), ((1, 3), true), ((3, 4), false)], "xyz");
    assert_eq!(n.get_normalized(), "axyzd");
    assert_eq!(n.alignments(), &vec![(0, 1), (1, 3), (1, 3), (1, 3), (3, 4)]);
}

#[test]
fn expired_handle_refuses_every_operation() {
    let mut n = PyNormalizedString::new("  Héllo ");
    n.lowercase();
    let before_text = n.get_normalized().to_string();
    let before_alignments = n.alignments().clone();
    let mut h = PyNormalizedStringRefMut::new(n);
    h.destroy();
    let expired = Err(NormalizedError::HandleExpired);
    assert_eq!(h.nfd(), expired);
    assert_eq!(h.nfkd(), expired);
    assert_eq!(h.nfc(), expired);
    assert_eq!(h.nfkc(), expired);
    assert_eq!(h.lowercase(), expired);
    assert_eq!(h.uppercase(), expired);
    assert_eq!(h.prepend("x"), expired);
    assert_eq!(h.append("x"), expired);
    assert_eq!(h.lstrip(), expired);
    assert_eq!(h.rstrip(), expired);
    assert_eq!(h.strip(), expired);
    assert_eq!(h.clear(), expired);
    assert_eq!(h.filter(|_| Some(false)), expired);
    assert_eq!(h.map(|_| Some("x".to_string())), expired);
    assert_eq!(h.for_each(|_| Some(())), expired);
    assert_eq!(h.replace(literal("l"), "L"), expired);
    assert_eq!(h.get_normalized(), Err(NormalizedError::HandleExpired));
    assert_eq!(h.get_original(), Err(NormalizedError::HandleExpired));
    assert_eq!(h.slice(&PyRange::Single(0)).err(), Some(NormalizedError::HandleExpired));
    assert_eq!(
        h.split(literal("l"), PySplitDelimiterBehavior(SplitDelimiterBehavior::Removed)).err(),
        Some(NormalizedError::HandleExpired)
    );
    assert_eq!(h.map_as_ref(|n| n.len()), Err(NormalizedError::HandleExpired));
    assert_eq!(h.map_as_mut(|n| n.clear()), Err(NormalizedError::HandleExpired));
    assert_eq!(PyNormalizedStringRefMut::destroyed_error(), NormalizedError::HandleExpired);
    let back = h.release();
    assert_eq!(back.get_normalized(), before_text);
    assert_eq!(back.alignments(), &before_alignments);
    assert_eq!(back.get_original(), "  Héllo ");
}

#[test]
fn live_handle_forwards_to_the_string() {
    let mut h = PyNormalizedStringRefMut::new(PyNormalizedString::new("  Héllo, Wörld "));
    assert_eq!(h.strip(), Ok(()));
    assert_eq!(h.lowercase(), Ok(()));
    assert_eq!(h.get_normalized(), Ok("héllo, wörld".to_string()));
    assert_eq!(h.get_original(), Ok("  Héllo, Wörld ".to_string()));
    assert_eq!(h.nfd(), Ok(()));
    assert_eq!(h.nfc(), Ok(()));
    assert_eq!(h.get_normalized(), Ok("héllo, wörld".to_string()));
    assert_eq!(h.replace(literal(", "), " "), Ok(()));
    assert_eq!(h.filter(|c| Some(c != 'l')), Ok(()));
    assert_eq!(h.map(|c| Some(c.to_uppercase().next().unwrap().to_string())), Ok(()));
    assert_eq!(h.get_normalized(), Ok("HÉO WÖRD".to_string()));
    assert_eq!(h.map_as_ref(|n| n.len()), Ok(8));
    assert_eq!(h.map_as_mut(|n| n.append("!")), Ok(()));
    let parts = h
        .split(literal(" "), PySplitDelimiterBehavior(SplitDelimiterBehavior::Removed))
        .unwrap();
    assert_eq!(parts.len(), 2);
    assert_eq!(parts[1].get_normalized(), "WÖRD!");
    assert_eq!(parts[1].get_original(), "Wörld");
    let last = h.slice(&PyRange::Single(-1)).unwrap().unwrap();
    assert_eq!(last.get_normalized(), "!");
    assert_eq!(h.uppercase(), Ok(()));
    assert_eq!(h.prepend("<"), Ok(()));
    assert_eq!(h.lstrip(), Ok(()));
    assert_eq!(h.rstrip(), Ok(()));
    assert_eq!(h.nfkd(), Ok(()));
    assert_eq!(h.nfkc(), Ok(()));
    assert_eq!(h.for_each(|_| Some(())), Ok(()));
    assert_eq!(h.clear(), Ok(()));
    h.destroy();
    let back = h.release();
    assert_eq!(back.get_normalized(), "");
    assert_eq!(back.get_original(), "  Héllo, Wörld ");
}

#[test]
fn scope_lends_and_takes_back() {
    let n = PyNormalizedString::new("Héllo");
    let (back, seen) = PyNormalizedStringRefMut::scope(n, |h| {
        assert!(h.live());
        assert!(h.is_valid());
        h.uppercase().unwrap();
        h.get_normalized().unwrap()
    });
    assert_eq!(seen, "HÉLLO");
    assert_eq!(back.get_normalized(), "HÉLLO");
    assert_eq!(back.get_original(), "Héllo");
    assert!(back.is_valid());
}

#[test]
fn scope_survives_a_handle_that_was_ended_inside() {
    let n = PyNormalizedString::new("abc");
    let (back, r) = PyNormalizedStringRefMut::scope(n, |h| {
        h.destroy();
        assert!(!h.live());
        h.clear()
    });
    assert_eq!(r, Err(NormalizedError::HandleExpired));
    assert_eq!(back.get_normalized(), "abc");
}

#[test]
fn pattern_descriptions_keep_the_source() {
    assert!(
        matches!(ReplacePattern::from(literal("a.b")), ReplacePattern::String(s) if s == "a.b")
    );
    assert!(matches!(ReplacePattern::from(regex(r"\d+")), ReplacePattern::Regex(s) if s == r"\d+"));
    assert!(matches!(SplitPattern::from(literal("a.b")), SplitPattern::String(s) if s == "a.b"));
    assert!(matches!(SplitPattern::from(regex(r"\d+")), SplitPattern::Regex(s) if s == r"\d+"));
    let cloned = regex(r"\d+").clone();
    assert_eq!(cloned.find_matches("a1"), Ok(vec![((0, 1), false), ((1, 2), true)]));
}

#[test]
fn behaviour_converts_both_ways() {
    let b = PySplitDelimiterBehavior::from(SplitDelimiterBehavior::Contiguous);
    assert_eq!(b.0, SplitDelimiterBehavior::Contiguous);
    assert_eq!(SplitDelimiterBehavior::from(b), SplitDelimiterBehavior::Contiguous);
}

#[test]
fn repr_shows_both_texts() {
    let mut n = PyNormalizedString::new("Héllo");
    n.lowercase();
    assert_eq!(n.repr(), "NormalizedString(original=\"Héllo\", normalized=\"héllo\")");
    let copy = n.clone();
    assert_eq!(copy.get_normalized(), "héllo");
    assert_eq!(copy.alignments(), n.alignments());
}

#[test]
fn every_operation_keeps_the_string_valid() {
    let mut n = PyNormalizedString::new("  ʼN ﬁancée – e\u{301}tude\t");
    assert!(n.is_valid());
    n.nfkd();
    assert!(n.is_valid());
    n.nfkc();
    assert!(n.is_valid());
    n.nfd();
    assert!(n.is_valid());
    n.nfc();
    assert!(n.is_valid());
    n.strip();
    assert!(n.is_valid());
    n.prepend("«");
    n.append("»");
    assert!(n.is_valid());
    n.replace(regex(r"\s+|x*"), "_").unwrap();
    assert!(n.is_valid());
    n.filter(|c| Some(c != 'e')).unwrap();
    assert!(n.is_valid());
    n.uppercase();
    assert!(n.is_valid());
    let isolated = PySplitDelimiterBehavior(SplitDelimiterBehavior::Isolated);
    for part in n.split(literal("_"), isolated).unwrap() {
        assert!(part.is_valid());
    }
    assert_eq!(n.get_normalized().chars().count(), n.alignments().len());
}

#[test]
fn next_step_judges_each_answer() {
    let text: Vec<char> = "aé".chars().collect();
    let table = byte_offsets(&text);
    assert_eq!(table, vec![0, 1, 3]);
    assert_eq!(next_step(&text, &table, 0, None, (None, None)), SearchStep::Stop);
    assert_eq!(next_step(&text, &table, 0, None, (None, Some((0, 1)))), SearchStep::Stop);
    assert_eq!(next_step(&text, &table, 0, None, (Some(0), None)), SearchStep::Refuse);
    assert_eq!(
        next_step(&text, &table, 0, None, (Some(1), Some((1, 3)))),
        SearchStep::Take { start: 1, end: 2 }
    );
    // a range that ends inside a character, one that ends behind the text,
    // one that starts before the search did, and one that is inverted
    assert_eq!(next_step(&text, &table, 0, None, (Some(1), Some((1, 2)))), SearchStep::Refuse);
    assert_eq!(next_step(&text, &table, 0, None, (Some(1), Some((1, 4)))), SearchStep::Refuse);
    assert_eq!(next_step(&text, &table, 2, None, (Some(1), Some((1, 3)))), SearchStep::Refuse);
    assert_eq!(next_step(&text, &table, 0, None, (Some(3), Some((3, 1)))), SearchStep::Refuse);
    // an empty match behind the last match is passed over, and ends the
    // search at the end of the text
    assert_eq!(next_step(&text, &table, 1, Some(1), (Some(1), Some((1, 1)))), SearchStep::Skip);
    assert_eq!(next_step(&text, &table, 2, Some(2), (Some(3), Some((3, 3)))), SearchStep::Stop);
    assert_eq!(
        next_step(&text, &table, 1, Some(0), (Some(1), Some((1, 1)))),
        SearchStep::Take { start: 1, end: 1 }
    );
}

#[test]
fn partition_at_fills_the_gaps() {
    assert_eq!(
        partition_at(&vec![(1, 2), (2, 4)], "abcde"),
        vec![((0, 1), false), ((1, 2), true), ((2, 4), true), ((4, 5), false)]
    );
    assert_eq!(partition_at(&vec![(0, 5)], "abcde"), vec![((0, 5), true)]);
    assert_eq!(partition_at(&vec![], "abcde"), vec![((0, 5), false)]);
    assert_eq!(partition_at(&vec![], ""), vec![((0, 0), false)]);
    assert_eq!(
        partition_at(&vec![(0, 0), (3, 3)], "aé"),
        vec![((0, 0), true), ((0, 3), false), ((3, 3), true)]
    );
}

#[test]
fn replace_where_a_regex_matches_nowhere_changes_nothing() {
    let mut n = PyNormalizedString::new("  Héllo ");
    n.strip();
    n.nfd();
    let text = n.get_normalized().to_string();
    let alignments = n.alignments().clone();
    assert_eq!(n.replace(regex(r"\d+"), "#"), Ok(()));
    assert_eq!(n.get_normalized(), text);
    assert_eq!(n.alignments(), &alignments);
    assert_eq!(n.replace(literal("xyz"), "#"), Ok(()));
    assert_eq!(n.get_normalized(), text);
    assert_eq!(n.alignments(), &alignments);
    assert_eq!(n.get_original(), "  Héllo ");
}

#[test]
fn a_search_that_the_engine_gives_up_is_a_pattern_error_and_changes_nothing() {
    // the engine gives up on a text that makes it try too many ways
    let re = PyRegex::new(r"(a*)*b").unwrap();
    let text = "a".repeat(40);
    let mut n = PyNormalizedString::new(&text);
    let alignments = n.alignments().clone();
    let theirs = onig::Regex::new(r"(a*)*b").unwrap();
    let gave_up = theirs
        .search_with_param(
            text.as_str(),
            0,
            text.len(),
            onig::SearchOptions::SEARCH_OPTION_NONE,
            None,
            onig::MatchParam::default(),
        )
        .is_err();
    let r = n.replace(PyPattern::Regex(re.clone()), "#");
    if gave_up {
        assert_eq!(r, Err(NormalizedError::PatternError));
        assert_eq!(re.matches(&text), Err(NormalizedError::PatternError));
        assert_eq!(re.find_matches(&text), Err(NormalizedError::PatternError));
    } else {
        assert_eq!(r, Ok(()));
    }
    assert_eq!(n.get_normalized(), text);
    assert_eq!(n.alignments(), &alignments);
}
