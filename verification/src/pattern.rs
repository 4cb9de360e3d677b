//! Finding the places in a text that a pattern matches.
//!
//! Whatever the pattern, the result divides the whole text into spans, each
//! of them a match or the text between two matches.

use crate::error::NormalizedError;
use crate::offsets::{
    byte_len, byte_offset, byte_offsets, char_index, chars_of, find_boundary, is_boundary,
    is_offset_table, lemma_byte_offset_ends, lemma_byte_offset_monotone, lemma_char_index, text_len,
};
use vstd::prelude::*;
use vstd::string::StringExecFns;

verus! {

/// The spans follow one another from the start of the text up to byte
/// `end`, and each of them starts and ends between characters.
#[verifier::opaque]
pub open spec fn is_chain(spans: Seq<((usize, usize), bool)>, text: Seq<char>, end: int) -> bool {
    &&& spans.len() == 0 ==> end == 0
    &&& spans.len() > 0 ==> spans[0].0.0 == 0 && spans.last().0.1 == end
    &&& forall|i: int|
        0 <= i < spans.len() ==> {
            &&& (#[trigger] spans[i]).0.0 <= spans[i].0.1
            &&& is_boundary(text, spans[i].0.0 as int)
            &&& is_boundary(text, spans[i].0.1 as int)
        }
    &&& forall|i: int, j: int|
        0 <= i && j == i + 1 && j < spans.len() ==> (#[trigger] spans[i]).0.1 == (
        #[trigger] spans[j]).0.0
}

/// The spans divide the whole of `text`: they follow one another from its
/// start to its end, with no gap and no overlap.
pub open spec fn is_partition(spans: Seq<((usize, usize), bool)>, text: Seq<char>) -> bool {
    spans.len() > 0 && is_chain(spans, text, byte_len(text) as int)
}

/// Whether `needle` stands in `text` at character position `i`.
pub open spec fn occurs_at(text: Seq<char>, needle: Seq<char>, i: int) -> bool {
    0 <= i && i + needle.len() <= text.len() && text.subrange(i, i + needle.len()) == needle
}

/// The range of bytes that the characters `[a, b)` of `text` occupy.
pub open spec fn byte_span(text: Seq<char>, a: int, b: int) -> (usize, usize) {
    (byte_offset(text, a) as usize, byte_offset(text, b) as usize)
}

/// The spans of `text` from character `prev` on, where the search for
/// `needle` has come to character `from` and the text since `prev` holds no
/// match: the leftmost occurrence at or after `from` is a match, the search
/// goes on behind it, and what lies between two matches is a span that is no
/// match.
pub open spec fn literal_spans(text: Seq<char>, needle: Seq<char>, prev: int, from: int) -> Seq<
    ((usize, usize), bool),
>
    decreases text.len() - from,
{
    if needle.len() == 0 || from < 0 || from + needle.len() > text.len() {
        if prev < text.len() {
            seq![(byte_span(text, prev, text.len() as int), false)]
        } else {
            seq![]
        }
    } else if occurs_at(text, needle, from) {
        let gap = if prev < from {
            seq![(byte_span(text, prev, from), false)]
        } else {
            seq![]
        };
        gap + seq![(byte_span(text, from, from + needle.len()), true)] + literal_spans(
            text,
            needle,
            from + needle.len(),
            from + needle.len(),
        )
    } else {
        literal_spans(text, needle, prev, from + 1)
    }
}

/// The spans into which the occurrences of `needle` divide `text`, taken
/// from left to right without overlap. An empty needle matches nothing, and
/// an empty text is one empty span.
pub open spec fn literal_partition(text: Seq<char>, needle: Seq<char>) -> Seq<
    ((usize, usize), bool),
> {
    if text.len() == 0 || needle.len() == 0 {
        seq![((0usize, byte_len(text) as usize), false)]
    } else {
        literal_spans(text, needle, 0, 0)
    }
}

/// Whether a span of `text` is what a search for `needle` from left to
/// right makes it: a match holds `needle` and nothing else, and in a span
/// that is no match no occurrence of `needle` starts.
pub open spec fn span_agrees(
    text: Seq<char>,
    needle: Seq<char>,
    span: ((usize, usize), bool),
) -> bool {
    let a = char_index(text, span.0.0 as int);
    let b = char_index(text, span.0.1 as int);
    if span.1 {
        occurs_at(text, needle, a) && b == a + needle.len()
    } else {
        forall|i: int| a <= i < b ==> !occurs_at(text, needle, i)
    }
}

/// The spans that a search for `needle` gives from character `from` on
/// agree with the text, where no occurrence of `needle` starts between
/// `prev` and `from`.
proof fn lemma_literal_spans_agree(text: Seq<char>, needle: Seq<char>, prev: int, from: int)
    requires
        byte_len(text) <= usize::MAX,
        needle.len() > 0,
        0 <= prev <= from <= text.len(),
        forall|i: int| prev <= i < from ==> !occurs_at(text, needle, i),
    ensures
        forall|k: int|
            0 <= k < literal_spans(text, needle, prev, from).len() ==> span_agrees(
                text,
                needle,
                #[trigger] literal_spans(text, needle, prev, from)[k],
            ),
    decreases text.len() - from,
{
    let n = text.len() as int;
    let m = needle.len() as int;
    let spans = literal_spans(text, needle, prev, from);
    lemma_byte_offset_ends(text);
    lemma_byte_offset_monotone(text, prev, n);
    lemma_byte_offset_monotone(text, from, n);
    lemma_char_index(text, prev);
    lemma_char_index(text, from);
    lemma_char_index(text, n);
    if from + m > n {
        if prev < n {
            assert(spans == seq![(byte_span(text, prev, n), false)]);
            assert(span_agrees(text, needle, spans[0]));
        } else {
            assert(spans.len() == 0);
        }
    } else if occurs_at(text, needle, from) {
        let next = from + m;
        lemma_byte_offset_monotone(text, next, n);
        lemma_char_index(text, next);
        lemma_literal_spans_agree(text, needle, next, next);
        let rest = literal_spans(text, needle, next, next);
        let gap = if prev < from {
            seq![(byte_span(text, prev, from), false)]
        } else {
            seq![]
        };
        let found = (byte_span(text, from, next), true);
        assert(spans == gap + seq![found] + rest);
        assert(span_agrees(text, needle, found));
        assert forall|k: int| 0 <= k < spans.len() implies span_agrees(
            text,
            needle,
            #[trigger] spans[k],
        ) by {
            if k < gap.len() {
                assert(spans[k] == gap[k]);
                assert(span_agrees(text, needle, gap[0]));
            } else if k == gap.len() {
                assert(spans[k] == found);
            } else {
                assert(spans[k] == rest[k - gap.len() - 1]);
            }
        }
    } else {
        lemma_literal_spans_agree(text, needle, prev, from + 1);
        assert(spans == literal_spans(text, needle, prev, from + 1));
    }
}

/// The spans into which a needle that is not empty divides a text agree
/// with the text: every match holds the needle and nothing else, and no
/// occurrence of the needle starts in a span that is no match. With the
/// spans following one another from the start of the text to its end, this
/// is what it means to take the occurrences from left to right without
/// overlap.
pub proof fn law_literal_partition(text: Seq<char>, needle: Seq<char>)
    requires
        byte_len(text) <= usize::MAX,
        needle.len() > 0,
    ensures
        forall|k: int|
            0 <= k < literal_partition(text, needle).len() ==> span_agrees(
                text,
                needle,
                #[trigger] literal_partition(text, needle)[k],
            ),
{
    if text.len() == 0 {
        lemma_byte_offset_ends(text);
        lemma_char_index(text, 0);
        assert(span_agrees(text, needle, literal_partition(text, needle)[0]));
    } else {
        lemma_literal_spans_agree(text, needle, 0, 0);
    }
}

/// Tells whether `needle` stands in `text` at character position `i`.
fn matches_at(text: &Vec<char>, needle: &Vec<char>, i: usize) -> (b: bool)
    requires
        i + needle.len() <= text.len(),
    ensures
        b == occurs_at(text@, needle@, i as int),
{
    let mut k: usize = 0;
    while k < needle.len()
        invariant
            k <= needle.len(),
            i + needle.len() <= text.len(),
            forall|j: int| 0 <= j < k ==> text@[i + j] == needle@[j],
        decreases needle.len() - k,
    {
        if text[i + k] != needle[k] {
            assert(text@.subrange(i as int, i + needle.len())[k as int] != needle@[k as int]);
            return false;
        }
        k += 1;
    }
    assert(text@.subrange(i as int, i + needle.len()) =~= needle@);
    true
}

/// No span at all is a chain up to the start of the text.
proof fn lemma_chain_empty(text: Seq<char>)
    ensures
        is_chain(Seq::empty(), text, 0),
{
    reveal(is_chain);
}

/// Adds a span to a chain.
proof fn lemma_chain_push(
    spans: Seq<((usize, usize), bool)>,
    text: Seq<char>,
    end: int,
    a: int,
    b: int,
    flag: bool,
)
    requires
        is_chain(spans, text, end),
        byte_len(text) <= usize::MAX,
        0 <= a <= b <= text.len(),
        byte_offset(text, a) == end,
    ensures
        is_chain(spans.push((byte_span(text, a, b), flag)), text, byte_offset(text, b) as int),
{
    reveal(is_chain);
    lemma_byte_offset_monotone(text, a, b);
    lemma_byte_offset_monotone(text, b, text.len() as int);
    lemma_byte_offset_ends(text);
    lemma_char_index(text, a);
    lemma_char_index(text, b);
    let out = spans.push((byte_span(text, a, b), flag));
    assert forall|i: int| 0 <= i < out.len() implies {
        &&& (#[trigger] out[i]).0.0 <= out[i].0.1
        &&& is_boundary(text, out[i].0.0 as int)
        &&& is_boundary(text, out[i].0.1 as int)
    } by {
        if i < spans.len() {
            assert(out[i] == spans[i]);
        }
    }
    assert forall|i: int, j: int| 0 <= i && j == i + 1 && j < out.len() implies (
    #[trigger] out[i]).0.1 == (#[trigger] out[j]).0.0 by {
        assert(out[i] == spans[i]);
        if j < spans.len() {
            assert(out[j] == spans[j]);
        }
    }
    if spans.len() > 0 {
        assert(out[0] == spans[0]);
    }
}

/// Divides `text` at the occurrences of `needle`, which holds more than one
/// character or none. `table` holds the byte position of each character
/// position of `text`.
fn find_str_matches(text: &Vec<char>, needle: &Vec<char>, table: &Vec<usize>) -> (out: Vec<
    ((usize, usize), bool),
>)
    requires
        byte_len(text@) <= usize::MAX,
        is_offset_table(table@, text@),
    ensures
        out@ == literal_partition(text@, needle@),
        is_partition(out@, text@),
{
    let n = text.len();
    let m = needle.len();
    let mut out: Vec<((usize, usize), bool)> = Vec::new();
    proof {
        lemma_byte_offset_ends(text@);
        lemma_char_index(text@, 0);
        lemma_char_index(text@, n as int);
    }
    if n == 0 || m == 0 {
        out.push(((0, table[n]), false));
        assert(out@ == literal_partition(text@, needle@));
        proof {
            lemma_chain_empty(text@);
            lemma_chain_push(Seq::empty(), text@, 0, 0, n as int, false);
            assert(out@ =~= Seq::empty().push((byte_span(text@, 0, n as int), false)));
        }
        return out;
    }
    let mut prev: usize = 0;
    let mut from: usize = 0;
    proof {
        lemma_chain_empty(text@);
        assert(out@ + literal_spans(text@, needle@, 0, 0) =~= literal_spans(text@, needle@, 0, 0));
    }
    while m <= n - from
        invariant
            prev <= from <= n,
            n == text.len(),
            m == needle.len(),
            m > 0,
            byte_len(text@) <= usize::MAX,
            is_offset_table(table@, text@),
            out@ + literal_spans(text@, needle@, prev as int, from as int) == literal_spans(
                text@,
                needle@,
                0,
                0,
            ),
            is_chain(out@, text@, byte_offset(text@, prev as int) as int),
        decreases n - from,
    {
        let ghost before = out@;
        let ghost rest = literal_spans(text@, needle@, prev as int, from as int);
        if matches_at(text, needle, from) {
            if prev < from {
                proof {
                    lemma_chain_push(
                        out@,
                        text@,
                        byte_offset(text@, prev as int) as int,
                        prev as int,
                        from as int,
                        false,
                    );
                }
                out.push(((table[prev], table[from]), false));
            }
            proof {
                lemma_chain_push(
                    out@,
                    text@,
                    byte_offset(text@, from as int) as int,
                    from as int,
                    from + m,
                    true,
                );
            }
            out.push(((table[from], table[from + m]), true));
            proof {
                let tail = literal_spans(text@, needle@, from + m, from + m);
                assert(out@ + tail =~= before + rest);
            }
            from = from + m;
            prev = from;
        } else {
            from += 1;
        }
    }
    if prev < n {
        proof {
            lemma_chain_push(
                out@,
                text@,
                byte_offset(text@, prev as int) as int,
                prev as int,
                n as int,
                false,
            );
            assert(out@.push((byte_span(text@, prev as int, n as int), false)) =~= out@
                + literal_spans(text@, needle@, prev as int, from as int));
        }
        out.push(((table[prev], table[n]), false));
    } else {
        assert(out@ =~= out@ + literal_spans(text@, needle@, prev as int, from as int));
    }
    proof {
        lemma_byte_offset_ends(text@);
        lemma_byte_offset_monotone(text@, 0, n as int);
        reveal(is_chain);
    }
    out
}

/// Divides `text` at the occurrences of the character `c`.
fn find_char_matches(text: &Vec<char>, c: char, table: &Vec<usize>) -> (out: Vec<
    ((usize, usize), bool),
>)
    requires
        byte_len(text@) <= usize::MAX,
        is_offset_table(table@, text@),
    ensures
        out@ == literal_partition(text@, seq![c]),
        is_partition(out@, text@),
{
    let n = text.len();
    let ghost needle = seq![c];
    let mut out: Vec<((usize, usize), bool)> = Vec::new();
    proof {
        lemma_byte_offset_ends(text@);
        lemma_char_index(text@, 0);
        lemma_char_index(text@, n as int);
    }
    if n == 0 {
        out.push(((0, table[n]), false));
        assert(out@ == literal_partition(text@, needle));
        proof {
            lemma_chain_empty(text@);
            lemma_chain_push(Seq::empty(), text@, 0, 0, n as int, false);
            assert(out@ =~= Seq::empty().push((byte_span(text@, 0, n as int), false)));
        }
        return out;
    }
    let mut prev: usize = 0;
    let mut from: usize = 0;
    proof {
        lemma_chain_empty(text@);
        assert(out@ + literal_spans(text@, needle, 0, 0) =~= literal_spans(text@, needle, 0, 0));
    }
    while from < n
        invariant
            prev <= from <= n,
            n == text.len(),
            needle == seq![c],
            byte_len(text@) <= usize::MAX,
            is_offset_table(table@, text@),
            out@ + literal_spans(text@, needle, prev as int, from as int) == literal_spans(
                text@,
                needle,
                0,
                0,
            ),
            is_chain(out@, text@, byte_offset(text@, prev as int) as int),
        decreases n - from,
    {
        let ghost before = out@;
        let ghost rest = literal_spans(text@, needle, prev as int, from as int);
        proof {
            if text@[from as int] == c {
                assert(text@.subrange(from as int, from + 1) =~= needle);
            } else {
                assert(text@.subrange(from as int, from + 1)[0] != needle[0]);
            }
        }
        if text[from] == c {
            if prev < from {
                proof {
                    lemma_chain_push(
                        out@,
                        text@,
                        byte_offset(text@, prev as int) as int,
                        prev as int,
                        from as int,
                        false,
                    );
                }
                out.push(((table[prev], table[from]), false));
            }
            proof {
                lemma_chain_push(
                    out@,
                    text@,
                    byte_offset(text@, from as int) as int,
                    from as int,
                    from + 1,
                    true,
                );
            }
            out.push(((table[from], table[from + 1]), true));
            proof {
                let tail = literal_spans(text@, needle, from + 1, from + 1);
                assert(out@ + tail =~= before + rest);
            }
            from = from + 1;
            prev = from;
        } else {
            from += 1;
        }
    }
    if prev < n {
        proof {
            lemma_chain_push(
                out@,
                text@,
                byte_offset(text@, prev as int) as int,
                prev as int,
                n as int,
                false,
            );
            assert(out@.push((byte_span(text@, prev as int, n as int), false)) =~= out@
                + literal_spans(text@, needle, prev as int, from as int));
        }
        out.push(((table[prev], table[n]), false));
    } else {
        assert(out@ =~= out@ + literal_spans(text@, needle, prev as int, from as int));
    }
    proof {
        lemma_byte_offset_ends(text@);
        lemma_byte_offset_monotone(text@, 0, n as int);
        reveal(is_chain);
    }
    out
}

/// Divides `inside` at the occurrences of `needle`, taken from left to right
/// without overlap. A needle of one character is looked for character by
/// character, any other by comparing pieces of the text with it; the result
/// is the same.
pub fn find_literal_matches(needle: &str, inside: &str) -> (out: Vec<((usize, usize), bool)>)
    ensures
        out@ == literal_partition(inside@, needle@),
        is_partition(out@, inside@),
{
    let text = chars_of(inside);
    let table = byte_offsets(&text);
    let wanted = chars_of(needle);
    if wanted.len() == 1 {
        assert(wanted@ =~= seq![wanted@[0]]);
        find_char_matches(&text, wanted[0], &table)
    } else {
        find_str_matches(&text, &wanted, &table)
    }
}

/// Matches as an engine reports them, one after the other: each of them
/// starts and ends between characters of `text`, and none starts before the
/// one before it has ended.
pub open spec fn ordered_matches(matches: Seq<(usize, usize)>, text: Seq<char>) -> bool {
    &&& forall|i: int|
        0 <= i < matches.len() ==> {
            &&& (#[trigger] matches[i]).0 <= matches[i].1
            &&& is_boundary(text, matches[i].0 as int)
            &&& is_boundary(text, matches[i].1 as int)
        }
    &&& forall|i: int, j: int|
        0 <= i && j == i + 1 && j < matches.len() ==> (#[trigger] matches[i]).1 <= (
        #[trigger] matches[j]).0
}

/// The byte at which the first `k` matches end.
pub open spec fn matched_up_to(matches: Seq<(usize, usize)>, k: int) -> usize {
    if k <= 0 {
        0
    } else {
        matches[k - 1].1
    }
}

/// The spans that the first `k` matches give: each match, and before it the
/// text since the match before it, where there is any.
pub open spec fn match_spans(matches: Seq<(usize, usize)>, k: int) -> Seq<((usize, usize), bool)>
    decreases k,
{
    if k <= 0 {
        Seq::empty()
    } else {
        let found = matches[k - 1];
        let prev = matched_up_to(matches, k - 1);
        let gap = if prev < found.0 {
            seq![((prev, found.0), false)]
        } else {
            seq![]
        };
        match_spans(matches, k - 1) + gap + seq![(found, true)]
    }
}

/// The spans into which `matches` divide a text of `total` bytes: the spans
/// of `match_spans`, and behind them the rest of the text, where there is
/// any. An empty text is one empty span.
pub open spec fn match_partition(matches: Seq<(usize, usize)>, total: usize) -> Seq<
    ((usize, usize), bool),
> {
    if total == 0 {
        seq![((0usize, 0usize), false)]
    } else {
        let prev = matched_up_to(matches, matches.len() as int);
        let rest = if prev < total {
            seq![((prev, total), false)]
        } else {
            seq![]
        };
        match_spans(matches, matches.len() as int) + rest
    }
}

/// Adds a span, given by its bytes, to a chain.
proof fn lemma_chain_extend(
    spans: Seq<((usize, usize), bool)>,
    text: Seq<char>,
    start: usize,
    end: usize,
    flag: bool,
)
    requires
        is_chain(spans, text, start as int),
        start <= end,
        is_boundary(text, end as int),
    ensures
        is_chain(spans.push(((start, end), flag)), text, end as int),
{
    reveal(is_chain);
    lemma_byte_offset_ends(text);
    lemma_char_index(text, 0);
    let out = spans.push(((start, end), flag));
    assert forall|i: int| 0 <= i < out.len() implies {
        &&& (#[trigger] out[i]).0.0 <= out[i].0.1
        &&& is_boundary(text, out[i].0.0 as int)
        &&& is_boundary(text, out[i].0.1 as int)
    } by {
        if i < spans.len() {
            assert(out[i] == spans[i]);
        } else if spans.len() > 0 {
            assert(is_boundary(text, spans[spans.len() - 1].0.1 as int));
        }
    }
    assert forall|i: int, j: int| 0 <= i && j == i + 1 && j < out.len() implies (
    #[trigger] out[i]).0.1 == (#[trigger] out[j]).0.0 by {
        assert(out[i] == spans[i]);
        if j < spans.len() {
            assert(out[j] == spans[j]);
        }
    }
    if spans.len() > 0 {
        assert(out[0] == spans[0]);
    }
}

/// Divides `inside` at `matches`, which an engine found in it from left to
/// right: the result holds every match, the text between two matches and
/// the text before the first and behind the last, where there is any.
pub fn partition_at(matches: &Vec<(usize, usize)>, inside: &str) -> (out: Vec<
    ((usize, usize), bool),
>)
    requires
        ordered_matches(matches@, inside@),
    ensures
        out@ == match_partition(matches@, byte_len(inside@) as usize),
        is_partition(out@, inside@),
{
    let total = text_len(inside);
    let mut out: Vec<((usize, usize), bool)> = Vec::new();
    proof {
        lemma_chain_empty(inside@);
        lemma_byte_offset_ends(inside@);
        lemma_char_index(inside@, 0);
        lemma_char_index(inside@, inside@.len() as int);
    }
    if total == 0 {
        out.push(((0, 0), false));
        proof {
            lemma_chain_extend(Seq::empty(), inside@, 0, 0, false);
            assert(out@ =~= Seq::empty().push(((0usize, 0usize), false)));
        }
        return out;
    }
    let mut prev: usize = 0;
    let mut k: usize = 0;
    while k < matches.len()
        invariant
            k <= matches.len(),
            ordered_matches(matches@, inside@),
            prev == matched_up_to(matches@, k as int),
            out@ == match_spans(matches@, k as int),
            is_chain(out@, inside@, prev as int),
        decreases matches.len() - k,
    {
        let found = matches[k];
        proof {
            if k > 0 {
                assert(matches@[k - 1].1 <= matches@[k as int].0);
            }
            assert(is_boundary(inside@, matches@[k as int].0 as int));
            assert(is_boundary(inside@, matches@[k as int].1 as int));
        }
        if prev < found.0 {
            proof {
                lemma_chain_extend(out@, inside@, prev, found.0, false);
            }
            out.push(((prev, found.0), false));
        }
        proof {
            lemma_chain_extend(out@, inside@, found.0, found.1, true);
        }
        out.push((found, true));
        assert(out@ =~= match_spans(matches@, k + 1));
        prev = found.1;
        k += 1;
    }
    proof {
        // a boundary lies within the text
        if prev > total {
            let j = crate::offsets::char_index(inside@, prev as int);
            lemma_byte_offset_monotone(inside@, j, inside@.len() as int);
        }
    }
    if prev < total {
        proof {
            lemma_chain_extend(out@, inside@, prev, total, false);
        }
        out.push(((prev, total), false));
    }
    proof {
        assert(out@ =~= match_partition(matches@, total));
        reveal(is_chain);
    }
    out
}

/// A compiled regular expression of `onig`. Nothing inside it is known
/// here.
#[verifier::external_type_specification]
#[verifier::external_body]
pub struct ExRegex(onig::Regex);

/// The error that `onig` reports for an expression that it cannot compile or
/// evaluate.
#[verifier::external_type_specification]
#[verifier::external_body]
pub struct ExRegexError(onig::Error);

/// Whether the engine compiles the expression with this source.
pub uninterp spec fn engine_compiles(source: Seq<char>) -> bool;

/// `Regex::new` of `onig` compiles an expression with the default options
/// and syntax, or reports why it cannot. Trusted: whether it compiles
/// depends on the source alone.
pub assume_specification[ onig::Regex::new ](pattern: &str) -> (r: Result<
    onig::Regex,
    onig::Error,
>)
    ensures
        r is Ok <==> engine_compiles(pattern@),
;

/// What the engine answers to a search in `text` from byte `from` on for the
/// expression with this source: what the search returned, which is the
/// start of the first match if there is one, and the range of bytes of that
/// match; `None` where the engine fails.
pub uninterp spec fn engine_answer(source: Seq<char>, text: Seq<char>, from: int) -> Option<
    (Option<usize>, Option<(usize, usize)>),
>;

/// Calls `Regex::search_with_param` of `onig` to look for the first match
/// in `text` that starts at byte `from` or later, with `onig`'s default
/// limits. Hands back what the search returned, which is the start of the
/// match if there is one, and the byte range of the whole match as
/// `Region::pos(0)` then gives it. Trusted: a `PyRegex` holds what
/// `Regex::new` compiled from its source, and the limits of the engine are
/// those that it was built with, so whether the engine answers and what it
/// answers depend on that source, the text and the place where the search
/// starts, and on nothing else. Nothing is claimed of what the answer is:
/// whoever calls this holds what comes back against the text.
#[verifier::external_body]
fn search_from(regex: &PyRegex, text: &str, from: usize) -> (r: Result<
    (Option<usize>, Option<(usize, usize)>),
    onig::Error,
>)
    requires
        is_boundary(text@, from as int),
    ensures
        r is Ok <==> engine_answer(regex.source(), text@, from as int) is Some,
        r matches Ok(answer) ==> engine_answer(regex.source(), text@, from as int) == Some(answer),
{
    let mut region = onig::Region::new();
    let found = regex.inner.search_with_param(
        text,
        from,
        text.len(),
        onig::SearchOptions::SEARCH_OPTION_NONE,
        Some(&mut region),
        onig::MatchParam::default(),
    )?;
    Ok((found, region.pos(0)))
}

/// What to do with an answer of the engine.
#[derive(Clone, Copy, Debug, PartialEq, Eq, Structural)]
pub enum SearchStep {
    /// There is no further match: the search has ended.
    Stop,
    /// The answer cannot be a match in the text behind the last one: the
    /// search has failed.
    Refuse,
    /// An empty match right behind the last match: it is passed over, and
    /// the search goes on one character further.
    Skip,
    /// A match, from character `start` up to character `end`.
    Take { start: usize, end: usize },
}

/// What to do with `answer`, which the engine gave to a search from
/// character `last` on, where the last match ended at character
/// `last_match_end`. The answer holds what the search returned and the
/// range of bytes of the match. The search ends where the engine found
/// nothing, and where it finds nothing but an empty match behind the last
/// match at the end of the text. A match without its range, or outside the
/// text, inside a character, before `last` or with its end before its start
/// is refused.
pub open spec fn search_step(
    text: Seq<char>,
    last: int,
    last_match_end: Option<usize>,
    answer: (Option<usize>, Option<(usize, usize)>),
) -> SearchStep {
    if answer.0 is None {
        SearchStep::Stop
    } else if answer.1 is None {
        SearchStep::Refuse
    } else {
        let span = answer.1.unwrap();
        let start = char_index(text, span.0 as int);
        let end = char_index(text, span.1 as int);
        if !is_boundary(text, span.0 as int) || !is_boundary(text, span.1 as int) {
            SearchStep::Refuse
        } else if start < last || end < start {
            SearchStep::Refuse
        } else if start == end && last_match_end == Some(end as usize) {
            if last < text.len() {
                SearchStep::Skip
            } else {
                SearchStep::Stop
            }
        } else {
            SearchStep::Take { start: start as usize, end: end as usize }
        }
    }
}

/// What to do at character `last` of a search for the expression with this
/// source, where the last match ended at character `last_match_end`: what
/// `search_step` says of the answer that the engine gives there, and
/// `Refuse` where the engine fails.
pub open spec fn step_at(
    source: Seq<char>,
    text: Seq<char>,
    last: int,
    last_match_end: Option<usize>,
) -> SearchStep {
    match engine_answer(source, text, byte_offset(text, last) as int) {
        Some(answer) => search_step(text, last, last_match_end, answer),
        None => SearchStep::Refuse,
    }
}

/// The matches that a search for the expression with this source finds in
/// `text` from character `last` on, where the last match ended at character
/// `last_match_end`: the engine is asked at `last`, and `step_at` says what
/// to do there. A match that is taken comes first, and the search goes on
/// where it ends; an empty match that is passed over moves the search one
/// character on. `None` where the engine fails or its answer is refused.
#[verifier::opaque]
pub open spec fn matches_from(
    source: Seq<char>,
    text: Seq<char>,
    last: int,
    last_match_end: Option<usize>,
) -> Option<Seq<(usize, usize)>>
    decreases text.len() - last, (if last_match_end == Some(last as usize) { 0int } else { 1int }),
{
    if last < 0 || last > text.len() || text.len() > usize::MAX {
        Some(Seq::empty())
    } else {
        match step_at(source, text, last, last_match_end) {
            SearchStep::Stop => Some(Seq::empty()),
            SearchStep::Refuse => None,
            SearchStep::Skip => matches_from(source, text, last + 1, last_match_end),
            SearchStep::Take { start, end } => join_matches(
                seq![byte_span(text, start as int, end as int)],
                matches_from(source, text, end as int, Some(end)),
            ),
        }
    }
}

/// The matches of `first` followed by those of `rest`, where there are any.
pub open spec fn join_matches(
    first: Seq<(usize, usize)>,
    rest: Option<Seq<(usize, usize)>>,
) -> Option<Seq<(usize, usize)>> {
    match rest {
        Some(rest) => Some(first + rest),
        None => None,
    }
}

/// The matches that a search for the expression with this source finds in
/// `text`, from its start on; `None` where the engine fails or an answer of
/// the engine is refused.
pub open spec fn regex_matches(source: Seq<char>, text: Seq<char>) -> Option<Seq<(usize, usize)>> {
    matches_from(source, text, 0, None)
}

/// The spans into which the matches of the expression with this source
/// divide `text`: an empty text is one empty span, whatever the expression;
/// any other text is divided at the matches of `regex_matches` as
/// `match_partition` says. `None` where the search fails.
pub open spec fn regex_partition(source: Seq<char>, text: Seq<char>) -> Option<
    Seq<((usize, usize), bool)>,
> {
    if text.len() == 0 {
        Some(seq![((0usize, 0usize), false)])
    } else {
        match regex_matches(source, text) {
            Some(found) => Some(match_partition(found, byte_len(text) as usize)),
            None => None,
        }
    }
}

/// What `matches_from` is at one place of the search, by the step that the
/// answer of the engine leads to there.
proof fn lemma_matches_from(
    source: Seq<char>,
    text: Seq<char>,
    last: int,
    last_match_end: Option<usize>,
)
    requires
        0 <= last <= text.len() <= usize::MAX,
    ensures
        matches_from(source, text, last, last_match_end) == (match step_at(
            source,
            text,
            last,
            last_match_end,
        ) {
            SearchStep::Stop => Some(Seq::empty()),
            SearchStep::Refuse => None,
            SearchStep::Skip => matches_from(source, text, last + 1, last_match_end),
            SearchStep::Take { start, end } => join_matches(
                seq![byte_span(text, start as int, end as int)],
                matches_from(source, text, end as int, Some(end)),
            ),
        }),
{
    reveal(matches_from);
}

/// Decides what to do with an answer of the engine; see `search_step`.
/// `table` holds the byte position of each character position of `text`.
pub fn next_step(
    text: &Vec<char>,
    table: &Vec<usize>,
    last: usize,
    last_match_end: Option<usize>,
    answer: (Option<usize>, Option<(usize, usize)>),
) -> (step: SearchStep)
    requires
        is_offset_table(table@, text@),
    ensures
        step == search_step(text@, last as int, last_match_end, answer),
{
    if answer.0.is_none() {
        return SearchStep::Stop;
    }
    let (s, e) = match answer.1 {
        Some(span) => span,
        None => {
            return SearchStep::Refuse;
        },
    };
    let start = match find_boundary(text, table, s) {
        Some(start) => start,
        None => {
            return SearchStep::Refuse;
        },
    };
    let end = match find_boundary(text, table, e) {
        Some(end) => end,
        None => {
            return SearchStep::Refuse;
        },
    };
    if start < last || end < start {
        SearchStep::Refuse
    } else if start == end && last_match_end == Some(end) {
        if last < text.len() {
            SearchStep::Skip
        } else {
            SearchStep::Stop
        }
    } else {
        SearchStep::Take { start, end }
    }
}

/// A regular expression: its source, and what `onig` compiled it to. The
/// compiled expression is shared between the copies of one value.
pub struct PyRegex {
    inner: std::sync::Arc<onig::Regex>,
    pattern: String,
}

impl Clone for PyRegex {
    /// A copy of the expression, which shares what it was compiled to.
    fn clone(&self) -> (r: Self)
        ensures
            r == *self,
    {
        PyRegex { inner: self.inner.clone(), pattern: self.pattern.clone() }
    }
}

impl PyRegex {
    /// The expression as it was written.
    pub closed spec fn source(&self) -> Seq<char> {
        self.pattern@
    }

    /// The string that holds the expression as it was written.
    pub closed spec fn source_string(&self) -> String {
        self.pattern
    }

    /// Compiles `pattern`. What compiles is for the engine to say: where it
    /// refuses the expression, the error is `PatternError`.
    pub fn new(pattern: &str) -> (r: Result<PyRegex, NormalizedError>)
        ensures
            if engine_compiles(pattern@) {
                r matches Ok(regex) && regex.source() == pattern@
            } else {
                r matches Err(e) && e == NormalizedError::PatternError
            },
    {
        match onig::Regex::new(pattern) {
            Ok(inner) => Ok(
                PyRegex { inner: std::sync::Arc::new(inner), pattern: String::from_str(pattern) },
            ),
            Err(_) => Err(NormalizedError::PatternError),
        }
    }

    /// The expression as it was written.
    pub fn pattern(&self) -> (s: &str)
        ensures
            s@ == self.source(),
    {
        self.pattern.as_str()
    }

    /// The matches of the expression in `inside`, taken from left to right
    /// without overlap, as the engine finds them: each search starts where
    /// the match before it ended, and an empty match right behind a match is
    /// passed over. A match that the engine reports without its range, or
    /// outside the text, inside a character or before the place where the
    /// search started is refused as `PatternError`, and so is an error of
    /// the engine. The matches are those of `regex_matches`, and the search
    /// fails where that is `None`.
    pub fn matches(&self, inside: &str) -> (r: Result<Vec<(usize, usize)>, NormalizedError>)
        ensures
            match regex_matches(self.source(), inside@) {
                Some(found) => r matches Ok(v) && v@ == found,
                None => r matches Err(e) && e == NormalizedError::PatternError,
            },
            r matches Ok(v) ==> ordered_matches(v@, inside@),
    {
        let text = chars_of(inside);
        let table = byte_offsets(&text);
        let n = text.len();
        let mut out: Vec<(usize, usize)> = Vec::new();
        let mut last: usize = 0;
        let mut last_match_end: Option<usize> = None;
        proof {
            let all = regex_matches(self.source(), text@);
            if all is Some {
                assert(out@ + all->0 =~= all->0);
            }
        }
        loop
            invariant
                last <= n == text.len(),
                text@ == inside@,
                byte_len(text@) <= usize::MAX,
                is_offset_table(table@, text@),
                ordered_matches(out@, text@),
                out.len() > 0 ==> out@.last().1 <= byte_offset(text@, last as int),
                regex_matches(self.source(), text@) == join_matches(
                    out@,
                    matches_from(self.source(), text@, last as int, last_match_end),
                ),
            decreases n - last, (if last_match_end == Some(last) { 0int } else { 1int }),
        {
            proof {
                lemma_char_index(text@, last as int);
                lemma_matches_from(self.source(), text@, last as int, last_match_end);
            }
            let answer = match search_from(self, inside, table[last]) {
                Ok(answer) => answer,
                Err(_) => {
                    return Err(NormalizedError::PatternError);
                },
            };
            match next_step(&text, &table, last, last_match_end, answer) {
                SearchStep::Stop => {
                    assert(out@ + Seq::<(usize, usize)>::empty() =~= out@);
                    return Ok(out);
                },
                SearchStep::Refuse => {
                    return Err(NormalizedError::PatternError);
                },
                SearchStep::Skip => {
                    proof {
                        lemma_byte_offset_monotone(text@, last as int, last + 1);
                    }
                    last = last + 1;
                },
                SearchStep::Take { start, end } => {
                    let ghost before = out@;
                    proof {
                        lemma_char_index(text@, start as int);
                        lemma_char_index(text@, end as int);
                        lemma_byte_offset_monotone(text@, last as int, start as int);
                        lemma_byte_offset_monotone(text@, start as int, end as int);
                        lemma_byte_offset_monotone(text@, end as int, n as int);
                    }
                    out.push((table[start], table[end]));
                    proof {
                        let rest = matches_from(self.source(), text@, end as int, Some(end));
                        if rest is Some {
                            assert(out@ + rest->0 =~= before + (seq![
                                byte_span(text@, start as int, end as int),
                            ] + rest->0));
                        }
                        assert forall|i: int| 0 <= i < out@.len() implies {
                            &&& (#[trigger] out@[i]).0 <= out@[i].1
                            &&& is_boundary(text@, out@[i].0 as int)
                            &&& is_boundary(text@, out@[i].1 as int)
                        } by {
                            if i < before.len() {
                                assert(out@[i] == before[i]);
                            }
                        }
                        assert forall|i: int, j: int|
                            0 <= i && j == i + 1 && j < out@.len() implies (#[trigger] out@[i]).1
                            <= (#[trigger] out@[j]).0 by {
                            assert(out@[i] == before[i]);
                            if j < before.len() {
                                assert(out@[j] == before[j]);
                            }
                        }
                    }
                    last = end;
                    last_match_end = Some(end);
                },
            }
        }
    }

    /// Divides `inside` at the matches of the expression: the spans are
    /// those of `regex_partition`, which `partition_at` makes of the matches
    /// that `matches` finds. An empty text is one empty span, and is not
    /// searched. Where the search fails, the error is `PatternError`.
    pub fn find_matches(&self, inside: &str) -> (r: Result<
        Vec<((usize, usize), bool)>,
        NormalizedError,
    >)
        ensures
            match regex_partition(self.source(), inside@) {
                Some(spans) => r matches Ok(v) && v@ == spans,
                None => r matches Err(e) && e == NormalizedError::PatternError,
            },
            r matches Ok(v) ==> is_partition(v@, inside@),
    {
        proof {
            lemma_byte_offset_ends(inside@);
            lemma_byte_offset_monotone(inside@, 0, inside@.len() as int);
        }
        let found = if text_len(inside) == 0 {
            Vec::new()
        } else {
            match self.matches(inside) {
                Ok(found) => found,
                Err(e) => {
                    return Err(e);
                },
            }
        };
        Ok(partition_at(&found, inside))
    }
}

/// What to look for in a text: a literal, or a regular expression.
pub enum PyPattern {
    /// The text itself, character for character.
    Str(String),
    /// A regular expression.
    Regex(PyRegex),
}

impl Clone for PyPattern {
    /// A copy of the pattern.
    fn clone(&self) -> (r: Self)
        ensures
            r == *self,
    {
        match self {
            PyPattern::Str(s) => PyPattern::Str(s.clone()),
            PyPattern::Regex(regex) => PyPattern::Regex(regex.clone()),
        }
    }
}

impl PyPattern {
    /// The spans into which the pattern divides `text`: for a literal, the
    /// spans of `literal_partition`; for a regular expression, those of
    /// `regex_partition`. `None` where the search for a regular expression
    /// fails.
    pub open spec fn partition(self, text: Seq<char>) -> Option<Seq<((usize, usize), bool)>> {
        match self {
            PyPattern::Str(s) => Some(literal_partition(text, s@)),
            PyPattern::Regex(regex) => regex_partition(regex.source(), text),
        }
    }

    /// Divides `inside` into the spans that match the pattern and the spans
    /// between them, as `partition` says. A literal never fails; where the
    /// search for a regular expression fails, the error is `PatternError`.
    pub fn find_matches(&self, inside: &str) -> (r: Result<
        Vec<((usize, usize), bool)>,
        NormalizedError,
    >)
        ensures
            match self.partition(inside@) {
                Some(spans) => r matches Ok(v) && v@ == spans,
                None => r matches Err(e) && e == NormalizedError::PatternError,
            },
            r matches Ok(v) ==> is_partition(v@, inside@),
    {
        match self {
            PyPattern::Str(s) => Ok(find_literal_matches(s.as_str(), inside)),
            PyPattern::Regex(regex) => regex.find_matches(inside),
        }
    }
}

/// What to replace, as a description that can be stored: the literal, or
/// the source of the regular expression.
pub enum ReplacePattern {
    String(String),
    Regex(String),
}

/// Where to split, as a description that can be stored: the literal, or the
/// source of the regular expression.
pub enum SplitPattern {
    String(String),
    Regex(String),
}

impl From<PyPattern> for ReplacePattern {
    fn from(pattern: PyPattern) -> (r: Self) {
        match pattern {
            PyPattern::Str(s) => ReplacePattern::String(s),
            PyPattern::Regex(regex) => ReplacePattern::Regex(regex.pattern),
        }
    }
}

impl vstd::std_specs::convert::FromSpecImpl<PyPattern> for ReplacePattern {
    open spec fn obeys_from_spec() -> bool {
        true
    }

    open spec fn from_spec(pattern: PyPattern) -> Self {
        match pattern {
            PyPattern::Str(s) => ReplacePattern::String(s),
            PyPattern::Regex(regex) => ReplacePattern::Regex(regex.source_string()),
        }
    }
}

impl From<PyPattern> for SplitPattern {
    fn from(pattern: PyPattern) -> (r: Self) {
        match pattern {
            PyPattern::Str(s) => SplitPattern::String(s),
            PyPattern::Regex(regex) => SplitPattern::Regex(regex.pattern),
        }
    }
}

impl vstd::std_specs::convert::FromSpecImpl<PyPattern> for SplitPattern {
    open spec fn obeys_from_spec() -> bool {
        true
    }

    open spec fn from_spec(pattern: PyPattern) -> Self {
        match pattern {
            PyPattern::Str(s) => SplitPattern::String(s),
            PyPattern::Regex(regex) => SplitPattern::Regex(regex.source_string()),
        }
    }
}

} // verus!
