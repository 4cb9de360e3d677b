//! Replacing the matches of a pattern in a normalized string.

use crate::alignment::{lemma_span_union, span_union, valid_alignments, valid_span, NormalizedView};
use crate::error::NormalizedError;
use crate::normalized::PyNormalizedString;
use crate::offsets::{
    byte_len, byte_offsets, char_index, chars_of, find_boundary, is_boundary, is_offset_table,
    lemma_byte_offset_ends, lemma_byte_offset_order, lemma_char_index,
};
use crate::pattern::{
    is_chain, is_partition, match_spans, regex_matches, regex_partition, PyPattern,
};
use crate::split::end_of;
use vstd::prelude::*;

verus! {

/// The empty range that text put in before character `k` gets: it lies
/// where the range of character `k` starts, and behind the last character
/// where its range ends.
pub open spec fn insertion_span(al: Seq<(usize, usize)>, k: int) -> (usize, usize) {
    if 0 <= k < al.len() {
        (al[k].0, al[k].0)
    } else if al.len() > 0 {
        (al.last().1, al.last().1)
    } else {
        (0usize, 0usize)
    }
}

/// The range that text put in the place of the characters `[a, b)` gets:
/// what those characters cover together, and for no character at all the
/// empty range of `insertion_span`.
pub open spec fn replacement_span(al: Seq<(usize, usize)>, a: int, b: int) -> (usize, usize) {
    if a < b {
        span_union(al, a, b)
    } else {
        insertion_span(al, a)
    }
}

/// The text after the first `k` spans: a match has become `content`, any
/// other span is as it was.
pub open spec fn replaced_chars(
    v: NormalizedView,
    spans: Seq<((usize, usize), bool)>,
    content: Seq<char>,
    k: int,
) -> Seq<char>
    decreases k,
{
    if k <= 0 {
        Seq::empty()
    } else {
        let span = spans[k - 1];
        let a = char_index(v.normalized, span.0.0 as int);
        let b = char_index(v.normalized, span.0.1 as int);
        replaced_chars(v, spans, content, k - 1) + (if span.1 {
            content
        } else {
            v.normalized.subrange(a, b)
        })
    }
}

/// The alignments after the first `k` spans: every character of `content`
/// that stands for a match has the range of `replacement_span`, any other
/// character has the range that it had.
pub open spec fn replaced_alignments(
    v: NormalizedView,
    spans: Seq<((usize, usize), bool)>,
    content: Seq<char>,
    k: int,
) -> Seq<(usize, usize)>
    decreases k,
{
    if k <= 0 {
        Seq::empty()
    } else {
        let span = spans[k - 1];
        let a = char_index(v.normalized, span.0.0 as int);
        let b = char_index(v.normalized, span.0.1 as int);
        replaced_alignments(v, spans, content, k - 1) + (if span.1 {
            Seq::new(content.len(), |i: int| replacement_span(v.alignments, a, b))
        } else {
            v.alignments.subrange(a, b)
        })
    }
}

impl NormalizedView {
    /// The string with `content` in the place of every match among `spans`.
    pub open spec fn replaced(
        self,
        spans: Seq<((usize, usize), bool)>,
        content: Seq<char>,
    ) -> NormalizedView {
        NormalizedView {
            original: self.original,
            normalized: replaced_chars(self, spans, content, spans.len() as int),
            alignments: replaced_alignments(self, spans, content, spans.len() as int),
        }
    }
}

/// Where ranges that start at `bound` at the latest are followed by ranges
/// that start there at the earliest, the whole is in order.
proof fn lemma_append_valid(
    original: Seq<char>,
    x: Seq<(usize, usize)>,
    y: Seq<(usize, usize)>,
    bound: int,
)
    requires
        valid_alignments(original, x),
        valid_alignments(original, y),
        forall|i: int| 0 <= i < x.len() ==> (#[trigger] x[i]).0 <= bound,
        forall|i: int| 0 <= i < y.len() ==> (#[trigger] y[i]).0 >= bound,
    ensures
        valid_alignments(original, x + y),
{
    let z = x + y;
    assert forall|i: int| 0 <= i < z.len() implies valid_span(original, #[trigger] z[i]) by {
        if i < x.len() {
            assert(z[i] == x[i]);
        } else {
            assert(z[i] == y[i - x.len()]);
        }
    }
    assert forall|i: int, j: int| 0 <= i <= j < z.len() implies (#[trigger] z[i]).0 <= (
    #[trigger] z[j]).0 by {
        if j < x.len() {
            assert(z[i] == x[i]);
            assert(z[j] == x[j]);
        } else if i < x.len() {
            assert(z[i] == x[i]);
            assert(z[j] == y[j - x.len()]);
        } else {
            assert(z[i] == y[i - x.len()]);
            assert(z[j] == y[j - x.len()]);
        }
    }
}

/// Replacing along a chain of spans keeps the invariant: after the first
/// `k` spans there is one alignment for each character, the alignments are
/// valid, and none starts later than text put in at the end of span `k`
/// would.
proof fn lemma_replaced(
    v: NormalizedView,
    spans: Seq<((usize, usize), bool)>,
    end: int,
    content: Seq<char>,
    k: int,
)
    requires
        v.wf(),
        is_chain(spans, v.normalized, end),
        0 <= k <= spans.len(),
    ensures
        replaced_alignments(v, spans, content, k).len() == replaced_chars(
            v,
            spans,
            content,
            k,
        ).len(),
        valid_alignments(v.original, replaced_alignments(v, spans, content, k)),
        forall|i: int|
            0 <= i < replaced_alignments(v, spans, content, k).len() ==> (
            #[trigger] replaced_alignments(v, spans, content, k)[i]).0 <= insertion_span(
                v.alignments,
                char_index(v.normalized, end_of(spans, k)),
            ).0,
    decreases k,
{
    reveal(is_chain);
    let al = v.alignments;
    let n = al.len() as int;
    lemma_byte_offset_ends(v.normalized);
    lemma_byte_offset_ends(v.original);
    lemma_char_index(v.normalized, 0);
    lemma_char_index(v.original, 0);
    if k > 0 {
        lemma_replaced(v, spans, end, content, k - 1);
        let span = spans[k - 1];
        if k > 1 {
            assert(spans[k - 2].0.1 == spans[k - 1].0.0);
        }
        assert(end_of(spans, k - 1) == span.0.0);
        let a = char_index(v.normalized, span.0.0 as int);
        let b = char_index(v.normalized, span.0.1 as int);
        assert(is_boundary(v.normalized, span.0.0 as int));
        assert(is_boundary(v.normalized, span.0.1 as int));
        lemma_byte_offset_order(v.normalized, a, b);
        let before = replaced_alignments(v, spans, content, k - 1);
        let piece = if span.1 {
            Seq::new(content.len(), |i: int| replacement_span(al, a, b))
        } else {
            al.subrange(a, b)
        };
        let lower = insertion_span(al, a).0;
        let upper = insertion_span(al, b).0;
        if n > 0 {
            assert(valid_span(v.original, al[n - 1]));
            assert(al[0].0 <= al[n - 1].0);
        }
        if a < n {
            assert(valid_span(v.original, al[a]));
            assert(al[a].0 <= al[n - 1].0);
        }
        if b < n {
            assert(valid_span(v.original, al[b]));
        }
        if a < b {
            lemma_span_union(v.original, al, a, b);
            assert(al[a].0 <= al[b - 1].0);
            assert(al[b - 1].0 <= al[n - 1].0);
            if b < n {
                assert(al[b - 1].0 <= al[b].0);
            }
        }
        assert(valid_span(v.original, insertion_span(al, a)));
        assert(lower <= upper);
        assert forall|i: int| 0 <= i < piece.len() implies valid_span(
            v.original,
            #[trigger] piece[i],
        ) && lower <= piece[i].0 <= upper by {
            if !span.1 {
                assert(piece[i] == al[a + i]);
                assert(valid_span(v.original, al[a + i]));
                assert(al[a].0 <= al[a + i].0);
                assert(al[a + i].0 <= al[n - 1].0);
                if b < n {
                    assert(al[a + i].0 <= al[b].0);
                }
            }
        }
        assert forall|i: int, j: int| 0 <= i <= j < piece.len() implies (#[trigger] piece[i]).0 <= (
        #[trigger] piece[j]).0 by {
            if !span.1 {
                assert(al[a + i].0 <= al[a + j].0);
            }
        }
        lemma_append_valid(v.original, before, piece, lower as int);
        let after = replaced_alignments(v, spans, content, k);
        assert(after == before + piece);
        assert forall|i: int| 0 <= i < after.len() implies (#[trigger] after[i]).0 <= upper by {
            if i < before.len() {
                assert(after[i] == before[i]);
            } else {
                assert(after[i] == piece[i - before.len()]);
            }
        }
    }
}

/// Whether none of the spans is a match.
pub open spec fn without_match(spans: Seq<((usize, usize), bool)>) -> bool {
    forall|i: int| 0 <= i < spans.len() ==> !(#[trigger] spans[i]).1
}

/// Where none of the first `k` spans of a chain is a match, replacing leaves
/// the text and the alignments up to the end of span `k` as they are.
proof fn lemma_replaced_without_match(
    v: NormalizedView,
    spans: Seq<((usize, usize), bool)>,
    end: int,
    content: Seq<char>,
    k: int,
)
    requires
        v.wf(),
        is_chain(spans, v.normalized, end),
        0 <= k <= spans.len(),
        without_match(spans),
    ensures
        is_boundary(v.normalized, end_of(spans, k)),
        replaced_chars(v, spans, content, k) == v.normalized.take(
            char_index(v.normalized, end_of(spans, k)),
        ),
        replaced_alignments(v, spans, content, k) == v.alignments.take(
            char_index(v.normalized, end_of(spans, k)),
        ),
    decreases k,
{
    reveal(is_chain);
    lemma_byte_offset_ends(v.normalized);
    lemma_char_index(v.normalized, 0);
    if k > 0 {
        lemma_replaced_without_match(v, spans, end, content, k - 1);
        let span = spans[k - 1];
        if k > 1 {
            assert(spans[k - 2].0.1 == spans[k - 1].0.0);
        }
        assert(end_of(spans, k - 1) == span.0.0);
        let a = char_index(v.normalized, span.0.0 as int);
        let b = char_index(v.normalized, span.0.1 as int);
        assert(is_boundary(v.normalized, span.0.0 as int));
        assert(is_boundary(v.normalized, span.0.1 as int));
        lemma_byte_offset_order(v.normalized, a, b);
        assert(v.normalized.take(a) + v.normalized.subrange(a, b) =~= v.normalized.take(b));
        assert(v.alignments.take(a) + v.alignments.subrange(a, b) =~= v.alignments.take(b));
    } else {
        assert(v.normalized.take(0) =~= Seq::<char>::empty());
        assert(v.alignments.take(0) =~= Seq::<(usize, usize)>::empty());
    }
}

/// Replacing where nothing matches changes nothing: where no span among
/// those that divide the text is a match, the string stays as it is, text
/// and alignments.
pub proof fn law_replace_without_match(
    v: NormalizedView,
    spans: Seq<((usize, usize), bool)>,
    content: Seq<char>,
)
    requires
        v.wf(),
        is_partition(spans, v.normalized),
        without_match(spans),
    ensures
        v.replaced(spans, content) == v,
{
    let total = byte_len(v.normalized) as int;
    lemma_replaced_without_match(v, spans, total, content, spans.len() as int);
    assert(end_of(spans, spans.len() as int) == total) by {
        reveal(is_chain);
    }
    lemma_byte_offset_ends(v.normalized);
    lemma_char_index(v.normalized, v.normalized.len() as int);
    assert(v.normalized.take(v.normalized.len() as int) =~= v.normalized);
    assert(v.alignments.take(v.normalized.len() as int) =~= v.alignments);
}

/// A regular expression that matches nowhere in a text divides it into
/// spans of which none is a match.
pub proof fn law_no_match_no_span(source: Seq<char>, text: Seq<char>)
    requires
        regex_matches(source, text) == Some(Seq::<(usize, usize)>::empty()),
    ensures
        regex_partition(source, text) is Some,
        without_match(regex_partition(source, text).unwrap()),
{
    reveal_with_fuel(match_spans, 1);
}

impl PyNormalizedString {
    /// Puts `content` in the place of every match among `spans`, which
    /// divide the normalized text. Each character put in is aligned with
    /// what the match covered; see `replacement_span`.
    pub fn replace_with(&mut self, spans: &Vec<((usize, usize), bool)>, content: &str)
        requires
            old(self).wf(),
            is_partition(spans@, old(self)@.normalized),
        ensures
            final(self).wf(),
            final(self)@ == old(self)@.replaced(spans@, content@),
            without_match(spans@) ==> final(self)@ == old(self)@,
    {
        let chars = chars_of(self.get_normalized());
        let positions = byte_offsets(&chars);
        let added = chars_of(content);
        let n = chars.len();
        let mut text: Vec<char> = Vec::new();
        let mut alignments: Vec<(usize, usize)> = Vec::new();
        let mut k: usize = 0;
        while k < spans.len()
            invariant
                k <= spans.len(),
                self.wf(),
                n == chars.len(),
                chars@ == self@.normalized,
                added@ == content@,
                is_partition(spans@, self@.normalized),
                is_offset_table(positions@, chars@),
                text@ == replaced_chars(self@, spans@, content@, k as int),
                alignments@ == replaced_alignments(self@, spans@, content@, k as int),
            decreases spans.len() - k,
        {
            let span = spans[k];
            proof {
                reveal(is_chain);
                assert(is_boundary(chars@, spans@[k as int].0.0 as int));
                assert(is_boundary(chars@, spans@[k as int].0.1 as int));
            }
            // both ends of a span are boundaries of the text, so both are found
            let a = match find_boundary(&chars, &positions, span.0.0) {
                Some(p) => p,
                None => 0,
            };
            let b = match find_boundary(&chars, &positions, span.0.1) {
                Some(p) => p,
                None => a,
            };
            proof {
                lemma_byte_offset_order(chars@, a as int, b as int);
            }
            if span.1 {
                let range = if a < b {
                    self.union_in(a, b)
                } else if a < n {
                    (self.alignments()[a].0, self.alignments()[a].0)
                } else if n > 0 {
                    (self.alignments()[n - 1].1, self.alignments()[n - 1].1)
                } else {
                    (0, 0)
                };
                let ghost text_before = text@;
                let ghost al_before = alignments@;
                let mut i: usize = 0;
                while i < added.len()
                    invariant
                        i <= added.len(),
                        text@ == text_before + added@.take(i as int),
                        alignments@ == al_before + Seq::new(i as nat, |j: int| range),
                    decreases added.len() - i,
                {
                    text.push(added[i]);
                    alignments.push(range);
                    assert(text@ == text_before + added@.take(i + 1));
                    assert(alignments@ == al_before + Seq::new((i + 1) as nat, |j: int| range));
                    i += 1;
                }
                assert(added@.take(added.len() as int) == added@);
            } else {
                let ghost text_before = text@;
                let ghost al_before = alignments@;
                let mut i: usize = a;
                while i < b
                    invariant
                        a <= i <= b <= n,
                        n == chars.len(),
                        self.wf(),
                        chars@ == self@.normalized,
                        text@ == text_before + chars@.subrange(a as int, i as int),
                        alignments@ == al_before + self@.alignments.subrange(a as int, i as int),
                    decreases b - i,
                {
                    text.push(chars[i]);
                    alignments.push(self.alignments()[i]);
                    assert(text@ == text_before + chars@.subrange(a as int, i + 1));
                    assert(alignments@ == al_before + self@.alignments.subrange(a as int, i + 1));
                    i += 1;
                }
            }
            k += 1;
        }
        proof {
            lemma_replaced(
                self@,
                spans@,
                crate::offsets::byte_len(self@.normalized) as int,
                content@,
                spans.len() as int,
            );
            if without_match(spans@) {
                law_replace_without_match(self@, spans@, content@);
            }
        }
        self.set_text(&text, alignments);
    }

    /// Puts `content` in the place of every match among the spans into which
    /// `pattern` divides the normalized text. Where nothing matches, the
    /// string stays as it is. A literal never fails; where the search for a
    /// regular expression fails, the error is `PatternError` and the string
    /// stays as it is.
    pub fn replace(&mut self, pattern: PyPattern, content: &str) -> (r: Result<(), NormalizedError>)
        requires
            old(self).wf(),
        ensures
            final(self).wf(),
            match pattern.partition(old(self)@.normalized) {
                Some(spans) => {
                    &&& is_partition(spans, old(self)@.normalized)
                    &&& r is Ok
                    &&& final(self)@ == old(self)@.replaced(spans, content@)
                    &&& without_match(spans) ==> final(self)@ == old(self)@
                },
                None => r matches Err(e) && e == NormalizedError::PatternError && final(self)@
                    == old(self)@,
            },
    {
        match pattern.find_matches(self.get_normalized()) {
            Ok(spans) => {
                self.replace_with(&spans, content);
                Ok(())
            },
            Err(e) => Err(e),
        }
    }
}

} // verus!
