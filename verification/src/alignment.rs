//! The mathematical model of a normalized string, and what each operation
//! does to it.

use crate::offsets::{
    byte_len, byte_offset, char_index, is_boundary, is_whitespace_spec, lemma_byte_offset_ends,
    lemma_byte_offset_monotone, lemma_byte_offset_order, lemma_byte_offset_step,
    lemma_byte_offset_subrange, lemma_char_index,
};
use crate::unicode::{lowercase_mapping, uppercase_mapping};
use vstd::prelude::*;

verus! {

/// What a normalized string is: the text as it first was, the text as it now
/// is, and for every character of the latter the range of bytes of the
/// former that it comes from.
pub struct NormalizedView {
    pub original: Seq<char>,
    pub normalized: Seq<char>,
    pub alignments: Seq<(usize, usize)>,
}

/// A range of bytes of `original` that starts and ends between characters.
pub open spec fn valid_span(original: Seq<char>, a: (usize, usize)) -> bool {
    &&& a.0 <= a.1 <= byte_len(original)
    &&& is_boundary(original, a.0 as int)
    &&& is_boundary(original, a.1 as int)
}

/// Every entry is a valid span of `original`, and the entries start ever
/// further to the right.
pub open spec fn valid_alignments(original: Seq<char>, al: Seq<(usize, usize)>) -> bool {
    &&& forall|i: int| 0 <= i < al.len() ==> valid_span(original, #[trigger] al[i])
    &&& forall|i: int, j: int|
        0 <= i <= j < al.len() ==> (#[trigger] al[i]).0 <= (#[trigger] al[j]).0
}

/// The alignments of a text that nothing has been done to: entry `i` is the
/// range of bytes that character `i` occupies.
pub open spec fn identity_alignments(s: Seq<char>) -> Seq<(usize, usize)> {
    Seq::new(s.len(), |i: int| (byte_offset(s, i) as usize, byte_offset(s, i + 1) as usize))
}

/// The smallest range that covers the entries `[i, j)` of `al`: from the
/// least start to the greatest end.
pub open spec fn span_union(al: Seq<(usize, usize)>, i: int, j: int) -> (usize, usize)
    decreases j - i,
{
    if j <= i + 1 {
        al[i]
    } else {
        let u = span_union(al, i, j - 1);
        let a = al[j - 1];
        (if a.0 < u.0 { a.0 } else { u.0 }, if a.1 > u.1 { a.1 } else { u.1 })
    }
}

/// The items of `s` whose flag in `keep` is set, in order.
pub open spec fn retain<T>(s: Seq<T>, keep: Seq<bool>) -> Seq<T>
    decreases s.len(),
{
    if s.len() == 0 {
        Seq::empty()
    } else {
        let r = retain(s.drop_last(), keep.drop_last());
        if keep.last() {
            r.push(s.last())
        } else {
            r
        }
    }
}

/// Number of characters with the `White_Space` property at the start of `s`.
pub open spec fn leading_whitespace(s: Seq<char>) -> int
    decreases s.len(),
{
    if s.len() > 0 && is_whitespace_spec(s[0]) {
        1 + leading_whitespace(s.drop_first())
    } else {
        0
    }
}

/// Number of characters with the `White_Space` property at the end of `s`.
pub open spec fn trailing_whitespace(s: Seq<char>) -> int
    decreases s.len(),
{
    if s.len() > 0 && is_whitespace_spec(s.last()) {
        1 + trailing_whitespace(s.drop_last())
    } else {
        0
    }
}

/// How many characters of the text a character with this change takes the
/// place of.
pub open spec fn taken(change: isize) -> int {
    if change > 0 {
        0
    } else {
        1 - change
    }
}

/// How many characters of the text the first `j` changes take the place of.
pub open spec fn consumed(changes: Seq<(char, isize)>, j: int) -> int
    decreases j,
{
    if j <= 0 {
        0
    } else {
        consumed(changes, j - 1) + taken(changes[j - 1].1)
    }
}

/// Whether the changes account for each of `n` characters exactly once.
pub open spec fn changes_fit(changes: Seq<(char, isize)>, n: int) -> bool {
    consumed(changes, changes.len() as int) == n
}

/// The alignment of character `j` of a text rebuilt from `changes`: a
/// character that takes the place of some characters covers what they
/// covered together; an added character comes from where the character
/// before it comes from, and from nowhere if there is none before it.
pub open spec fn transformed_alignment(
    al: Seq<(usize, usize)>,
    changes: Seq<(char, isize)>,
    j: int,
) -> (usize, usize)
    decreases j,
{
    if j < 0 {
        (0usize, 0usize)
    } else if changes[j].1 > 0 {
        if j == 0 {
            (0usize, 0usize)
        } else {
            transformed_alignment(al, changes, j - 1)
        }
    } else {
        span_union(al, consumed(changes, j), consumed(changes, j + 1))
    }
}

impl NormalizedView {
    /// The invariant of a normalized string: one alignment for each
    /// character, each a valid span of the original, in the order of the
    /// original.
    pub open spec fn wf(self) -> bool {
        &&& self.alignments.len() == self.normalized.len()
        &&& valid_alignments(self.original, self.alignments)
    }

    /// A normalized string made from `s`, to which nothing has been done.
    pub open spec fn fresh(s: Seq<char>) -> NormalizedView {
        NormalizedView { original: s, normalized: s, alignments: identity_alignments(s) }
    }

    /// The same string with other characters in the same places.
    pub open spec fn with_chars(self, chars: Seq<char>) -> NormalizedView {
        NormalizedView { normalized: chars, ..self }
    }

    /// Every character replaced by the first character of its lowercase
    /// mapping.
    pub open spec fn lowercased(self) -> NormalizedView {
        self.with_chars(
            Seq::new(self.normalized.len(), |i: int| lowercase_mapping(self.normalized[i])[0]),
        )
    }

    /// Every character replaced by the first character of its uppercase
    /// mapping.
    pub open spec fn uppercased(self) -> NormalizedView {
        self.with_chars(
            Seq::new(self.normalized.len(), |i: int| uppercase_mapping(self.normalized[i])[0]),
        )
    }

    /// The empty range that added text at the end gets: it lies where the
    /// last character's span ends.
    pub open spec fn end_span(self) -> (usize, usize) {
        if self.alignments.len() == 0 {
            (0usize, 0usize)
        } else {
            (self.alignments.last().1, self.alignments.last().1)
        }
    }

    /// The string with `s` put before its text: the characters of `s` come
    /// from nowhere, and get the empty range at the start of the original.
    pub open spec fn prepended(self, s: Seq<char>) -> NormalizedView {
        NormalizedView {
            original: self.original,
            normalized: s + self.normalized,
            alignments: Seq::new(s.len(), |i: int| (0usize, 0usize)) + self.alignments,
        }
    }

    /// The string with `s` put after its text: the characters of `s` come
    /// from nowhere, and get the empty range of `end_span`.
    pub open spec fn appended(self, s: Seq<char>) -> NormalizedView {
        NormalizedView {
            original: self.original,
            normalized: self.normalized + s,
            alignments: self.alignments + Seq::new(s.len(), |i: int| self.end_span()),
        }
    }

    /// The characters `[start, end)` with their alignments; the original is
    /// kept whole.
    pub open spec fn truncated(self, start: int, end: int) -> NormalizedView {
        NormalizedView {
            original: self.original,
            normalized: self.normalized.subrange(start, end),
            alignments: self.alignments.subrange(start, end),
        }
    }

    /// The string without the whitespace at the start of its text.
    pub open spec fn lstripped(self) -> NormalizedView {
        self.truncated(leading_whitespace(self.normalized), self.normalized.len() as int)
    }

    /// The string without the whitespace at the end of its text.
    pub open spec fn rstripped(self) -> NormalizedView {
        self.truncated(0, self.normalized.len() - trailing_whitespace(self.normalized))
    }

    /// The string without the whitespace at both ends of its text; of a text
    /// that is all whitespace nothing is left.
    pub open spec fn stripped(self) -> NormalizedView {
        let n = self.normalized.len() as int;
        let lead = leading_whitespace(self.normalized);
        if lead == n {
            self.truncated(n, n)
        } else {
            self.truncated(lead, n - trailing_whitespace(self.normalized))
        }
    }

    /// The string with no text left. The original stays.
    pub open spec fn cleared(self) -> NormalizedView {
        NormalizedView {
            original: self.original,
            normalized: Seq::empty(),
            alignments: Seq::empty(),
        }
    }

    /// The characters whose flag in `keep` is set, with their alignments.
    pub open spec fn filtered(self, keep: Seq<bool>) -> NormalizedView {
        NormalizedView {
            original: self.original,
            normalized: retain(self.normalized, keep),
            alignments: retain(self.alignments, keep),
        }
    }

    /// The text rebuilt from `changes`, each character aligned as
    /// `transformed_alignment` says.
    pub open spec fn transformed(self, changes: Seq<(char, isize)>) -> NormalizedView {
        NormalizedView {
            original: self.original,
            normalized: Seq::new(changes.len(), |j: int| changes[j].0),
            alignments: Seq::new(
                changes.len(),
                |j: int| transformed_alignment(self.alignments, changes, j),
            ),
        }
    }

    /// The text rebuilt from `changes` where they fit it, and the text as it
    /// is where they do not.
    pub open spec fn normalized_with(self, changes: Seq<(char, isize)>) -> NormalizedView {
        if changes_fit(changes, self.normalized.len() as int) {
            self.transformed(changes)
        } else {
            self
        }
    }

    /// The characters `[start, end)` as a string of their own: its original
    /// is the part of the original that their alignments cover together, and
    /// its alignments count from the start of that part.
    pub open spec fn slice(self, start: int, end: int) -> NormalizedView
        recommends
            0 <= start < end <= self.normalized.len(),
    {
        let u = span_union(self.alignments, start, end);
        NormalizedView {
            original: self.original.subrange(
                char_index(self.original, u.0 as int),
                char_index(self.original, u.1 as int),
            ),
            normalized: self.normalized.subrange(start, end),
            alignments: Seq::new(
                (end - start) as nat,
                |i: int|
                    (
                        (self.alignments[start + i].0 - u.0) as usize,
                        (self.alignments[start + i].1 - u.0) as usize,
                    ),
            ),
        }
    }
}

/// The union of some entries of valid alignments is a valid span that starts
/// where the first of them starts and covers each of them.
pub proof fn lemma_span_union(original: Seq<char>, al: Seq<(usize, usize)>, i: int, j: int)
    requires
        valid_alignments(original, al),
        0 <= i < j <= al.len(),
    ensures
        valid_span(original, span_union(al, i, j)),
        span_union(al, i, j).0 == al[i].0,
        forall|k: int|
            i <= k < j ==> span_union(al, i, j).0 <= (#[trigger] al[k]).0 && al[k].1
                <= span_union(al, i, j).1,
    decreases j - i,
{
    if j > i + 1 {
        lemma_span_union(original, al, i, j - 1);
        assert(valid_span(original, al[j - 1]));
        assert(al[i].0 <= al[j - 1].0);
    } else {
        assert(valid_span(original, al[i]));
    }
}

/// The leading whitespace of `s` is its first `i` characters, where they
/// are whitespace and the one after them, if there is one, is not.
pub proof fn lemma_leading_whitespace(s: Seq<char>, i: int)
    requires
        0 <= i <= s.len(),
        forall|k: int| 0 <= k < i ==> is_whitespace_spec(#[trigger] s[k]),
        i < s.len() ==> !is_whitespace_spec(s[i]),
    ensures
        leading_whitespace(s) == i,
    decreases i,
{
    if i > 0 {
        assert(is_whitespace_spec(s[0]));
        let t = s.drop_first();
        assert forall|k: int| 0 <= k < i - 1 implies is_whitespace_spec(#[trigger] t[k]) by {
            assert(t[k] == s[k + 1]);
        }
        lemma_leading_whitespace(t, i - 1);
    }
}

/// The trailing whitespace of `s` is its last `i` characters, where they
/// are whitespace and the one before them, if there is one, is not.
pub proof fn lemma_trailing_whitespace(s: Seq<char>, i: int)
    requires
        0 <= i <= s.len(),
        forall|k: int| s.len() - i <= k < s.len() ==> is_whitespace_spec(#[trigger] s[k]),
        i < s.len() ==> !is_whitespace_spec(s[s.len() - i - 1]),
    ensures
        trailing_whitespace(s) == i,
    decreases i,
{
    if i > 0 {
        assert(is_whitespace_spec(s[s.len() - 1]));
        let t = s.drop_last();
        assert forall|k: int| t.len() - (i - 1) <= k < t.len() implies is_whitespace_spec(
            #[trigger] t[k],
        ) by {
            assert(t[k] == s[k]);
        }
        lemma_trailing_whitespace(t, i - 1);
    }
}

/// Later changes only add to what earlier changes have consumed.
pub proof fn lemma_consumed_monotone(changes: Seq<(char, isize)>, i: int, j: int)
    requires
        0 <= i <= j,
    ensures
        0 <= consumed(changes, i) <= consumed(changes, j),
    decreases j,
{
    if j > 0 {
        if i < j {
            lemma_consumed_monotone(changes, i, j - 1);
        } else {
            lemma_consumed_monotone(changes, i - 1, j - 1);
        }
    }
}

/// A part of valid alignments is valid.
pub proof fn lemma_subrange_valid(
    original: Seq<char>,
    al: Seq<(usize, usize)>,
    start: int,
    end: int,
)
    requires
        valid_alignments(original, al),
        0 <= start <= end <= al.len(),
    ensures
        valid_alignments(original, al.subrange(start, end)),
{
    let part = al.subrange(start, end);
    assert forall|i: int| 0 <= i < part.len() implies valid_span(original, #[trigger] part[i]) by {
        assert(part[i] == al[start + i]);
    }
    assert forall|i: int, j: int| 0 <= i <= j < part.len() implies (#[trigger] part[i]).0 <= (
    #[trigger] part[j]).0 by {
        assert(part[i] == al[start + i]);
        assert(part[j] == al[start + j]);
    }
}

/// A slice of a normalized string is a normalized string.
pub proof fn lemma_slice_wf(v: NormalizedView, start: int, end: int)
    requires
        v.wf(),
        0 <= start < end <= v.normalized.len(),
    ensures
        v.slice(start, end).wf(),
{
    let al = v.alignments;
    let u = span_union(al, start, end);
    lemma_span_union(v.original, al, start, end);
    let klo = char_index(v.original, u.0 as int);
    let khi = char_index(v.original, u.1 as int);
    lemma_byte_offset_order(v.original, klo, khi);
    let part = v.original.subrange(klo, khi);
    let out = v.slice(start, end).alignments;
    assert forall|i: int| 0 <= i < out.len() implies valid_span(part, #[trigger] out[i]) by {
        let a = al[start + i];
        assert(valid_span(v.original, a));
        let ka = char_index(v.original, a.0 as int);
        let kb = char_index(v.original, a.1 as int);
        lemma_byte_offset_order(v.original, klo, ka);
        lemma_byte_offset_order(v.original, ka, kb);
        lemma_byte_offset_order(v.original, kb, khi);
        lemma_byte_offset_subrange(v.original, klo, khi, ka);
        lemma_byte_offset_subrange(v.original, klo, khi, kb);
        lemma_byte_offset_subrange(v.original, klo, khi, khi);
        lemma_byte_offset_ends(part);
        assert(byte_offset(part, ka - klo) == out[i].0);
        assert(byte_offset(part, kb - klo) == out[i].1);
    }
    assert forall|i: int, j: int| 0 <= i <= j < out.len() implies (#[trigger] out[i]).0 <= (
    #[trigger] out[j]).0 by {
        assert(al[start + i].0 <= al[start + j].0);
    }
}

/// A text to which nothing has been done meets the invariant.
pub proof fn lemma_fresh_wf(s: Seq<char>)
    requires
        byte_len(s) <= usize::MAX,
    ensures
        NormalizedView::fresh(s).wf(),
{
    let al = identity_alignments(s);
    lemma_byte_offset_ends(s);
    assert forall|i: int| 0 <= i < al.len() implies valid_span(s, #[trigger] al[i]) by {
        lemma_byte_offset_step(s, i);
        lemma_byte_offset_monotone(s, i + 1, s.len() as int);
        lemma_char_index(s, i);
        lemma_char_index(s, i + 1);
    }
    assert forall|i: int, j: int| 0 <= i <= j < al.len() implies (#[trigger] al[i]).0 <= (
    #[trigger] al[j]).0 by {
        lemma_byte_offset_monotone(s, i, j);
        lemma_byte_offset_monotone(s, j, s.len() as int);
    }
}

} // verus!
