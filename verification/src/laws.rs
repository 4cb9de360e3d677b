//! What holds of the operations taken together.

use crate::alignment::{
    consumed, identity_alignments, leading_whitespace, lemma_fresh_wf, lemma_trailing_whitespace,
    span_union, trailing_whitespace, NormalizedView,
};
use crate::offsets::{
    byte_len, byte_offset, is_whitespace_spec, lemma_byte_offset_ends, lemma_byte_offset_monotone,
    lemma_byte_offset_step, lemma_byte_offset_subrange, lemma_char_index, utf8_width,
};
use crate::unicode::changed_text;
use vstd::prelude::*;

verus! {

/// A normalized string made from `s` has `s` for both of its texts, and
/// character `i` is aligned with the bytes of `s` that it occupies: they
/// start where `i` characters have gone before, and are as many as the
/// character is wide.
pub proof fn law_fresh(s: Seq<char>)
    requires
        byte_len(s) <= usize::MAX,
    ensures
        NormalizedView::fresh(s).wf(),
        NormalizedView::fresh(s).original == s,
        NormalizedView::fresh(s).normalized == s,
        NormalizedView::fresh(s).alignments.len() == s.len(),
        forall|i: int|
            0 <= i < s.len() ==> {
                &&& (#[trigger] NormalizedView::fresh(s).alignments[i]).0 == byte_offset(s, i)
                &&& NormalizedView::fresh(s).alignments[i].1 == byte_offset(s, i) + utf8_width(
                    s[i],
                )
            },
{
    lemma_fresh_wf(s);
    lemma_byte_offset_ends(s);
    assert forall|i: int| 0 <= i < s.len() implies {
        &&& (#[trigger] NormalizedView::fresh(s).alignments[i]).0 == byte_offset(s, i)
        &&& NormalizedView::fresh(s).alignments[i].1 == byte_offset(s, i) + utf8_width(s[i])
    } by {
        lemma_byte_offset_step(s, i);
        lemma_byte_offset_monotone(s, i + 1, s.len() as int);
    }
}

/// What the alignments of the characters `[start, end)` of a text that
/// nothing has been done to cover together: the bytes that those characters
/// occupy.
proof fn lemma_fresh_union(s: Seq<char>, start: int, end: int)
    requires
        byte_len(s) <= usize::MAX,
        0 <= start < end <= s.len(),
    ensures
        span_union(identity_alignments(s), start, end) == (
            byte_offset(s, start) as usize,
            byte_offset(s, end) as usize,
        ),
    decreases end - start,
{
    lemma_byte_offset_ends(s);
    lemma_byte_offset_monotone(s, start, end);
    lemma_byte_offset_monotone(s, end, s.len() as int);
    if end > start + 1 {
        lemma_fresh_union(s, start, end - 1);
        lemma_byte_offset_monotone(s, start, end - 1);
        lemma_byte_offset_monotone(s, end - 1, end);
    }
}

/// A slice of a text that nothing has been done to is that piece of the
/// text with nothing done to it: the piece is its original and its
/// normalized text, and its alignments start again at zero.
pub proof fn law_slice_of_fresh(s: Seq<char>, start: int, end: int)
    requires
        byte_len(s) <= usize::MAX,
        0 <= start < end <= s.len(),
    ensures
        NormalizedView::fresh(s).slice(start, end) == NormalizedView::fresh(s.subrange(start, end)),
{
    let v = NormalizedView::fresh(s);
    let part = s.subrange(start, end);
    lemma_fresh_union(s, start, end);
    lemma_byte_offset_ends(s);
    lemma_byte_offset_monotone(s, start, end);
    lemma_byte_offset_monotone(s, end, s.len() as int);
    lemma_char_index(s, start);
    lemma_char_index(s, end);
    let sliced = v.slice(start, end);
    let fresh = NormalizedView::fresh(part);
    assert(sliced.original =~= part);
    assert(sliced.normalized =~= part);
    assert forall|i: int| 0 <= i < end - start implies sliced.alignments[i]
        == fresh.alignments[i] by {
        lemma_byte_offset_subrange(s, start, end, start + i);
        lemma_byte_offset_subrange(s, start, end, start + i + 1);
        lemma_byte_offset_monotone(s, start, start + i);
        lemma_byte_offset_monotone(s, start + i, start + i + 1);
        lemma_byte_offset_monotone(s, start + i + 1, s.len() as int);
    }
    assert(sliced.alignments =~= fresh.alignments);
}

/// Rebuilding a text from changes that make the same text leaves the text
/// as it is, whether the changes fit or not. So a form of normalization
/// that makes of its own result the same text again can be applied twice
/// for once.
pub proof fn law_settled_text(v: NormalizedView, changes: Seq<(char, isize)>)
    requires
        changed_text(changes) == v.normalized,
    ensures
        v.normalized_with(changes).normalized == v.normalized,
{
    assert(v.transformed(changes).normalized =~= changed_text(changes));
}

/// Changes that put every character in the place of itself consume one
/// character each.
proof fn lemma_consumed_one_each(changes: Seq<(char, isize)>, j: int)
    requires
        0 <= j <= changes.len(),
        forall|i: int| 0 <= i < changes.len() ==> (#[trigger] changes[i]).1 == 0,
    ensures
        consumed(changes, j) == j,
    decreases j,
{
    if j > 0 {
        lemma_consumed_one_each(changes, j - 1);
    }
}

/// Rebuilding a text from changes that put every character in the place of
/// itself leaves the string as it is, alignments and all. So a form of
/// normalization that finds nothing to change in a text changes nothing.
pub proof fn law_no_change_keeps_the_string(v: NormalizedView, changes: Seq<(char, isize)>)
    requires
        v.wf(),
        changes.len() == v.normalized.len(),
        forall|i: int|
            0 <= i < changes.len() ==> #[trigger] changes[i] == (v.normalized[i], 0isize),
    ensures
        v.normalized_with(changes) == v,
{
    let n = changes.len() as int;
    lemma_consumed_one_each(changes, n);
    let out = v.transformed(changes);
    assert(out.normalized =~= v.normalized);
    assert forall|j: int| 0 <= j < n implies out.alignments[j] == v.alignments[j] by {
        lemma_consumed_one_each(changes, j);
        lemma_consumed_one_each(changes, j + 1);
    }
    assert(out.alignments =~= v.alignments);
}

/// Changing case and mapping characters one for one leave the alignments
/// as they are: before and after there is one alignment for each character,
/// and it is the same one.
pub proof fn law_one_for_one(v: NormalizedView, chars: Seq<char>)
    requires
        v.wf(),
        chars.len() == v.normalized.len(),
    ensures
        v.lowercased().wf(),
        v.lowercased().alignments == v.alignments,
        v.lowercased().normalized.len() == v.alignments.len(),
        v.uppercased().wf(),
        v.uppercased().alignments == v.alignments,
        v.uppercased().normalized.len() == v.alignments.len(),
        v.with_chars(chars).wf(),
        v.with_chars(chars).alignments == v.alignments,
        v.with_chars(chars).normalized.len() == v.alignments.len(),
{
}

/// The leading whitespace of `s` is whitespace, and the character behind it
/// is not.
pub proof fn lemma_leading_whitespace_is(s: Seq<char>)
    ensures
        0 <= leading_whitespace(s) <= s.len(),
        forall|k: int| 0 <= k < leading_whitespace(s) ==> is_whitespace_spec(#[trigger] s[k]),
        leading_whitespace(s) < s.len() ==> !is_whitespace_spec(s[leading_whitespace(s)]),
    decreases s.len(),
{
    if s.len() > 0 && is_whitespace_spec(s[0]) {
        let t = s.drop_first();
        lemma_leading_whitespace_is(t);
        assert forall|k: int| 0 <= k < leading_whitespace(s) implies is_whitespace_spec(
            #[trigger] s[k],
        ) by {
            if k > 0 {
                assert(s[k] == t[k - 1]);
            }
        }
        if leading_whitespace(s) < s.len() {
            assert(s[leading_whitespace(s)] == t[leading_whitespace(t)]);
        }
    }
}

/// The trailing whitespace of `s` is whitespace, and the character before
/// it is not.
pub proof fn lemma_trailing_whitespace_is(s: Seq<char>)
    ensures
        0 <= trailing_whitespace(s) <= s.len(),
        forall|k: int|
            s.len() - trailing_whitespace(s) <= k < s.len() ==> is_whitespace_spec(
                #[trigger] s[k],
            ),
        trailing_whitespace(s) < s.len() ==> !is_whitespace_spec(
            s[s.len() - trailing_whitespace(s) - 1],
        ),
    decreases s.len(),
{
    if s.len() > 0 && is_whitespace_spec(s.last()) {
        let t = s.drop_last();
        lemma_trailing_whitespace_is(t);
        assert forall|k: int|
            s.len() - trailing_whitespace(s) <= k < s.len() implies is_whitespace_spec(
            #[trigger] s[k],
        ) by {
            if k < t.len() {
                assert(s[k] == t[k]);
            }
        }
        if trailing_whitespace(s) < s.len() {
            assert(s[s.len() - trailing_whitespace(s) - 1] == t[t.len() - trailing_whitespace(t)
                - 1]);
        }
    }
}

/// Stripping the left end and then the right end gives what stripping both
/// ends at once gives.
pub proof fn law_strip_is_lstrip_then_rstrip(v: NormalizedView)
    requires
        v.wf(),
    ensures
        v.lstripped().rstripped() == v.stripped(),
{
    let s = v.normalized;
    let n = s.len() as int;
    let lead = leading_whitespace(s);
    let trail = trailing_whitespace(s);
    lemma_leading_whitespace_is(s);
    lemma_trailing_whitespace_is(s);
    let t = s.subrange(lead, n);
    assert(v.lstripped().normalized == t);
    if lead == n {
        assert(trailing_whitespace(t) == 0);
        assert(v.lstripped().rstripped().normalized =~= v.stripped().normalized);
        assert(v.lstripped().rstripped().alignments =~= v.stripped().alignments);
    } else {
        // the character at `lead` is no whitespace, so the trailing
        // whitespace starts behind it
        if n - trail <= lead {
            assert(is_whitespace_spec(s[lead]));
        }
        assert forall|k: int| t.len() - trail <= k < t.len() implies is_whitespace_spec(
            #[trigger] t[k],
        ) by {
            assert(t[k] == s[lead + k]);
        }
        assert(t[t.len() - trail - 1] == s[n - trail - 1]);
        lemma_trailing_whitespace(t, trail);
        assert(v.lstripped().rstripped().normalized =~= v.stripped().normalized);
        assert(v.lstripped().rstripped().alignments =~= v.stripped().alignments);
    }
}

} // verus!
