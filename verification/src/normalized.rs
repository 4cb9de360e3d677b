//! The normalized string and the operations that change it.

use core::ops::Range;
use crate::alignment::{
    changes_fit, consumed, identity_alignments, lemma_consumed_monotone, lemma_fresh_wf,
    lemma_leading_whitespace, lemma_slice_wf, lemma_span_union, lemma_subrange_valid,
    lemma_trailing_whitespace, retain, span_union, taken, transformed_alignment, valid_alignments,
    valid_span, NormalizedView,
};
use crate::error::NormalizedError;
use crate::laws::law_settled_text;
use crate::offsets::{
    byte_offset, byte_offsets, bytes_to_char, bytes_to_char_spec, char_to_bytes, chars_of,
    find_boundary, is_boundary, is_offset_table, is_whitespace, is_whitespace_spec,
    lemma_byte_offset_ends, lemma_byte_offset_monotone, lemma_byte_offset_order, lemma_char_index,
    string_of,
};
use crate::range::PyRange;
use crate::unicode::{
    changed_text, compose_canonical, compose_compatible, decompose_canonical, decompose_compatible,
    nfc_changes, nfd_changes, nfkc_changes, nfkd_changes, to_lowercase, to_uppercase,
};
use vstd::prelude::*;
use vstd::string::StringExecFns;

verus! {

/// A text that is being normalized. It keeps the text as it first was, the
/// text as it now is, and the alignment between the two: for each character
/// of the latter, the range of bytes of the former that it comes from.
pub struct PyNormalizedString {
    original: String,
    normalized: String,
    alignments: Vec<(usize, usize)>,
}

impl View for PyNormalizedString {
    type V = NormalizedView;

    closed spec fn view(&self) -> NormalizedView {
        NormalizedView {
            original: self.original@,
            normalized: self.normalized@,
            alignments: self.alignments@,
        }
    }
}

impl Clone for PyNormalizedString {
    /// A copy of the string, which shares nothing with it.
    fn clone(&self) -> (r: Self)
        ensures
            r@ == self@,
    {
        let mut alignments: Vec<(usize, usize)> = Vec::new();
        let mut i: usize = 0;
        while i < self.alignments.len()
            invariant
                i <= self.alignments.len(),
                alignments@ == self.alignments@.take(i as int),
            decreases self.alignments.len() - i,
        {
            alignments.push(self.alignments[i]);
            assert(alignments@ == self.alignments@.take(i + 1));
            i += 1;
        }
        assert(alignments@ == self.alignments@);
        PyNormalizedString {
            original: self.original.clone(),
            normalized: self.normalized.clone(),
            alignments,
        }
    }
}

/// Whether `keep` holds, for each character of `chars`, a flag that the
/// predicate `f` can answer for it.
pub open spec fn filter_answers<F: Fn(char) -> Option<bool>>(
    f: F,
    chars: Seq<char>,
    keep: Seq<bool>,
) -> bool {
    &&& keep.len() == chars.len()
    &&& forall|i: int|
        0 <= i < chars.len() ==> call_ensures(f, (chars[i],), Some(#[trigger] keep[i]))
}

/// Whether the transformation `f` can answer `c` with a string that holds
/// `to` and nothing else.
pub open spec fn maps_char<F: Fn(char) -> Option<String>>(f: F, c: char, to: char) -> bool {
    exists|s: String| #[trigger] call_ensures(f, (c,), Some(s)) && s@ == seq![to]
}

/// Whether `to` holds, for each character of `chars`, a character that the
/// transformation `f` can answer for it.
pub open spec fn map_answers<F: Fn(char) -> Option<String>>(
    f: F,
    chars: Seq<char>,
    to: Seq<char>,
) -> bool {
    &&& to.len() == chars.len()
    &&& forall|i: int| 0 <= i < chars.len() ==> maps_char(f, chars[i], #[trigger] to[i])
}

/// Whether the predicate `f` can answer for each character before
/// character `i`, and fail to answer for character `i`.
pub open spec fn filter_fails_at<F: Fn(char) -> Option<bool>>(
    f: F,
    chars: Seq<char>,
    i: int,
) -> bool {
    &&& 0 <= i < chars.len()
    &&& call_ensures(f, (chars[i],), None)
    &&& exists|keep: Seq<bool>| #[trigger] filter_answers(f, chars.take(i), keep)
}

/// Whether the transformation `f` can answer with one character for each
/// character before character `i`, and for character `i` fail in the way
/// that `e` names: with no string at all (`CallbackError`), or with a string
/// that does not hold exactly one character (`ContractViolation`).
pub open spec fn map_fails_at<F: Fn(char) -> Option<String>>(
    f: F,
    chars: Seq<char>,
    i: int,
    e: NormalizedError,
) -> bool {
    &&& 0 <= i < chars.len()
    &&& exists|to: Seq<char>| #[trigger] map_answers(f, chars.take(i), to)
    &&& match e {
        NormalizedError::CallbackError => call_ensures(f, (chars[i],), None),
        NormalizedError::ContractViolation => exists|s: String|
            #[trigger] call_ensures(f, (chars[i],), Some(s)) && s@.len() != 1,
        _ => false,
    }
}

/// Whether the observer `f` can accept each character before character `i`,
/// and fail on character `i`.
pub open spec fn for_each_fails_at<F: Fn(char) -> Option<()>>(
    f: F,
    chars: Seq<char>,
    i: int,
) -> bool {
    &&& 0 <= i < chars.len()
    &&& call_ensures(f, (chars[i],), None)
    &&& forall|j: int| 0 <= j < i ==> call_ensures(f, (#[trigger] chars[j],), Some(()))
}

impl PyNormalizedString {
    /// The invariant that every operation keeps.
    pub open spec fn wf(&self) -> bool {
        self@.wf()
    }

    /// A normalized string made from `s`: both texts are `s`, and character
    /// `i` is aligned with the bytes that it occupies in `s`.
    pub fn new(s: &str) -> (r: Self)
        ensures
            r.wf(),
            r@ == NormalizedView::fresh(s@),
    {
        let chars = chars_of(s);
        let table = byte_offsets(&chars);
        let mut alignments: Vec<(usize, usize)> = Vec::new();
        let mut i: usize = 0;
        while i < chars.len()
            invariant
                i <= chars.len(),
                is_offset_table(table@, chars@),
                alignments@ == identity_alignments(chars@).take(i as int),
            decreases chars.len() - i,
        {
            alignments.push((table[i], table[i + 1]));
            assert(alignments@ == identity_alignments(chars@).take(i + 1));
            i += 1;
        }
        proof {
            assert(identity_alignments(chars@).take(chars.len() as int) == identity_alignments(
                chars@,
            ));
            lemma_fresh_wf(s@);
        }
        PyNormalizedString {
            original: String::from_str(s),
            normalized: String::from_str(s),
            alignments,
        }
    }

    /// The text as it now is.
    pub fn get_normalized(&self) -> (s: &str)
        ensures
            s@ == self@.normalized,
    {
        self.normalized.as_str()
    }

    /// The text as it first was.
    pub fn get_original(&self) -> (s: &str)
        ensures
            s@ == self@.original,
    {
        self.original.as_str()
    }

    /// Both texts in one line, for a reader.
    pub fn repr(&self) -> (s: String)
        ensures
            s@ == "NormalizedString(original=\""@ + self@.original + "\", normalized=\""@
                + self@.normalized + "\")"@,
    {
        let mut s = String::from_str("NormalizedString(original=\"");
        s.append(self.original.as_str());
        s.append("\", normalized=\"");
        s.append(self.normalized.as_str());
        s.append("\")");
        s
    }

    /// Tells whether the invariant holds.
    pub fn is_valid(&self) -> (b: bool)
        ensures
            b == self.wf(),
    {
        let chars = chars_of(self.normalized.as_str());
        if chars.len() != self.alignments.len() {
            return false;
        }
        let source = chars_of(self.original.as_str());
        let table = byte_offsets(&source);
        let mut i: usize = 0;
        while i < self.alignments.len()
            invariant
                i <= self.alignments.len(),
                chars@ == self@.normalized,
                chars.len() == self.alignments.len(),
                source@ == self@.original,
                is_offset_table(table@, source@),
                forall|k: int| 0 <= k < i ==> valid_span(source@, #[trigger] self.alignments@[k]),
                forall|a: int, b: int|
                    0 <= a <= b < i ==> (#[trigger] self.alignments@[a]).0 <= (
                    #[trigger] self.alignments@[b]).0,
            decreases self.alignments.len() - i,
        {
            let span = self.alignments[i];
            if span.0 > span.1 {
                assert(!valid_span(source@, self.alignments@[i as int]));
                return false;
            }
            if find_boundary(&source, &table, span.0).is_none() {
                assert(!valid_span(source@, self.alignments@[i as int]));
                return false;
            }
            match find_boundary(&source, &table, span.1) {
                Some(k) => {
                    proof {
                        lemma_byte_offset_monotone(source@, k as int, source.len() as int);
                        lemma_byte_offset_ends(source@);
                    }
                },
                None => {
                    assert(!valid_span(source@, self.alignments@[i as int]));
                    return false;
                },
            }
            if i > 0 && self.alignments[i - 1].0 > span.0 {
                assert(self.alignments@[i - 1].0 > self.alignments@[i as int].0);
                return false;
            }
            assert forall|a: int, b: int| 0 <= a <= b < i + 1 implies (
            #[trigger] self.alignments@[a]).0 <= (#[trigger] self.alignments@[b]).0 by {
                if b == i && a < i {
                    assert(self.alignments@[a].0 <= self.alignments@[i - 1].0);
                }
            }
            i += 1;
        }
        true
    }

    /// For each character of the normalized text, the range of bytes of the
    /// original that it comes from.
    pub fn alignments(&self) -> (a: &Vec<(usize, usize)>)
        ensures
            a@ == self@.alignments,
    {
        &self.alignments
    }

    /// The number of characters of the normalized text.
    pub fn len(&self) -> (n: usize)
        requires
            self.wf(),
        ensures
            n == self@.normalized.len(),
    {
        self.alignments.len()
    }

    /// Puts another text with its alignments in the place of the normalized
    /// text.
    pub(crate) fn set_text(&mut self, chars: &Vec<char>, alignments: Vec<(usize, usize)>)
        requires
            chars.len() == alignments.len(),
            valid_alignments(old(self)@.original, alignments@),
        ensures
            final(self).wf(),
            final(self)@ == (NormalizedView {
                original: old(self)@.original,
                normalized: chars@,
                alignments: alignments@,
            }),
    {
        self.normalized = string_of(chars);
        self.alignments = alignments;
    }

    /// Puts `chars` in the place of the characters of the normalized text,
    /// one for one.
    pub fn map_with(&mut self, chars: &Vec<char>)
        requires
            old(self).wf(),
            chars.len() == old(self)@.normalized.len(),
        ensures
            final(self).wf(),
            final(self)@ == old(self)@.with_chars(chars@),
    {
        self.normalized = string_of(chars);
    }

    /// Replaces every character by the first character of its lowercase
    /// mapping. The alignments stay as they are.
    pub fn lowercase(&mut self)
        requires
            old(self).wf(),
        ensures
            final(self).wf(),
            final(self)@ == old(self)@.lowercased(),
    {
        let chars = chars_of(self.normalized.as_str());
        let mut lowered: Vec<char> = Vec::new();
        let mut i: usize = 0;
        while i < chars.len()
            invariant
                i <= chars.len(),
                chars@ == self@.normalized,
                lowered@ == self@.lowercased().normalized.take(i as int),
            decreases chars.len() - i,
        {
            let mapping = to_lowercase(chars[i]);
            lowered.push(mapping[0]);
            assert(lowered@ == self@.lowercased().normalized.take(i + 1));
            i += 1;
        }
        assert(lowered@ == self@.lowercased().normalized);
        self.map_with(&lowered);
    }

    /// Replaces every character by the first character of its uppercase
    /// mapping. The alignments stay as they are.
    pub fn uppercase(&mut self)
        requires
            old(self).wf(),
        ensures
            final(self).wf(),
            final(self)@ == old(self)@.uppercased(),
    {
        let chars = chars_of(self.normalized.as_str());
        let mut raised: Vec<char> = Vec::new();
        let mut i: usize = 0;
        while i < chars.len()
            invariant
                i <= chars.len(),
                chars@ == self@.normalized,
                raised@ == self@.uppercased().normalized.take(i as int),
            decreases chars.len() - i,
        {
            let mapping = to_uppercase(chars[i]);
            raised.push(mapping[0]);
            assert(raised@ == self@.uppercased().normalized.take(i + 1));
            i += 1;
        }
        assert(raised@ == self@.uppercased().normalized);
        self.map_with(&raised);
    }

    /// Puts `s` before the text. Its characters come from nowhere in the
    /// original: each gets the empty range at its start.
    pub fn prepend(&mut self, s: &str)
        requires
            old(self).wf(),
        ensures
            final(self).wf(),
            final(self)@ == old(self)@.prepended(s@),
    {
        let added = chars_of(s);
        let mut text = String::from_str(s);
        text.append(self.normalized.as_str());
        let mut alignments: Vec<(usize, usize)> = Vec::new();
        let mut i: usize = 0;
        while i < added.len()
            invariant
                i <= added.len(),
                alignments@ == Seq::new(i as nat, |k: int| (0usize, 0usize)),
            decreases added.len() - i,
        {
            alignments.push((0, 0));
            assert(alignments@ == Seq::new((i + 1) as nat, |k: int| (0usize, 0usize)));
            i += 1;
        }
        let mut j: usize = 0;
        while j < self.alignments.len()
            invariant
                j <= self.alignments.len(),
                alignments@ == Seq::new(added.len() as nat, |k: int| (0usize, 0usize))
                    + self.alignments@.take(j as int),
            decreases self.alignments.len() - j,
        {
            alignments.push(self.alignments[j]);
            assert(alignments@ == Seq::new(added.len() as nat, |k: int| (0usize, 0usize))
                + self.alignments@.take(j + 1));
            j += 1;
        }
        proof {
            assert(self.alignments@.take(self.alignments.len() as int) == self.alignments@);
            let old_al = self.alignments@;
            let n = added.len() as int;
            lemma_byte_offset_ends(self.original@);
            assert(byte_offset(self.original@, 0) == 0);
            assert(is_boundary(self.original@, 0));
            assert forall|k: int| 0 <= k < alignments@.len() implies valid_span(
                self.original@,
                #[trigger] alignments@[k],
            ) by {
                if k >= n {
                    assert(alignments@[k] == old_al[k - n]);
                }
            }
            assert forall|a: int, b: int| 0 <= a <= b < alignments@.len() implies (
            #[trigger] alignments@[a]).0 <= (#[trigger] alignments@[b]).0 by {
                if a >= n {
                    assert(alignments@[a] == old_al[a - n]);
                    assert(alignments@[b] == old_al[b - n]);
                }
            }
        }
        self.normalized = text;
        self.alignments = alignments;
    }

    /// Puts `s` after the text. Its characters come from nowhere in the
    /// original: each gets the empty range where the last character's range
    /// ends.
    pub fn append(&mut self, s: &str)
        requires
            old(self).wf(),
        ensures
            final(self).wf(),
            final(self)@ == old(self)@.appended(s@),
    {
        let added = chars_of(s);
        let n = self.alignments.len();
        let end: usize = if n == 0 {
            0
        } else {
            self.alignments[n - 1].1
        };
        let ghost before = self@;
        proof {
            lemma_byte_offset_ends(self.original@);
            assert(is_boundary(self.original@, byte_offset(self.original@, 0) as int));
            if n > 0 {
                assert(valid_span(self.original@, self.alignments@[n - 1]));
            }
            assert(valid_span(self.original@, (end, end)));
        }
        self.normalized.append(s);
        let mut i: usize = 0;
        while i < added.len()
            invariant
                i <= added.len(),
                added@ == s@,
                self.original@ == before.original,
                self.normalized@ == before.normalized + s@,
                before.alignments.len() == before.normalized.len(),
                self.alignments@ == before.alignments + Seq::new(
                    i as nat,
                    |k: int| before.end_span(),
                ),
                before.end_span() == (end, end),
                valid_span(before.original, (end, end)),
                valid_alignments(before.original, self.alignments@),
                forall|k: int|
                    0 <= k < self.alignments@.len() ==> (#[trigger] self.alignments@[k]).0 <= end,
            decreases added.len() - i,
        {
            let ghost prev = self.alignments@;
            self.alignments.push((end, end));
            proof {
                assert(self.alignments@ == before.alignments + Seq::new(
                    (i + 1) as nat,
                    |k: int| before.end_span(),
                ));
                assert forall|k: int| 0 <= k < self.alignments@.len() implies valid_span(
                    before.original,
                    #[trigger] self.alignments@[k],
                ) by {
                    if k < prev.len() {
                        assert(self.alignments@[k] == prev[k]);
                    }
                }
                assert forall|a: int, b: int|
                    0 <= a <= b < self.alignments@.len() implies (#[trigger] self.alignments@[a]).0
                    <= (#[trigger] self.alignments@[b]).0 by {
                    if b < prev.len() {
                        assert(self.alignments@[a] == prev[a]);
                        assert(self.alignments@[b] == prev[b]);
                    } else if a < prev.len() {
                        assert(self.alignments@[a] == prev[a]);
                    }
                }
            }
            i += 1;
        }
    }

    /// Keeps the characters `[start, end)` and their alignments.
    fn keep_range(&mut self, chars: &Vec<char>, start: usize, end: usize)
        requires
            old(self).wf(),
            chars@ == old(self)@.normalized,
            start <= end <= chars.len(),
        ensures
            final(self).wf(),
            final(self)@ == old(self)@.truncated(start as int, end as int),
    {
        let mut kept: Vec<char> = Vec::new();
        let mut alignments: Vec<(usize, usize)> = Vec::new();
        let mut i: usize = start;
        while i < end
            invariant
                start <= i <= end <= chars.len(),
                chars.len() == self.alignments.len(),
                kept@ == chars@.subrange(start as int, i as int),
                alignments@ == self.alignments@.subrange(start as int, i as int),
            decreases end - i,
        {
            kept.push(chars[i]);
            alignments.push(self.alignments[i]);
            assert(kept@ == chars@.subrange(start as int, i + 1));
            assert(alignments@ == self.alignments@.subrange(start as int, i + 1));
            i += 1;
        }
        proof {
            lemma_subrange_valid(self.original@, self.alignments@, start as int, end as int);
        }
        self.normalized = string_of(&kept);
        self.alignments = alignments;
    }

    /// Removes the whitespace at the start of the text.
    pub fn lstrip(&mut self)
        requires
            old(self).wf(),
        ensures
            final(self).wf(),
            final(self)@ == old(self)@.lstripped(),
    {
        let chars = chars_of(self.normalized.as_str());
        let lead = count_leading(&chars);
        self.keep_range(&chars, lead, chars.len());
    }

    /// Removes the whitespace at the end of the text.
    pub fn rstrip(&mut self)
        requires
            old(self).wf(),
        ensures
            final(self).wf(),
            final(self)@ == old(self)@.rstripped(),
    {
        let chars = chars_of(self.normalized.as_str());
        let trail = count_trailing(&chars);
        self.keep_range(&chars, 0, chars.len() - trail);
    }

    /// Removes the whitespace at both ends of the text.
    pub fn strip(&mut self)
        requires
            old(self).wf(),
        ensures
            final(self).wf(),
            final(self)@ == old(self)@.stripped(),
    {
        let chars = chars_of(self.normalized.as_str());
        let lead = count_leading(&chars);
        if lead == chars.len() {
            self.keep_range(&chars, lead, lead);
        } else {
            let trail = count_trailing(&chars);
            proof {
                // a character that is not whitespace stands at `lead`
                if chars.len() - trail < lead {
                    assert(is_whitespace_spec(chars@[lead as int]));
                }
            }
            self.keep_range(&chars, lead, chars.len() - trail);
        }
    }

    /// Keeps the characters whose flag in `keep` is set, with their
    /// alignments, and drops the others.
    pub fn filter_with(&mut self, keep: &Vec<bool>)
        requires
            old(self).wf(),
            keep.len() == old(self)@.normalized.len(),
        ensures
            final(self).wf(),
            final(self)@ == old(self)@.filtered(keep@),
    {
        let chars = chars_of(self.normalized.as_str());
        let mut kept: Vec<char> = Vec::new();
        let mut alignments: Vec<(usize, usize)> = Vec::new();
        let mut i: usize = 0;
        assert(chars@.take(0) =~= Seq::<char>::empty());
        assert(self.alignments@.take(0) =~= Seq::<(usize, usize)>::empty());
        while i < chars.len()
            invariant
                i <= chars.len(),
                self.wf(),
                chars@ == self@.normalized,
                keep.len() == chars.len(),
                kept@ == retain(chars@.take(i as int), keep@.take(i as int)),
                alignments@ == retain(self.alignments@.take(i as int), keep@.take(i as int)),
                valid_alignments(self.original@, alignments@),
                forall|k: int|
                    0 <= k < alignments@.len() && i > 0 ==> (#[trigger] alignments@[k]).0
                        <= self.alignments@[i - 1].0,
                alignments@.len() > 0 ==> i > 0,
            decreases chars.len() - i,
        {
            let ghost prev = alignments@;
            proof {
                assert(chars@.take(i + 1).drop_last() =~= chars@.take(i as int));
                assert(self.alignments@.take(i + 1).drop_last() =~= self.alignments@.take(
                    i as int,
                ));
                assert(keep@.take(i + 1).drop_last() =~= keep@.take(i as int));
                assert(valid_span(self.original@, self.alignments@[i as int]));
                if i > 0 {
                    assert(self.alignments@[i - 1].0 <= self.alignments@[i as int].0);
                }
            }
            if keep[i] {
                kept.push(chars[i]);
                alignments.push(self.alignments[i]);
                proof {
                    assert forall|k: int| 0 <= k < alignments@.len() implies valid_span(
                        self.original@,
                        #[trigger] alignments@[k],
                    ) by {
                        if k < prev.len() {
                            assert(alignments@[k] == prev[k]);
                        }
                    }
                    assert forall|a: int, b: int|
                        0 <= a <= b < alignments@.len() implies (#[trigger] alignments@[a]).0 <= (
                    #[trigger] alignments@[b]).0 by {
                        if b < prev.len() {
                            assert(alignments@[a] == prev[a]);
                            assert(alignments@[b] == prev[b]);
                        } else if a < prev.len() {
                            assert(alignments@[a] == prev[a]);
                        }
                    }
                }
            }
            i += 1;
        }
        proof {
            assert(chars@.take(chars.len() as int) =~= chars@);
            assert(self.alignments@.take(chars.len() as int) =~= self.alignments@);
            assert(keep@.take(chars.len() as int) =~= keep@);
            lemma_retain_len(chars@, self.alignments@, keep@);
        }
        self.normalized = string_of(&kept);
        self.alignments = alignments;
    }

    /// Asks `f` of every character, from left to right, whether to keep it,
    /// and drops those that it does not keep. Where `f` fails to answer, the
    /// text stays as it is.
    pub fn filter<F: Fn(char) -> Option<bool>>(&mut self, f: F) -> (r: Result<
        (),
        NormalizedError,
    >)
        requires
            old(self).wf(),
            forall|c: char| call_requires(f, (c,)),
        ensures
            final(self).wf(),
            match r {
                Ok(()) => exists|keep: Seq<bool>|
                    #[trigger] filter_answers(f, old(self)@.normalized, keep) && final(self)@
                        == old(self)@.filtered(keep),
                Err(e) => e == NormalizedError::CallbackError && final(self)@ == old(self)@
                    && exists|i: int| #[trigger] filter_fails_at(f, old(self)@.normalized, i),
            },
    {
        let chars = chars_of(self.normalized.as_str());
        let mut keep: Vec<bool> = Vec::new();
        let mut i: usize = 0;
        while i < chars.len()
            invariant
                i <= chars.len(),
                keep.len() == i,
                self.wf(),
                self@ == old(self)@,
                chars@ == self@.normalized,
                forall|c: char| call_requires(f, (c,)),
                forall|k: int|
                    0 <= k < i ==> call_ensures(f, (chars@[k],), Some(#[trigger] keep@[k])),
            decreases chars.len() - i,
        {
            match f(chars[i]) {
                Some(flag) => {
                    keep.push(flag);
                },
                None => {
                    assert(filter_answers(f, chars@.take(i as int), keep@));
                    assert(filter_fails_at(f, self@.normalized, i as int));
                    return Err(NormalizedError::CallbackError);
                },
            }
            i += 1;
        }
        assert(filter_answers(f, self@.normalized, keep@));
        self.filter_with(&keep);
        Ok(())
    }

    /// Asks `f` for the character to put in the place of each character,
    /// from left to right. The answer is a string, which must hold exactly
    /// one character. Where `f` fails to answer, or answers with more or
    /// less than one character, the text stays as it is.
    pub fn map<F: Fn(char) -> Option<String>>(&mut self, f: F) -> (r: Result<(), NormalizedError>)
        requires
            old(self).wf(),
            forall|c: char| call_requires(f, (c,)),
        ensures
            final(self).wf(),
            match r {
                Ok(()) => exists|to: Seq<char>|
                    #[trigger] map_answers(f, old(self)@.normalized, to) && final(self)@
                        == old(self)@.with_chars(to),
                Err(e) => final(self)@ == old(self)@ && exists|i: int|
                    #[trigger] map_fails_at(f, old(self)@.normalized, i, e),
            },
    {
        let chars = chars_of(self.normalized.as_str());
        let mut to: Vec<char> = Vec::new();
        let mut i: usize = 0;
        while i < chars.len()
            invariant
                i <= chars.len(),
                to.len() == i,
                self.wf(),
                self@ == old(self)@,
                chars@ == self@.normalized,
                forall|c: char| call_requires(f, (c,)),
                forall|k: int| 0 <= k < i ==> maps_char(f, chars@[k], #[trigger] to@[k]),
            decreases chars.len() - i,
        {
            match f(chars[i]) {
                Some(answer) => {
                    let given = chars_of(answer.as_str());
                    if given.len() != 1 {
                        assert(call_ensures(f, (self@.normalized[i as int],), Some(answer))
                            && answer@.len() != 1);
                        assert(map_answers(f, chars@.take(i as int), to@));
                        assert(map_fails_at(
                            f,
                            self@.normalized,
                            i as int,
                            NormalizedError::ContractViolation,
                        ));
                        return Err(NormalizedError::ContractViolation);
                    }
                    to.push(given[0]);
                    assert(call_ensures(f, (chars@[i as int],), Some(answer)) && answer@
                        == seq![given@[0]]);
                },
                None => {
                    assert(map_answers(f, chars@.take(i as int), to@));
                    assert(map_fails_at(
                        f,
                        self@.normalized,
                        i as int,
                        NormalizedError::CallbackError,
                    ));
                    return Err(NormalizedError::CallbackError);
                },
            }
            i += 1;
        }
        assert(map_answers(f, self@.normalized, to@));
        self.map_with(&to);
        Ok(())
    }

    /// Shows every character to `f`, from left to right, and stops at the
    /// first one that `f` fails on. Nothing is changed.
    pub fn for_each<F: Fn(char) -> Option<()>>(&self, f: F) -> (r: Result<(), NormalizedError>)
        requires
            forall|c: char| call_requires(f, (c,)),
        ensures
            match r {
                Ok(()) => forall|i: int|
                    0 <= i < self@.normalized.len() ==> call_ensures(
                        f,
                        (#[trigger] self@.normalized[i],),
                        Some(()),
                    ),
                Err(e) => e == NormalizedError::CallbackError && exists|i: int|
                    #[trigger] for_each_fails_at(f, self@.normalized, i),
            },
    {
        let chars = chars_of(self.normalized.as_str());
        let mut i: usize = 0;
        while i < chars.len()
            invariant
                i <= chars.len(),
                chars@ == self@.normalized,
                forall|c: char| call_requires(f, (c,)),
                forall|k: int| 0 <= k < i ==> call_ensures(f, (#[trigger] chars@[k],), Some(())),
            decreases chars.len() - i,
        {
            let answer = f(chars[i]);
            if answer.is_none() {
                assert(for_each_fails_at(f, self@.normalized, i as int));
                return Err(NormalizedError::CallbackError);
            }
            assert(answer == Some(()));
            i += 1;
        }
        Ok(())
    }

    /// Rebuilds the text from `changes`, which must account for each of its
    /// characters exactly once: see `transformed_alignment` for the
    /// alignment that each new character gets.
    pub fn transform(&mut self, changes: &Vec<(char, isize)>)
        requires
            old(self).wf(),
            changes_fit(changes@, old(self)@.normalized.len() as int),
        ensures
            final(self).wf(),
            final(self)@ == old(self)@.transformed(changes@),
    {
        let n = self.alignments.len();
        let mut chars: Vec<char> = Vec::new();
        let mut alignments: Vec<(usize, usize)> = Vec::new();
        let mut pos: usize = 0;
        let mut j: usize = 0;
        proof {
            lemma_byte_offset_ends(self.original@);
            assert(is_boundary(self.original@, byte_offset(self.original@, 0) as int));
        }
        while j < changes.len()
            invariant
                j <= changes.len(),
                self.wf(),
                n == self.alignments.len(),
                changes_fit(changes@, n as int),
                pos == consumed(changes@, j as int),
                pos <= n,
                chars@ == Seq::new(j as nat, |k: int| changes@[k].0),
                alignments@ == Seq::new(
                    j as nat,
                    |k: int| transformed_alignment(self.alignments@, changes@, k),
                ),
                valid_alignments(self.original@, alignments@),
                valid_span(self.original@, (0usize, 0usize)),
                forall|k: int|
                    0 <= k < j ==> (pos == 0 ==> (#[trigger] alignments@[k]).0 == 0) && (pos > 0
                        ==> alignments@[k].0 <= self.alignments@[pos - 1].0),
            decreases changes.len() - j,
        {
            let ghost prev = alignments@;
            let ghost old_pos = pos;
            let change = changes[j].1;
            let span = if change > 0 {
                if j == 0 {
                    (0, 0)
                } else {
                    alignments[j - 1]
                }
            } else {
                let t = taken_of(change);
                proof {
                    lemma_consumed_monotone(changes@, j + 1, changes.len() as int);
                    lemma_span_union(self.original@, self.alignments@, pos as int, pos + t);
                }
                let u = union_of(&self.alignments, pos, pos + t);
                pos = pos + t;
                u
            };
            chars.push(changes[j].0);
            alignments.push(span);
            proof {
                assert(chars@ == Seq::new((j + 1) as nat, |k: int| changes@[k].0));
                assert(alignments@ == Seq::new(
                    (j + 1) as nat,
                    |k: int| transformed_alignment(self.alignments@, changes@, k),
                ));
                assert forall|k: int| 0 <= k < alignments@.len() implies valid_span(
                    self.original@,
                    #[trigger] alignments@[k],
                ) by {
                    if k < prev.len() {
                        assert(alignments@[k] == prev[k]);
                    }
                }
                if change <= 0 && old_pos > 0 {
                    assert(self.alignments@[old_pos - 1].0 <= self.alignments@[old_pos as int].0);
                    assert(self.alignments@[old_pos as int].0 <= self.alignments@[pos - 1].0);
                }
                if change <= 0 && old_pos == 0 {
                    assert(self.alignments@[0].0 <= self.alignments@[pos - 1].0);
                }
                assert forall|a: int, b: int|
                    0 <= a <= b < alignments@.len() implies (#[trigger] alignments@[a]).0 <= (
                #[trigger] alignments@[b]).0 by {
                    if b < prev.len() {
                        assert(alignments@[a] == prev[a]);
                        assert(alignments@[b] == prev[b]);
                    } else if a < prev.len() {
                        assert(alignments@[a] == prev[a]);
                        if change > 0 {
                            assert(alignments@[b] == prev[j - 1]);
                        }
                    }
                }
                assert forall|k: int| 0 <= k < j + 1 implies (pos == 0 ==> (
                #[trigger] alignments@[k]).0 == 0) && (pos > 0 ==> alignments@[k].0
                    <= self.alignments@[pos - 1].0) by {
                    if k < j {
                        assert(alignments@[k] == prev[k]);
                    } else if change > 0 && j > 0 {
                        assert(alignments@[k] == prev[j - 1]);
                    }
                }
            }
            j += 1;
        }
        self.normalized = string_of(&chars);
        self.alignments = alignments;
    }

    /// Rebuilds the text from `changes` where they account for each of its
    /// characters exactly once, and leaves it as it is where they do not.
    pub fn apply_changes(&mut self, changes: &Vec<(char, isize)>)
        requires
            old(self).wf(),
        ensures
            final(self).wf(),
            final(self)@ == old(self)@.normalized_with(changes@),
    {
        if fits(changes, self.alignments.len()) {
            self.transform(changes);
        }
    }

    /// Brings the text into Unicode's normalization form D. Doing so once
    /// more leaves the text as it is.
    pub fn nfd(&mut self)
        requires
            old(self).wf(),
        ensures
            final(self).wf(),
            final(self)@ == old(self)@.normalized_with(nfd_changes(old(self)@.normalized)),
            final(self)@.normalized_with(nfd_changes(final(self)@.normalized)).normalized
                == final(self)@.normalized,
    {
        let changes = decompose_canonical(self.normalized.as_str());
        proof {
            law_settled_text(
                self@.transformed(changes@),
                nfd_changes(changed_text(changes@)),
            );
        }
        self.apply_changes(&changes);
    }

    /// Brings the text into Unicode's normalization form KD. Doing so once
    /// more leaves the text as it is.
    pub fn nfkd(&mut self)
        requires
            old(self).wf(),
        ensures
            final(self).wf(),
            final(self)@ == old(self)@.normalized_with(nfkd_changes(old(self)@.normalized)),
            final(self)@.normalized_with(nfkd_changes(final(self)@.normalized)).normalized
                == final(self)@.normalized,
    {
        let changes = decompose_compatible(self.normalized.as_str());
        proof {
            law_settled_text(
                self@.transformed(changes@),
                nfkd_changes(changed_text(changes@)),
            );
        }
        self.apply_changes(&changes);
    }

    /// Brings the text into Unicode's normalization form C. Doing so once
    /// more leaves the text as it is.
    pub fn nfc(&mut self)
        requires
            old(self).wf(),
        ensures
            final(self).wf(),
            final(self)@ == old(self)@.normalized_with(nfc_changes(old(self)@.normalized)),
            final(self)@.normalized_with(nfc_changes(final(self)@.normalized)).normalized
                == final(self)@.normalized,
    {
        let changes = compose_canonical(self.normalized.as_str());
        proof {
            law_settled_text(
                self@.transformed(changes@),
                nfc_changes(changed_text(changes@)),
            );
        }
        self.apply_changes(&changes);
    }

    /// Brings the text into Unicode's normalization form KC. Doing so once
    /// more leaves the text as it is.
    pub fn nfkc(&mut self)
        requires
            old(self).wf(),
        ensures
            final(self).wf(),
            final(self)@ == old(self)@.normalized_with(nfkc_changes(old(self)@.normalized)),
            final(self)@.normalized_with(nfkc_changes(final(self)@.normalized)).normalized
                == final(self)@.normalized,
    {
        let changes = compose_compatible(self.normalized.as_str());
        proof {
            law_settled_text(
                self@.transformed(changes@),
                nfkc_changes(changed_text(changes@)),
            );
        }
        self.apply_changes(&changes);
    }

    /// The characters `[start, end)` as a normalized string of their own: its
    /// original is the part of the original that the alignments of those
    /// characters cover together, and its alignments count from there.
    pub fn slice_chars(&self, start: usize, end: usize) -> (r: Self)
        requires
            self.wf(),
            start < end <= self@.normalized.len(),
        ensures
            r.wf(),
            r@ == self@.slice(start as int, end as int),
    {
        let chars = chars_of(self.normalized.as_str());
        let source = chars_of(self.original.as_str());
        let table = byte_offsets(&source);
        self.slice_with(&chars, &source, &table, start, end)
    }

    /// `slice_chars`, for a caller that holds the characters of both texts
    /// and the byte positions of the original already.
    pub(crate) fn slice_with(
        &self,
        chars: &Vec<char>,
        source: &Vec<char>,
        table: &Vec<usize>,
        start: usize,
        end: usize,
    ) -> (r: Self)
        requires
            self.wf(),
            start < end <= self@.normalized.len(),
            chars@ == self@.normalized,
            source@ == self@.original,
            is_offset_table(table@, source@),
        ensures
            r.wf(),
            r@ == self@.slice(start as int, end as int),
    {
        let u = union_of(&self.alignments, start, end);
        proof {
            lemma_span_union(self.original@, self.alignments@, start as int, end as int);
            lemma_slice_wf(self@, start as int, end as int);
        }
        // both ends of `u` are boundaries of the original, so both are found
        let from = match find_boundary(source, table, u.0) {
            Some(k) => k,
            None => 0,
        };
        let to = match find_boundary(source, table, u.1) {
            Some(k) => k,
            None => from,
        };
        proof {
            lemma_byte_offset_order(source@, from as int, to as int);
        }
        let mut original: Vec<char> = Vec::new();
        let mut k: usize = from;
        while k < to
            invariant
                from <= k <= to <= source.len(),
                original@ == source@.subrange(from as int, k as int),
            decreases to - k,
        {
            original.push(source[k]);
            assert(original@ == source@.subrange(from as int, k + 1));
            k += 1;
        }
        let mut normalized: Vec<char> = Vec::new();
        let mut alignments: Vec<(usize, usize)> = Vec::new();
        let mut i: usize = start;
        while i < end
            invariant
                start <= i <= end <= chars.len(),
                chars.len() == self.alignments.len(),
                normalized@ == chars@.subrange(start as int, i as int),
                alignments@ == self@.slice(start as int, end as int).alignments.take(i - start),
                self.wf(),
                u == span_union(self.alignments@, start as int, end as int),
                forall|k: int|
                    start <= k < end ==> u.0 <= (#[trigger] self.alignments@[k]).0
                        && self.alignments@[k].1 <= u.1,
            decreases end - i,
        {
            let a = self.alignments[i];
            assert(valid_span(self.original@, self.alignments@[i as int]));
            normalized.push(chars[i]);
            alignments.push((a.0 - u.0, a.1 - u.0));
            assert(normalized@ == chars@.subrange(start as int, i + 1));
            assert(alignments@ == self@.slice(start as int, end as int).alignments.take(
                i + 1 - start,
            ));
            i += 1;
        }
        assert(alignments@ == self@.slice(start as int, end as int).alignments);
        PyNormalizedString {
            original: string_of(&original),
            normalized: string_of(&normalized),
            alignments,
        }
    }

    /// What the alignments of the characters `[start, end)` cover together.
    pub(crate) fn union_in(&self, start: usize, end: usize) -> (u: (usize, usize))
        requires
            self.wf(),
            start < end <= self@.normalized.len(),
        ensures
            u == span_union(self@.alignments, start as int, end as int),
    {
        union_of(&self.alignments, start, end)
    }

    /// The bytes `[range.start, range.end)` of the normalized text as a
    /// normalized string of their own; `None` unless the range holds at
    /// least one character and starts and ends between characters.
    pub fn slice_bytes(&self, range: Range<usize>) -> (r: Option<Self>)
        requires
            self.wf(),
        ensures
            match bytes_to_char_spec(self@.normalized, range.start as int, range.end as int) {
                Some((start, end)) => if start < end {
                    r matches Some(part) && part.wf() && part@ == self@.slice(start, end)
                } else {
                    r is None
                },
                None => r is None,
            },
    {
        match bytes_to_char(self.normalized.as_str(), range) {
            Some(chars) => {
                if chars.start < chars.end {
                    Some(self.slice_chars(chars.start, chars.end))
                } else {
                    None
                }
            },
            None => None,
        }
    }

    /// The characters that `range` stands for as a normalized string of
    /// their own. A range that reaches past the end of the text is cut off
    /// there; `None` where no character of the text lies in the range.
    pub fn slice(&self, range: &PyRange) -> (r: Result<Option<Self>, NormalizedError>)
        requires
            self.wf(),
        ensures
            match range.resolve(self@.normalized.len() as int) {
                Some((start, end)) => {
                    let stop = if end < self@.normalized.len() {
                        end
                    } else {
                        self@.normalized.len() as int
                    };
                    if 0 <= start < stop {
                        r matches Ok(Some(part)) && part.wf() && part@ == self@.slice(start, stop)
                    } else {
                        r matches Ok(None)
                    }
                },
                None => r matches Err(e) && e == NormalizedError::RangeError,
            },
    {
        let chars = match range.to_range(self.len()) {
            Ok(chars) => chars,
            Err(e) => {
                return Err(e);
            },
        };
        let ghost first = chars.start as int;
        let ghost last = chars.end as int;
        match char_to_bytes(self.normalized.as_str(), chars) {
            Some(bytes) => {
                proof {
                    let n = self@.normalized.len() as int;
                    let stop = if last < n {
                        last
                    } else {
                        n
                    };
                    lemma_char_index(self@.normalized, first);
                    lemma_char_index(self@.normalized, stop);
                    lemma_byte_offset_monotone(self@.normalized, first, stop);
                }
                Ok(self.slice_bytes(bytes))
            },
            None => Ok(None),
        }
    }

    /// Empties the normalized text and its alignments. The original stays.
    pub fn clear(&mut self)
        requires
            old(self).wf(),
        ensures
            final(self).wf(),
            final(self)@ == old(self)@.cleared(),
    {
        self.normalized = String::new();
        self.alignments = Vec::new();
    }
}

/// Two sequences of one length keep equally many items under one `keep`.
proof fn lemma_retain_len<A, B>(a: Seq<A>, b: Seq<B>, keep: Seq<bool>)
    requires
        a.len() == b.len(),
    ensures
        retain(a, keep).len() == retain(b, keep).len(),
    decreases a.len(),
{
    if a.len() > 0 {
        lemma_retain_len(a.drop_last(), b.drop_last(), keep.drop_last());
    }
}

/// How many characters a character with this change takes the place of.
fn taken_of(change: isize) -> (t: usize)
    ensures
        t == taken(change),
{
    if change > 0 {
        0
    } else if change == 0 {
        1
    } else {
        let below: isize = -(change + 1);
        below as usize + 2
    }
}

/// Whether the changes account for each of `n` characters exactly once.
fn fits(changes: &Vec<(char, isize)>, n: usize) -> (b: bool)
    ensures
        b == changes_fit(changes@, n as int),
{
    let mut pos: usize = 0;
    let mut j: usize = 0;
    while j < changes.len()
        invariant
            j <= changes.len(),
            pos == consumed(changes@, j as int),
            pos <= n,
        decreases changes.len() - j,
    {
        let t = taken_of(changes[j].1);
        if t > n - pos {
            proof {
                lemma_consumed_monotone(changes@, j + 1, changes.len() as int);
            }
            return false;
        }
        pos += t;
        j += 1;
    }
    pos == n
}

/// The smallest range that covers the entries `[i, j)` of `al`.
fn union_of(al: &Vec<(usize, usize)>, i: usize, j: usize) -> (u: (usize, usize))
    requires
        i < j <= al.len(),
    ensures
        u == span_union(al@, i as int, j as int),
{
    let mut u = al[i];
    let mut k: usize = i + 1;
    while k < j
        invariant
            i < k <= j <= al.len(),
            u == span_union(al@, i as int, k as int),
        decreases j - k,
    {
        let a = al[k];
        u = (if a.0 < u.0 { a.0 } else { u.0 }, if a.1 > u.1 { a.1 } else { u.1 });
        k += 1;
    }
    u
}

/// Counts the whitespace characters at the start of `chars`.
fn count_leading(chars: &Vec<char>) -> (n: usize)
    ensures
        n == crate::alignment::leading_whitespace(chars@),
        n <= chars.len(),
        forall|k: int| 0 <= k < n ==> is_whitespace_spec(#[trigger] chars@[k]),
        n < chars.len() ==> !is_whitespace_spec(chars@[n as int]),
{
    let mut n: usize = 0;
    while n < chars.len() && is_whitespace(chars[n])
        invariant
            n <= chars.len(),
            forall|k: int| 0 <= k < n ==> is_whitespace_spec(#[trigger] chars@[k]),
        decreases chars.len() - n,
    {
        n += 1;
    }
    proof {
        lemma_leading_whitespace(chars@, n as int);
    }
    n
}

/// Counts the whitespace characters at the end of `chars`.
fn count_trailing(chars: &Vec<char>) -> (n: usize)
    ensures
        n == crate::alignment::trailing_whitespace(chars@),
        n <= chars.len(),
        forall|k: int|
            chars.len() - n <= k < chars.len() ==> is_whitespace_spec(#[trigger] chars@[k]),
        n < chars.len() ==> !is_whitespace_spec(chars@[chars.len() - n - 1]),
{
    let mut n: usize = 0;
    while n < chars.len() && is_whitespace(chars[chars.len() - n - 1])
        invariant
            n <= chars.len(),
            forall|k: int|
                chars.len() - n <= k < chars.len() ==> is_whitespace_spec(#[trigger] chars@[k]),
        decreases chars.len() - n,
    {
        n += 1;
    }
    proof {
        lemma_trailing_whitespace(chars@, n as int);
    }
    n
}

} // verus!
