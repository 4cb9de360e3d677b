//! Splitting a normalized string at the matches of a pattern.
//!
//! The spans that a pattern finds are first gathered into segments, as the
//! chosen behaviour says; each segment then becomes a normalized string of
//! its own.

use crate::alignment::NormalizedView;
use crate::error::NormalizedError;
use crate::normalized::PyNormalizedString;
use crate::offsets::{
    byte_len, byte_offsets, char_index, chars_of, find_boundary, is_boundary, is_offset_table,
    lemma_byte_offset_ends, lemma_byte_offset_monotone, lemma_byte_offset_order, lemma_char_index,
};
use crate::pattern::{is_chain, is_partition, PyPattern};
use vstd::prelude::*;
use vstd::string::StringExecFns;

verus! {

/// What becomes of the spans that match, when a text is split.
#[derive(Clone, Copy, Debug, PartialEq, Eq, Structural)]
pub enum SplitDelimiterBehavior {
    /// A match is dropped; the spans between matches are the segments.
    Removed,
    /// Every span is a segment, match or not.
    Isolated,
    /// A match is added to the end of the segment before it; the first
    /// segment may be a match alone.
    MergedWithPrevious,
    /// A match is put before the segment that follows it; the last segment
    /// may be a match alone.
    MergedWithNext,
    /// Spans of one kind that follow one another are one segment.
    Contiguous,
}

/// A behaviour as a caller names it.
#[derive(Clone, Copy, Debug, PartialEq, Eq, Structural)]
pub struct PySplitDelimiterBehavior(pub SplitDelimiterBehavior);

impl PySplitDelimiterBehavior {
    /// The behaviour that `name` stands for, if it is the name of one.
    pub open spec fn named(name: Seq<char>) -> Option<PySplitDelimiterBehavior> {
        if name == "removed"@ {
            Some(PySplitDelimiterBehavior(SplitDelimiterBehavior::Removed))
        } else if name == "isolated"@ {
            Some(PySplitDelimiterBehavior(SplitDelimiterBehavior::Isolated))
        } else if name == "merged_with_previous"@ {
            Some(PySplitDelimiterBehavior(SplitDelimiterBehavior::MergedWithPrevious))
        } else if name == "merged_with_next"@ {
            Some(PySplitDelimiterBehavior(SplitDelimiterBehavior::MergedWithNext))
        } else if name == "contiguous"@ {
            Some(PySplitDelimiterBehavior(SplitDelimiterBehavior::Contiguous))
        } else {
            None
        }
    }

    /// Reads a behaviour from its name: one of `removed`, `isolated`,
    /// `merged_with_previous`, `merged_with_next` and `contiguous`.
    pub fn from_name(name: &str) -> (r: Option<PySplitDelimiterBehavior>)
        ensures
            r == Self::named(name@),
    {
        let name = String::from_str(name);
        if name == String::from_str("removed") {
            Some(PySplitDelimiterBehavior(SplitDelimiterBehavior::Removed))
        } else if name == String::from_str("isolated") {
            Some(PySplitDelimiterBehavior(SplitDelimiterBehavior::Isolated))
        } else if name == String::from_str("merged_with_previous") {
            Some(PySplitDelimiterBehavior(SplitDelimiterBehavior::MergedWithPrevious))
        } else if name == String::from_str("merged_with_next") {
            Some(PySplitDelimiterBehavior(SplitDelimiterBehavior::MergedWithNext))
        } else if name == String::from_str("contiguous") {
            Some(PySplitDelimiterBehavior(SplitDelimiterBehavior::Contiguous))
        } else {
            None
        }
    }
}

impl From<PySplitDelimiterBehavior> for SplitDelimiterBehavior {
    fn from(v: PySplitDelimiterBehavior) -> (r: Self) {
        v.0
    }
}

impl vstd::std_specs::convert::FromSpecImpl<PySplitDelimiterBehavior> for SplitDelimiterBehavior {
    open spec fn obeys_from_spec() -> bool {
        true
    }

    open spec fn from_spec(v: PySplitDelimiterBehavior) -> Self {
        v.0
    }
}

impl From<SplitDelimiterBehavior> for PySplitDelimiterBehavior {
    fn from(v: SplitDelimiterBehavior) -> (r: Self) {
        PySplitDelimiterBehavior(v)
    }
}

impl vstd::std_specs::convert::FromSpecImpl<SplitDelimiterBehavior> for PySplitDelimiterBehavior {
    open spec fn obeys_from_spec() -> bool {
        true
    }

    open spec fn from_spec(v: SplitDelimiterBehavior) -> Self {
        PySplitDelimiterBehavior(v)
    }
}

/// Whether the last span that is not empty among the first `k` spans is a
/// match; `false` where there is none.
pub open spec fn last_flag(spans: Seq<((usize, usize), bool)>, k: int) -> bool
    decreases k,
{
    if k <= 0 {
        false
    } else if spans[k - 1].0.0 < spans[k - 1].0.1 {
        spans[k - 1].1
    } else {
        last_flag(spans, k - 1)
    }
}

/// Whether `span`, which is not empty and comes after segments that end with
/// a match or not as `after_match` says, is added to the last of them
/// rather than starting a segment of its own.
pub open spec fn joins(
    behavior: SplitDelimiterBehavior,
    after_match: bool,
    is_match: bool,
) -> bool {
    match behavior {
        SplitDelimiterBehavior::Removed => false,
        SplitDelimiterBehavior::Isolated => false,
        SplitDelimiterBehavior::MergedWithPrevious => is_match,
        SplitDelimiterBehavior::MergedWithNext => after_match,
        SplitDelimiterBehavior::Contiguous => after_match == is_match,
    }
}

/// The segments that the first `k` spans give. An empty span gives nothing,
/// and under `Removed` a match gives nothing; any other span is added to
/// the last segment where `joins` says so and there is one, and is a new
/// segment otherwise.
pub open spec fn grouped(
    spans: Seq<((usize, usize), bool)>,
    behavior: SplitDelimiterBehavior,
    k: int,
) -> Seq<(usize, usize)>
    decreases k,
{
    if k <= 0 {
        Seq::empty()
    } else {
        let before = grouped(spans, behavior, k - 1);
        let span = spans[k - 1];
        if span.0.0 >= span.0.1 {
            before
        } else if behavior == SplitDelimiterBehavior::Removed && span.1 {
            before
        } else if before.len() > 0 && joins(behavior, last_flag(spans, k - 1), span.1) {
            before.update(before.len() - 1, (before.last().0, span.0.1))
        } else {
            before.push(span.0)
        }
    }
}

/// The segments that the spans give under `behavior`, from left to right.
pub open spec fn segments(
    spans: Seq<((usize, usize), bool)>,
    behavior: SplitDelimiterBehavior,
) -> Seq<(usize, usize)> {
    grouped(spans, behavior, spans.len() as int)
}

/// Every segment holds at least one byte and starts and ends between
/// characters of `text`; the segments follow one another without overlap,
/// and none reaches past byte `end`.
pub open spec fn valid_segments(segs: Seq<(usize, usize)>, text: Seq<char>, end: int) -> bool {
    &&& forall|i: int|
        0 <= i < segs.len() ==> {
            &&& (#[trigger] segs[i]).0 < segs[i].1
            &&& is_boundary(text, segs[i].0 as int)
            &&& is_boundary(text, segs[i].1 as int)
        }
    &&& forall|i: int, j: int|
        0 <= i && j == i + 1 && j < segs.len() ==> (#[trigger] segs[i]).1 <= (#[trigger] segs[j]).0
    &&& segs.len() > 0 ==> segs.last().1 <= end
}

/// The segments leave nothing out: the first starts where the text starts,
/// each starts where the one before it ends, and the last ends at byte
/// `end`.
pub open spec fn covers(segs: Seq<(usize, usize)>, end: int) -> bool {
    &&& segs.len() == 0 ==> end == 0
    &&& segs.len() > 0 ==> segs[0].0 == 0 && segs.last().1 == end
    &&& forall|i: int, j: int|
        0 <= i && j == i + 1 && j < segs.len() ==> (#[trigger] segs[i]).1 == (#[trigger] segs[j]).0
}

/// The byte at which the first `k` spans of a chain end.
pub open spec fn end_of(spans: Seq<((usize, usize), bool)>, k: int) -> int {
    if k <= 0 {
        0
    } else {
        spans[k - 1].0.1 as int
    }
}

/// The segments of the first `k` spans of a chain are valid, and but for
/// `Removed` they leave nothing out.
pub proof fn lemma_grouped(
    spans: Seq<((usize, usize), bool)>,
    text: Seq<char>,
    end: int,
    behavior: SplitDelimiterBehavior,
    k: int,
)
    requires
        is_chain(spans, text, end),
        0 <= k <= spans.len(),
    ensures
        valid_segments(grouped(spans, behavior, k), text, end_of(spans, k)),
        behavior != SplitDelimiterBehavior::Removed ==> covers(
            grouped(spans, behavior, k),
            end_of(spans, k),
        ),
    decreases k,
{
    reveal(is_chain);
    if k > 0 {
        lemma_grouped(spans, text, end, behavior, k - 1);
        let before = grouped(spans, behavior, k - 1);
        let after = grouped(spans, behavior, k);
        let span = spans[k - 1];
        if k > 1 {
            assert(spans[k - 2].0.1 == spans[k - 1].0.0);
        }
        assert(end_of(spans, k - 1) == span.0.0);
        if span.0.0 >= span.0.1 {
        } else if behavior == SplitDelimiterBehavior::Removed && span.1 {
        } else if before.len() > 0 && joins(behavior, last_flag(spans, k - 1), span.1) {
            let n = before.len() as int;
            assert forall|i: int| 0 <= i < after.len() implies {
                &&& (#[trigger] after[i]).0 < after[i].1
                &&& is_boundary(text, after[i].0 as int)
                &&& is_boundary(text, after[i].1 as int)
            } by {
                if i < n - 1 {
                    assert(after[i] == before[i]);
                } else {
                    assert(after[i].0 == before[i].0);
                }
            }
            assert forall|i: int, j: int| 0 <= i && j == i + 1 && j < after.len() implies (
            #[trigger] after[i]).1 <= (#[trigger] after[j]).0 by {
                assert(after[i] == before[i]);
                assert(after[j].0 == before[j].0);
            }
            if behavior != SplitDelimiterBehavior::Removed {
                assert forall|i: int, j: int| 0 <= i && j == i + 1 && j < after.len() implies (
                #[trigger] after[i]).1 == (#[trigger] after[j]).0 by {
                    assert(after[i] == before[i]);
                    assert(after[j].0 == before[j].0);
                }
                assert(after[0].0 == before[0].0);
            }
        } else {
            let n = before.len() as int;
            assert forall|i: int| 0 <= i < after.len() implies {
                &&& (#[trigger] after[i]).0 < after[i].1
                &&& is_boundary(text, after[i].0 as int)
                &&& is_boundary(text, after[i].1 as int)
            } by {
                if i < n {
                    assert(after[i] == before[i]);
                }
            }
            assert forall|i: int, j: int| 0 <= i && j == i + 1 && j < after.len() implies (
            #[trigger] after[i]).1 <= (#[trigger] after[j]).0 by {
                assert(after[i] == before[i]);
                if j < n {
                    assert(after[j] == before[j]);
                }
            }
            if behavior != SplitDelimiterBehavior::Removed {
                assert forall|i: int, j: int| 0 <= i && j == i + 1 && j < after.len() implies (
                #[trigger] after[i]).1 == (#[trigger] after[j]).0 by {
                    assert(after[i] == before[i]);
                    if j < n {
                        assert(after[j] == before[j]);
                    }
                }
                if n > 0 {
                    assert(after[0] == before[0]);
                }
            }
        }
    }
}

/// Gathers the spans into segments, as `behavior` says.
pub fn group_spans(spans: &Vec<((usize, usize), bool)>, behavior: SplitDelimiterBehavior) -> (out:
    Vec<(usize, usize)>)
    ensures
        out@ == segments(spans@, behavior),
{
    let mut out: Vec<(usize, usize)> = Vec::new();
    let mut after_match = false;
    let mut k: usize = 0;
    while k < spans.len()
        invariant
            k <= spans.len(),
            out@ == grouped(spans@, behavior, k as int),
            after_match == last_flag(spans@, k as int),
        decreases spans.len() - k,
    {
        let span = spans[k];
        if span.0.0 < span.0.1 {
            let dropped = match behavior {
                SplitDelimiterBehavior::Removed => span.1,
                _ => false,
            };
            if !dropped {
                let joined = match behavior {
                    SplitDelimiterBehavior::Removed => false,
                    SplitDelimiterBehavior::Isolated => false,
                    SplitDelimiterBehavior::MergedWithPrevious => span.1,
                    SplitDelimiterBehavior::MergedWithNext => after_match,
                    SplitDelimiterBehavior::Contiguous => after_match == span.1,
                };
                if joined && out.len() > 0 {
                    let last = out.len() - 1;
                    let start = out[last].0;
                    out.set(last, (start, span.0.1));
                } else {
                    out.push(span.0);
                }
            }
            after_match = span.1;
        }
        k += 1;
    }
    out
}

/// The views of some normalized strings, in order.
pub open spec fn part_views(parts: Seq<PyNormalizedString>) -> Seq<NormalizedView> {
    Seq::new(parts.len(), |i: int| parts[i]@)
}

/// What splitting `v` at `spans` gives: for each segment, the slice of `v`
/// that holds its characters.
pub open spec fn split_views(
    v: NormalizedView,
    spans: Seq<((usize, usize), bool)>,
    behavior: SplitDelimiterBehavior,
) -> Seq<NormalizedView> {
    let segs = segments(spans, behavior);
    Seq::new(
        segs.len(),
        |i: int|
            v.slice(
                char_index(v.normalized, segs[i].0 as int),
                char_index(v.normalized, segs[i].1 as int),
            ),
    )
}

/// The normalized texts of `parts`, one after the other.
pub open spec fn concat_normalized(parts: Seq<NormalizedView>) -> Seq<char>
    decreases parts.len(),
{
    if parts.len() == 0 {
        Seq::empty()
    } else {
        concat_normalized(parts.drop_last()) + parts.last().normalized
    }
}

/// The texts of the first `m` parts of a split that leaves nothing out are
/// the text up to the end of segment `m - 1`.
proof fn lemma_concat_prefix(
    v: NormalizedView,
    spans: Seq<((usize, usize), bool)>,
    behavior: SplitDelimiterBehavior,
    m: int,
)
    requires
        valid_segments(segments(spans, behavior), v.normalized, byte_len(v.normalized) as int),
        covers(segments(spans, behavior), byte_len(v.normalized) as int),
        0 <= m <= segments(spans, behavior).len(),
    ensures
        m == 0 ==> concat_normalized(split_views(v, spans, behavior).take(m)) == Seq::<
            char,
        >::empty(),
        m > 0 ==> concat_normalized(split_views(v, spans, behavior).take(m))
            == v.normalized.take(
            char_index(v.normalized, segments(spans, behavior)[m - 1].1 as int),
        ),
    decreases m,
{
    let text = v.normalized;
    let segs = segments(spans, behavior);
    let views = split_views(v, spans, behavior);
    if m > 0 {
        lemma_concat_prefix(v, spans, behavior, m - 1);
        assert(views.take(m).drop_last() =~= views.take(m - 1));
        assert(views.take(m).last() == views[m - 1]);
        let a = char_index(text, segs[m - 1].0 as int);
        let b = char_index(text, segs[m - 1].1 as int);
        assert(is_boundary(text, segs[m - 1].0 as int));
        assert(is_boundary(text, segs[m - 1].1 as int));
        lemma_byte_offset_order(text, a, b);
        if m == 1 {
            lemma_byte_offset_ends(text);
            lemma_char_index(text, 0);
            assert(a == 0);
            assert(Seq::<char>::empty() + text.subrange(a, b) =~= text.take(b));
        } else {
            assert(segs[m - 2].1 == segs[m - 1].0);
            assert(text.take(a) + text.subrange(a, b) =~= text.take(b));
        }
    }
}

/// Splitting loses nothing unless matches are removed: the normalized texts
/// of the parts, one after the other, are the normalized text that was
/// split.
pub proof fn law_split_loses_nothing(
    v: NormalizedView,
    spans: Seq<((usize, usize), bool)>,
    behavior: SplitDelimiterBehavior,
)
    requires
        is_partition(spans, v.normalized),
        behavior != SplitDelimiterBehavior::Removed,
    ensures
        concat_normalized(split_views(v, spans, behavior)) == v.normalized,
{
    let text = v.normalized;
    let segs = segments(spans, behavior);
    let views = split_views(v, spans, behavior);
    lemma_grouped(spans, text, byte_len(text) as int, behavior, spans.len() as int);
    assert(end_of(spans, spans.len() as int) == byte_len(text)) by {
        reveal(is_chain);
    }
    lemma_concat_prefix(v, spans, behavior, segs.len() as int);
    assert(views.take(segs.len() as int) =~= views);
    lemma_byte_offset_ends(text);
    lemma_byte_offset_monotone(text, 0, text.len() as int);
    if segs.len() == 0 {
        assert(text =~= Seq::<char>::empty());
    } else {
        lemma_char_index(text, text.len() as int);
        assert(text.take(text.len() as int) =~= text);
    }
}

impl PyNormalizedString {
    /// Splits the string at `spans`, which divide its normalized text: the
    /// spans are gathered into segments as `behavior` says, and each segment
    /// becomes a normalized string of its own. The string itself stays as it
    /// is.
    pub fn split_with(
        &self,
        spans: &Vec<((usize, usize), bool)>,
        behavior: SplitDelimiterBehavior,
    ) -> (parts: Vec<PyNormalizedString>)
        requires
            self.wf(),
            is_partition(spans@, self@.normalized),
        ensures
            part_views(parts@) == split_views(self@, spans@, behavior),
            forall|i: int| 0 <= i < parts@.len() ==> (#[trigger] parts@[i]).wf(),
    {
        let segs = group_spans(spans, behavior);
        let chars = chars_of(self.get_normalized());
        let positions = byte_offsets(&chars);
        let source = chars_of(self.get_original());
        let table = byte_offsets(&source);
        proof {
            lemma_grouped(
                spans@,
                self@.normalized,
                byte_len(self@.normalized) as int,
                behavior,
                spans.len() as int,
            );
        }
        let mut parts: Vec<PyNormalizedString> = Vec::new();
        let mut i: usize = 0;
        while i < segs.len()
            invariant
                i <= segs.len(),
                self.wf(),
                segs@ == segments(spans@, behavior),
                chars@ == self@.normalized,
                source@ == self@.original,
                is_offset_table(positions@, chars@),
                is_offset_table(table@, source@),
                forall|k: int|
                    0 <= k < segs.len() ==> {
                        &&& (#[trigger] segs@[k]).0 < segs@[k].1
                        &&& is_boundary(chars@, segs@[k].0 as int)
                        &&& is_boundary(chars@, segs@[k].1 as int)
                    },
                parts.len() == i,
                forall|k: int| 0 <= k < i ==> (#[trigger] parts@[k]).wf(),
                forall|k: int|
                    0 <= k < i ==> (#[trigger] parts@[k])@ == split_views(
                        self@,
                        spans@,
                        behavior,
                    )[k],
            decreases segs.len() - i,
        {
            let seg = segs[i];
            assert(seg == segs@[i as int]);
            // both ends of a segment are boundaries of the text, so both are found
            let start = match find_boundary(&chars, &positions, seg.0) {
                Some(k) => k,
                None => 0,
            };
            let end = match find_boundary(&chars, &positions, seg.1) {
                Some(k) => k,
                None => start,
            };
            proof {
                lemma_byte_offset_order(chars@, start as int, end as int);
            }
            let part = self.slice_with(&chars, &source, &table, start, end);
            parts.push(part);
            i += 1;
        }
        assert(part_views(parts@) =~= split_views(self@, spans@, behavior));
        parts
    }

    /// Splits the string at the spans that `pattern` finds in its normalized
    /// text. A literal never fails; where the engine of a regular expression
    /// fails, the error is `PatternError`. The string itself stays as it is.
    pub fn split(&self, pattern: PyPattern, behavior: PySplitDelimiterBehavior) -> (r: Result<
        Vec<PyNormalizedString>,
        NormalizedError,
    >)
        requires
            self.wf(),
        ensures
            match pattern.partition(self@.normalized) {
                Some(spans) => {
                    &&& is_partition(spans, self@.normalized)
                    &&& r matches Ok(parts) && part_views(parts@) == split_views(
                        self@,
                        spans,
                        behavior.0,
                    )
                },
                None => r matches Err(e) && e == NormalizedError::PatternError,
            },
            r matches Ok(parts) ==> forall|i: int|
                0 <= i < parts@.len() ==> (#[trigger] parts@[i]).wf(),
    {
        match pattern.find_matches(self.get_normalized()) {
            Ok(spans) => Ok(self.split_with(&spans, behavior.0)),
            Err(e) => Err(e),
        }
    }
}

} // verus!
