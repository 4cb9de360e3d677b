//! Character and byte positions in UTF-8 text.
//!
//! Text is modelled as a sequence of characters. A byte position is a sum of
//! the UTF-8 widths of the characters before it; everything else in the crate
//! that speaks of byte ranges goes through `byte_offset`.

use core::ops::Range;
use vstd::prelude::*;
use vstd::utf8::{encode_scalar, encode_utf8};

verus! {

/// Number of bytes that the UTF-8 encoding of `c` takes.
pub open spec fn utf8_width(c: char) -> nat {
    if (c as u32) < 0x80 {
        1
    } else if (c as u32) < 0x800 {
        2
    } else if (c as u32) < 0x10000 {
        3
    } else {
        4
    }
}

/// Number of bytes that the UTF-8 encoding of `s` takes.
pub open spec fn byte_len(s: Seq<char>) -> nat
    decreases s.len(),
{
    if s.len() == 0 {
        0
    } else {
        byte_len(s.drop_last()) + utf8_width(s.last())
    }
}

/// Byte position at which character `k` of `s` starts; for `k == s.len()`,
/// the byte length of `s`.
pub open spec fn byte_offset(s: Seq<char>, k: int) -> nat {
    byte_len(s.take(k))
}

/// Whether byte position `b` falls between two characters of `s`, or at one
/// of its ends.
pub open spec fn is_boundary(s: Seq<char>, b: int) -> bool {
    exists|k: int| 0 <= k <= s.len() && #[trigger] byte_offset(s, k) == b
}

/// The character position that starts at byte position `b`, where `b` is a
/// boundary of `s`.
pub open spec fn char_index(s: Seq<char>, b: int) -> int {
    choose|k: int| 0 <= k <= s.len() && #[trigger] byte_offset(s, k) == b
}

/// The byte range that the characters `[start, end)` of `s` occupy, cut off
/// at the end of `s`; `None` where no character of `s` lies in the range.
pub open spec fn char_to_bytes_spec(s: Seq<char>, start: int, end: int) -> Option<(int, int)> {
    let stop = if end < s.len() { end } else { s.len() as int };
    if 0 <= start < stop {
        Some((byte_offset(s, start) as int, byte_offset(s, stop) as int))
    } else {
        None
    }
}

/// The character range that the bytes `[start, end)` of `s` hold; `None`
/// unless both ends are boundaries of `s` and `start <= end`.
pub open spec fn bytes_to_char_spec(s: Seq<char>, start: int, end: int) -> Option<(int, int)> {
    if start <= end && is_boundary(s, start) && is_boundary(s, end) {
        Some((char_index(s, start), char_index(s, end)))
    } else {
        None
    }
}

/// Whether `t` holds the byte position of every character position of `s`,
/// from the first character to the end of the text.
pub open spec fn is_offset_table(t: Seq<usize>, s: Seq<char>) -> bool {
    &&& t.len() == s.len() + 1
    &&& forall|k: int| 0 <= k <= s.len() ==> #[trigger] t[k] == byte_offset(s, k)
}

/// Unicode's `White_Space` property.
pub open spec fn is_whitespace_spec(c: char) -> bool {
    let v = c as u32;
    ||| 0x09 <= v <= 0x0D
    ||| v == 0x20
    ||| v == 0x85
    ||| v == 0xA0
    ||| v == 0x1680
    ||| 0x2000 <= v <= 0x200A
    ||| v == 0x2028
    ||| v == 0x2029
    ||| v == 0x202F
    ||| v == 0x205F
    ||| v == 0x3000
}

/// A character more makes the text longer by the width of that character.
pub proof fn lemma_byte_len_push(s: Seq<char>, c: char)
    ensures
        byte_len(s.push(c)) == byte_len(s) + utf8_width(c),
{
    assert(s.push(c).drop_last() =~= s);
}

/// The first character starts at byte 0, and the text ends at its byte
/// length.
pub proof fn lemma_byte_offset_ends(s: Seq<char>)
    ensures
        byte_offset(s, 0) == 0,
        byte_offset(s, s.len() as int) == byte_len(s),
{
    assert(s.take(0) =~= Seq::<char>::empty());
    assert(s.take(s.len() as int) =~= s);
}

/// A character starts where the one before it ends, which is at least one
/// byte and at most four bytes further on.
pub proof fn lemma_byte_offset_step(s: Seq<char>, k: int)
    requires
        0 <= k < s.len(),
    ensures
        byte_offset(s, k + 1) == byte_offset(s, k) + utf8_width(s[k]),
        byte_offset(s, k) < byte_offset(s, k + 1) <= byte_offset(s, k) + 4,
{
    assert(s.take(k + 1).drop_last() =~= s.take(k));
}

/// Byte positions grow with character positions, by at least one byte and at
/// most four bytes a character.
pub proof fn lemma_byte_offset_monotone(s: Seq<char>, i: int, j: int)
    requires
        0 <= i <= j <= s.len(),
    ensures
        byte_offset(s, i) + (j - i) <= byte_offset(s, j) <= byte_offset(s, i) + 4 * (j - i),
    decreases j - i,
{
    if i < j {
        lemma_byte_offset_monotone(s, i, j - 1);
        lemma_byte_offset_step(s, j - 1);
    }
}

/// A byte position is the start of at most one character position.
pub proof fn lemma_byte_offset_injective(s: Seq<char>, i: int, j: int)
    requires
        0 <= i <= s.len(),
        0 <= j <= s.len(),
        byte_offset(s, i) == byte_offset(s, j),
    ensures
        i == j,
{
    if i < j {
        lemma_byte_offset_monotone(s, i, j);
    } else if j < i {
        lemma_byte_offset_monotone(s, j, i);
    }
}

/// Character positions are ordered as their byte positions are.
pub proof fn lemma_byte_offset_order(s: Seq<char>, i: int, j: int)
    requires
        0 <= i <= s.len(),
        0 <= j <= s.len(),
        byte_offset(s, i) <= byte_offset(s, j),
    ensures
        i <= j,
{
    if j < i {
        lemma_byte_offset_monotone(s, j, i);
    }
}

/// The byte position of a character position is a boundary, and
/// `char_index` finds the character position again.
pub proof fn lemma_char_index(s: Seq<char>, k: int)
    requires
        0 <= k <= s.len(),
    ensures
        is_boundary(s, byte_offset(s, k) as int),
        char_index(s, byte_offset(s, k) as int) == k,
{
    let b = byte_offset(s, k) as int;
    let j = char_index(s, b);
    lemma_byte_offset_injective(s, j, k);
}

/// Two texts put together are as long as both.
pub proof fn lemma_byte_len_concat(a: Seq<char>, b: Seq<char>)
    ensures
        byte_len(a + b) == byte_len(a) + byte_len(b),
    decreases b.len(),
{
    if b.len() == 0 {
        assert(a + b =~= a);
    } else {
        lemma_byte_len_concat(a, b.drop_last());
        assert((a + b).drop_last() =~= a + b.drop_last());
    }
}

/// Byte positions inside a piece of `s` are those of `s`, moved by the
/// position at which the piece starts.
pub proof fn lemma_byte_offset_subrange(s: Seq<char>, lo: int, hi: int, k: int)
    requires
        0 <= lo <= k <= hi <= s.len(),
    ensures
        byte_offset(s.subrange(lo, hi), k - lo) == byte_offset(s, k) - byte_offset(s, lo),
{
    lemma_byte_len_concat(s.take(lo), s.subrange(lo, k));
    assert(s.take(lo) + s.subrange(lo, k) =~= s.take(k));
    assert(s.subrange(lo, hi).take(k - lo) =~= s.subrange(lo, k));
}

/// `utf8_width` is the length of the encoding of one character.
proof fn lemma_encode_scalar_len(c: char)
    ensures
        encode_scalar(c as u32).len() == utf8_width(c),
{
}

/// `byte_len` is the length of the UTF-8 encoding.
pub proof fn lemma_byte_len_is_encoded_len(s: Seq<char>)
    ensures
        encode_utf8(s).len() == byte_len(s),
    decreases s.len(),
{
    if s.len() > 0 {
        lemma_byte_len_is_encoded_len(s.drop_first());
        lemma_encode_scalar_len(s[0]);
        lemma_byte_len_concat(seq![s[0]], s.drop_first());
        assert(seq![s[0]] + s.drop_first() =~= s);
        lemma_byte_len_push(Seq::<char>::empty(), s[0]);
        assert(Seq::<char>::empty().push(s[0]) =~= seq![s[0]]);
    }
}

/// Computes the number of bytes that the UTF-8 encoding of `c` takes.
pub fn char_width(c: char) -> (w: usize)
    ensures
        w == utf8_width(c),
{
    let v: u32 = c as u32;
    if v < 0x80 {
        1
    } else if v < 0x800 {
        2
    } else if v < 0x10000 {
        3
    } else {
        4
    }
}

/// Tells whether `c` has Unicode's `White_Space` property.
pub fn is_whitespace(c: char) -> (b: bool)
    ensures
        b == is_whitespace_spec(c),
{
    let v: u32 = c as u32;
    (0x09 <= v && v <= 0x0D) || v == 0x20 || v == 0x85 || v == 0xA0 || v == 0x1680 || (0x2000 <= v
        && v <= 0x200A) || v == 0x2028 || v == 0x2029 || v == 0x202F || v == 0x205F || v == 0x3000
}

/// `String::push` appends one character.
pub assume_specification[ std::string::String::push ](s: &mut std::string::String, c: char)
    ensures
        final(s)@ == old(s)@.push(c),
;

/// The length of `s` in bytes.
pub fn text_len(s: &str) -> (n: usize)
    ensures
        n == byte_len(s@),
{
    proof {
        lemma_byte_len_is_encoded_len(s@);
    }
    s.as_bytes().len()
}

/// The characters of `s`, in order.
pub fn chars_of(s: &str) -> (v: Vec<char>)
    ensures
        v@ == s@,
        byte_len(s@) <= usize::MAX,
{
    // the length of a text that exists fits the machine
    let _ = text_len(s);
    let mut v: Vec<char> = Vec::new();
    for c in it: s.chars()
        invariant
            v@ == it.seq().take(it.index() as int),
            it.seq() == s@,
    {
        v.push(c);
    }
    v
}

/// The text made of the characters of `v`, in order.
pub fn string_of(v: &Vec<char>) -> (s: String)
    ensures
        s@ == v@,
        byte_len(v@) <= usize::MAX,
{
    let mut s = String::new();
    let mut i: usize = 0;
    while i < v.len()
        invariant
            i <= v.len(),
            s@ == v@.take(i as int),
        decreases v.len() - i,
    {
        s.push(v[i]);
        i += 1;
    }
    assert(v@.take(v.len() as int) =~= v@);
    // the length of a text that exists fits the machine
    let _ = text_len(s.as_str());
    s
}

/// The byte position of every character position of `v`: entry `k` is
/// `byte_offset(v@, k)`, for `k` from 0 to the length of `v`.
pub fn byte_offsets(v: &Vec<char>) -> (t: Vec<usize>)
    requires
        byte_len(v@) <= usize::MAX,
    ensures
        is_offset_table(t@, v@),
{
    let mut t: Vec<usize> = Vec::new();
    t.push(0);
    let mut i: usize = 0;
    proof {
        lemma_byte_offset_ends(v@);
    }
    while i < v.len()
        invariant
            i <= v.len(),
            t.len() == i + 1,
            byte_len(v@) <= usize::MAX,
            forall|k: int| 0 <= k <= i ==> #[trigger] t[k] == byte_offset(v@, k),
        decreases v.len() - i,
    {
        proof {
            lemma_byte_offset_step(v@, i as int);
            lemma_byte_offset_monotone(v@, i + 1, v.len() as int);
            lemma_byte_offset_ends(v@);
        }
        let next = t[i] + char_width(v[i]);
        t.push(next);
        i += 1;
    }
    t
}

/// Converts a range of character positions of `s` into the range of bytes
/// that those characters occupy. A range that reaches past the end of `s` is
/// cut off there; `None` where no character of `s` lies in the range.
pub fn char_to_bytes(s: &str, range: Range<usize>) -> (r: Option<Range<usize>>)
    ensures
        match char_to_bytes_spec(s@, range.start as int, range.end as int) {
            Some((b, e)) => r matches Some(br) && br.start == b && br.end == e,
            None => r is None,
        },
{
    let v = chars_of(s);
    let stop = if range.end < v.len() { range.end } else { v.len() };
    if range.start < stop {
        let t = byte_offsets(&v);
        Some(t[range.start]..t[stop])
    } else {
        None
    }
}

/// Finds the character position that starts at byte position `b` in the
/// table `t` of byte positions, if there is one. The table grows from entry
/// to entry, so the search halves it at every step.
pub(crate) fn find_boundary(v: &Vec<char>, t: &Vec<usize>, b: usize) -> (r: Option<usize>)
    requires
        is_offset_table(t@, v@),
    ensures
        match r {
            Some(k) => k <= v.len() && byte_offset(v@, k as int) == b && is_boundary(v@, b as int)
                && char_index(v@, b as int) == k,
            None => !is_boundary(v@, b as int),
        },
{
    let mut lo: usize = 0;
    let mut hi: usize = t.len();
    while lo < hi
        invariant
            lo <= hi <= t.len(),
            is_offset_table(t@, v@),
            forall|j: int| 0 <= j < lo ==> #[trigger] byte_offset(v@, j) < b,
            forall|j: int| hi <= j <= v.len() ==> #[trigger] byte_offset(v@, j) > b,
        decreases hi - lo,
    {
        let mid = lo + (hi - lo) / 2;
        if t[mid] == b {
            proof {
                lemma_char_index(v@, mid as int);
            }
            return Some(mid);
        } else if t[mid] < b {
            assert forall|j: int| 0 <= j < mid + 1 implies #[trigger] byte_offset(v@, j) < b by {
                lemma_byte_offset_monotone(v@, j, mid as int);
            }
            lo = mid + 1;
        } else {
            assert forall|j: int| mid <= j <= v.len() implies #[trigger] byte_offset(v@, j) > b by {
                lemma_byte_offset_monotone(v@, mid as int, j);
            }
            hi = mid;
        }
    }
    None
}

/// Converts a range of byte positions of `s` into the range of character
/// positions that it holds: `None` unless both ends fall between characters
/// (or at an end of `s`) and the range is not inverted.
pub fn bytes_to_char(s: &str, range: Range<usize>) -> (r: Option<Range<usize>>)
    ensures
        match bytes_to_char_spec(s@, range.start as int, range.end as int) {
            Some((b, e)) => r matches Some(cr) && cr.start == b && cr.end == e,
            None => r is None,
        },
{
    if range.start > range.end {
        return None;
    }
    let v = chars_of(s);
    let t = byte_offsets(&v);
    match find_boundary(&v, &t, range.start) {
        Some(b) => match find_boundary(&v, &t, range.end) {
            Some(e) => Some(b..e),
            None => None,
        },
        None => None,
    }
}

} // verus!
