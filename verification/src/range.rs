//! Resolving a position given by the caller into a range of characters.

use core::ops::Range;
use crate::error::NormalizedError;
use vstd::prelude::*;

verus! {

/// The bounds of a slice in the usual notation `start:stop:step`, each of
/// them optional.
#[derive(Clone, Copy, Debug, PartialEq, Eq, Structural)]
pub struct SliceBounds {
    pub start: Option<isize>,
    pub stop: Option<isize>,
    pub step: Option<isize>,
}

/// A position in a text of known length, as a caller may give it.
#[derive(Clone, Copy, Debug, PartialEq, Eq, Structural)]
pub enum PyRange {
    /// One character; a negative index counts from the end.
    Single(isize),
    /// The characters from the first position up to the second, as they are.
    Range(usize, usize),
    /// A slice, whose bounds are clamped to the text.
    Slice(SliceBounds),
}

/// An endpoint of a slice over `n` items: a negative one counts from the
/// end, and the result is clamped to `[0, n]`.
pub open spec fn clamp_endpoint(v: int, n: int) -> int {
    let w = if v < 0 { v + n } else { v };
    if w < 0 {
        0
    } else if w > n {
        n
    } else {
        w
    }
}

impl PyRange {
    /// The half-open range of characters that `self` stands for in a text of
    /// `max_len` characters, or `None` where it stands for none.
    pub open spec fn resolve(self, max_len: int) -> Option<(int, int)> {
        match self {
            PyRange::Single(i) => if i < 0 {
                if -i > max_len {
                    None
                } else {
                    Some((max_len + i, max_len + i + 1))
                }
            } else {
                Some((i as int, i + 1))
            },
            PyRange::Range(s, e) => Some((s as int, e as int)),
            PyRange::Slice(b) => if b.step is Some && b.step != Some(1isize) {
                None
            } else {
                Some(
                    (
                        match b.start {
                            Some(v) => clamp_endpoint(v as int, max_len),
                            None => 0,
                        },
                        match b.stop {
                            Some(v) => clamp_endpoint(v as int, max_len),
                            None => max_len,
                        },
                    ),
                )
            },
        }
    }

    /// Resolves `self` against a text of `max_len` characters. A single
    /// non-negative index and an explicit pair are not held against
    /// `max_len` here: whoever looks the characters up does that.
    pub fn to_range(&self, max_len: usize) -> (r: Result<Range<usize>, NormalizedError>)
        ensures
            match self.resolve(max_len as int) {
                Some((s, e)) => r matches Ok(range) && range.start == s && range.end == e,
                None => r == Err::<Range<usize>, NormalizedError>(NormalizedError::RangeError),
            },
    {
        match *self {
            PyRange::Single(i) => {
                if i < 0 {
                    let back = magnitude(i);
                    if back > max_len {
                        Err(NormalizedError::RangeError)
                    } else {
                        Ok(max_len - back..max_len - back + 1)
                    }
                } else {
                    let i = i as usize;
                    Ok(i..i + 1)
                }
            },
            PyRange::Range(s, e) => Ok(s..e),
            PyRange::Slice(b) => {
                match b.step {
                    Some(step) => {
                        if step != 1 {
                            return Err(NormalizedError::RangeError);
                        }
                    },
                    None => {},
                }
                let start = match b.start {
                    Some(v) => clamp(v, max_len),
                    None => 0,
                };
                let stop = match b.stop {
                    Some(v) => clamp(v, max_len),
                    None => max_len,
                };
                Ok(start..stop)
            },
        }
    }
}

/// The distance of a negative index from zero.
fn magnitude(i: isize) -> (m: usize)
    requires
        i < 0,
    ensures
        m == -i,
{
    let below: isize = -(i + 1);
    below as usize + 1
}

/// Clamps an endpoint of a slice over `n` items.
fn clamp(v: isize, n: usize) -> (w: usize)
    ensures
        w == clamp_endpoint(v as int, n as int),
{
    if v < 0 {
        let back = magnitude(v);
        if back > n {
            0
        } else {
            n - back
        }
    } else {
        let v = v as usize;
        if v > n {
            n
        } else {
            v
        }
    }
}

} // verus!
