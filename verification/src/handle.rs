//! Lending a normalized string to foreign code for the length of one call.

use crate::alignment::NormalizedView;
use crate::error::NormalizedError;
use crate::normalized::{
    filter_answers, filter_fails_at, for_each_fails_at, map_answers, map_fails_at,
    PyNormalizedString,
};
use crate::pattern::{is_partition, PyPattern};
use crate::range::PyRange;
use crate::replace::without_match;
use crate::split::{part_views, split_views, PySplitDelimiterBehavior};
use crate::unicode::{nfc_changes, nfd_changes, nfkc_changes, nfkd_changes};
use vstd::prelude::*;
use vstd::string::StringExecFns;

verus! {

/// A handle on a normalized string that can be handed to a callback. While
/// the handle is live, every operation on it is the operation on the string
/// behind it. Once `destroy` has ended its scope, every operation fails with
/// `HandleExpired` and the string behind it is not touched again.
pub struct PyNormalizedStringRefMut {
    inner: PyNormalizedString,
    live: bool,
}

/// The answer of a handle whose scope has ended.
pub open spec fn refused<T>(r: Result<T, NormalizedError>) -> bool {
    r matches Err(e) && e == NormalizedError::HandleExpired
}

impl PyNormalizedStringRefMut {
    /// Whether the scope of the handle has not ended yet.
    pub closed spec fn is_live(&self) -> bool {
        self.live
    }

    /// The string behind the handle.
    pub closed spec fn target(&self) -> PyNormalizedString {
        self.inner
    }

    /// The invariant of the handle: that of the string behind it.
    pub open spec fn wf(&self) -> bool {
        self.target().wf()
    }

    /// The string behind the handle, as the model sees it.
    #[verifier::inline]
    pub open spec fn text(&self) -> NormalizedView {
        self.target()@
    }

    /// What an operation that cannot fail does through a handle: on a live
    /// handle it succeeds and the string behind it becomes `to`; on a handle
    /// whose scope has ended it is refused and the string stays as it is.
    /// Either way the handle is as live as it was.
    pub open spec fn forwards(
        self,
        after: Self,
        r: Result<(), NormalizedError>,
        to: NormalizedView,
    ) -> bool {
        &&& after.is_live() == self.is_live()
        &&& self.is_live() ==> r is Ok && after.text() == to
        &&& !self.is_live() ==> refused(r) && after.target() == self.target()
    }

    /// A live handle on `normalized`.
    pub fn new(normalized: PyNormalizedString) -> (r: Self)
        ensures
            r.is_live(),
            r.target() == normalized,
    {
        PyNormalizedStringRefMut { inner: normalized, live: true }
    }

    /// Tells whether the invariant holds.
    pub fn is_valid(&self) -> (b: bool)
        ensures
            b == self.wf(),
    {
        self.inner.is_valid()
    }

    /// Tells whether the scope of the handle has not ended yet.
    pub fn live(&self) -> (b: bool)
        ensures
            b == self.is_live(),
    {
        self.live
    }

    /// Ends the scope of the handle. The string behind it stays as it is.
    pub fn destroy(&mut self)
        ensures
            !final(self).is_live(),
            final(self).target() == old(self).target(),
    {
        self.live = false;
    }

    /// Gives the string behind the handle back to its owner.
    pub fn release(self) -> (r: PyNormalizedString)
        ensures
            r == self.target(),
    {
        self.inner
    }

    /// The error of every operation on a handle whose scope has ended.
    pub fn destroyed_error() -> (e: NormalizedError)
        ensures
            e == NormalizedError::HandleExpired,
    {
        NormalizedError::HandleExpired
    }

    /// Lends `normalized` to `f` for the length of one call: `f` gets a live
    /// handle on it, the scope of the handle ends when `f` returns, and the
    /// string comes back as `f` left it, with what `f` returned.
    pub fn scope<F: FnOnce(&mut PyNormalizedStringRefMut) -> U, U>(
        normalized: PyNormalizedString,
        f: F,
    ) -> (r: (PyNormalizedString, U))
        requires
            forall|h: &mut PyNormalizedStringRefMut|
                h.is_live() && h.target() == normalized ==> call_requires(f, (h,)),
        ensures
            exists|h: &mut PyNormalizedStringRefMut|
                h.is_live() && h.target() == normalized && #[trigger] call_ensures(f, (h,), r.1)
                    && r.0 == final(h).target(),
    {
        let mut handle = Self::new(normalized);
        let ghost before = handle;
        let answer = f(&mut handle);
        let ghost after = handle;
        assert(exists|h: &mut PyNormalizedStringRefMut|
            *h == before && #[trigger] call_ensures(f, (h,), answer) && *final(h) == after);
        handle.destroy();
        let r = (handle.release(), answer);
        assert(r.1 == answer && r.0 == after.target());
        r
    }

    /// Calls `f` on the string behind the handle, if the handle is live.
    pub fn map_as_ref<F: FnOnce(&PyNormalizedString) -> U, U>(&self, f: F) -> (r: Result<
        U,
        NormalizedError,
    >)
        requires
            self.is_live() ==> call_requires(f, (&self.target(),)),
        ensures
            self.is_live() ==> (r matches Ok(u) && call_ensures(f, (&self.target(),), u)),
            !self.is_live() ==> (r matches Err(e) && e == NormalizedError::HandleExpired),
    {
        if self.live {
            Ok(f(&self.inner))
        } else {
            Err(Self::destroyed_error())
        }
    }

    /// Calls `f` on the string behind the handle, if the handle is live, and
    /// lets it change the string.
    pub fn map_as_mut<F: FnOnce(&mut PyNormalizedString) -> U, U>(&mut self, f: F) -> (r: Result<
        U,
        NormalizedError,
    >)
        requires
            old(self).is_live() ==> forall|v: &mut PyNormalizedString|
                *v == old(self).target() ==> call_requires(f, (v,)),
        ensures
            final(self).is_live() == old(self).is_live(),
            old(self).is_live() ==> (r matches Ok(u) && exists|v: &mut PyNormalizedString|
                *v == old(self).target() && *final(v) == final(self).target() && call_ensures(
                    f,
                    (v,),
                    u,
                )),
            !old(self).is_live() ==> (r matches Err(e) && e == NormalizedError::HandleExpired
                && final(self).target() == old(self).target()),
    {
        if self.live {
            Ok(f(&mut self.inner))
        } else {
            Err(Self::destroyed_error())
        }
    }

    /// The text as it now is, if the handle is live.
    pub fn get_normalized(&self) -> (r: Result<String, NormalizedError>)
        ensures
            self.is_live() ==> (r matches Ok(s) && s@ == self.text().normalized),
            !self.is_live() ==> refused(r),
    {
        if !self.live {
            return Err(Self::destroyed_error());
        }
        Ok(String::from_str(self.inner.get_normalized()))
    }

    /// The text as it first was, if the handle is live.
    pub fn get_original(&self) -> (r: Result<String, NormalizedError>)
        ensures
            self.is_live() ==> (r matches Ok(s) && s@ == self.text().original),
            !self.is_live() ==> refused(r),
    {
        if !self.live {
            return Err(Self::destroyed_error());
        }
        Ok(String::from_str(self.inner.get_original()))
    }

    /// Brings the text into Unicode's normalization form D, if the handle is live.
    pub fn nfd(&mut self) -> (r: Result<(), NormalizedError>)
        requires
            old(self).wf(),
        ensures
            final(self).wf(),
            old(self).forwards(
                *final(self),
                r,
                old(self).text().normalized_with(nfd_changes(old(self).text().normalized)),
            ),
    {
        if !self.live {
            return Err(Self::destroyed_error());
        }
        self.inner.nfd();
        Ok(())
    }

    /// Brings the text into Unicode's normalization form KD, if the handle is live.
    pub fn nfkd(&mut self) -> (r: Result<(), NormalizedError>)
        requires
            old(self).wf(),
        ensures
            final(self).wf(),
            old(self).forwards(
                *final(self),
                r,
                old(self).text().normalized_with(nfkd_changes(old(self).text().normalized)),
            ),
    {
        if !self.live {
            return Err(Self::destroyed_error());
        }
        self.inner.nfkd();
        Ok(())
    }

    /// Brings the text into Unicode's normalization form C, if the handle is live.
    pub fn nfc(&mut self) -> (r: Result<(), NormalizedError>)
        requires
            old(self).wf(),
        ensures
            final(self).wf(),
            old(self).forwards(
                *final(self),
                r,
                old(self).text().normalized_with(nfc_changes(old(self).text().normalized)),
            ),
    {
        if !self.live {
            return Err(Self::destroyed_error());
        }
        self.inner.nfc();
        Ok(())
    }

    /// Brings the text into Unicode's normalization form KC, if the handle is live.
    pub fn nfkc(&mut self) -> (r: Result<(), NormalizedError>)
        requires
            old(self).wf(),
        ensures
            final(self).wf(),
            old(self).forwards(
                *final(self),
                r,
                old(self).text().normalized_with(nfkc_changes(old(self).text().normalized)),
            ),
    {
        if !self.live {
            return Err(Self::destroyed_error());
        }
        self.inner.nfkc();
        Ok(())
    }

    /// Puts every character into lowercase, if the handle is live.
    pub fn lowercase(&mut self) -> (r: Result<(), NormalizedError>)
        requires
            old(self).wf(),
        ensures
            final(self).wf(),
            old(self).forwards(*final(self), r, old(self).text().lowercased()),
    {
        if !self.live {
            return Err(Self::destroyed_error());
        }
        self.inner.lowercase();
        Ok(())
    }

    /// Puts every character into uppercase, if the handle is live.
    pub fn uppercase(&mut self) -> (r: Result<(), NormalizedError>)
        requires
            old(self).wf(),
        ensures
            final(self).wf(),
            old(self).forwards(*final(self), r, old(self).text().uppercased()),
    {
        if !self.live {
            return Err(Self::destroyed_error());
        }
        self.inner.uppercase();
        Ok(())
    }

    /// Puts `s` before the text, if the handle is live.
    pub fn prepend(&mut self, s: &str) -> (r: Result<(), NormalizedError>)
        requires
            old(self).wf(),
        ensures
            final(self).wf(),
            old(self).forwards(*final(self), r, old(self).text().prepended(s@)),
    {
        if !self.live {
            return Err(Self::destroyed_error());
        }
        self.inner.prepend(s);
        Ok(())
    }

    /// Puts `s` after the text, if the handle is live.
    pub fn append(&mut self, s: &str) -> (r: Result<(), NormalizedError>)
        requires
            old(self).wf(),
        ensures
            final(self).wf(),
            old(self).forwards(*final(self), r, old(self).text().appended(s@)),
    {
        if !self.live {
            return Err(Self::destroyed_error());
        }
        self.inner.append(s);
        Ok(())
    }

    /// Removes the whitespace at the start of the text, if the handle is live.
    pub fn lstrip(&mut self) -> (r: Result<(), NormalizedError>)
        requires
            old(self).wf(),
        ensures
            final(self).wf(),
            old(self).forwards(*final(self), r, old(self).text().lstripped()),
    {
        if !self.live {
            return Err(Self::destroyed_error());
        }
        self.inner.lstrip();
        Ok(())
    }

    /// Removes the whitespace at the end of the text, if the handle is live.
    pub fn rstrip(&mut self) -> (r: Result<(), NormalizedError>)
        requires
            old(self).wf(),
        ensures
            final(self).wf(),
            old(self).forwards(*final(self), r, old(self).text().rstripped()),
    {
        if !self.live {
            return Err(Self::destroyed_error());
        }
        self.inner.rstrip();
        Ok(())
    }

    /// Removes the whitespace at both ends of the text, if the handle is live.
    pub fn strip(&mut self) -> (r: Result<(), NormalizedError>)
        requires
            old(self).wf(),
        ensures
            final(self).wf(),
            old(self).forwards(*final(self), r, old(self).text().stripped()),
    {
        if !self.live {
            return Err(Self::destroyed_error());
        }
        self.inner.strip();
        Ok(())
    }

    /// Empties the normalized text and its alignments, if the handle is live.
    pub fn clear(&mut self) -> (r: Result<(), NormalizedError>)
        requires
            old(self).wf(),
        ensures
            final(self).wf(),
            old(self).forwards(*final(self), r, old(self).text().cleared()),
    {
        if !self.live {
            return Err(Self::destroyed_error());
        }
        self.inner.clear();
        Ok(())
    }

    /// The characters that `range` stands for as a normalized string of
    /// their own, if the handle is live; see `PyNormalizedString::slice`.
    pub fn slice(&self, range: &PyRange) -> (r: Result<Option<PyNormalizedString>, NormalizedError>)
        requires
            self.wf(),
        ensures
            !self.is_live() ==> refused(r),
            self.is_live() ==> (match range.resolve(self.text().normalized.len() as int) {
                Some((start, end)) => {
                    let stop = if end < self.text().normalized.len() {
                        end
                    } else {
                        self.text().normalized.len() as int
                    };
                    if 0 <= start < stop {
                        r matches Ok(Some(part)) && part.wf() && part@ == self.text().slice(
                            start,
                            stop,
                        )
                    } else {
                        r matches Ok(None)
                    }
                },
                None => r matches Err(e) && e == NormalizedError::RangeError,
            }),
    {
        if !self.live {
            return Err(Self::destroyed_error());
        }
        self.inner.slice(range)
    }

    /// Drops the characters that `f` does not keep, if the handle is live;
    /// see `PyNormalizedString::filter`.
    pub fn filter<F: Fn(char) -> Option<bool>>(&mut self, f: F) -> (r: Result<
        (),
        NormalizedError,
    >)
        requires
            old(self).wf(),
            forall|c: char| call_requires(f, (c,)),
        ensures
            final(self).wf(),
            final(self).is_live() == old(self).is_live(),
            !old(self).is_live() ==> refused(r) && final(self).target() == old(self).target(),
            old(self).is_live() ==> (match r {
                Ok(()) => exists|keep: Seq<bool>|
                    #[trigger] filter_answers(f, old(self).text().normalized, keep)
                        && final(self).text() == old(self).text().filtered(keep),
                Err(e) => e == NormalizedError::CallbackError && final(self).text() == old(
                    self,
                ).text() && exists|i: int|
                    #[trigger] filter_fails_at(f, old(self).text().normalized, i),
            }),
    {
        if !self.live {
            return Err(Self::destroyed_error());
        }
        self.inner.filter(f)
    }

    /// Shows every character to `f`, if the handle is live; see
    /// `PyNormalizedString::for_each`.
    pub fn for_each<F: Fn(char) -> Option<()>>(&self, f: F) -> (r: Result<(), NormalizedError>)
        requires
            forall|c: char| call_requires(f, (c,)),
        ensures
            !self.is_live() ==> refused(r),
            self.is_live() ==> (match r {
                Ok(()) => forall|i: int|
                    0 <= i < self.text().normalized.len() ==> call_ensures(
                        f,
                        (#[trigger] self.text().normalized[i],),
                        Some(()),
                    ),
                Err(e) => e == NormalizedError::CallbackError && exists|i: int|
                    #[trigger] for_each_fails_at(f, self.text().normalized, i),
            }),
    {
        if !self.live {
            return Err(Self::destroyed_error());
        }
        let r = self.inner.for_each(f);
        proof {
            if r is Err {
                let i = choose|i: int| #[trigger] for_each_fails_at(f, self.inner@.normalized, i);
                assert(for_each_fails_at(f, self.text().normalized, i));
            }
        }
        r
    }

    /// Puts the answers of `f` in the place of the characters, if the handle
    /// is live; see `PyNormalizedString::map`.
    pub fn map<F: Fn(char) -> Option<String>>(&mut self, f: F) -> (r: Result<(), NormalizedError>)
        requires
            old(self).wf(),
            forall|c: char| call_requires(f, (c,)),
        ensures
            final(self).wf(),
            final(self).is_live() == old(self).is_live(),
            !old(self).is_live() ==> refused(r) && final(self).target() == old(self).target(),
            old(self).is_live() ==> (match r {
                Ok(()) => exists|to: Seq<char>|
                    #[trigger] map_answers(f, old(self).text().normalized, to)
                        && final(self).text() == old(self).text().with_chars(to),
                Err(e) => final(self).text() == old(self).text() && exists|i: int|
                    #[trigger] map_fails_at(f, old(self).text().normalized, i, e),
            }),
    {
        if !self.live {
            return Err(Self::destroyed_error());
        }
        self.inner.map(f)
    }

    /// Splits the string behind the handle at the matches of `pattern`, if
    /// the handle is live; see `PyNormalizedString::split`.
    pub fn split(&self, pattern: PyPattern, behavior: PySplitDelimiterBehavior) -> (r: Result<
        Vec<PyNormalizedString>,
        NormalizedError,
    >)
        requires
            self.wf(),
        ensures
            !self.is_live() ==> refused(r),
            self.is_live() ==> {
                &&& match pattern.partition(self.text().normalized) {
                    Some(spans) => {
                        &&& is_partition(spans, self.text().normalized)
                        &&& r matches Ok(parts) && part_views(parts@) == split_views(
                            self.text(),
                            spans,
                            behavior.0,
                        )
                    },
                    None => r matches Err(e) && e == NormalizedError::PatternError,
                }
                &&& r matches Ok(parts) ==> forall|i: int|
                    0 <= i < parts@.len() ==> (#[trigger] parts@[i]).wf()
            },
    {
        if !self.live {
            return Err(Self::destroyed_error());
        }
        self.inner.split(pattern, behavior)
    }

    /// Puts `content` in the place of every match of `pattern`, if the
    /// handle is live; see `PyNormalizedString::replace`.
    pub fn replace(&mut self, pattern: PyPattern, content: &str) -> (r: Result<(), NormalizedError>)
        requires
            old(self).wf(),
        ensures
            final(self).wf(),
            final(self).is_live() == old(self).is_live(),
            !old(self).is_live() ==> refused(r) && final(self).target() == old(self).target(),
            old(self).is_live() ==> {
                match pattern.partition(old(self).text().normalized) {
                    Some(spans) => {
                        &&& is_partition(spans, old(self).text().normalized)
                        &&& r is Ok
                        &&& final(self).text() == old(self).text().replaced(spans, content@)
                        &&& without_match(spans) ==> final(self).text() == old(self).text()
                    },
                    None => r matches Err(e) && e == NormalizedError::PatternError
                        && final(self).text() == old(self).text(),
                }
            },
    {
        if !self.live {
            return Err(Self::destroyed_error());
        }
        self.inner.replace(pattern, content)
    }
}

} // verus!
