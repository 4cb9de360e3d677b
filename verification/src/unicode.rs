//! What this crate takes from Unicode's tables: the four normalization forms
//! and the case mappings. None of it is proved here; each function below
//! states what the call behind it is trusted to return.

use unicode_normalization_alignments::UnicodeNormalization;
use vstd::prelude::*;

verus! {

/// The canonical decomposition (form D) of a text: its characters, each with
/// the change that it stands for. A change of 0 marks a character that takes
/// the place of one character of the text, a change of 1 a character that was
/// added after it, and a change of `-n` a character that takes the place of
/// `n + 1` characters.
pub uninterp spec fn nfd_changes(text: Seq<char>) -> Seq<(char, isize)>;

/// The compatibility decomposition (form KD) of a text, with changes as for
/// `nfd_changes`.
pub uninterp spec fn nfkd_changes(text: Seq<char>) -> Seq<(char, isize)>;

/// The canonical composition (form C) of a text, with changes as for
/// `nfd_changes`.
pub uninterp spec fn nfc_changes(text: Seq<char>) -> Seq<(char, isize)>;

/// The compatibility composition (form KC) of a text, with changes as for
/// `nfd_changes`.
pub uninterp spec fn nfkc_changes(text: Seq<char>) -> Seq<(char, isize)>;

/// The text that changes make: their characters, in order.
pub open spec fn changed_text(changes: Seq<(char, isize)>) -> Seq<char> {
    Seq::new(changes.len(), |j: int| changes[j].0)
}

/// The lowercase mapping of a character, which is one character or more.
pub uninterp spec fn lowercase_mapping(c: char) -> Seq<char>;

/// The uppercase mapping of a character, which is one character or more.
pub uninterp spec fn uppercase_mapping(c: char) -> Seq<char>;

/// Calls `nfd` of `unicode_normalization_alignments` on `text` and collects
/// what its iterator yields. Trusted: the result depends on `text` alone,
/// and the text that it makes is in form D, as the crate documents; by
/// Unicode Standard Annex #15, which the crate follows, a text in form D
/// is one that this form leaves as it is.
#[verifier::external_body]
pub(crate) fn decompose_canonical(text: &str) -> (r: Vec<(char, isize)>)
    ensures
        r@ == nfd_changes(text@),
        changed_text(nfd_changes(changed_text(r@))) == changed_text(r@),
{
    text.nfd().collect()
}

/// Calls `nfkd` of `unicode_normalization_alignments` on `text` and collects
/// what its iterator yields. Trusted: the result depends on `text` alone,
/// and the text that it makes is in form KD, as the crate documents; by
/// Unicode Standard Annex #15, which the crate follows, a text in form KD
/// is one that this form leaves as it is.
#[verifier::external_body]
pub(crate) fn decompose_compatible(text: &str) -> (r: Vec<(char, isize)>)
    ensures
        r@ == nfkd_changes(text@),
        changed_text(nfkd_changes(changed_text(r@))) == changed_text(r@),
{
    text.nfkd().collect()
}

/// Calls `nfc` of `unicode_normalization_alignments` on `text` and collects
/// what its iterator yields. Trusted: the result depends on `text` alone,
/// and the text that it makes is in form C, as the crate documents; by
/// Unicode Standard Annex #15, which the crate follows, a text in form C
/// is one that this form leaves as it is.
#[verifier::external_body]
pub(crate) fn compose_canonical(text: &str) -> (r: Vec<(char, isize)>)
    ensures
        r@ == nfc_changes(text@),
        changed_text(nfc_changes(changed_text(r@))) == changed_text(r@),
{
    text.nfc().collect()
}

/// Calls `nfkc` of `unicode_normalization_alignments` on `text` and collects
/// what its iterator yields. Trusted: the result depends on `text` alone,
/// and the text that it makes is in form KC, as the crate documents; by
/// Unicode Standard Annex #15, which the crate follows, a text in form KC
/// is one that this form leaves as it is.
#[verifier::external_body]
pub(crate) fn compose_compatible(text: &str) -> (r: Vec<(char, isize)>)
    ensures
        r@ == nfkc_changes(text@),
        changed_text(nfkc_changes(changed_text(r@))) == changed_text(r@),
{
    text.nfkc().collect()
}

/// Calls `char::to_lowercase` and collects what its iterator yields.
/// Trusted: the result depends on `c` alone, and holds at least one
/// character, as the standard library documents.
#[verifier::external_body]
pub(crate) fn to_lowercase(c: char) -> (r: Vec<char>)
    ensures
        r@ == lowercase_mapping(c),
        r@.len() >= 1,
{
    c.to_lowercase().collect()
}

/// Calls `char::to_uppercase` and collects what its iterator yields.
/// Trusted: the result depends on `c` alone, and holds at least one
/// character, as the standard library documents.
#[verifier::external_body]
pub(crate) fn to_uppercase(c: char) -> (r: Vec<char>)
    ensures
        r@ == uppercase_mapping(c),
        r@.len() >= 1,
{
    c.to_uppercase().collect()
}

} // verus!
