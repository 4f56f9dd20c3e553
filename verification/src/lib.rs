//! A multi-excerpt text composition engine.
//!
//! A composition is a virtual document assembled from an ordered list of
//! excerpts, each a view onto a contiguous range of one underlying buffer.
//! The composition exposes a single coordinate space (byte offsets,
//! line/column points, UTF-16 points, stable anchors) over the composite
//! view while the underlying buffers remain authoritative and editable.

use vstd::prelude::*;

pub mod buffer;
pub mod coords;
pub mod locator;
pub mod multibuffer;
pub mod patch;
pub mod snapshot;
pub mod steps;

verus! {

/// Classification of a character, used for word-boundary logic.
#[derive(Copy, Clone, Eq, PartialEq, PartialOrd, Ord, Debug, Structural)]
pub enum CharKind {
    Newline,
    Punctuation,
    Whitespace,
    Word,
}

/// Whether a character has the Unicode whitespace property.
pub uninterp spec fn is_unicode_whitespace(c: char) -> bool;

/// Whether a character is Unicode alphanumeric.
pub uninterp spec fn is_unicode_alphanumeric(c: char) -> bool;

/// Relies on char::is_whitespace: whether `c` has the Unicode whitespace
/// property, a function of `c` alone. The documentation names the ASCII
/// members used below.
#[verifier::external_body]
fn whitespace_char(c: char) -> (r: bool)
    ensures
        r == is_unicode_whitespace(c),
        c == ' ' || c == '\t' || c == '\r' || c == '\n' ==> r,
        ('a' <= c && c <= 'z') || ('A' <= c && c <= 'Z') || ('0' <= c && c <= '9') || c == '_'
            ==> !r,
{
    c.is_whitespace()
}

/// Relies on char::is_alphanumeric: whether `c` is Unicode alphanumeric,
/// a function of `c` alone. The documentation names the ASCII members
/// and says underscore and whitespace are not alphanumeric.
#[verifier::external_body]
fn alphanumeric_char(c: char) -> (r: bool)
    ensures
        r == is_unicode_alphanumeric(c),
        ('a' <= c && c <= 'z') || ('A' <= c && c <= 'Z') || ('0' <= c && c <= '9') ==> r,
        c == '_' || c == ' ' || c == '\t' || c == '\r' || c == '\n' ==> !r,
{
    c.is_alphanumeric()
}

pub open spec fn char_kind_spec(c: char) -> CharKind {
    if c == '\n' {
        CharKind::Newline
    } else if is_unicode_whitespace(c) {
        CharKind::Whitespace
    } else if is_unicode_alphanumeric(c) || c == '_' {
        CharKind::Word
    } else {
        CharKind::Punctuation
    }
}

/// Classifies a character as a newline, whitespace, word constituent
/// (alphanumerics and underscore), or punctuation.
pub fn char_kind(c: char) -> (r: CharKind)
    ensures
        r == char_kind_spec(c),
{
    if c == '\n' {
        CharKind::Newline
    } else if whitespace_char(c) {
        CharKind::Whitespace
    } else if alphanumeric_char(c) || c == '_' {
        CharKind::Word
    } else {
        CharKind::Punctuation
    }
}

} // verus!
