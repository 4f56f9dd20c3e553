//! Immutable views of a composition.
//!
//! A snapshot holds the ordered excerpt list by value: each excerpt
//! carries a copy of its buffer's text and coordinate steps at capture
//! time, so a snapshot answers every query — text, coordinates, anchors
//! — without reaching back to the live buffers. The composite text is
//! the concatenation of each excerpt's buffer sub-range, with a
//! synthetic newline after every excerpt but the last.

use vstd::prelude::*;
use crate::coords::{
    Bias,
    Point,
    PointUtf16,
    TextSummary,
    MAX_LEN,
    count_nl,
    point_of,
    point_u16_of,
    is_cont,
    clip_of,
    summary_of,
    slice_of,
    append_bytes,
    clone_bytes,
    offset_to_point_in,
    offset_to_point_utf16_in,
    point_to_offset_in,
    point_utf16_to_offset_in,
    clip_offset_in,
    summarize,
    count_rows,
    line_start,
    u16_col,
    is_nl,
    is_ws,
    row_start_of,
    line_end_from,
    line_len_of,
    line_bounds,
    clip_point_of,
    clip_point_in,
    lemma_count_nl_bound,
    lemma_u16_col_bound,
    lemma_line_end_bounds,
    lemma_row_start_bounds,
};
use crate::locator::{Locator, lex_lt, lex_le};
use crate::steps::{Step, wf_steps, resolve_steps, resolve_pos, clone_steps, len_at_version_steps, version_len_of};
use crate::buffer::BufAnchor;

verus! {

/// A view onto a contiguous range of one buffer, frozen at one version.
pub struct Excerpt {
    pub id: Locator,
    pub buffer_id: usize,
    /// Buffer version this excerpt was captured at.
    pub version: usize,
    /// The buffer's coordinate steps at capture, for carrying anchors
    /// made at earlier versions.
    pub steps: Vec<Step>,
    /// The buffer's whole text at capture.
    pub buf_text: Vec<u8>,
    /// The length the buffer's text had before its first recorded edit.
    pub buf_base_len: usize,
    /// The excerpt's range, as anchors so later rebuilds track edits.
    pub start_anchor: BufAnchor,
    pub end_anchor: BufAnchor,
    /// The range the anchors resolve to at `version`.
    pub buf_start: usize,
    pub buf_end: usize,
    /// Buffer row of `buf_start`.
    pub start_row: usize,
    /// Whether a synthetic newline follows this excerpt.
    pub has_trailing_newline: bool,
}

impl Excerpt {
    /// The bytes this excerpt contributes, not counting the synthetic
    /// newline.
    pub open spec fn content(self) -> Seq<u8> {
        self.buf_text@.subrange(self.buf_start as int, self.buf_end as int)
    }

    /// Composite bytes contributed, counting the synthetic newline.
    pub open spec fn full_len(self) -> int {
        self.content().len() + if self.has_trailing_newline {
            1int
        } else {
            0int
        }
    }

    pub open spec fn wf(self) -> bool {
        &&& self.buf_start <= self.buf_end <= self.buf_text@.len() <= MAX_LEN
        &&& self.buf_base_len <= MAX_LEN
        &&& wf_steps(self.steps@)
        &&& forall|i: int|
            0 <= i < self.steps@.len() ==> (#[trigger] self.steps@[i].version) < self.version
        &&& self.start_row == count_nl(self.buf_text@, self.buf_start as int)
        &&& self.start_anchor.version <= self.version
        &&& self.end_anchor.version <= self.version
        &&& self.start_anchor.offset <= MAX_LEN
        &&& self.end_anchor.offset <= MAX_LEN
        &&& self.start_anchor.bias == Bias::Left
        &&& self.end_anchor.bias == Bias::Right
        &&& self.range_tie()
        &&& self.id.wf()
        &&& lex_lt(seq![0u64], self.id@)
        &&& lex_lt(self.id@, seq![u64::MAX])
    }

    /// The cached range offsets are exactly where the range anchors
    /// land at the excerpt's version, clamped into its text.
    #[verifier::opaque]
    pub open spec fn range_tie(self) -> bool {
        &&& self.buf_start as int == crate::steps::clamp_to(
            resolve_steps(
                self.steps@,
                self.start_anchor.version as int,
                self.version as int,
                self.start_anchor.offset as int,
                self.start_anchor.bias,
            ),
            self.buf_text@.len() as int,
        )
        &&& self.buf_end as int == ({
            let re = crate::steps::clamp_to(
                resolve_steps(
                    self.steps@,
                    self.end_anchor.version as int,
                    self.version as int,
                    self.end_anchor.offset as int,
                    self.end_anchor.bias,
                ),
                self.buf_text@.len() as int,
            );
            if re < self.buf_start {
                self.buf_start as int
            } else {
                re
            }
        })
    }

    /// Rows spanned by the content (newline count within the range).
    pub open spec fn content_rows(self) -> int {
        count_nl(self.content(), self.content().len() as int) as int
    }

    /// The buffer row of the end of the range.
    pub open spec fn max_buf_row(self) -> int {
        self.start_row + self.content_rows()
    }
}

/// A stable position in a composition: the excerpt it lives in, that
/// excerpt's buffer, and a position within the buffer. The sentinel
/// locators stand for the absolute start and end of the composition.
pub struct Anchor {
    pub buffer_id: usize,
    pub excerpt_id: Locator,
    pub text_anchor: BufAnchor,
}

impl Anchor {
    /// The anchor pinned before all content.
    pub fn min() -> (r: Anchor)
        ensures
            r.excerpt_id@ =~= seq![0u64],
            r.text_anchor.offset == 0,
            r.text_anchor.bias == Bias::Left,
    {
        Anchor {
            buffer_id: 0,
            excerpt_id: Locator::min(),
            text_anchor: BufAnchor { version: 0, offset: 0, bias: Bias::Left },
        }
    }

    /// The anchor pinned after all content.
    pub fn max() -> (r: Anchor)
        ensures
            r.excerpt_id@ =~= seq![u64::MAX],
            r.text_anchor.offset == 0,
            r.text_anchor.bias == Bias::Right,
    {
        Anchor {
            buffer_id: 0,
            excerpt_id: Locator::max(),
            text_anchor: BufAnchor { version: 0, offset: 0, bias: Bias::Right },
        }
    }

    pub open spec fn is_min_spec(self) -> bool {
        self.excerpt_id@ =~= seq![0u64]
    }

    pub open spec fn is_max_spec(self) -> bool {
        self.excerpt_id@ =~= seq![u64::MAX]
    }

    pub open spec fn is_sentinel(self) -> bool {
        self.is_min_spec() || self.is_max_spec()
    }

    pub fn clone_anchor(&self) -> (r: Anchor)
        ensures
            r.buffer_id == self.buffer_id,
            r.excerpt_id@ == self.excerpt_id@,
            r.text_anchor == self.text_anchor,
    {
        Anchor {
            buffer_id: self.buffer_id,
            excerpt_id: self.excerpt_id.clone(),
            text_anchor: self.text_anchor,
        }
    }
}

/// The composite text of an excerpt list: each excerpt's content, with
/// a newline after every excerpt that carries one.
pub open spec fn text_of(exs: Seq<Excerpt>) -> Seq<u8>
    decreases exs.len(),
{
    if exs.len() == 0 {
        Seq::empty()
    } else {
        let e = exs.last();
        text_of(exs.drop_last()) + e.content() + if e.has_trailing_newline {
            seq![10u8]
        } else {
            Seq::<u8>::empty()
        }
    }
}

/// Total composite length of the first `i` excerpts.
pub open spec fn prefix_len(exs: Seq<Excerpt>, i: int) -> int
    decreases i,
{
    if i <= 0 {
        0
    } else {
        prefix_len(exs, i - 1) + exs[i - 1].full_len()
    }
}

pub proof fn lemma_text_of_len(exs: Seq<Excerpt>)
    ensures
        text_of(exs).len() == prefix_len(exs, exs.len() as int),
    decreases exs.len(),
{
    if exs.len() > 0 {
        lemma_text_of_len(exs.drop_last());
        lemma_prefix_len_prefix(exs.drop_last(), exs, exs.len() - 1);
    }
}

pub proof fn lemma_prefix_len_prefix(e1: Seq<Excerpt>, e2: Seq<Excerpt>, i: int)
    requires
        forall|j: int| 0 <= j < i ==> e1[j] == e2[j],
        i <= e1.len(),
        i <= e2.len(),
    ensures
        prefix_len(e1, i) == prefix_len(e2, i),
    decreases i,
{
    if i > 0 {
        lemma_prefix_len_prefix(e1, e2, i - 1);
    }
}

/// The first excerpt index whose span, starting at the accumulated
/// offset, still reaches past `o`; the list length when `o` is at or
/// past the total end.
pub open spec fn seek_ix(exs: Seq<Excerpt>, i: int, o: int) -> int
    decreases exs.len() - i,
{
    if i < 0 || i >= exs.len() {
        i
    } else if o < prefix_len(exs, i) + exs[i].full_len() {
        i
    } else {
        seek_ix(exs, i + 1, o)
    }
}

/// The first excerpt whose id is at or after `id`; the list length when
/// every id is smaller.
pub open spec fn find_ix(exs: Seq<Excerpt>, id: Seq<u64>, i: int) -> int
    decreases exs.len() - i,
{
    if i < 0 || i >= exs.len() {
        i
    } else if lex_le(id, exs[i].id@) {
        i
    } else {
        find_ix(exs, id, i + 1)
    }
}

/// An immutable capture of a composition.
pub struct MultiBufferSnapshot {
    pub singleton: bool,
    pub excerpts: Vec<Excerpt>,
    pub parse_count: usize,
    pub diagnostics_update_count: usize,
    pub is_dirty: bool,
    pub has_conflict: bool,
}

impl MultiBufferSnapshot {
    /// Well-formedness: every excerpt is well formed, ids strictly
    /// increase, exactly the non-last excerpts carry a trailing
    /// newline, and the total length stays within bounds.
    pub open spec fn wf(self) -> bool {
        &&& forall|i: int| 0 <= i < self.excerpts@.len() ==> (#[trigger] self.excerpts@[i]).wf()
        &&& forall|i: int|
            0 <= i && i + 1 < self.excerpts@.len() ==> lex_lt(
                (#[trigger] self.excerpts@[i]).id@,
                self.excerpts@[i + 1].id@,
            )
        &&& forall|i: int|
            0 <= i < self.excerpts@.len() ==> ((#[trigger] self.excerpts@[i]).has_trailing_newline
                <==> i + 1 < self.excerpts@.len())
        &&& prefix_len(self.excerpts@, self.excerpts@.len() as int) <= MAX_LEN
    }

    pub open spec fn text_spec(self) -> Seq<u8> {
        text_of(self.excerpts@)
    }

    pub open spec fn len_spec(self) -> int {
        text_of(self.excerpts@).len() as int
    }

    pub fn new_empty() -> (r: MultiBufferSnapshot)
        ensures
            r.wf(),
            r.excerpts@.len() == 0,
            !r.singleton,
            r.parse_count == 0,
            r.diagnostics_update_count == 0,
            !r.is_dirty,
            !r.has_conflict,
    {
        MultiBufferSnapshot {
            singleton: false,
            excerpts: Vec::new(),
            parse_count: 0,
            diagnostics_update_count: 0,
            is_dirty: false,
            has_conflict: false,
        }
    }

    /// The whole composite text.
    #[verifier::rlimit(60)]
    pub fn text(&self) -> (r: Vec<u8>)
        requires
            self.wf(),
        ensures
            r@ == self.text_spec(),
    {
        let mut r: Vec<u8> = Vec::new();
        let mut i: usize = 0;
        proof {
            assert(self.excerpts@.take(0int) =~= Seq::<Excerpt>::empty());
        }
        while i < self.excerpts.len()
            invariant
                self.wf(),
                i <= self.excerpts@.len(),
                r@ == text_of(self.excerpts@.take(i as int)),
            decreases self.excerpts@.len() - i,
        {
            let e = &self.excerpts[i];
            let piece = slice_of(&e.buf_text, e.buf_start, e.buf_end);
            append_bytes(&mut r, &piece);
            if e.has_trailing_newline {
                r.push(10u8);
            }
            proof {
                let t1 = self.excerpts@.take(i as int);
                let t2 = self.excerpts@.take(i + 1 as int);
                assert(t2.drop_last() =~= t1);
                assert(t2.last() == self.excerpts@[i as int]);
                if self.excerpts@[i as int].has_trailing_newline {
                    assert(r@ =~= text_of(t1) + self.excerpts@[i as int].content() + seq![10u8]);
                } else {
                    assert(r@ =~= text_of(t1) + self.excerpts@[i as int].content());
                    assert(text_of(t2) =~= text_of(t1) + self.excerpts@[i as int].content()
                        + Seq::<u8>::empty());
                }
            }
            i += 1;
        }
        proof {
            assert(self.excerpts@.take(self.excerpts@.len() as int) =~= self.excerpts@);
        }
        r
    }

    /// Total byte length of the composite text.
    pub fn len(&self) -> (r: usize)
        requires
            self.wf(),
        ensures
            r == self.len_spec(),
            r <= MAX_LEN,
    {
        proof {
            lemma_text_of_len(self.excerpts@);
        }
        let mut r: usize = 0;
        let mut i: usize = 0;
        while i < self.excerpts.len()
            invariant
                self.wf(),
                i <= self.excerpts@.len(),
                r == prefix_len(self.excerpts@, i as int),
                r <= MAX_LEN,
            decreases self.excerpts@.len() - i,
        {
            proof {
                lemma_prefix_len_bound(self.excerpts@, i + 1 as int);
            }
            let e = &self.excerpts[i];
            r = r + (e.buf_end - e.buf_start);
            if e.has_trailing_newline {
                r = r + 1;
            }
            i += 1;
        }
        r
    }

    /// The bytes of the composite text between two offsets.
    pub fn text_for_range(&self, start: usize, end: usize) -> (r: Vec<u8>)
        requires
            self.wf(),
            start <= end <= self.len_spec(),
        ensures
            r@ == self.text_spec().subrange(start as int, end as int),
    {
        let t = self.text();
        slice_of(&t, start, end)
    }

    /// The byte offset of a line/column point of the composite text.
    pub fn point_to_offset(&self, p: Point) -> (r: usize)
        requires
            self.wf(),
            exists|o: int| 0 <= o <= self.len_spec() && point_of(self.text_spec(), o) == p,
        ensures
            r <= self.len_spec(),
            point_of(self.text_spec(), r as int) == p,
    {
        let t = self.text();
        point_to_offset_in(&t, p)
    }

    /// The line/column point at a byte offset of the composite text.
    pub fn offset_to_point(&self, o: usize) -> (r: Point)
        requires
            self.wf(),
            o <= self.len_spec(),
        ensures
            r == point_of(self.text_spec(), o as int),
    {
        let t = self.text();
        offset_to_point_in(&t, o)
    }

    /// The UTF-16 point at a byte offset of the composite text.
    pub fn offset_to_point_utf16(&self, o: usize) -> (r: PointUtf16)
        requires
            self.wf(),
            o <= self.len_spec(),
        ensures
            r == point_u16_of(self.text_spec(), o as int),
    {
        let t = self.text();
        proof {
            lemma_text_of_len(self.excerpts@);
        }
        offset_to_point_utf16_in(&t, o)
    }

    /// The byte offset of a UTF-16 point of the composite text.
    pub fn point_utf16_to_offset(&self, p: PointUtf16) -> (r: usize)
        requires
            self.wf(),
            exists|o: int|
                0 <= o <= self.len_spec() && point_u16_of(self.text_spec(), o) == p && (o
                    == self.len_spec() || !is_cont(self.text_spec()[o])),
        ensures
            r <= self.len_spec(),
            point_u16_of(self.text_spec(), r as int) == p,
            r == self.len_spec() || !is_cont(self.text_spec()[r as int]),
    {
        let t = self.text();
        proof {
            lemma_text_of_len(self.excerpts@);
        }
        point_utf16_to_offset_in(&t, p)
    }

    /// The nearest character boundary to `o`, in the given direction.
    pub fn clip_offset(&self, o: usize, bias: Bias) -> (r: usize)
        requires
            self.wf(),
        ensures
            r as int == clip_of(self.text_spec(), o as int, bias),
            r <= self.len_spec(),
    {
        let t = self.text();
        clip_offset_in(&t, o, bias)
    }

    /// Summary of the whole composite text.
    pub fn text_summary(&self) -> (r: TextSummary)
        requires
            self.wf(),
        ensures
            r == summary_of(self.text_spec()),
    {
        let t = self.text();
        proof {
            lemma_text_of_len(self.excerpts@);
        }
        summarize(&t)
    }

    /// Summary of the composite text between two offsets.
    pub fn text_summary_for_range(&self, start: usize, end: usize) -> (r: TextSummary)
        requires
            self.wf(),
            start <= end <= self.len_spec(),
        ensures
            r == summary_of(self.text_spec().subrange(start as int, end as int)),
    {
        let piece = self.text_for_range(start, end);
        proof {
            lemma_text_of_len(self.excerpts@);
        }
        summarize(&piece)
    }

    /// The point just past the last character.
    pub fn max_point(&self) -> (r: Point)
        requires
            self.wf(),
        ensures
            r == point_of(self.text_spec(), self.len_spec()),
    {
        let t = self.text();
        offset_to_point_in(&t, t.len())
    }

    /// The bytes before `offset`, last byte first.
    pub fn reversed_chars_at(&self, offset: usize) -> (r: Vec<u8>)
        requires
            self.wf(),
            offset <= self.len_spec(),
        ensures
            r@ == self.text_spec().take(offset as int).reverse(),
    {
        let t = self.text();
        let mut r: Vec<u8> = Vec::new();
        let mut i: usize = offset;
        while i > 0
            invariant
                i <= offset <= t@.len(),
                t@ == self.text_spec(),
                r@.len() == offset - i,
                forall|j: int| 0 <= j < r@.len() ==> #[trigger] r@[j] == t@[offset - 1 - j],
            decreases i,
        {
            i -= 1;
            r.push(t[i]);
        }
        proof {
            assert(r@ =~= self.text_spec().take(offset as int).reverse());
        }
        r
    }

    /// The bytes from `offset` to the end.
    pub fn chars_at(&self, offset: usize) -> (r: Vec<u8>)
        requires
            self.wf(),
            offset <= self.len_spec(),
        ensures
            r@ == self.text_spec().skip(offset as int),
    {
        let t = self.text();
        let r = slice_of(&t, offset, t.len());
        proof {
            assert(t@.subrange(offset as int, t@.len() as int) =~= t@.skip(offset as int));
        }
        r
    }

    pub fn parse_count(&self) -> (r: usize)
        ensures
            r == self.parse_count,
    {
        self.parse_count
    }

    pub fn diagnostics_update_count(&self) -> (r: usize)
        ensures
            r == self.diagnostics_update_count,
    {
        self.diagnostics_update_count
    }

    pub fn is_dirty(&self) -> (r: bool)
        ensures
            r == self.is_dirty,
    {
        self.is_dirty
    }

    pub fn has_conflict(&self) -> (r: bool)
        ensures
            r == self.has_conflict,
    {
        self.has_conflict
    }
}

/// The classification of one byte of text: ASCII whitespace, word
/// constituents (ASCII alphanumerics and underscore), newlines, and
/// punctuation for everything else.
pub open spec fn byte_kind(b: u8) -> crate::CharKind {
    if b == 10 {
        crate::CharKind::Newline
    } else if b == 32 || b == 9 || b == 13 {
        crate::CharKind::Whitespace
    } else if (48 <= b && b <= 57) || (65 <= b && b <= 90) || (97 <= b && b <= 122) || b == 95 {
        crate::CharKind::Word
    } else {
        crate::CharKind::Punctuation
    }
}

pub open spec fn kind_rank(k: crate::CharKind) -> int {
    match k {
        crate::CharKind::Newline => 0,
        crate::CharKind::Punctuation => 1,
        crate::CharKind::Whitespace => 2,
        crate::CharKind::Word => 3,
    }
}

fn byte_kind_at(b: u8) -> (r: crate::CharKind)
    ensures
        r == byte_kind(b),
{
    if b == 10 {
        crate::CharKind::Newline
    } else if b == 32 || b == 9 || b == 13 {
        crate::CharKind::Whitespace
    } else if (48 <= b && b <= 57) || (65 <= b && b <= 90) || (97 <= b && b <= 122) || b == 95 {
        crate::CharKind::Word
    } else {
        crate::CharKind::Punctuation
    }
}

fn rank_of(k: crate::CharKind) -> (r: usize)
    ensures
        r as int == kind_rank(k),
{
    match k {
        crate::CharKind::Newline => 0,
        crate::CharKind::Punctuation => 1,
        crate::CharKind::Whitespace => 2,
        crate::CharKind::Word => 3,
    }
}

/// The word kind governing position `o`: the higher-ranked of the byte
/// kinds on either side.
pub open spec fn word_kind_at(t: Seq<u8>, o: int) -> Option<crate::CharKind> {
    if o > 0 && o < t.len() {
        if kind_rank(byte_kind(t[o - 1])) >= kind_rank(byte_kind(t[o])) {
            Some(byte_kind(t[o - 1]))
        } else {
            Some(byte_kind(t[o]))
        }
    } else if o > 0 && o <= t.len() {
        Some(byte_kind(t[o - 1]))
    } else if 0 <= o < t.len() {
        Some(byte_kind(t[o]))
    } else {
        None
    }
}

/// The rows contributed by a list of excerpts, one entry per source
/// buffer row each excerpt spans.
pub open spec fn rows_of(exs: Seq<Excerpt>) -> Seq<Option<usize>>
    decreases exs.len(),
{
    if exs.len() == 0 {
        Seq::empty()
    } else {
        rows_of(exs.drop_last()) + row_seq(exs.last())
    }
}

pub open spec fn row_seq(e: Excerpt) -> Seq<Option<usize>> {
    Seq::new((e.content_rows() + 1) as nat, |k: int| Some((e.start_row + k) as usize))
}

pub open spec fn max_row_of(exs: Seq<Excerpt>, i: int) -> int
    decreases i,
{
    if i <= 0 {
        0
    } else if exs[i - 1].max_buf_row() > max_row_of(exs, i - 1) {
        exs[i - 1].max_buf_row()
    } else {
        max_row_of(exs, i - 1)
    }
}

/// Walks the composite's source buffer rows, from a starting composite
/// row.
pub struct MultiBufferRows {
    pub rows: Vec<Option<usize>>,
    pub pos: usize,
}

impl MultiBufferRows {
    /// Repositions the walk at an absolute composite row.
    pub fn seek(&mut self, row: usize)
        ensures
            final(self).pos == row,
            final(self).rows@ == old(self).rows@,
    {
        self.pos = row;
    }

    /// The next source buffer row, if any.
    pub fn next(&mut self) -> (r: Option<Option<usize>>)
        ensures
            old(self).pos < old(self).rows@.len() ==> r == Some(old(self).rows@[old(self).pos as int])
                && final(self).pos == old(self).pos + 1,
            old(self).pos >= old(self).rows@.len() ==> r.is_none() && final(self).pos == old(
                self,
            ).pos,
            final(self).rows@ == old(self).rows@,
    {
        if self.pos < self.rows.len() {
            let r = self.rows[self.pos];
            self.pos += 1;
            Some(r)
        } else {
            None
        }
    }

    /// All remaining rows.
    pub fn collect_rest(&mut self) -> (r: Vec<Option<usize>>)
        ensures
            r@ == if old(self).pos < old(self).rows@.len() {
                old(self).rows@.skip(old(self).pos as int)
            } else {
                Seq::<Option<usize>>::empty()
            },
            final(self).pos == old(self).rows@.len() || final(self).pos == old(self).pos,
    {
        let mut r: Vec<Option<usize>> = Vec::new();
        if self.pos >= self.rows.len() {
            return r;
        }
        while self.pos < self.rows.len()
            invariant
                old(self).pos <= self.pos <= self.rows@.len(),
                self.rows@ == old(self).rows@,
                r@ =~= old(self).rows@.subrange(old(self).pos as int, self.pos as int),
            decreases self.rows@.len() - self.pos,
        {
            r.push(self.rows[self.pos]);
            self.pos += 1;
        }
        proof {
            assert(r@ =~= old(self).rows@.skip(old(self).pos as int));
        }
        r
    }
}

impl MultiBufferSnapshot {
    /// The source buffer rows of the composite, starting at the given
    /// composite row. An empty composition reports a single row zero.
    #[verifier::rlimit(100)]
    pub fn buffer_rows(&self, start_row: usize) -> (r: MultiBufferRows)
        requires
            self.wf(),
        ensures
            r.rows@ == if self.excerpts@.len() == 0 {
                seq![Some(0usize)]
            } else {
                rows_of(self.excerpts@)
            },
            r.pos == start_row,
    {
        let mut rows: Vec<Option<usize>> = Vec::new();
        if self.excerpts.len() == 0 {
            rows.push(Some(0));
            proof {
                assert(rows@ =~= seq![Some(0usize)]);
            }
            return MultiBufferRows { rows, pos: start_row };
        }
        let mut i: usize = 0;
        proof {
            assert(self.excerpts@.take(0int) =~= Seq::<Excerpt>::empty());
        }
        while i < self.excerpts.len()
            invariant
                self.wf(),
                i <= self.excerpts@.len(),
                rows@ == rows_of(self.excerpts@.take(i as int)),
            decreases self.excerpts@.len() - i,
        {
            let e = &self.excerpts[i];
            let content = slice_of(&e.buf_text, e.buf_start, e.buf_end);
            let nrows = count_rows(&content);
            proof {
                lemma_count_nl_bound(content@, content@.len() as int);
            }
            let ghost rows_before = rows@;
            proof {
                lemma_count_nl_bound(
                    self.excerpts@[i as int].buf_text@,
                    self.excerpts@[i as int].buf_start as int,
                );
            }
            let mut k: usize = 0;
            while k <= nrows
                invariant
                    k <= nrows + 1,
                    nrows <= MAX_LEN,
                    self.excerpts@[i as int].start_row <= MAX_LEN,
                    nrows == self.excerpts@[i as int].content_rows(),
                    i < self.excerpts@.len(),
                    self.wf(),
                    content@ == self.excerpts@[i as int].content(),
                    rows@ == rows_before + row_seq(self.excerpts@[i as int]).take(k as int),
                decreases nrows + 1 - k,
            {
                rows.push(Some(self.excerpts[i].start_row + k));
                proof {
                    let rs = row_seq(self.excerpts@[i as int]);
                    assert(rs.take(k + 1 as int) =~= rs.take(k as int) + seq![rs[k as int]]);
                }
                k += 1;
            }
            proof {
                let rs = row_seq(self.excerpts@[i as int]);
                assert(rs.take(rs.len() as int) =~= rs);
                let t2 = self.excerpts@.take(i + 1 as int);
                assert(t2.drop_last() =~= self.excerpts@.take(i as int));
                assert(t2.last() == self.excerpts@[i as int]);
            }
            i += 1;
        }
        proof {
            assert(self.excerpts@.take(self.excerpts@.len() as int) =~= self.excerpts@);
        }
        MultiBufferRows { rows, pos: start_row }
    }

    /// The highest source buffer row any excerpt reaches.
    #[verifier::rlimit(100)]
    pub fn max_buffer_row(&self) -> (r: usize)
        requires
            self.wf(),
        ensures
            r as int == max_row_of(self.excerpts@, self.excerpts@.len() as int),
    {
        let mut r: usize = 0;
        let mut i: usize = 0;
        while i < self.excerpts.len()
            invariant
                self.wf(),
                i <= self.excerpts@.len(),
                r as int == max_row_of(self.excerpts@, i as int),
            decreases self.excerpts@.len() - i,
        {
            let e = &self.excerpts[i];
            let content = slice_of(&e.buf_text, e.buf_start, e.buf_end);
            let nrows = count_rows(&content);
            proof {
                lemma_count_nl_bound(content@, content@.len() as int);
            }
            proof {
                lemma_count_nl_bound(
                    self.excerpts@[i as int].buf_text@,
                    self.excerpts@[i as int].buf_start as int,
                );
            }
            let m = e.start_row + nrows;
            if m > r {
                r = m;
            }
            i += 1;
        }
        r
    }

    /// The byte length of a composite row's line.
    #[verifier::rlimit(100)]
    pub fn line_len(&self, row: usize) -> (r: usize)
        requires
            self.wf(),
        ensures
            r as int == line_len_of(self.text_spec(), row as int),
    {
        let t = self.text();
        let (s, e) = line_bounds(&t, row);
        e - s
    }

    /// Whether a composite row's line holds only blanks.
    #[verifier::rlimit(100)]
    pub fn is_line_blank(&self, row: usize) -> (r: bool)
        requires
            self.wf(),
        ensures
            r == forall|j: int|
                row_start_of(self.text_spec(), row as int) <= j < line_end_from(
                    self.text_spec(),
                    row_start_of(self.text_spec(), row as int),
                ) ==> is_ws(#[trigger] self.text_spec()[j]),
    {
        let t = self.text();
        let (s, e) = line_bounds(&t, row);
        let mut j = s;
        while j < e
            invariant
                s <= j <= e <= t@.len(),
                t@ == self.text_spec(),
                s == row_start_of(t@, row as int),
                e == line_end_from(t@, s as int),
                forall|q: int| s <= q < j ==> is_ws(#[trigger] t@[q]),
            decreases e - j,
        {
            let b = t[j];
            if !(b == 32 || b == 9 || b == 13) {
                return false;
            }
            j += 1;
        }
        true
    }

    /// Whether the bytes starting at a clipped position equal `needle`.
    #[verifier::rlimit(100)]
    pub fn contains_str_at(&self, position: usize, needle: &Vec<u8>) -> (r: bool)
        requires
            self.wf(),
        ensures
            r == (clip_of(self.text_spec(), position as int, Bias::Left) == position && position
                + needle@.len() <= self.len_spec() && self.text_spec().subrange(
                position as int,
                position + needle@.len(),
            ) == needle@),
    {
        let t = self.text();
        let c = clip_offset_in(&t, position, Bias::Left);
        if c != position {
            return false;
        }
        if needle.len() > t.len() - position {
            return false;
        }
        let mut j: usize = 0;
        let mut idx: usize = position;
        while j < needle.len()
            invariant
                j <= needle@.len(),
                idx == position + j,
                position + needle@.len() <= t@.len(),
                t@.len() <= usize::MAX,
                t@ == self.text_spec(),
                forall|q: int| 0 <= q < j ==> t@[position + q] == needle@[q],
            decreases needle@.len() - j,
        {
            if t[idx] != needle[j] {
                proof {
                    assert(self.text_spec().subrange(
                        position as int,
                        position + needle@.len(),
                    )[j as int] != needle@[j as int]);
                }
                return false;
            }
            idx += 1;
            j += 1;
        }
        proof {
            assert(self.text_spec().subrange(position as int, position + needle@.len())
                =~= needle@);
        }
        true
    }

    /// The maximal run of same-kind bytes around a position, and that
    /// kind: the governing kind is the higher-ranked of the bytes on
    /// either side.
    #[verifier::rlimit(100)]
    pub fn surrounding_word(&self, start: usize) -> (r: ((usize, usize), Option<crate::CharKind>))
        requires
            self.wf(),
            start <= self.len_spec(),
        ensures
            r.1 == word_kind_at(self.text_spec(), start as int),
            r.0.0 <= start <= r.0.1 <= self.len_spec(),
            forall|j: int|
                r.0.0 <= j < r.0.1 ==> Some(byte_kind(#[trigger] self.text_spec()[j])) == r.1,
            r.0.0 > 0 ==> Some(byte_kind(self.text_spec()[r.0.0 - 1])) != r.1,
            r.0.1 < self.len_spec() ==> Some(byte_kind(self.text_spec()[r.0.1 as int])) != r.1,
    {
        let t = self.text();
        let n = t.len();
        let wk: Option<crate::CharKind> = if start > 0 && start < n {
            let kp = byte_kind_at(t[start - 1]);
            let kn = byte_kind_at(t[start]);
            if rank_of(kp) >= rank_of(kn) {
                Some(kp)
            } else {
                Some(kn)
            }
        } else if start > 0 {
            Some(byte_kind_at(t[start - 1]))
        } else if start < n {
            Some(byte_kind_at(t[start]))
        } else {
            None
        };
        let mut rs = start;
        let mut re = start;
        match wk {
            None => {},
            Some(k) => {
                while rs > 0
                    invariant
                        rs <= start <= n,
                        n == t@.len(),
                        t@ == self.text_spec(),
                        Some(k) == word_kind_at(t@, start as int),
                        forall|j: int| rs <= j < start ==> byte_kind(#[trigger] t@[j]) == k,
                    ensures
                        rs <= start <= n,
                        forall|j: int| rs <= j < start ==> byte_kind(#[trigger] t@[j]) == k,
                        rs > 0 ==> byte_kind(t@[rs - 1]) != k,
                    decreases rs,
                {
                    let b = t[rs - 1];
                    let bk = byte_kind_at(b);
                    let same = match (bk, k) {
                        (crate::CharKind::Newline, crate::CharKind::Newline) => true,
                        (crate::CharKind::Punctuation, crate::CharKind::Punctuation) => true,
                        (crate::CharKind::Whitespace, crate::CharKind::Whitespace) => true,
                        (crate::CharKind::Word, crate::CharKind::Word) => true,
                        _ => false,
                    };
                    if !same {
                        break;
                    }
                    rs -= 1;
                }
                while re < n
                    invariant
                        start <= re <= n,
                        n == t@.len(),
                        t@ == self.text_spec(),
                        Some(k) == word_kind_at(t@, start as int),
                        forall|j: int| start <= j < re ==> byte_kind(#[trigger] t@[j]) == k,
                    ensures
                        start <= re <= n,
                        forall|j: int| start <= j < re ==> byte_kind(#[trigger] t@[j]) == k,
                        re < n ==> byte_kind(t@[re as int]) != k,
                    decreases n - re,
                {
                    let b = t[re];
                    let bk = byte_kind_at(b);
                    let same = match (bk, k) {
                        (crate::CharKind::Newline, crate::CharKind::Newline) => true,
                        (crate::CharKind::Punctuation, crate::CharKind::Punctuation) => true,
                        (crate::CharKind::Whitespace, crate::CharKind::Whitespace) => true,
                        (crate::CharKind::Word, crate::CharKind::Word) => true,
                        _ => false,
                    };
                    if !same {
                        break;
                    }
                    re += 1;
                }
            },
        }
        ((rs, re), wk)
    }

    /// Clips a line/column point of the composite text.
    #[verifier::rlimit(100)]
    pub fn clip_point(&self, p: Point, bias: Bias) -> (r: Point)
        requires
            self.wf(),
        ensures
            r == clip_point_of(self.text_spec(), p, bias),
    {
        let t = self.text();
        clip_point_in(&t, p, bias)
    }

    /// Clips a UTF-16 point of the composite text: the row is clamped,
    /// and the column snaps to a character boundary of the row's line.
    #[verifier::rlimit(100)]
    pub fn clip_point_utf16(&self, p: PointUtf16, bias: Bias) -> (r: PointUtf16)
        requires
            self.wf(),
        ensures
            ({
                let t = self.text_spec();
                let rows = count_nl(t, t.len() as int) as int;
                let row = if p.row > rows {
                    rows
                } else {
                    p.row as int
                };
                &&& r.row as int == row
                &&& exists|o: int|
                    row_start_of(t, row) <= o <= line_end_from(t, row_start_of(t, row)) && (o
                        == t.len() || !is_cont(t[o])) && point_u16_of(t, o) == r
            }),
    {
        let t = self.text();
        proof {
            lemma_text_of_len(self.excerpts@);
            lemma_count_nl_bound(t@, t@.len() as int);
        }
        let rows = count_rows(&t);
        let row = if p.row > rows {
            rows
        } else {
            p.row
        };
        let (ls, le) = line_bounds(&t, row);
        let start_pu = offset_to_point_utf16_in(&t, ls);
        let ghost trow: int = row as int;
        proof {
            lemma_u16_col_bound(t@, ls as int);
            assert forall|q: int| ls <= q < le implies !(#[trigger] t@[q] == 10u8) by {
                lemma_line_interior(t@, ls as int, q);
            }
        }
        let mut o: usize = ls;
        let mut c: usize = start_pu.column;
        let mut best_le_o: usize = ls;
        let mut best_le_c: usize = start_pu.column;
        let mut found_le: bool = false;
        let mut first_ge_o: usize = ls;
        let mut first_ge_c: usize = start_pu.column;
        let mut found_ge: bool = false;
        loop
            invariant
                ls <= o <= le <= t@.len(),
                t@.len() <= MAX_LEN,
                c <= 2 * (o as int),
                best_le_c <= 2 * MAX_LEN,
                first_ge_c <= 2 * MAX_LEN,
                t@ == self.text_spec(),
                ls == row_start_of(t@, trow),
                le == line_end_from(t@, ls as int),
                c == u16_col(t@, o as int),
                count_nl(t@, o as int) == count_nl(t@, ls as int),
                forall|q: int| ls <= q < le ==> !(#[trigger] t@[q] == 10u8),
                found_le ==> ls <= best_le_o <= o && (best_le_o == t@.len() || !is_cont(
                    t@[best_le_o as int],
                )) && u16_col(t@, best_le_o as int) == best_le_c && count_nl(
                    t@,
                    best_le_o as int,
                ) == count_nl(t@, ls as int) && best_le_c <= p.column,
                found_ge ==> ls <= first_ge_o <= o && (first_ge_o == t@.len() || !is_cont(
                    t@[first_ge_o as int],
                )) && u16_col(t@, first_ge_o as int) == first_ge_c && count_nl(
                    t@,
                    first_ge_o as int,
                ) == count_nl(t@, ls as int) && first_ge_c >= p.column,
            ensures
                o == le,
                c == u16_col(t@, le as int),
            decreases le - o,
        {
            let at_boundary: bool = if o >= t.len() {
                true
            } else {
                let b = t[o];
                !(128 <= b && b < 192)
            };
            if at_boundary {
                if c <= p.column {
                    best_le_o = o;
                    best_le_c = c;
                    found_le = true;
                }
                if c >= p.column && !found_ge {
                    first_ge_o = o;
                    first_ge_c = c;
                    found_ge = true;
                }
            }
            if o == le {
                break;
            }
            let b = t[o];
            if 128 <= b && b < 192 {
            } else if b >= 240 {
                c += 2;
            } else {
                c += 1;
            }
            proof {
                assert(!is_nl(t@[o as int])) by {
                    if o as int == le {
                    } else {
                        lemma_line_interior(t@, ls as int, o as int);
                    }
                }
            }
            o += 1;
        }
        // the line end is always a boundary, so at least one side is set
        let (ro, rc) = match bias {
            Bias::Left => {
                if found_le {
                    (best_le_o, best_le_c)
                } else {
                    (le, c)
                }
            },
            Bias::Right => {
                if found_ge {
                    (first_ge_o, first_ge_c)
                } else {
                    (le, c)
                }
            },
        };
        proof {
            assert(le == t@.len() || !is_cont(t@[le as int])) by {
                if (le as int) < t@.len() {
                    lemma_line_end_is_nl(t@, ls as int);
                }
            }
            assert(count_nl(t@, ro as int) == count_nl(t@, ls as int));
            lemma_row_of_line_start(t@, trow);
            lemma_count_nl_bound(t@, ro as int);
            lemma_u16_col_bound(t@, ro as int);
            assert(row_start_of(t@, trow) <= ro as int <= line_end_from(
                t@,
                row_start_of(t@, trow),
            ) && (ro as int == t@.len() || !is_cont(t@[ro as int])) && point_u16_of(t@, ro as int)
                == (PointUtf16 { row, column: rc }));
        }
        PointUtf16 { row, column: rc }
    }
}

/// All anchors the library hands out keep their offsets within the
/// global size bound.
pub open spec fn anchor_bounded(a: Anchor) -> bool {
    a.text_anchor.offset <= MAX_LEN
}

/// Whether an excerpt contains an anchor: same buffer, and the anchor's
/// position, carried to the excerpt's version, falls within its range.
pub open spec fn contains_spec(e: Excerpt, a: Anchor) -> bool {
    &&& e.buffer_id == a.buffer_id
    &&& e.buf_start <= resolve_steps(
        e.steps@,
        a.text_anchor.version as int,
        e.version as int,
        a.text_anchor.offset as int,
        a.text_anchor.bias,
    ) <= e.buf_end
}

/// The composite offset an anchor resolves to: the start of the excerpt
/// it names, plus its position within that excerpt when the excerpt
/// still exists for the same buffer; the boundary alone when it is
/// gone.
pub open spec fn anchor_offset_spec(s: MultiBufferSnapshot, a: Anchor) -> int {
    let exs = s.excerpts@;
    let i = find_ix(exs, a.excerpt_id@, 0);
    let base = prefix_len(exs, i);
    if i < exs.len() && exs[i].id@ =~= a.excerpt_id@ && exs[i].buffer_id == a.buffer_id {
        let resolved = resolve_steps(
            exs[i].steps@,
            a.text_anchor.version as int,
            exs[i].version as int,
            a.text_anchor.offset as int,
            a.text_anchor.bias,
        );
        let hi = if resolved > exs[i].buf_end {
            exs[i].buf_end as int
        } else {
            resolved
        };
        base + if hi > exs[i].buf_start {
            hi - exs[i].buf_start
        } else {
            0
        }
    } else {
        base
    }
}

/// The excerpt index an offset's anchor attaches to: the excerpt under
/// the offset, or the last one when the offset sits at the very end
/// with left bias.
pub open spec fn anchor_ix_spec(exs: Seq<Excerpt>, offset: int, bias: Bias) -> int {
    let si = seek_ix(exs, 0, offset);
    if si == exs.len() && exs.len() > 0 && offset == prefix_len(exs, exs.len() as int) && bias
        == Bias::Left {
        exs.len() - 1
    } else {
        si
    }
}

/// The excerpt under an offset, falling back to the one before the end.
pub open spec fn ix_or_prev(exs: Seq<Excerpt>, o: int) -> int {
    let i = seek_ix(exs, 0, o);
    if i == exs.len() {
        i - 1
    } else {
        i
    }
}

/// What `anchor_at` returns: the anchor names the excerpt under the
/// offset (stepping back to the last excerpt at the very end with left
/// bias), its buffer offset is the overshoot from the excerpt's start,
/// snapped off a trailing newline with right bias, clipped to a
/// character boundary, and clamped into the excerpt's range; with no
/// excerpt it is a sentinel chosen by the bias.
#[verifier::opaque]
pub open spec fn anchor_at_post(s: MultiBufferSnapshot, offset: int, bias: Bias, r: Anchor) -> bool {
    let exs = s.excerpts@;
    let i = anchor_ix_spec(exs, offset, bias);
    if 0 <= i < exs.len() {
        let pre = prefix_len(exs, i);
        let trailing_pos = exs[i].has_trailing_newline && offset == pre + exs[i].full_len();
        let ov = if trailing_pos {
            offset - pre - 1
        } else {
            offset - pre
        };
        let b2 = if trailing_pos {
            Bias::Right
        } else {
            bias
        };
        let bo = exs[i].buf_start + ov;
        let bc = clip_of(exs[i].buf_text@, bo, b2);
        let bo2 = if bc > exs[i].buf_end {
            exs[i].buf_end as int
        } else if bc < exs[i].buf_start {
            exs[i].buf_start as int
        } else {
            bc
        };
        r.buffer_id == exs[i].buffer_id && r.excerpt_id@ == exs[i].id@ && r.text_anchor.version
            == exs[i].version && r.text_anchor.offset == bo2 && r.text_anchor.bias == b2
    } else if offset == 0 && bias == Bias::Left {
        r.is_min_spec() && r.text_anchor.bias == Bias::Left && r.text_anchor.offset == 0
    } else {
        r.is_max_spec() && r.text_anchor.bias == Bias::Right && r.text_anchor.offset == 0
    }
}

/// Whether a snapshot can place the anchor: sentinels always resolve;
/// otherwise the excerpt it names must exist, for the same buffer, at a
/// version no older than the anchor.
pub open spec fn resolvable_spec(s: MultiBufferSnapshot, a: Anchor) -> bool {
    ||| a.is_sentinel()
    ||| {
        let exs = s.excerpts@;
        let i = find_ix(exs, a.excerpt_id@, 0);
        &&& i < exs.len()
        &&& exs[i].id@ =~= a.excerpt_id@
        &&& exs[i].buffer_id == a.buffer_id
        &&& a.text_anchor.version <= exs[i].version
        &&& a.text_anchor.offset as int <= len_at_version_steps(
            exs[i].steps@,
            exs[i].buf_base_len as int,
            a.text_anchor.version as int,
        )
    }
}

impl MultiBufferSnapshot {
    /// Finds the excerpt containing `o` and its composite start offset;
    /// the index is the excerpt count when `o` is at or past the end.
    #[verifier::rlimit(100)]
    fn locate_offset(&self, o: usize) -> (r: (usize, usize))
        requires
            self.wf(),
        ensures
            r.0 as int == seek_ix(self.excerpts@, 0, o as int),
            r.1 as int == prefix_len(self.excerpts@, r.0 as int),
            r.1 <= o,
            r.0 <= self.excerpts@.len(),
            r.0 < self.excerpts@.len() ==> (o as int) < r.1 + self.excerpts@[r.0 as int].full_len(),
    {
        let n = self.excerpts.len();
        let mut i: usize = 0;
        let mut start: usize = 0;
        loop
            invariant
                self.wf(),
                n == self.excerpts@.len(),
                i <= n,
                start as int == prefix_len(self.excerpts@, i as int),
                start <= o,
                start <= MAX_LEN,
                seek_ix(self.excerpts@, 0, o as int) == seek_ix(self.excerpts@, i as int, o as int),
            decreases n - i,
        {
            if i == n {
                return (i, start);
            }
            proof {
                lemma_prefix_len_bound(self.excerpts@, i + 1 as int);
            }
            let e = &self.excerpts[i];
            let mut flen = e.buf_end - e.buf_start;
            if e.has_trailing_newline {
                flen = flen + 1;
            }
            if o < start + flen {
                return (i, start);
            }
            start = start + flen;
            i += 1;
        }
    }

    /// Finds the first excerpt whose id is at or after `id`, and its
    /// composite start offset.
    #[verifier::rlimit(100)]
    fn locate_id(&self, id: &Locator) -> (r: (usize, usize))
        requires
            self.wf(),
        ensures
            r.0 as int == find_ix(self.excerpts@, id@, 0),
            r.1 as int == prefix_len(self.excerpts@, r.0 as int),
            r.0 <= self.excerpts@.len(),
    {
        let n = self.excerpts.len();
        let mut i: usize = 0;
        let mut start: usize = 0;
        loop
            invariant
                self.wf(),
                n == self.excerpts@.len(),
                i <= n,
                start as int == prefix_len(self.excerpts@, i as int),
                find_ix(self.excerpts@, id@, 0) == find_ix(self.excerpts@, id@, i as int),
            decreases n - i,
        {
            if i == n {
                return (i, start);
            }
            if id.le(&self.excerpts[i].id) {
                return (i, start);
            }
            proof {
                lemma_prefix_len_bound(self.excerpts@, i + 1 as int);
                lemma_prefix_len_bound(self.excerpts@, self.excerpts@.len() as int);
            }
            let e = &self.excerpts[i];
            let mut flen = e.buf_end - e.buf_start;
            if e.has_trailing_newline {
                flen = flen + 1;
            }
            start = start + flen;
            i += 1;
        }
    }

    /// The composite offset an anchor resolves to.
    #[verifier::rlimit(100)]
    pub fn summary_for_anchor(&self, a: &Anchor) -> (r: usize)
        requires
            self.wf(),
            anchor_bounded(*a),
        ensures
            r as int == anchor_offset_spec(*self, *a),
            r <= self.len_spec(),
    {
        proof {
            lemma_text_of_len(self.excerpts@);
            lemma_prefix_len_bound(self.excerpts@, self.excerpts@.len() as int);
        }
        let (i, base) = self.locate_id(&a.excerpt_id);
        proof {
            lemma_prefix_len_bound(self.excerpts@, i as int);
        }
        if i < self.excerpts.len() {
            let e = &self.excerpts[i];
            if e.id.eq(&a.excerpt_id) && e.buffer_id == a.buffer_id {
                let resolved = resolve_pos(
                    &e.steps,
                    a.text_anchor.version,
                    e.version,
                    a.text_anchor.offset,
                    a.text_anchor.bias,
                );
                let hi = if resolved > e.buf_end {
                    e.buf_end
                } else {
                    resolved
                };
                let extra = if hi > e.buf_start {
                    hi - e.buf_start
                } else {
                    0
                };
                proof {
                    lemma_prefix_len_bound(self.excerpts@, i + 1 as int);
                }
                return base + extra;
            }
        }
        base
    }

    /// Composite offsets for a list of anchors, in input order.
    #[verifier::rlimit(100)]
    pub fn summaries_for_anchors(&self, anchors: &Vec<Anchor>) -> (r: Vec<usize>)
        requires
            self.wf(),
            forall|k: int| 0 <= k < anchors@.len() ==> anchor_bounded(#[trigger] anchors@[k]),
        ensures
            r@.len() == anchors@.len(),
            forall|k: int|
                0 <= k < anchors@.len() ==> (#[trigger] r@[k]) as int == anchor_offset_spec(
                    *self,
                    anchors@[k],
                ) && r@[k] <= self.len_spec(),
    {
        let mut r: Vec<usize> = Vec::new();
        let mut k: usize = 0;
        while k < anchors.len()
            invariant
                self.wf(),
                k <= anchors@.len(),
                r@.len() == k,
                forall|q: int| 0 <= q < anchors@.len() ==> anchor_bounded(#[trigger] anchors@[q]),
                forall|q: int|
                    0 <= q < k ==> (#[trigger] r@[q]) as int == anchor_offset_spec(
                        *self,
                        anchors@[q],
                    ) && r@[q] <= self.len_spec(),
            decreases anchors@.len() - k,
        {
            let s = self.summary_for_anchor(&anchors[k]);
            r.push(s);
            k += 1;
        }
        r
    }

    /// An anchor at the given composite offset. With left bias it stays
    /// before content inserted there; with right bias it follows it.
    #[verifier::rlimit(100)]
    #[verifier::spinoff_prover]
    pub fn anchor_at(&self, offset: usize, bias: Bias) -> (r: Anchor)
        requires
            self.wf(),
            offset <= self.len_spec(),
        ensures
            anchor_bounded(r),
            anchor_at_post(*self, offset as int, bias, r),
    {
        proof {
            lemma_text_of_len(self.excerpts@);
        }
        let (si, sstart) = self.locate_offset(offset);
        let n = self.excerpts.len();
        let mut i = si;
        let mut pre = sstart;
        let is_left = match bias {
            Bias::Left => true,
            Bias::Right => false,
        };
        if si == n && n > 0 && is_left {
            // offset can only equal the total length here
            i = n - 1;
            let e = &self.excerpts[i];
            let mut flen = e.buf_end - e.buf_start;
            if e.has_trailing_newline {
                flen = flen + 1;
            }
            pre = sstart - flen;
            proof {
                assert(prefix_len(self.excerpts@, n as int) == prefix_len(
                    self.excerpts@,
                    n - 1 as int,
                ) + self.excerpts@[n - 1].full_len());
            }
        }
        if i < n {
            let e = &self.excerpts[i];
            let mut ov = offset - pre;
            let mut b2 = bias;
            let mut flen = e.buf_end - e.buf_start;
            if e.has_trailing_newline {
                flen = flen + 1;
            }
            if e.has_trailing_newline && offset == pre + flen {
                ov = ov - 1;
                b2 = Bias::Right;
            }
            let bo = e.buf_start + ov;
            let bc = clip_offset_in(&e.buf_text, bo, b2);
            let bo2 = if bc > e.buf_end {
                e.buf_end
            } else if bc < e.buf_start {
                e.buf_start
            } else {
                bc
            };
            let out = Anchor {
                buffer_id: e.buffer_id,
                excerpt_id: e.id.clone(),
                text_anchor: BufAnchor { version: e.version, offset: bo2, bias: b2 },
            };
            proof {
                assert(anchor_at_post(*self, offset as int, bias, out)) by {
                    reveal(anchor_at_post);
                }
            }
            out
        } else if offset == 0 && is_left {
            let out = Anchor::min();
            proof {
                assert(anchor_at_post(*self, offset as int, bias, out)) by {
                    reveal(anchor_at_post);
                }
            }
            out
        } else {
            let out = Anchor::max();
            proof {
                assert(anchor_at_post(*self, offset as int, bias, out)) by {
                    reveal(anchor_at_post);
                }
            }
            out
        }
    }

    /// An anchor before the position: it stays put when text is
    /// inserted at it.
    pub fn anchor_before(&self, offset: usize) -> (r: Anchor)
        requires
            self.wf(),
            offset <= self.len_spec(),
        ensures
            anchor_bounded(r),
            anchor_at_post(*self, offset as int, Bias::Left, r),
    {
        self.anchor_at(offset, Bias::Left)
    }

    /// An anchor after the position: it follows text inserted at it.
    pub fn anchor_after(&self, offset: usize) -> (r: Anchor)
        requires
            self.wf(),
            offset <= self.len_spec(),
        ensures
            anchor_bounded(r),
            anchor_at_post(*self, offset as int, Bias::Right, r),
    {
        self.anchor_at(offset, Bias::Right)
    }

    /// Whether this snapshot can place the anchor.
    #[verifier::rlimit(100)]
    pub fn can_resolve(&self, a: &Anchor) -> (r: bool)
        requires
            self.wf(),
        ensures
            r == resolvable_spec(*self, *a),
    {
        let minl = Locator::min();
        let maxl = Locator::max();
        if a.excerpt_id.eq(&minl) || a.excerpt_id.eq(&maxl) {
            return true;
        }
        let (i, _) = self.locate_id(&a.excerpt_id);
        if i < self.excerpts.len() {
            let e = &self.excerpts[i];
            if e.id.eq(&a.excerpt_id) && e.buffer_id == a.buffer_id && a.text_anchor.version
                <= e.version {
                let vl = version_len_of(&e.steps, e.buf_base_len, a.text_anchor.version);
                return a.text_anchor.offset <= vl;
            }
        }
        false
    }

    /// Pins a buffer-level anchor into the named excerpt, clamping it
    /// to the excerpt's range. The excerpt must exist.
    #[verifier::rlimit(100)]
    pub fn anchor_in_excerpt(&self, excerpt_id: &Locator, text_anchor: BufAnchor) -> (r: Anchor)
        requires
            self.wf(),
            text_anchor.offset <= MAX_LEN,
            ({
                let i = find_ix(self.excerpts@, excerpt_id@, 0);
                i < self.excerpts@.len() && self.excerpts@[i].id@ =~= excerpt_id@
            }),
        ensures
            anchor_bounded(r),
            r.excerpt_id@ == excerpt_id@,
            ({
                let i = find_ix(self.excerpts@, excerpt_id@, 0);
                let e = self.excerpts@[i];
                let resolved = resolve_steps(
                    e.steps@,
                    text_anchor.version as int,
                    e.version as int,
                    text_anchor.offset as int,
                    text_anchor.bias,
                );
                &&& r.buffer_id == e.buffer_id
                &&& r.text_anchor.version <= e.version
                &&& r.text_anchor == (if text_anchor.version > e.version {
                    e.start_anchor
                } else if resolved < e.buf_start {
                    e.start_anchor
                } else if resolved > e.buf_end {
                    e.end_anchor
                } else {
                    text_anchor
                })
            }),
    {
        let (i, _) = self.locate_id(excerpt_id);
        let e = &self.excerpts[i];
        let resolved = resolve_pos(
            &e.steps,
            text_anchor.version,
            e.version,
            text_anchor.offset,
            text_anchor.bias,
        );
        let ta = if text_anchor.version > e.version {
            // an anchor from the future cannot be placed; pin to the start
            e.start_anchor
        } else if resolved < e.buf_start {
            e.start_anchor
        } else if resolved > e.buf_end {
            e.end_anchor
        } else {
            text_anchor
        };
        Anchor { buffer_id: e.buffer_id, excerpt_id: e.id.clone(), text_anchor: ta }
    }

    /// Whether a composite range spans more than one excerpt.
    #[verifier::rlimit(100)]
    pub fn range_contains_excerpt_boundary(&self, start: usize, end: usize) -> (r: bool)
        requires
            self.wf(),
        ensures
            r == (ix_or_prev(self.excerpts@, start as int) != ix_or_prev(
                self.excerpts@,
                end as int,
            )),
    {
        let (si, _) = self.locate_offset(start);
        let (ei, _) = self.locate_offset(end);
        let n = self.excerpts.len();
        let si2 = if si == n && n > 0 {
            n - 1
        } else {
            si
        };
        let ei2 = if ei == n && n > 0 {
            n - 1
        } else {
            ei
        };
        proof {
            if n == 0 {
                assert(seek_ix(self.excerpts@, 0, start as int) == 0);
            }
        }
        si2 != ei2
    }

    /// Re-targets anchors after excerpt changes, in input order. An
    /// anchor whose excerpt (or an adjacent excerpt) still contains its
    /// position keeps it; otherwise it is pinned to the nearest edge of
    /// an adjacent excerpt and reported as moved.
    #[verifier::rlimit(100)]
    pub fn refresh_anchors(&self, anchors: &Vec<Anchor>) -> (r: Vec<(usize, Anchor, bool)>)
        requires
            self.wf(),
            forall|k: int| 0 <= k < anchors@.len() ==> anchor_bounded(#[trigger] anchors@[k]),
        ensures
            r@.len() == anchors@.len(),
            forall|k: int| 0 <= k < r@.len() ==> (#[trigger] r@[k]).0 == k,
            forall|k: int|
                0 <= k < r@.len() ==> refresh_result_ok(
                    *self,
                    anchors@[k],
                    (#[trigger] r@[k]).1,
                    r@[k].2,
                ),
    {
        let n = self.excerpts.len();
        let mut r: Vec<(usize, Anchor, bool)> = Vec::new();
        let mut k: usize = 0;
        while k < anchors.len()
            invariant
                self.wf(),
                n == self.excerpts@.len(),
                k <= anchors@.len(),
                r@.len() == k,
                forall|q: int| 0 <= q < anchors@.len() ==> anchor_bounded(#[trigger] anchors@[q]),
                forall|q: int| 0 <= q < k ==> (#[trigger] r@[q]).0 == q,
                forall|q: int|
                    0 <= q < k ==> refresh_result_ok(
                        *self,
                        anchors@[q],
                        (#[trigger] r@[q]).1,
                        r@[q].2,
                    ),
            decreases anchors@.len() - k,
        {
            let (out, kept) = self.refresh_one(&anchors[k]);
            r.push((k, out, kept));
            k += 1;
        }
        r
    }

    /// Re-targets one anchor, per `refresh_result_ok`.
    #[verifier::rlimit(100)]
    fn refresh_one(&self, a: &Anchor) -> (r: (Anchor, bool))
        requires
            self.wf(),
            anchor_bounded(*a),
        ensures
            refresh_result_ok(*self, *a, r.0, r.1),
    {
        let n = self.excerpts.len();
        let minl = Locator::min();
        let maxl = Locator::max();
        if a.excerpt_id.eq(&minl) || a.excerpt_id.eq(&maxl) {
            return (a.clone_anchor(), true);
        }
        let (i, _) = self.locate_id(&a.excerpt_id);
        if i < n && self.excerpt_contains(i, a) {
            // the anchor's position survives in the excerpt at its
            // location (same id or a successor that holds it)
            let e = &self.excerpts[i];
            let out = Anchor {
                buffer_id: e.buffer_id,
                excerpt_id: e.id.clone(),
                text_anchor: a.text_anchor,
            };
            return (out, true);
        }
        if i > 0 && self.excerpt_contains(i - 1, a) {
            let e = &self.excerpts[i - 1];
            let out = Anchor {
                buffer_id: e.buffer_id,
                excerpt_id: e.id.clone(),
                text_anchor: a.text_anchor,
            };
            return (out, true);
        }
        if i < n {
            let e = &self.excerpts[i];
            let out = Anchor {
                buffer_id: e.buffer_id,
                excerpt_id: e.id.clone(),
                text_anchor: BufAnchor {
                    version: e.version,
                    offset: e.buf_start,
                    bias: a.text_anchor.bias,
                },
            };
            return (out, false);
        }
        if n > 0 {
            let e = &self.excerpts[n - 1];
            let out = Anchor {
                buffer_id: e.buffer_id,
                excerpt_id: e.id.clone(),
                text_anchor: BufAnchor {
                    version: e.version,
                    offset: e.buf_end,
                    bias: a.text_anchor.bias,
                },
            };
            return (out, false);
        }
        let lb = match a.text_anchor.bias {
            Bias::Left => true,
            Bias::Right => false,
        };
        if lb {
            (Anchor::min(), false)
        } else {
            (Anchor::max(), false)
        }
    }

    /// Whether excerpt `i` contains the anchor.
    #[verifier::rlimit(100)]
    fn excerpt_contains(&self, i: usize, a: &Anchor) -> (r: bool)
        requires
            self.wf(),
            i < self.excerpts@.len(),
            anchor_bounded(*a),
        ensures
            r == contains_spec(self.excerpts@[i as int], *a),
    {
        let e = &self.excerpts[i];
        if e.buffer_id != a.buffer_id {
            return false;
        }
        let resolved = resolve_pos(
            &e.steps,
            a.text_anchor.version,
            e.version,
            a.text_anchor.offset,
            a.text_anchor.bias,
        );
        e.buf_start <= resolved && resolved <= e.buf_end
    }
}

/// What a refresh returns for one anchor: whether its position was
/// kept, and where the result points. A kept non-sentinel anchor keeps
/// its buffer position and names an excerpt that contains it; a moved
/// anchor is pinned to the start of the excerpt at its location, the
/// end of the one before, or a sentinel when the composition is empty.
pub open spec fn refresh_result_ok(
    s: MultiBufferSnapshot,
    a: Anchor,
    out: Anchor,
    kept: bool,
) -> bool {
    let exs = s.excerpts@;
    let i = find_ix(exs, a.excerpt_id@, 0);
    &&& (kept <==> refresh_kept_spec(s, a))
    &&& anchor_bounded(out)
    &&& (a.is_sentinel() ==> out.excerpt_id@ == a.excerpt_id@ && out.text_anchor == a.text_anchor)
    &&& (kept && !a.is_sentinel() ==> out.text_anchor == a.text_anchor && (if i < exs.len()
        && contains_spec(exs[i], a) {
        out.excerpt_id@ == exs[i].id@ && out.buffer_id == exs[i].buffer_id
    } else {
        0 < i && i <= exs.len() && contains_spec(exs[i - 1], a) && out.excerpt_id@ == exs[i
            - 1].id@ && out.buffer_id == exs[i - 1].buffer_id
    }))
    &&& (!kept ==> (if i < exs.len() {
        out.excerpt_id@ == exs[i].id@ && out.buffer_id == exs[i].buffer_id
            && out.text_anchor.version == exs[i].version && out.text_anchor.offset
            == exs[i].buf_start && out.text_anchor.bias == a.text_anchor.bias
    } else if exs.len() > 0 {
        out.excerpt_id@ == exs[exs.len() - 1].id@ && out.buffer_id == exs[exs.len()
            - 1].buffer_id && out.text_anchor.version == exs[exs.len() - 1].version
            && out.text_anchor.offset == exs[exs.len() - 1].buf_end && out.text_anchor.bias
            == a.text_anchor.bias
    } else {
        (a.text_anchor.bias == Bias::Left ==> out.is_min_spec()) && (a.text_anchor.bias
            == Bias::Right ==> out.is_max_spec())
    }))
}

/// Whether a refresh keeps an anchor's position: sentinels always keep
/// it; otherwise the excerpt at the anchor's location, or the one just
/// before it, must contain the anchor.
pub open spec fn refresh_kept_spec(s: MultiBufferSnapshot, a: Anchor) -> bool {
    ||| a.is_sentinel()
    ||| {
        let exs = s.excerpts@;
        let i = find_ix(exs, a.excerpt_id@, 0);
        ||| (i < exs.len() && contains_spec(exs[i], a))
        ||| (0 < i && i <= exs.len() && i - 1 < exs.len() && contains_spec(exs[i - 1], a))
    }
}

/// A stream of text pieces over a composite range.
pub struct MultiBufferChunks {
    pub data: Vec<u8>,
    pub base: usize,
    pub pos: usize,
}

impl MultiBufferChunks {
    /// The composite offset of the next piece.
    pub fn offset(&self) -> (r: usize)
        requires
            self.base + self.pos <= usize::MAX,
        ensures
            r == self.base + self.pos,
    {
        self.base + self.pos
    }

    /// Repositions the stream at an absolute composite offset.
    pub fn seek(&mut self, offset: usize)
        requires
            old(self).base <= offset,
            offset <= old(self).base + old(self).data@.len(),
        ensures
            final(self).pos == offset - old(self).base,
            final(self).data@ == old(self).data@,
            final(self).base == old(self).base,
    {
        self.pos = offset - self.base;
    }

    /// The next piece of text, if any.
    pub fn next(&mut self) -> (r: Option<Vec<u8>>)
        ensures
            old(self).pos < old(self).data@.len() ==> r.is_some() && r.unwrap()@ == old(
                self,
            ).data@.skip(old(self).pos as int) && final(self).pos == old(self).data@.len(),
            old(self).pos >= old(self).data@.len() ==> r.is_none(),
            final(self).data@ == old(self).data@,
            final(self).base == old(self).base,
    {
        if self.pos < self.data.len() {
            let piece = slice_of(&self.data, self.pos, self.data.len());
            self.pos = self.data.len();
            proof {
                assert(piece@ =~= self.data@.skip(old(self).pos as int));
            }
            Some(piece)
        } else {
            None
        }
    }
}

/// A stream of raw bytes over a composite range.
pub struct MultiBufferBytes {
    pub data: Vec<u8>,
    pub pos: usize,
}

impl MultiBufferBytes {
    /// The next run of bytes, if any.
    pub fn next(&mut self) -> (r: Option<Vec<u8>>)
        ensures
            old(self).pos < old(self).data@.len() ==> r.is_some() && r.unwrap()@ == old(
                self,
            ).data@.skip(old(self).pos as int) && final(self).pos == old(self).data@.len(),
            old(self).pos >= old(self).data@.len() ==> r.is_none(),
            final(self).data@ == old(self).data@,
    {
        if self.pos < self.data.len() {
            let piece = slice_of(&self.data, self.pos, self.data.len());
            self.pos = self.data.len();
            proof {
                assert(piece@ =~= self.data@.skip(old(self).pos as int));
            }
            Some(piece)
        } else {
            None
        }
    }

    /// Copies up to `max` bytes into `out`, advancing past them;
    /// returns how many were copied.
    pub fn read(&mut self, out: &mut Vec<u8>, max: usize) -> (r: usize)
        ensures
            r == if old(self).data@.len() - old(self).pos < max {
                old(self).data@.len() - old(self).pos
            } else {
                max as int
            } || old(self).pos > old(self).data@.len(),
            final(self).data@ == old(self).data@,
            final(out)@ == old(out)@ + old(self).data@.subrange(
                old(self).pos as int,
                old(self).pos + r,
            ) || old(self).pos > old(self).data@.len(),
    {
        if self.pos >= self.data.len() {
            proof {
                assert(old(self).data@.subrange(old(self).pos as int, old(self).pos as int)
                    =~= Seq::<u8>::empty() || old(self).pos > old(self).data@.len());
            }
            let ghost unchanged_out = out@;
            if self.pos == self.data.len() {
                proof {
                    assert(final(out)@ == old(out)@ + Seq::<u8>::empty() || true);
                }
            }
            proof {
                assert(out@ =~= old(out)@ + Seq::<u8>::empty());
            }
            return 0;
        }
        let avail = self.data.len() - self.pos;
        let take = if avail < max {
            avail
        } else {
            max
        };
        let piece = slice_of(&self.data, self.pos, self.pos + take);
        append_bytes(out, &piece);
        self.pos = self.pos + take;
        take
    }
}

impl MultiBufferSnapshot {
    /// A chunk stream over a composite range.
    pub fn chunks(&self, start: usize, end: usize) -> (r: MultiBufferChunks)
        requires
            self.wf(),
            start <= end <= self.len_spec(),
        ensures
            r.data@ == self.text_spec().subrange(start as int, end as int),
            r.base == start,
            r.pos == 0,
    {
        MultiBufferChunks { data: self.text_for_range(start, end), base: start, pos: 0 }
    }

    /// A byte stream over a composite range.
    pub fn bytes_in_range(&self, start: usize, end: usize) -> (r: MultiBufferBytes)
        requires
            self.wf(),
            start <= end <= self.len_spec(),
        ensures
            r.data@ == self.text_spec().subrange(start as int, end as int),
            r.pos == 0,
    {
        MultiBufferBytes { data: self.text_for_range(start, end), pos: 0 }
    }
}

/// Bytes strictly inside a line are not newlines.
proof fn lemma_line_interior(t: Seq<u8>, ls: int, o: int)
    requires
        0 <= ls <= o < line_end_from(t, ls),
    ensures
        !is_nl(t[o]),
    decreases o - ls,
{
    if ls < t.len() && !is_nl(t[ls]) {
        if o > ls {
            lemma_line_interior(t, ls + 1, o);
        }
    }
}

/// The byte at a line's end offset, when within the text, is a newline.
proof fn lemma_line_end_is_nl(t: Seq<u8>, ls: int)
    requires
        0 <= ls,
        line_end_from(t, ls) < t.len(),
    ensures
        is_nl(t[line_end_from(t, ls)]),
    decreases t.len() - ls,
{
    if ls < t.len() && !is_nl(t[ls]) {
        lemma_line_end_is_nl(t, ls + 1);
    }
}

/// Newline counts are constant across a span with no newline.
proof fn lemma_count_const_if_no_nl(t: Seq<u8>, a: int, b: int)
    requires
        0 <= a <= b,
        forall|j: int| a <= j < b ==> !is_nl(#[trigger] t[j]),
    ensures
        count_nl(t, a) == count_nl(t, b),
    decreases b - a,
{
    if a < b {
        lemma_count_const_if_no_nl(t, a, b - 1);
    }
}

/// The row number of a row's start offset is the row itself, for rows
/// within the text.
proof fn lemma_row_of_line_start(t: Seq<u8>, row: int)
    requires
        0 <= row <= count_nl(t, t.len() as int),
    ensures
        count_nl(t, row_start_of(t, row)) == row,
    decreases row,
{
    if row > 0 {
        lemma_row_of_line_start(t, row - 1);
        let ls = row_start_of(t, row - 1);
        lemma_row_start_bounds(t, row - 1);
        let e = line_end_from(t, ls);
        lemma_line_end_bounds(t, ls);
        assert forall|j: int| ls <= j < e implies !is_nl(#[trigger] t[j]) by {
            lemma_line_interior(t, ls, j);
        }
        lemma_count_const_if_no_nl(t, ls, e);
        if e < t.len() {
            lemma_line_end_is_nl(t, ls);
            assert(count_nl(t, e + 1) == count_nl(t, e) + 1);
        } else {
            // the previous row already reaches the end of the text, so a
            // further row would exceed the newline count
            lemma_count_const_if_no_nl(t, ls, t.len() as int);
            assert(false);
        }
    }
}

/// Prefix lengths stay within the total.
pub proof fn lemma_prefix_len_bound(exs: Seq<Excerpt>, i: int)
    requires
        0 <= i <= exs.len(),
        forall|j: int| 0 <= j < exs.len() ==> (#[trigger] exs[j]).wf(),
    ensures
        0 <= prefix_len(exs, i) <= prefix_len(exs, exs.len() as int),
    decreases exs.len() - i,
{
    if i < exs.len() {
        lemma_prefix_len_bound(exs, i + 1);
    }
    lemma_prefix_len_nonneg(exs, i);
}

pub proof fn lemma_prefix_len_nonneg(exs: Seq<Excerpt>, i: int)
    requires
        0 <= i <= exs.len(),
        forall|j: int| 0 <= j < exs.len() ==> (#[trigger] exs[j]).wf(),
    ensures
        0 <= prefix_len(exs, i),
        forall|j: int| 0 <= j <= i ==> #[trigger] prefix_len(exs, j) <= prefix_len(exs, i),
    decreases i,
{
    if i > 0 {
        lemma_prefix_len_nonneg(exs, i - 1);
        assert forall|j: int| 0 <= j <= i implies #[trigger] prefix_len(exs, j) <= prefix_len(
            exs,
            i,
        ) by {
            if j < i {
                assert(prefix_len(exs, j) <= prefix_len(exs, i - 1));
            }
        }
    }
}

} // verus!
