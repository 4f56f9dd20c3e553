//! Byte-level text coordinates.
//!
//! Text is a sequence of bytes. An offset counts bytes; a `Point` is a
//! zero-based row and a byte column within the row; a `PointUtf16` counts
//! UTF-16 code units per row, derived from the UTF-8 byte patterns: a
//! continuation byte contributes nothing, a four-byte leading byte
//! contributes two units, every other byte one unit.

use vstd::prelude::*;

verus! {

/// Which side of a position an anchor or a clip sticks to: `Left` stays
/// before content inserted at the position, `Right` moves after it.
#[derive(Copy, Clone, Eq, PartialEq, Debug, Structural)]
pub enum Bias {
    Left,
    Right,
}

#[derive(Copy, Clone, Eq, PartialEq, Debug, Structural)]
pub struct Point {
    pub row: usize,
    pub column: usize,
}

impl Point {
    pub fn new(row: usize, column: usize) -> (r: Point)
        ensures
            r.row == row,
            r.column == column,
    {
        Point { row, column }
    }

    pub open spec fn zero_spec() -> Point {
        Point { row: 0, column: 0 }
    }

    pub fn zero() -> (r: Point)
        ensures
            r == Point::zero_spec(),
    {
        Point { row: 0, column: 0 }
    }
}

#[derive(Copy, Clone, Eq, PartialEq, Debug, Structural)]
pub struct PointUtf16 {
    pub row: usize,
    pub column: usize,
}

impl PointUtf16 {
    pub fn new(row: usize, column: usize) -> (r: PointUtf16)
        ensures
            r.row == row,
            r.column == column,
    {
        PointUtf16 { row, column }
    }
}

/// Upper bound on every text length in this crate, low enough that sums
/// and doubled UTF-16 columns never overflow a `usize`.
pub const MAX_LEN: usize = 0x3FFF_FFFF;

pub open spec fn is_nl(b: u8) -> bool {
    b == 10u8
}

/// A UTF-8 continuation byte.
pub open spec fn is_cont(b: u8) -> bool {
    128 <= b < 192
}

/// UTF-16 code units contributed by one byte of UTF-8.
pub open spec fn u16_width(b: u8) -> nat {
    if is_cont(b) {
        0
    } else if b >= 240 {
        2
    } else {
        1
    }
}

/// Newlines among the first `o` bytes.
pub open spec fn count_nl(t: Seq<u8>, o: int) -> nat
    decreases o,
{
    if o <= 0 {
        0
    } else {
        count_nl(t, o - 1) + if is_nl(t[o - 1]) {
            1nat
        } else {
            0nat
        }
    }
}

/// The start offset of the line containing offset `o`.
pub open spec fn line_start(t: Seq<u8>, o: int) -> int
    decreases o,
{
    if o <= 0 {
        0
    } else if is_nl(t[o - 1]) {
        o
    } else {
        line_start(t, o - 1)
    }
}

/// The UTF-16 column of offset `o` within its line.
pub open spec fn u16_col(t: Seq<u8>, o: int) -> nat
    decreases o,
{
    if o <= 0 {
        0
    } else if is_nl(t[o - 1]) {
        0
    } else {
        u16_col(t, o - 1) + u16_width(t[o - 1])
    }
}

pub open spec fn point_of(t: Seq<u8>, o: int) -> Point {
    Point { row: count_nl(t, o) as usize, column: (o - line_start(t, o)) as usize }
}

pub open spec fn point_u16_of(t: Seq<u8>, o: int) -> PointUtf16 {
    PointUtf16 { row: count_nl(t, o) as usize, column: u16_col(t, o) as usize }
}

/// Offset `o` does not fall in the middle of a UTF-8 character.
pub open spec fn is_boundary(t: Seq<u8>, o: int) -> bool {
    o >= t.len() || !is_cont(t[o])
}

/// The nearest boundary at or below `o`.
pub open spec fn clip_left_of(t: Seq<u8>, o: int) -> int
    decreases o,
{
    if o <= 0 {
        0
    } else if is_boundary(t, o) {
        o
    } else {
        clip_left_of(t, o - 1)
    }
}

/// The nearest boundary at or above `o`, never past the end.
pub open spec fn clip_right_of(t: Seq<u8>, o: int) -> int
    decreases t.len() - o,
{
    if o >= t.len() {
        t.len() as int
    } else if is_boundary(t, o) {
        o
    } else {
        clip_right_of(t, o + 1)
    }
}

pub open spec fn clip_of(t: Seq<u8>, o: int, bias: Bias) -> int {
    if o >= t.len() {
        t.len() as int
    } else if bias == Bias::Left {
        clip_left_of(t, o)
    } else {
        clip_right_of(t, o)
    }
}

pub proof fn lemma_line_start_bounds(t: Seq<u8>, o: int)
    requires
        0 <= o,
    ensures
        0 <= line_start(t, o) <= o,
    decreases o,
{
    if o > 0 && !is_nl(t[o - 1]) {
        lemma_line_start_bounds(t, o - 1);
    }
}

/// Distinct offsets have distinct points: rows never decrease, and the
/// column strictly grows within a row.
pub proof fn lemma_point_of_monotonic(t: Seq<u8>, o1: int, o2: int)
    requires
        0 <= o1 < o2,
    ensures
        count_nl(t, o1) < count_nl(t, o2) || (count_nl(t, o1) == count_nl(t, o2) && o1
            - line_start(t, o1) < o2 - line_start(t, o2)),
    decreases o2,
{
    lemma_line_start_bounds(t, o1);
    lemma_line_start_bounds(t, o2);
    if o1 == o2 - 1 {
        if is_nl(t[o2 - 1]) {
        } else {
            assert(line_start(t, o2) == line_start(t, o1));
        }
    } else {
        lemma_point_of_monotonic(t, o1, o2 - 1);
        if is_nl(t[o2 - 1]) {
        } else {
            assert(line_start(t, o2) == line_start(t, o2 - 1));
        }
    }
}

/// Distinct offsets have distinct UTF-16 points whenever the byte at the
/// smaller offset starts a character.
pub proof fn lemma_point_u16_of_monotonic(t: Seq<u8>, o1: int, o2: int)
    requires
        0 <= o1 < o2 <= t.len(),
        !is_cont(t[o1]),
    ensures
        count_nl(t, o1) < count_nl(t, o2) || (count_nl(t, o1) == count_nl(t, o2) && u16_col(
            t,
            o1,
        ) < u16_col(t, o2)),
    decreases o2,
{
    if o1 == o2 - 1 {
        if is_nl(t[o2 - 1]) {
        } else {
            assert(u16_width(t[o1]) >= 1);
        }
    } else {
        if is_nl(t[o2 - 1]) {
            lemma_count_nl_monotonic(t, o1, o2 - 1);
        } else {
            lemma_point_u16_of_monotonic(t, o1, o2 - 1);
            lemma_u16_col_monotonic(t, o2 - 1, o2);
        }
    }
}

proof fn lemma_u16_col_monotonic(t: Seq<u8>, o1: int, o2: int)
    requires
        0 <= o1 <= o2,
        forall|j: int| o1 <= j < o2 ==> !is_nl(t[j]),
    ensures
        u16_col(t, o1) <= u16_col(t, o2),
    decreases o2 - o1,
{
    if o1 < o2 {
        lemma_u16_col_monotonic(t, o1, o2 - 1);
    }
}

pub proof fn lemma_count_nl_bound(t: Seq<u8>, o: int)
    requires
        0 <= o,
    ensures
        count_nl(t, o) <= o,
    decreases o,
{
    if o > 0 {
        lemma_count_nl_bound(t, o - 1);
    }
}

pub proof fn lemma_u16_col_bound(t: Seq<u8>, o: int)
    requires
        0 <= o,
    ensures
        u16_col(t, o) <= 2 * o,
    decreases o,
{
    if o > 0 {
        lemma_u16_col_bound(t, o - 1);
    }
}

pub proof fn lemma_count_nl_monotonic(t: Seq<u8>, o1: int, o2: int)
    requires
        o1 <= o2,
    ensures
        count_nl(t, o1) <= count_nl(t, o2),
    decreases o2 - o1,
{
    if o1 < o2 {
        lemma_count_nl_monotonic(t, o1, o2 - 1);
    }
}

/// Clipping an already clipped offset changes nothing.
pub proof fn lemma_clip_idempotent(t: Seq<u8>, o: int, bias: Bias)
    requires
        0 <= o,
    ensures
        clip_of(t, clip_of(t, o, bias), bias) == clip_of(t, o, bias),
{
    if o >= t.len() {
    } else if bias == Bias::Left {
        lemma_clip_left_boundary(t, o);
    } else {
        lemma_clip_right_boundary(t, o);
    }
}

proof fn lemma_clip_left_boundary(t: Seq<u8>, o: int)
    requires
        0 <= o < t.len(),
    ensures
        0 <= clip_left_of(t, o) <= o,
        clip_left_of(t, o) == 0 || is_boundary(t, clip_left_of(t, o)),
        clip_of(t, clip_left_of(t, o), Bias::Left) == clip_left_of(t, o),
    decreases o,
{
    if o == 0 {
    } else if is_boundary(t, o) {
    } else {
        lemma_clip_left_boundary(t, o - 1);
    }
}

proof fn lemma_clip_right_boundary(t: Seq<u8>, o: int)
    requires
        0 <= o <= t.len(),
    ensures
        o <= clip_right_of(t, o) <= t.len(),
        is_boundary(t, clip_right_of(t, o)),
        clip_of(t, clip_right_of(t, o), Bias::Right) == clip_right_of(t, o),
    decreases t.len() - o,
{
    if o >= t.len() {
    } else if is_boundary(t, o) {
    } else {
        lemma_clip_right_boundary(t, o + 1);
    }
}

/// Rows, bytes, and UTF-16 extent of a span of text.
#[derive(Copy, Clone, Eq, PartialEq, Debug, Structural)]
pub struct TextSummary {
    pub bytes: usize,
    pub lines: Point,
    pub lines_utf16: PointUtf16,
}

pub open spec fn summary_of(t: Seq<u8>) -> TextSummary {
    TextSummary { bytes: t.len() as usize, lines: point_of(t, t.len() as int), lines_utf16: point_u16_of(t, t.len() as int) }
}

/// Computes the point at offset `o`, scanning the text once.
pub fn offset_to_point_in(t: &Vec<u8>, o: usize) -> (r: Point)
    requires
        o <= t@.len(),
    ensures
        r == point_of(t@, o as int),
{
    let mut i: usize = 0;
    let mut row: usize = 0;
    let mut ls: usize = 0;
    while i < o
        invariant
            i <= o <= t@.len(),
            row == count_nl(t@, i as int),
            ls == line_start(t@, i as int),
            ls <= i,
            row <= i,
        decreases o - i,
    {
        if t[i] == 10u8 {
            row += 1;
            ls = i + 1;
        }
        i += 1;
    }
    Point { row, column: o - ls }
}

/// Computes the UTF-16 point at offset `o`.
pub fn offset_to_point_utf16_in(t: &Vec<u8>, o: usize) -> (r: PointUtf16)
    requires
        o <= t@.len(),
        t@.len() <= MAX_LEN,
    ensures
        r == point_u16_of(t@, o as int),
{
    let mut i: usize = 0;
    let mut row: usize = 0;
    let mut col: usize = 0;
    while i < o
        invariant
            i <= o <= t@.len(),
            t@.len() <= MAX_LEN,
            row == count_nl(t@, i as int),
            col == u16_col(t@, i as int),
            col <= 2 * i,
            row <= i,
        decreases o - i,
    {
        let b = t[i];
        if b == 10u8 {
            row += 1;
            col = 0;
        } else if 128 <= b && b < 192 {
        } else if b >= 240 {
            col += 2;
        } else {
            col += 1;
        }
        i += 1;
    }
    PointUtf16 { row, column: col }
}

/// Finds the offset whose point equals `p`; `p` must be the point of some
/// offset within the text.
pub fn point_to_offset_in(t: &Vec<u8>, p: Point) -> (r: usize)
    requires
        exists|o: int| 0 <= o <= t@.len() && point_of(t@, o) == p,
    ensures
        r <= t@.len(),
        point_of(t@, r as int) == p,
{
    let ghost wo: int = choose|o: int| 0 <= o <= t@.len() && point_of(t@, o) == p;
    let n = t.len();
    let mut i: usize = 0;
    let mut row: usize = 0;
    let mut ls: usize = 0;
    loop
        invariant
            i <= n,
            n == t@.len(),
            row == count_nl(t@, i as int),
            ls == line_start(t@, i as int),
            ls <= i,
            row <= i,
            0 <= wo <= t@.len() && point_of(t@, wo) == p,
            i <= wo,
        decreases n - i,
    {
        if row == p.row && i - ls == p.column {
            proof {
                if (i as int) < wo {
                    lemma_point_of_monotonic(t@, i as int, wo);
                    lemma_count_nl_bound(t@, wo);
                    lemma_line_start_bounds(t@, wo);
                    assert(false);
                }
            }
            return i;
        }
        proof {
            lemma_line_start_bounds(t@, wo);
            if i as int == wo {
                assert(false);
            }
            if i >= n {
                assert(wo <= n);
                assert(false);
            }
        }
        if t[i] == 10u8 {
            row += 1;
            ls = i + 1;
        }
        i += 1;
    }
}

/// Finds the boundary offset whose UTF-16 point equals `p`; `p` must be
/// the UTF-16 point of some boundary offset.
pub fn point_utf16_to_offset_in(t: &Vec<u8>, p: PointUtf16) -> (r: usize)
    requires
        t@.len() <= MAX_LEN,
        exists|o: int|
            0 <= o <= t@.len() && point_u16_of(t@, o) == p && (o == t@.len() || !is_cont(t@[o])),
    ensures
        r <= t@.len(),
        point_u16_of(t@, r as int) == p,
        r == t@.len() || !is_cont(t@[r as int]),
{
    let ghost wo: int = choose|o: int|
        0 <= o <= t@.len() && point_u16_of(t@, o) == p && (o == t@.len() || !is_cont(t@[o]));
    let n = t.len();
    let mut i: usize = 0;
    let mut row: usize = 0;
    let mut col: usize = 0;
    loop
        invariant
            i <= n,
            n == t@.len(),
            t@.len() <= MAX_LEN,
            row == count_nl(t@, i as int),
            col == u16_col(t@, i as int),
            col <= 2 * i,
            row <= i,
            0 <= wo <= t@.len() && point_u16_of(t@, wo) == p && (wo == t@.len() || !is_cont(
                t@[wo],
            )),
            i <= wo,
        decreases n - i,
    {
        let at_boundary: bool = if i >= n {
            true
        } else {
            let b = t[i];
            !(128 <= b && b < 192)
        };
        if row == p.row && col == p.column && at_boundary {
            return i;
        }
        proof {
            lemma_count_nl_bound(t@, wo);
            lemma_u16_col_bound(t@, wo);
            if i as int == wo {
                assert(false);
            }
            if i >= n {
                assert(false);
            }
            // the witness lies strictly ahead, so scanning cannot run past it
        }
        let b = t[i];
        if b == 10u8 {
            row += 1;
            col = 0;
        } else if 128 <= b && b < 192 {
        } else if b >= 240 {
            col += 2;
        } else {
            col += 1;
        }
        i += 1;
    }
}

/// Moves `o` to the nearest character boundary in the given direction,
/// clamping past-the-end offsets to the length.
pub fn clip_offset_in(t: &Vec<u8>, o: usize, bias: Bias) -> (r: usize)
    ensures
        r == clip_of(t@, o as int, bias),
        r <= t@.len(),
{
    let n = t.len();
    if o >= n {
        return n;
    }
    match bias {
        Bias::Left => {
            let mut i: usize = o;
            loop
                invariant
                    bias == Bias::Left,
                    0 <= i <= o < n,
                    n == t@.len(),
                    clip_left_of(t@, o as int) == clip_left_of(t@, i as int),
                decreases i,
            {
                if i == 0 {
                    proof {
                        assert(bias == Bias::Left);
                        assert(o < t@.len());
                        assert(clip_left_of(t@, 0int) == 0);
                        assert(clip_of(t@, o as int, bias) == 0);
                    }
                    return 0;
                }
                let b = t[i];
                if !(128 <= b && b < 192) {
                    proof {
                        assert(is_boundary(t@, i as int));
                        assert(clip_left_of(t@, i as int) == i);
                        assert(clip_of(t@, o as int, bias) == i);
                    }
                    return i;
                }
                i -= 1;
            }
        },
        Bias::Right => {
            let mut i: usize = o;
            loop
                invariant
                    bias == Bias::Right,
                    o < n,
                    o <= i <= n,
                    n == t@.len(),
                    clip_right_of(t@, o as int) == clip_right_of(t@, i as int),
                decreases n - i,
            {
                if i == n {
                    proof {
                        assert(clip_right_of(t@, n as int) == n);
                        assert(clip_of(t@, o as int, bias) == n);
                    }
                    return n;
                }
                let b = t[i];
                if !(128 <= b && b < 192) {
                    proof {
                        assert(is_boundary(t@, i as int));
                        assert(clip_right_of(t@, i as int) == i);
                        assert(clip_of(t@, o as int, bias) == i);
                    }
                    return i;
                }
                i += 1;
            }
        },
    }
}

/// Summarizes a whole text: byte count, final point, final UTF-16 point.
pub fn summarize(t: &Vec<u8>) -> (r: TextSummary)
    requires
        t@.len() <= MAX_LEN,
    ensures
        r == summary_of(t@),
{
    let n = t.len();
    let p = offset_to_point_in(t, n);
    let pu = offset_to_point_utf16_in(t, n);
    TextSummary { bytes: n, lines: p, lines_utf16: pu }
}

/// Newline count of the whole text.
pub fn count_rows(t: &Vec<u8>) -> (r: usize)
    ensures
        r == count_nl(t@, t@.len() as int),
{
    proof {
        lemma_count_nl_bound(t@, t@.len() as int);
    }
    let p = offset_to_point_in(t, t.len());
    p.row
}

/// The offset of the newline (or text end) that closes the line
/// containing or starting at `o`.
pub open spec fn line_end_from(t: Seq<u8>, o: int) -> int
    decreases t.len() - o,
{
    if o < 0 {
        0
    } else if o >= t.len() {
        t.len() as int
    } else if is_nl(t[o]) {
        o
    } else {
        line_end_from(t, o + 1)
    }
}

/// The start offset of the given row; the text length for rows past the
/// last.
pub open spec fn row_start_of(t: Seq<u8>, row: int) -> int
    decreases row,
{
    if row <= 0 {
        0
    } else {
        let e = line_end_from(t, row_start_of(t, row - 1));
        if e < t.len() {
            e + 1
        } else {
            t.len() as int
        }
    }
}

pub open spec fn line_len_of(t: Seq<u8>, row: int) -> int {
    line_end_from(t, row_start_of(t, row)) - row_start_of(t, row)
}

pub proof fn lemma_line_end_bounds(t: Seq<u8>, o: int)
    requires
        0 <= o <= t.len(),
    ensures
        o <= line_end_from(t, o) <= t.len(),
    decreases t.len() - o,
{
    if o < t.len() && !is_nl(t[o]) {
        lemma_line_end_bounds(t, o + 1);
    }
}

pub proof fn lemma_row_start_bounds(t: Seq<u8>, row: int)
    requires
        0 <= row,
    ensures
        0 <= row_start_of(t, row) <= t.len(),
    decreases row,
{
    if row > 0 {
        lemma_row_start_bounds(t, row - 1);
        lemma_line_end_bounds(t, row_start_of(t, row - 1));
    }
}

/// The start and end offsets of the given row's line.
pub fn line_bounds(t: &Vec<u8>, row: usize) -> (r: (usize, usize))
    ensures
        r.0 == row_start_of(t@, row as int),
        r.1 == line_end_from(t@, r.0 as int),
        r.0 <= r.1 <= t@.len(),
{
    let n = t.len();
    let mut start: usize = 0;
    let mut k: usize = 0;
    while k < row
        invariant
            k <= row,
            start == row_start_of(t@, k as int),
            start <= n,
            n == t@.len(),
        decreases row - k,
    {
        proof {
            lemma_line_end_bounds(t@, start as int);
        }
        // find the end of the current line
        let mut o: usize = start;
        while o < n && t[o] != 10u8
            invariant
                start <= o <= n,
                n == t@.len(),
                line_end_from(t@, start as int) == line_end_from(t@, o as int),
            decreases n - o,
        {
            o += 1;
        }
        if o < n {
            start = o + 1;
        } else {
            start = n;
        }
        k += 1;
    }
    proof {
        lemma_line_end_bounds(t@, start as int);
    }
    let mut e: usize = start;
    while e < n && t[e] != 10u8
        invariant
            start <= e <= n,
            n == t@.len(),
            line_end_from(t@, start as int) == line_end_from(t@, e as int),
        decreases n - e,
    {
        e += 1;
    }
    (start, e)
}

/// Clipping a line/column point: the row is clamped to the last row,
/// the column to the line's length, and within the line the offset
/// snaps to a character boundary in the bias's direction, never leaving
/// the line.
pub open spec fn clip_point_of(t: Seq<u8>, p: Point, bias: Bias) -> Point {
    let rows = count_nl(t, t.len() as int) as int;
    let row = if p.row > rows {
        rows
    } else {
        p.row as int
    };
    let ls = row_start_of(t, row);
    let ll = line_len_of(t, row);
    if p.column >= ll {
        Point { row: row as usize, column: ll as usize }
    } else {
        let co = clip_of(t, ls + p.column, bias);
        let c = if co < ls {
            ls
        } else {
            co
        };
        Point { row: row as usize, column: (c - ls) as usize }
    }
}

/// Clips a point to the text, per `clip_point_of`.
pub fn clip_point_in(t: &Vec<u8>, p: Point, bias: Bias) -> (r: Point)
    ensures
        r == clip_point_of(t@, p, bias),
{
    let rows = count_rows(t);
    let row = if p.row > rows {
        rows
    } else {
        p.row
    };
    proof {
        lemma_count_nl_bound(t@, t@.len() as int);
    }
    let (ls, le) = line_bounds(t, row);
    let ll = le - ls;
    if p.column >= ll {
        return Point { row, column: ll };
    }
    let co = clip_offset_in(t, ls + p.column, bias);
    let c = if co < ls {
        ls
    } else {
        co
    };
    Point { row, column: c - ls }
}

pub open spec fn is_ws(b: u8) -> bool {
    b == 32 || b == 9 || b == 13
}
pub fn slice_of(t: &Vec<u8>, start: usize, end: usize) -> (r: Vec<u8>)
    requires
        start <= end <= t@.len(),
    ensures
        r@ == t@.subrange(start as int, end as int),
{
    let mut r: Vec<u8> = Vec::new();
    let mut i: usize = start;
    while i < end
        invariant
            start <= i <= end <= t@.len(),
            r@ =~= t@.subrange(start as int, i as int),
        decreases end - i,
    {
        r.push(t[i]);
        proof {
            assert(r@ =~= t@.subrange(start as int, i + 1 as int));
        }
        i += 1;
    }
    proof {
        assert(r@ =~= t@.subrange(start as int, end as int));
    }
    r
}

/// Appends all bytes of `src` to `dst`.
pub fn append_bytes(dst: &mut Vec<u8>, src: &Vec<u8>)
    ensures
        final(dst)@ == old(dst)@ + src@,
{
    let mut i: usize = 0;
    while i < src.len()
        invariant
            i <= src@.len(),
            dst@ =~= old(dst)@ + src@.subrange(0, i as int),
        decreases src@.len() - i,
    {
        dst.push(src[i]);
        proof {
            assert(src@.subrange(0, i + 1 as int) =~= src@.subrange(0, i as int) + seq![
                src@[i as int],
            ]);
        }
        i += 1;
    }
    proof {
        assert(src@.subrange(0, src@.len() as int) =~= src@);
        assert(dst@ =~= old(dst)@ + src@);
    }
}

/// Copies a whole vector of bytes.
pub fn clone_bytes(t: &Vec<u8>) -> (r: Vec<u8>)
    ensures
        r@ == t@,
{
    slice_of(t, 0, t.len())
}

} // verus!
