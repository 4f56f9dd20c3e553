//! Edit batches and offset transformation.
//!
//! A batch is a sorted, non-overlapping list of span replacements applied
//! simultaneously against one version of a text. Batches form the change
//! log of a buffer: anchors are carried across versions by transforming
//! their offsets through each batch in turn, and undo re-applies a
//! batch's inverse.

use vstd::prelude::*;
use crate::coords::{Bias, MAX_LEN, slice_of, append_bytes};

verus! {

/// One span replacement: bytes `start..end` of the old text are replaced
/// by `inserted`; `deleted` records the bytes that were removed.
#[derive(Debug)]
#[verifier::ext_equal]
pub struct BufEdit {
    pub start: usize,
    pub end: usize,
    pub inserted: Vec<u8>,
    pub deleted: Vec<u8>,
}

/// One atomically applied group of edits, together with the text length
/// it produced.
#[derive(Debug)]
#[verifier::ext_equal]
pub struct Batch {
    pub edits: Vec<BufEdit>,
    pub new_len: usize,
}

/// A composite edit delta: bytes `old_start..old_end` of the older text
/// correspond to bytes `new_start..new_end` of the newer text.
#[derive(Copy, Clone, Eq, PartialEq, Debug, Structural)]
pub struct Edit {
    pub old_start: usize,
    pub old_end: usize,
    pub new_start: usize,
    pub new_end: usize,
}

/// Spans are ordered, non-overlapping, and within a text of length `n`.
pub open spec fn wf_spans(edits: Seq<BufEdit>, n: int) -> bool {
    &&& forall|i: int| 0 <= i < edits.len() ==> #[trigger] edits[i].start <= edits[i].end <= n
    &&& forall|i: int| 0 <= i && i + 1 < edits.len() ==> #[trigger] edits[i].end <= edits[i + 1].start
}

/// Replaces bytes `s..e` of `t` by `ins`.
pub open spec fn splice(t: Seq<u8>, s: int, e: int, ins: Seq<u8>) -> Seq<u8> {
    t.take(s) + ins + t.skip(e)
}

/// The text after applying a batch. Working from the last edit backwards
/// keeps every remaining edit's coordinates valid.
pub open spec fn apply_edits(t: Seq<u8>, edits: Seq<BufEdit>) -> Seq<u8>
    decreases edits.len(),
{
    if edits.len() == 0 {
        t
    } else {
        let e = edits[edits.len() - 1];
        apply_edits(splice(t, e.start as int, e.end as int, e.inserted@), edits.drop_last())
    }
}

/// Net length change contributed by the first `i` edits of a batch.
pub open spec fn delta_before(edits: Seq<BufEdit>, i: int) -> int
    decreases i,
{
    if i <= 0 {
        0
    } else {
        delta_before(edits, i - 1) + edits[i - 1].inserted@.len() - (edits[i - 1].end
            - edits[i - 1].start)
    }
}

pub open spec fn batch_delta(edits: Seq<BufEdit>) -> int {
    delta_before(edits, edits.len() as int)
}

pub open spec fn new_start_of(edits: Seq<BufEdit>, i: int) -> int {
    edits[i].start + delta_before(edits, i)
}

pub open spec fn new_end_of(edits: Seq<BufEdit>, i: int) -> int {
    new_start_of(edits, i) + edits[i].inserted@.len()
}

/// Where offset `o` of the old text lands in the new text. An offset at
/// the start of a replacement stays before it under `Left` bias and moves
/// past the inserted bytes under `Right` bias; an offset inside a
/// replaced span collapses to the end of the inserted bytes.
pub open spec fn xform_from(edits: Seq<BufEdit>, i: int, o: int, bias: Bias) -> int
    decreases edits.len() - i,
{
    if i < 0 || i >= edits.len() {
        o + delta_before(edits, i)
    } else {
        let e = edits[i];
        if o < e.start || (o == e.start && bias == Bias::Left) {
            o + delta_before(edits, i)
        } else if o <= e.end {
            new_end_of(edits, i)
        } else {
            xform_from(edits, i + 1, o, bias)
        }
    }
}

pub open spec fn xform(edits: Seq<BufEdit>, o: int, bias: Bias) -> int {
    xform_from(edits, 0, o, bias)
}

proof fn lemma_delta_before_drop_last(edits: Seq<BufEdit>, i: int)
    requires
        0 <= i < edits.len(),
    ensures
        delta_before(edits.drop_last(), i) == delta_before(edits, i),
    decreases i,
{
    if i > 0 {
        lemma_delta_before_drop_last(edits, i - 1);
    }
}

/// Applying a well-formed batch changes the length by the batch delta.
pub proof fn lemma_apply_len(t: Seq<u8>, edits: Seq<BufEdit>)
    requires
        wf_spans(edits, t.len() as int),
    ensures
        apply_edits(t, edits).len() == t.len() + batch_delta(edits),
    decreases edits.len(),
{
    if edits.len() > 0 {
        let e = edits[edits.len() - 1];
        let t2 = splice(t, e.start as int, e.end as int, e.inserted@);
        assert(t2.len() == t.len() + e.inserted@.len() - (e.end - e.start));
        let dl = edits.drop_last();
        assert(wf_spans(dl, t2.len() as int)) by {
            assert(dl =~= edits.subrange(0, edits.len() - 1));
            assert forall|i: int| 0 <= i < dl.len() implies #[trigger] dl[i].start <= dl[i].end
                <= t2.len() by {
                assert(dl[i] == edits[i]);
                if i < edits.len() - 1 {
                    lemma_span_chain(edits, i, edits.len() - 1);
                }
            }
            assert forall|i: int| 0 <= i && i + 1 < dl.len() implies #[trigger] dl[i].end <= dl[i
                + 1].start by {
                assert(dl[i] == edits[i]);
                assert(dl[i + 1] == edits[i + 1]);
            }
        }
        lemma_apply_len(t2, edits.drop_last());
        lemma_delta_before_drop_last(edits, edits.len() - 1);
    }
}

/// In a well-formed batch, spans at smaller indices end before spans at
/// larger indices start.
pub proof fn lemma_span_chain(edits: Seq<BufEdit>, i: int, j: int)
    requires
        forall|k: int| 0 <= k && k + 1 < edits.len() ==> #[trigger] edits[k].end <= edits[k + 1].start,
        forall|k: int| 0 <= k < edits.len() ==> #[trigger] edits[k].start <= edits[k].end,
        0 <= i < j < edits.len(),
    ensures
        edits[i].end <= edits[j].start,
    decreases j - i,
{
    if i + 1 < j {
        lemma_span_chain(edits, i, j - 1);
        assert(edits[j - 1].end <= edits[j].start);
    }
}

/// A span may be appended to a batch when it starts at or after the
/// last span's end.
pub proof fn lemma_wf_spans_push(edits: Seq<BufEdit>, s: BufEdit, n: int)
    requires
        wf_spans(edits, n),
        s.start <= s.end <= n,
        edits.len() > 0 ==> edits.last().end <= s.start,
    ensures
        wf_spans(edits.push(s), n),
{
    let e2 = edits.push(s);
    assert forall|i: int| 0 <= i < e2.len() implies #[trigger] e2[i].start <= e2[i].end <= n by {
        if i < edits.len() {
            assert(e2[i] == edits[i]);
        } else {
            assert(e2[i] == s);
        }
    }
    assert forall|i: int| 0 <= i && i + 1 < e2.len() implies #[trigger] e2[i].end <= e2[i
        + 1].start by {
        if i + 1 < edits.len() {
            assert(e2[i] == edits[i]);
            assert(e2[i + 1] == edits[i + 1]);
        } else {
            assert(e2[i] == edits[i]);
            assert(e2[i + 1] == s);
            assert(edits[i] == edits.last());
        }
    }
}

/// New-coordinate span ends grow along the batch and stay within the new
/// text.
pub proof fn lemma_new_coords(edits: Seq<BufEdit>, n: int, i: int)
    requires
        wf_spans(edits, n),
        0 <= i < edits.len(),
    ensures
        0 <= new_start_of(edits, i) <= new_end_of(edits, i) <= n + batch_delta(edits),
        i > 0 ==> new_end_of(edits, i - 1) <= new_start_of(edits, i),
    decreases edits.len() - i,
{
    if i > 0 {
        assert(edits[i - 1].end <= edits[i].start);
        lemma_new_coords_low(edits, n, i - 1);
    }
    lemma_new_coords_high(edits, n, i);
    lemma_new_coords_low(edits, n, i);
}

proof fn lemma_new_coords_low(edits: Seq<BufEdit>, n: int, i: int)
    requires
        wf_spans(edits, n),
        0 <= i < edits.len(),
    ensures
        0 <= new_start_of(edits, i) <= new_end_of(edits, i),
    decreases i,
{
    if i == 0 {
    } else {
        lemma_new_coords_low(edits, n, i - 1);
        assert(edits[i - 1].end <= edits[i].start);
    }
}

proof fn lemma_new_coords_high(edits: Seq<BufEdit>, n: int, i: int)
    requires
        wf_spans(edits, n),
        0 <= i < edits.len(),
    ensures
        new_end_of(edits, i) <= n + batch_delta(edits),
    decreases edits.len() - i,
{
    if i == edits.len() - 1 {
        assert(batch_delta(edits) == delta_before(edits, i) + edits[i].inserted@.len() - (
        edits[i].end - edits[i].start));
        assert(edits[i].end <= n);
    } else {
        lemma_new_coords_high(edits, n, i + 1);
        assert(edits[i].end <= edits[i + 1].start);
    }
}

/// A transformed offset stays within the new text.
pub proof fn lemma_xform_in_range(edits: Seq<BufEdit>, n: int, i: int, o: int, bias: Bias)
    requires
        wf_spans(edits, n),
        0 <= i <= edits.len(),
        0 <= o <= n,
        i > 0 ==> edits[i - 1].end <= o,
    ensures
        0 <= xform_from(edits, i, o, bias) <= n + batch_delta(edits),
    decreases edits.len() - i,
{
    if i == edits.len() {
        assert(delta_before(edits, i) == batch_delta(edits));
        if i > 0 {
            lemma_new_coords(edits, n, i - 1);
            assert(o + delta_before(edits, i) >= edits[i - 1].end + delta_before(edits, i));
            assert(edits[i - 1].end + delta_before(edits, i) == new_end_of(edits, i - 1));
        }
    } else {
        let e = edits[i];
        lemma_new_coords(edits, n, i);
        if o < e.start || (o == e.start && bias == Bias::Left) {
            if i > 0 {
                lemma_new_coords(edits, n, i - 1);
                assert(edits[i - 1].end + delta_before(edits, i) == new_end_of(edits, i - 1));
            }
            assert(e.start + delta_before(edits, i) == new_start_of(edits, i));
        } else if o <= e.end {
        } else {
            lemma_xform_in_range(edits, n, i + 1, o, bias);
        }
    }
}

/// An offset before every span is left in place.
pub proof fn lemma_xform_before(edits: Seq<BufEdit>, o: int, bias: Bias)
    requires
        edits.len() == 0 || o < edits[0].start || (o == edits[0].start && bias == Bias::Left),
    ensures
        xform(edits, o, bias) == o,
{
}

/// An offset after every span is shifted by the whole batch delta.
pub proof fn lemma_xform_after(edits: Seq<BufEdit>, i: int, o: int, bias: Bias)
    requires
        0 <= i <= edits.len(),
        forall|k: int| 0 <= k < edits.len() ==> #[trigger] edits[k].start <= edits[k].end,
        forall|k: int| 0 <= k < edits.len() ==> #[trigger] edits[k].end < o,
    ensures
        xform_from(edits, i, o, bias) == o + batch_delta(edits),
    decreases edits.len() - i,
{
    if i < edits.len() {
        lemma_xform_after(edits, i + 1, o, bias);
    }
}

/// A single insertion at `o` leaves a `Left` offset in place and moves a
/// `Right` offset past the inserted bytes.
pub proof fn lemma_xform_insertion(edits: Seq<BufEdit>, o: int)
    requires
        edits.len() == 1,
        edits[0].start == o,
        edits[0].end == o,
    ensures
        xform(edits, o, Bias::Left) == o,
        xform(edits, o, Bias::Right) == o + edits[0].inserted@.len(),
{
}

/// Replaces bytes `s..e` of `t` by `ins`, building a fresh vector.
pub fn splice_bytes(t: &Vec<u8>, s: usize, e: usize, ins: &Vec<u8>) -> (r: Vec<u8>)
    requires
        s <= e <= t@.len(),
    ensures
        r@ == splice(t@, s as int, e as int, ins@),
{
    let mut r = slice_of(t, 0, s);
    proof {
        assert(t@.subrange(0, s as int) =~= t@.take(s as int));
    }
    append_bytes(&mut r, ins);
    let tail = slice_of(t, e, t.len());
    proof {
        assert(t@.subrange(e as int, t@.len() as int) =~= t@.skip(e as int));
    }
    append_bytes(&mut r, tail_ref(&tail));
    r
}

/// Identity on a vector reference, used to keep borrows simple.
fn tail_ref(t: &Vec<u8>) -> (r: &Vec<u8>)
    ensures
        r@ == t@,
{
    t
}

/// Applies a batch to a text, returning the new text together with the
/// batch annotated with the bytes each span deleted.
pub fn apply_batch(text: &Vec<u8>, edits: Vec<BufEdit>) -> (r: (Vec<u8>, Vec<BufEdit>))
    requires
        wf_spans(edits@, text@.len() as int),
    ensures
        r.0@ == apply_edits(text@, r.1@),
        r.1@.len() == edits@.len(),
        forall|i: int|
            0 <= i < edits@.len() ==> #[trigger] r.1@[i].start == edits@[i].start && r.1@[i].end
                == edits@[i].end && r.1@[i].inserted@ == edits@[i].inserted@ && r.1@[i].deleted@
                == text@.subrange(edits@[i].start as int, edits@[i].end as int),
        wf_spans(r.1@, text@.len() as int),
{
    let ghost orig = edits@;
    let mut rest = edits;
    let mut filled: Vec<BufEdit> = Vec::new();
    while rest.len() > 0
        invariant
            wf_spans(orig, text@.len() as int),
            filled@.len() + rest@.len() == orig.len(),
            forall|i: int|
                0 <= i < filled@.len() ==> #[trigger] filled@[i].start == orig[i].start
                    && filled@[i].end == orig[i].end && filled@[i].inserted@ == orig[i].inserted@
                    && filled@[i].deleted@ == text@.subrange(
                    orig[i].start as int,
                    orig[i].end as int,
                ),
            forall|i: int|
                0 <= i < rest@.len() ==> #[trigger] rest@[i].start == orig[filled@.len() + i].start
                    && rest@[i].end == orig[filled@.len() + i].end && rest@[i].inserted@
                    == orig[filled@.len() + i].inserted@,
        decreases rest@.len(),
    {
        let ghost rest_before = rest@;
        let ghost filled_before = filled@;
        let e = rest.remove(0);
        proof {
            assert(e == rest_before[0]);
            assert(rest@ =~= rest_before.subrange(1, rest_before.len() as int));
            assert(e.start == orig[filled_before.len() as int].start);
        }
        let del = slice_of(text, e.start, e.end);
        filled.push(BufEdit { start: e.start, end: e.end, inserted: e.inserted, deleted: del });
        proof {
            let k = filled_before.len() as int;
            assert forall|i: int|
                0 <= i < filled@.len() implies #[trigger] filled@[i].start == orig[i].start
                && filled@[i].end == orig[i].end && filled@[i].inserted@ == orig[i].inserted@
                && filled@[i].deleted@ == text@.subrange(
                orig[i].start as int,
                orig[i].end as int,
            ) by {
                if i < k {
                    assert(filled@[i] == filled_before[i]);
                } else {
                    assert(i == k);
                }
            }
            assert forall|i: int|
                0 <= i < rest@.len() implies #[trigger] rest@[i].start == orig[filled@.len()
                + i].start && rest@[i].end == orig[filled@.len() + i].end && rest@[i].inserted@
                == orig[filled@.len() + i].inserted@ by {
                assert(rest@[i] == rest_before[i + 1]);
            }
        }
    }
    proof {
        assert(wf_spans(filled@, text@.len() as int)) by {
            assert forall|i: int| 0 <= i < filled@.len() implies #[trigger] filled@[i].start
                <= filled@[i].end <= text@.len() by {
                assert(filled@[i].start == orig[i].start);
            }
            assert forall|i: int| 0 <= i && i + 1 < filled@.len() implies #[trigger] filled@[i].end
                <= filled@[i + 1].start by {
                assert(filled@[i].start == orig[i].start);
                assert(filled@[i + 1].start == orig[i + 1].start);
            }
        }
    }
    // apply from the last edit to the first, mirroring the specification
    let mut result = slice_of(text, 0, text.len());
    proof {
        assert(result@ =~= text@);
        assert(filled@.take(filled@.len() as int) =~= filled@);
    }
    let mut i: usize = filled.len();
    while i > 0
        invariant
            i <= filled@.len(),
            wf_spans(filled@, text@.len() as int),
            filled@.len() == orig.len(),
            forall|k: int|
                0 <= k < filled@.len() ==> #[trigger] filled@[k].start == orig[k].start
                    && filled@[k].end == orig[k].end && filled@[k].inserted@ == orig[k].inserted@
                    && filled@[k].deleted@ == text@.subrange(
                    orig[k].start as int,
                    orig[k].end as int,
                ),
            apply_edits(text@, filled@) == apply_edits(result@, filled@.take(i as int)),
            i > 0 ==> result@.len() >= filled@[i - 1].end,
            i > 0 ==> result@.take(filled@[i - 1].end as int) == text@.take(
                filled@[i - 1].end as int,
            ),
        decreases i,
    {
        let s = filled[i - 1].start;
        let e = filled[i - 1].end;
        let prev = result;
        result = splice_bytes(&prev, s, e, &filled[i - 1].inserted);
        proof {
            let k = i - 1 as int;
            assert(filled@.take(k + 1).last() == filled@[k]);
            assert(filled@.take(k + 1).drop_last() =~= filled@.take(k));
            assert(apply_edits(prev@, filled@.take(k + 1)) == apply_edits(
                result@,
                filled@.take(k),
            ));
            if k > 0 {
                assert(filled@[k - 1].end <= filled@[k].start) by {
                    lemma_span_chain_wf(filled@, text@.len() as int, k - 1, k);
                }
                let m = filled@[k - 1].end as int;
                assert(result@.take(m) =~= prev@.take(m)) by {
                    assert(m <= s);
                    assert forall|x: int| 0 <= x < m implies result@[x] == prev@[x] by {
                        assert(result@[x] == prev@.take(s as int)[x]);
                    }
                    assert(result@.len() >= m) by {
                        assert(result@.len() == prev@.len() - (e - s)
                            + filled@[k].inserted@.len());
                    }
                }
                assert(prev@.take(m) == text@.take(m)) by {
                    assert(prev@.take(filled@[k].end as int) == text@.take(
                        filled@[k].end as int,
                    ));
                    assert(prev@.take(m) =~= prev@.take(filled@[k].end as int).take(m));
                    assert(text@.take(m) =~= text@.take(filled@[k].end as int).take(m));
                }
                assert(result@.len() >= m);
            }
        }
        i -= 1;
    }
    proof {
        assert(filled@.take(0int) =~= Seq::<BufEdit>::empty());
        assert(apply_edits(result@, filled@.take(0int)) == result@);
    }
    (result, filled)
}

proof fn lemma_span_chain_wf(edits: Seq<BufEdit>, n: int, i: int, j: int)
    requires
        wf_spans(edits, n),
        0 <= i < j < edits.len(),
    ensures
        edits[i].end <= edits[j].start,
{
    lemma_span_chain(edits, i, j);
}

/// Transforms an old-text offset through a batch.
pub fn xform_offset(edits: &Vec<BufEdit>, text_len: usize, o: usize, bias: Bias) -> (r: usize)
    requires
        wf_spans(edits@, text_len as int),
        o <= text_len,
        text_len <= MAX_LEN,
        text_len + batch_delta(edits@) <= MAX_LEN,
    ensures
        r == xform(edits@, o as int, bias),
        r <= text_len + batch_delta(edits@),
{
    proof {
        lemma_xform_in_range(edits@, text_len as int, 0, o as int, bias);
    }
    let n = edits.len();
    let mut i: usize = 0;
    let mut old_prev: usize = 0;
    let mut new_prev: usize = 0;
    loop
        invariant
            i <= n,
            n == edits@.len(),
            wf_spans(edits@, text_len as int),
            o <= text_len <= MAX_LEN,
            text_len + batch_delta(edits@) <= MAX_LEN,
            old_prev <= o,
            i > 0 ==> old_prev == edits@[i - 1].end,
            i == 0 ==> old_prev == 0 && new_prev == 0,
            new_prev == old_prev + delta_before(edits@, i as int),
            i > 0 ==> new_prev == new_end_of(edits@, i - 1),
            new_prev <= MAX_LEN,
            xform(edits@, o as int, bias) == xform_from(edits@, i as int, o as int, bias),
        decreases n - i,
    {
        if i == n {
            return new_prev + (o - old_prev);
        }
        let s = edits[i].start;
        let en = edits[i].end;
        let ins_len = edits[i].inserted.len();
        proof {
            if i > 0 {
                lemma_span_chain_wf(edits@, text_len as int, i - 1 as int, i as int);
            }
            lemma_new_coords(edits@, text_len as int, i as int);
        }
        let new_s = new_prev + (s - old_prev);
        let is_left = match bias {
            Bias::Left => true,
            Bias::Right => false,
        };
        if o < s || (o == s && is_left) {
            return new_prev + (o - old_prev);
        }
        if o <= en {
            proof {
                assert(new_s + ins_len == new_end_of(edits@, i as int));
            }
            return new_s + ins_len;
        }
        old_prev = en;
        new_prev = new_s + ins_len;
        i += 1;
    }
}

/// Replays one composite delta onto `t`, taking replacement bytes from
/// `target`: the bytes at the delta's new range, sized as its old range,
/// are replaced by the target's bytes at the new range.
pub open spec fn replay_one(t: Seq<u8>, e: Edit, target: Seq<u8>) -> Seq<u8> {
    t.take(e.new_start as int) + target.subrange(e.new_start as int, e.new_end as int) + t.skip(
        e.new_start + (e.old_end - e.old_start),
    )
}

/// Replays a list of deltas in publication order.
pub open spec fn replay(t: Seq<u8>, edits: Seq<Edit>, target: Seq<u8>) -> Seq<u8>
    decreases edits.len(),
{
    if edits.len() == 0 {
        t
    } else {
        replay(replay_one(t, edits[0], target), edits.drop_first(), target)
    }
}

/// The minimal single-span difference between two texts. Replaying the
/// result onto the old text reconstructs the new text.
pub fn diff_texts(old_text: &Vec<u8>, new_text: &Vec<u8>) -> (r: Vec<Edit>)
    ensures
        replay(old_text@, r@, new_text@) == new_text@,
        r@.len() <= 1,
        old_text@ == new_text@ ==> r@.len() == 0,
        forall|i: int|
            0 <= i < r@.len() ==> #[trigger] r@[i].old_start <= r@[i].old_end && r@[i].new_start
                <= r@[i].new_end && r@[i].old_end <= old_text@.len() && r@[i].new_end
                <= new_text@.len() && r@[i].old_start == r@[i].new_start,
{
    let ol = old_text.len();
    let nl = new_text.len();
    let shorter = if ol < nl {
        ol
    } else {
        nl
    };
    let mut p: usize = 0;
    while p < shorter && old_text[p] == new_text[p]
        invariant
            p <= shorter,
            shorter == if ol < nl {
                ol
            } else {
                nl
            },
            ol == old_text@.len(),
            nl == new_text@.len(),
            forall|j: int| 0 <= j < p ==> old_text@[j] == new_text@[j],
        decreases shorter - p,
    {
        p += 1;
    }
    let max_suffix = shorter - p;
    let mut s: usize = 0;
    while s < max_suffix && old_text[ol - 1 - s] == new_text[nl - 1 - s]
        invariant
            s <= max_suffix,
            max_suffix == shorter - p,
            p <= shorter,
            shorter == if ol < nl {
                ol
            } else {
                nl
            },
            ol == old_text@.len(),
            nl == new_text@.len(),
            forall|j: int|
                0 <= j < s ==> #[trigger] old_text@[ol - 1 - j] == new_text@[nl - 1 - j],
        decreases max_suffix - s,
    {
        s += 1;
    }
    let mut r: Vec<Edit> = Vec::new();
    if p == ol && p == nl {
        proof {
            assert(old_text@ =~= new_text@);
            assert(replay(old_text@, r@, new_text@) == old_text@);
        }
        return r;
    }
    let e = Edit { old_start: p, old_end: ol - s, new_start: p, new_end: nl - s };
    r.push(e);
    proof {
        let t = old_text@;
        let tgt = new_text@;
        let one = replay_one(t, e, tgt);
        assert(r@.drop_first() =~= Seq::<Edit>::empty());
        assert(replay(t, r@, tgt) == replay(one, r@.drop_first(), tgt));
        assert(one =~= tgt) by {
            assert(one.len() == p + (nl - s - p) + (t.len() - (p + (ol - s - p))));
            assert forall|x: int| 0 <= x < one.len() implies one[x] == tgt[x] by {
                if x < p {
                    assert(one[x] == t.take(p as int)[x]);
                    assert(t[x] == tgt[x]);
                } else if x < p + (nl - s - p) {
                    assert(one[x] == tgt.subrange(p as int, (nl - s) as int)[x - p]);
                } else {
                    assert(one[x] == t.skip((ol - s) as int)[x - (nl - s)]);
                    let j = ol - 1 - (t.len() - 1 - (x - (nl - s) + (ol - s)));
                    assert(t[x - (nl - s) + (ol - s)] == tgt[x]) by {
                        let d = nl - 1 - x;
                        assert(0 <= d < s);
                        assert(old_text@[ol - 1 - d] == new_text@[nl - 1 - d]);
                        assert(ol - 1 - d == x - (nl - s) + (ol - s) + s - 1 - (nl - 1 - x) + d
                            - d || true);
                        assert(ol - 1 - d == x + ol - nl);
                    }
                }
            }
        }
    }
    r
}

} // verus!
