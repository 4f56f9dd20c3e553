//! A single-document text buffer with a change log.
//!
//! The buffer owns its current text and a log of every batch ever applied
//! to it. Versions are log lengths: version `v` is the text after the
//! first `v` batches. Anchors record an offset at a version and are
//! carried to later versions by transforming them through each batch.
//! Undo and redo append inverse batches rather than rewriting history, so
//! anchors never dangle.

use vstd::prelude::*;
use crate::coords::{Bias, MAX_LEN, clone_bytes};
use crate::steps::{Step, wf_steps, resolve_steps, resolve_pos};
use crate::patch::{
    BufEdit,
    Batch,
    wf_spans,
    apply_edits,
    apply_batch,
    batch_delta,
    delta_before,
    xform,
    xform_offset,
    lemma_apply_len,
    new_start_of,
    new_end_of,
    lemma_new_coords,
};

verus! {

/// Text length at version `v` of a log that started from a text of
/// length `base_len`.
pub open spec fn len_at(base_len: int, log: Seq<Batch>, v: int) -> int
    decreases v,
{
    if v <= 0 {
        base_len
    } else {
        len_at(base_len, log, v - 1) + batch_delta(log[v - 1].edits@)
    }
}

/// Every batch is well formed against the text it was applied to, and
/// the recorded lengths match and stay within bounds.
pub open spec fn wf_log(base_len: int, log: Seq<Batch>) -> bool {
    &&& 0 <= base_len <= MAX_LEN
    &&& forall|v: int|
        0 <= v < log.len() ==> wf_spans(#[trigger] log[v].edits@, len_at(base_len, log, v))
    &&& forall|v: int|
        0 <= v < log.len() ==> (#[trigger] log[v].new_len as int) == len_at(base_len, log, v + 1)
            && log[v].new_len <= MAX_LEN
}

/// Carries an offset from version `from` to version `to`.
pub open spec fn resolve_from(log: Seq<Batch>, from: int, to: int, o: int, bias: Bias) -> int
    decreases to - from,
{
    if from >= to {
        o
    } else {
        resolve_from(log, from + 1, to, xform(log[from].edits@, o, bias), bias)
    }
}

/// A stable position in a buffer: an offset at some version, together
/// with the side it sticks to when text is inserted there.
#[derive(Copy, Clone, Eq, PartialEq, Debug, Structural)]
pub struct BufAnchor {
    pub version: usize,
    pub offset: usize,
    pub bias: Bias,
}

/// The anchor refers to a version the log knows and an offset within the
/// text of that version.
pub open spec fn anchor_ok(a: BufAnchor, base_len: int, log: Seq<Batch>) -> bool {
    a.version <= log.len() && a.offset <= len_at(base_len, log, a.version as int)
}

/// A selection in buffer coordinates.
#[derive(Copy, Clone, Eq, PartialEq, Debug, Structural)]
pub struct BufSelection {
    pub id: usize,
    pub start: BufAnchor,
    pub end: BufAnchor,
    pub reversed: bool,
}

/// A selection reported by another replica of the buffer.
#[derive(Copy, Clone, Eq, PartialEq, Debug, Structural)]
pub struct RemoteSelection {
    pub replica_id: usize,
    pub selection: BufSelection,
}

/// One undoable transaction: the log batches that currently represent
/// it, and the edit times used for grouping.
#[derive(Debug)]
pub struct BufTxn {
    pub id: usize,
    pub batches: Vec<usize>,
    pub first_at: u64,
    pub last_at: u64,
}

proof fn lemma_len_at_prefix(base_len: int, log1: Seq<Batch>, log2: Seq<Batch>, v: int)
    requires
        0 <= v <= log1.len(),
        v <= log2.len(),
        forall|j: int| 0 <= j < v ==> log1[j] == log2[j],
    ensures
        len_at(base_len, log1, v) == len_at(base_len, log2, v),
    decreases v,
{
    if v > 0 {
        lemma_len_at_prefix(base_len, log1, log2, v - 1);
    }
}

/// Appending a well-formed batch keeps the log well formed and leaves
/// every earlier version's length unchanged.
pub proof fn lemma_wf_log_push(base_len: int, log: Seq<Batch>, b: Batch)
    requires
        wf_log(base_len, log),
        wf_spans(b.edits@, len_at(base_len, log, log.len() as int)),
        b.new_len as int == len_at(base_len, log, log.len() as int) + batch_delta(b.edits@),
        b.new_len <= MAX_LEN,
    ensures
        wf_log(base_len, log.push(b)),
        forall|v: int|
            0 <= v <= log.len() ==> len_at(base_len, log.push(b), v) == len_at(base_len, log, v),
        len_at(base_len, log.push(b), log.len() as int + 1) == b.new_len,
{
    let log2 = log.push(b);
    assert forall|v: int| 0 <= v <= log.len() implies len_at(base_len, log2, v) == len_at(
        base_len,
        log,
        v,
    ) by {
        lemma_len_at_prefix(base_len, log, log2, v);
    }
    assert(log2[log.len() as int] == b);
    assert forall|v: int| 0 <= v < log2.len() implies wf_spans(
        #[trigger] log2[v].edits@,
        len_at(base_len, log2, v),
    ) by {
        if v < log.len() {
            assert(log2[v] == log[v]);
        }
    }
    assert forall|v: int| 0 <= v < log2.len() implies (#[trigger] log2[v].new_len as int) == len_at(
        base_len,
        log2,
        v + 1,
    ) && log2[v].new_len <= MAX_LEN by {
        if v < log.len() {
            assert(log2[v] == log[v]);
        }
    }
}

/// Carries an offset at version `from` of the log to version `to`.
pub fn resolve_offset(
    log: &Vec<Batch>,
    base_len: usize,
    from: usize,
    to: usize,
    o: usize,
    bias: Bias,
) -> (r: usize)
    requires
        wf_log(base_len as int, log@),
        from <= to <= log@.len(),
        o <= len_at(base_len as int, log@, from as int),
    ensures
        r == resolve_from(log@, from as int, to as int, o as int, bias),
        r <= len_at(base_len as int, log@, to as int),
{
    let mut v = from;
    let mut cur = o;
    let mut cur_len: usize = if from == 0 {
        base_len
    } else {
        log[from - 1].new_len
    };
    while v < to
        invariant
            from <= v <= to <= log@.len(),
            wf_log(base_len as int, log@),
            cur_len as int == len_at(base_len as int, log@, v as int),
            cur_len <= MAX_LEN,
            cur <= cur_len,
            resolve_from(log@, from as int, to as int, o as int, bias) == resolve_from(
                log@,
                v as int,
                to as int,
                cur as int,
                bias,
            ),
        decreases to - v,
    {
        proof {
            assert(len_at(base_len as int, log@, v as int + 1) == len_at(
                base_len as int,
                log@,
                v as int,
            ) + batch_delta(log@[v as int].edits@));
            assert(log@[v as int].new_len as int == len_at(base_len as int, log@, v as int + 1));
        }
        let prev = cur;
        cur = xform_offset(&log[v].edits, cur_len, cur, bias);
        proof {
            assert(resolve_from(log@, v as int, to as int, prev as int, bias) == resolve_from(
                log@,
                v as int + 1,
                to as int,
                xform(log@[v as int].edits@, prev as int, bias),
                bias,
            ));
        }
        cur_len = log[v].new_len;
        v += 1;
    }
    cur
}

/// Text length at a version, read from the log.
pub fn len_at_version(log: &Vec<Batch>, base_len: usize, v: usize) -> (r: usize)
    requires
        wf_log(base_len as int, log@),
        v <= log@.len(),
    ensures
        r as int == len_at(base_len as int, log@, v as int),
{
    if v == 0 {
        base_len
    } else {
        log[v - 1].new_len
    }
}

/// A single-document text buffer: current text, change log, history
/// stacks, and the state generations the composition watches.
pub struct Buffer {
    pub base_len: usize,
    pub text: Vec<u8>,
    pub log: Vec<Batch>,
    pub steps: Vec<Step>,
    pub undo_stack: Vec<BufTxn>,
    pub redo_stack: Vec<BufTxn>,
    pub depth: usize,
    pub next_txn_id: usize,
    pub group_interval: u64,
    pub avoid_grouping: bool,
    pub parse_count: usize,
    pub selections_update_count: usize,
    pub diagnostics_update_count: usize,
    pub is_dirty: bool,
    pub has_conflict: bool,
    pub active_selections: Vec<BufSelection>,
    pub remote_selections: Vec<RemoteSelection>,
}

pub open spec fn txn_batches_ok(t: BufTxn, log_len: int) -> bool {
    forall|j: int| 0 <= j < t.batches@.len() ==> (#[trigger] t.batches@[j] as int) < log_len
}

impl Buffer {
    /// The buffer's internal consistency: the log is well formed, the
    /// text has the length the log says, and history entries only name
    /// batches the log holds.
    pub open spec fn inv(self) -> bool {
        &&& wf_log(self.base_len as int, self.log@)
        &&& self.text@.len() as int == len_at(self.base_len as int, self.log@, self.log@.len() as int)
        &&& forall|i: int|
            0 <= i < self.undo_stack@.len() ==> txn_batches_ok(
                #[trigger] self.undo_stack@[i],
                self.log@.len() as int,
            )
        &&& forall|i: int|
            0 <= i < self.redo_stack@.len() ==> txn_batches_ok(
                #[trigger] self.redo_stack@[i],
                self.log@.len() as int,
            )
        &&& self.depth > 0 ==> self.undo_stack@.len() > 0
        &&& wf_steps(self.steps@)
        &&& forall|i: int|
            0 <= i < self.steps@.len() ==> (#[trigger] self.steps@[i].version as int)
                < self.log@.len() as int
    }

    pub open spec fn version_spec(self) -> int {
        self.log@.len() as int
    }

    pub fn new(text: Vec<u8>) -> (r: Buffer)
        requires
            text@.len() <= MAX_LEN,
        ensures
            r.inv(),
            r.text@ == text@,
            r.log@.len() == 0,
            r.base_len == text@.len(),
            r.depth == 0,
            r.group_interval == 300,
    {
        let base_len = text.len();
        Buffer {
            base_len,
            text,
            log: Vec::new(),
            steps: Vec::new(),
            undo_stack: Vec::new(),
            redo_stack: Vec::new(),
            depth: 0,
            next_txn_id: 0,
            group_interval: 300,
            avoid_grouping: false,
            parse_count: 0,
            selections_update_count: 0,
            diagnostics_update_count: 0,
            is_dirty: false,
            has_conflict: false,
            active_selections: Vec::new(),
            remote_selections: Vec::new(),
        }
    }

    pub fn len(&self) -> (r: usize)
        ensures
            r == self.text@.len(),
    {
        self.text.len()
    }

    pub fn version(&self) -> (r: usize)
        ensures
            r == self.log@.len(),
    {
        self.log.len()
    }

    /// An anchor at the given offset of the current text.
    pub fn anchor_at(&self, offset: usize, bias: Bias) -> (r: BufAnchor)
        requires
            self.inv(),
            offset <= self.text@.len(),
        ensures
            r.version == self.log@.len(),
            r.offset == offset,
            r.bias == bias,
            anchor_ok(r, self.base_len as int, self.log@),
    {
        BufAnchor { version: self.log.len(), offset, bias }
    }

    /// The current offset of an anchor created at an earlier version.
    pub fn resolve_anchor(&self, a: BufAnchor) -> (r: usize)
        requires
            self.inv(),
            anchor_ok(a, self.base_len as int, self.log@),
        ensures
            r as int == resolve_from(
                self.log@,
                a.version as int,
                self.log@.len() as int,
                a.offset as int,
                a.bias,
            ),
            r <= self.text@.len(),
    {
        resolve_offset(&self.log, self.base_len, a.version, self.log.len(), a.offset, a.bias)
    }

    /// Whether the buffer can place the anchor: its version must not be
    /// from the future and its offset must fit the text it was made on.
    pub fn can_resolve(&self, a: &BufAnchor) -> (r: bool)
        requires
            self.inv(),
        ensures
            r == anchor_ok(*a, self.base_len as int, self.log@),
    {
        if a.version > self.log.len() {
            return false;
        }
        let n = len_at_version(&self.log, self.base_len, a.version);
        a.offset <= n
    }
}

/// Edit ranges are ordered, non-overlapping, and within a text of
/// length `n`.
pub open spec fn ranges_ok(ranges: Seq<(usize, usize)>, n: int) -> bool {
    &&& forall|i: int| 0 <= i < ranges.len() ==> (#[trigger] ranges[i]).0 <= ranges[i].1 <= n
    &&& forall|i: int|
        0 <= i && i + 1 < ranges.len() ==> (#[trigger] ranges[i]).1 <= ranges[i + 1].0
}

/// Total bytes inserted by the first `i` edits.
pub open spec fn sum_ins(edits: Seq<BufEdit>, i: int) -> int
    decreases i,
{
    if i <= 0 {
        0
    } else {
        sum_ins(edits, i - 1) + edits[i - 1].inserted@.len()
    }
}

/// Total bytes removed by the first `i` edits.
pub open spec fn sum_spans(edits: Seq<BufEdit>, i: int) -> int
    decreases i,
{
    if i <= 0 {
        0
    } else {
        sum_spans(edits, i - 1) + (edits[i - 1].end - edits[i - 1].start)
    }
}

pub proof fn lemma_delta_sums(edits: Seq<BufEdit>, i: int)
    ensures
        delta_before(edits, i) == sum_ins(edits, i) - sum_spans(edits, i),
    decreases i,
{
    if i > 0 {
        lemma_delta_sums(edits, i - 1);
    }
}

/// Prefix sums agree on sequences that agree on coordinates and
/// inserted lengths.
pub proof fn lemma_sums_prefix(e1: Seq<BufEdit>, e2: Seq<BufEdit>, i: int)
    requires
        forall|j: int|
            0 <= j < i ==> (#[trigger] e1[j]).start == e2[j].start && e1[j].end == e2[j].end
                && e1[j].inserted@.len() == e2[j].inserted@.len(),
        i <= e1.len(),
        i <= e2.len(),
    ensures
        sum_ins(e1, i) == sum_ins(e2, i),
        sum_spans(e1, i) == sum_spans(e2, i),
        delta_before(e1, i) == delta_before(e2, i),
    decreases i,
{
    if i > 0 {
        lemma_sums_prefix(e1, e2, i - 1);
    }
}

pub open spec fn stack_has_id(stack: Seq<BufTxn>, id: usize) -> bool {
    exists|k: int| 0 <= k < stack.len() && (#[trigger] stack[k]).id == id
}

/// Adds one, stopping at the largest representable value.
pub fn bump(x: usize) -> (r: usize)
    ensures
        r == x + 1 || (x == usize::MAX && r == x),
{
    if x < usize::MAX {
        x + 1
    } else {
        x
    }
}

fn append_indices(dst: &mut Vec<usize>, src: &Vec<usize>)
    ensures
        final(dst)@ == old(dst)@ + src@,
{
    let mut i: usize = 0;
    while i < src.len()
        invariant
            i <= src@.len(),
            dst@ =~= old(dst)@ + src@.subrange(0, i as int),
        decreases src@.len() - i,
    {
        dst.push(src[i]);
        proof {
            assert(src@.subrange(0, i + 1 as int) =~= src@.subrange(0, i as int) + seq![
                src@[i as int],
            ]);
        }
        i += 1;
    }
    proof {
        assert(src@.subrange(0, src@.len() as int) =~= src@);
        assert(dst@ =~= old(dst)@ + src@);
    }
}

impl Buffer {
    /// Applies one batch of spans to the text, appending it to the
    /// change log and its coordinate steps to the step list. The rest of
    /// the buffer's state is untouched.
    #[verifier::rlimit(80)]
    fn apply_and_log(&mut self, spans: Vec<BufEdit>)
        requires
            old(self).inv(),
            wf_spans(spans@, old(self).text@.len() as int),
            old(self).text@.len() + batch_delta(spans@) <= MAX_LEN,
        ensures
            final(self).inv(),
            final(self).log@.len() == old(self).log@.len() + 1,
            forall|v: int|
                0 <= v < old(self).log@.len() ==> #[trigger] final(self).log@[v] == old(
                    self,
                ).log@[v],
            final(self).log@.last().edits@.len() == spans@.len(),
            forall|k: int|
                0 <= k < spans@.len() ==> (#[trigger] final(self).log@.last().edits@[k]).start
                    == spans@[k].start && final(self).log@.last().edits@[k].end == spans@[k].end
                    && final(self).log@.last().edits@[k].inserted@ == spans@[k].inserted@,
            final(self).text@ == apply_edits(old(self).text@, final(self).log@.last().edits@),
            final(self).steps@.len() == old(self).steps@.len() + spans@.len(),
            forall|j: int|
                0 <= j < old(self).steps@.len() ==> #[trigger] final(self).steps@[j] == old(
                    self,
                ).steps@[j],
            final(self).base_len == old(self).base_len,
            final(self).undo_stack@ == old(self).undo_stack@,
            final(self).redo_stack@ == old(self).redo_stack@,
            final(self).depth == old(self).depth,
            final(self).next_txn_id == old(self).next_txn_id,
            final(self).group_interval == old(self).group_interval,
            final(self).avoid_grouping == old(self).avoid_grouping,
            final(self).parse_count == old(self).parse_count,
            final(self).selections_update_count == old(self).selections_update_count,
            final(self).diagnostics_update_count == old(self).diagnostics_update_count,
            final(self).is_dirty == old(self).is_dirty,
            final(self).has_conflict == old(self).has_conflict,
            final(self).active_selections@ == old(self).active_selections@,
            final(self).remote_selections@ == old(self).remote_selections@,
    {
        let ghost n0: int = self.text@.len() as int;
        let version = self.log.len();
        let (nt, filled) = apply_batch(&self.text, spans);
        proof {
            lemma_sums_prefix(filled@, spans@, spans@.len() as int);
            lemma_apply_len(self.text@, filled@);
        }
        let new_len = nt.len();
        proof {
            if self.log@.len() > 0 {
                assert(self.log@[self.log@.len() - 1].new_len as int == len_at(
                    self.base_len as int,
                    self.log@,
                    self.log@.len() as int,
                ));
            }
        }
        // record one coordinate step per span
        let ghost steps0 = self.steps@;
        let mut k: usize = 0;
        let mut old_prev: usize = 0;
        let mut new_prev: usize = 0;
        while k < filled.len()
            invariant
                (*self == Buffer { steps: self.steps, ..*old(self) }),
                old(self).inv(),
                steps0 == old(self).steps@,
                version == old(self).log@.len(),
                k <= filled@.len(),
                wf_spans(filled@, n0),
                0 <= n0 <= MAX_LEN,
                n0 == old(self).text@.len(),
                n0 + batch_delta(filled@) == new_len,
                new_len <= MAX_LEN,
                k > 0 ==> old_prev == filled@[k - 1].end,
                k == 0 ==> old_prev == 0 && new_prev == 0,
                new_prev as int == old_prev + delta_before(filled@, k as int),
                k > 0 ==> new_prev as int == new_end_of(filled@, k - 1),
                new_prev <= MAX_LEN,
                self.steps@.len() == steps0.len() + k,
                forall|j: int| 0 <= j < steps0.len() ==> #[trigger] self.steps@[j] == steps0[j],
                wf_steps(self.steps@),
                forall|i: int|
                    0 <= i < self.steps@.len() ==> (#[trigger] self.steps@[i].version as int)
                        <= version,
                k > 0 ==> self.steps@.last() == (Step {
                    version: version,
                    start: filled@[k - 1].start,
                    end: filled@[k - 1].end,
                    new_end: new_prev,
                    version_len: new_len,
                }),
            decreases filled@.len() - k,
        {
            let st = filled[k].start;
            let en = filled[k].end;
            let il = filled[k].inserted.len();
            proof {
                if k > 0 {
                    crate::patch::lemma_span_chain(filled@, k - 1 as int, k as int);
                }
                lemma_new_coords(filled@, n0, k as int);
            }
            let ns = new_prev + (st - old_prev);
            let ne = ns + il;
            let s = Step { version, start: st, end: en, new_end: ne, version_len: new_len };
            proof {
                assert(ns as int == new_start_of(filled@, k as int));
                assert(ne as int == new_end_of(filled@, k as int));
                if self.steps@.len() > 0 && k == 0 {
                    assert(self.steps@.last() == steps0[steps0.len() - 1]);
                    assert((self.steps@.last().version as int) < old(self).log@.len());
                }
                crate::steps::lemma_wf_steps_push(self.steps@, s);
            }
            self.steps.push(s);
            old_prev = en;
            new_prev = ne;
            k += 1;
        }
        self.text = nt;
        let b = Batch { edits: filled, new_len };
        proof {
            lemma_wf_log_push(self.base_len as int, self.log@, b);
        }
        self.log.push(b);
        proof {
            let me = *self;
            assert forall|i: int| 0 <= i < me.undo_stack@.len() implies txn_batches_ok(
                #[trigger] me.undo_stack@[i],
                me.log@.len() as int,
            ) by {
                assert(txn_batches_ok(old(self).undo_stack@[i], old(self).log@.len() as int));
            }
            assert forall|i: int| 0 <= i < me.redo_stack@.len() implies txn_batches_ok(
                #[trigger] me.redo_stack@[i],
                me.log@.len() as int,
            ) by {
                assert(txn_batches_ok(old(self).redo_stack@[i], old(self).log@.len() as int));
            }
            assert forall|i: int| 0 <= i < me.steps@.len() implies (
            #[trigger] me.steps@[i].version as int) < me.log@.len() as int by {
                assert((me.steps@[i].version as int) <= version);
            }
        }
    }

    /// Applies the given ranges, replacing each with the new text, as
    /// one atomic batch; outside a transaction the edit forms its own.
    #[verifier::rlimit(100)]
    pub fn edit_at(&mut self, now: u64, ranges: &Vec<(usize, usize)>, new_text: &Vec<u8>)
        requires
            old(self).inv(),
            ranges_ok(ranges@, old(self).text@.len() as int),
            old(self).text@.len() + ranges@.len() * new_text@.len() <= MAX_LEN,
            old(self).depth < usize::MAX,
        ensures
            final(self).inv(),
            ranges@.len() == 0 ==> final(self).text@ == old(self).text@ && final(self).log@
                == old(self).log@,
            ranges@.len() > 0 ==> final(self).log@.len() == old(self).log@.len() + 1
                && final(self).text@ == apply_edits(
                old(self).text@,
                final(self).log@.last().edits@,
            ),
            ranges@.len() > 0 ==> final(self).log@.last().edits@.len() == ranges@.len() && (forall|
                k: int,
            |
                0 <= k < ranges@.len() ==> (#[trigger] final(self).log@.last().edits@[k]).start
                    == (ranges@[k]).0 && final(self).log@.last().edits@[k].end == (ranges@[k]).1
                    && final(self).log@.last().edits@[k].inserted@ == new_text@),
            forall|v: int|
                0 <= v < old(self).log@.len() ==> #[trigger] final(self).log@[v]
                    == old(self).log@[v],
            forall|j: int|
                0 <= j < old(self).steps@.len() ==> #[trigger] final(self).steps@[j]
                    == old(self).steps@[j],
            final(self).depth == old(self).depth,
    {
        if ranges.len() == 0 {
            return;
        }
        let implicit = self.depth == 0;
        if implicit {
            let _ = self.start_transaction_at(now);
        }
        let mut spans: Vec<BufEdit> = Vec::new();
        let mut i: usize = 0;
        while i < ranges.len()
            invariant
                i <= ranges@.len(),
                spans@.len() == i,
                forall|k: int|
                    0 <= k < i ==> (#[trigger] spans@[k]).start == (ranges@[k]).0 && spans@[k].end
                        == (ranges@[k]).1 && spans@[k].inserted@ == new_text@,
            decreases ranges@.len() - i,
        {
            let (s, e) = ranges[i];
            spans.push(
                BufEdit { start: s, end: e, inserted: clone_bytes(new_text), deleted: Vec::new() },
            );
            i += 1;
        }
        proof {
            assert(wf_spans(spans@, self.text@.len() as int)) by {
                assert forall|k: int| 0 <= k < spans@.len() implies #[trigger] spans@[k].start
                    <= spans@[k].end <= self.text@.len() by {
                    assert((ranges@[k]).0 <= (ranges@[k]).1 <= self.text@.len());
                }
                assert forall|k: int| 0 <= k && k + 1 < spans@.len() implies
                    #[trigger] spans@[k].end <= spans@[k + 1].start by {
                    assert((ranges@[k]).1 <= (ranges@[k + 1]).0);
                }
            }
            lemma_delta_sums(spans@, spans@.len() as int);
            lemma_sum_ins_uniform(spans@, spans@.len() as int, new_text@.len() as int);
            lemma_sum_spans_nonneg(spans@, spans@.len() as int);
        }
        self.apply_and_log(spans);
        let bix = self.log.len() - 1;
        if self.depth > 0 && self.undo_stack.len() > 0 {
            let mut top = match self.undo_stack.pop() {
                Some(t) => t,
                None => {
                    proof {
                        assert(false);
                    }
                    BufTxn { id: 0, batches: Vec::new(), first_at: now, last_at: now }
                },
            };
            top.batches.push(bix);
            self.undo_stack.push(top);
            proof {
                let me = *self;
                assert forall|i2: int| 0 <= i2 < me.undo_stack@.len() implies txn_batches_ok(
                    #[trigger] me.undo_stack@[i2],
                    me.log@.len() as int,
                ) by {
                    if i2 + 1 < me.undo_stack@.len() {
                    } else {
                        assert forall|j: int|
                            0 <= j < me.undo_stack@[i2].batches@.len() implies (
                        #[trigger] me.undo_stack@[i2].batches@[j] as int) < me.log@.len() as int by {
                        }
                    }
                }
            }
        }
        self.redo_stack = Vec::new();
        self.is_dirty = true;
        if implicit {
            let _ = self.end_transaction_at(now);
        }
    }

    /// Raises the transaction depth; at depth one a fresh history entry
    /// is opened and its id returned.
    pub fn start_transaction_at(&mut self, now: u64) -> (r: Option<usize>)
        requires
            old(self).inv(),
            old(self).depth < usize::MAX,
        ensures
            final(self).inv(),
            final(self).depth == old(self).depth + 1,
            final(self).text@ == old(self).text@,
            final(self).log@ == old(self).log@,
            final(self).steps@ == old(self).steps@,
            r.is_some() <==> old(self).depth == 0,
            old(self).depth == 0 ==> r == Some(old(self).next_txn_id)
                && final(self).undo_stack@.len() == old(self).undo_stack@.len() + 1
                && (forall|i: int|
                0 <= i < old(self).undo_stack@.len() ==> #[trigger] final(self).undo_stack@[i]
                    == old(self).undo_stack@[i])
                && final(self).undo_stack@.last().id == old(self).next_txn_id
                && final(self).undo_stack@.last().batches@.len() == 0
                && final(self).undo_stack@.last().first_at == now
                && final(self).undo_stack@.last().last_at == now
                && final(self).redo_stack@ == old(self).redo_stack@,
            old(self).depth > 0 ==> r.is_none() && final(self).undo_stack@ == old(self).undo_stack@
                && final(self).redo_stack@ == old(self).redo_stack@,
    {
        self.depth = self.depth + 1;
        if self.depth == 1 {
            let id = self.next_txn_id;
            self.next_txn_id = bump(self.next_txn_id);
            self.undo_stack.push(
                BufTxn { id, batches: Vec::new(), first_at: now, last_at: now },
            );
            proof {
                let me = *self;
                assert forall|i: int| 0 <= i < me.undo_stack@.len() implies txn_batches_ok(
                    #[trigger] me.undo_stack@[i],
                    me.log@.len() as int,
                ) by {
                    if i + 1 < me.undo_stack@.len() {
                        assert(me.undo_stack@[i] == old(self).undo_stack@[i]);
                    }
                }
            }
            Some(id)
        } else {
            None
        }
    }

    /// Lowers the transaction depth; when it reaches zero the open entry
    /// is finalized: dropped if it gathered no batches, otherwise
    /// stamped, grouped with its predecessors when close enough in time,
    /// and its id returned.
    pub fn end_transaction_at(&mut self, now: u64) -> (r: Option<usize>)
        requires
            old(self).inv(),
            old(self).depth > 0,
        ensures
            final(self).inv(),
            final(self).depth == old(self).depth - 1,
            final(self).text@ == old(self).text@,
            final(self).log@ == old(self).log@,
            final(self).steps@ == old(self).steps@,
            old(self).depth > 1 ==> r.is_none() && final(self).undo_stack@ == old(self).undo_stack@
                && final(self).redo_stack@ == old(self).redo_stack@,
            old(self).depth == 1 && old(self).undo_stack@.len() > 0
                && old(self).undo_stack@.last().batches@.len() == 0 ==> r.is_none()
                && final(self).undo_stack@ == old(self).undo_stack@.drop_last(),
            old(self).depth == 1 && old(self).undo_stack@.len() > 0
                && old(self).undo_stack@.last().batches@.len() > 0 ==> r.is_some()
                && final(self).undo_stack@.len() > 0
                && final(self).undo_stack@.last().last_at == now
                && r == Some(final(self).undo_stack@.last().id),
    {
        self.depth = self.depth - 1;
        if self.depth > 0 {
            return None;
        }
        let top = match self.undo_stack.pop() {
            Some(t) => t,
            None => {
                return None;
            },
        };
        if top.batches.len() == 0 {
            return None;
        }
        let mut top = top;
        top.last_at = now;
        self.undo_stack.push(top);
        proof {
            let me = *self;
            assert forall|i: int| 0 <= i < me.undo_stack@.len() implies txn_batches_ok(
                #[trigger] me.undo_stack@[i],
                me.log@.len() as int,
            ) by {
                if i + 1 < me.undo_stack@.len() {
                    assert(me.undo_stack@[i] == old(self).undo_stack@[i]);
                } else {
                    assert(txn_batches_ok(
                        old(self).undo_stack@[old(self).undo_stack@.len() - 1],
                        old(self).log@.len() as int,
                    ));
                }
            }
        }
        let gid = self.group();
        Some(gid)
    }

    /// Merges the newest history entries while each one started within
    /// the grouping interval of its predecessor's last edit; returns the
    /// id of the surviving newest entry.
    fn group(&mut self) -> (r: usize)
        requires
            old(self).inv(),
            old(self).undo_stack@.len() > 0,
        ensures
            final(self).inv(),
            final(self).undo_stack@.len() > 0,
            final(self).text@ == old(self).text@,
            final(self).log@ == old(self).log@,
            final(self).steps@ == old(self).steps@,
            final(self).depth == old(self).depth,
            final(self).redo_stack@ == old(self).redo_stack@,
            final(self).undo_stack@.last().last_at == old(self).undo_stack@.last().last_at,
            r == final(self).undo_stack@.last().id,
    {
        if self.avoid_grouping {
            self.avoid_grouping = false;
            let n = self.undo_stack.len();
            return self.undo_stack[n - 1].id;
        }
        loop
            invariant
                self.inv(),
                self.undo_stack@.len() > 0,
                self.text@ == old(self).text@,
                self.log@ == old(self).log@,
                self.steps@ == old(self).steps@,
                self.depth == old(self).depth,
                self.base_len == old(self).base_len,
                self.redo_stack@ == old(self).redo_stack@,
                self.undo_stack@.last().last_at == old(self).undo_stack@.last().last_at,
            decreases self.undo_stack@.len(),
        {
            let n = self.undo_stack.len();
            if n < 2 {
                break;
            }
            let top_first = self.undo_stack[n - 1].first_at;
            let prev_last = self.undo_stack[n - 2].last_at;
            let gap = if top_first >= prev_last {
                top_first - prev_last
            } else {
                0
            };
            if gap > self.group_interval {
                break;
            }
            let top = match self.undo_stack.pop() {
                Some(t) => t,
                None => {
                    break;
                },
            };
            let mut prev = match self.undo_stack.pop() {
                Some(t) => t,
                None => {
                    break;
                },
            };
            prev.last_at = top.last_at;
            append_indices(&mut prev.batches, &top.batches);
            self.undo_stack.push(prev);
            proof {
                let me = *self;
                assert forall|i: int| 0 <= i < me.undo_stack@.len() implies txn_batches_ok(
                    #[trigger] me.undo_stack@[i],
                    me.log@.len() as int,
                ) by {
                    if i + 1 < me.undo_stack@.len() {
                    } else {
                        assert(txn_batches_ok(top, me.log@.len() as int));
                        assert forall|j: int|
                            0 <= j < me.undo_stack@[i].batches@.len() implies (
                        #[trigger] me.undo_stack@[i].batches@[j] as int) < me.log@.len() as int by {
                        }
                    }
                }
            }
        }
        let n = self.undo_stack.len();
        self.undo_stack[n - 1].id
    }
}

impl Buffer {
    /// Builds the batch that reverses the batch at log index `bi`,
    /// expressed in current-text coordinates: each replacement's span in
    /// the new text, carried forward through every later batch, is
    /// replaced by the bytes it deleted. Returns nothing when the
    /// reversal would exceed the text size bound.
    #[verifier::rlimit(100)]
    fn invert_batch(&self, bi: usize) -> (r: Option<Vec<BufEdit>>)
        requires
            self.inv(),
            bi < self.log@.len(),
        ensures
            r.is_some() ==> wf_spans(r.unwrap()@, self.text@.len() as int) && self.text@.len()
                + batch_delta(r.unwrap()@) <= MAX_LEN,
    {
        let m = self.log[bi].edits.len();
        let cur_v = self.log.len();
        let tl = self.text.len();
        let ghost n_bi: int = len_at(self.base_len as int, self.log@, bi as int);
        proof {
            assert(wf_spans(self.log@[bi as int].edits@, n_bi));
            assert(self.log@[bi as int].new_len as int == len_at(
                self.base_len as int,
                self.log@,
                bi as int + 1,
            ));
            if self.log@.len() > 0 {
                assert(self.log@[self.log@.len() - 1].new_len as int == len_at(
                    self.base_len as int,
                    self.log@,
                    self.log@.len() as int,
                ));
            }
            if bi > 0 {
                assert(self.log@[bi - 1].new_len as int == len_at(
                    self.base_len as int,
                    self.log@,
                    bi as int,
                ));
            }
        }
        let mut spans: Vec<BufEdit> = Vec::new();
        let mut k: usize = 0;
        let mut old_prev: usize = 0;
        let mut new_prev: usize = 0;
        let mut prev_end: usize = 0;
        let mut removed: usize = 0;
        let mut added: usize = 0;
        while k < m
            invariant
                self.inv(),
                bi < self.log@.len(),
                m == self.log@[bi as int].edits@.len(),
                cur_v == self.log@.len(),
                tl == self.text@.len(),
                tl <= MAX_LEN,
                n_bi == len_at(self.base_len as int, self.log@, bi as int),
                0 <= n_bi <= MAX_LEN,
                n_bi + batch_delta(self.log@[bi as int].edits@) == self.log@[bi as int].new_len,
                k <= m,
                k > 0 ==> old_prev == self.log@[bi as int].edits@[k - 1].end,
                k == 0 ==> old_prev == 0 && new_prev == 0,
                new_prev as int == old_prev + delta_before(self.log@[bi as int].edits@, k as int),
                k > 0 ==> new_prev as int == new_end_of(self.log@[bi as int].edits@, k - 1),
                new_prev <= MAX_LEN,
                spans@.len() == k,
                wf_spans(spans@, tl as int),
                k > 0 ==> prev_end == spans@.last().end,
                k == 0 ==> prev_end == 0,
                prev_end <= tl,
                removed as int == sum_spans(spans@, k as int),
                removed <= prev_end,
                added as int == sum_ins(spans@, k as int),
                added <= MAX_LEN,
            decreases m - k,
        {
            let st = self.log[bi].edits[k].start;
            let en = self.log[bi].edits[k].end;
            let il = self.log[bi].edits[k].inserted.len();
            proof {
                if k > 0 {
                    crate::patch::lemma_span_chain(self.log@[bi as int].edits@, k - 1 as int, k as int);
                }
                lemma_new_coords(self.log@[bi as int].edits@, n_bi, k as int);
            }
            let ns = new_prev + (st - old_prev);
            let ne = ns + il;
            let s1 = resolve_pos(&self.steps, bi + 1, cur_v, ns, Bias::Right);
            let e1 = resolve_pos(&self.steps, bi + 1, cur_v, ne, Bias::Left);
            let s2 = if s1 < prev_end {
                prev_end
            } else {
                s1
            };
            let s3 = if s2 > tl {
                tl
            } else {
                s2
            };
            let e2 = if e1 < s3 {
                s3
            } else {
                e1
            };
            let e3 = if e2 > tl {
                tl
            } else {
                e2
            };
            let ins = clone_bytes(&self.log[bi].edits[k].deleted);
            if ins.len() > MAX_LEN - added {
                return None;
            }
            added = added + ins.len();
            removed = removed + (e3 - s3);
            prev_end = e3;
            old_prev = en;
            new_prev = ne;
            let ghost spans0 = spans@;
            let s = BufEdit { start: s3, end: e3, inserted: ins, deleted: Vec::new() };
            proof {
                crate::patch::lemma_wf_spans_push(spans0, s, tl as int);
            }
            spans.push(s);
            proof {
                lemma_sums_prefix(spans@, spans0, k as int);
                assert(sum_spans(spans@, k + 1 as int) == sum_spans(spans@, k as int) + (e3
                    - s3));
                assert(sum_ins(spans@, k + 1 as int) == sum_ins(spans@, k as int)
                    + s.inserted@.len());
            }
            k += 1;
        }
        proof {
            lemma_delta_sums(spans@, spans@.len() as int);
        }
        if added > MAX_LEN - (tl - removed) {
            return None;
        }
        Some(spans)
    }

    /// Reverses the given batches, newest first, appending one inverse
    /// batch each; returns the indices of the appended batches.
    #[verifier::rlimit(100)]
    fn toggle_batches(&mut self, batches: &Vec<usize>) -> (out: Vec<usize>)
        requires
            old(self).inv(),
            forall|j: int|
                0 <= j < batches@.len() ==> (#[trigger] batches@[j] as int) < old(
                    self,
                ).log@.len() as int,
        ensures
            final(self).inv(),
            old(self).log@.len() <= final(self).log@.len(),
            forall|v: int|
                0 <= v < old(self).log@.len() ==> #[trigger] final(self).log@[v] == old(
                    self,
                ).log@[v],
            forall|j: int|
                0 <= j < out@.len() ==> (#[trigger] out@[j] as int) < final(self).log@.len() as int,
            final(self).undo_stack@ == old(self).undo_stack@,
            final(self).redo_stack@ == old(self).redo_stack@,
            final(self).depth == old(self).depth,
            final(self).text@ == apply_batches(
                old(self).text@,
                final(self).log@,
                old(self).log@.len() as int,
                final(self).log@.len() as int,
            ),
    {
        proof {
            assert(self.text@ == apply_batches(
                old(self).text@,
                self.log@,
                old(self).log@.len() as int,
                self.log@.len() as int,
            ));
        }
        let mut out: Vec<usize> = Vec::new();
        let mut k: usize = batches.len();
        while k > 0
            invariant
                self.inv(),
                k <= batches@.len(),
                forall|j: int|
                    0 <= j < batches@.len() ==> (#[trigger] batches@[j] as int) < old(
                        self,
                    ).log@.len() as int,
                old(self).log@.len() <= self.log@.len(),
                forall|v: int|
                    0 <= v < old(self).log@.len() ==> #[trigger] self.log@[v] == old(
                        self,
                    ).log@[v],
                forall|j: int|
                    0 <= j < out@.len() ==> (#[trigger] out@[j] as int) < self.log@.len() as int,
                self.undo_stack@ == old(self).undo_stack@,
                self.redo_stack@ == old(self).redo_stack@,
                self.depth == old(self).depth,
                self.text@ == apply_batches(
                    old(self).text@,
                    self.log@,
                    old(self).log@.len() as int,
                    self.log@.len() as int,
                ),
            decreases k,
        {
            k -= 1;
            let bi = batches[k];
            match self.invert_batch(bi) {
                Some(spans) => {
                    let ghost log_before = self.log@;
                    let ghost text_before = self.text@;
                    self.apply_and_log(spans);
                    out.push(self.log.len() - 1);
                    proof {
                        assert(log_before.subrange(
                            old(self).log@.len() as int,
                            log_before.len() as int,
                        ) =~= self.log@.subrange(
                            old(self).log@.len() as int,
                            log_before.len() as int,
                        ));
                        lemma_apply_batches_congruent(
                            old(self).text@,
                            log_before,
                            self.log@,
                            old(self).log@.len() as int,
                            log_before.len() as int,
                        );
                        lemma_apply_batches_snoc(
                            old(self).text@,
                            self.log@,
                            old(self).log@.len() as int,
                            self.log@.len() - 1,
                        );
                        assert(self.log@.last() == self.log@[self.log@.len() - 1]);
                    }
                },
                None => {
                },
            }
        }
        out
    }

    /// Reverses the newest history entry, moving it to the redo stack;
    /// returns its id.
    pub fn undo(&mut self) -> (r: Option<usize>)
        requires
            old(self).inv(),
            old(self).depth == 0,
        ensures
            final(self).inv(),
            r.is_some() <==> old(self).undo_stack@.len() > 0,
    {
        if self.undo_stack.len() == 0 {
            return None;
        }
        let n = self.undo_stack.len();
        self.undo_move(n - 1)
    }

    /// Reverses the history entry with the given id wherever it sits in
    /// the undo stack; reports whether it was found.
    pub fn undo_transaction(&mut self, id: usize) -> (r: bool)
        requires
            old(self).inv(),
            old(self).depth == 0,
        ensures
            final(self).inv(),
            r == stack_has_id(old(self).undo_stack@, id),
    {
        let mut j: usize = 0;
        while j < self.undo_stack.len()
            invariant
                self.inv(),
                self.depth == 0,
                *self == *old(self),
                j <= self.undo_stack@.len(),
                forall|i: int| 0 <= i < j ==> (#[trigger] self.undo_stack@[i]).id != id,
            decreases self.undo_stack@.len() - j,
        {
            if self.undo_stack[j].id == id {
                let _ = self.undo_move(j);
                return true;
            }
            j += 1;
        }
        proof {
            if stack_has_id(self.undo_stack@, id) {
                let w = choose|w: int|
                    0 <= w < self.undo_stack@.len() && (#[trigger] self.undo_stack@[w]).id == id;
                assert(false);
            }
        }
        false
    }

    /// Removes entry `j` from the undo stack, applies its inverse, and
    /// pushes the result onto the redo stack.
    fn undo_move(&mut self, j: usize) -> (r: Option<usize>)
        requires
            old(self).inv(),
            old(self).depth == 0,
            j < old(self).undo_stack@.len(),
        ensures
            final(self).inv(),
            r.is_some(),
    {
        let entry = self.undo_stack.remove(j);
        proof {
            lemma_stack_remove(old(self).undo_stack@, j as int, self.log@.len() as int);
            assert(txn_batches_ok(entry, self.log@.len() as int));
        }
        let nb = self.toggle_batches(&entry.batches);
        let t = BufTxn { id: entry.id, batches: nb, first_at: entry.first_at, last_at: entry.last_at };
        self.redo_stack.push(t);
        proof {
            let me = *self;
            assert forall|i: int| 0 <= i < me.redo_stack@.len() implies txn_batches_ok(
                #[trigger] me.redo_stack@[i],
                me.log@.len() as int,
            ) by {
                if i + 1 < me.redo_stack@.len() {
                }
            }
            assert forall|i: int| 0 <= i < me.undo_stack@.len() implies txn_batches_ok(
                #[trigger] me.undo_stack@[i],
                me.log@.len() as int,
            ) by {
                assert forall|q: int|
                    0 <= q < me.undo_stack@[i].batches@.len() implies (
                #[trigger] me.undo_stack@[i].batches@[q] as int) < me.log@.len() as int by {
                }
            }
        }
        Some(entry.id)
    }

    /// Re-applies the newest undone entry, moving it back to the undo
    /// stack; returns its id.
    pub fn redo(&mut self) -> (r: Option<usize>)
        requires
            old(self).inv(),
            old(self).depth == 0,
        ensures
            final(self).inv(),
            r.is_some() <==> old(self).redo_stack@.len() > 0,
    {
        if self.redo_stack.len() == 0 {
            return None;
        }
        let n = self.redo_stack.len();
        self.redo_move(n - 1)
    }

    /// Re-applies the undone entry with the given id wherever it sits
    /// in the redo stack; reports whether it was found.
    pub fn redo_transaction(&mut self, id: usize) -> (r: bool)
        requires
            old(self).inv(),
            old(self).depth == 0,
        ensures
            final(self).inv(),
            r == stack_has_id(old(self).redo_stack@, id),
    {
        let mut j: usize = 0;
        while j < self.redo_stack.len()
            invariant
                self.inv(),
                self.depth == 0,
                *self == *old(self),
                j <= self.redo_stack@.len(),
                forall|i: int| 0 <= i < j ==> (#[trigger] self.redo_stack@[i]).id != id,
            decreases self.redo_stack@.len() - j,
        {
            if self.redo_stack[j].id == id {
                let _ = self.redo_move(j);
                return true;
            }
            j += 1;
        }
        proof {
            if stack_has_id(self.redo_stack@, id) {
                let w = choose|w: int|
                    0 <= w < self.redo_stack@.len() && (#[trigger] self.redo_stack@[w]).id == id;
                assert(false);
            }
        }
        false
    }

    /// Removes entry `j` from the redo stack, applies its inverse, and
    /// pushes the result onto the undo stack.
    fn redo_move(&mut self, j: usize) -> (r: Option<usize>)
        requires
            old(self).inv(),
            old(self).depth == 0,
            j < old(self).redo_stack@.len(),
        ensures
            final(self).inv(),
            r.is_some(),
    {
        let entry = self.redo_stack.remove(j);
        proof {
            lemma_stack_remove(old(self).redo_stack@, j as int, self.log@.len() as int);
            assert(txn_batches_ok(entry, self.log@.len() as int));
        }
        let nb = self.toggle_batches(&entry.batches);
        let t = BufTxn { id: entry.id, batches: nb, first_at: entry.first_at, last_at: entry.last_at };
        self.undo_stack.push(t);
        proof {
            let me = *self;
            assert forall|i: int| 0 <= i < me.undo_stack@.len() implies txn_batches_ok(
                #[trigger] me.undo_stack@[i],
                me.log@.len() as int,
            ) by {
                if i + 1 < me.undo_stack@.len() {
                }
            }
            assert forall|i: int| 0 <= i < me.redo_stack@.len() implies txn_batches_ok(
                #[trigger] me.redo_stack@[i],
                me.log@.len() as int,
            ) by {
                assert forall|q: int|
                    0 <= q < me.redo_stack@[i].batches@.len() implies (
                #[trigger] me.redo_stack@[i].batches@[q] as int) < me.log@.len() as int by {
                }
            }
        }
        Some(entry.id)
    }

    /// Keeps the next finalized transaction from being merged with its
    /// predecessor.
    pub fn avoid_grouping_next_transaction(&mut self)
        requires
            old(self).inv(),
        ensures
            final(self).inv(),
            final(self).avoid_grouping,
            final(self).text@ == old(self).text@,
            final(self).log@ == old(self).log@,
    {
        self.avoid_grouping = true;
    }

    /// A copy of the current text.
    pub fn text_clone(&self) -> (r: Vec<u8>)
        ensures
            r@ == self.text@,
    {
        clone_bytes(&self.text)
    }

    /// Records that the buffer was reparsed.
    pub fn did_reparse(&mut self)
        requires
            old(self).inv(),
        ensures
            final(self).inv(),
            final(self).parse_count >= old(self).parse_count,
            final(self).text@ == old(self).text@,
            final(self).log@ == old(self).log@,
    {
        self.parse_count = bump(self.parse_count);
    }

    /// Records a diagnostics update.
    pub fn did_update_diagnostics(&mut self)
        requires
            old(self).inv(),
        ensures
            final(self).inv(),
            final(self).diagnostics_update_count >= old(self).diagnostics_update_count,
            final(self).text@ == old(self).text@,
            final(self).log@ == old(self).log@,
    {
        self.diagnostics_update_count = bump(self.diagnostics_update_count);
    }

    /// Marks the buffer saved, clearing the dirty and conflict flags.
    pub fn mark_saved(&mut self)
        requires
            old(self).inv(),
        ensures
            final(self).inv(),
            !final(self).is_dirty,
            !final(self).has_conflict,
            final(self).text@ == old(self).text@,
            final(self).log@ == old(self).log@,
    {
        self.is_dirty = false;
        self.has_conflict = false;
    }

    /// Marks the buffer's file as changed underneath it.
    pub fn set_conflict(&mut self)
        requires
            old(self).inv(),
        ensures
            final(self).inv(),
            final(self).has_conflict,
            final(self).text@ == old(self).text@,
            final(self).log@ == old(self).log@,
    {
        self.has_conflict = true;
    }

    /// Installs the active selections, bumping the selections
    /// generation.
    pub fn set_active_selections(&mut self, sels: Vec<BufSelection>)
        requires
            old(self).inv(),
        ensures
            final(self).inv(),
            final(self).active_selections@ == sels@,
            final(self).selections_update_count >= old(self).selections_update_count,
            final(self).text@ == old(self).text@,
            final(self).log@ == old(self).log@,
    {
        self.active_selections = sels;
        self.selections_update_count = bump(self.selections_update_count);
    }

    /// Clears the active selections, bumping the selections generation.
    pub fn remove_active_selections(&mut self)
        requires
            old(self).inv(),
        ensures
            final(self).inv(),
            final(self).active_selections@.len() == 0,
            final(self).selections_update_count >= old(self).selections_update_count,
            final(self).text@ == old(self).text@,
            final(self).log@ == old(self).log@,
    {
        self.active_selections = Vec::new();
        self.selections_update_count = bump(self.selections_update_count);
    }

    /// Installs the selections reported by other replicas.
    pub fn set_remote_selections(&mut self, sels: Vec<RemoteSelection>)
        requires
            old(self).inv(),
        ensures
            final(self).inv(),
            final(self).remote_selections@ == sels@,
            final(self).text@ == old(self).text@,
            final(self).log@ == old(self).log@,
    {
        self.remote_selections = sels;
    }
}

/// Removing a stack entry leaves every remaining entry's batches valid.
proof fn lemma_stack_remove(stack: Seq<BufTxn>, j: int, log_len: int)
    requires
        0 <= j < stack.len(),
        forall|i: int| 0 <= i < stack.len() ==> txn_batches_ok(#[trigger] stack[i], log_len),
    ensures
        forall|i: int|
            0 <= i < stack.remove(j).len() ==> txn_batches_ok(#[trigger] stack.remove(j)[i], log_len),
{
    let s2 = stack.remove(j);
    assert forall|i: int| 0 <= i < s2.len() implies txn_batches_ok(#[trigger] s2[i], log_len) by {
        if i < j {
            assert(s2[i] == stack[i]);
        } else {
            assert(s2[i] == stack[i + 1]);
        }
    }
}

/// The text after applying the batches of `log` at indices `[from, to)`
/// in order.
pub open spec fn apply_batches(t: Seq<u8>, log: Seq<Batch>, from: int, to: int) -> Seq<u8>
    decreases to - from,
{
    if from >= to {
        t
    } else {
        apply_batches(apply_edits(t, log[from].edits@), log, from + 1, to)
    }
}

pub proof fn lemma_apply_batches_snoc(t: Seq<u8>, log: Seq<Batch>, a: int, b: int)
    requires
        a <= b < log.len(),
    ensures
        apply_batches(t, log, a, b + 1) == apply_edits(apply_batches(t, log, a, b), log[b].edits@),
    decreases b - a,
{
    if a < b {
        lemma_apply_batches_snoc(apply_edits(t, log[a].edits@), log, a + 1, b);
    } else {
        assert(apply_batches(t, log, a, b) == t);
        assert(apply_batches(t, log, a, b + 1) == apply_batches(
            apply_edits(t, log[a].edits@),
            log,
            a + 1,
            b + 1,
        ));
        assert(apply_batches(apply_edits(t, log[a].edits@), log, a + 1, b + 1) == apply_edits(
            t,
            log[a].edits@,
        ));
    }
}

pub proof fn lemma_apply_batches_congruent(t: Seq<u8>, log1: Seq<Batch>, log2: Seq<Batch>, a: int, b: int)
    requires
        0 <= a <= b <= log1.len(),
        b <= log2.len(),
        log1.subrange(a, b) == log2.subrange(a, b),
    ensures
        apply_batches(t, log1, a, b) == apply_batches(t, log2, a, b),
    decreases b - a,
{
    if a < b {
        assert(log1[a] == log1.subrange(a, b)[0]);
        assert(log2[a] == log2.subrange(a, b)[0]);
        assert(log1.subrange(a + 1, b) =~= log2.subrange(a + 1, b)) by {
            assert forall|k: int|
                0 <= k < b - (a + 1) implies (#[trigger] log1.subrange(a + 1, b)[k])
                == log2.subrange(a + 1, b)[k] by {
                assert(log1.subrange(a + 1, b)[k] == log1.subrange(a, b)[k + 1]);
                assert(log2.subrange(a + 1, b)[k] == log2.subrange(a, b)[k + 1]);
            }
        }
        lemma_apply_batches_congruent(apply_edits(t, log1[a].edits@), log1, log2, a + 1, b);
    }
}

pub proof fn lemma_sum_ins_uniform(edits: Seq<BufEdit>, i: int, m: int)
    requires
        forall|k: int| 0 <= k < edits.len() ==> (#[trigger] edits[k].inserted@.len()) as int == m,
        0 <= i <= edits.len(),
    ensures
        sum_ins(edits, i) == i * m,
    decreases i,
{
    if i > 0 {
        lemma_sum_ins_uniform(edits, i - 1, m);
        assert((i - 1) * m + m == i * m) by (nonlinear_arith);
    } else {
        assert(0 * m == 0) by (nonlinear_arith);
    }
}

pub proof fn lemma_sum_spans_nonneg(edits: Seq<BufEdit>, i: int)
    requires
        forall|k: int| 0 <= k < edits.len() ==> (#[trigger] edits[k]).start <= edits[k].end,
        i <= edits.len(),
    ensures
        sum_spans(edits, i) >= 0,
    decreases i,
{
    if i > 0 {
        lemma_sum_spans_nonneg(edits, i - 1);
    }
}

} // verus!
