//! Flattened change records for anchor resolution.
//!
//! Buffers log their edits twice: full batches (with the inserted and
//! removed bytes) drive undo, while a flat list of `Step`s — one per
//! span, holding only coordinates — is what snapshots copy and use to
//! carry anchors from an old version to a newer one. A step records the
//! version it belongs to, its span in that version's text, the offset
//! its replacement ends at in the next version, and the length of the
//! next version's text.

use vstd::prelude::*;
use crate::coords::{Bias, MAX_LEN};

verus! {

/// One span replacement, in coordinates only.
#[derive(Copy, Clone, Eq, PartialEq, Debug, Structural)]
pub struct Step {
    /// The version this step's batch was applied to.
    pub version: usize,
    /// Replaced span, in the text of `version`.
    pub start: usize,
    pub end: usize,
    /// End of the replacement, in the text of `version + 1`.
    pub new_end: usize,
    /// Length of the text of `version + 1`.
    pub version_len: usize,
}

/// Steps are ordered by version, and within one version the spans are
/// ordered, non-overlapping, and agree on the resulting text length.
pub open spec fn wf_steps(steps: Seq<Step>) -> bool {
    &&& forall|i: int|
        0 <= i < steps.len() ==> #[trigger] steps[i].start <= steps[i].end <= MAX_LEN
            && steps[i].new_end <= steps[i].version_len <= MAX_LEN
    &&& forall|i: int|
        0 <= i && i + 1 < steps.len() ==> #[trigger] steps[i].version <= steps[i + 1].version && (
        steps[i].version == steps[i + 1].version ==> steps[i].end <= steps[i + 1].start
            && steps[i].new_end <= steps[i + 1].new_end && steps[i].version_len == steps[i
            + 1].version_len)
}

/// Clamps `x` into `[0, hi]`.
pub open spec fn clamp_to(x: int, hi: int) -> int {
    if x < 0 {
        0
    } else if x > hi {
        hi
    } else {
        x
    }
}

/// Closes the batch currently being scanned: a position that stopped
/// inside the batch is already absolute; one that passed every span is
/// shifted by the spans before it; either way it is clamped into the
/// version's text.
pub open spec fn commit_pos(o: int, old_prev: int, new_prev: int, vlen: int, done: bool) -> int {
    if done {
        clamp_to(o, vlen)
    } else {
        clamp_to(new_prev + (o - old_prev), vlen)
    }
}

/// Carries a position through the steps, batch by batch. `o` is a
/// position in the text of version `vcur` until that batch closes;
/// `old_prev`/`new_prev` are the old and new ends of the last span of
/// the current batch that lies before `o`; `done` is set once the
/// position has been placed in the current batch's new text.
pub open spec fn resolve_rec(
    steps: Seq<Step>,
    i: int,
    from: int,
    to: int,
    bias: Bias,
    o: int,
    vcur: int,
    old_prev: int,
    new_prev: int,
    vlen: int,
    done: bool,
) -> int
    decreases steps.len() - i, (if 0 <= i < steps.len() && steps[i].version != vcur {
        1int
    } else {
        0int
    }),
{
    if i < 0 || i >= steps.len() || steps[i].version >= to {
        commit_pos(o, old_prev, new_prev, vlen, done)
    } else {
        let s = steps[i];
        if s.version < from {
            resolve_rec(steps, i + 1, from, to, bias, o, vcur, old_prev, new_prev, vlen, done)
        } else if s.version != vcur {
            resolve_rec(
                steps,
                i,
                from,
                to,
                bias,
                commit_pos(o, old_prev, new_prev, vlen, done),
                s.version as int,
                0,
                0,
                s.version_len as int,
                false,
            )
        } else if done {
            resolve_rec(steps, i + 1, from, to, bias, o, vcur, old_prev, new_prev, vlen, true)
        } else if o < s.start || (o == s.start && bias == Bias::Left) {
            resolve_rec(
                steps,
                i + 1,
                from,
                to,
                bias,
                new_prev + (o - old_prev),
                vcur,
                old_prev,
                new_prev,
                vlen,
                true,
            )
        } else if o <= s.end {
            resolve_rec(
                steps,
                i + 1,
                from,
                to,
                bias,
                s.new_end as int,
                vcur,
                old_prev,
                new_prev,
                vlen,
                true,
            )
        } else {
            resolve_rec(
                steps,
                i + 1,
                from,
                to,
                bias,
                o,
                vcur,
                s.end as int,
                s.new_end as int,
                vlen,
                false,
            )
        }
    }
}

/// Where a position at version `from` lands at version `to`.
pub open spec fn resolve_steps(steps: Seq<Step>, from: int, to: int, o: int, bias: Bias) -> int {
    resolve_rec(steps, 0, from, to, bias, o, -1, 0, 0, o, false)
}

/// If no step's version falls in `[from, to)`, the position is
/// unchanged.
pub proof fn lemma_resolve_id(steps: Seq<Step>, from: int, to: int, o: int, bias: Bias)
    requires
        0 <= o,
        forall|i: int|
            0 <= i < steps.len() ==> !(from <= #[trigger] steps[i].version < to),
        forall|i: int|
            0 <= i && i + 1 < steps.len() ==> #[trigger] steps[i].version <= steps[i + 1].version,
    ensures
        resolve_steps(steps, from, to, o, bias) == o,
{
    lemma_resolve_id_rec(steps, 0, from, to, o, bias);
}

proof fn lemma_resolve_id_rec(steps: Seq<Step>, i: int, from: int, to: int, o: int, bias: Bias)
    requires
        0 <= o,
        0 <= i,
        forall|k: int|
            0 <= k < steps.len() ==> !(from <= #[trigger] steps[k].version < to),
    ensures
        resolve_rec(steps, i, from, to, bias, o, -1, 0, 0, o, false) == o,
    decreases steps.len() - i,
{
    if i < steps.len() && steps[i].version < to {
        lemma_resolve_id_rec(steps, i + 1, from, to, o, bias);
    }
}

/// A step may be appended when it respects the ordering against the
/// current last step.
pub proof fn lemma_wf_steps_push(steps: Seq<Step>, s: Step)
    requires
        wf_steps(steps),
        s.start <= s.end <= MAX_LEN,
        s.new_end <= s.version_len <= MAX_LEN,
        steps.len() > 0 ==> steps.last().version <= s.version,
        steps.len() > 0 && steps.last().version == s.version ==> steps.last().end <= s.start
            && steps.last().new_end <= s.new_end && steps.last().version_len == s.version_len,
    ensures
        wf_steps(steps.push(s)),
{
    let s2 = steps.push(s);
    assert forall|i: int| 0 <= i < s2.len() implies #[trigger] s2[i].start <= s2[i].end <= MAX_LEN
        && s2[i].new_end <= s2[i].version_len <= MAX_LEN by {
        if i < steps.len() {
            assert(s2[i] == steps[i]);
        } else {
            assert(s2[i] == s);
        }
    }
    assert forall|i: int| 0 <= i && i + 1 < s2.len() implies #[trigger] s2[i].version <= s2[i
        + 1].version && (s2[i].version == s2[i + 1].version ==> s2[i].end <= s2[i + 1].start
        && s2[i].new_end <= s2[i + 1].new_end && s2[i].version_len == s2[i + 1].version_len) by {
        if i + 1 < steps.len() {
            assert(s2[i] == steps[i]);
            assert(s2[i + 1] == steps[i + 1]);
        } else {
            assert(s2[i] == steps[i]);
            assert(s2[i + 1] == s);
            assert(steps[i] == steps.last());
        }
    }
}

/// The text length at version `v`: the length recorded by the last step
/// of an earlier version, or the base length when no edit came before.
pub open spec fn len_at_version_steps(steps: Seq<Step>, base_len: int, v: int) -> int
    decreases steps.len(),
{
    if steps.len() == 0 {
        base_len
    } else if (steps.last().version as int) < v {
        steps.last().version_len as int
    } else {
        len_at_version_steps(steps.drop_last(), base_len, v)
    }
}

/// Reads the text length at version `v` from the step list.
pub fn version_len_of(steps: &Vec<Step>, base_len: usize, v: usize) -> (r: usize)
    ensures
        r as int == len_at_version_steps(steps@, base_len as int, v as int),
{
    proof {
        assert(steps@.take(steps@.len() as int) =~= steps@);
    }
    let mut i: usize = steps.len();
    while i > 0
        invariant
            i <= steps@.len(),
            len_at_version_steps(steps@, base_len as int, v as int) == len_at_version_steps(
                steps@.take(i as int),
                base_len as int,
                v as int,
            ),
        decreases i,
    {
        proof {
            let pre = steps@.take(i as int);
            assert(pre.last() == steps@[i - 1]);
            assert(pre.drop_last() =~= steps@.take(i - 1 as int));
        }
        if steps[i - 1].version < v {
            return steps[i - 1].version_len;
        }
        i -= 1;
    }
    proof {
        assert(steps@.take(0int) =~= Seq::<Step>::empty());
    }
    base_len
}

/// Copies a step list.
pub fn clone_steps(steps: &Vec<Step>) -> (r: Vec<Step>)
    ensures
        r@ == steps@,
{
    let mut r: Vec<Step> = Vec::new();
    let mut i: usize = 0;
    while i < steps.len()
        invariant
            i <= steps@.len(),
            r@.len() == i,
            forall|j: int| 0 <= j < i ==> r@[j] == steps@[j],
        decreases steps@.len() - i,
    {
        r.push(steps[i]);
        i += 1;
    }
    proof {
        assert(r@ =~= steps@);
    }
    r
}

/// Carries a position at version `from` of the step list to version
/// `to`, mirroring `resolve_steps`.
pub fn resolve_pos(steps: &Vec<Step>, from: usize, to: usize, o: usize, bias: Bias) -> (r: usize)
    requires
        wf_steps(steps@),
        o <= MAX_LEN,
    ensures
        r == resolve_steps(steps@, from as int, to as int, o as int, bias),
        r <= MAX_LEN,
{
    let n = steps.len();
    let mut i: usize = 0;
    let mut cur: usize = o;
    let mut vcur: usize = 0;
    let mut started: bool = false;
    let mut old_prev: usize = 0;
    let mut new_prev: usize = 0;
    let mut vlen: usize = o;
    let mut done: bool = false;
    loop
        invariant
            wf_steps(steps@),
            n == steps@.len(),
            i <= n,
            o <= MAX_LEN,
            !done ==> old_prev <= cur,
            !done ==> cur <= MAX_LEN,
            done ==> cur <= 2 * MAX_LEN,
            new_prev <= MAX_LEN,
            vlen <= MAX_LEN,
            done ==> started,
            !started ==> old_prev == 0 && new_prev == 0 && vlen == o && !done && cur == o,
            resolve_steps(steps@, from as int, to as int, o as int, bias) == resolve_rec(
                steps@,
                i as int,
                from as int,
                to as int,
                bias,
                cur as int,
                if started {
                    vcur as int
                } else {
                    -1
                },
                old_prev as int,
                new_prev as int,
                vlen as int,
                done,
            ),
        decreases n - i, (if i < n && (!started || steps@[i as int].version != vcur) {
            1int
        } else {
            0int
        }),
    {
        if i >= n || steps[i].version >= to {
            let x = if done {
                cur
            } else {
                new_prev + (cur - old_prev)
            };
            if x > vlen {
                return vlen;
            }
            return x;
        }
        let s = steps[i];
        if s.version < from {
            i += 1;
        } else if !started || s.version != vcur {
            // close the previous batch and open this one
            let x = if done {
                cur
            } else {
                new_prev + (cur - old_prev)
            };
            cur = if x > vlen {
                vlen
            } else {
                x
            };
            vcur = s.version;
            old_prev = 0;
            new_prev = 0;
            vlen = s.version_len;
            done = false;
            started = true;
        } else if done {
            i += 1;
        } else if cur < s.start || (cur == s.start && matches!(bias, Bias::Left)) {
            cur = new_prev + (cur - old_prev);
            done = true;
            i += 1;
        } else if cur <= s.end {
            cur = s.new_end;
            done = true;
            i += 1;
        } else {
            old_prev = s.end;
            new_prev = s.new_end;
            i += 1;
        }
    }
}

} // verus!
