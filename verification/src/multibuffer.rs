//! The composition controller.
//!
//! A `MultiBuffer` owns the excerpt list (through its snapshot), a
//! record per referenced buffer, a transaction history that groups
//! edits across buffers, and the subscription baselines. The buffers
//! themselves live in a `BufferStore` owned by the host and are passed
//! into every operation that reads or edits them, mirroring a reactive
//! host handing out buffer access.

use vstd::prelude::*;
use crate::coords::{Bias, MAX_LEN, clone_bytes, slice_of, offset_to_point_in, count_nl};
use crate::locator::{Locator, lex_lt, lex_le, lemma_lex_trichotomy, lemma_lex_asymmetric};
use crate::steps::{Step, clone_steps, resolve_steps, clamp_to, lemma_resolve_id, resolve_pos};
use crate::buffer::{Buffer, BufAnchor, BufSelection, RemoteSelection, ranges_ok, apply_batches};
use crate::snapshot::{
    Excerpt,
    Anchor,
    MultiBufferSnapshot,
    text_of,
    prefix_len,
    find_ix,
    seek_ix,
    anchor_bounded,
    anchor_at_post,
    lemma_text_of_len,
    lemma_prefix_len_bound,
    lemma_prefix_len_prefix,
};
use crate::patch::Edit;

verus! {

/// The host-owned collection of buffers; a buffer's id is its index.
pub struct BufferStore {
    pub buffers: Vec<Buffer>,
}

impl BufferStore {
    pub open spec fn inv(self) -> bool {
        forall|i: int| 0 <= i < self.buffers@.len() ==> (#[trigger] self.buffers@[i]).inv()
    }

    pub fn new() -> (r: BufferStore)
        ensures
            r.inv(),
            r.buffers@.len() == 0,
    {
        BufferStore { buffers: Vec::new() }
    }

    /// Creates a buffer holding the given text; returns its id.
    pub fn add_buffer(&mut self, text: Vec<u8>) -> (r: usize)
        requires
            old(self).inv(),
            text@.len() <= MAX_LEN,
        ensures
            final(self).inv(),
            r == old(self).buffers@.len(),
            final(self).buffers@.len() == old(self).buffers@.len() + 1,
            final(self).buffers@[r as int].text@ == text@,
            forall|i: int|
                0 <= i < old(self).buffers@.len() ==> #[trigger] final(self).buffers@[i] == old(self).buffers@[i],
    {
        let id = self.buffers.len();
        let b = Buffer::new(text);
        self.buffers.push(b);
        proof {
            assert forall|i: int| 0 <= i < self.buffers@.len() implies (
            #[trigger] self.buffers@[i]).inv() by {
                if i < old(self).buffers@.len() {
                    assert(self.buffers@[i] == old(self).buffers@[i]);
                }
            }
        }
        id
    }

    /// Read access to one buffer.
    pub fn buffer(&self, id: usize) -> (r: &Buffer)
        requires
            id < self.buffers@.len(),
        ensures
            *r == self.buffers@[id as int],
    {
        &self.buffers[id]
    }

    /// Removes a buffer for mutation; put it back with `put_buffer`.
    pub fn take_buffer(&mut self, id: usize) -> (r: Buffer)
        requires
            old(self).inv(),
            id < old(self).buffers@.len(),
        ensures
            r == old(self).buffers@[id as int],
            r.inv(),
            final(self).buffers@ == old(self).buffers@.remove(id as int),
    {
        self.buffers.remove(id)
    }

    /// Restores a buffer taken with `take_buffer`.
    pub fn put_buffer(&mut self, id: usize, b: Buffer)
        requires
            id <= old(self).buffers@.len(),
            b.inv(),
            forall|i: int| 0 <= i < old(self).buffers@.len() ==> (#[trigger] old(self).buffers@[i]).inv(),
        ensures
            final(self).buffers@ == old(self).buffers@.insert(id as int, b),
            final(self).inv(),
    {
        self.buffers.insert(id, b);
        proof {
            assert forall|i: int| 0 <= i < self.buffers@.len() implies (
            #[trigger] self.buffers@[i]).inv() by {
                if i < id {
                    assert(self.buffers@[i] == old(self).buffers@[i]);
                } else if i == id {
                } else {
                    assert(self.buffers@[i] == old(self).buffers@[i - 1]);
                }
            }
        }
    }
}

/// One history entry: the buffer transactions it bundles, and the edit
/// times used for grouping.
pub struct Transaction {
    pub id: usize,
    pub buffer_transactions: Vec<(usize, usize)>,
    pub first_at: u64,
    pub last_at: u64,
}

/// Undo and redo stacks of grouped transactions across buffers.
pub struct History {
    pub next_transaction_id: usize,
    pub undo_stack: Vec<Transaction>,
    pub redo_stack: Vec<Transaction>,
    pub transaction_depth: usize,
    pub group_interval: u64,
}

fn append_pairs(dst: &mut Vec<(usize, usize)>, src: &Vec<(usize, usize)>)
    ensures
        final(dst)@ == old(dst)@ + src@,
{
    let mut i: usize = 0;
    while i < src.len()
        invariant
            i <= src@.len(),
            dst@ =~= old(dst)@ + src@.subrange(0, i as int),
        decreases src@.len() - i,
    {
        dst.push(src[i]);
        proof {
            assert(src@.subrange(0, i + 1 as int) =~= src@.subrange(0, i as int) + seq![
                src@[i as int],
            ]);
        }
        i += 1;
    }
    proof {
        assert(src@.subrange(0, src@.len() as int) =~= src@);
        assert(dst@ =~= old(dst)@ + src@);
    }
}

fn clone_pairs(src: &Vec<(usize, usize)>) -> (r: Vec<(usize, usize)>)
    ensures
        r@ == src@,
{
    let mut r: Vec<(usize, usize)> = Vec::new();
    append_pairs(&mut r, src);
    proof {
        assert(r@ =~= src@);
    }
    r
}

impl History {
    pub fn new() -> (r: History)
        ensures
            r.transaction_depth == 0,
            r.undo_stack@.len() == 0,
            r.redo_stack@.len() == 0,
            r.group_interval == 300,
    {
        History {
            next_transaction_id: 0,
            undo_stack: Vec::new(),
            redo_stack: Vec::new(),
            transaction_depth: 0,
            group_interval: 300,
        }
    }

    /// Raises the depth; at depth one a fresh entry is opened.
    pub fn start_transaction(&mut self, now: u64) -> (r: Option<usize>)
        requires
            old(self).transaction_depth < usize::MAX,
        ensures
            final(self).transaction_depth == old(self).transaction_depth + 1,
            r.is_some() <==> old(self).transaction_depth == 0,
            final(self).group_interval == old(self).group_interval,
            old(self).transaction_depth == 0 ==> r == Some(old(self).next_transaction_id)
                && final(self).undo_stack@.len() == old(self).undo_stack@.len() + 1
                && (forall|i: int|
                0 <= i < old(self).undo_stack@.len() ==> #[trigger] final(self).undo_stack@[i]
                    == old(self).undo_stack@[i])
                && final(self).undo_stack@.last().id == old(self).next_transaction_id
                && final(self).undo_stack@.last().buffer_transactions@.len() == 0
                && final(self).undo_stack@.last().first_at == now
                && final(self).undo_stack@.last().last_at == now
                && final(self).redo_stack@ == old(self).redo_stack@,
            old(self).transaction_depth > 0 ==> final(self).undo_stack@ == old(self).undo_stack@
                && final(self).redo_stack@ == old(self).redo_stack@,
    {
        self.transaction_depth = self.transaction_depth + 1;
        if self.transaction_depth == 1 {
            let id = self.next_transaction_id;
            self.next_transaction_id = crate::buffer::bump(self.next_transaction_id);
            self.undo_stack.push(
                Transaction { id, buffer_transactions: Vec::new(), first_at: now, last_at: now },
            );
            Some(id)
        } else {
            None
        }
    }

    /// Lowers the depth; at depth zero the open entry is finalized:
    /// dropped when no buffer transaction was gathered, kept and
    /// stamped otherwise. Returns whether an entry was kept.
    pub fn end_transaction(&mut self, now: u64, buffer_transactions: Vec<(usize, usize)>) -> (r:
        bool)
        requires
            old(self).transaction_depth > 0,
        ensures
            final(self).transaction_depth == old(self).transaction_depth - 1,
            final(self).group_interval == old(self).group_interval,
            r ==> final(self).undo_stack@.len() > 0,
            r == (old(self).transaction_depth == 1 && old(self).undo_stack@.len() > 0
                && buffer_transactions@.len() > 0),
            r ==> final(self).undo_stack@.len() == old(self).undo_stack@.len()
                && (forall|i: int|
                0 <= i < old(self).undo_stack@.len() - 1 ==> #[trigger] final(self).undo_stack@[i]
                    == old(self).undo_stack@[i])
                && final(self).undo_stack@.last().id == old(self).undo_stack@.last().id
                && final(self).undo_stack@.last().first_at == old(self).undo_stack@.last().first_at
                && final(self).undo_stack@.last().last_at == now
                && final(self).undo_stack@.last().buffer_transactions@ == old(self).undo_stack@.last().buffer_transactions@ + buffer_transactions@,
            old(self).transaction_depth > 1 ==> final(self).undo_stack@ == old(self).undo_stack@,
            old(self).transaction_depth == 1 && old(self).undo_stack@.len() > 0
                && buffer_transactions@.len() == 0 ==> final(self).undo_stack@ == old(self).undo_stack@.drop_last(),
            final(self).redo_stack@ == old(self).redo_stack@,
    {
        self.transaction_depth = self.transaction_depth - 1;
        if self.transaction_depth > 0 {
            return false;
        }
        let top = match self.undo_stack.pop() {
            Some(t) => t,
            None => {
                return false;
            },
        };
        if buffer_transactions.len() == 0 {
            return false;
        }
        let mut top = top;
        top.last_at = now;
        let mut bt = top.buffer_transactions;
        append_pairs(&mut bt, &buffer_transactions);
        top.buffer_transactions = bt;
        self.undo_stack.push(top);
        true
    }

    /// Merges the newest entries while each started within the
    /// grouping interval of its predecessor's last edit; the merged
    /// entry keeps the earlier id and all buffer transactions. Returns
    /// the id of the surviving newest entry.
    pub fn group(&mut self) -> (r: Option<usize>)
        ensures
            final(self).transaction_depth == old(self).transaction_depth,
            final(self).group_interval == old(self).group_interval,
            r.is_some() <==> old(self).undo_stack@.len() > 0,
            ({
                let stk = old(self).undo_stack@;
                let gi = old(self).group_interval as int;
                stk.len() >= 2 && (stk.last().first_at as int) - (stk[stk.len() - 2].last_at as int)
                    > gi && stk.last().first_at >= stk[stk.len()
                    - 2].last_at ==> final(self).undo_stack@ == stk
            }),
            ({
                let stk = old(self).undo_stack@;
                let gi = old(self).group_interval as int;
                stk.len() >= 2 && stk.last().first_at >= stk[stk.len() - 2].last_at && (
                stk.last().first_at as int) - (stk[stk.len() - 2].last_at as int) <= gi
                    ==> final(self).undo_stack@.len() < stk.len()
                    && final(self).undo_stack@.last().buffer_transactions@.len()
                    >= stk.last().buffer_transactions@.len() + stk[stk.len()
                    - 2].buffer_transactions@.len()
            }),
    {
        loop
            invariant
                self.transaction_depth == old(self).transaction_depth,
                self.group_interval == old(self).group_interval,
                self.undo_stack@.len() <= old(self).undo_stack@.len(),
                self.undo_stack@.len() > 0 <==> old(self).undo_stack@.len() > 0,
                self.undo_stack@.len() == old(self).undo_stack@.len() ==> self.undo_stack@ == old(self).undo_stack@,
                ({
                    let stk = old(self).undo_stack@;
                    let gi = old(self).group_interval as int;
                    stk.len() >= 2 && (stk.last().first_at as int) - (stk[stk.len()
                        - 2].last_at as int) > gi && stk.last().first_at >= stk[stk.len()
                        - 2].last_at ==> self.undo_stack@ == stk
                }),
                ({
                    let stk = old(self).undo_stack@;
                    let gi = old(self).group_interval as int;
                    stk.len() >= 2 && stk.last().first_at >= stk[stk.len() - 2].last_at && (
                    stk.last().first_at as int) - (stk[stk.len() - 2].last_at as int) <= gi
                        ==> (self.undo_stack@ == stk || (self.undo_stack@.len() < stk.len()
                        && self.undo_stack@.len() > 0
                        && self.undo_stack@.last().buffer_transactions@.len()
                        >= stk.last().buffer_transactions@.len() + stk[stk.len()
                        - 2].buffer_transactions@.len()))
                }),
            ensures
                self.undo_stack@.len() < 2 || (self.undo_stack@.last().first_at
                    >= self.undo_stack@[self.undo_stack@.len() - 2].last_at && (
                self.undo_stack@.last().first_at as int) - (self.undo_stack@[self.undo_stack@.len()
                    - 2].last_at as int) > self.group_interval as int),
            decreases self.undo_stack@.len(),
        {
            let n = self.undo_stack.len();
            if n < 2 {
                break;
            }
            let top_first = self.undo_stack[n - 1].first_at;
            let prev_last = self.undo_stack[n - 2].last_at;
            let gap = if top_first >= prev_last {
                top_first - prev_last
            } else {
                0
            };
            if gap > self.group_interval {
                break;
            }
            let top = match self.undo_stack.pop() {
                Some(t) => t,
                None => {
                    break;
                },
            };
            let mut prev = match self.undo_stack.pop() {
                Some(t) => t,
                None => {
                    break;
                },
            };
            prev.last_at = top.last_at;
            let mut bt = prev.buffer_transactions;
            append_pairs(&mut bt, &top.buffer_transactions);
            prev.buffer_transactions = bt;
            self.undo_stack.push(prev);
        }
        let n = self.undo_stack.len();
        if n > 0 {
            Some(self.undo_stack[n - 1].id)
        } else {
            None
        }
    }

    /// Moves the newest entry to the redo stack, returning its id and
    /// buffer transactions.
    pub fn pop_undo(&mut self) -> (r: Option<(usize, Vec<(usize, usize)>)>)
        requires
            old(self).transaction_depth == 0,
        ensures
            r.is_some() <==> old(self).undo_stack@.len() > 0,
            final(self).transaction_depth == 0,
            r.is_some() ==> r.unwrap().0 == old(self).undo_stack@.last().id && r.unwrap().1@
                == old(self).undo_stack@.last().buffer_transactions@ && final(self).undo_stack@
                == old(self).undo_stack@.drop_last() && final(self).redo_stack@ == old(self).redo_stack@.push(old(self).undo_stack@.last()),
            r.is_none() ==> final(self).undo_stack@ == old(self).undo_stack@ && final(self).redo_stack@ == old(self).redo_stack@,
    {
        let top = match self.undo_stack.pop() {
            Some(t) => t,
            None => {
                return None;
            },
        };
        let pairs = clone_pairs(&top.buffer_transactions);
        let id = top.id;
        self.redo_stack.push(top);
        Some((id, pairs))
    }

    /// Moves the newest undone entry back to the undo stack, returning
    /// its id and buffer transactions.
    pub fn pop_redo(&mut self) -> (r: Option<(usize, Vec<(usize, usize)>)>)
        requires
            old(self).transaction_depth == 0,
        ensures
            r.is_some() <==> old(self).redo_stack@.len() > 0,
            final(self).transaction_depth == 0,
            r.is_some() ==> r.unwrap().0 == old(self).redo_stack@.last().id && r.unwrap().1@
                == old(self).redo_stack@.last().buffer_transactions@ && final(self).redo_stack@
                == old(self).redo_stack@.drop_last() && final(self).undo_stack@ == old(self).undo_stack@.push(old(self).redo_stack@.last()),
            r.is_none() ==> final(self).undo_stack@ == old(self).undo_stack@ && final(self).redo_stack@ == old(self).redo_stack@,
    {
        let top = match self.redo_stack.pop() {
            Some(t) => t,
            None => {
                return None;
            },
        };
        let pairs = clone_pairs(&top.buffer_transactions);
        let id = top.id;
        self.undo_stack.push(top);
        Some((id, pairs))
    }
}

/// The per-buffer records name exactly the buffers that some excerpt
/// draws from, with no duplicates.
pub open spec fn states_match(states: Seq<BufferState>, exs: Seq<Excerpt>) -> bool {
    &&& forall|s: int|
        0 <= s < states.len() ==> exists|j: int|
            0 <= j < exs.len() && (#[trigger] exs[j]).buffer_id == (#[trigger] states[s]).buffer_id
    &&& forall|j: int|
        0 <= j < exs.len() ==> exists|s: int|
            0 <= s < states.len() && (#[trigger] states[s]).buffer_id == (
            #[trigger] exs[j]).buffer_id
    &&& forall|s1: int, s2: int|
        0 <= s1 < s2 < states.len() ==> (#[trigger] states[s1]).buffer_id != (
        #[trigger] states[s2]).buffer_id
}

/// Requested excerpt: a buffer and an offset range within it.
pub struct ExcerptProperties {
    pub buffer_id: usize,
    pub start: usize,
    pub end: usize,
}

/// Per-buffer record: the generations last folded into the snapshot,
/// and the excerpts drawn from the buffer.
pub struct BufferState {
    pub buffer_id: usize,
    pub last_version: usize,
    pub last_parse_count: usize,
    pub last_selections_update_count: usize,
    pub last_diagnostics_update_count: usize,
    pub excerpts: Vec<Locator>,
}

/// A selection over the composite, in composite anchors.
pub struct Selection {
    pub id: usize,
    pub start: Anchor,
    pub end: Anchor,
    pub reversed: bool,
}

/// The mutable composition: snapshot, per-buffer records, history, and
/// subscription baselines.
pub struct MultiBuffer {
    pub snapshot: MultiBufferSnapshot,
    pub buffer_states: Vec<BufferState>,
    pub subscribers: Vec<Vec<u8>>,
    pub singleton: bool,
    pub replica_id: usize,
    pub history: History,
}

impl MultiBuffer {
    /// There is a record exactly for the buffers some excerpt draws
    /// from, with no duplicate records.
    pub open spec fn inv(self) -> bool {
        &&& self.snapshot.wf()
        &&& states_match(self.buffer_states@, self.snapshot.excerpts@)
    }

    /// Every excerpt reflects the current version and text of its
    /// buffer.
    pub open spec fn synced(self, store: BufferStore) -> bool {
        forall|j: int|
            0 <= j < self.snapshot.excerpts@.len() ==> {
                let e = #[trigger] self.snapshot.excerpts@[j];
                e.buffer_id < store.buffers@.len() && e.version == store.buffers@[e.buffer_id as int].log@.len()
            }
    }

    /// Every referenced buffer id is a valid index of the store.
    pub open spec fn ids_in_store(self, store: BufferStore) -> bool {
        forall|s: int|
            0 <= s < self.buffer_states@.len() ==> (#[trigger] self.buffer_states@[s]).buffer_id
                < store.buffers@.len()
    }

    pub fn new(replica_id: usize) -> (r: MultiBuffer)
        ensures
            r.inv(),
            r.snapshot.excerpts@.len() == 0,
            r.buffer_states@.len() == 0,
            r.history.transaction_depth == 0,
            !r.singleton,
            r.replica_id == replica_id,
    {
        MultiBuffer {
            snapshot: MultiBufferSnapshot::new_empty(),
            buffer_states: Vec::new(),
            subscribers: Vec::new(),
            singleton: false,
            replica_id,
            history: History::new(),
        }
    }

    pub fn replica_id(&self) -> (r: usize)
        ensures
            r == self.replica_id,
    {
        self.replica_id
    }

    /// The buffer id of the single excerpt, for singleton compositions.
    pub fn as_singleton(&self) -> (r: Option<usize>)
        requires
            self.inv(),
        ensures
            r.is_some() <==> self.singleton && self.snapshot.excerpts@.len() > 0,
            r.is_some() ==> r.unwrap() == self.snapshot.excerpts@[0].buffer_id,
    {
        if self.singleton && self.snapshot.excerpts.len() > 0 {
            Some(self.snapshot.excerpts[0].buffer_id)
        } else {
            None
        }
    }

    /// Opens a subscription; its first consume reports everything since
    /// this moment.
    #[verifier::rlimit(100)]
    pub fn subscribe(&mut self) -> (r: usize)
        requires
            old(self).snapshot.wf(),
        ensures
            final(self).snapshot == old(self).snapshot,
            final(self).buffer_states@ == old(self).buffer_states@,
            final(self).history == old(self).history,
            r == old(self).subscribers@.len(),
            final(self).subscribers@.len() == old(self).subscribers@.len() + 1,
            final(self).subscribers@[r as int]@ == old(self).snapshot.text_spec(),
    {
        let base = self.snapshot.text();
        let id = self.subscribers.len();
        self.subscribers.push(base);
        id
    }

    /// The deltas published since the subscription's last consume.
    /// Replaying them onto the text at that point reconstructs the
    /// current text.
    #[verifier::rlimit(100)]
    pub fn consume(&mut self, sub: usize) -> (r: Vec<Edit>)
        requires
            old(self).snapshot.wf(),
            sub < old(self).subscribers@.len(),
        ensures
            final(self).snapshot == old(self).snapshot,
            final(self).buffer_states@ == old(self).buffer_states@,
            final(self).history == old(self).history,
            crate::patch::replay(
                old(self).subscribers@[sub as int]@,
                r@,
                old(self).snapshot.text_spec(),
            ) == old(self).snapshot.text_spec(),
            old(self).subscribers@[sub as int]@ == old(self).snapshot.text_spec() ==> r@.len()
                == 0,
            final(self).subscribers@[sub as int]@ == old(self).snapshot.text_spec(),
    {
        let cur = self.snapshot.text();
        let base = self.subscribers.remove(sub);
        let edits = crate::patch::diff_texts(&base, &cur);
        self.subscribers.insert(sub, cur);
        proof {
            assert(self.subscribers@ =~= old(self).subscribers@.update(
                sub as int,
                self.subscribers@[sub as int],
            ));
        }
        edits
    }
}

/// Every excerpt's buffer id is a valid index of the store.
pub open spec fn excerpts_in_store(exs: Seq<Excerpt>, store: BufferStore) -> bool {
    forall|j: int| 0 <= j < exs.len() ==> (#[trigger] exs[j]).buffer_id < store.buffers@.len()
}

/// Every record's buffer id is a valid index of the store.
pub open spec fn states_in_store(states: Seq<BufferState>, store: BufferStore) -> bool {
    forall|s: int|
        0 <= s < states.len() ==> (#[trigger] states[s]).buffer_id < store.buffers@.len()
}

/// Builds an excerpt for a buffer at its current version: the anchors
/// are carried to that version and clamped into the text, and the
/// buffer's text and steps are copied in.
#[verifier::rlimit(100)]
fn build_excerpt(
    id: Locator,
    buffer_id: usize,
    b: &Buffer,
    sa: BufAnchor,
    ea: BufAnchor,
    trailing: bool,
) -> (r: Excerpt)
    requires
        b.inv(),
        sa.version <= b.log@.len(),
        ea.version <= b.log@.len(),
        sa.offset <= MAX_LEN,
        ea.offset <= MAX_LEN,
        sa.bias == Bias::Left,
        ea.bias == Bias::Right,
        id.wf(),
        lex_lt(seq![0u64], id@),
        lex_lt(id@, seq![u64::MAX]),
    ensures
        r.wf(),
        r.id@ == id@,
        r.buffer_id == buffer_id,
        r.version == b.log@.len(),
        r.has_trailing_newline == trailing,
        r.buf_text@ == b.text@,
        r.buf_base_len == b.base_len,
        r.start_anchor == sa,
        r.end_anchor == ea,
{
    proof {
        if b.log@.len() > 0 {
            assert(b.log@[b.log@.len() - 1].new_len as int == crate::buffer::len_at(
                b.base_len as int,
                b.log@,
                b.log@.len() as int,
            ));
        }
    }
    let steps = clone_steps(&b.steps);
    let text = b.text_clone();
    let tl = text.len();
    let rs = resolve_pos(&steps, sa.version, b.log.len(), sa.offset, sa.bias);
    let ns = if rs > tl {
        tl
    } else {
        rs
    };
    let re = resolve_pos(&steps, ea.version, b.log.len(), ea.offset, ea.bias);
    let re2 = if re > tl {
        tl
    } else {
        re
    };
    let ne = if re2 < ns {
        ns
    } else {
        re2
    };
    let p = offset_to_point_in(&text, ns);
    proof {
        count_nl_bound_at(text@, ns as int);
        reveal(Excerpt::range_tie);
    }
    Excerpt {
        id,
        buffer_id,
        version: b.log.len(),
        steps,
        buf_text: text,
        buf_base_len: b.base_len,
        start_anchor: sa,
        end_anchor: ea,
        buf_start: ns,
        buf_end: ne,
        start_row: p.row,
        has_trailing_newline: trailing,
    }
}

proof fn count_nl_bound_at(t: Seq<u8>, o: int)
    requires
        0 <= o,
    ensures
        count_nl(t, o) <= o,
{
    crate::coords::lemma_count_nl_bound(t, o);
}

/// Checks the list-level invariants of an excerpt list: ids strictly
/// increase, exactly the non-last entries carry a trailing newline, and
/// the total length fits the size bound.
#[verifier::rlimit(100)]
fn validate_excerpts(exs: &Vec<Excerpt>) -> (r: bool)
    requires
        forall|j: int| 0 <= j < exs@.len() ==> (#[trigger] exs@[j]).wf(),
    ensures
        exs@.len() == 0 ==> r,
        r ==> forall|i: int|
            0 <= i && i + 1 < exs@.len() ==> lex_lt((#[trigger] exs@[i]).id@, exs@[i + 1].id@),
        r ==> forall|i: int|
            0 <= i < exs@.len() ==> ((#[trigger] exs@[i]).has_trailing_newline <==> i + 1
                < exs@.len()),
        r ==> prefix_len(exs@, exs@.len() as int) <= MAX_LEN,
{
    let n = exs.len();
    let mut i: usize = 0;
    let mut total: usize = 0;
    while i < n
        invariant
            i <= n,
            n == exs@.len(),
            forall|j: int| 0 <= j < exs@.len() ==> (#[trigger] exs@[j]).wf(),
            total as int == prefix_len(exs@, i as int),
            total <= MAX_LEN,
            forall|q: int|
                0 <= q < i && q + 1 < n ==> lex_lt((#[trigger] exs@[q]).id@, exs@[q + 1].id@),
            forall|q: int|
                0 <= q < i ==> ((#[trigger] exs@[q]).has_trailing_newline <==> q + 1 < n),
        decreases n - i,
    {
        let e = &exs[i];
        if i + 1 < n {
            if !e.id.lt(&exs[i + 1].id) {
                return false;
            }
            if !e.has_trailing_newline {
                return false;
            }
        } else {
            if e.has_trailing_newline {
                return false;
            }
        }
        let mut flen = e.buf_end - e.buf_start;
        if e.has_trailing_newline {
            if flen > MAX_LEN {
                return false;
            }
            flen = flen + 1;
        }
        if flen > MAX_LEN - total {
            return false;
        }
        proof {
            assert(flen as int == exs@[i as int].full_len());
        }
        total = total + flen;
        i += 1;
    }
    true
}

impl MultiBuffer {
    /// Installs a rebuilt excerpt list, shedding entries from the end
    /// in the never-expected case that the list fails validation.
    #[verifier::rlimit(100)]
    fn install_excerpts(&mut self, exs: Vec<Excerpt>)
        requires
            forall|j: int| 0 <= j < exs@.len() ==> (#[trigger] exs@[j]).wf(),
        ensures
            final(self).snapshot.wf(),
            final(self).buffer_states@ == old(self).buffer_states@,
            final(self).history == old(self).history,
            final(self).subscribers@ == old(self).subscribers@,
            final(self).snapshot.parse_count == old(self).snapshot.parse_count,
            final(self).snapshot.diagnostics_update_count == old(self).snapshot.diagnostics_update_count,
            final(self).snapshot.is_dirty == old(self).snapshot.is_dirty,
            final(self).snapshot.has_conflict == old(self).snapshot.has_conflict,
            final(self).snapshot.singleton == old(self).snapshot.singleton,
    {
        let mut exs = exs;
        loop
            invariant
                forall|j: int| 0 <= j < exs@.len() ==> (#[trigger] exs@[j]).wf(),
            ensures
                forall|j: int| 0 <= j < exs@.len() ==> (#[trigger] exs@[j]).wf(),
                forall|i: int|
                    0 <= i && i + 1 < exs@.len() ==> lex_lt(
                        (#[trigger] exs@[i]).id@,
                        exs@[i + 1].id@,
                    ),
                forall|i: int|
                    0 <= i < exs@.len() ==> ((#[trigger] exs@[i]).has_trailing_newline <==> i + 1
                        < exs@.len()),
                prefix_len(exs@, exs@.len() as int) <= MAX_LEN,
            decreases exs@.len(),
        {
            if validate_excerpts(&exs) {
                break;
            }
            let _ = exs.pop();
            let n = exs.len();
            if n > 0 {
                let last = match exs.pop() {
                    Some(e) => e,
                    None => {
                        continue;
                    },
                };
                let ghost pre_flip = last;
                let last2 = Excerpt { has_trailing_newline: false, ..last };
                proof {
                    reveal(Excerpt::range_tie);
                    assert(last2.wf()) by {
                        assert(pre_flip.wf());
                        assert(last2.range_tie() == pre_flip.range_tie());
                    }
                }
                exs.push(last2);
            }
        }
        self.snapshot.excerpts = exs;
    }
}

/// The list-level invariants `validate_excerpts` checks, as one
/// predicate.
pub open spec fn validate_spec(exs: Seq<Excerpt>) -> bool {
    &&& forall|i: int|
        0 <= i && i + 1 < exs.len() ==> lex_lt((#[trigger] exs[i]).id@, exs[i + 1].id@)
    &&& forall|i: int|
        0 <= i < exs.len() ==> ((#[trigger] exs[i]).has_trailing_newline <==> i + 1 < exs.len())
    &&& prefix_len(exs, exs.len() as int) <= MAX_LEN
}


} // verus!
