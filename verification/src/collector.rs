//! The frame collector: frames come in one by one, in any order and
//! interleaved between sequences; whole messages come out.
//!
//! Each sequence id has a buffer of the frames that arrived so far. Every
//! frame taken from the queue is joined into the buffer of its sequence;
//! when that buffer holds the complete sequence, the message is handed in
//! to the completed queue and the buffer goes away.

use vstd::prelude::*;
use crate::assoc::{assoc_map, keys_unique, lemma_assoc_dom, lemma_assoc_index, lemma_assoc_push, lemma_assoc_remove};
use crate::frame::{
    Frame, Message, MessageView, join_frames, joined_view, lemma_all_frames_complete,
    lemma_missing_frame_incomplete, lemma_sort_by_num, lemma_sort_sorted, sequence_complete, sort_by_num,
    well_sequenced,
};
use crate::identity::Identity;
use std::collections::VecDeque;

verus! {

/// Frame collector state.
pub struct Collector {
    frags: VecDeque<Frame>,
    buffers: Vec<(Identity, Vec<Frame>)>,
    done: VecDeque<Message>,
}

/// The collector as plain values: the frames still queued, the buffer of
/// every sequence in progress, and the completed messages in order.
pub ghost struct CollectorView {
    pub queue: Seq<Frame>,
    pub buffers: Map<Identity, Seq<Frame>>,
    pub done: Seq<MessageView>,
}

pub open spec fn buffer_pairs(s: Seq<(Identity, Vec<Frame>)>) -> Seq<(Identity, Seq<Frame>)> {
    s.map_values(|p: (Identity, Vec<Frame>)| (p.0, p.1@))
}

pub open spec fn message_views(s: Seq<Message>) -> Seq<MessageView> {
    s.map_values(|m: Message| m@)
}

impl View for Collector {
    type V = CollectorView;

    closed spec fn view(&self) -> CollectorView {
        CollectorView {
            queue: self.frags@,
            buffers: assoc_map(buffer_pairs(self.buffers@)),
            done: message_views(self.done@),
        }
    }
}

/// One round of the collection loop: the first queued frame joins the
/// buffer of its sequence; a complete buffer becomes a completed message.
pub open spec fn step_spec(v: CollectorView) -> CollectorView {
    if v.queue.len() == 0 {
        v
    } else {
        let f = v.queue[0];
        let id = f.seq.seqid;
        let b = if v.buffers.contains_key(id) { v.buffers[id] } else { Seq::empty() };
        let nb = sort_by_num(b.push(f));
        if sequence_complete(nb) {
            CollectorView {
                queue: v.queue.drop_first(),
                buffers: v.buffers.remove(id),
                done: v.done.push(joined_view(nb)),
            }
        } else {
            CollectorView { queue: v.queue.drop_first(), buffers: v.buffers.insert(id, nb), done: v.done }
        }
    }
}

/// The state after `k` rounds.
pub open spec fn drain(v: CollectorView, k: nat) -> CollectorView
    decreases k,
{
    if k == 0 {
        v
    } else {
        step_spec(drain(v, (k - 1) as nat))
    }
}

/// Every frame of the queue that belongs to the sequence is joined, and the
/// first rounds, before the last frame of the sequence is taken, leave the
/// sequence buffered and incomplete.
proof fn lemma_drain_prefix(v: CollectorView, frames: Seq<Frame>, k: nat)
    requires
        well_sequenced(frames),
        v.queue.to_multiset() == frames.to_multiset(),
        !v.buffers.contains_key(frames[0].seq.seqid),
        0 < k < frames.len(),
    ensures
        drain(v, k) == (CollectorView {
            queue: v.queue.skip(k as int),
            buffers: v.buffers.insert(frames[0].seq.seqid, sort_by_num(v.queue.take(k as int))),
            done: v.done,
        }),
    decreases k,
{
    broadcast use vstd::seq_lib::group_to_multiset_ensures;
    let id = frames[0].seq.seqid;
    v.queue.to_multiset_ensures();
    frames.to_multiset_ensures();
    assert(v.queue.len() == frames.len());
    assert(drain(v, 0) == v);
    let prev = if k == 1 { v } else { drain(v, (k - 1) as nat) };
    if k > 1 {
        lemma_drain_prefix(v, frames, (k - 1) as nat);
    } else {
        assert(v.queue.skip(0) =~= v.queue);
    }
    assert(drain(v, k) == step_spec(prev));
    let f = v.queue[k - 1];
    assert(prev.queue[0] == f);
    // the frame belongs to the sequence
    assert(frames.to_multiset().count(f) > 0);
    assert(frames.contains(f));
    let t = v.queue.take(k as int);
    assert(v.queue.take(k - 1).push(f) =~= t);
    let b = if k == 1 { Seq::<Frame>::empty() } else { sort_by_num(v.queue.take(k - 1)) };
    if k > 1 {
        lemma_sort_by_num(v.queue.take(k - 1));
        lemma_sort_sorted(b);
    } else {
        assert(v.queue.take(0) =~= Seq::<Frame>::empty());
    }
    assert(sort_by_num(b.push(f)) == sort_by_num(t)) by {
        assert(b.push(f).drop_last() =~= b);
        assert(t.drop_last() =~= v.queue.take(k - 1));
    }
    // what arrived so far is a part of the sequence, and a smaller one
    assert(t.to_multiset().subset_of(frames.to_multiset())) by {
        assert(v.queue =~= t + v.queue.skip(k as int));
        vstd::seq_lib::lemma_multiset_commutative(t, v.queue.skip(k as int));
    }
    lemma_missing_frame_incomplete(frames, t);
    assert(prev.queue.drop_first() =~= v.queue.skip(k as int));
    assert(prev.buffers.insert(id, sort_by_num(t)) =~= v.buffers.insert(id, sort_by_num(t)));
}

/// Delivery: when the collector holds no buffer for a sequence and its
/// queue holds exactly the frames of that sequence, in any order, then
/// after as many rounds as there are frames the queue is empty, exactly
/// the reassembled message has been added to the completed messages, and
/// the sequence's buffer is gone.
pub proof fn lemma_collector_delivers(v: CollectorView, frames: Seq<Frame>)
    requires
        well_sequenced(frames),
        v.queue.to_multiset() == frames.to_multiset(),
        !v.buffers.contains_key(frames[0].seq.seqid),
    ensures
        drain(v, v.queue.len()).queue.len() == 0,
        drain(v, v.queue.len()).done == v.done.push(joined_view(frames)),
        drain(v, v.queue.len()).buffers == v.buffers,
{
    broadcast use vstd::seq_lib::group_to_multiset_ensures;
    let id = frames[0].seq.seqid;
    let n = frames.len();
    v.queue.to_multiset_ensures();
    frames.to_multiset_ensures();
    assert(v.queue.len() == n);
    assert(drain(v, 0) == v);
    let prev = if n == 1 { v } else { drain(v, (n - 1) as nat) };
    if n > 1 {
        lemma_drain_prefix(v, frames, (n - 1) as nat);
    }
    assert(drain(v, n as nat) == step_spec(prev));
    let f = v.queue[n - 1];
    assert(frames.to_multiset().count(f) > 0);
    assert(frames.contains(f));
    assert(v.queue.take(n as int) =~= v.queue);
    assert(v.queue.take(n - 1).push(f) =~= v.queue);
    let b = if n == 1 { Seq::<Frame>::empty() } else { sort_by_num(v.queue.take(n - 1)) };
    if n > 1 {
        lemma_sort_by_num(v.queue.take(n - 1));
        lemma_sort_sorted(b);
        assert(prev.queue =~= seq![f]);
    } else {
        assert(v.queue.take(0) =~= Seq::<Frame>::empty());
    }
    assert(sort_by_num(b.push(f)) == sort_by_num(v.queue)) by {
        assert(b.push(f).drop_last() =~= b);
        assert(v.queue.drop_last() =~= v.queue.take(n - 1));
    }
    lemma_all_frames_complete(frames, v.queue);
    assert(prev.buffers.remove(id) =~= v.buffers);
}

/// The frames that carry the given sequence id.
pub open spec fn has_seqid(id: Identity) -> spec_fn(Frame) -> bool {
    |f: Frame| f.seq.seqid == id
}

/// The sequence id of a sequence.
pub open spec fn seq_id(s: Seq<Frame>) -> Identity {
    s[0].seq.seqid
}

/// `q` is an interleaving of the sequences, in any order: each sequence
/// is well sequenced, no two share a sequence id, the frames of `q` with a
/// sequence's id are exactly that sequence's frames, and `q` holds no
/// other frames.
pub open spec fn interleaves(q: Seq<Frame>, seqs: Seq<Seq<Frame>>) -> bool {
    &&& forall|j: int| 0 <= j < seqs.len() ==> well_sequenced(#[trigger] seqs[j])
    &&& forall|j: int, l: int| 0 <= j < seqs.len() && 0 <= l < seqs.len() && j != l
        ==> seq_id(#[trigger] seqs[j]) != seq_id(#[trigger] seqs[l])
    &&& forall|j: int| 0 <= j < seqs.len()
        ==> q.filter(has_seqid(seq_id(#[trigger] seqs[j]))).to_multiset() == seqs[j].to_multiset()
    &&& forall|i: int| 0 <= i < q.len()
        ==> exists|j: int| 0 <= j < seqs.len() && (#[trigger] q[i]).seq.seqid == seq_id(#[trigger] seqs[j])
}

/// The frames of a sequence among the first `k` of the queue.
pub open spec fn arrived(q: Seq<Frame>, id: Identity, k: int) -> Seq<Frame> {
    q.take(k).filter(has_seqid(id))
}

/// The position of the sequence with the given id.
pub open spec fn seq_index(seqs: Seq<Seq<Frame>>, id: Identity) -> int {
    choose|j: int| 0 <= j < seqs.len() && seq_id(seqs[j]) == id
}

/// The positions of the sequences completed in the first `k` rounds, in
/// the order they were completed.
pub open spec fn completed_idx(q: Seq<Frame>, seqs: Seq<Seq<Frame>>, k: nat) -> Seq<int>
    decreases k,
{
    if k == 0 {
        Seq::empty()
    } else {
        let prev = completed_idx(q, seqs, (k - 1) as nat);
        let id = q[k - 1].seq.seqid;
        let j = seq_index(seqs, id);
        if arrived(q, id, k as int).len() == seqs[j].len() {
            prev.push(j)
        } else {
            prev
        }
    }
}

/// The messages of the sequences completed in the first `k` rounds.
pub open spec fn completed_views(q: Seq<Frame>, seqs: Seq<Seq<Frame>>, k: nat) -> Seq<MessageView> {
    completed_idx(q, seqs, k).map_values(|j: int| joined_view(seqs[j]))
}

proof fn lemma_filter_push(s: Seq<Frame>, x: Frame, p: spec_fn(Frame) -> bool)
    ensures
        s.push(x).filter(p) == (if p(x) { s.filter(p).push(x) } else { s.filter(p) }),
{
    reveal_with_fuel(Seq::<_>::filter, 1);
    assert(s.push(x).drop_last() =~= s);
}

proof fn lemma_filter_split(q: Seq<Frame>, p: spec_fn(Frame) -> bool, k: int)
    requires
        0 <= k <= q.len(),
    ensures
        q.filter(p) == q.take(k).filter(p) + q.skip(k).filter(p),
{
    assert(q =~= q.take(k) + q.skip(k));
    Seq::filter_distributes_over_add(q.take(k), q.skip(k), p);
}

proof fn lemma_filter_step(q: Seq<Frame>, p: spec_fn(Frame) -> bool, k: int)
    requires
        0 <= k < q.len(),
    ensures
        q.take(k + 1).filter(p) == (if p(q[k]) { q.take(k).filter(p).push(q[k]) } else { q.take(k).filter(p) }),
        p(q[k]) ==> q.skip(k).filter(p).len() >= 1,
{
    assert(q.take(k + 1) =~= q.take(k).push(q[k]));
    lemma_filter_push(q.take(k), q[k], p);
    assert(q.skip(k) =~= seq![q[k]] + q.skip(k + 1));
    Seq::filter_distributes_over_add(seq![q[k]], q.skip(k + 1), p);
    lemma_filter_push(Seq::<Frame>::empty(), q[k], p);
    assert(Seq::<Frame>::empty().push(q[k]) =~= seq![q[k]]);
    reveal_with_fuel(Seq::<_>::filter, 1);
}

/// The id is the sequence id of one of the sequences.
pub open spec fn is_seq_id(seqs: Seq<Seq<Frame>>, id: Identity) -> bool {
    exists|j: int| 0 <= j < seqs.len() && seq_id(seqs[j]) == id
}

/// What holds after `k` rounds on a queue of interleaved sequences.
pub open spec fn drain_inv(v: CollectorView, seqs: Seq<Seq<Frame>>, k: nat, s: CollectorView) -> bool {
    let q = v.queue;
    let ci = completed_idx(q, seqs, k);
    &&& s.queue == q.skip(k as int)
    &&& forall|id: Identity| !is_seq_id(seqs, id) ==> {
        &&& #[trigger] s.buffers.contains_key(id) == v.buffers.contains_key(id)
        &&& v.buffers.contains_key(id) ==> s.buffers[id] == v.buffers[id]
    }
    &&& forall|j: int| 0 <= j < seqs.len() ==> {
        let id = seq_id(#[trigger] seqs[j]);
        let a = arrived(q, id, k as int);
        &&& (0 < a.len() < seqs[j].len() ==> s.buffers.contains_key(id) && s.buffers[id] == sort_by_num(a))
        &&& (a.len() == 0 || a.len() == seqs[j].len() ==> !s.buffers.contains_key(id))
    }
    &&& s.done == v.done + completed_views(q, seqs, k)
    &&& forall|i: int| 0 <= i < ci.len() ==> 0 <= #[trigger] ci[i] < seqs.len()
        && arrived(q, seq_id(seqs[ci[i]]), k as int).len() == seqs[ci[i]].len()
    &&& forall|j: int| 0 <= j < seqs.len() && arrived(q, seq_id(#[trigger] seqs[j]), k as int).len() == seqs[j].len()
        ==> ci.contains(j)
    &&& ci.no_duplicates()
}

/// The frames of a sequence that arrived so far are part of it, and
/// together with those still queued make it whole.
proof fn lemma_arrived_part(q: Seq<Frame>, seqs: Seq<Seq<Frame>>, j: int, k: int)
    requires
        interleaves(q, seqs),
        0 <= j < seqs.len(),
        0 <= k <= q.len(),
    ensures
        arrived(q, seq_id(seqs[j]), k).to_multiset().subset_of(seqs[j].to_multiset()),
        arrived(q, seq_id(seqs[j]), k).len() + q.skip(k).filter(has_seqid(seq_id(seqs[j]))).len() == seqs[j].len(),
        q.skip(k).filter(has_seqid(seq_id(seqs[j]))).len() == 0 ==>
            arrived(q, seq_id(seqs[j]), k).to_multiset() == seqs[j].to_multiset(),
{
    broadcast use vstd::seq_lib::group_to_multiset_ensures;
    let p = has_seqid(seq_id(seqs[j]));
    let a = q.take(k).filter(p);
    let b = q.skip(k).filter(p);
    lemma_filter_split(q, p, k);
    vstd::seq_lib::lemma_multiset_commutative(a, b);
    assert(q.filter(p).to_multiset() == seqs[j].to_multiset());
    q.filter(p).to_multiset_ensures();
    seqs[j].to_multiset_ensures();
    if b.len() == 0 {
        assert(a + b =~= a);
    }
}

proof fn lemma_drain_inv_step(v: CollectorView, seqs: Seq<Seq<Frame>>, k: nat)
    requires
        interleaves(v.queue, seqs),
        forall|j: int| 0 <= j < seqs.len() ==> !v.buffers.contains_key(seq_id(#[trigger] seqs[j])),
        k < v.queue.len(),
        drain_inv(v, seqs, k, drain(v, k)),
    ensures
        drain_inv(v, seqs, k + 1, drain(v, k + 1)),
{
    let q = v.queue;
    let k1: int = k as int + 1;
    let s = drain(v, k);
    let t = drain(v, k + 1);
    assert(t == step_spec(s));
    let f = q[k as int];
    assert(s.queue[0] == f);
    let id = f.seq.seqid;
    assert(exists|j: int| 0 <= j < seqs.len() && q[k as int].seq.seqid == seq_id(seqs[j]));
    let j0 = seq_index(seqs, id);
    assert(0 <= j0 < seqs.len() && seq_id(seqs[j0]) == id);
    let p0 = has_seqid(id);
    let a = arrived(q, id, k as int);
    lemma_filter_step(q, p0, k as int);
    assert(arrived(q, id, k1) == a.push(f));
    lemma_arrived_part(q, seqs, j0, k as int);
    lemma_arrived_part(q, seqs, j0, k1);
    let n0 = seqs[j0].len();
    assert(a.len() < n0);
    // the buffer the round starts from is the sorted frames that arrived
    let b = if s.buffers.contains_key(id) { s.buffers[id] } else { Seq::<Frame>::empty() };
    if a.len() == 0 {
        assert(a =~= Seq::<Frame>::empty());
    }
    assert(b == sort_by_num(a));
    lemma_sort_by_num(a);
    lemma_sort_sorted(sort_by_num(a));
    let a1 = a.push(f);
    assert(sort_by_num(b.push(f)) == sort_by_num(a1)) by {
        assert(b.push(f).drop_last() =~= b);
        assert(a1.drop_last() =~= a);
    }
    let ci = completed_idx(q, seqs, k);
    let ci1 = completed_idx(q, seqs, k + 1);
    assert(q[k + 1 - 1] == f);
    if a1.len() == n0 {
        assert(a1.to_multiset() == seqs[j0].to_multiset());
        lemma_all_frames_complete(seqs[j0], a1);
        assert(ci1 == ci.push(j0));
        assert(!ci.contains(j0)) by {
            if ci.contains(j0) {
                let i = choose|i: int| 0 <= i < ci.len() && ci[i] == j0;
                assert(arrived(q, seq_id(seqs[ci[i]]), k as int).len() == seqs[ci[i]].len());
            }
        }
        assert(completed_views(q, seqs, k + 1) =~= completed_views(q, seqs, k).push(joined_view(seqs[j0])));
        assert(t.done =~= v.done + completed_views(q, seqs, k + 1));
    } else {
        lemma_missing_frame_incomplete(seqs[j0], a1);
        assert(ci1 == ci);
    }
    assert(t.queue =~= q.skip(k1));
    assert forall|x: Identity| !is_seq_id(seqs, x) implies {
        &&& #[trigger] t.buffers.contains_key(x) == v.buffers.contains_key(x)
        &&& v.buffers.contains_key(x) ==> t.buffers[x] == v.buffers[x]
    } by {
        assert(s.buffers.contains_key(x) == v.buffers.contains_key(x));
        if x == id {
            assert(is_seq_id(seqs, x));
        }
    }
    // the other sequences do not move
    assert forall|j: int| 0 <= j < seqs.len() && j != j0 implies arrived(q, seq_id(#[trigger] seqs[j]), k1)
        == arrived(q, seq_id(seqs[j]), k as int) by {
        lemma_filter_step(q, has_seqid(seq_id(seqs[j])), k as int);
    }
    assert forall|j: int| 0 <= j < seqs.len() implies {
        let idj = seq_id(#[trigger] seqs[j]);
        let aj = arrived(q, idj, k1);
        &&& (0 < aj.len() < seqs[j].len() ==> t.buffers.contains_key(idj) && t.buffers[idj] == sort_by_num(aj))
        &&& (aj.len() == 0 || aj.len() == seqs[j].len() ==> !t.buffers.contains_key(idj))
    } by {
        if j != j0 {
            assert(seq_id(seqs[j]) != id);
        }
    }
    assert forall|i: int| 0 <= i < ci1.len() implies 0 <= #[trigger] ci1[i] < seqs.len()
        && arrived(q, seq_id(seqs[ci1[i]]), k1).len() == seqs[ci1[i]].len() by {
        if i < ci.len() {
            assert(ci1[i] == ci[i]);
            let j = ci[i];
            if j != j0 {
                assert(arrived(q, seq_id(seqs[j]), k1) == arrived(q, seq_id(seqs[j]), k as int));
            } else {
                lemma_arrived_part(q, seqs, j0, k as int);
            }
        }
    }
    assert forall|j: int| 0 <= j < seqs.len() && arrived(q, seq_id(#[trigger] seqs[j]), k1).len() == seqs[j].len()
        implies ci1.contains(j) by {
        if j != j0 {
            assert(arrived(q, seq_id(seqs[j]), k1) == arrived(q, seq_id(seqs[j]), k as int));
            assert(ci.contains(j));
            let i = choose|i: int| 0 <= i < ci.len() && ci[i] == j;
            assert(ci1[i] == j);
        } else {
            assert(ci1[ci.len() as int] == j0);
        }
    }
}

proof fn lemma_drain_inv(v: CollectorView, seqs: Seq<Seq<Frame>>, k: nat)
    requires
        interleaves(v.queue, seqs),
        forall|j: int| 0 <= j < seqs.len() ==> !v.buffers.contains_key(seq_id(#[trigger] seqs[j])),
        k <= v.queue.len(),
    ensures
        drain_inv(v, seqs, k, drain(v, k)),
    decreases k,
{
    if k == 0 {
        let q = v.queue;
        assert(q.skip(0) =~= q);
        assert(completed_views(q, seqs, 0) =~= Seq::<MessageView>::empty());
        assert(v.done + completed_views(q, seqs, 0) =~= v.done);
        assert forall|j: int| 0 <= j < seqs.len() implies arrived(q, seq_id(#[trigger] seqs[j]), 0).len() == 0 by {
            reveal_with_fuel(Seq::<_>::filter, 1);
            assert(q.take(0) =~= Seq::<Frame>::empty());
        }
        assert forall|j: int| 0 <= j < seqs.len() implies arrived(q, seq_id(#[trigger] seqs[j]), 0).len() != seqs[j].len() by {
            assert(arrived(q, seq_id(seqs[j]), 0).len() == 0);
        }
    } else {
        lemma_drain_inv(v, seqs, (k - 1) as nat);
        lemma_drain_inv_step(v, seqs, (k - 1) as nat);
    }
}

/// Delivery of interleaved sequences: when the queue holds any interleaving
/// of several sequences with distinct sequence ids, none of them buffered,
/// then after as many rounds as there are queued frames the queue is
/// empty, the buffers are as before, and the messages added to the
/// completed ones are exactly one reassembled message per sequence, in
/// the order in which the sequences became complete.
pub proof fn lemma_collector_delivers_all(v: CollectorView, seqs: Seq<Seq<Frame>>)
    requires
        interleaves(v.queue, seqs),
        forall|j: int| 0 <= j < seqs.len() ==> !v.buffers.contains_key(seq_id(#[trigger] seqs[j])),
    ensures
        drain(v, v.queue.len()).queue.len() == 0,
        drain(v, v.queue.len()).buffers == v.buffers,
        drain(v, v.queue.len()).done == v.done + completed_views(v.queue, seqs, v.queue.len()),
        completed_views(v.queue, seqs, v.queue.len()).len() == seqs.len(),
        forall|i: int| 0 <= i < seqs.len() ==> exists|j: int| 0 <= j < seqs.len()
            && #[trigger] completed_views(v.queue, seqs, v.queue.len())[i] == joined_view(seqs[j]),
        forall|j: int| 0 <= j < seqs.len() ==> exists|i: int| 0 <= i < seqs.len()
            && completed_views(v.queue, seqs, v.queue.len())[i] == joined_view(#[trigger] seqs[j]),
        forall|j: int, i1: int, i2: int|
            #![trigger completed_views(v.queue, seqs, v.queue.len())[i1], completed_views(v.queue, seqs, v.queue.len())[i2], seqs[j]]
            0 <= j < seqs.len() && 0 <= i1 < seqs.len() && 0 <= i2 < seqs.len()
            && completed_views(v.queue, seqs, v.queue.len())[i1] == joined_view(seqs[j])
            && completed_views(v.queue, seqs, v.queue.len())[i2] == joined_view(seqs[j])
            ==> i1 == i2,
{
    let q = v.queue;
    let n = q.len();
    lemma_drain_inv(v, seqs, n);
    let s = drain(v, n);
    let ci = completed_idx(q, seqs, n);
    let cv = completed_views(q, seqs, n);
    let m = seqs.len();
    assert(q.skip(n as int) =~= Seq::<Frame>::empty());
    // every sequence arrived whole
    assert forall|j: int| 0 <= j < m implies arrived(q, seq_id(#[trigger] seqs[j]), n as int).len() == seqs[j].len() by {
        lemma_arrived_part(q, seqs, j, n as int);
        reveal_with_fuel(Seq::<_>::filter, 1);
    }
    assert forall|j: int| 0 <= j < m implies seqs[j].len() > 0 by {
        assert(well_sequenced(seqs[j]));
    }
    assert forall|x: Identity| #[trigger] s.buffers.contains_key(x) == v.buffers.contains_key(x)
        && (v.buffers.contains_key(x) ==> s.buffers[x] == v.buffers[x]) by {
        if exists|j: int| 0 <= j < m && seq_id(seqs[j]) == x {
            let j = choose|j: int| 0 <= j < m && seq_id(seqs[j]) == x;
            assert(arrived(q, seq_id(seqs[j]), n as int).len() == seqs[j].len());
        } else {
            assert(!is_seq_id(seqs, x));
            assert(s.buffers.contains_key(x) == v.buffers.contains_key(x));
        }
    }
    assert(s.buffers =~= v.buffers);
    // the completed positions are 0, 1, ..., m - 1, each once
    assert(ci.to_set() =~= vstd::set_lib::set_int_range(0, m as int)) by {
        assert forall|j: int| 0 <= j < m implies ci.contains(j) by {
            assert(arrived(q, seq_id(seqs[j]), n as int).len() == seqs[j].len());
        }
    }
    ci.unique_seq_to_set();
    vstd::set_lib::lemma_int_range(0, m as int);
    assert(cv.len() == m);
    assert forall|i: int| 0 <= i < m implies exists|j: int| 0 <= j < m && #[trigger] cv[i] == joined_view(seqs[j]) by {
        assert(cv[i] == joined_view(seqs[ci[i]]));
    }
    assert forall|j: int| 0 <= j < m implies exists|i: int| 0 <= i < m && cv[i] == joined_view(#[trigger] seqs[j]) by {
        assert(ci.contains(j));
        let i = choose|i: int| 0 <= i < ci.len() && ci[i] == j;
        assert(cv[i] == joined_view(seqs[j]));
    }
    assert forall|j: int, i1: int, i2: int| #![trigger cv[i1], cv[i2], seqs[j]] 0 <= j < m && 0 <= i1 < m && 0 <= i2 < m
        && cv[i1] == joined_view(seqs[j]) && cv[i2] == joined_view(seqs[j]) implies i1 == i2 by {
        assert(cv[i1] == joined_view(seqs[ci[i1]]));
        assert(cv[i2] == joined_view(seqs[ci[i2]]));
        assert(seq_id(seqs[ci[i1]]) == seq_id(seqs[j]));
        assert(seq_id(seqs[ci[i2]]) == seq_id(seqs[j]));
        assert(ci[i1] == j);
        assert(ci[i2] == j);
    }
}

/// The buffer of a sequence, empty when there is none.
pub open spec fn buffer_of(bufs: Map<Identity, Seq<Frame>>, id: Identity) -> Seq<Frame> {
    if bufs.contains_key(id) { bufs[id] } else { Seq::empty() }
}

/// Every buffered frame carries the sequence id of its buffer.
pub open spec fn buffers_own(bufs: Map<Identity, Seq<Frame>>) -> bool {
    forall|id: Identity, i: int| bufs.contains_key(id) && 0 <= i < bufs[id].len()
        ==> #[trigger] bufs[id][i].seq.seqid == id
}

/// The complete buffer that a round turns into a message, if it does.
pub open spec fn step_delivered(v: CollectorView) -> Option<Seq<Frame>> {
    if v.queue.len() == 0 {
        None
    } else {
        let f = v.queue[0];
        let nb = sort_by_num(buffer_of(v.buffers, f.seq.seqid).push(f));
        if sequence_complete(nb) { Some(nb) } else { None }
    }
}

/// The complete buffers delivered in the first `k` rounds, in order.
pub open spec fn drain_used(v: CollectorView, k: nat) -> Seq<Seq<Frame>>
    decreases k,
{
    if k == 0 {
        Seq::empty()
    } else {
        let u = drain_used(v, (k - 1) as nat);
        match step_delivered(drain(v, (k - 1) as nat)) {
            Some(s) => u.push(s),
            None => u,
        }
    }
}

/// The buffers that belong to a sequence id.
pub open spec fn of_seqid(id: Identity) -> spec_fn(Seq<Frame>) -> bool {
    |s: Seq<Frame>| s.len() > 0 && s[0].seq.seqid == id
}

/// The frames of a sequence id that went into delivered messages.
pub open spec fn used_frames(used: Seq<Seq<Frame>>, id: Identity) -> Seq<Frame> {
    used.filter(of_seqid(id)).flatten()
}

/// All frames carry the sequence id of the first.
pub open spec fn one_seqid(s: Seq<Frame>) -> bool {
    s.len() > 0 && forall|x: int| 0 <= x < s.len() ==> #[trigger] s[x].seq.seqid == s[0].seq.seqid
}

/// What holds of the state `d` after `k` rounds from `v`, where `used` are
/// the buffers delivered on the way.
pub open spec fn conserve_inv(v: CollectorView, k: nat, d: CollectorView, used: Seq<Seq<Frame>>) -> bool {
    &&& d.queue == v.queue.skip(k as int)
    &&& d.done == v.done + used.map_values(|s: Seq<Frame>| joined_view(s))
    &&& forall|i: int| 0 <= i < used.len() ==> sequence_complete(#[trigger] used[i]) && one_seqid(used[i])
    &&& buffers_own(d.buffers)
    &&& forall|id: Identity| (used_frames(used, id) + #[trigger] buffer_of(d.buffers, id)).to_multiset()
        == (buffer_of(v.buffers, id) + v.queue.take(k as int).filter(has_seqid(id))).to_multiset()
}

proof fn lemma_used_push(u: Seq<Seq<Frame>>, nb: Seq<Frame>, id: Identity, x: Identity)
    requires
        nb.len() > 0,
        nb[0].seq.seqid == id,
    ensures
        used_frames(u.push(nb), x) == (if x == id { used_frames(u, x) + nb } else { used_frames(u, x) }),
{
    reveal_with_fuel(Seq::<_>::filter, 1);
    assert(u.push(nb).drop_last() =~= u);
    if x == id {
        u.filter(of_seqid(x)).lemma_flatten_push(nb);
    }
}

proof fn lemma_conserve_step(v: CollectorView, k: nat)
    requires
        buffers_own(v.buffers),
        k < v.queue.len(),
        conserve_inv(v, k, drain(v, k), drain_used(v, k)),
    ensures
        conserve_inv(v, k + 1, drain(v, k + 1), drain_used(v, k + 1)),
{
    broadcast use vstd::seq_lib::group_to_multiset_ensures;
    broadcast use vstd::multiset::group_multiset_axioms;
    let q = v.queue;
    let s = drain(v, k);
    let t = drain(v, k + 1);
    let u = drain_used(v, k);
    let u1 = drain_used(v, k + 1);
    assert(t == step_spec(s));
    let f = q[k as int];
    assert(s.queue[0] == f);
    let id = f.seq.seqid;
    let b = buffer_of(s.buffers, id);
    let b1 = b.push(f);
    let nb = sort_by_num(b1);
    lemma_sort_by_num(b1);
    // every frame of the new buffer carries the id
    assert forall|x: int| 0 <= x < nb.len() implies #[trigger] nb[x].seq.seqid == id by {
        assert(nb.to_multiset().count(nb[x]) > 0);
        assert(b1.contains(nb[x]));
        let y = choose|y: int| 0 <= y < b1.len() && b1[y] == nb[x];
        if y < b.len() {
            assert(b1[y] == b[y]);
        }
    }
    assert(one_seqid(nb));
    assert(b1.to_multiset() =~= b.to_multiset().insert(f));
    assert(t.queue =~= q.skip(k as int + 1));
    let complete = sequence_complete(nb);
    if complete {
        assert(step_delivered(s) == Some(nb));
        assert(u1 == u.push(nb));
        assert(u1.map_values(|x: Seq<Frame>| joined_view(x)) =~= u.map_values(|x: Seq<Frame>| joined_view(x)).push(joined_view(nb)));
        assert(t.done =~= v.done + u1.map_values(|x: Seq<Frame>| joined_view(x)));
    } else {
        assert(step_delivered(s) is None);
        assert(u1 == u);
    }
    assert forall|i: int| 0 <= i < u1.len() implies sequence_complete(#[trigger] u1[i]) && one_seqid(u1[i]) by {
        if i < u.len() {
            assert(u1[i] == u[i]);
        }
    }
    assert forall|x: Identity, i: int| t.buffers.contains_key(x) && 0 <= i < t.buffers[x].len()
        implies #[trigger] t.buffers[x][i].seq.seqid == x by {
        if x != id {
            assert(t.buffers[x] == s.buffers[x]);
        }
    }
    assert forall|x: Identity| (used_frames(u1, x) + #[trigger] buffer_of(t.buffers, x)).to_multiset()
        == (buffer_of(v.buffers, x) + q.take(k as int + 1).filter(has_seqid(x))).to_multiset() by {
        lemma_filter_step(q, has_seqid(x), k as int);
        let a = q.take(k as int).filter(has_seqid(x));
        let b0 = buffer_of(v.buffers, x);
        let uf = used_frames(u, x);
        let bx = buffer_of(s.buffers, x);
        assert((uf + bx).to_multiset() == (b0 + a).to_multiset());
        vstd::seq_lib::lemma_multiset_commutative(uf, bx);
        vstd::seq_lib::lemma_multiset_commutative(b0, a);
        if complete {
            lemma_used_push(u, nb, id, x);
        }
        if x == id {
            vstd::seq_lib::lemma_multiset_commutative(b0, a.push(f));
            if complete {
                assert(buffer_of(t.buffers, x) =~= Seq::<Frame>::empty());
                assert(uf + nb + Seq::<Frame>::empty() =~= uf + nb);
                vstd::seq_lib::lemma_multiset_commutative(uf, nb);
            } else {
                assert(buffer_of(t.buffers, x) == nb);
                vstd::seq_lib::lemma_multiset_commutative(uf, nb);
            }
            assert((used_frames(u1, x) + buffer_of(t.buffers, x)).to_multiset()
                =~= (b0 + a.push(f)).to_multiset());
        } else {
            assert(buffer_of(t.buffers, x) == bx);
        }
    }
}

/// The state after `k` rounds, from any state whose buffers hold only
/// frames of their own sequence, with any queue: every message added to
/// the completed ones is the reassembly of a complete buffer whose frames
/// all carry the message's sequence id; and, for every sequence id, the
/// frames that went into delivered messages together with those still
/// buffered are exactly the frames that were buffered before together
/// with those taken from the queue. So no frame is lost or used twice, and
/// each complete set of frames gives at most one message.
pub proof fn lemma_drain_conserves(v: CollectorView, k: nat)
    requires
        buffers_own(v.buffers),
        k <= v.queue.len(),
    ensures
        conserve_inv(v, k, drain(v, k), drain_used(v, k)),
        forall|i: int| 0 <= i < drain_used(v, k).len() ==>
            joined_view(#[trigger] drain_used(v, k)[i]).id == drain_used(v, k)[i][0].seq.seqid,
    decreases k,
{
    if k == 0 {
        let q = v.queue;
        assert(q.skip(0) =~= q);
        assert(drain(v, 0) == v);
        let u = drain_used(v, 0);
        assert(u.map_values(|s: Seq<Frame>| joined_view(s)) =~= Seq::<MessageView>::empty());
        assert(v.done + u.map_values(|s: Seq<Frame>| joined_view(s)) =~= v.done);
        assert forall|id: Identity| (used_frames(u, id) + #[trigger] buffer_of(v.buffers, id)).to_multiset()
            == (buffer_of(v.buffers, id) + q.take(0).filter(has_seqid(id))).to_multiset() by {
            reveal_with_fuel(Seq::<_>::filter, 1);
            assert(q.take(0) =~= Seq::<Frame>::empty());
            assert(u.filter(of_seqid(id)) =~= Seq::<Seq<Frame>>::empty());
            assert(used_frames(u, id) =~= Seq::<Frame>::empty());
            assert(used_frames(u, id) + buffer_of(v.buffers, id) =~= buffer_of(v.buffers, id) + q.take(0).filter(has_seqid(id)));
        }
    } else {
        lemma_drain_conserves(v, (k - 1) as nat);
        lemma_conserve_step(v, (k - 1) as nat);
    }
}

fn find_buffer(v: &Vec<(Identity, Vec<Frame>)>, id: Identity) -> (r: Option<usize>)
    ensures
        match r {
            Some(i) => i < v@.len() && v@[i as int].0 == id,
            None => forall|i: int| 0 <= i < v@.len() ==> v@[i].0 != id,
        },
{
    let mut i: usize = 0;
    while i < v.len()
        invariant
            i <= v@.len(),
            forall|k: int| 0 <= k < i ==> v@[k].0 != id,
        decreases v@.len() - i,
    {
        if v[i].0 == id {
            return Some(i);
        }
        i = i + 1;
    }
    None
}

impl Collector {
    /// The buffers are kept one per sequence id.
    pub closed spec fn wf(&self) -> bool {
        keys_unique(buffer_pairs(self.buffers@))
    }

    /// A collector with nothing queued, buffered or completed.
    pub fn new() -> (r: Collector)
        ensures
            r.wf(),
            r@.queue.len() == 0,
            r@.buffers == Map::<Identity, Seq<Frame>>::empty(),
            r@.done.len() == 0,
    {
        let r = Collector { frags: VecDeque::new(), buffers: Vec::new(), done: VecDeque::new() };
        assert(buffer_pairs(r.buffers@) =~= Seq::empty());
        r
    }

    /// Enqueues a frame to be desequenced.
    pub fn queue(&mut self, f: Frame)
        requires
            old(self).wf(),
        ensures
            final(self).wf(),
            final(self)@.queue == old(self)@.queue.push(f),
            final(self)@.buffers == old(self)@.buffers,
            final(self)@.done == old(self)@.done,
    {
        self.frags.push_back(f);
    }

    /// The number of frames waiting in the queue.
    pub fn queued(&self) -> (r: usize)
        ensures
            r == self@.queue.len(),
    {
        self.frags.len()
    }

    /// The number of frames that still have to be processed before the
    /// collector is idle.
    pub fn in_progress(&self) -> (r: usize)
        ensures
            r == self@.queue.len(),
    {
        self.queued()
    }

    /// The number of frames waiting in the queue.
    pub fn num_queued(&self) -> (r: usize)
        ensures
            r == self@.queue.len(),
    {
        self.frags.len()
    }

    /// The number of completed messages waiting to be dispatched.
    pub fn num_completed(&self) -> (r: usize)
        ensures
            r == self@.done.len(),
    {
        self.done.len()
    }

    /// Whether completed messages are waiting to be dispatched.
    pub fn has_completed_messages(&self) -> (r: bool)
        ensures
            r == (self@.done.len() > 0),
    {
        self.done.len() > 0
    }

    /// Takes the oldest completed message, if there is one.
    pub fn completed(&mut self) -> (r: Option<Message>)
        requires
            old(self).wf(),
        ensures
            final(self).wf(),
            final(self)@.queue == old(self)@.queue,
            final(self)@.buffers == old(self)@.buffers,
            old(self)@.done.len() == 0 ==> r is None && final(self)@.done == old(self)@.done,
            old(self)@.done.len() > 0 ==> (r matches Some(m) && m@ == old(self)@.done[0]
                && final(self)@.done == old(self)@.done.drop_first()),
    {
        let r = self.done.pop_front();
        proof {
            if r is Some {
                assert(message_views(self.done@) =~= message_views(old(self).done@).drop_first());
            }
        }
        r
    }

    /// Runs one round of collection: takes the oldest queued frame, joins
    /// it into the buffer of its sequence, and hands in the message if the
    /// sequence is now complete. Returns whether a frame was processed.
    pub fn step(&mut self) -> (processed: bool)
        requires
            old(self).wf(),
        ensures
            final(self).wf(),
            processed == (old(self)@.queue.len() > 0),
            final(self)@ == step_spec(old(self)@),
    {
        let ghost v = self@;
        let ghost bp = buffer_pairs(self.buffers@);
        let f = match self.frags.pop_front() {
            Some(f) => f,
            None => return false,
        };
        assert(self.frags@ =~= v.queue.drop_first());
        let id = f.seq.seqid;
        let mut buf: Vec<Frame> = Vec::new();
        match find_buffer(&self.buffers, id) {
            Some(i) => {
                let (_, b) = self.buffers.remove(i);
                buf = b;
                proof {
                    assert(bp[i as int].0 == id);
                    lemma_assoc_index(bp, i as int);
                    lemma_assoc_remove(bp, i as int);
                    assert(buffer_pairs(self.buffers@) =~= bp.remove(i as int));
                }
            }
            None => {
                proof {
                    lemma_assoc_dom(bp, id);
                    assert(buf@ =~= Seq::<Frame>::empty());
                    assert(assoc_map(bp).remove(id) =~= assoc_map(bp));
                }
            }
        }
        let ghost rest = buffer_pairs(self.buffers@);
        assert(keys_unique(rest));
        assert(assoc_map(rest) == v.buffers.remove(id));
        assert forall|k: int| 0 <= k < rest.len() implies rest[k].0 != id by {
            lemma_assoc_index(rest, k);
        }
        match join_frames(&mut buf, f) {
            Some(m) => {
                self.done.push_back(m);
                assert(message_views(self.done@) =~= v.done.push(m@));
            }
            None => {
                self.buffers.push((id, buf));
                proof {
                    lemma_assoc_push(rest, id, buf@);
                    assert(buffer_pairs(self.buffers@) =~= rest.push((id, buf@)));
                    assert(v.buffers.remove(id).insert(id, buf@) =~= v.buffers.insert(id, buf@));
                }
            }
        }
        true
    }

    /// Processes queued frames until the queue is empty.
    pub fn finish_ingestion(&mut self)
        requires
            old(self).wf(),
        ensures
            final(self).wf(),
            final(self)@ == drain(old(self)@, old(self)@.queue.len()),
            final(self)@.queue.len() == 0,
    {
        let ghost v0 = self@;
        let n = self.frags.len();
        let mut k: usize = 0;
        while self.frags.len() > 0
            invariant
                self.wf(),
                k <= v0.queue.len(),
                v0.queue.len() == n,
                self@ == drain(v0, k as nat),
                self@.queue == v0.queue.skip(k as int),
            decreases self@.queue.len(),
        {
            assert(k < v0.queue.len());
            self.step();
            assert(v0.queue.skip(k as int).drop_first() =~= v0.queue.skip(k + 1));
            k = k + 1;
        }
    }
}

} // verus!
