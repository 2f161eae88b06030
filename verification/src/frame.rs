//! Frames, frame sequences and their reassembly into messages

use vstd::prelude::*;
use crate::identity::Identity;

verus! {

/// The address of a message: one user, or every reachable node.
#[derive(Clone, Copy, Debug, PartialEq, Eq, Structural)]
pub enum Recipient {
    User(Identity),
    Flood,
}

impl Recipient {
    /// The user a message is addressed to. Flooded messages have no single
    /// user; the incoming-message handler does not take them.
    pub fn user(self) -> (id: Identity)
        requires
            self is User,
        ensures
            self == Recipient::User(id),
    {
        match self {
            Recipient::User(id) => id,
            Recipient::Flood => Identity::from_u128(0),
        }
    }
}

/// Where a frame stands in its sequence.
#[derive(Clone, Copy, Debug, PartialEq, Eq, Structural)]
pub struct SeqData {
    /// Position of the frame in its sequence, counted from zero
    pub num: u32,
    /// The sequence the frame belongs to
    pub seqid: Identity,
    /// Position of the frame that follows, `None` on the last frame
    pub next: Option<u32>,
}

/// One slice of a message, as it travels through the network.
#[derive(Debug, PartialEq, Eq)]
pub struct Frame {
    pub seq: SeqData,
    pub sender: Identity,
    pub recipient: Recipient,
    pub payload: Vec<u8>,
}

/// A message reassembled from its frames.
#[derive(Debug, PartialEq, Eq)]
pub struct Message {
    pub id: Identity,
    pub sender: Identity,
    pub recipient: Recipient,
    pub payload: Vec<u8>,
    pub signature: Vec<u8>,
}

/// `f` goes after every frame of `s` whose number is not greater than its
/// own, and before the others (a stable insertion).
pub open spec fn insert_by_num(s: Seq<Frame>, f: Frame) -> Seq<Frame>
    decreases s.len(),
{
    if s.len() == 0 {
        seq![f]
    } else if s.last().seq.num <= f.seq.num {
        s.push(f)
    } else {
        insert_by_num(s.drop_last(), f).push(s.last())
    }
}

/// The stable sort of `s` by sequence number.
pub open spec fn sort_by_num(s: Seq<Frame>) -> Seq<Frame>
    decreases s.len(),
{
    if s.len() == 0 {
        s
    } else {
        insert_by_num(sort_by_num(s.drop_last()), s.last())
    }
}

/// The frames are ordered by sequence number.
pub open spec fn sorted_by_num(s: Seq<Frame>) -> bool {
    forall|i: int, j: int| 0 <= i <= j < s.len() ==> s[i].seq.num <= s[j].seq.num
}

/// The payloads of the frames, one after another.
pub open spec fn payloads(s: Seq<Frame>) -> Seq<u8>
    decreases s.len(),
{
    if s.len() == 0 {
        Seq::empty()
    } else {
        payloads(s.drop_last()) + s.last().payload@
    }
}

/// A (sorted) buffer holds a whole sequence: its last frame points to no
/// successor, and the frame at each position carries that position as its
/// number.
pub open spec fn sequence_complete(s: Seq<Frame>) -> bool {
    &&& s.len() > 0
    &&& s.last().seq.next is None
    &&& forall|i: int| 0 <= i < s.len() ==> #[trigger] s[i].seq.num == i as u32
}

/// A message as plain values.
pub ghost struct MessageView {
    pub id: Identity,
    pub sender: Identity,
    pub recipient: Recipient,
    pub payload: Seq<u8>,
    pub signature: Seq<u8>,
}

impl View for Message {
    type V = MessageView;

    open spec fn view(&self) -> MessageView {
        MessageView {
            id: self.id,
            sender: self.sender,
            recipient: self.recipient,
            payload: self.payload@,
            signature: self.signature@,
        }
    }
}

/// What reassembly yields from a complete buffer: the sequence id, sender
/// and recipient of its first frame, all payloads in order, and an empty
/// signature.
pub open spec fn joined_view(s: Seq<Frame>) -> MessageView {
    MessageView {
        id: s[0].seq.seqid,
        sender: s[0].sender,
        recipient: s[0].recipient,
        payload: payloads(s),
        signature: Seq::empty(),
    }
}

/// Inserting by number equals splitting at the first position, counted from
/// the back, whose predecessor does not have a greater number.
proof fn lemma_insert_by_num_at(s: Seq<Frame>, f: Frame, j: int)
    requires
        0 <= j <= s.len(),
        j == 0 || s[j - 1].seq.num <= f.seq.num,
        forall|k: int| j <= k < s.len() ==> #[trigger] s[k].seq.num > f.seq.num,
    ensures
        insert_by_num(s, f) == s.take(j).push(f) + s.skip(j),
    decreases s.len(),
{
    if s.len() == 0 {
        assert(s.take(j).push(f) + s.skip(j) =~= seq![f]);
    } else if j == s.len() {
        assert(s.take(j) =~= s);
        assert(s.take(j).push(f) + s.skip(j) =~= s.push(f));
    } else {
        let d = s.drop_last();
        assert(s.last().seq.num > f.seq.num);
        lemma_insert_by_num_at(d, f, j);
        assert(d.take(j) =~= s.take(j));
        assert((d.take(j).push(f) + d.skip(j)).push(s.last()) =~= s.take(j).push(f) + s.skip(j));
    }
}

/// Sorts `v` by sequence number, stably, in place (insertion sort).
fn sort_frames(v: &mut Vec<Frame>)
    ensures
        final(v)@ == sort_by_num(old(v)@),
{
    let ghost orig = v@;
    let n = v.len();
    let mut i: usize = 0;
    while i < n
        invariant
            n == orig.len(),
            v@.len() == n,
            i <= n,
            v@.take(i as int) == sort_by_num(orig.take(i as int)),
            v@.skip(i as int) == orig.skip(i as int),
        decreases n - i,
    {
        let ghost pre = v@;
        let ghost prefix = pre.take(i as int);
        assert(pre.skip(i as int)[0] == orig[i as int]);
        let key_num = v[i].seq.num;
        let mut j: usize = i;
        while j > 0 && v[j - 1].seq.num > key_num
            invariant
                j <= i < n,
                n == orig.len(),
                pre.len() == n,
                v@ == pre,
                key_num == orig[i as int].seq.num,
                prefix == pre.take(i as int),
                forall|k: int| j <= k < i ==> #[trigger] prefix[k].seq.num > key_num,
            decreases j,
        {
            j = j - 1;
        }
        let x = v.remove(i);
        v.insert(j, x);
        proof {
            assert(x == orig[i as int]);
            lemma_insert_by_num_at(prefix, x, j as int);
            let t = orig.take(i as int + 1);
            assert(t.drop_last() =~= orig.take(i as int));
            assert(t.last() == x);
            assert(v@.take(i as int + 1) =~= prefix.take(j as int).push(x) + prefix.skip(j as int));
            let mid = pre.remove(i as int);
            assert(v@ == mid.insert(j as int, x));
            assert(v@.len() == n);
            assert forall|k: int| 0 <= k < n - i - 1 implies #[trigger] v@.skip(i as int + 1)[k] == orig.skip(i as int + 1)[k] by {
                assert(pre.skip(i as int)[k + 1] == orig.skip(i as int)[k + 1]);
                assert(mid[i + k] == pre[i + 1 + k]);
                assert(v@[i + 1 + k] == mid[i + k]);
            }
            assert(v@.skip(i as int + 1) =~= orig.skip(i as int + 1));
        }
        i = i + 1;
    }
    assert(v@ =~= v@.take(n as int));
    assert(orig.take(n as int) =~= orig);
}

/// The payloads of `buf`, concatenated in order.
fn concat_payloads(buf: &Vec<Frame>) -> (r: Vec<u8>)
    ensures
        r@ == payloads(buf@),
{
    let mut out: Vec<u8> = Vec::new();
    let mut i: usize = 0;
    while i < buf.len()
        invariant
            i <= buf@.len(),
            out@ == payloads(buf@.take(i as int)),
        decreases buf@.len() - i,
    {
        let p = &buf[i].payload;
        let mut k: usize = 0;
        let ghost before = out@;
        while k < p.len()
            invariant
                k <= p@.len(),
                out@ == before + p@.take(k as int),
            decreases p@.len() - k,
        {
            out.push(p[k]);
            k = k + 1;
            assert(before + p@.take(k as int) =~= (before + p@.take(k - 1)).push(p@[k - 1]));
        }
        proof {
            let t = buf@.take(i as int + 1);
            assert(t.drop_last() =~= buf@.take(i as int));
            assert(p@.take(k as int) =~= p@);
        }
        i = i + 1;
    }
    assert(buf@.take(i as int) =~= buf@);
    out
}

/// Adds `new` to the buffer of a sequence, sorts the buffer by sequence
/// number, and gives back the whole message once the buffer holds a
/// complete sequence.
pub fn join_frames(buf: &mut Vec<Frame>, new: Frame) -> (r: Option<Message>)
    ensures
        final(buf)@ == sort_by_num(old(buf)@.push(new)),
        r is Some <==> sequence_complete(final(buf)@),
        r matches Some(m) ==> m@ == joined_view(final(buf)@),
{
    buf.push(new);
    sort_frames(buf);
    proof {
        let s = old(buf)@.push(new);
        assert(s.drop_last() =~= old(buf)@);
        lemma_insert_len(sort_by_num(old(buf)@), new);
    }
    let last = buf.len() - 1;
    if buf[last].seq.next.is_some() {
        return None;
    }
    let mut ok = true;
    let mut i: usize = 0;
    while i < buf.len()
        invariant
            i <= buf@.len(),
            ok <==> forall|k: int| 0 <= k < i ==> #[trigger] buf@[k].seq.num == k as u32,
        decreases buf@.len() - i,
    {
        #[verifier::truncate]
        let expected = i as u32;
        ok = ok && buf[i].seq.num == expected;
        i = i + 1;
    }
    if ok {
        let id = buf[0].seq.seqid;
        let sender = buf[0].sender;
        let recipient = buf[0].recipient;
        let payload = concat_payloads(buf);
        Some(Message { id, sender, recipient, payload, signature: Vec::new() })
    } else {
        None
    }
}

/// Inserting one frame makes the sequence one longer.
proof fn lemma_insert_len(s: Seq<Frame>, f: Frame)
    ensures
        insert_by_num(s, f).len() == s.len() + 1,
    decreases s.len(),
{
    if s.len() > 0 && s.last().seq.num > f.seq.num {
        lemma_insert_len(s.drop_last(), f);
    }
}

/// Inserting into a sorted buffer keeps it sorted, and adds exactly the
/// inserted frame.
proof fn lemma_insert_sorted(s: Seq<Frame>, f: Frame)
    requires
        sorted_by_num(s),
    ensures
        sorted_by_num(insert_by_num(s, f)),
        insert_by_num(s, f).to_multiset() == s.to_multiset().insert(f),
        insert_by_num(s, f).len() == s.len() + 1,
    decreases s.len(),
{
    broadcast use vstd::seq_lib::group_to_multiset_ensures;
    lemma_insert_len(s, f);
    if s.len() == 0 {
        assert(seq![f] =~= s.push(f));
    } else if s.last().seq.num <= f.seq.num {
    } else {
        let d = s.drop_last();
        let l = s.last();
        assert(d.push(l) =~= s);
        lemma_insert_sorted(d, f);
        let r = insert_by_num(d, f);
        assert forall|i: int| 0 <= i < r.len() implies #[trigger] r[i].seq.num <= l.seq.num by {
            assert(r.to_multiset().count(r[i]) > 0);
            assert(d.push(f).to_multiset() == d.to_multiset().insert(f));
            if r[i] != f {
                assert(d.to_multiset().count(r[i]) > 0);
                assert(d.contains(r[i]));
            }
        }
    }
}

/// The stable sort yields a buffer ordered by sequence number that holds
/// exactly the frames it was given.
pub proof fn lemma_sort_by_num(s: Seq<Frame>)
    ensures
        sorted_by_num(sort_by_num(s)),
        sort_by_num(s).to_multiset() == s.to_multiset(),
        sort_by_num(s).len() == s.len(),
    decreases s.len(),
{
    broadcast use vstd::seq_lib::group_to_multiset_ensures;
    if s.len() > 0 {
        let d = s.drop_last();
        lemma_sort_by_num(d);
        lemma_insert_sorted(sort_by_num(d), s.last());
        assert(d.push(s.last()) =~= s);
    }
}

/// Sorting a buffer that is already ordered by number changes nothing.
pub proof fn lemma_sort_sorted(s: Seq<Frame>)
    requires
        sorted_by_num(s),
    ensures
        sort_by_num(s) == s,
    decreases s.len(),
{
    if s.len() > 0 {
        let d = s.drop_last();
        lemma_sort_sorted(d);
        assert(d.push(s.last()) =~= s);
    }
}

/// `frames` is a whole sequence: frame `i` carries the number `i`, every
/// frame but the last points to a successor (whatever value it names),
/// the last points to none, and all carry the same sequence id.
pub open spec fn well_sequenced(frames: Seq<Frame>) -> bool {
    &&& frames.len() > 0
    &&& frames.len() <= u32::MAX
    &&& forall|i: int| #![trigger frames[i]] 0 <= i < frames.len() ==> {
        &&& frames[i].seq.num == i
        &&& (frames[i].seq.next is Some <==> i + 1 < frames.len())
        &&& frames[i].seq.seqid == frames[0].seq.seqid
    }
}

/// Reassembly: once every frame of a sequence has arrived, in whatever
/// order, the sorted buffer is the sequence itself and it is complete.
pub proof fn lemma_all_frames_complete(frames: Seq<Frame>, arrived: Seq<Frame>)
    requires
        well_sequenced(frames),
        arrived.to_multiset() == frames.to_multiset(),
    ensures
        sort_by_num(arrived) == frames,
        sequence_complete(sort_by_num(arrived)),
{
    broadcast use vstd::seq_lib::group_to_multiset_ensures;
    let s = sort_by_num(arrived);
    let n = frames.len();
    lemma_sort_by_num(arrived);
    assert(s.to_multiset() == frames.to_multiset());
    assert(s.len() == n) by {
        assert(s.to_multiset().len() == frames.to_multiset().len());
    }
    // every frame that arrived is the frame of the sequence with its number
    assert forall|k: int| 0 <= k < n implies s[k].seq.num < n && #[trigger] s[k] == frames[s[k].seq.num as int] by {
        assert(s.to_multiset().count(s[k]) > 0);
        assert(frames.contains(s[k]));
        let idx = choose|idx: int| 0 <= idx < n && frames[idx] == s[k];
        assert(frames[idx].seq.num == idx);
    }
    // no frame arrived twice
    assert(frames.no_duplicates()) by {
        assert forall|a: int, b: int| 0 <= a < n && 0 <= b < n && a != b implies frames[a] != frames[b] by {
            assert(frames[a].seq.num == a);
            assert(frames[b].seq.num == b);
        }
    }
    frames.lemma_multiset_has_no_duplicates();
    s.lemma_multiset_has_no_duplicates_conv();
    // so the numbers rise strictly
    assert forall|a: int, b: int| 0 <= a < b < n implies s[a].seq.num < s[b].seq.num by {
        if s[a].seq.num == s[b].seq.num {
            assert(s[a] == frames[s[a].seq.num as int]);
            assert(s[b] == frames[s[b].seq.num as int]);
        }
    }
    // and n strictly rising numbers below n are 0, 1, ..., n - 1
    assert forall|k: int| 0 <= k < n implies #[trigger] s[k].seq.num >= k by {
        lemma_rising_from(s, k);
    }
    assert forall|k: int| 0 <= k < n implies #[trigger] s[k].seq.num <= k by {
        assert(s[n - 1].seq.num < n);
        lemma_rising_to(s, k, n as int);
    }
    assert forall|k: int| 0 <= k < n implies #[trigger] s[k] == frames[k] by {
        assert(s[k].seq.num == k);
    }
    assert(s =~= frames);
}

proof fn lemma_rising_from(s: Seq<Frame>, k: int)
    requires
        0 <= k < s.len(),
        forall|a: int, b: int| 0 <= a < b < s.len() ==> s[a].seq.num < s[b].seq.num,
    ensures
        s[k].seq.num >= k,
    decreases k,
{
    if k > 0 {
        lemma_rising_from(s, k - 1);
    }
}

proof fn lemma_rising_to(s: Seq<Frame>, k: int, n: int)
    requires
        0 <= k < s.len(),
        n == s.len(),
        s[n - 1].seq.num < n,
        forall|a: int, b: int| 0 <= a < b < s.len() ==> s[a].seq.num < s[b].seq.num,
    ensures
        s[k].seq.num <= k,
    decreases n - k,
{
    if k < n - 1 {
        lemma_rising_to(s, k + 1, n);
    }
}

/// The payloads of frames that carry the given chunks, in order, are the
/// chunks joined together.
pub proof fn lemma_payloads_flatten(frames: Seq<Frame>, chunks: Seq<Seq<u8>>)
    requires
        frames.len() == chunks.len(),
        forall|i: int| 0 <= i < frames.len() ==> #[trigger] frames[i].payload@ == chunks[i],
    ensures
        payloads(frames) == chunks.flatten(),
    decreases frames.len(),
{
    chunks.lemma_flatten_and_flatten_alt_are_equivalent();
    if frames.len() > 0 {
        let d = frames.drop_last();
        let c = chunks.drop_last();
        assert forall|i: int| 0 <= i < d.len() implies #[trigger] d[i].payload@ == c[i] by {
            assert(frames[i].payload@ == chunks[i]);
        }
        lemma_payloads_flatten(d, c);
        c.lemma_flatten_and_flatten_alt_are_equivalent();
        assert(frames.last().payload@ == chunks.last());
    }
}

/// Sequencing and reassembly are inverse: the frames that `SeqBuilder`
/// cuts from a list of chunks, once all have arrived in whatever order,
/// join into a message whose payload is the chunks joined together, with
/// the sequence id, sender and recipient of the builder.
pub proof fn lemma_build_then_join(frames: Seq<Frame>, chunks: Seq<Seq<u8>>, arrived: Seq<Frame>)
    requires
        well_sequenced(frames),
        frames.len() == chunks.len(),
        forall|i: int| 0 <= i < frames.len() ==> #[trigger] frames[i].payload@ == chunks[i],
        arrived.to_multiset() == frames.to_multiset(),
    ensures
        sequence_complete(sort_by_num(arrived)),
        joined_view(sort_by_num(arrived)).payload == chunks.flatten(),
        joined_view(sort_by_num(arrived)).id == frames[0].seq.seqid,
        joined_view(sort_by_num(arrived)).sender == frames[0].sender,
        joined_view(sort_by_num(arrived)).recipient == frames[0].recipient,
{
    lemma_all_frames_complete(frames, arrived);
    lemma_payloads_flatten(frames, chunks);
}

/// The buffer after feeding the first `k` arrived frames, one call of
/// `join_frames` each, into an empty buffer.
pub open spec fn fed(arrived: Seq<Frame>, k: nat) -> Seq<Frame>
    decreases k,
{
    if k == 0 {
        Seq::empty()
    } else {
        sort_by_num(fed(arrived, (k - 1) as nat).push(arrived[k - 1]))
    }
}

/// Feeding frames one by one keeps the buffer sorted: it is the sort of
/// the frames fed so far.
pub proof fn lemma_fed_is_sorted_prefix(arrived: Seq<Frame>, k: nat)
    requires
        k <= arrived.len(),
    ensures
        fed(arrived, k) == sort_by_num(arrived.take(k as int)),
    decreases k,
{
    if k == 0 {
        assert(arrived.take(0) =~= Seq::<Frame>::empty());
    } else {
        lemma_fed_is_sorted_prefix(arrived, (k - 1) as nat);
        let p = arrived.take(k - 1);
        lemma_sort_by_num(p);
        lemma_sort_sorted(sort_by_num(p));
        let b = sort_by_num(p);
        assert(b.push(arrived[k - 1]).drop_last() =~= b);
        assert(arrived.take(k as int).drop_last() =~= p);
    }
}

/// Call by call: feeding the frames of a sequence to `join_frames` one at a
/// time, in any order, starting from an empty buffer, no call before the
/// last one finds the sequence complete, the last one does, and the
/// message it gives back is the same for every order: the sequence id of
/// the frames and their payloads in number order.
pub proof fn lemma_join_one_by_one(frames: Seq<Frame>, arrived: Seq<Frame>)
    requires
        well_sequenced(frames),
        arrived.to_multiset() == frames.to_multiset(),
    ensures
        arrived.len() == frames.len(),
        forall|k: nat| 1 <= k < frames.len() ==> !sequence_complete(#[trigger] fed(arrived, k)),
        sequence_complete(fed(arrived, frames.len())),
        joined_view(fed(arrived, frames.len())) == joined_view(frames),
        joined_view(frames).id == frames[0].seq.seqid,
        joined_view(frames).payload == payloads(frames),
{
    broadcast use vstd::seq_lib::group_to_multiset_ensures;
    arrived.to_multiset_ensures();
    frames.to_multiset_ensures();
    assert(arrived.len() == frames.len());
    assert forall|k: nat| 1 <= k < frames.len() implies !sequence_complete(#[trigger] fed(arrived, k)) by {
        lemma_fed_is_sorted_prefix(arrived, k);
        let t = arrived.take(k as int);
        assert(arrived =~= t + arrived.skip(k as int));
        vstd::seq_lib::lemma_multiset_commutative(t, arrived.skip(k as int));
        lemma_missing_frame_incomplete(frames, t);
    }
    lemma_fed_is_sorted_prefix(arrived, frames.len());
    assert(arrived.take(frames.len() as int) =~= arrived);
    lemma_all_frames_complete(frames, arrived);
}

/// No early delivery: while a frame of a sequence is still missing, the
/// sorted buffer of the frames that did arrive is never complete.
pub proof fn lemma_missing_frame_incomplete(frames: Seq<Frame>, arrived: Seq<Frame>)
    requires
        well_sequenced(frames),
        arrived.to_multiset().subset_of(frames.to_multiset()),
        arrived.len() < frames.len(),
    ensures
        !sequence_complete(sort_by_num(arrived)),
{
    broadcast use vstd::seq_lib::group_to_multiset_ensures;
    let s = sort_by_num(arrived);
    lemma_sort_by_num(arrived);
    if sequence_complete(s) {
        let m = s.len();
        let l = s[m - 1];
        assert(s.to_multiset().count(l) > 0);
        assert(frames.to_multiset().count(l) > 0);
        assert(frames.contains(l));
        let idx = choose|idx: int| 0 <= idx < frames.len() && frames[idx] == l;
        assert(frames[idx].seq.num == idx);
        assert(l.seq.num == (m - 1) as u32);
    }
}

} // verus!

verus! {

/// Cuts a message payload into a sequence of frames.
pub struct SeqBuilder {
    pub seqid: Identity,
    pub sender: Identity,
    pub recipient: Recipient,
    pub data: Vec<Vec<u8>>,
}

impl SeqBuilder {
    /// Starts an empty sequence.
    pub fn new(sender: Identity, recipient: Recipient, seqid: Identity) -> (r: SeqBuilder)
        ensures
            r.seqid == seqid,
            r.sender == sender,
            r.recipient == recipient,
            r.data@.len() == 0,
    {
        SeqBuilder { seqid, sender, recipient, data: Vec::new() }
    }

    /// Appends one chunk of payload, which becomes one frame.
    pub fn add(self, data: Vec<u8>) -> (r: SeqBuilder)
        ensures
            r.seqid == self.seqid,
            r.sender == self.sender,
            r.recipient == self.recipient,
            r.data@ == self.data@.push(data),
    {
        let mut b = self;
        b.data.push(data);
        b
    }

    /// Turns the chunks into frames, numbered from zero, each pointing to
    /// the next.
    pub fn build(self) -> (r: Vec<Frame>)
        requires
            self.data@.len() <= u32::MAX,
        ensures
            r@.len() == self.data@.len(),
            r@.len() > 0 ==> well_sequenced(r@),
            payloads(r@) == self.data@.map_values(|c: Vec<u8>| c@).flatten(),
            forall|i: int| 0 <= i < r@.len() ==> {
                &&& #[trigger] r@[i].payload@ == self.data@[i]@
                &&& r@[i].seq.seqid == self.seqid
                &&& r@[i].seq.num == i
                &&& r@[i].seq.next == (if i + 1 < r@.len() { Some((i + 1) as u32) } else { None::<u32> })
                &&& r@[i].sender == self.sender
                &&& r@[i].recipient == self.recipient
            },
    {
        let n = self.data.len();
        let seqid = self.seqid;
        let sender = self.sender;
        let recipient = self.recipient;
        let ghost orig = self.data@;
        let mut data = self.data;
        let mut frames: Vec<Frame> = Vec::new();
        let mut i: usize = 0;
        while i < n
            invariant
                n == orig.len(),
                n <= u32::MAX,
                i <= n,
                data@ == orig.skip(i as int),
                frames@.len() == i,
                forall|k: int| #![trigger frames@[k]] 0 <= k < i ==> {
                    &&& frames@[k].payload@ == orig[k]@
                    &&& frames@[k].seq.num == k
                    &&& frames@[k].seq.next == (if k + 1 < n { Some((k + 1) as u32) } else { None::<u32> })
                    &&& frames@[k].seq.seqid == seqid
                    &&& frames@[k].sender == sender
                    &&& frames@[k].recipient == recipient
                },
            decreases n - i,
        {
            let payload = data.remove(0);
            assert(orig.skip(i as int).remove(0) =~= orig.skip(i as int + 1));
            assert(payload == orig[i as int]);
            let num = i as u32;
            let next = if i + 1 < n { Some((i + 1) as u32) } else { None };
            frames.push(Frame { seq: SeqData { num, seqid, next }, sender, recipient, payload });
            i = i + 1;
        }
        proof {
            lemma_payloads_flatten(frames@, orig.map_values(|c: Vec<u8>| c@));
        }
        frames
    }

    /// The payload of a sequence, restored from its frames in order.
    pub fn restore(buf: &Vec<Frame>) -> (r: Vec<u8>)
        ensures
            r@ == payloads(buf@),
    {
        concat_payloads(buf)
    }
}

} // verus!
