use vstd::prelude::*;

use std::collections::VecDeque;

use crate::message::{flatten, is_frame, lemma_flatten_push, MessageBuffer};

verus! {

broadcast use vstd::std_specs::vecdeque::group_vec_dequeue_axioms;

/// The bytes still to be written: the queue laid end to end, less the
/// `pos` bytes of the front message already written.
pub open spec fn unsent(q: Seq<Seq<u8>>, pos: nat) -> Seq<u8> {
    flatten(q).subrange(pos as int, flatten(q).len() as int)
}

/// Queue and cursor after the socket accepted `n` more bytes of the front
/// message: a message leaves the queue once its last byte is written.
pub open spec fn after_write(q: Seq<Seq<u8>>, pos: nat, n: nat) -> (Seq<Seq<u8>>, nat) {
    if pos + n == q[0].len() {
        (q.drop_first(), 0)
    } else {
        (q, pos + n)
    }
}

/// What a run of writes accepting `ns[0]`, `ns[1]`, ... bytes puts on the
/// wire, and the queue and cursor it leaves. The run stops at the first write
/// of zero bytes, at one larger than what is offered, or when the queue is
/// empty, as the write loop does.
pub open spec fn drain(q: Seq<Seq<u8>>, pos: nat, ns: Seq<nat>) -> (Seq<u8>, Seq<Seq<u8>>, nat)
    decreases ns.len(),
{
    if ns.len() == 0 || q.len() == 0 || ns[0] == 0 || pos + ns[0] > q[0].len() {
        (Seq::empty(), q, pos)
    } else {
        let next = after_write(q, pos, ns[0]);
        let rest = drain(next.0, next.1, ns.drop_first());
        (q[0].subrange(pos as int, (pos + ns[0]) as int) + rest.0, rest.1, rest.2)
    }
}

/// Sending a message adds its bytes after all the bytes still unsent.
pub proof fn lemma_send_extends_unsent(q: Seq<Seq<u8>>, pos: nat, m: Seq<u8>)
    requires
        pos <= flatten(q).len(),
    ensures
        unsent(q.push(m), pos) == unsent(q, pos) + m,
{
    lemma_flatten_push(q, m);
    assert(unsent(q.push(m), pos) =~= unsent(q, pos) + m);
}

/// One write takes the next bytes of the unsent stream, neither skipping
/// nor repeating any.
pub proof fn lemma_write_takes_prefix(q: Seq<Seq<u8>>, pos: nat, n: nat)
    requires
        q.len() > 0,
        pos + n <= q[0].len(),
    ensures
        q[0].subrange(pos as int, (pos + n) as int) + unsent(after_write(q, pos, n).0, after_write(q, pos, n).1)
            == unsent(q, pos),
{
    let rest = flatten(q.drop_first());
    assert(flatten(q) == q[0] + rest);
    if pos + n == q[0].len() {
        assert(unsent(q.drop_first(), 0) =~= rest);
    }
    assert(q[0].subrange(pos as int, (pos + n) as int) + unsent(after_write(q, pos, n).0, after_write(q, pos, n).1)
        =~= unsent(q, pos));
}

/// Whatever sizes the socket accepts, the bytes written so far followed by
/// the bytes still unsent are exactly the bytes that were unsent before.
pub proof fn lemma_drain_in_order(q: Seq<Seq<u8>>, pos: nat, ns: Seq<nat>)
    requires
        q.len() == 0 ==> pos == 0,
        q.len() > 0 ==> pos < q[0].len(),
        forall|i: int| 0 <= i < q.len() ==> #[trigger] q[i].len() > 0,
    ensures
        drain(q, pos, ns).0 + unsent(drain(q, pos, ns).1, drain(q, pos, ns).2) == unsent(q, pos),
        drain(q, pos, ns).1.len() == 0 ==> drain(q, pos, ns).2 == 0,
        drain(q, pos, ns).1.len() > 0 ==> drain(q, pos, ns).2 < drain(q, pos, ns).1[0].len(),
    decreases ns.len(),
{
    if ns.len() == 0 || q.len() == 0 || ns[0] == 0 || pos + ns[0] > q[0].len() {
        assert(drain(q, pos, ns).0 + unsent(q, pos) =~= unsent(q, pos));
    } else {
        let next = after_write(q, pos, ns[0]);
        lemma_write_takes_prefix(q, pos, ns[0]);
        assert forall|i: int| 0 <= i < next.0.len() implies #[trigger] next.0[i].len() > 0 by {
            if pos + ns[0] == q[0].len() {
                assert(next.0[i] == q[i + 1]);
            }
        }
        lemma_drain_in_order(next.0, next.1, ns.drop_first());
        let rest = drain(next.0, next.1, ns.drop_first());
        assert(drain(q, pos, ns).0 + unsent(rest.1, rest.2) =~= q[0].subrange(pos as int, (pos + ns[0]) as int)
            + (rest.0 + unsent(rest.1, rest.2)));
    }
}

/// Messages sent one after another reach the wire in the order they were
/// sent, byte for byte concatenated: on a connection whose queue holds
/// `ms`, any run of writes puts a prefix of their concatenation on the wire,
/// and all of it once the queue is empty.
pub proof fn lemma_sends_reach_wire_in_order(ms: Seq<Seq<u8>>, ns: Seq<nat>)
    requires
        forall|i: int| 0 <= i < ms.len() ==> is_frame(#[trigger] ms[i]),
    ensures
        drain(ms, 0, ns).0 + unsent(drain(ms, 0, ns).1, drain(ms, 0, ns).2) == flatten(ms),
        drain(ms, 0, ns).1.len() == 0 ==> drain(ms, 0, ns).0 == flatten(ms),
{
    assert forall|i: int| 0 <= i < ms.len() implies #[trigger] ms[i].len() > 0 by {
        assert(is_frame(ms[i]));
    }
    lemma_drain_in_order(ms, 0, ns);
    assert(unsent(ms, 0) =~= flatten(ms));
    let d = drain(ms, 0, ns);
    if d.1.len() == 0 {
        assert(unsent(d.1, d.2) =~= Seq::<u8>::empty());
        assert(d.0 + unsent(d.1, d.2) =~= d.0);
    }
}

/// A write that takes only the first `k` bytes of the front message keeps
/// it queued with cursor `k`; a later write of the remaining bytes removes
/// it, and the two writes together carry the message exactly once.
pub proof fn lemma_partial_write_resumes(q: Seq<Seq<u8>>, k: nat)
    requires
        q.len() > 0,
        0 < k < q[0].len(),
    ensures
        after_write(q, 0, k) == (q, k),
        after_write(q, k, (q[0].len() - k) as nat) == (q.drop_first(), 0nat),
        q[0].subrange(0, k as int) + q[0].subrange(k as int, q[0].len() as int) == q[0],
{
    assert(q[0].subrange(0, k as int) + q[0].subrange(k as int, q[0].len() as int) =~= q[0]);
}

/// A connection holding one message is idle again once the socket has
/// accepted all of its bytes, in one write or in several.
pub proof fn lemma_idle_after_flush(m: Seq<u8>, ns: Seq<nat>)
    requires
        is_frame(m),
        drain(seq![m], 0, ns).0.len() == m.len(),
    ensures
        drain(seq![m], 0, ns).1.len() == 0,
        drain(seq![m], 0, ns).0 == m,
{
    let q = seq![m];
    assert(flatten(q.drop_first()) =~= Seq::<u8>::empty());
    assert(flatten(q) =~= m);
    lemma_sends_reach_wire_in_order(q, ns);
    lemma_drain_in_order(q, 0, ns);
    let d = drain(q, 0, ns);
    if d.1.len() > 0 {
        assert(flatten(d.1) == d.1[0] + flatten(d.1.drop_first()));
        assert(flatten(d.1).len() >= d.1[0].len());
        assert(unsent(d.1, d.2).len() > 0);
    }
    assert(d.0 =~= d.0 + unsent(d.1, d.2));
}

/// The state of an outgoing connection: the messages waiting to be written,
/// in the order they were sent, and how much of the front one is written.
pub struct OutgoingConnection {
    queue: VecDeque<MessageBuffer>,
    position: usize,
}

impl View for OutgoingConnection {
    /// The pending messages and the write cursor into the front one.
    type V = (Seq<Seq<u8>>, nat);

    closed spec fn view(&self) -> (Seq<Seq<u8>>, nat) {
        (self.queue@.map_values(|m: MessageBuffer| m@), self.position as nat)
    }
}

impl OutgoingConnection {
    /// The cursor lies inside the front message, and is zero when nothing
    /// is queued; every queued message is a complete frame.
    pub open spec fn wf(&self) -> bool {
        &&& self@.0.len() == 0 ==> self@.1 == 0
        &&& self@.0.len() > 0 ==> self@.1 < self@.0[0].len()
        &&& forall|i: int| 0 <= i < self@.0.len() ==> is_frame(#[trigger] self@.0[i])
    }

    /// A connection with nothing to write.
    pub fn new() -> (r: OutgoingConnection)
        ensures
            r.wf(),
            r@ == (Seq::<Seq<u8>>::empty(), 0nat),
    {
        let r = OutgoingConnection { queue: VecDeque::new(), position: 0 };
        assert(r@.0 =~= Seq::<Seq<u8>>::empty());
        r
    }

    /// Queues a message behind those already sent.
    pub fn send(&mut self, message: MessageBuffer)
        requires
            old(self).wf(),
        ensures
            final(self).wf(),
            final(self)@ == (old(self)@.0.push(message@), old(self)@.1),
    {
        proof {
            use_type_invariant(&message);
        }
        self.queue.push_back(message);
        assert(self@.0 =~= old(self)@.0.push(message@));
    }

    /// True when nothing is waiting to be written.
    pub fn is_idle(&self) -> (r: bool)
        ensures
            r == (self@.0.len() == 0),
    {
        self.queue.len() == 0
    }

    /// The bytes that the next write should offer: the unwritten rest of the
    /// front message, never empty, or `None` when the queue is empty.
    pub fn pending(&self) -> (r: Option<&[u8]>)
        requires
            self.wf(),
        ensures
            self@.0.len() == 0 <==> r is None,
            r matches Some(s) ==> s@ == self@.0[0].subrange(self@.1 as int, self@.0[0].len() as int)
                && s@.len() == self@.0[0].len() - self@.1 && s@.len() > 0,
    {
        if self.queue.len() == 0 {
            None
        } else {
            let front = self.queue[0].as_slice();
            assert(front@ == self@.0[0]);
            Some(vstd::slice::slice_subrange(front, self.position, front.len()))
        }
    }

    /// Records that the socket accepted `n` bytes of what `pending` offered,
    /// and says whether writing should go on: a write of zero bytes stops it.
    pub fn on_written(&mut self, n: usize) -> (r: bool)
        requires
            old(self).wf(),
            old(self)@.0.len() > 0,
            old(self)@.1 + n <= old(self)@.0[0].len(),
        ensures
            final(self).wf(),
            r == (n > 0),
            n == 0 ==> final(self)@ == old(self)@,
            n > 0 ==> final(self)@ == after_write(old(self)@.0, old(self)@.1, n as nat),
    {
        if n == 0 {
            return false;
        }
        let len = self.queue[0].len();
        assert(self@.0[0].len() == len);
        if self.position + n == len {
            let _ = self.queue.pop_front();
            self.position = 0;
            assert(self@.0 =~= old(self)@.0.drop_first());
        } else {
            self.position = self.position + n;
        }
        true
    }
}

} // verus!
