use vstd::prelude::*;

use crate::message::{
    declared_len, flatten, is_frame, FrameError, MessageBuffer, HEADER_SIZE, MAX_MESSAGE_LEN,
};
use crate::reader::MessageReader;

verus! {

/// The length that a message whose first bytes are `p` is known to reach:
/// the header size until the header is complete, then the declared length.
pub open spec fn target_len(p: Seq<u8>) -> nat {
    if p.len() < HEADER_SIZE {
        HEADER_SIZE as nat
    } else {
        declared_len(p)
    }
}

/// The received bytes of an unfinished message: never a whole frame, and
/// past the header always short of a declared length within the maximum.
pub open spec fn valid_pending(p: Seq<u8>) -> bool {
    &&& !is_frame(p)
    &&& (p.len() <= HEADER_SIZE || (p.len() < declared_len(p) && declared_len(p)
        <= MAX_MESSAGE_LEN))
}

/// A complete header that declares a total length below the header size
/// or above `MAX_MESSAGE_LEN`.
pub open spec fn is_malformed(p: Seq<u8>) -> bool {
    &&& p.len() == HEADER_SIZE
    &&& (declared_len(p) < HEADER_SIZE || declared_len(p) > MAX_MESSAGE_LEN)
}

/// One read of `d` into a message whose received bytes are `p`: the bytes
/// received afterwards, and the message that the read completes, if any.
pub open spec fn read_step(p: Seq<u8>, d: Seq<u8>) -> (Seq<u8>, Option<Seq<u8>>) {
    if d.len() > 0 && is_frame(p + d) {
        (Seq::empty(), Some(p + d))
    } else {
        (p + d, None)
    }
}

/// A read that `read_window` allows after receiving `p`: the header is not
/// malformed and the read stays within the window.
pub open spec fn fits_window(p: Seq<u8>, d: Seq<u8>) -> bool {
    &&& !is_malformed(p)
    &&& p.len() + d.len() <= target_len(p)
}

/// The bytes left pending and the messages completed by the reads `cs`,
/// starting from received bytes `p`; it stops at the first read that does
/// not fit the window.
pub open spec fn feed(p: Seq<u8>, cs: Seq<Seq<u8>>) -> (Seq<u8>, Seq<Seq<u8>>)
    decreases cs.len(),
{
    if cs.len() == 0 || !fits_window(p, cs[0]) {
        (p, Seq::empty())
    } else {
        let step = read_step(p, cs[0]);
        let rest = feed(step.0, cs.drop_first());
        (rest.0, completed(step.1) + rest.1)
    }
}

/// The message that a read completed, as a sequence of zero or one.
pub open spec fn completed(o: Option<Seq<u8>>) -> Seq<Seq<u8>> {
    match o {
        Some(m) => seq![m],
        None => Seq::empty(),
    }
}

/// Every read of `cs` fits the window it meets, starting from `p`.
pub open spec fn feeds_all(p: Seq<u8>, cs: Seq<Seq<u8>>) -> bool
    decreases cs.len(),
{
    cs.len() == 0 || (fits_window(p, cs[0]) && feeds_all(read_step(p, cs[0]).0, cs.drop_first()))
}

/// The reads of `s` one byte at a time.
pub open spec fn bytes_of(s: Seq<u8>) -> Seq<Seq<u8>> {
    Seq::new(s.len(), |i: int| seq![s[i]])
}

proof fn lemma_header_kept(p: Seq<u8>, d: Seq<u8>)
    requires
        p.len() >= HEADER_SIZE,
    ensures
        declared_len(p + d) == declared_len(p),
{
    assert((p + d)[4] == p[4] && (p + d)[5] == p[5]);
    assert((p + d)[6] == p[6] && (p + d)[7] == p[7]);
}

/// Feeding a single read.
proof fn lemma_feed_one(p: Seq<u8>, d: Seq<u8>)
    requires
        fits_window(p, d),
    ensures
        feeds_all(p, seq![d]),
        feed(p, seq![d]) == (read_step(p, d).0, completed(read_step(p, d).1)),
{
    let e = Seq::<Seq<u8>>::empty();
    assert(seq![d].drop_first() =~= e);
    assert(feed(read_step(p, d).0, e) == (read_step(p, d).0, e));
    assert(feeds_all(read_step(p, d).0, e));
    assert(completed(read_step(p, d).1) + e =~= completed(read_step(p, d).1));
}

/// A read that fits the window leaves an unfinished message unfinished or
/// completes it.
proof fn lemma_step_valid(p: Seq<u8>, d: Seq<u8>)
    requires
        valid_pending(p),
        fits_window(p, d),
    ensures
        valid_pending(read_step(p, d).0),
{
    if p.len() >= HEADER_SIZE {
        lemma_header_kept(p, d);
    }
}

/// Feeding `a` and then `b` is feeding `a + b`.
proof fn lemma_feed_append(p: Seq<u8>, a: Seq<Seq<u8>>, b: Seq<Seq<u8>>)
    requires
        feeds_all(p, a),
    ensures
        feed(p, a + b) == (feed(feed(p, a).0, b).0, feed(p, a).1 + feed(feed(p, a).0, b).1),
        feeds_all(p, a + b) == feeds_all(feed(p, a).0, b),
    decreases a.len(),
{
    if a.len() == 0 {
        assert(a + b =~= b);
        assert(feed(p, a).1 + feed(p, b).1 =~= feed(p, b).1);
    } else {
        let step = read_step(p, a[0]);
        assert((a + b)[0] == a[0]);
        assert((a + b).drop_first() =~= a.drop_first() + b);
        lemma_feed_append(step.0, a.drop_first(), b);
        let tail = feed(feed(p, a).0, b).1;
        assert(completed(step.1) + (feed(step.0, a.drop_first()).1 + tail) =~= (completed(step.1)
            + feed(step.0, a.drop_first()).1) + tail);
    }
}

/// A read that fits the window has the same effect as reading its bytes
/// one at a time.
proof fn lemma_chunk_as_bytes(p: Seq<u8>, d: Seq<u8>)
    requires
        valid_pending(p),
        fits_window(p, d),
    ensures
        feeds_all(p, bytes_of(d)),
        feed(p, bytes_of(d)) == feed(p, seq![d]),
    decreases d.len(),
{
    let step = read_step(p, d);
    lemma_feed_one(p, d);
    if d.len() == 0 {
        assert(bytes_of(d) =~= Seq::<Seq<u8>>::empty());
        assert(p + d =~= p);
    } else {
        let k = (d.len() - 1) as int;
        let front = d.subrange(0, k);
        let last = seq![d[k]];
        let q = p + front;
        assert(bytes_of(d) =~= bytes_of(front) + seq![last]);
        assert(q + last =~= p + d);
        if p.len() >= HEADER_SIZE {
            lemma_header_kept(p, front);
        }
        if front.len() == 0 {
            assert(q =~= p);
        }
        assert(fits_window(p, front));
        lemma_chunk_as_bytes(p, front);
        assert(!is_frame(q));
        assert(read_step(p, front).0 == q);
        lemma_feed_one(p, front);
        assert(feed(p, bytes_of(front)) == (q, Seq::<Seq<u8>>::empty()));
        lemma_feed_append(p, bytes_of(front), seq![last]);
        assert(fits_window(q, last));
        assert(read_step(q, last) == step);
        lemma_feed_one(q, last);
        assert(Seq::<Seq<u8>>::empty() + feed(q, seq![last]).1 =~= feed(q, seq![last]).1);
    }
}

/// Any reads that fit their windows have the same effect as reading the
/// same bytes one at a time.
proof fn lemma_feed_as_bytes(p: Seq<u8>, cs: Seq<Seq<u8>>)
    requires
        valid_pending(p),
        feeds_all(p, cs),
    ensures
        feeds_all(p, bytes_of(flatten(cs))),
        feed(p, cs) == feed(p, bytes_of(flatten(cs))),
    decreases cs.len(),
{
    if cs.len() == 0 {
        assert(bytes_of(flatten(cs)) =~= Seq::<Seq<u8>>::empty());
    } else {
        let d = cs[0];
        let rest = cs.drop_first();
        let step = read_step(p, d);
        assert(flatten(cs) == d + flatten(rest));
        assert(bytes_of(flatten(cs)) =~= bytes_of(d) + bytes_of(flatten(rest)));
        lemma_feed_one(p, d);
        lemma_chunk_as_bytes(p, d);
        lemma_step_valid(p, d);
        lemma_feed_as_bytes(step.0, rest);
        lemma_feed_append(p, bytes_of(d), bytes_of(flatten(rest)));
    }
}

/// Splitting the same byte stream into different reads, each within its
/// window, yields the same completed messages and leaves the same bytes
/// pending.
pub proof fn lemma_chunking_invariance(p: Seq<u8>, cs1: Seq<Seq<u8>>, cs2: Seq<Seq<u8>>)
    requires
        valid_pending(p),
        feeds_all(p, cs1),
        feeds_all(p, cs2),
        flatten(cs1) == flatten(cs2),
    ensures
        feed(p, cs1) == feed(p, cs2),
{
    lemma_feed_as_bytes(p, cs1);
    lemma_feed_as_bytes(p, cs2);
}

/// A header declaring `HEADER_SIZE + L` bytes, within `MAX_MESSAGE_LEN`,
/// followed by a payload of `L` bytes, received on a fresh connection in reads of any sizes that fit
/// their windows, one byte at a time included, yields exactly that one
/// message and leaves the connection ready for the next.
pub proof fn lemma_framing_round_trip(header: Seq<u8>, payload: Seq<u8>, cs: Seq<Seq<u8>>)
    requires
        header.len() == HEADER_SIZE,
        declared_len(header) == HEADER_SIZE + payload.len(),
        HEADER_SIZE + payload.len() <= MAX_MESSAGE_LEN,
        flatten(cs) == header + payload,
        feeds_all(Seq::empty(), cs),
    ensures
        feed(Seq::empty(), cs) == (Seq::<u8>::empty(), seq![header + payload]),
{
    let m = header + payload;
    let e = Seq::<u8>::empty();
    lemma_header_kept(header, payload);
    assert(e + header =~= header);
    let whole = seq![header] + seq![payload];
    assert(whole.drop_first() =~= seq![payload]);
    assert(seq![payload].drop_first() =~= Seq::<Seq<u8>>::empty());
    assert(flatten(seq![payload]) == payload + flatten(Seq::<Seq<u8>>::empty()));
    assert(flatten(whole) == header + flatten(seq![payload]));
    assert(flatten(whole) =~= m);
    lemma_feed_one(e, header);
    lemma_feed_append(e, seq![header], seq![payload]);
    if payload.len() == 0 {
        assert(m =~= header);
        assert(is_frame(e + header));
        assert(read_step(e, header).0 == e);
        assert(fits_window(e, payload));
        lemma_feed_one(e, payload);
        assert(e + payload =~= e);
        assert(feed(e, whole) =~= (e, seq![m]));
    } else {
        assert(!is_frame(e + header));
        assert(read_step(e, header).0 == header);
        assert(fits_window(header, payload));
        lemma_feed_one(header, payload);
        assert(is_frame(header + payload));
        assert(feed(e, whole).1 =~= seq![m]);
    }
    lemma_chunking_invariance(e, cs, whole);
}

/// What a read brought about.
pub enum ReadOutcome {
    /// Nothing arrived; the caller should wait for the next readiness event.
    WouldBlock,
    /// Bytes arrived but the message is not complete yet.
    Partial,
    /// The last bytes of a message arrived.
    Complete(MessageBuffer),
}

/// The state of an incoming connection: the message being assembled and
/// how many of its bytes have arrived.
pub struct IncomingConnection {
    raw: MessageReader,
    position: usize,
}

impl View for IncomingConnection {
    /// The bytes of the current message received so far.
    type V = Seq<u8>;

    closed spec fn view(&self) -> Seq<u8> {
        self.raw@.subrange(0, self.position as int)
    }
}

impl IncomingConnection {
    /// The buffer is at least a header and at most the maximum length, holds
    /// the received bytes, and past the header is sized to the declared
    /// length.
    pub closed spec fn wf(&self) -> bool {
        &&& HEADER_SIZE <= self.raw@.len() <= MAX_MESSAGE_LEN
        &&& self.position <= self.raw@.len()
        &&& valid_pending(self@)
        &&& (self.raw@.len() == HEADER_SIZE || (self.position >= HEADER_SIZE
            && self.raw@.len() == declared_len(self@)))
    }

    /// The buffer has room for exactly the rest of what `target_len` expects.
    pub closed spec fn ready(&self) -> bool {
        self.raw@.len() == target_len(self@)
    }

    /// Until the header is complete the buffer is header-sized, so a
    /// connection is ready for a read without preparing it.
    pub proof fn lemma_ready_within_header(&self)
        requires
            self.wf(),
            self@.len() < HEADER_SIZE,
        ensures
            self.ready(),
    {
    }

    /// A connection waiting for the first byte of a message.
    pub fn new() -> (r: IncomingConnection)
        ensures
            r.wf(),
            r.ready(),
            r@ == Seq::<u8>::empty(),
    {
        let r = IncomingConnection { raw: MessageReader::empty(), position: 0 };
        assert(r@ =~= Seq::<u8>::empty());
        r
    }

    /// How many bytes of the current message have arrived.
    pub fn position(&self) -> (r: usize)
        requires
            self.wf(),
        ensures
            r == self@.len(),
    {
        self.position
    }

    /// Prepares the buffer for the next read and returns how many bytes that
    /// read may take: the rest of the header, or, once the header is in, the
    /// rest of the declared length. A header declaring fewer bytes than the
    /// header size, or more than `MAX_MESSAGE_LEN`, is refused before any
    /// buffer is grown for it.
    pub fn read_window(&mut self) -> (r: Result<usize, FrameError>)
        requires
            old(self).wf(),
        ensures
            final(self).wf(),
            final(self)@ == old(self)@,
            r is Err <==> is_malformed(old(self)@),
            is_malformed(old(self)@) && declared_len(old(self)@) < HEADER_SIZE ==> r == Err::<
                usize,
                FrameError,
            >(FrameError::LengthBelowHeader { declared: declared_len(old(self)@) as u32 }),
            is_malformed(old(self)@) && declared_len(old(self)@) > MAX_MESSAGE_LEN ==> r == Err::<
                usize,
                FrameError,
            >(FrameError::LengthAboveMax { declared: declared_len(old(self)@) as u32 }),
            r matches Ok(n) ==> final(self).ready() && n == target_len(old(self)@) - old(self)@.len()
                && n > 0,
    {
        let ghost p = self@;
        if self.position == HEADER_SIZE && self.raw.actual_len() == HEADER_SIZE {
            assert(self.raw@ =~= p);
            match self.raw.allocate() {
                Err(e) => {
                    return Err(e);
                },
                Ok(()) => {},
            }
            assert(self.raw@.subrange(0, self.position as int) =~= p);
        }
        proof {
            if self.position >= HEADER_SIZE {
                assert(self.raw@[4] == p[4] && self.raw@[5] == p[5]);
                assert(self.raw@[6] == p[6] && self.raw@[7] == p[7]);
            }
        }
        Ok(self.raw.actual_len() - self.position)
    }

    /// Takes the bytes of one read. An empty read changes nothing; a read
    /// that completes the message hands it over and starts a new one.
    pub fn on_read(&mut self, data: &[u8]) -> (r: ReadOutcome)
        requires
            old(self).wf(),
            old(self).ready(),
            old(self)@.len() + data@.len() <= target_len(old(self)@),
        ensures
            final(self).wf(),
            final(self)@ == read_step(old(self)@, data@).0,
            read_step(old(self)@, data@).1 matches Some(m) ==> r matches ReadOutcome::Complete(x)
                && x@ == m,
            data@.len() == 0 ==> r is WouldBlock && *final(self) == *old(self),
            data@.len() > 0 && is_frame(old(self)@ + data@) ==> final(self)@ == Seq::<u8>::empty()
                && final(self).ready() && (r matches ReadOutcome::Complete(m) && m@ == old(self)@
                + data@),
            data@.len() > 0 && !is_frame(old(self)@ + data@) ==> r is Partial && final(self)@
                == old(self)@ + data@,
    {
        if data.len() == 0 {
            return ReadOutcome::WouldBlock;
        }
        let ghost p = self@ + data@;
        let ghost old_raw = self.raw@;
        self.raw.write_at(self.position, data);
        self.position = self.position + data.len();
        assert(self@ =~= p);
        proof {
            if self.position >= HEADER_SIZE {
                assert(self.raw@[4] == p[4] && self.raw@[5] == p[5]);
                assert(self.raw@[6] == p[6] && self.raw@[7] == p[7]);
            }
        }
        if self.position >= HEADER_SIZE && self.position == self.raw.total_len() {
            assert(self.raw@ =~= p);
            let mut done = MessageReader::empty();
            std::mem::swap(&mut done, &mut self.raw);
            self.position = 0;
            assert(self@ =~= Seq::<u8>::empty());
            ReadOutcome::Complete(done.into_raw())
        } else {
            ReadOutcome::Partial
        }
    }
}

} // verus!
