use vstd::prelude::*;

verus! {

/// Size in bytes of the fixed message header.
pub const HEADER_SIZE: usize = 8;

/// Largest total length, header included, that a message may declare;
/// a header declaring more is refused before any buffer is grown for it.
pub const MAX_MESSAGE_LEN: usize = 16777216;

/// Byte offset of the total-length field inside the header.
pub const LENGTH_OFFSET: usize = 4;

/// The unsigned integer stored little-endian in four bytes.
pub open spec fn le_u32(b0: u8, b1: u8, b2: u8, b3: u8) -> nat {
    b0 as nat + 256 * (b1 as nat) + 65536 * (b2 as nat) + 16777216 * (b3 as nat)
}

/// The total length that a header declares: bytes `[4, 8)`, little-endian.
pub open spec fn declared_len(s: Seq<u8>) -> nat
    recommends
        s.len() >= HEADER_SIZE,
{
    le_u32(s[4], s[5], s[6], s[7])
}

/// A complete wire message: at least a header, and exactly as long as its
/// header says.
pub open spec fn is_frame(s: Seq<u8>) -> bool {
    &&& s.len() >= HEADER_SIZE
    &&& declared_len(s) == s.len()
}

/// The byte sequences of `q` laid end to end.
pub open spec fn flatten(q: Seq<Seq<u8>>) -> Seq<u8>
    decreases q.len(),
{
    if q.len() == 0 {
        Seq::empty()
    } else {
        q[0] + flatten(q.drop_first())
    }
}

/// Appending a sequence appends its bytes.
pub proof fn lemma_flatten_push(q: Seq<Seq<u8>>, m: Seq<u8>)
    ensures
        flatten(q.push(m)) == flatten(q) + m,
    decreases q.len(),
{
    if q.len() == 0 {
        assert(q.push(m).drop_first() =~= Seq::<Seq<u8>>::empty());
        assert(flatten(q.push(m).drop_first()) =~= Seq::<u8>::empty());
        assert(flatten(q.push(m)) == m + Seq::<u8>::empty());
        assert(flatten(q.push(m)) =~= flatten(q) + m);
    } else {
        assert(q.push(m).drop_first() =~= q.drop_first().push(m));
        lemma_flatten_push(q.drop_first(), m);
        assert(q.push(m)[0] == q[0]);
        assert(flatten(q.push(m)) == q[0] + (flatten(q.drop_first()) + m));
        assert(flatten(q.push(m)) =~= flatten(q) + m);
    }
}

/// Why a byte sequence cannot be a wire message.
#[derive(Debug, PartialEq, Eq, Structural)]
pub enum FrameError {
    /// The header declares a total length below the header size.
    LengthBelowHeader { declared: u32 },
    /// The header declares a total length above `MAX_MESSAGE_LEN`.
    LengthAboveMax { declared: u32 },
    /// The byte sequence is shorter than a header.
    TooShort { len: usize },
    /// The header declares a total length other than the sequence's length.
    LengthMismatch { declared: u32, len: usize },
}

/// Relies on byteorder's `LittleEndian::read_u32`, which decodes the first
/// four bytes of its argument as a little-endian `u32`.
#[verifier::external_body]
fn read_le_u32(b: &[u8]) -> (r: u32)
    requires
        b@.len() >= 4,
    ensures
        r as nat == le_u32(b@[0], b@[1], b@[2], b@[3]),
{
    <byteorder::LittleEndian as byteorder::ByteOrder>::read_u32(b)
}

/// Reads the total-length field of a header.
pub fn read_declared_len(s: &[u8]) -> (r: u32)
    requires
        s@.len() >= HEADER_SIZE,
    ensures
        r as nat == declared_len(s@),
{
    let field = vstd::slice::slice_subrange(s, LENGTH_OFFSET, HEADER_SIZE);
    read_le_u32(field)
}

/// One complete, immutable wire message.
pub struct MessageBuffer {
    raw: Vec<u8>,
}

impl View for MessageBuffer {
    type V = Seq<u8>;

    closed spec fn view(&self) -> Seq<u8> {
        self.raw@
    }
}

impl MessageBuffer {
    /// Every message buffer holds a complete frame.
    #[verifier::type_invariant]
    pub open spec fn frame_inv(self) -> bool {
        is_frame(self@)
    }

    /// Takes a byte vector as a message, provided it is a complete frame.
    pub fn from_vec(raw: Vec<u8>) -> (r: Result<MessageBuffer, FrameError>)
        ensures
            is_frame(raw@) <==> r is Ok,
            r matches Ok(m) ==> m@ == raw@,
            raw@.len() < HEADER_SIZE ==> r == Err::<MessageBuffer, FrameError>(
                FrameError::TooShort { len: raw@.len() as usize },
            ),
            raw@.len() >= HEADER_SIZE && declared_len(raw@) != raw@.len() ==> r
                == Err::<MessageBuffer, FrameError>(
                FrameError::LengthMismatch {
                    declared: declared_len(raw@) as u32,
                    len: raw@.len() as usize,
                },
            ),
    {
        if raw.len() < HEADER_SIZE {
            return Err(FrameError::TooShort { len: raw.len() });
        }
        let declared = read_declared_len(raw.as_slice());
        if declared as usize != raw.len() {
            return Err(FrameError::LengthMismatch { declared, len: raw.len() });
        }
        Ok(MessageBuffer { raw })
    }

    /// The message's bytes; they always form a complete frame.
    pub fn as_slice(&self) -> (r: &[u8])
        ensures
            r@ == self@,
            is_frame(self@),
    {
        proof {
            use_type_invariant(self);
        }
        self.raw.as_slice()
    }

    /// The message's length in bytes.
    pub fn len(&self) -> (r: usize)
        ensures
            r == self@.len(),
            is_frame(self@),
    {
        proof {
            use_type_invariant(self);
        }
        self.raw.len()
    }

    /// The total length declared by the header, which equals `len()`.
    pub fn total_len(&self) -> (r: usize)
        ensures
            r == declared_len(self@),
            r == self@.len(),
    {
        proof {
            use_type_invariant(self);
        }
        self.raw.len()
    }

    /// Gives up the message's bytes.
    pub fn into_vec(self) -> (r: Vec<u8>)
        ensures
            r@ == self@,
            is_frame(r@),
    {
        proof {
            use_type_invariant(&self);
        }
        self.raw
    }

    /// Builds a message from a frame whose shape the caller has established.
    pub(crate) fn from_frame(raw: Vec<u8>) -> (r: MessageBuffer)
        requires
            is_frame(raw@),
        ensures
            r@ == raw@,
    {
        MessageBuffer { raw }
    }
}

} // verus!
