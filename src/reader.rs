use vstd::prelude::*;

use crate::message::{
    declared_len, is_frame, read_declared_len, FrameError, MessageBuffer, HEADER_SIZE,
    MAX_MESSAGE_LEN,
};

verus! {

/// `n` zero bytes.
pub open spec fn zeros(n: nat) -> Seq<u8> {
    Seq::new(n, |i: int| 0u8)
}

/// `s` with the bytes from `at` on overwritten by `data`.
pub open spec fn overwrite(s: Seq<u8>, at: int, data: Seq<u8>) -> Seq<u8> {
    s.subrange(0, at) + data + s.subrange(at + data.len(), s.len() as int)
}

/// Accumulates the bytes of one incoming message.
///
/// It starts as a zeroed header and is grown, once the header has arrived,
/// to the total length that the header declares, so it never holds fewer
/// than `HEADER_SIZE` bytes.
pub struct MessageReader {
    raw: Vec<u8>,
}

impl View for MessageReader {
    type V = Seq<u8>;

    closed spec fn view(&self) -> Seq<u8> {
        self.raw@
    }
}

impl MessageReader {
    /// A reader holding a header's worth of zero bytes.
    pub fn empty() -> (r: MessageReader)
        ensures
            r@ == zeros(HEADER_SIZE as nat),
    {
        let mut raw: Vec<u8> = Vec::new();
        let mut i: usize = 0;
        while i < HEADER_SIZE
            invariant
                i <= HEADER_SIZE,
                raw@ == zeros(i as nat),
            decreases HEADER_SIZE - i,
        {
            raw.push(0u8);
            i = i + 1;
            assert(raw@ =~= zeros(i as nat));
        }
        MessageReader { raw }
    }

    /// The size of the buffer, header included.
    pub fn actual_len(&self) -> (r: usize)
        ensures
            r == self@.len(),
    {
        self.raw.len()
    }

    /// The total length declared by the header held in the buffer.
    pub fn total_len(&self) -> (r: usize)
        requires
            self@.len() >= HEADER_SIZE,
        ensures
            r == declared_len(self@),
    {
        read_declared_len(self.raw.as_slice()) as usize
    }

    /// Grows a header-sized buffer to the declared total length, zero-filling
    /// the new bytes; a declared length below the header size or above
    /// `MAX_MESSAGE_LEN` is refused and the buffer left as it is.
    pub fn allocate(&mut self) -> (r: Result<(), FrameError>)
        requires
            old(self)@.len() == HEADER_SIZE,
        ensures
            r is Ok <==> HEADER_SIZE <= declared_len(old(self)@) <= MAX_MESSAGE_LEN,
            r is Ok ==> final(self)@ == old(self)@ + zeros(
                (declared_len(old(self)@) - HEADER_SIZE) as nat,
            ),
            declared_len(old(self)@) < HEADER_SIZE ==> r == Err::<(), FrameError>(
                FrameError::LengthBelowHeader { declared: declared_len(old(self)@) as u32 },
            ),
            declared_len(old(self)@) > MAX_MESSAGE_LEN ==> r == Err::<(), FrameError>(
                FrameError::LengthAboveMax { declared: declared_len(old(self)@) as u32 },
            ),
            r is Err ==> final(self)@ == old(self)@,
    {
        let declared = read_declared_len(self.raw.as_slice());
        if (declared as usize) < HEADER_SIZE {
            return Err(FrameError::LengthBelowHeader { declared });
        }
        if (declared as usize) > MAX_MESSAGE_LEN {
            return Err(FrameError::LengthAboveMax { declared });
        }
        let size = declared as usize;
        let ghost start = self.raw@;
        while self.raw.len() < size
            invariant
                HEADER_SIZE <= self.raw@.len() <= size,
                start.len() == HEADER_SIZE,
                self.raw@ == start + zeros((self.raw@.len() - HEADER_SIZE) as nat),
            decreases size - self.raw@.len(),
        {
            self.raw.push(0u8);
            assert(self.raw@ =~= start + zeros((self.raw@.len() - HEADER_SIZE) as nat));
        }
        Ok(())
    }

    /// The bytes of the buffer.
    pub fn buffer(&self) -> (r: &[u8])
        ensures
            r@ == self@,
    {
        self.raw.as_slice()
    }

    /// Copies `data` into the buffer starting at byte `at`.
    pub fn write_at(&mut self, at: usize, data: &[u8])
        requires
            at + data@.len() <= old(self)@.len(),
        ensures
            final(self)@ == overwrite(old(self)@, at as int, data@),
    {
        let ghost start = self.raw@;
        let len: usize = self.raw.len();
        let mut i: usize = 0;
        while i < data.len()
            invariant
                at + data@.len() <= start.len(),
                start.len() == len,
                i <= data@.len(),
                self.raw@.len() == start.len(),
                forall|k: int| 0 <= k < at ==> self.raw@[k] == start[k],
                forall|k: int| at <= k < at + i ==> self.raw@[k] == data@[k - at],
                forall|k: int| at + i <= k < start.len() ==> self.raw@[k] == start[k],
            decreases data@.len() - i,
        {
            self.raw.set(at + i, data[i]);
            i = i + 1;
        }
        assert(self.raw@ =~= overwrite(start, at as int, data@));
    }

    /// Hands over the completed message.
    pub fn into_raw(self) -> (r: MessageBuffer)
        requires
            is_frame(self@),
        ensures
            r@ == self@,
    {
        MessageBuffer::from_frame(self.raw)
    }
}

} // verus!
