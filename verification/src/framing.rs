use vstd::prelude::*;
use crate::checksum::{be_byte, be_bytes, checksum, crc32_cksum};

verus! {

/// The four bytes, read big-endian, that open a framed payload.
pub const START_MARKER: u32 = 0x0F1F_2FFF;

/// The four bytes, read big-endian, that close a framed payload.
pub const END_MARKER: u32 = 0x0E1E_2EEE;

/// The bytes of the start marker in the order in which they are embedded.
pub open spec fn start_marker() -> Seq<u8> {
    seq![0x0Fu8, 0x1Fu8, 0x2Fu8, 0xFFu8]
}

/// The bytes of the end marker in the order in which they are embedded.
pub open spec fn end_marker() -> Seq<u8> {
    seq![0x0Eu8, 0x1Eu8, 0x2Eu8, 0xEEu8]
}

/// The marker byte sequences are the big-endian bytes of the marker constants.
pub proof fn lemma_marker_bytes()
    ensures
        be_bytes(START_MARKER) == start_marker(),
        be_bytes(END_MARKER) == end_marker(),
{
    assert((0x0F1F_2FFFu32 >> 24) as u8 == 0x0Fu8) by (bit_vector);
    assert(((0x0F1F_2FFFu32 >> 16) & 0xFF) as u8 == 0x1Fu8) by (bit_vector);
    assert(((0x0F1F_2FFFu32 >> 8) & 0xFF) as u8 == 0x2Fu8) by (bit_vector);
    assert((0x0F1F_2FFFu32 & 0xFF) as u8 == 0xFFu8) by (bit_vector);
    assert((0x0E1E_2EEEu32 >> 24) as u8 == 0x0Eu8) by (bit_vector);
    assert(((0x0E1E_2EEEu32 >> 16) & 0xFF) as u8 == 0x1Eu8) by (bit_vector);
    assert(((0x0E1E_2EEEu32 >> 8) & 0xFF) as u8 == 0x2Eu8) by (bit_vector);
    assert((0x0E1E_2EEEu32 & 0xFF) as u8 == 0xEEu8) by (bit_vector);
    assert(be_bytes(START_MARKER) =~= start_marker());
    assert(be_bytes(END_MARKER) =~= end_marker());
}

/// Byte `i` of the start marker.
pub fn start_marker_byte(i: usize) -> (b: u8)
    requires
        i < 4,
    ensures
        b == start_marker()[i as int],
{
    proof {
        lemma_marker_bytes();
    }
    be_byte(START_MARKER, i)
}

/// Byte `i` of the end marker.
pub fn end_marker_byte(i: usize) -> (b: u8)
    requires
        i < 4,
    ensures
        b == end_marker()[i as int],
{
    proof {
        lemma_marker_bytes();
    }
    be_byte(END_MARKER, i)
}

/// The bytes that are embedded for a payload: start marker, payload, end
/// marker, and the payload's checksum, most significant byte first.
pub open spec fn framed(payload: Seq<u8>) -> Seq<u8> {
    start_marker() + payload + end_marker() + be_bytes(crc32_cksum(payload))
}

/// The framed bytes of a payload, handed out one at a time.
pub struct FramedStream<'a> {
    payload: &'a [u8],
    checksum: u32,
    position: usize,
}

impl<'a> FramedStream<'a> {
    /// The payload that is being framed.
    pub closed spec fn payload(self) -> Seq<u8> {
        self.payload@
    }

    /// How many framed bytes have been handed out.
    pub closed spec fn consumed(self) -> nat {
        self.position as nat
    }

    /// The checksum that the stream holds for its payload.
    pub closed spec fn held_checksum(self) -> u32 {
        self.checksum
    }

    /// The position is within the framed bytes, whose number fits the machine,
    /// and the checksum held is the payload's.
    pub open spec fn wf(self) -> bool {
        &&& self.payload().len() + 12 <= usize::MAX
        &&& self.consumed() <= self.payload().len() + 12
        &&& self.held_checksum() == crc32_cksum(self.payload())
    }

    /// The framed bytes that are still to come.
    pub open spec fn remaining(self) -> Seq<u8> {
        framed(self.payload()).skip(self.consumed() as int)
    }

    /// Starts framing `payload`.
    pub fn new(payload: &'a [u8]) -> (stream: Self)
        requires
            payload@.len() + 12 <= usize::MAX,
        ensures
            stream.wf(),
            stream.payload() == payload@,
            stream.consumed() == 0,
            stream.remaining() == framed(payload@),
    {
        let sum: u32 = checksum(payload);
        assert(framed(payload@).skip(0) =~= framed(payload@));
        FramedStream { payload, checksum: sum, position: 0 }
    }

    /// The checksum of the payload.
    pub fn checksum(&self) -> (sum: u32)
        requires
            self.wf(),
        ensures
            sum == crc32_cksum(self.payload()),
    {
        self.checksum
    }

    /// The next framed byte, or `None` when all have been handed out.
    pub fn next_byte(&mut self) -> (next: Option<u8>)
        requires
            old(self).wf(),
        ensures
            final(self).wf(),
            final(self).payload() == old(self).payload(),
            old(self).remaining().len() == 0 ==> next.is_none() && final(self).consumed() == old(
                self,
            ).consumed(),
            old(self).remaining().len() > 0 ==> next == Some(old(self).remaining()[0])
                && final(self).consumed() == old(self).consumed() + 1
                && final(self).remaining() == old(self).remaining().skip(1),
    {
        let n: usize = self.payload.len();
        let at: usize = self.position;
        let ghost all: Seq<u8> = framed(self.payload@);
        if at >= n + 12 {
            return None;
        }
        let byte: u8 = if at < 4 {
            start_marker_byte(at)
        } else if at < n + 4 {
            self.payload[at - 4]
        } else if at < n + 8 {
            end_marker_byte(at - 4 - n)
        } else {
            be_byte(self.checksum, at - 8 - n)
        };
        self.position = at + 1;
        proof {
            assert(byte == all[at as int]);
            assert(all.skip(at as int)[0] == all[at as int]);
            assert(all.skip(at as int + 1) =~= all.skip(at as int).skip(1));
        }
        Some(byte)
    }
}

} // verus!
