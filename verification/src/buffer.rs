//! The fixed-capacity cursor buffer every codec operates through.
//!
//! One buffer holds exactly one DNS message of at most 512 bytes (the
//! classic UDP ceiling). Every read and write goes through the cursor and
//! fails with `BufferExhausted` rather than growing or wrapping. The
//! cursor never leaves `[0, 512]`; an operation that would push it past
//! the end fails and leaves the buffer untouched.

use vstd::prelude::*;
use vstd::pervasive::VecAdditionalExecFns;
use crate::errors::DnsError;

verus! {

/// Capacity of one message buffer, in bytes.
pub const PACKET_SIZE: usize = 512;

/// Big-endian value of two bytes.
pub open spec fn u16_from_be(b0: u8, b1: u8) -> u16 {
    ((b0 as u16) << 8) | (b1 as u16)
}

/// Big-endian value of four bytes.
pub open spec fn u32_from_be(b0: u8, b1: u8, b2: u8, b3: u8) -> u32 {
    ((b0 as u32) << 24) | ((b1 as u32) << 16) | ((b2 as u32) << 8) | (b3 as u32)
}

/// The two big-endian bytes of a 16-bit value.
pub open spec fn u16_be_bytes(v: u16) -> Seq<u8> {
    seq![(v >> 8) as u8, v as u8]
}

/// The four big-endian bytes of a 32-bit value.
pub open spec fn u32_be_bytes(v: u32) -> Seq<u8> {
    seq![(v >> 24) as u8, (v >> 16) as u8, (v >> 8) as u8, v as u8]
}

/// Splitting a 16-bit value into bytes and reassembling them is lossless.
pub proof fn lemma_u16_be_roundtrip(v: u16)
    ensures u16_from_be(u16_be_bytes(v)[0], u16_be_bytes(v)[1]) == v,
{
    assert(((((v >> 8) as u8) as u16) << 8) | ((v as u8) as u16) == v) by (bit_vector);
}

/// Splitting a 32-bit value into bytes and reassembling them is lossless.
pub proof fn lemma_u32_be_roundtrip(v: u32)
    ensures u32_from_be(
        u32_be_bytes(v)[0], u32_be_bytes(v)[1], u32_be_bytes(v)[2], u32_be_bytes(v)[3]) == v,
{
    assert((((v >> 24) as u8) as u32) << 24
        | (((v >> 16) as u8) as u32) << 16
        | (((v >> 8) as u8) as u32) << 8
        | ((v as u8) as u32) == v) by (bit_vector);
}

/// A fixed 512-byte message window with a read/write cursor.
pub struct BytePacketBuffer {
    pub buf: Vec<u8>,
    pub pos: usize,
}

impl BytePacketBuffer {
    /// Well-formed: exactly 512 bytes of storage, cursor within them
    /// (position 512 means "at the end").
    pub open spec fn wf(&self) -> bool {
        &&& self.buf@.len() == PACKET_SIZE
        &&& self.pos <= PACKET_SIZE
    }

    /// A fresh, zeroed buffer with the cursor at the start.
    pub fn new() -> (r: BytePacketBuffer)
        ensures
            r.wf(),
            r.pos == 0,
            r.buf@ =~= Seq::new(PACKET_SIZE as nat, |i: int| 0u8),
    {
        BytePacketBuffer { buf: vec![0u8; PACKET_SIZE], pos: 0 }
    }

    /// The current cursor position.
    pub fn pos(&self) -> (r: usize)
        ensures r == self.pos,
    {
        self.pos
    }

    /// Move the cursor forward by `steps` bytes; fails rather than letting
    /// the cursor leave the buffer.
    pub fn step(&mut self, steps: usize) -> (r: Result<(), DnsError>)
        requires old(self).wf(),
        ensures
            final(self).wf(),
            final(self).buf@ == old(self).buf@,
            r is Ok <==> old(self).pos + steps <= PACKET_SIZE,
            r is Ok ==> final(self).pos == old(self).pos + steps,
            r is Err ==> r == Err::<(), DnsError>(DnsError::BufferExhausted)
                && final(self).pos == old(self).pos,
    {
        if steps <= PACKET_SIZE - self.pos {
            self.pos = self.pos + steps;
            Ok(())
        } else {
            Err(DnsError::BufferExhausted)
        }
    }

    /// Place the cursor at an absolute position; fails past the end.
    pub fn seek(&mut self, pos: usize) -> (r: Result<(), DnsError>)
        requires old(self).wf(),
        ensures
            final(self).wf(),
            final(self).buf@ == old(self).buf@,
            r is Ok <==> pos <= PACKET_SIZE,
            r is Ok ==> final(self).pos == pos,
            r is Err ==> r == Err::<(), DnsError>(DnsError::BufferExhausted)
                && final(self).pos == old(self).pos,
    {
        if pos <= PACKET_SIZE {
            self.pos = pos;
            Ok(())
        } else {
            Err(DnsError::BufferExhausted)
        }
    }

    /// Consume one byte at the cursor.
    pub fn read(&mut self) -> (r: Result<u8, DnsError>)
        requires old(self).wf(),
        ensures
            final(self).wf(),
            final(self).buf@ == old(self).buf@,
            r is Ok <==> old(self).pos < PACKET_SIZE,
            r is Ok ==> r == Ok::<u8, DnsError>(old(self).buf@[old(self).pos as int])
                && final(self).pos == old(self).pos + 1,
            r is Err ==> r == Err::<u8, DnsError>(DnsError::BufferExhausted)
                && final(self).pos == old(self).pos,
    {
        if self.pos < PACKET_SIZE {
            let res = self.buf[self.pos];
            self.pos = self.pos + 1;
            Ok(res)
        } else {
            Err(DnsError::BufferExhausted)
        }
    }

    /// Read the byte at an absolute position without moving the cursor.
    pub fn get(&self, pos: usize) -> (r: Result<u8, DnsError>)
        requires self.wf(),
        ensures
            r is Ok <==> pos < PACKET_SIZE,
            r is Ok ==> r == Ok::<u8, DnsError>(self.buf@[pos as int]),
            r is Err ==> r == Err::<u8, DnsError>(DnsError::BufferExhausted),
    {
        if pos < PACKET_SIZE {
            Ok(self.buf[pos])
        } else {
            Err(DnsError::BufferExhausted)
        }
    }

    /// Copy `len` bytes starting at `start` without moving the cursor.
    /// A range that ends exactly at the capacity is still in bounds and is
    /// deliberately accepted: only a range that would reach past byte 511
    /// fails.
    pub fn get_range(&self, start: usize, len: usize) -> (r: Result<Vec<u8>, DnsError>)
        requires self.wf(),
        ensures
            r is Ok <==> start + len <= PACKET_SIZE,
            r is Ok ==> (r matches Ok(v)
                && v@ == self.buf@.subrange(start as int, start + len)),
            r is Err ==> r == Err::<Vec<u8>, DnsError>(DnsError::BufferExhausted),
    {
        if len <= PACKET_SIZE && start <= PACKET_SIZE - len {
            let mut out: Vec<u8> = Vec::new();
            let mut i: usize = 0;
            while i < len
                invariant
                    self.wf(),
                    i <= len,
                    start + len <= PACKET_SIZE,
                    out@ == self.buf@.subrange(start as int, start + i),
                decreases len - i,
            {
                out.push(self.buf[start + i]);
                i = i + 1;
                proof {
                    assert(out@ =~= self.buf@.subrange(start as int, start + i));
                }
            }
            Ok(out)
        } else {
            Err(DnsError::BufferExhausted)
        }
    }

    /// Consume two bytes as one big-endian 16-bit value. Fails without
    /// moving the cursor when fewer than two bytes remain.
    pub fn read_u16(&mut self) -> (r: Result<u16, DnsError>)
        requires old(self).wf(),
        ensures
            final(self).wf(),
            final(self).buf@ == old(self).buf@,
            r is Ok <==> old(self).pos + 2 <= PACKET_SIZE,
            r is Ok ==> r == Ok::<u16, DnsError>(u16_from_be(
                    old(self).buf@[old(self).pos as int],
                    old(self).buf@[old(self).pos + 1]))
                && final(self).pos == old(self).pos + 2,
            r is Err ==> r == Err::<u16, DnsError>(DnsError::BufferExhausted)
                && final(self).pos == old(self).pos,
    {
        if PACKET_SIZE - self.pos >= 2 {
            let b0 = self.buf[self.pos];
            let b1 = self.buf[self.pos + 1];
            self.pos = self.pos + 2;
            Ok(((b0 as u16) << 8) | (b1 as u16))
        } else {
            Err(DnsError::BufferExhausted)
        }
    }

    /// Consume four bytes as one big-endian 32-bit value. Fails without
    /// moving the cursor when fewer than four bytes remain.
    pub fn read_u32(&mut self) -> (r: Result<u32, DnsError>)
        requires old(self).wf(),
        ensures
            final(self).wf(),
            final(self).buf@ == old(self).buf@,
            r is Ok <==> old(self).pos + 4 <= PACKET_SIZE,
            r is Ok ==> r == Ok::<u32, DnsError>(u32_from_be(
                    old(self).buf@[old(self).pos as int],
                    old(self).buf@[old(self).pos + 1],
                    old(self).buf@[old(self).pos + 2],
                    old(self).buf@[old(self).pos + 3]))
                && final(self).pos == old(self).pos + 4,
            r is Err ==> r == Err::<u32, DnsError>(DnsError::BufferExhausted)
                && final(self).pos == old(self).pos,
    {
        if PACKET_SIZE - self.pos >= 4 {
            let b0 = self.buf[self.pos];
            let b1 = self.buf[self.pos + 1];
            let b2 = self.buf[self.pos + 2];
            let b3 = self.buf[self.pos + 3];
            self.pos = self.pos + 4;
            Ok(((b0 as u32) << 24) | ((b1 as u32) << 16) | ((b2 as u32) << 8) | (b3 as u32))
        } else {
            Err(DnsError::BufferExhausted)
        }
    }

    /// Append all of `data` at the cursor. Fails without writing anything
    /// when the data does not fit before the end of the buffer.
    #[verifier::loop_isolation(false)]
    pub fn write_bytes(&mut self, data: &Vec<u8>) -> (r: Result<(), DnsError>)
        requires old(self).wf(),
        ensures
            final(self).wf(),
            r is Ok <==> old(self).pos + data@.len() <= PACKET_SIZE,
            r is Ok ==> final(self).pos == old(self).pos + data@.len()
                && final(self).buf@ == old(self).buf@.subrange(0, old(self).pos as int)
                    + data@
                    + old(self).buf@.subrange(old(self).pos + data@.len(), PACKET_SIZE as int),
            r is Err ==> r == Err::<(), DnsError>(DnsError::BufferExhausted)
                && *final(self) == *old(self),
    {
        let n = data.len();
        if n <= PACKET_SIZE && self.pos <= PACKET_SIZE - n {
            let mut k: usize = 0;
            while k < n
                invariant
                    self.wf(),
                    k <= n,
                    self.pos == old(self).pos + k,
                    forall|j: int| 0 <= j < old(self).pos
                        ==> #[trigger] self.buf@[j] == old(self).buf@[j],
                    forall|j: int| old(self).pos <= j < self.pos
                        ==> #[trigger] self.buf@[j] == data@[j - old(self).pos],
                    forall|j: int| self.pos <= j < PACKET_SIZE
                        ==> #[trigger] self.buf@[j] == old(self).buf@[j],
                decreases n - k,
            {
                self.buf.set(self.pos, data[k]);
                self.pos = self.pos + 1;
                k = k + 1;
            }
            proof {
                assert(self.buf@ =~= old(self).buf@.subrange(0, old(self).pos as int)
                    + data@
                    + old(self).buf@.subrange(old(self).pos + data@.len(), PACKET_SIZE as int));
            }
            Ok(())
        } else {
            Err(DnsError::BufferExhausted)
        }
    }

    /// Append one byte at the cursor.
    pub fn write(&mut self, val: u8) -> (r: Result<(), DnsError>)
        requires old(self).wf(),
        ensures
            final(self).wf(),
            r is Ok <==> old(self).pos < PACKET_SIZE,
            r is Ok ==> final(self).buf@ == old(self).buf@.update(old(self).pos as int, val)
                && final(self).pos == old(self).pos + 1,
            r is Err ==> r == Err::<(), DnsError>(DnsError::BufferExhausted)
                && *final(self) == *old(self),
    {
        if self.pos < PACKET_SIZE {
            self.buf.set(self.pos, val);
            self.pos = self.pos + 1;
            Ok(())
        } else {
            Err(DnsError::BufferExhausted)
        }
    }

    /// Append one byte at the cursor.
    pub fn write_u8(&mut self, val: u8) -> (r: Result<(), DnsError>)
        requires old(self).wf(),
        ensures
            final(self).wf(),
            r is Ok <==> old(self).pos < PACKET_SIZE,
            r is Ok ==> final(self).buf@ == old(self).buf@.update(old(self).pos as int, val)
                && final(self).pos == old(self).pos + 1,
            r is Err ==> r == Err::<(), DnsError>(DnsError::BufferExhausted)
                && *final(self) == *old(self),
    {
        self.write(val)
    }

    /// Append a 16-bit value in big-endian order. Fails without writing
    /// anything when fewer than two bytes remain.
    pub fn write_u16(&mut self, val: u16) -> (r: Result<(), DnsError>)
        requires old(self).wf(),
        ensures
            final(self).wf(),
            r is Ok <==> old(self).pos + 2 <= PACKET_SIZE,
            r is Ok ==> final(self).buf@ == old(self).buf@
                    .update(old(self).pos as int, u16_be_bytes(val)[0])
                    .update(old(self).pos + 1, u16_be_bytes(val)[1])
                && final(self).pos == old(self).pos + 2,
            r is Err ==> r == Err::<(), DnsError>(DnsError::BufferExhausted)
                && *final(self) == *old(self),
    {
        if PACKET_SIZE - self.pos >= 2 {
            self.buf.set(self.pos, (val >> 8) as u8);
            self.buf.set(self.pos + 1, val as u8);
            self.pos = self.pos + 2;
            Ok(())
        } else {
            Err(DnsError::BufferExhausted)
        }
    }

    /// Append a 32-bit value in big-endian order. Fails without writing
    /// anything when fewer than four bytes remain.
    pub fn write_u32(&mut self, val: u32) -> (r: Result<(), DnsError>)
        requires old(self).wf(),
        ensures
            final(self).wf(),
            r is Ok <==> old(self).pos + 4 <= PACKET_SIZE,
            r is Ok ==> final(self).buf@ == old(self).buf@
                    .update(old(self).pos as int, u32_be_bytes(val)[0])
                    .update(old(self).pos + 1, u32_be_bytes(val)[1])
                    .update(old(self).pos + 2, u32_be_bytes(val)[2])
                    .update(old(self).pos + 3, u32_be_bytes(val)[3])
                && final(self).pos == old(self).pos + 4,
            r is Err ==> r == Err::<(), DnsError>(DnsError::BufferExhausted)
                && *final(self) == *old(self),
    {
        if PACKET_SIZE - self.pos >= 4 {
            self.buf.set(self.pos, (val >> 24) as u8);
            self.buf.set(self.pos + 1, (val >> 16) as u8);
            self.buf.set(self.pos + 2, (val >> 8) as u8);
            self.buf.set(self.pos + 3, val as u8);
            self.pos = self.pos + 4;
            Ok(())
        } else {
            Err(DnsError::BufferExhausted)
        }
    }
}

} // verus!
