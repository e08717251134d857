use vstd::prelude::*;

use crate::error::DnsError;

verus! {

/// The fixed capacity of a packet buffer: the classic 512-byte limit of a
/// DNS message carried in a plain UDP datagram.
pub const MAX_BUFFER_SIZE: usize = 512;

/// The two bytes of a 16-bit value, most significant first.
pub open spec fn be16(v: u16) -> Seq<u8> {
    seq![(v / 256) as u8, (v % 256) as u8]
}

/// The four bytes of a 32-bit value, most significant first.
pub open spec fn be32(v: u32) -> Seq<u8> {
    be16((v / 0x10000) as u16) + be16((v % 0x10000) as u16)
}

/// A 16-bit value composed from two bytes, most significant first.
pub open spec fn combine16(hi: u8, lo: u8) -> u16 {
    ((hi as u16) * 256 + (lo as u16)) as u16
}

/// A 32-bit value composed from four bytes, most significant first.
pub open spec fn combine32(b0: u8, b1: u8, b2: u8, b3: u8) -> u32 {
    ((combine16(b0, b1) as u32) * 0x10000 + (combine16(b2, b3) as u32)) as u32
}

/// `b` with `data` laid over it starting at `pos`; bytes outside that
/// region keep their old values, and the length does not change.
pub open spec fn splice(b: Seq<u8>, pos: int, data: Seq<u8>) -> Seq<u8> {
    Seq::new(b.len(), |i: int| if pos <= i < pos + data.len() { data[i - pos] } else { b[i] })
}

/// Composing a value from its own big-endian bytes gives the value back.
pub proof fn lemma_combine16_be16(v: u16)
    ensures
        combine16(be16(v)[0], be16(v)[1]) == v,
{
    assert(combine16((v / 256) as u8, (v % 256) as u8) == v) by (bit_vector);
}

/// The 32-bit composition agrees with the big-endian byte decomposition.
pub proof fn lemma_combine32_be32(v: u32)
    ensures
        combine32(be32(v)[0], be32(v)[1], be32(v)[2], be32(v)[3]) == v,
{
    assert(combine16(((v / 0x10000) as u16 / 256) as u8, ((v / 0x10000) as u16 % 256) as u8)
        == (v / 0x10000) as u16) by (bit_vector);
    assert(combine16(((v % 0x10000) as u16 / 256) as u8, ((v % 0x10000) as u16 % 256) as u8)
        == (v % 0x10000) as u16) by (bit_vector);
    assert(((v / 0x10000) as u16 as u32) * 0x10000 + ((v % 0x10000) as u16 as u32) == v)
        by (bit_vector);
}

/// Writing two adjacent regions one after the other is one longer write.
pub proof fn lemma_splice_concat(b: Seq<u8>, pos: int, d1: Seq<u8>, d2: Seq<u8>)
    ensures
        splice(splice(b, pos, d1), pos + d1.len(), d2) == splice(b, pos, d1 + d2),
{
    assert(splice(splice(b, pos, d1), pos + d1.len(), d2) =~= splice(b, pos, d1 + d2));
}

/// Patching inside a written region patches the written data itself.
pub proof fn lemma_splice_patch(b: Seq<u8>, pos: int, data: Seq<u8>, off: int, patch: Seq<u8>)
    requires
        0 <= off,
        off + patch.len() <= data.len(),
    ensures
        splice(splice(b, pos, data), pos + off, patch) == splice(b, pos, splice(data, off, patch)),
{
    assert(splice(splice(b, pos, data), pos + off, patch) =~= splice(
        b,
        pos,
        splice(data, off, patch),
    ));
}

/// A cursor over a fixed-capacity byte region.
///
/// Every access—single byte, range, or positional write—validates against
/// the capacity bound before touching the bytes; a violating access fails
/// with [`DnsError::BoundsError`] and leaves the buffer unchanged.
pub struct BytePacketBuffer {
    pub buf: Vec<u8>,
    pub pos: usize,
}

impl BytePacketBuffer {
    /// A buffer is well formed when it holds exactly the fixed capacity.
    pub open spec fn wf(&self) -> bool {
        self.buf@.len() == MAX_BUFFER_SIZE
    }

    /// A fresh all-zero buffer with the cursor at the start.
    pub fn new() -> (r: BytePacketBuffer)
        ensures
            r.wf(),
            r.pos == 0,
            r.buf@ =~= Seq::new(MAX_BUFFER_SIZE as nat, |i: int| 0u8),
    {
        let mut buf: Vec<u8> = Vec::new();
        let mut i: usize = 0;
        while i < MAX_BUFFER_SIZE
            invariant
                i <= MAX_BUFFER_SIZE,
                buf@.len() == i,
                forall|j: int| 0 <= j < i ==> buf@[j] == 0u8,
            decreases MAX_BUFFER_SIZE - i,
        {
            buf.push(0);
            i = i + 1;
        }
        BytePacketBuffer { buf, pos: 0 }
    }

    /// A buffer holding a copy of `data`: bytes beyond the capacity are
    /// dropped, and missing bytes stay zero, as when a datagram is
    /// received into a zeroed buffer.
    pub fn from_bytes(data: &[u8]) -> (r: BytePacketBuffer)
        ensures
            r.wf(),
            r.pos == 0,
            r.buf@ =~= Seq::new(
                MAX_BUFFER_SIZE as nat,
                |i: int| if i < data@.len() { data@[i] } else { 0u8 },
            ),
    {
        let mut b = BytePacketBuffer::new();
        let mut i: usize = 0;
        while i < data.len() && i < MAX_BUFFER_SIZE
            invariant
                b.wf(),
                i <= data@.len(),
                forall|j: int| 0 <= j < i ==> b.buf@[j] == data@[j],
                forall|j: int| i <= j < MAX_BUFFER_SIZE ==> b.buf@[j] == 0u8,
            decreases data@.len() - i,
        {
            b.buf[i] = data[i];
            i = i + 1;
        }
        b.pos = 0;
        b
    }

    /// Move the cursor to `pos` without touching the bytes.
    pub fn seek(&mut self, pos: usize)
        ensures
            final(self).buf == old(self).buf,
            final(self).pos == pos,
    {
        self.pos = pos;
    }

    /// The byte at `pos`, without moving the cursor.
    pub fn get(&self, pos: usize) -> (r: Result<u8, DnsError>)
        requires
            self.wf(),
        ensures
            pos < MAX_BUFFER_SIZE ==> r == Ok::<u8, DnsError>(self.buf@[pos as int]),
            pos >= MAX_BUFFER_SIZE ==> r == Err::<u8, DnsError>(DnsError::BoundsError),
    {
        if pos < MAX_BUFFER_SIZE {
            Ok(self.buf[pos])
        } else {
            Err(DnsError::BoundsError)
        }
    }

    /// The `len` bytes starting at `start`, without moving the cursor.
    pub fn get_range(&self, start: usize, len: usize) -> (r: Result<&[u8], DnsError>)
        requires
            self.wf(),
        ensures
            start + len <= MAX_BUFFER_SIZE ==> r is Ok && r.unwrap()@ == self.buf@.subrange(
                start as int,
                start + len,
            ),
            start + len > MAX_BUFFER_SIZE ==> (r matches Err(e) && e == DnsError::BoundsError),
    {
        if len <= MAX_BUFFER_SIZE && start <= MAX_BUFFER_SIZE - len {
            Ok(&self.buf[start..start + len])
        } else {
            Err(DnsError::BoundsError)
        }
    }

    /// Read the byte under the cursor and advance past it.
    pub fn read(&mut self) -> (r: Result<u8, DnsError>)
        requires
            old(self).wf(),
        ensures
            final(self).wf(),
            final(self).buf == old(self).buf,
            old(self).pos < MAX_BUFFER_SIZE ==> r == Ok::<u8, DnsError>(
                old(self).buf@[old(self).pos as int],
            ) && final(self).pos == old(self).pos + 1,
            old(self).pos >= MAX_BUFFER_SIZE ==> r == Err::<u8, DnsError>(DnsError::BoundsError)
                && final(self).pos == old(self).pos,
    {
        if self.pos < MAX_BUFFER_SIZE {
            let v = self.buf[self.pos];
            self.pos = self.pos + 1;
            Ok(v)
        } else {
            Err(DnsError::BoundsError)
        }
    }

    /// Read two bytes under the cursor as one big-endian value.  The read
    /// is whole: when the pair does not fit, nothing moves.
    pub fn read_u16(&mut self) -> (r: Result<u16, DnsError>)
        requires
            old(self).wf(),
        ensures
            final(self).wf(),
            final(self).buf == old(self).buf,
            old(self).pos + 2 <= MAX_BUFFER_SIZE ==> r == Ok::<u16, DnsError>(
                combine16(old(self).buf@[old(self).pos as int], old(self).buf@[old(self).pos + 1]),
            ) && final(self).pos == old(self).pos + 2,
            old(self).pos + 2 > MAX_BUFFER_SIZE ==> r == Err::<u16, DnsError>(
                DnsError::BoundsError,
            ) && final(self).pos == old(self).pos,
    {
        if self.pos <= MAX_BUFFER_SIZE - 2 {
            let hi = self.buf[self.pos];
            let lo = self.buf[self.pos + 1];
            self.pos = self.pos + 2;
            let v = ((hi as u16) << 8) | (lo as u16);
            proof {
                assert(((hi as u16) << 8) | (lo as u16) == combine16(hi, lo)) by (bit_vector);
            }
            Ok(v)
        } else {
            Err(DnsError::BoundsError)
        }
    }

    /// Read four bytes under the cursor as one big-endian value.  The read
    /// is whole: when the four do not fit, nothing moves.
    pub fn read_u32(&mut self) -> (r: Result<u32, DnsError>)
        requires
            old(self).wf(),
        ensures
            final(self).wf(),
            final(self).buf == old(self).buf,
            old(self).pos + 4 <= MAX_BUFFER_SIZE ==> r == Ok::<u32, DnsError>(
                combine32(
                    old(self).buf@[old(self).pos as int],
                    old(self).buf@[old(self).pos + 1],
                    old(self).buf@[old(self).pos + 2],
                    old(self).buf@[old(self).pos + 3],
                ),
            ) && final(self).pos == old(self).pos + 4,
            old(self).pos + 4 > MAX_BUFFER_SIZE ==> r == Err::<u32, DnsError>(
                DnsError::BoundsError,
            ) && final(self).pos == old(self).pos,
    {
        if self.pos <= MAX_BUFFER_SIZE - 4 {
            let b0 = self.buf[self.pos];
            let b1 = self.buf[self.pos + 1];
            let b2 = self.buf[self.pos + 2];
            let b3 = self.buf[self.pos + 3];
            self.pos = self.pos + 4;
            let v = ((b0 as u32) << 24) | ((b1 as u32) << 16) | ((b2 as u32) << 8) | (b3 as u32);
            proof {
                assert(((b0 as u32) << 24) | ((b1 as u32) << 16) | ((b2 as u32) << 8) | (
                b3 as u32) == combine32(b0, b1, b2, b3)) by (bit_vector);
            }
            Ok(v)
        } else {
            Err(DnsError::BoundsError)
        }
    }

    /// Write one byte at the cursor and advance past it.
    pub fn write(&mut self, val: u8) -> (r: Result<(), DnsError>)
        requires
            old(self).wf(),
        ensures
            final(self).wf(),
            old(self).pos < MAX_BUFFER_SIZE ==> r == Ok::<(), DnsError>(()) && final(self).buf@
                == old(self).buf@.update(old(self).pos as int, val) && final(self).pos == old(self).pos + 1,
            old(self).pos >= MAX_BUFFER_SIZE ==> r == Err::<(), DnsError>(DnsError::BoundsError)
                && *final(self) == *old(self),
    {
        if self.pos < MAX_BUFFER_SIZE {
            self.buf[self.pos] = val;
            self.pos = self.pos + 1;
            Ok(())
        } else {
            Err(DnsError::BoundsError)
        }
    }

    /// Write one big-endian 16-bit value at the cursor.  The write is
    /// whole: when the pair does not fit, nothing changes.
    pub fn write_u16(&mut self, val: u16) -> (r: Result<(), DnsError>)
        requires
            old(self).wf(),
        ensures
            final(self).wf(),
            old(self).pos + 2 <= MAX_BUFFER_SIZE ==> r == Ok::<(), DnsError>(()) && final(self).buf@ == splice(old(self).buf@, old(self).pos as int, be16(val)) && final(self).pos
                == old(self).pos + 2,
            old(self).pos + 2 > MAX_BUFFER_SIZE ==> r == Err::<(), DnsError>(
                DnsError::BoundsError,
            ) && *final(self) == *old(self),
    {
        if self.pos <= MAX_BUFFER_SIZE - 2 {
            proof {
                assert((val >> 8) as u8 == (val / 256) as u8 && (val & 0xFF) as u8 == (val
                    % 256) as u8) by (bit_vector);
            }
            self.buf[self.pos] = (val >> 8) as u8;
            self.buf[self.pos + 1] = (val & 0xFF) as u8;
            self.pos = self.pos + 2;
            proof {
                assert(self.buf@ =~= splice(old(self).buf@, old(self).pos as int, be16(val)));
            }
            Ok(())
        } else {
            Err(DnsError::BoundsError)
        }
    }

    /// Write one big-endian 32-bit value at the cursor.  The write is
    /// whole: when the four bytes do not fit, nothing changes.
    pub fn write_u32(&mut self, val: u32) -> (r: Result<(), DnsError>)
        requires
            old(self).wf(),
        ensures
            final(self).wf(),
            old(self).pos + 4 <= MAX_BUFFER_SIZE ==> r == Ok::<(), DnsError>(()) && final(self).buf@ == splice(old(self).buf@, old(self).pos as int, be32(val)) && final(self).pos
                == old(self).pos + 4,
            old(self).pos + 4 > MAX_BUFFER_SIZE ==> r == Err::<(), DnsError>(
                DnsError::BoundsError,
            ) && *final(self) == *old(self),
    {
        if self.pos <= MAX_BUFFER_SIZE - 4 {
            proof {
                assert((val >> 24) as u8 == ((val / 0x10000) as u16 / 256) as u8 && ((val >> 16)
                    & 0xFF) as u8 == ((val / 0x10000) as u16 % 256) as u8 && ((val >> 8)
                    & 0xFF) as u8 == ((val % 0x10000) as u16 / 256) as u8 && (val & 0xFF) as u8 == (
                (val % 0x10000) as u16 % 256) as u8) by (bit_vector);
            }
            self.buf[self.pos] = (val >> 24) as u8;
            self.buf[self.pos + 1] = ((val >> 16) & 0xFF) as u8;
            self.buf[self.pos + 2] = ((val >> 8) & 0xFF) as u8;
            self.buf[self.pos + 3] = (val & 0xFF) as u8;
            self.pos = self.pos + 4;
            proof {
                assert(self.buf@ =~= splice(old(self).buf@, old(self).pos as int, be32(val)));
            }
            Ok(())
        } else {
            Err(DnsError::BoundsError)
        }
    }

    /// Write a run of bytes at the cursor.  The write is whole: when the
    /// run does not fit, nothing changes.
    pub fn write_all(&mut self, data: &[u8]) -> (r: Result<(), DnsError>)
        requires
            old(self).wf(),
        ensures
            final(self).wf(),
            old(self).pos + data@.len() <= MAX_BUFFER_SIZE ==> r == Ok::<(), DnsError>(()) && final(self).buf@ == splice(old(self).buf@, old(self).pos as int, data@) && final(self).pos == old(self).pos + data@.len(),
            old(self).pos + data@.len() > MAX_BUFFER_SIZE ==> r == Err::<(), DnsError>(
                DnsError::BoundsError,
            ) && *final(self) == *old(self),
    {
        if data.len() <= MAX_BUFFER_SIZE && self.pos <= MAX_BUFFER_SIZE - data.len() {
            let mut m: usize = 0;
            while m < data.len()
                invariant
                    self.wf(),
                    m <= data@.len(),
                    self.pos == old(self).pos + m,
                    old(self).pos + data@.len() <= MAX_BUFFER_SIZE,
                    self.buf@ == splice(old(self).buf@, old(self).pos as int, data@.take(m as int)),
                decreases data@.len() - m,
            {
                self.buf[self.pos] = data[m];
                self.pos = self.pos + 1;
                m = m + 1;
                proof {
                    assert(self.buf@ =~= splice(
                        old(self).buf@,
                        old(self).pos as int,
                        data@.take(m as int),
                    ));
                }
            }
            proof {
                assert(data@.take(data@.len() as int) =~= data@);
            }
            Ok(())
        } else {
            Err(DnsError::BoundsError)
        }
    }

    /// Overwrite the byte at `pos` without moving the cursor.
    pub fn set(&mut self, pos: usize, val: u8) -> (r: Result<(), DnsError>)
        requires
            old(self).wf(),
        ensures
            final(self).wf(),
            final(self).pos == old(self).pos,
            pos < MAX_BUFFER_SIZE ==> r == Ok::<(), DnsError>(()) && final(self).buf@ == old(self).buf@.update(pos as int, val),
            pos >= MAX_BUFFER_SIZE ==> r == Err::<(), DnsError>(DnsError::BoundsError) && *final(self) == *old(self),
    {
        if pos < MAX_BUFFER_SIZE {
            self.buf[pos] = val;
            Ok(())
        } else {
            Err(DnsError::BoundsError)
        }
    }

    /// Overwrite two bytes at `pos` with one big-endian 16-bit value,
    /// without moving the cursor.  The write is whole.
    pub fn set_u16(&mut self, pos: usize, val: u16) -> (r: Result<(), DnsError>)
        requires
            old(self).wf(),
        ensures
            final(self).wf(),
            final(self).pos == old(self).pos,
            pos + 2 <= MAX_BUFFER_SIZE ==> r == Ok::<(), DnsError>(()) && final(self).buf@
                == splice(old(self).buf@, pos as int, be16(val)),
            pos + 2 > MAX_BUFFER_SIZE ==> r == Err::<(), DnsError>(DnsError::BoundsError) && *final(self) == *old(self),
    {
        if pos <= MAX_BUFFER_SIZE - 2 {
            proof {
                assert((val >> 8) as u8 == (val / 256) as u8 && (val & 0xFF) as u8 == (val
                    % 256) as u8) by (bit_vector);
            }
            self.buf[pos] = (val >> 8) as u8;
            self.buf[pos + 1] = (val & 0xFF) as u8;
            proof {
                assert(self.buf@ =~= splice(old(self).buf@, pos as int, be16(val)));
            }
            Ok(())
        } else {
            Err(DnsError::BoundsError)
        }
    }
}

} // verus!
