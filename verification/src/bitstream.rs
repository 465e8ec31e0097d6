//! Bit-granularity reading and writing over byte buffers, MSB-first: bit 0 of
//! a byte sits at mask `1 << 7`.

use vstd::prelude::*;

verus! {

/// Value (0 or 1) of bit `i` of byte `b`, counting the most significant bit
/// as bit 0.
pub open spec fn byte_bit(b: u8, i: int) -> u8 {
    if b & (1u8 << ((7 - i) as u8)) == 0 {
        0u8
    } else {
        1u8
    }
}

/// Value of bit `k` of a byte sequence, MSB-first within each byte.
pub open spec fn bit_at(bytes: Seq<u8>, k: int) -> u8 {
    byte_bit(bytes[k / 8], k % 8)
}

proof fn lemma_zero_byte_bits(i: int)
    requires
        0 <= i < 8,
    ensures
        byte_bit(0u8, i) == 0u8,
{
    let j = (7 - i) as u8;
    assert(0u8 & (1u8 << j) == 0) by (bit_vector);
}

proof fn lemma_or_sets_bit(b: u8, i: int, j: int)
    requires
        0 <= i < 8,
        0 <= j < 8,
    ensures
        byte_bit(b | (1u8 << ((7 - i) as u8)), j) == if i == j {
            1u8
        } else {
            byte_bit(b, j)
        },
{
    let bi = (7 - i) as u8;
    let bj = (7 - j) as u8;
    if i == j {
        assert(bi < 8 ==> ((b | (1u8 << bi)) & (1u8 << bi) != 0)) by (bit_vector);
    } else {
        assert(bi != bj);
        assert(bi < 8 && bj < 8 && bi != bj ==> ((b | (1u8 << bi)) & (1u8 << bj) == b & (1u8
            << bj))) by (bit_vector);
    }
}

/// Write-only bit stream over an owned, growable byte buffer.
pub struct BitStreamWriter {
    pub data: Vec<u8>,
    pub byte_ptr: usize,
    pub bit_ptr: usize,
}

impl BitStreamWriter {
    /// The sequence of bits written so far, each element 0 or 1.
    pub closed spec fn view(&self) -> Seq<u8> {
        Seq::new((8 * self.byte_ptr + self.bit_ptr) as nat, |k: int| bit_at(self.data@, k))
    }

    /// Internal consistency: the buffer holds exactly the written bits, padded
    /// with zero bits up to the last byte boundary.
    pub closed spec fn wf(&self) -> bool {
        &&& self.bit_ptr < 8
        &&& 8 * self.byte_ptr + self.bit_ptr <= usize::MAX
        &&& self.data@.len() == self.byte_ptr + if self.bit_ptr == 0 {
            0int
        } else {
            1int
        }
        &&& forall|k: int|
            8 * self.byte_ptr + self.bit_ptr <= k < 8 * self.data@.len() ==> bit_at(
                self.data@,
                k,
            ) == 0u8
    }

    pub fn new() -> (r: Self)
        ensures
            r.wf(),
            r@ == Seq::<u8>::empty(),
            r.data@ == Seq::<u8>::empty(),
    {
        let r = BitStreamWriter { data: Vec::new(), byte_ptr: 0, bit_ptr: 0 };
        proof {
            assert(r@ =~= Seq::<u8>::empty());
        }
        r
    }

    /// Appends one bit: a 1 when `bit == 1`, a 0 otherwise, growing the buffer
    /// by a zero byte whenever a fresh byte is started.
    pub fn write(&mut self, bit: u8)
        requires
            old(self).wf(),
            old(self)@.len() < usize::MAX,
        ensures
            final(self).wf(),
            final(self)@ == old(self)@.push(
                if bit == 1 {
                    1u8
                } else {
                    0u8
                },
            ),
    {
        let ghost prev = *self;
        if self.data.len() <= self.byte_ptr {
            self.data.push(0);
            proof {
                assert forall|k: int|
                    8 * self.byte_ptr + self.bit_ptr <= k < 8 * self.data@.len() implies bit_at(
                    self.data@,
                    k,
                ) == 0u8 by {
                    if k / 8 < prev.data@.len() {
                        assert(bit_at(self.data@, k) == bit_at(prev.data@, k));
                    } else {
                        assert(k / 8 == prev.data@.len());
                        lemma_zero_byte_bits(k % 8);
                    }
                }
            }
        }
        let ghost mid = *self;
        let pos = self.bit_ptr;
        if bit == 1 {
            let shifted: u8 = 1u8 << ((7 - pos) as u8);
            let b = self.data[self.byte_ptr];
            self.data.set(self.byte_ptr, b | shifted);
        }
        proof {
            let w = 8 * self.byte_ptr + self.bit_ptr;
            assert forall|k: int| 0 <= k < 8 * self.data@.len() implies bit_at(
                self.data@,
                k,
            ) == (if k == w {
                if bit == 1 {
                    1u8
                } else {
                    0u8
                }
            } else {
                bit_at(mid.data@, k)
            }) by {
                if bit == 1 {
                    if k / 8 == self.byte_ptr {
                        lemma_or_sets_bit(mid.data@[k / 8], self.bit_ptr as int, k % 8);
                        assert(w / 8 == self.byte_ptr && w % 8 == self.bit_ptr);
                    } else {
                        assert(bit_at(self.data@, k) == bit_at(mid.data@, k));
                    }
                } else {
                    assert(bit_at(self.data@, k) == bit_at(mid.data@, k));
                }
            }
        }
        proof {
            let w = 8 * self.byte_ptr + self.bit_ptr;
            assert(mid.data@.len() == self.byte_ptr + 1);
            assert(forall|k: int|
                w < k < 8 * self.data@.len() ==> bit_at(self.data@, k) == bit_at(mid.data@, k)
                    && bit_at(mid.data@, k) == 0u8);
        }
        self.bit_ptr += 1;
        if self.bit_ptr == 8 {
            self.bit_ptr = 0;
            self.byte_ptr += 1;
        }
        proof {
            assert(self@ =~= prev@.push(
                if bit == 1 {
                    1u8
                } else {
                    0u8
                },
            ));
        }
    }

    /// Number of bits written so far.
    pub fn total_bits(&self) -> (r: usize)
        requires
            self.wf(),
        ensures
            r == self@.len(),
    {
        8 * self.byte_ptr + self.bit_ptr
    }

    /// The written bits land in the buffer in order, MSB-first: bit `k` of
    /// the stream is bit `k % 8` of byte `k / 8`, and the buffer is exactly
    /// as long as needed.
    pub proof fn lemma_buffer_bits(&self)
        requires
            self.wf(),
        ensures
            8 * self.data@.len() < self@.len() + 8,
            self@.len() <= 8 * self.data@.len(),
            forall|k: int| 0 <= k < self@.len() ==> bit_at(self.data@, k) == self@[k],
            forall|k: int| self@.len() <= k < 8 * self.data@.len() ==> bit_at(self.data@, k) == 0u8,
    {
    }
}

/// Read-only bit stream over a borrowed byte buffer.
pub struct BitStreamReader<'a> {
    pub data: &'a [u8],
    pub byte_ptr: usize,
    pub bit_ptr: usize,
}

impl<'a> BitStreamReader<'a> {
    /// Number of bits consumed so far.
    pub closed spec fn pos(&self) -> int {
        8 * self.byte_ptr + self.bit_ptr
    }

    pub closed spec fn wf(&self) -> bool {
        &&& self.bit_ptr < 8
        &&& 8 * self.byte_ptr + self.bit_ptr <= 8 * self.data@.len()
        &&& 8 * self.data@.len() <= usize::MAX
    }

    pub fn from_bytes(data: &'a [u8]) -> (r: Self)
        requires
            8 * data@.len() <= usize::MAX,
        ensures
            r.wf(),
            r.data@ == data@,
            r.pos() == 0,
    {
        BitStreamReader { data, byte_ptr: 0, bit_ptr: 0 }
    }

    /// Returns the next bit of the buffer, MSB-first.
    pub fn read(&mut self) -> (r: u8)
        requires
            old(self).wf(),
            old(self).pos() < 8 * old(self).data@.len(),
        ensures
            final(self).wf(),
            final(self).data@ == old(self).data@,
            final(self).pos() == old(self).pos() + 1,
            r == bit_at(old(self).data@, old(self).pos()),
    {
        proof {
            assert(self.byte_ptr < self.data@.len());
        }
        let byte = self.data[self.byte_ptr];
        let sh: u8 = (7 - self.bit_ptr) as u8;
        let bit = (byte >> sh) & 1;
        proof {
            let i = self.bit_ptr as u8;
            assert(i < 8 ==> ((byte >> (7 - i) as u8) & 1 == if byte & (1u8 << ((7 - i) as u8))
                == 0 {
                0u8
            } else {
                1u8
            })) by (bit_vector);
            assert(self.pos() / 8 == self.byte_ptr as int && self.pos() % 8 == self.bit_ptr as int);
        }
        self.bit_ptr += 1;
        if self.bit_ptr == 8 {
            self.bit_ptr = 0;
            self.byte_ptr += 1;
        }
        bit
    }

    /// Number of bytes the consumed bits span, the last partial byte counted
    /// whole.
    pub fn total_bytes(&self) -> (r: usize)
        requires
            self.wf(),
        ensures
            r == (self.pos() + 7) / 8,
    {
        if self.bit_ptr > 0 {
            self.byte_ptr + 1
        } else {
            self.byte_ptr
        }
    }

    /// Number of bits consumed so far.
    pub fn total_bits(&self) -> (r: usize)
        requires
            self.wf(),
        ensures
            r == self.pos(),
    {
        8 * self.byte_ptr + self.bit_ptr
    }
}

/// Bit round-trip: every bit written to a `BitStreamWriter` is read back
/// unchanged, in order, by a `BitStreamReader` built over the written buffer;
/// `read` returns exactly `bit_at(data, k)` for the `k`-th call, which here
/// equals the `k`-th written bit.
pub proof fn lemma_bit_round_trip(w: BitStreamWriter, k: int)
    requires
        w.wf(),
        0 <= k < w@.len(),
    ensures
        bit_at(w.data@, k) == w@[k],
{
    w.lemma_buffer_bits();
}

} // verus!
