//! Reading and writing bit-packed integers over a byte buffer.
//!
//! Bits are numbered from the start of the buffer, bit 0 of each byte
//! first; a value of `n` bits is stored with its least significant bit at
//! the lowest position.

use vstd::prelude::*;

verus! {

/// Bit `i` (0 to 7) of byte `b`.
pub open spec fn byte_bit(b: u8, i: int) -> bool {
    (b >> (i as u8)) & 1u8 == 1u8
}

/// The bits of a byte sequence, in stream order.
pub open spec fn bits_of(d: Seq<u8>) -> Seq<bool> {
    Seq::new(8 * d.len(), |k: int| byte_bit(d[k / 8], k % 8))
}

/// Bit `j` of `v`.
pub open spec fn value_bit(v: u64, j: int) -> bool {
    (v >> (j as u64)) & 1u64 == 1u64
}

/// The value of the `n` bits at `pos`, least significant first.
pub open spec fn bits_value(bits: Seq<bool>, pos: int, n: nat) -> u64
    decreases n,
{
    if n == 0 {
        0
    } else {
        bits_value(bits, pos, (n - 1) as nat) | (if bits[pos + n - 1] {
            1u64 << ((n - 1) as u64)
        } else {
            0u64
        })
    }
}

/// The low `n` bits of `v`.
pub open spec fn low_bits(v: u64, n: nat) -> u64 {
    if n >= 64 {
        v
    } else {
        v & (((1u64 << (n as u64)) - 1u64) as u64)
    }
}

/// `bits` with the `n` bits at `pos` replaced by the low `n` bits of `v`.
pub open spec fn bits_written(bits: Seq<bool>, pos: int, v: u64, n: nat) -> Seq<bool> {
    Seq::new(
        bits.len(),
        |k: int|
            if pos <= k < pos + n {
                value_bit(v, k - pos)
            } else {
                bits[k]
            },
    )
}

proof fn lemma_low_bits_step(v: u64, n: u64)
    requires
        1 <= n <= 64,
    ensures
        low_bits(v, n as nat) == low_bits(v, (n - 1) as nat) | (if value_bit(v, n - 1) {
            1u64 << ((n - 1) as u64)
        } else {
            0u64
        }),
{
    let m = (n - 1) as u64;
    if value_bit(v, n - 1) {
        if n == 64 {
            assert(v == (v & (((1u64 << m) - 1u64) as u64)) | (1u64 << m)) by (bit_vector)
                requires
                    m == 63,
                    (v >> m) & 1u64 == 1u64,
            ;
        } else {
            assert((v & (((1u64 << n) - 1u64) as u64)) == (v & (((1u64 << m) - 1u64) as u64)) | (1u64 << m))
                by (bit_vector)
                requires
                    m + 1 == n,
                    n < 64,
                    (v >> m) & 1u64 == 1u64,
            ;
        }
    } else {
        if n == 64 {
            assert(v == (v & (((1u64 << m) - 1u64) as u64)) | 0u64) by (bit_vector)
                requires
                    m == 63,
                    (v >> m) & 1u64 != 1u64,
            ;
        } else {
            assert((v & (((1u64 << n) - 1u64) as u64)) == (v & (((1u64 << m) - 1u64) as u64)) | 0u64)
                by (bit_vector)
                requires
                    m + 1 == n,
                    n < 64,
                    (v >> m) & 1u64 != 1u64,
            ;
        }
    }
}

/// Reading back `n` bits just written at `pos` gives the low `n` bits of
/// the value written.
pub proof fn lemma_read_after_write(bits: Seq<bool>, pos: int, v: u64, n: nat)
    requires
        0 <= pos,
        pos + n <= bits.len(),
        n <= 64,
    ensures
        bits_value(bits_written(bits, pos, v, n), pos, n) == low_bits(v, n),
    decreases n,
{
    if n == 0 {
        assert(v & (((1u64 << 0u64) - 1u64) as u64) == 0u64) by (bit_vector);
    } else {
        let w = bits_written(bits, pos, v, n);
        let w1 = bits_written(bits, pos, v, (n - 1) as nat);
        lemma_read_after_write(bits, pos, v, (n - 1) as nat);
        lemma_bits_value_prefix(w, w1, pos, (n - 1) as nat);
        lemma_low_bits_step(v, n as u64);
    }
}

/// The value of bits depends only on those bits.
pub proof fn lemma_bits_value_prefix(a: Seq<bool>, b: Seq<bool>, pos: int, n: nat)
    requires
        0 <= pos,
        pos + n <= a.len(),
        pos + n <= b.len(),
        forall|k: int| pos <= k < pos + n ==> a[k] == b[k],
    ensures
        bits_value(a, pos, n) == bits_value(b, pos, n),
    decreases n,
{
    if n > 0 {
        lemma_bits_value_prefix(a, b, pos, (n - 1) as nat);
    }
}

proof fn lemma_set_bit(x: u8, off: u8, b: bool)
    requires
        off < 8,
    ensures
        ({
            let y = if b {
                x | (1u8 << off)
            } else {
                x & !(1u8 << off)
            };
            &&& byte_bit(y, off as int) == b
            &&& forall|o: int| 0 <= o < 8 && o != off ==> byte_bit(y, o) == byte_bit(x, o)
        }),
{
    if b {
        let y = x | (1u8 << off);
        assert((y >> off) & 1u8 == 1u8) by (bit_vector)
            requires
                y == x | (1u8 << off),
                off < 8,
        ;
        assert forall|o: int| 0 <= o < 8 && o != off implies byte_bit(y, o) == byte_bit(x, o) by {
            let o8 = o as u8;
            assert((y >> o8) & 1u8 == (x >> o8) & 1u8) by (bit_vector)
                requires
                    y == x | (1u8 << off),
                    off < 8,
                    o8 < 8,
                    o8 != off,
            ;
        }
    } else {
        let y = x & !(1u8 << off);
        assert((y >> off) & 1u8 == 0u8) by (bit_vector)
            requires
                y == x & !(1u8 << off),
                off < 8,
        ;
        assert forall|o: int| 0 <= o < 8 && o != off implies byte_bit(y, o) == byte_bit(x, o) by {
            let o8 = o as u8;
            assert((y >> o8) & 1u8 == (x >> o8) & 1u8) by (bit_vector)
                requires
                    y == x & !(1u8 << off),
                    off < 8,
                    o8 < 8,
                    o8 != off,
            ;
        }
    }
}

/// A cursor over an owned byte buffer that reads and writes bit fields.
pub struct BitIo {
    data: Vec<u8>,
    byte_offset: usize,
    bit_offset: usize,
    byte_size: usize,
}

impl BitIo {
    /// The buffer's bits.
    pub closed spec fn bits(&self) -> Seq<bool> {
        bits_of(self.data@)
    }

    /// The buffer's bytes.
    pub closed spec fn buffer(&self) -> Seq<u8> {
        self.data@
    }

    /// The cursor, in bits from the start.
    pub closed spec fn position(&self) -> int {
        self.byte_offset * 8 + self.bit_offset
    }

    /// The number of bytes touched up to the cursor.
    pub closed spec fn size(&self) -> int {
        self.byte_size as int
    }

    pub closed spec fn wf(&self) -> bool {
        &&& self.bit_offset < 8
        &&& self.byte_offset * 8 + self.bit_offset <= 8 * self.data@.len()
        &&& self.byte_size <= self.data@.len()
    }

    /// A cursor at the start of `data`.
    pub fn new(data: Vec<u8>) -> (r: Self)
        ensures
            r.wf(),
            r.buffer() == data@,
            r.bits() == bits_of(data@),
            r.position() == 0,
            r.size() == 0,
    {
        BitIo { data, byte_offset: 0, bit_offset: 0, byte_size: 0 }
    }

    /// The number of whole bytes before the cursor.
    pub fn byte_offset(&self) -> (r: usize)
        requires
            self.wf(),
        ensures
            r == self.position() / 8,
    {
        self.byte_offset
    }

    /// The cursor's bit within its byte.
    pub fn bit_offset(&self) -> (r: usize)
        requires
            self.wf(),
        ensures
            r == self.position() % 8,
    {
        self.bit_offset
    }

    /// The number of bytes written up to the cursor, a partial byte counting
    /// as one.
    pub fn byte_size(&self) -> (r: usize)
        ensures
            r == self.size(),
    {
        self.byte_size
    }

    /// Reads `n` bits at the cursor and moves past them.
    pub fn read_bit(&mut self, n: usize) -> (r: u64)
        requires
            old(self).wf(),
            1 <= n <= 64,
            old(self).position() + n <= 8 * old(self).buffer().len(),
        ensures
            final(self).wf(),
            r == bits_value(old(self).bits(), old(self).position(), n as nat),
            final(self).position() == old(self).position() + n,
            final(self).buffer() == old(self).buffer(),
            final(self).bits() == old(self).bits(),
            final(self).size() == old(self).size(),
    {
        let ghost p0 = self.position();
        let ghost bits = self.bits();
        let mut result: u64 = 0;
        let mut i: usize = 0;
        while i < n
            invariant
                self.wf(),
                i <= n <= 64,
                self.position() == p0 + i,
                p0 + n <= 8 * self.data@.len(),
                bits == bits_of(self.data@),
                self.data@ == old(self).data@,
                self.byte_size == old(self).byte_size,
                result == bits_value(bits, p0, i as nat),
            decreases n - i,
        {
            let _len = self.data.len();
            let byte = self.data[self.byte_offset];
            let bit = (byte >> (self.bit_offset as u8)) & 1u8;
            proof {
                let k = p0 + i;
                assert(k / 8 == self.byte_offset as int && k % 8 == self.bit_offset as int);
                assert(bits[k] == (bit == 1u8));
            }
            if bit == 1u8 {
                result = result | (1u64 << (i as u64));
            } else {
                assert(result | 0u64 == result) by (bit_vector);
            }
            self.bit_offset = self.bit_offset + 1;
            if self.bit_offset == 8 {
                self.byte_offset = self.byte_offset + 1;
                self.bit_offset = 0;
            }
            i += 1;
        }
        result
    }

    /// Writes the low `n` bits of `v` at the cursor and moves past them.
    pub fn write_bit(&mut self, v: u64, n: usize)
        requires
            old(self).wf(),
            1 <= n <= 64,
            old(self).position() + n <= 8 * old(self).buffer().len(),
        ensures
            final(self).wf(),
            final(self).bits() == bits_written(old(self).bits(), old(self).position(), v, n as nat),
            final(self).buffer().len() == old(self).buffer().len(),
            final(self).position() == old(self).position() + n,
            final(self).size() == (final(self).position() + 7) / 8,
    {
        let ghost p0 = self.position();
        let ghost bits0 = self.bits();
        let mut i: usize = 0;
        while i < n
            invariant
                self.wf(),
                i <= n <= 64,
                self.position() == p0 + i,
                p0 + n <= 8 * self.data@.len(),
                self.data@.len() == old(self).data@.len(),
                bits0.len() == 8 * self.data@.len(),
                bits_of(self.data@) == bits_written(bits0, p0, v, i as nat),
            decreases n - i,
        {
            let _len = self.data.len();
            let b = (v >> (i as u64)) & 1u64 == 1u64;
            let idx = self.byte_offset;
            let off = self.bit_offset as u8;
            let x = self.data[idx];
            let y = if b {
                x | (1u8 << off)
            } else {
                x & !(1u8 << off)
            };
            proof {
                lemma_set_bit(x, off, b);
            }
            let ghost before = self.data@;
            self.data.set(idx, y);
            proof {
                let k0 = p0 + i;
                assert(k0 / 8 == idx as int && k0 % 8 == off as int);
                assert(bits_of(self.data@) =~= bits_written(bits0, p0, v, (i + 1) as nat)) by {
                    assert forall|k: int| 0 <= k < bits0.len() implies #[trigger] bits_of(
                        self.data@,
                    )[k] == bits_written(bits0, p0, v, (i + 1) as nat)[k] by {
                        let nb = bits_of(self.data@);
                        if k / 8 == idx as int {
                            assert(0 <= k % 8 < 8);
                            assert(self.data@[k / 8] == y);
                            assert(nb[k] == byte_bit(y, k % 8));
                            if k == k0 {
                                assert(nb[k] == b);
                            } else {
                                assert(k % 8 != off as int);
                                assert(nb[k] == byte_bit(x, k % 8));
                                assert(bits_of(before)[k] == byte_bit(x, k % 8));
                            }
                        } else {
                            assert(self.data@[k / 8] == before[k / 8]);
                            assert(nb[k] == bits_of(before)[k]);
                        }
                    }
                }
            }
            self.bit_offset = self.bit_offset + 1;
            if self.bit_offset == 8 {
                self.byte_offset = self.byte_offset + 1;
                self.bit_offset = 0;
            }
            i += 1;
        }
        let _len = self.data.len();
        self.byte_size = self.byte_offset + (self.bit_offset + 7) / 8;
    }

    /// The bits are those of the buffer's bytes.
    pub proof fn lemma_bits_of_buffer(&self)
        ensures
            self.bits() == bits_of(self.buffer()),
            self.wf() ==> 0 <= self.size() <= self.buffer().len() && 0 <= self.position() <= 8
                * self.buffer().len(),
    {
    }

    /// The written bytes, up to the byte size.
    pub fn bytes(self) -> (r: Vec<u8>)
        requires
            self.wf(),
        ensures
            r@ == self.buffer().take(self.size()),
    {
        let mut d = self.data;
        d.truncate(self.byte_size);
        d
    }
}

} // verus!
