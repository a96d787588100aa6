//! MSB-first writer of raw byte sequence payloads: fixed-width `u(n)` fields,
//! the `ue(v)` / `se(v)` Exp-Golomb codes, the trailing bits and byte
//! alignment. Emulation prevention is not applied here: it belongs to the NAL
//! encapsulation.
use vstd::prelude::*;
use vstd::arithmetic::power2::{lemma2_to64, lemma_pow2_pos, lemma_pow2_unfold, pow2};
use crate::bits::{
    aligned, be_bits, bit_at, bytes_bits, lemma_bytes_bits_concat, lemma_bytes_bits_push, lemma_pack_unique,
    lemma_set_bit, lemma_u64_bit, lemma_width_unique, pack, padding, se_bits, ue_bits, width, zeros,
};

verus! {

/// MSB-first bit accumulator over a growable byte buffer. Its view is the
/// sequence of bits written so far.
#[derive(Debug, Clone)]
pub struct BitWriter {
    buf: Vec<u8>,
    /// Bits already used in the trailing partial byte (0..=7). When 0,
    /// the writer is byte-aligned and `buf` holds only complete bytes.
    partial_bits: u8,
}

impl View for BitWriter {
    type V = Seq<bool>;

    closed spec fn view(&self) -> Seq<bool> {
        bytes_bits(self.buf@).take(self.written())
    }
}

impl Default for BitWriter {
    /// A fresh, empty, byte-aligned writer.
    fn default() -> (w: Self)
        ensures
            w.wf(),
            w@ == Seq::<bool>::empty(),
    {
        BitWriter::new()
    }
}

impl BitWriter {
    spec fn written(&self) -> int {
        if self.partial_bits == 0 {
            8 * self.buf.len() as int
        } else {
            8 * (self.buf.len() - 1) + self.partial_bits
        }
    }

    /// The trailing partial byte exists when it is counted, and its unused bits are zero.
    pub closed spec fn wf(&self) -> bool {
        &&& self.partial_bits < 8
        &&& self.partial_bits > 0 ==> self.buf.len() > 0
        &&& forall|i: int|
            self.written() <= i < 8 * self.buf.len() ==> !#[trigger] bytes_bits(self.buf@)[i]
    }

    /// Largest `codeNum` a `ue(v)` codeword may carry. One more would need a
    /// 33-bit codeword with a 32-zero prefix, which is outside the range that
    /// a conforming stream holds and that any conforming decoder accepts.
    pub const MAX_UE: u32 = u32::MAX - 1;

    /// Most negative value `se(v)` can carry: it maps to [`Self::MAX_UE`].
    pub const MIN_SE: i32 = i32::MIN + 1;

    /// Most positive value `se(v)` can carry.
    pub const MAX_SE: i32 = i32::MAX;

    /// A fresh, empty, byte-aligned writer.
    #[must_use]
    pub fn new() -> (w: Self)
        ensures
            w.wf(),
            w@ == Seq::<bool>::empty(),
    {
        let w = BitWriter { buf: Vec::new(), partial_bits: 0 };
        assert(w@ =~= Seq::<bool>::empty());
        w
    }

    /// Total bits written so far.
    #[must_use]
    pub fn bit_len(&self) -> (n: usize)
        requires
            self.wf(),
            self@.len() <= usize::MAX,
        ensures
            n == self@.len(),
    {
        if self.partial_bits == 0 {
            self.buf.len() * 8
        } else {
            (self.buf.len() - 1) * 8 + self.partial_bits as usize
        }
    }

    /// Whether the next bit starts a byte.
    #[must_use]
    pub fn byte_aligned(&self) -> (b: bool)
        requires
            self.wf(),
        ensures
            b == (self@.len() % 8 == 0),
    {
        self.partial_bits == 0
    }

    /// Append a single bit (the low bit of `bit`).
    pub fn put_bit(&mut self, bit: u8)
        requires
            old(self).wf(),
        ensures
            final(self).wf(),
            final(self)@ == old(self)@.push(bit % 2 == 1),
    {
        let ghost before = self@;
        let ghost len0 = self.written();
        if self.partial_bits == 0 {
            self.buf.push(0);
            proof {
                lemma_bytes_bits_push(old(self).buf@, 0);
                lemma_zero_byte();
            }
        }
        let n: usize = self.buf.len();
        let ghost mid = self.buf@;
        let p: u8 = self.partial_bits;
        let b: u8 = bit & 1;
        assert(b == bit % 2) by (bit_vector)
            requires
                b == bit & 1,
        ;
        proof {
            assert(len0 == 8 * (n - 1) + p);
            assert(len0 / 8 == n - 1 && len0 % 8 == p);
            assert(!bytes_bits(mid)[len0]);
            lemma_set_bit(mid[n - 1], b, p);
        }
        self.buf.set(n - 1, self.buf[n - 1] | (b << (7 - p)));
        self.partial_bits = if p == 7 {
            0
        } else {
            p + 1
        };
        proof {
            assert(self.written() == len0 + 1);
            assert forall|i: int| 0 <= i < 8 * n implies #[trigger] bytes_bits(self.buf@)[i] == if i == len0 {
                b == 1
            } else {
                bytes_bits(mid)[i]
            } by {
                if i / 8 == n - 1 {
                    let j = 7 - i % 8;
                    assert(bit_at(self.buf@[n - 1] as nat, j as nat) == if j == 7 - p {
                        b == 1
                    } else {
                        bit_at(mid[n - 1] as nat, j as nat)
                    });
                }
            }
            assert(self@ =~= before.push(bit % 2 == 1));
        }
    }

    /// Append the `n` low bits of `value`, most significant first
    /// (`u(n)` / `f(n)`). `n == 0` writes nothing; `n <= 32`.
    ///
    /// Whole bytes are appended directly once the writer is byte-aligned.
    pub fn put_bits(&mut self, value: u32, n: u8)
        requires
            old(self).wf(),
            n <= 32,
        ensures
            final(self).wf(),
            final(self)@ == old(self)@ + be_bits(value as nat, n as nat),
    {
        let ghost before = self@;
        let mut left: u8 = n;
        let v: u64 = value as u64;
        assert(self@ =~= before + be_bits(value as nat, n as nat).take(0));
        while left > 0
            invariant
                left <= n <= 32,
                v == value as u64,
                self.wf(),
                self@ == before + be_bits(value as nat, n as nat).take(n - left),
            decreases left,
        {
            let ghost prev = self@;
            if self.partial_bits == 0 && left >= 8 {
                left = left - 8;
                let shifted: u64 = v >> (left as u64);
                let byte: u8 = (shifted & 0xff) as u8;
                let ghost buf0 = self.buf@;
                self.buf.push(byte);
                proof {
                    lemma_bytes_bits_push(buf0, byte);
                    assert(prev =~= bytes_bits(buf0));
                    assert(self@ =~= bytes_bits(self.buf@));
                    assert(byte as u64 == shifted % 256) by (bit_vector)
                        requires
                            byte == (shifted & 0xff) as u8,
                    ;
                    lemma_byte_of_shift(v, left as u64, byte);
                    assert(self@ =~= before + be_bits(value as nat, n as nat).take(n - left));
                }
            } else {
                left = left - 1;
                let bit: u8 = ((v >> (left as u64)) & 1) as u8;
                proof {
                    lemma_u64_bit(v, left as u64);
                    let x = v >> (left as u64);
                    assert(bit as u64 == x & 1 && bit <= 1) by (bit_vector)
                        requires
                            bit == (x & 1) as u8,
                    ;
                }
                self.put_bit(bit);
                assert(self@ =~= before + be_bits(value as nat, n as nat).take(n - left));
            }
        }
        assert(be_bits(value as nat, n as nat).take(n as int) =~= be_bits(value as nat, n as nat));
    }

    /// Append whole bytes, most significant bit of each byte first: a bulk
    /// copy when the writer is byte-aligned.
    pub fn put_bytes(&mut self, bytes: &[u8])
        requires
            old(self).wf(),
        ensures
            final(self).wf(),
            final(self)@ == old(self)@ + bytes_bits(bytes@),
    {
        let ghost before = self@;
        if self.partial_bits == 0 {
            let ghost buf0 = self.buf@;
            self.buf.extend_from_slice(bytes);
            proof {
                assert(self.buf@ =~= buf0 + bytes@);
                lemma_bytes_bits_concat(buf0, bytes@);
                assert(before =~= bytes_bits(buf0));
                assert(self@ =~= bytes_bits(self.buf@));
            }
        } else {
            let mut i: usize = 0;
            assert(self@ =~= before + bytes_bits(bytes@.take(0)));
            while i < bytes.len()
                invariant
                    i <= bytes.len(),
                    self.wf(),
                    self@ == before + bytes_bits(bytes@.take(i as int)),
                decreases bytes.len() - i,
            {
                self.put_bits(bytes[i] as u32, 8);
                proof {
                    lemma_bytes_bits_push(bytes@.take(i as int), bytes@[i as int]);
                    assert(bytes@.take(i + 1) =~= bytes@.take(i as int).push(bytes@[i as int]));
                    assert(self@ =~= before + bytes_bits(bytes@.take(i + 1)));
                }
                i = i + 1;
            }
            assert(bytes@.take(i as int) =~= bytes@);
        }
    }

    /// 0-th order Exp-Golomb code, unsigned (`ue(v)`).
    pub fn ue(&mut self, value: u32)
        requires
            old(self).wf(),
            value <= Self::MAX_UE,
        ensures
            final(self).wf(),
            final(self)@ == old(self)@ + ue_bits(value as nat),
    {
        let ghost before = self@;
        let code_num: u32 = value + 1;
        let bits: u8 = bit_width(code_num);
        self.put_bits(0, bits - 1);
        self.put_bits(code_num, bits);
        proof {
            assert(be_bits(0, (bits - 1) as nat) =~= zeros((bits - 1) as nat)) by {
                assert forall|i: nat| !bit_at(0, i) by {
                    lemma_pow2_pos(i);
                }
            }
            assert(self@ =~= before + ue_bits(value as nat));
        }
    }

    /// 0-th order Exp-Golomb code, signed (`se(v)`).
    pub fn se(&mut self, value: i32)
        requires
            old(self).wf(),
            value >= Self::MIN_SE,
        ensures
            final(self).wf(),
            final(self)@ == old(self)@ + se_bits(value as int),
    {
        let code_num: u32 = if value > 0 {
            (2 * (value as i64) - 1) as u32
        } else {
            (2 * (0 - value as i64)) as u32
        };
        self.ue(code_num);
    }

    /// `rbsp_trailing_bits()`: a one bit, then zero bits to the byte boundary.
    pub fn rbsp_trailing_bits(&mut self)
        requires
            old(self).wf(),
        ensures
            final(self).wf(),
            final(self)@ == aligned(old(self)@.push(true)),
    {
        self.put_bit(1);
        self.align_zero();
    }

    /// Append zero bits until byte-aligned.
    pub fn align_zero(&mut self)
        requires
            old(self).wf(),
        ensures
            final(self).wf(),
            final(self)@ == aligned(old(self)@),
    {
        // Partial bytes are pushed zeroed and only ever ORed into, so the
        // padding bits are already zero; only the counter has to move.
        let ghost before = self@;
        let ghost len0 = self.written();
        self.partial_bits = 0;
        proof {
            assert(self@ =~= aligned(before));
        }
    }

    /// Consume the writer and return the accumulated bytes. Any trailing
    /// partial byte is zero-padded.
    #[must_use]
    pub fn finish(self) -> (bytes: Vec<u8>)
        requires
            self.wf(),
        ensures
            bytes@ == pack(self@),
    {
        proof {
            self.lemma_buf();
        }
        self.buf
    }

    /// Borrow the bytes written so far (trailing partial byte included,
    /// zero-padded).
    #[must_use]
    pub fn as_bytes(&self) -> (bytes: &[u8])
        requires
            self.wf(),
        ensures
            bytes@ == pack(self@),
    {
        proof {
            self.lemma_buf();
        }
        self.buf.as_slice()
    }

    proof fn lemma_buf(&self)
        requires
            self.wf(),
        ensures
            self.buf@ == pack(self@),
    {
        assert(bytes_bits(self.buf@) =~= aligned(self@));
        lemma_pack_unique(self@, self.buf@);
    }
}

proof fn lemma_zero_byte()
    ensures
        forall|j: int| 0 <= j < 8 ==> !be_bits(0, 8)[j],
{
    assert forall|j: int| 0 <= j < 8 implies !be_bits(0, 8)[j] by {
        lemma_pow2_pos((7 - j) as nat);
    }
}

/// The byte of `v` that starts at bit `shift` holds the eight digits from there up.
proof fn lemma_byte_of_shift(v: u64, shift: u64, byte: u8)
    requires
        shift <= 56,
        byte == (v >> shift) % 256,
    ensures
        forall|j: int| 0 <= j < 8 ==> #[trigger] be_bits(byte as nat, 8)[j] == bit_at(v as nat, (shift + 7 - j) as nat),
{
    assert forall|j: int| 0 <= j < 8 implies #[trigger] be_bits(byte as nat, 8)[j] == bit_at(
        v as nat,
        (shift + 7 - j) as nat,
    ) by {
        let k = (7 - j) as u64;
        let t = (shift + k) as u64;
        let wide = byte as u64;
        lemma_u64_bit(wide, k);
        lemma_u64_bit(v, t);
        assert((wide >> k) & 1 == (v >> t) & 1) by (bit_vector)
            requires
                wide == (v >> shift) % 256,
                k < 8,
                shift <= 56,
                t == shift + k,
        ;
    }
}

/// The number of binary digits of a positive `v`.
pub fn bit_width(v: u32) -> (w: u8)
    requires
        v > 0,
    ensures
        w == width(v as nat),
        1 <= w <= 32,
{
    let mut w: u8 = 1;
    let mut top: u64 = 2;
    proof {
        lemma2_to64();
    }
    while top <= v as u64
        invariant
            1 <= w <= 32,
            top == pow2(w as nat),
            pow2((w - 1) as nat) <= v,
            v <= u32::MAX,
        decreases 33 - w,
    {
        proof {
            lemma2_to64();
            if w == 32 {
                assert(pow2(32) == 0x1_0000_0000);
            }
            lemma_pow2_unfold((w + 1) as nat);
            lemma_pow2_pos(w as nat);
        }
        w = w + 1;
        top = top * 2;
    }
    proof {
        lemma_width_unique(v as nat, w as nat);
    }
    w
}

} // verus!
