//! MSB-first reader of raw byte sequence payloads: fixed-width `u(n)` fields
//! and the `ue(v)` / `se(v)` Exp-Golomb codes.
use vstd::prelude::*;
use vstd::arithmetic::power2::{lemma2_to64, lemma_pow2_pos, lemma_pow2_strictly_increases, lemma_pow2_unfold, pow2};
use crate::bits::{
    be_bits, be_value, bit_at, bytes_bits, lemma_be_bits_roundtrip, lemma_be_value_bound, lemma_u8_bit, lemma_width,
    padding, se_bits, se_code_num, ue_bits, width, zeros,
};
use crate::bitwriter::BitWriter;

verus! {

/// Why a field could not be read.
#[derive(Debug, Clone, Copy, PartialEq, Eq, Structural)]
pub enum BitReaderError {
    /// Fewer bits are left than the field needs.
    EndOfBuffer,
    /// An Exp-Golomb code starts with 32 zeros or more.
    ExpGolombOverflow,
}

/// A position in a byte string. Its view is the sequence of bits still to be read.
#[derive(Debug, Clone, Copy)]
pub struct BitReader<'a> {
    data: &'a [u8],
    byte: usize,
    bit: u8,
}

impl<'a> View for BitReader<'a> {
    type V = Seq<bool>;

    closed spec fn view(&self) -> Seq<bool> {
        bytes_bits(self.data@).skip(self.at())
    }
}

/// How many zeros `s` starts with.
pub open spec fn leading_zeros(s: Seq<bool>) -> nat
    decreases s.len(),
{
    if s.len() == 0 || s[0] {
        0
    } else {
        1 + leading_zeros(s.skip(1))
    }
}

/// The `u(n)` field at the front of `s`, and the bits behind it.
pub open spec fn read_u(s: Seq<bool>, n: nat) -> Result<(nat, Seq<bool>), BitReaderError> {
    if s.len() < n {
        Err(BitReaderError::EndOfBuffer)
    } else {
        Ok((be_value(s.take(n as int)), s.skip(n as int)))
    }
}

/// The `ue(v)` code at the front of `s`, and the bits behind it: after `z`
/// zeros, `z + 1` digits of the value plus one.
pub open spec fn read_ue(s: Seq<bool>) -> Result<(nat, Seq<bool>), BitReaderError> {
    let z = leading_zeros(s) as int;
    if z >= 32 {
        Err(BitReaderError::ExpGolombOverflow)
    } else if s.len() < 2 * z + 1 {
        Err(BitReaderError::EndOfBuffer)
    } else {
        Ok(((be_value(s.subrange(z, 2 * z + 1)) - 1) as nat, s.skip(2 * z + 1)))
    }
}

/// The signed value that a `codeNum` stands for.
pub open spec fn se_value(code_num: nat) -> int {
    if code_num % 2 == 1 {
        (code_num as int + 1) / 2
    } else {
        -(code_num as int / 2)
    }
}

/// The `se(v)` code at the front of `s`, and the bits behind it.
pub open spec fn read_se(s: Seq<bool>) -> Result<(int, Seq<bool>), BitReaderError> {
    match read_ue(s) {
        Ok((code_num, rest)) => Ok((se_value(code_num), rest)),
        Err(e) => Err(e),
    }
}

impl<'a> BitReader<'a> {
    spec fn at(&self) -> int {
        8 * self.byte + self.bit
    }

    /// The position lies inside the data or at its end.
    pub closed spec fn wf(&self) -> bool {
        &&& self.bit < 8
        &&& self.byte < self.data.len() || (self.byte == self.data.len() && self.bit == 0)
    }

    /// How many bits have been read.
    pub closed spec fn position(&self) -> int {
        self.at()
    }

    /// A reader at the start of `data`.
    pub fn new(data: &'a [u8]) -> (r: Self)
        ensures
            r.wf(),
            r.position() == 0,
            r@ == bytes_bits(data@),
    {
        let r = BitReader { data, byte: 0, bit: 0 };
        assert(r@ =~= bytes_bits(data@));
        r
    }

    /// Read a single bit.
    pub fn u1(&mut self) -> (r: Result<u8, BitReaderError>)
        requires
            old(self).wf(),
        ensures
            final(self).wf(),
            match r {
                Ok(b) => old(self)@.len() > 0 && b == (if old(self)@[0] {
                    1u8
                } else {
                    0u8
                }) && final(self)@ == old(self)@.skip(1) && final(self).position() == old(self).position() + 1,
                Err(e) => old(self)@.len() == 0 && e == BitReaderError::EndOfBuffer && *final(self) == *old(self),
            },
    {
        if self.byte >= self.data.len() {
            return Err(BitReaderError::EndOfBuffer);
        }
        let v: u8 = self.data[self.byte];
        let b: u8 = (v >> (7 - self.bit)) & 1;
        proof {
            let i = self.at();
            assert(i / 8 == self.byte && i % 8 == self.bit);
            lemma_u8_bit(v, (7 - self.bit) as u8);
            let t = v >> ((7 - self.bit) as u8);
            assert(t & 1 == 0 || t & 1 == 1) by (bit_vector);
            assert(self@[0] == bit_at(v as nat, (7 - self.bit) as nat));
        }
        let ghost before = *self;
        if self.bit == 7 {
            self.bit = 0;
            self.byte = self.byte + 1;
        } else {
            self.bit = self.bit + 1;
        }
        assert(self@ =~= before@.skip(1));
        Ok(b)
    }

    /// Read an `n`-bit field, most significant bit first. A field that does not
    /// fit in what is left is not consumed.
    pub fn u(&mut self, n: u8) -> (r: Result<u32, BitReaderError>)
        requires
            old(self).wf(),
            n <= 32,
        ensures
            final(self).wf(),
            match r {
                Ok(v) => read_u(old(self)@, n as nat) == Ok::<(nat, Seq<bool>), BitReaderError>(
                    (v as nat, final(self)@),
                ) && final(self).position() == old(self).position() + n,
                Err(e) => read_u(old(self)@, n as nat) == Err::<(nat, Seq<bool>), BitReaderError>(e) && *final(self)
                    == *old(self),
            },
    {
        let start = *self;
        let ghost s = self@;
        let mut v: u64 = 0;
        let mut i: u8 = 0;
        proof {
            lemma2_to64();
        }
        while i < n
            invariant
                i <= n <= 32,
                self.wf(),
                start.wf(),
                start == *old(self),
                s == old(self)@,
                s == start@,
                i <= s.len(),
                self@ == s.skip(i as int),
                self.position() == start.position() + i,
                v == be_value(s.take(i as int)),
                v < pow2(i as nat),
            decreases n - i,
        {
            proof {
                lemma2_to64();
                lemma_pow2_unfold((i + 1) as nat);
                if i < 32 {
                    lemma_pow2_strictly_increases(i as nat, 32);
                }
            }
            match self.u1() {
                Ok(b) => {
                    v = v * 2 + b as u64;
                    proof {
                        assert(s.take(i + 1).drop_last() =~= s.take(i as int));
                        assert(self@ =~= s.skip(i + 1));
                    }
                    i = i + 1;
                },
                Err(e) => {
                    *self = start;
                    return Err(e);
                },
            }
        }
        proof {
            lemma2_to64();
            if n < 32 {
                lemma_pow2_strictly_increases(n as nat, 32);
            }
        }
        Ok(v as u32)
    }

    /// Read a `ue(v)` code. A code that cannot be read is not consumed.
    pub fn ue(&mut self) -> (r: Result<u32, BitReaderError>)
        requires
            old(self).wf(),
        ensures
            final(self).wf(),
            match r {
                Ok(v) => read_ue(old(self)@) == Ok::<(nat, Seq<bool>), BitReaderError>((v as nat, final(self)@)),
                Err(e) => read_ue(old(self)@) == Err::<(nat, Seq<bool>), BitReaderError>(e) && *final(self) == *old(
                    self,
                ),
            },
    {
        let start = *self;
        let ghost s = self@;
        let mut z: u8 = 0;
        assert(s.skip(0) =~= s);
        loop
            invariant_except_break
                z <= 32,
                self.wf(),
                z <= s.len(),
                self@ == s.skip(z as int),
                leading_zeros(s) == z + leading_zeros(s.skip(z as int)),
            invariant
                start.wf(),
                start == *old(self),
                s == old(self)@,
            ensures
                z < 32,
                z < s.len(),
                s[z as int],
                leading_zeros(s) == z,
                self.wf(),
                self@ == s.skip(z + 1),
            decreases 33 - z,
        {
            if z == 32 {
                *self = start;
                return Err(BitReaderError::ExpGolombOverflow);
            }
            assert(z < s.len() ==> s.skip(z as int).skip(1) =~= s.skip(z + 1));
            match self.u1() {
                Ok(b) => {
                    if b == 1 {
                        break ;
                    }
                    z = z + 1;
                },
                Err(e) => {
                    *self = start;
                    return Err(e);
                },
            }
        }
        match self.u(z) {
            Ok(low) => {
                proof {
                    let code = s.subrange(z as int, 2 * z + 1);
                    assert(s.skip(z + 1).take(z as int) =~= s.subrange(z + 1, 2 * z + 1));
                    assert(code =~= seq![true] + s.subrange(z + 1, 2 * z + 1));
                    crate::bits::lemma_be_value_concat(seq![true], s.subrange(z + 1, 2 * z + 1));
                    assert(seq![true].drop_last() =~= Seq::<bool>::empty());
                    assert(be_value(Seq::<bool>::empty()) == 0);
                    assert(be_value(seq![true]) == 1);
                    lemma_be_value_bound(s.subrange(z + 1, 2 * z + 1));
                    lemma_pow2_31(z as nat);
                    assert(s.skip(z + 1).skip(z as int) =~= s.skip(2 * z + 1));
                    vstd::bits::lemma_u32_shl_is_mul(1, z as u32);
                }
                let top: u32 = 1u32 << (z as u32);
                Ok((top - 1) + low)
            },
            Err(e) => {
                *self = start;
                Err(e)
            },
        }
    }

    /// Read an `se(v)` code. A code that cannot be read is not consumed.
    pub fn se(&mut self) -> (r: Result<i32, BitReaderError>)
        requires
            old(self).wf(),
        ensures
            final(self).wf(),
            match r {
                Ok(v) => read_se(old(self)@) == Ok::<(int, Seq<bool>), BitReaderError>((v as int, final(self)@)),
                Err(e) => read_se(old(self)@) == Err::<(int, Seq<bool>), BitReaderError>(e) && *final(self) == *old(
                    self,
                ),
            },
    {
        let ghost s = self@;
        match self.ue() {
            Ok(code_num) => {
                if code_num % 2 == 1 {
                    proof {
                        lemma_read_ue_range(s);
                    }
                    Ok((code_num / 2) as i32 + 1)
                } else {
                    Ok(0 - (code_num / 2) as i32)
                }
            },
            Err(e) => Err(e),
        }
    }

    /// Move on to the next byte boundary, over whatever bits lie before it.
    pub fn align(&mut self)
        requires
            old(self).wf(),
        ensures
            final(self).wf(),
            final(self).position() == old(self).position() + padding(old(self).position() as nat),
            final(self)@ == old(self)@.skip(padding(old(self).position() as nat) as int),
    {
        let ghost before = *self;
        if self.bit > 0 {
            self.bit = 0;
            self.byte = self.byte + 1;
        }
        assert(self@ =~= before@.skip(padding(before.position() as nat) as int));
    }

    /// Whether every bit has been read.
    pub fn is_empty(&self) -> (b: bool)
        requires
            self.wf(),
        ensures
            b == (self@.len() == 0),
    {
        self.byte >= self.data.len()
    }
}

proof fn lemma_pow2_31(z: nat)
    requires
        z <= 31,
    ensures
        1 <= pow2(z) <= 0x8000_0000,
{
    lemma2_to64();
    lemma_pow2_pos(z);
    if z < 31 {
        lemma_pow2_strictly_increases(z, 31);
    }
}

/// No readable code carries more than [`BitWriter::MAX_UE`].
pub proof fn lemma_read_ue_range(s: Seq<bool>)
    ensures
        read_ue(s) matches Ok((v, _)) ==> v <= BitWriter::MAX_UE,
{
    let z = leading_zeros(s) as int;
    if z < 32 && s.len() >= 2 * z + 1 {
        let code = s.subrange(z, 2 * z + 1);
        lemma_be_value_bound(code);
        lemma_leading_zeros_stop(s);
        assert(code =~= seq![true] + code.skip(1));
        crate::bits::lemma_be_value_concat(seq![true], code.skip(1));
        assert(seq![true].drop_last() =~= Seq::<bool>::empty());
        assert(be_value(Seq::<bool>::empty()) == 0);
        assert(be_value(seq![true]) == 1);
        lemma_pow2_pos(code.skip(1).len());
        lemma2_to64();
        if z < 31 {
            lemma_pow2_strictly_increases((z + 1) as nat, 32);
        }
    }
}

proof fn lemma_leading_zeros_stop(s: Seq<bool>)
    ensures
        leading_zeros(s) <= s.len(),
        leading_zeros(s) < s.len() ==> s[leading_zeros(s) as int],
    decreases s.len(),
{
    if s.len() > 0 && !s[0] {
        lemma_leading_zeros_stop(s.skip(1));
    }
}

proof fn lemma_leading_zeros(n: nat, s: Seq<bool>)
    requires
        s.len() > 0,
        s[0],
    ensures
        leading_zeros(zeros(n) + s) == n,
    decreases n,
{
    let t = zeros(n) + s;
    if n == 0 {
        assert(t =~= s);
    } else {
        assert(t.skip(1) =~= zeros((n - 1) as nat) + s);
        lemma_leading_zeros((n - 1) as nat, s);
    }
}

/// What `u(n)` writes, `u(n)` reads back, whatever follows.
pub proof fn law_u_roundtrip(v: nat, n: nat, rest: Seq<bool>)
    requires
        v < pow2(n),
    ensures
        read_u(be_bits(v, n) + rest, n) == Ok::<(nat, Seq<bool>), BitReaderError>((v, rest)),
{
    let s = be_bits(v, n) + rest;
    assert(s.take(n as int) =~= be_bits(v, n));
    assert(s.skip(n as int) =~= rest);
    lemma_be_bits_roundtrip(v, n);
}

/// What `ue(v)` writes, `ue(v)` reads back, whatever follows: the writer's
/// bound and the reader's are the same bound.
pub proof fn law_ue_roundtrip(v: nat, rest: Seq<bool>)
    requires
        v <= BitWriter::MAX_UE,
    ensures
        read_ue(ue_bits(v) + rest) == Ok::<(nat, Seq<bool>), BitReaderError>((v, rest)),
{
    let w = width(v + 1);
    let z = (w - 1) as nat;
    let s = ue_bits(v) + rest;
    let tail = be_bits(v + 1, w) + rest;
    lemma_width(v + 1);
    lemma2_to64();
    if z >= 32 {
        if z > 32 {
            lemma_pow2_strictly_increases(32, z);
        }
    }
    assert(s =~= zeros(z) + tail);
    assert(tail[0]) by {
        // v + 1 lies between 2^z and 2^(z+1), so its digit z is a one
        lemma_pow2_unfold(w);
        assert(bit_at(v + 1, z)) by {
            assert((v + 1) / pow2(z) == 1) by (nonlinear_arith)
                requires
                    pow2(z) <= v + 1 < 2 * pow2(z),
            ;
        }
    }
    lemma_leading_zeros(z, tail);
    assert(s.subrange(z as int, 2 * z as int + 1) =~= be_bits(v + 1, w));
    lemma_be_bits_roundtrip(v + 1, w);
    assert(s.skip(2 * z as int + 1) =~= rest);
}

/// What `se(v)` writes, `se(v)` reads back, whatever follows.
pub proof fn law_se_roundtrip(v: int, rest: Seq<bool>)
    requires
        BitWriter::MIN_SE <= v <= BitWriter::MAX_SE,
    ensures
        read_se(se_bits(v) + rest) == Ok::<(int, Seq<bool>), BitReaderError>((v, rest)),
{
    law_ue_roundtrip(se_code_num(v), rest);
}

} // verus!
