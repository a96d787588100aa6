//! The CABAC arithmetic decoding engine, the counterpart of the encoder.
use vstd::prelude::*;
use vstd::arithmetic::power2::{lemma2_to64, lemma_pow2_strictly_increases, lemma_pow2_unfold, pow2};
use crate::bits::{be_value, lemma_be_value_bound, padding};
use crate::bitreader::{read_u, BitReader, BitReaderError};
use crate::cabac::{
    lemma_lps_range, lemma_next_context, lps_range, next_context, ContextModel, RANGE_TAB_LPS, TRANS_IDX_LPS,
    TRANS_IDX_MPS,
};

verus! {

/// Why a bin could not be decoded.
#[derive(Debug, Clone, Copy, PartialEq, Eq, Structural)]
pub enum CabacError {
    /// The codeword is cut short.
    EndOfBuffer,
    /// The first nine bits are 510 or 511, which no codeword starts with.
    ForbiddenOffset,
}

/// The decoding engine's registers and the bits still to be read.
#[verifier::ext_equal]
pub struct Decoder {
    pub offset: nat,
    pub range: nat,
    pub rest: Seq<bool>,
}

impl Decoder {
    /// The engine at the start of the codeword at the front of `s`.
    pub open spec fn start(s: Seq<bool>) -> Result<Decoder, CabacError> {
        if s.len() < 9 {
            Err(CabacError::EndOfBuffer)
        } else if be_value(s.take(9)) >= 510 {
            Err(CabacError::ForbiddenOffset)
        } else {
            Ok(Decoder { offset: be_value(s.take(9)), range: 510, rest: s.skip(9) })
        }
    }

    pub open spec fn wf(self) -> bool {
        256 <= self.range <= 510 && self.offset < self.range
    }

    /// The offset with one more bit of the codeword in it.
    pub open spec fn doubled_offset(self) -> int {
        2 * self.offset + if self.rest[0] {
            1int
        } else {
            0int
        }
    }

    /// One renormalization step: a bit comes in, the interval doubles.
    pub open spec fn shift(self) -> Decoder {
        Decoder { offset: self.doubled_offset() as nat, range: 2 * self.range, rest: self.rest.skip(1) }
    }

    /// Steps until the range is at least 256, if the codeword has the bits.
    pub open spec fn renorm(self) -> Option<Decoder>
        decreases 512 - self.range,
    {
        if 0 < self.range < 256 {
            if self.rest.len() == 0 {
                None
            } else {
                self.shift().renorm()
            }
        } else {
            Some(self)
        }
    }

    /// The bin that a context-coded decision yields.
    pub open spec fn decision_bin(self, ctx: ContextModel) -> u8 {
        if self.offset >= self.range - lps_range(ctx, self.range as int) {
            (1 - ctx.val_mps) as u8
        } else {
            ctx.val_mps
        }
    }

    /// The engine after a context-coded decision.
    pub open spec fn decision(self, ctx: ContextModel) -> Option<Decoder> {
        let lps = lps_range(ctx, self.range as int);
        let mps = self.range - lps;
        if self.offset >= mps {
            Decoder { offset: (self.offset - mps) as nat, range: lps as nat, ..self }.renorm()
        } else {
            Decoder { range: mps as nat, ..self }.renorm()
        }
    }

    /// The bin that the next equal-probability decision yields.
    pub open spec fn bypass_bin(self) -> bool {
        self.doubled_offset() >= self.range
    }

    /// The engine after an equal-probability decision.
    pub open spec fn bypass(self) -> Option<Decoder> {
        if self.rest.len() == 0 {
            None
        } else {
            Some(
                Decoder {
                    offset: (self.doubled_offset() - if self.bypass_bin() {
                        self.range as int
                    } else {
                        0
                    }) as nat,
                    rest: self.rest.skip(1),
                    ..self
                },
            )
        }
    }

    /// The bins that the next `n` equal-probability decisions yield, and the
    /// engine after them.
    pub open spec fn bypass_all(self, n: nat) -> Option<(Seq<bool>, Decoder)>
        decreases n,
    {
        if n == 0 {
            Some((Seq::empty(), self))
        } else {
            match self.bypass_all((n - 1) as nat) {
                Some((bins, d)) => match d.bypass() {
                    Some(e) => Some((bins.push(d.bypass_bin()), e)),
                    None => None,
                },
                None => None,
            }
        }
    }

    /// The terminating bin.
    pub open spec fn terminate_bin(self) -> bool {
        self.offset >= self.range - 2
    }

    /// The engine after a terminating bin. A one ends the codeword.
    pub open spec fn terminate(self) -> Option<Decoder> {
        let d = Decoder { range: (self.range - 2) as nat, ..self };
        if self.terminate_bin() {
            Some(d)
        } else {
            d.renorm()
        }
    }
}

/// The arithmetic decoding engine over a [`BitReader`].
#[derive(Debug)]
pub struct CabacEngine<'a> {
    reader: BitReader<'a>,
    range: u32,
    offset: u32,
}

impl<'a> View for CabacEngine<'a> {
    type V = Decoder;

    closed spec fn view(&self) -> Decoder {
        Decoder { offset: self.offset as nat, range: self.range as nat, rest: self.reader@ }
    }
}

impl<'a> CabacEngine<'a> {
    /// The engine can read raw bits or start a codeword.
    pub closed spec fn reader_wf(&self) -> bool {
        self.reader.wf()
    }

    /// The engine is inside a codeword.
    pub open spec fn wf(&self) -> bool {
        self.reader_wf() && self@.wf()
    }

    /// How many bits have been read.
    pub closed spec fn position(&self) -> int {
        self.reader.position()
    }

    /// Start decoding the codeword at the reader's position.
    pub fn new(reader: BitReader<'a>) -> (r: Result<Self, CabacError>)
        requires
            reader.wf(),
        ensures
            match r {
                Ok(e) => e.wf() && Decoder::start(reader@) == Ok::<Decoder, CabacError>(e@) && e.position()
                    == reader.position() + 9,
                Err(e) => Decoder::start(reader@) == Err::<Decoder, CabacError>(e),
            },
    {
        let mut e = CabacEngine { reader, range: 510, offset: 0 };
        match e.init_engine() {
            Ok(_) => Ok(e),
            Err(x) => Err(x),
        }
    }

    /// Start the next codeword at the current position.
    pub fn init_engine(&mut self) -> (r: Result<(), CabacError>)
        requires
            old(self).reader_wf(),
        ensures
            final(self).reader_wf(),
            match r {
                Ok(_) => final(self).wf() && Decoder::start(old(self)@.rest) == Ok::<Decoder, CabacError>(
                    final(self)@,
                ) && final(self).position() == old(self).position() + 9,
                Err(e) => Decoder::start(old(self)@.rest) == Err::<Decoder, CabacError>(e),
            },
    {
        match self.reader.u(9) {
            Ok(v) => {
                proof {
                    lemma_be_value_bound(old(self)@.rest.take(9));
                    lemma2_to64();
                }
                if v >= 510 {
                    return Err(CabacError::ForbiddenOffset);
                }
                self.range = 510;
                self.offset = v;
                Ok(())
            },
            Err(_) => Err(CabacError::EndOfBuffer),
        }
    }

    fn renorm(&mut self) -> (r: Result<(), CabacError>)
        requires
            old(self).reader_wf(),
            old(self)@.offset < old(self)@.range,
            0 < old(self)@.range <= 510,
        ensures
            final(self).reader_wf(),
            match r {
                Ok(_) => final(self).wf() && old(self)@.renorm() == Some(final(self)@),
                Err(e) => old(self)@.renorm() is None && e == CabacError::EndOfBuffer,
            },
    {
        let ghost goal = self@.renorm();
        while self.range < 256
            invariant
                self.reader_wf(),
                self.offset < self.range,
                0 < self.range <= 510,
                self@.renorm() == goal,
                goal == old(self)@.renorm(),
            decreases 512 - self.range,
        {
            let ghost before = self@;
            match self.reader.u1() {
                Ok(b) => {
                    self.offset = self.offset * 2 + b as u32;
                    self.range = self.range * 2;
                    assert(self@ =~= before.shift());
                },
                Err(_) => {
                    return Err(CabacError::EndOfBuffer);
                },
            }
        }
        Ok(())
    }

    /// One context-coded bin. The context model moves as the encoder's does.
    pub fn decode_decision(&mut self, ctx: &mut ContextModel) -> (r: Result<u8, CabacError>)
        requires
            old(self).wf(),
            old(ctx).wf(),
        ensures
            final(self).reader_wf(),
            final(ctx).wf(),
            match r {
                Ok(bin) => final(self).wf() && bin == old(self)@.decision_bin(*old(ctx)) && old(self)@.decision(
                    *old(ctx),
                ) == Some(final(self)@) && *final(ctx) == next_context(*old(ctx), bin),
                Err(e) => old(self)@.decision(*old(ctx)) is None && e == CabacError::EndOfBuffer,
            },
    {
        let ghost before = self@;
        let ghost model = *ctx;
        let q_range_idx: usize = ((self.range / 64) % 4) as usize;
        proof {
            lemma_lps_range(model, self.range as int);
            lemma_next_context(model, before.decision_bin(model));
        }
        let lps: u32 = RANGE_TAB_LPS[ctx.p_state_idx as usize * 4 + q_range_idx] as u32;
        let mps: u32 = self.range - lps;
        let bin: u8;
        if self.offset >= mps {
            bin = 1 - ctx.val_mps;
            self.offset = self.offset - mps;
            self.range = lps;
            if ctx.p_state_idx == 0 {
                ctx.val_mps = 1 - ctx.val_mps;
            }
            ctx.p_state_idx = TRANS_IDX_LPS[ctx.p_state_idx as usize];
            assert(self@ =~= Decoder { offset: (before.offset - mps) as nat, range: lps as nat, ..before });
        } else {
            bin = ctx.val_mps;
            self.range = mps;
            ctx.p_state_idx = TRANS_IDX_MPS[ctx.p_state_idx as usize];
            assert(self@ =~= Decoder { range: mps as nat, ..before });
        }
        match self.renorm() {
            Ok(_) => Ok(bin),
            Err(e) => Err(e),
        }
    }

    /// One equal-probability bin.
    pub fn decode_bypass(&mut self) -> (r: Result<u8, CabacError>)
        requires
            old(self).wf(),
        ensures
            final(self).reader_wf(),
            match r {
                Ok(bin) => final(self).wf() && bin == (if old(self)@.bypass_bin() {
                    1u8
                } else {
                    0u8
                }) && old(self)@.bypass() == Some(final(self)@),
                Err(e) => old(self)@.bypass() is None && e == CabacError::EndOfBuffer,
            },
    {
        let ghost before = self@;
        match self.reader.u1() {
            Ok(b) => {
                self.offset = self.offset * 2 + b as u32;
                let bin: u8 = if self.offset >= self.range {
                    self.offset = self.offset - self.range;
                    1
                } else {
                    0
                };
                assert(self@ =~= before.bypass().unwrap());
                Ok(bin)
            },
            Err(_) => Err(CabacError::EndOfBuffer),
        }
    }

    /// `n` equal-probability bins as a number, most significant first.
    pub fn decode_bypass_bits(&mut self, n: u8) -> (r: Result<u32, CabacError>)
        requires
            old(self).wf(),
            n <= 32,
        ensures
            final(self).reader_wf(),
            match r {
                Ok(v) => final(self).wf() && (old(self)@.bypass_all(n as nat) matches Some((bins, d)) && v == be_value(
                    bins,
                ) && d == final(self)@),
                Err(e) => old(self)@.bypass_all(n as nat) is None && e == CabacError::EndOfBuffer,
            },
    {
        let mut v: u64 = 0;
        let mut i: u8 = 0;
        proof {
            lemma2_to64();
        }
        while i < n
            invariant
                i <= n <= 32,
                self.wf(),
                old(self)@.bypass_all(i as nat) matches Some((bins, d)) && v == be_value(bins) && d == self@
                    && bins.len() == i,
                v < pow2(i as nat),
            decreases n - i,
        {
            let ghost (bins, d) = old(self)@.bypass_all(i as nat).unwrap();
            proof {
                lemma2_to64();
                lemma_pow2_unfold((i + 1) as nat);
                lemma_pow2_strictly_increases(i as nat, 32);
            }
            match self.decode_bypass() {
                Ok(b) => {
                    v = v * 2 + b as u64;
                    assert(bins.push(d.bypass_bin()).drop_last() =~= bins);
                    i = i + 1;
                },
                Err(e) => {
                    proof {
                        lemma_bypass_all_none(old(self)@, (i + 1) as nat, n as nat);
                    }
                    return Err(e);
                },
            }
        }
        proof {
            lemma2_to64();
            if n < 32 {
                lemma_pow2_strictly_increases(n as nat, 32);
            }
        }
        Ok(v as u32)
    }

    /// A terminating bin. A one ends the codeword: raw bits or another codeword
    /// may follow.
    pub fn decode_terminate(&mut self) -> (r: Result<u8, CabacError>)
        requires
            old(self).wf(),
        ensures
            final(self).reader_wf(),
            match r {
                Ok(bin) => bin == (if old(self)@.terminate_bin() {
                    1u8
                } else {
                    0u8
                }) && old(self)@.terminate() == Some(final(self)@) && (bin == 0 ==> final(self).wf()) && (bin == 1
                    ==> final(self).position() == old(self).position()),
                Err(e) => old(self)@.terminate() is None && e == CabacError::EndOfBuffer,
            },
    {
        let ghost before = self@;
        self.range = self.range - 2;
        assert(self@ =~= Decoder { range: (before.range - 2) as nat, ..before });
        if self.offset >= self.range {
            Ok(1)
        } else {
            match self.renorm() {
                Ok(_) => Ok(0),
                Err(e) => Err(e),
            }
        }
    }

    /// Move over the alignment bits that precede raw sample data.
    pub fn pcm_align(&mut self) -> (r: Result<(), CabacError>)
        requires
            old(self).reader_wf(),
        ensures
            r is Ok,
            final(self).reader_wf(),
            final(self).position() == old(self).position() + padding(old(self).position() as nat),
            final(self)@.rest == old(self)@.rest.skip(padding(old(self).position() as nat) as int),
    {
        self.reader.align();
        Ok(())
    }

    /// Read an `n`-bit field of raw data.
    pub fn read_raw_bits(&mut self, n: u8) -> (r: Result<u32, CabacError>)
        requires
            old(self).reader_wf(),
            n <= 32,
        ensures
            final(self).reader_wf(),
            match r {
                Ok(v) => read_u(old(self)@.rest, n as nat) == Ok::<(nat, Seq<bool>), BitReaderError>(
                    (v as nat, final(self)@.rest),
                ) && final(self).position() == old(self).position() + n,
                Err(e) => old(self)@.rest.len() < n && e == CabacError::EndOfBuffer && *final(self) == *old(self),
            },
    {
        match self.reader.u(n) {
            Ok(v) => Ok(v),
            Err(_) => Err(CabacError::EndOfBuffer),
        }
    }
}

/// A run that stops early stops every longer run.
proof fn lemma_bypass_all_none(d: Decoder, i: nat, n: nat)
    requires
        d.bypass_all(i) is None,
        i <= n,
    ensures
        d.bypass_all(n) is None,
    decreases n - i,
{
    if i < n {
        assert(d.bypass_all(i + 1) is None);
        lemma_bypass_all_none(d, i + 1, n);
    }
}

} // verus!
