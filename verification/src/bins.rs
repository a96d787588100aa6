//! Slice syntax as a sequence of bins: the context variables of a slice, the
//! bins that syntax elements binarize to, and their coding.
use vstd::prelude::*;
use crate::bits::{be_bits, lemma_u64_bit};
use crate::bitwriter::BitWriter;
use crate::cabac::{initial_context, lemma_next_context, next_context, ContextModel};
use crate::cabac_encoder::{coder, repeated, CabacEncoder, Coder};

verus! {

/// A bin and how it is coded.
#[derive(Debug, Clone, Copy, PartialEq, Eq, Structural)]
pub enum Bin {
    /// With the context variable of index `ctx`.
    Decision { ctx: usize, bin: u8 },
    /// With equal probability.
    Bypass { bit: bool },
    /// As a terminating bin.
    Terminate { end: bool },
}

/// The context variables after a bin.
pub open spec fn contexts_after(ctxs: Seq<ContextModel>, b: Bin) -> Seq<ContextModel> {
    match b {
        Bin::Decision { ctx, bin } => ctxs.update(ctx as int, next_context(ctxs[ctx as int], bin)),
        _ => ctxs,
    }
}

/// The context variables after a sequence of bins.
pub open spec fn contexts_after_all(ctxs: Seq<ContextModel>, bins: Seq<Bin>) -> Seq<ContextModel>
    decreases bins.len(),
{
    if bins.len() == 0 {
        ctxs
    } else {
        contexts_after_all(contexts_after(ctxs, bins[0]), bins.skip(1))
    }
}

/// The encoder after a bin.
pub open spec fn encode_bin(c: Coder, ctxs: Seq<ContextModel>, b: Bin) -> Coder {
    match b {
        Bin::Decision { ctx, bin } => c.decision(ctxs[ctx as int], bin),
        Bin::Bypass { bit } => c.bypass(bit),
        Bin::Terminate { end } => c.terminate(end),
    }
}

/// The encoder after a sequence of bins.
pub open spec fn encode_bins(c: Coder, ctxs: Seq<ContextModel>, bins: Seq<Bin>) -> Coder
    decreases bins.len(),
{
    if bins.len() == 0 {
        c
    } else {
        encode_bins(encode_bin(c, ctxs, bins[0]), contexts_after(ctxs, bins[0]), bins.skip(1))
    }
}

/// Every context variable is well formed.
pub open spec fn contexts_wf(ctxs: Seq<ContextModel>) -> bool {
    forall|i: int| 0 <= i < ctxs.len() ==> (#[trigger] ctxs[i]).wf()
}

/// Every decision names one of `n` context variables.
pub open spec fn in_bank(bins: Seq<Bin>, n: nat) -> bool {
    forall|i: int| 0 <= i < bins.len() ==> (#[trigger] bins[i] matches Bin::Decision { ctx, bin } ==> ctx < n && bin <= 1)
}

/// `sao_merge_left_flag` / `sao_merge_up_flag`.
pub const CTX_SAO_MERGE: usize = 0;

/// The first bin of `sao_type_idx`.
pub const CTX_SAO_TYPE: usize = 1;

/// The first bin of `part_mode`.
pub const CTX_PART_MODE: usize = 2;

/// `prev_intra_luma_pred_flag`.
pub const CTX_PREV_INTRA: usize = 3;

/// The first bin of `intra_chroma_pred_mode`.
pub const CTX_CHROMA_MODE: usize = 4;

/// `cbf_luma`.
pub const CTX_CBF_LUMA: usize = 5;

/// `cbf_cb` / `cbf_cr`.
pub const CTX_CBF_CHROMA: usize = 7;

/// `last_sig_coeff_x_prefix`.
pub const CTX_LAST_X: usize = 11;

/// `last_sig_coeff_y_prefix`.
pub const CTX_LAST_Y: usize = 29;

/// `coded_sub_block_flag`.
pub const CTX_CODED_SUB_BLOCK: usize = 47;

/// `sig_coeff_flag`.
pub const CTX_SIG: usize = 51;

/// `coeff_abs_level_greater1_flag`.
pub const CTX_GREATER1: usize = 93;

/// `coeff_abs_level_greater2_flag`.
pub const CTX_GREATER2: usize = 117;

/// How many context variables a slice has here.
pub const CONTEXTS: usize = 123;

/// `initValue` of every context variable, for intra slices.
pub const INIT_VALUES: [u8; 123] = [
    // sao_merge, sao_type_idx, part_mode, prev_intra_luma_pred_flag, intra_chroma_pred_mode
    153, 200, 184, 184, 63,
    // cbf_luma, cbf_chroma
    111, 141, 94, 138, 182, 154,
    // last_sig_coeff_x_prefix
    110, 110, 124, 125, 140, 153, 125, 127, 140, 109, 111, 143, 127, 111, 79, 108, 123, 63,
    // last_sig_coeff_y_prefix
    110, 110, 124, 125, 140, 153, 125, 127, 140, 109, 111, 143, 127, 111, 79, 108, 123, 63,
    // coded_sub_block_flag
    91, 171, 134, 141,
    // sig_coeff_flag
    111, 111, 125, 110, 110, 94, 124, 108, 124, 107, 125, 141, 179, 153, 125, 107, 125, 141, 179, 153, 125, 107, 125,
    141, 179, 153, 125, 140, 139, 182, 182, 152, 136, 152, 136, 153, 136, 139, 111, 136, 139, 111,
    // coeff_abs_level_greater1_flag
    140, 92, 137, 138, 140, 152, 138, 139, 153, 74, 149, 92, 139, 107, 122, 152, 140, 179, 166, 182, 140, 227, 122,
    197,
    // coeff_abs_level_greater2_flag
    138, 153, 136, 167, 152, 152,
];

/// The context variables of a slice.
#[derive(Debug, Clone, PartialEq, Eq)]
pub struct SliceContexts {
    pub models: Vec<ContextModel>,
}

/// The context variables at the start of an intra slice.
pub open spec fn initial_contexts(qp: int) -> Seq<ContextModel> {
    Seq::new(CONTEXTS as nat, |i: int| initial_context(INIT_VALUES@[i] as int, qp))
}

impl View for SliceContexts {
    type V = Seq<ContextModel>;

    open spec fn view(&self) -> Seq<ContextModel> {
        self.models@
    }
}

impl SliceContexts {
    /// All variables are there and well formed.
    pub open spec fn wf(&self) -> bool {
        self@.len() == CONTEXTS && contexts_wf(self@)
    }

    /// The context variables at the start of an intra slice of the given QP.
    pub fn init(qp: i32) -> (c: Self)
        ensures
            c.wf(),
            c@ == initial_contexts(qp as int),
    {
        let mut models: Vec<ContextModel> = Vec::new();
        let mut i: usize = 0;
        while i < CONTEXTS
            invariant
                i <= CONTEXTS,
                models@.len() == i,
                forall|j: int|
                    0 <= j < i ==> #[trigger] models@[j] == initial_context(INIT_VALUES@[j] as int, qp as int)
                        && models@[j].wf(),
            decreases CONTEXTS - i,
        {
            models.push(ContextModel::init(INIT_VALUES[i], qp));
            i = i + 1;
        }
        let c = SliceContexts { models };
        assert(c@ =~= initial_contexts(qp as int));
        c
    }
}

/// Code one bin.
pub fn code_bin(w: &mut BitWriter, cabac: &mut CabacEncoder, ctxs: &mut SliceContexts, b: Bin)
    requires
        old(w).wf(),
        old(cabac).wf(),
        old(ctxs).wf(),
        b matches Bin::Decision { ctx, bin } ==> ctx < CONTEXTS,
    ensures
        final(w).wf(),
        final(cabac).wf(),
        final(ctxs).wf(),
        coder(*final(cabac), final(w)@) == encode_bin(coder(*old(cabac), old(w)@), old(ctxs)@, b),
        final(ctxs)@ == contexts_after(old(ctxs)@, b),
{
    match b {
        Bin::Decision { ctx, bin } => {
            let mut model: ContextModel = ctxs.models[ctx];
            cabac.encode_decision(w, &mut model, bin);
            ctxs.models.set(ctx, model);
        },
        Bin::Bypass { bit } => {
            cabac.encode_bypass(
                w,
                if bit {
                    1
                } else {
                    0
                },
            );
        },
        Bin::Terminate { end } => {
            cabac.encode_terminate(
                w,
                if end {
                    1
                } else {
                    0
                },
            );
        },
    }
}

/// Code a sequence of bins.
pub fn code_bins(w: &mut BitWriter, cabac: &mut CabacEncoder, ctxs: &mut SliceContexts, bins: &[Bin])
    requires
        old(w).wf(),
        old(cabac).wf(),
        old(ctxs).wf(),
        in_bank(bins@, CONTEXTS as nat),
    ensures
        final(w).wf(),
        final(cabac).wf(),
        final(ctxs).wf(),
        coder(*final(cabac), final(w)@) == encode_bins(coder(*old(cabac), old(w)@), old(ctxs)@, bins@),
        final(ctxs)@ == contexts_after_all(old(ctxs)@, bins@),
{
    let ghost goal = encode_bins(coder(*cabac, w@), ctxs@, bins@);
    let ghost goal_ctxs = contexts_after_all(ctxs@, bins@);
    let mut i: usize = 0;
    assert(bins@.skip(0) =~= bins@);
    while i < bins.len()
        invariant
            i <= bins@.len(),
            w.wf(),
            cabac.wf(),
            ctxs.wf(),
            in_bank(bins@, CONTEXTS as nat),
            encode_bins(coder(*cabac, w@), ctxs@, bins@.skip(i as int)) == goal,
            contexts_after_all(ctxs@, bins@.skip(i as int)) == goal_ctxs,
        decreases bins.len() - i,
    {
        proof {
            assert(bins@.skip(i as int)[0] == bins@[i as int]);
            assert(bins@.skip(i as int).skip(1) =~= bins@.skip(i + 1));
        }
        code_bin(w, cabac, ctxs, bins[i]);
        i = i + 1;
    }
}

/// Bins one after another are coded as their concatenation.
pub proof fn lemma_encode_bins_concat(c: Coder, ctxs: Seq<ContextModel>, a: Seq<Bin>, b: Seq<Bin>)
    ensures
        encode_bins(c, ctxs, a + b) == encode_bins(encode_bins(c, ctxs, a), contexts_after_all(ctxs, a), b),
        contexts_after_all(ctxs, a + b) == contexts_after_all(contexts_after_all(ctxs, a), b),
    decreases a.len(),
{
    if a.len() == 0 {
        assert(a + b =~= b);
    } else {
        assert((a + b).skip(1) =~= a.skip(1) + b);
        assert((a + b)[0] == a[0]);
        lemma_encode_bins_concat(encode_bin(c, ctxs, a[0]), contexts_after(ctxs, a[0]), a.skip(1), b);
    }
}

/// Coding keeps the context variables well formed.
pub proof fn lemma_contexts_after_all_wf(ctxs: Seq<ContextModel>, bins: Seq<Bin>)
    requires
        contexts_wf(ctxs),
        in_bank(bins, ctxs.len()),
    ensures
        contexts_wf(contexts_after_all(ctxs, bins)),
        contexts_after_all(ctxs, bins).len() == ctxs.len(),
    decreases bins.len(),
{
    if bins.len() > 0 {
        let b = bins[0];
        assert(b matches Bin::Decision { ctx, bin } ==> ctx < ctxs.len());
        if let Bin::Decision { ctx, bin } = b {
            lemma_next_context(ctxs[ctx as int], bin);
        }
        assert forall|i: int| 0 <= i < bins.skip(1).len() implies (#[trigger] bins.skip(1)[i] matches Bin::Decision {
            ctx,
            bin,
        } ==> ctx < ctxs.len() && bin <= 1) by {
            assert(bins.skip(1)[i] == bins[i + 1]);
        }
        lemma_contexts_after_all_wf(contexts_after(ctxs, b), bins.skip(1));
    }
}

/// A context-coded bin.
pub open spec fn decision_bin(base: int, ctx_inc: int, bin: bool) -> Bin {
    Bin::Decision {
        ctx: (base + ctx_inc) as usize,
        bin: if bin {
            1
        } else {
            0
        },
    }
}

/// A run of equal-probability bins.
pub open spec fn bypass_bins(bits: Seq<bool>) -> Seq<Bin> {
    Seq::new(bits.len(), |i: int| Bin::Bypass { bit: bits[i] })
}

/// `after` is `before` with `added` behind it, and stays inside the context bank.
#[verifier::opaque]
pub open spec fn appended(before: Seq<Bin>, after: Seq<Bin>, added: Seq<Bin>) -> bool {
    &&& after == before + added
    &&& in_bank(before, CONTEXTS as nat) ==> in_bank(after, CONTEXTS as nat)
}

pub proof fn lemma_appended(before: Seq<Bin>, after: Seq<Bin>, added: Seq<Bin>)
    requires
        appended(before, after, added),
    ensures
        after == before + added,
        in_bank(before, CONTEXTS as nat) ==> in_bank(after, CONTEXTS as nat),
{
    reveal(appended);
}

/// What is appended in two steps is appended in one.
pub proof fn lemma_append(a: Seq<Bin>, b: Seq<Bin>, c: Seq<Bin>, x: Seq<Bin>, y: Seq<Bin>, z: Seq<Bin>)
    requires
        appended(a, b, x),
        appended(b, c, y),
        z == x + y,
    ensures
        appended(a, c, z),
{
    reveal(appended);
    assert((a + x) + y =~= a + (x + y));
}

pub proof fn lemma_append_none(a: Seq<Bin>, x: Seq<Bin>)
    requires
        x.len() == 0,
    ensures
        appended(a, a, x),
{
    reveal(appended);
    assert(a + x =~= a);
}

/// Append one context-coded bin.
pub fn put_decision(sink: &mut Vec<Bin>, base: usize, ctx_inc: usize, bin: bool)
    requires
        base + ctx_inc < CONTEXTS,
    ensures
        appended(old(sink)@, final(sink)@, seq![decision_bin(base as int, ctx_inc as int, bin)]),
{
    let b = Bin::Decision {
        ctx: base + ctx_inc,
        bin: if bin {
            1
        } else {
            0
        },
    };
    sink.push(b);
    proof {
        reveal(appended);
        assert(sink@ =~= old(sink)@ + seq![b]);
    }
}

/// Append one equal-probability bin.
pub fn put_bypass(sink: &mut Vec<Bin>, bit: bool)
    ensures
        appended(old(sink)@, final(sink)@, seq![Bin::Bypass { bit }]),
{
    sink.push(Bin::Bypass { bit });
    proof {
        reveal(appended);
        assert(sink@ =~= old(sink)@ + seq![Bin::Bypass { bit }]);
    }
}

/// Append a run of ones.
pub fn put_ones(sink: &mut Vec<Bin>, n: u32)
    ensures
        appended(old(sink)@, final(sink)@, bypass_bins(repeated(true, n as nat))),
{
    let mut i: u32 = 0;
    proof {
        lemma_append_none(sink@, bypass_bins(repeated(true, 0)));
    }
    while i < n
        invariant
            i <= n,
            appended(old(sink)@, sink@, bypass_bins(repeated(true, i as nat))),
        decreases n - i,
    {
        let ghost mid = sink@;
        put_bypass(sink, true);
        proof {
            let done = bypass_bins(repeated(true, i as nat));
            let more = bypass_bins(repeated(true, (i + 1) as nat));
            assert(more =~= done + seq![Bin::Bypass { bit: true }]);
            lemma_append(old(sink)@, mid, sink@, done, seq![Bin::Bypass { bit: true }], more);
        }
        i = i + 1;
    }
}

/// Append the `n` low bits of `value`, most significant first.
pub fn put_bypass_bits(sink: &mut Vec<Bin>, value: u64, n: u32)
    requires
        n <= 63,
    ensures
        appended(old(sink)@, final(sink)@, bypass_bins(be_bits(value as nat, n as nat))),
{
    let mut left: u32 = n;
    let ghost bits = be_bits(value as nat, n as nat);
    proof {
        lemma_append_none(sink@, bypass_bins(bits.take(0)));
    }
    while left > 0
        invariant
            left <= n <= 63,
            bits == be_bits(value as nat, n as nat),
            appended(old(sink)@, sink@, bypass_bins(bits.take(n - left))),
        decreases left,
    {
        left = left - 1;
        proof {
            lemma_u64_bit(value, left as u64);
        }
        let ghost mid = sink@;
        let bit: bool = (value >> (left as u64)) & 1 == 1;
        put_bypass(sink, bit);
        proof {
            let done = bypass_bins(bits.take(n - left - 1));
            let more = bypass_bins(bits.take(n - left));
            assert(more =~= done + seq![Bin::Bypass { bit }]);
            lemma_append(old(sink)@, mid, sink@, done, seq![Bin::Bypass { bit }], more);
        }
    }
    assert(bits.take(n as int) =~= bits);
}

/// A concatenated run is the concatenation of the runs.
pub proof fn lemma_bypass_concat(a: Seq<bool>, b: Seq<bool>)
    ensures
        bypass_bins(a + b) == bypass_bins(a) + bypass_bins(b),
{
    assert(bypass_bins(a + b) =~= bypass_bins(a) + bypass_bins(b));
}

} // verus!
