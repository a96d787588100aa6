//! HRD parameters: the `hrd_parameters()` and `sub_layer_hrd_parameters()`
//! syntax structures, with their range rules, and the entries of the VPS that
//! wrap them.
use vstd::prelude::*;
use vstd::arithmetic::power2::{lemma2_to64, lemma_pow2_strictly_increases};
use crate::bitreader::{read_ue, BitReader, BitReaderError};
use crate::bits::{be_value, lemma_be_value_bound};

verus! {

/// Upper bound on the number of CPB entries: `cpb_cnt_minus1` is in 0..=31.
pub const HEVC_MAX_CPB_CNT: usize = 32;

/// Upper bound on `elemental_duration_in_tc_minus1`.
pub const HEVC_MAX_ELEMENTAL_DURATION_IN_TC_MINUS1: u32 = 2047;

/// Upper bound on the number of temporal sub-layers.
pub const HEVC_MAX_SUB_LAYERS: usize = 7;

/// Upper bound on the number of layer sets of a VPS.
pub const HEVC_VPS_MAX_NUM_LAYER_SETS: usize = 1024;

/// Errors that can arise while parsing an `hrd_parameters()` body.
#[derive(Debug, Clone, Copy, PartialEq, Eq)]
#[allow(inconsistent_fields)]
pub enum HrdError {
    /// The payload ran out of bits before the structure was fully parsed.
    Truncated,
    /// A value exceeded the legal range of its syntax element.
    ValueOutOfRange {
        /// Name of the offending syntax element.
        field: &'static str,
        /// The (illegal) value read.
        got: u32,
    },
    /// `maxNumSubLayersMinus1` supplied by the caller exceeded the ceiling of 6.
    InvalidMaxNumSubLayers {
        /// The (out-of-range) value supplied by the caller.
        got: u8,
    },
    /// Another bitstream-level error surfaced from the reader.
    Bitstream(BitReaderError),
}

/// How a reader error shows in the parse.
pub open spec fn hrd_error(e: BitReaderError) -> HrdError {
    match e {
        BitReaderError::EndOfBuffer => HrdError::Truncated,
        other => HrdError::Bitstream(other),
    }
}

impl From<BitReaderError> for HrdError {
    fn from(e: BitReaderError) -> (r: Self) {
        match e {
            BitReaderError::EndOfBuffer => HrdError::Truncated,
            other => HrdError::Bitstream(other),
        }
    }
}

impl vstd::std_specs::convert::FromSpecImpl<BitReaderError> for HrdError {
    open spec fn obeys_from_spec() -> bool {
        true
    }

    open spec fn from_spec(e: BitReaderError) -> Self {
        hrd_error(e)
    }
}

/// The "common information" block, present when `commonInfPresentFlag` is 1.
/// Fields that are not signalled are reported as zero.
#[derive(Debug, Clone, Copy, PartialEq, Eq, Structural)]
pub struct HrdCommonInfo {
    /// `nal_hrd_parameters_present_flag` (`u(1)`).
    pub nal_hrd_parameters_present_flag: bool,
    /// `vcl_hrd_parameters_present_flag` (`u(1)`).
    pub vcl_hrd_parameters_present_flag: bool,
    /// `sub_pic_hrd_params_present_flag` (`u(1)`), signalled with either of the above.
    pub sub_pic_hrd_params_present_flag: bool,
    /// `tick_divisor_minus2` (`u(8)`), signalled with the sub-picture flag.
    pub tick_divisor_minus2: u8,
    /// `du_cpb_removal_delay_increment_length_minus1` (`u(5)`), signalled with
    /// the sub-picture flag.
    pub du_cpb_removal_delay_increment_length_minus1: u8,
    /// `sub_pic_cpb_params_in_pic_timing_sei_flag` (`u(1)`), signalled with the
    /// sub-picture flag.
    pub sub_pic_cpb_params_in_pic_timing_sei_flag: bool,
    /// `dpb_output_delay_du_length_minus1` (`u(5)`), signalled with the
    /// sub-picture flag.
    pub dpb_output_delay_du_length_minus1: u8,
    /// `bit_rate_scale` (`u(4)`).
    pub bit_rate_scale: u8,
    /// `cpb_size_scale` (`u(4)`).
    pub cpb_size_scale: u8,
    /// `cpb_size_du_scale` (`u(4)`), signalled with the sub-picture flag.
    pub cpb_size_du_scale: u8,
    /// `initial_cpb_removal_delay_length_minus1` (`u(5)`).
    pub initial_cpb_removal_delay_length_minus1: u8,
    /// `au_cpb_removal_delay_length_minus1` (`u(5)`).
    pub au_cpb_removal_delay_length_minus1: u8,
    /// `dpb_output_delay_length_minus1` (`u(5)`).
    pub dpb_output_delay_length_minus1: u8,
}

/// One per-CPB entry of `sub_layer_hrd_parameters()`.
#[derive(Debug, Clone, Copy, PartialEq, Eq, Default)]
pub struct CpbEntry {
    /// `bit_rate_value_minus1[i]` (`ue(v)`).
    pub bit_rate_value_minus1: u32,
    /// `cpb_size_value_minus1[i]` (`ue(v)`).
    pub cpb_size_value_minus1: u32,
    /// `cpb_size_du_value_minus1[i]` (`ue(v)`), signalled with the sub-picture flag.
    pub cpb_size_du_value_minus1: Option<u32>,
    /// `bit_rate_du_value_minus1[i]` (`ue(v)`), signalled with the sub-picture flag.
    pub bit_rate_du_value_minus1: Option<u32>,
    /// `cbr_flag[i]` (`u(1)`).
    pub cbr_flag: bool,
}

/// The `sub_layer_hrd_parameters()` payload of one sub-layer.
#[derive(Debug, Clone, PartialEq, Eq, Default)]
pub struct SubLayerHrdParameters {
    /// One entry per CPB, at most [`HEVC_MAX_CPB_CNT`].
    pub cpb: Vec<CpbEntry>,
}

/// One per-sub-layer entry of `hrd_parameters()`.
#[derive(Debug, Clone, PartialEq, Eq, Default)]
pub struct SubLayerHrd {
    /// `fixed_pic_rate_general_flag[i]` (`u(1)`).
    pub fixed_pic_rate_general_flag: bool,
    /// `fixed_pic_rate_within_cvs_flag[i]` (`u(1)`); inferred to be 1 when the
    /// general flag is set.
    pub fixed_pic_rate_within_cvs_flag: bool,
    /// `elemental_duration_in_tc_minus1[i]` (`ue(v)`, 0..=2047); signalled when
    /// the rate is fixed within the sequence.
    pub elemental_duration_in_tc_minus1: Option<u32>,
    /// `low_delay_hrd_flag[i]` (`u(1)`); inferred to be 0 when the rate is fixed
    /// within the sequence.
    pub low_delay_hrd_flag: bool,
    /// `cpb_cnt_minus1[i]` (`ue(v)`, 0..=31); inferred to be 0 with low delay.
    pub cpb_cnt_minus1: u32,
    /// The NAL HRD payload, when it is present.
    pub nal_hrd: Option<SubLayerHrdParameters>,
    /// The VCL HRD payload, when it is present.
    pub vcl_hrd: Option<SubLayerHrdParameters>,
}

/// A parsed `hrd_parameters( commonInfPresentFlag, maxNumSubLayersMinus1 )` body.
#[derive(Debug, Clone, PartialEq, Eq)]
pub struct HrdParameters {
    /// `maxNumSubLayersMinus1`, at most 6.
    pub max_num_sub_layers_minus1: u8,
    /// The common information block, when it is present here. When it is not,
    /// the caller inherits the previous entry's.
    pub common: Option<HrdCommonInfo>,
    /// One entry per sub-layer.
    pub sub_layers: Vec<SubLayerHrd>,
}

/// One entry of the VPS loop over `hrd_parameters()`.
#[derive(Debug, Clone, PartialEq, Eq)]
pub struct VpsHrdEntry {
    /// `hrd_layer_set_idx[i]` (`ue(v)`).
    pub hrd_layer_set_idx: u32,
    /// `cprms_present_flag[i]` (`u(1)`); inferred to be 1 for the first entry.
    pub cprms_present_flag: bool,
    /// The `hrd_parameters()` body.
    pub hrd: HrdParameters,
}

/// The mathematical value of a [`SubLayerHrd`].
#[verifier::ext_equal]
pub struct SubLayer {
    pub fixed_pic_rate_general_flag: bool,
    pub fixed_pic_rate_within_cvs_flag: bool,
    pub elemental_duration_in_tc_minus1: Option<u32>,
    pub low_delay_hrd_flag: bool,
    pub cpb_cnt_minus1: u32,
    pub nal_hrd: Option<Seq<CpbEntry>>,
    pub vcl_hrd: Option<Seq<CpbEntry>>,
}

/// The mathematical value of [`HrdParameters`].
#[verifier::ext_equal]
pub struct Hrd {
    pub max_num_sub_layers_minus1: u8,
    pub common: Option<HrdCommonInfo>,
    pub sub_layers: Seq<SubLayer>,
}

/// The entries of an optional payload.
pub open spec fn entries_of(p: Option<SubLayerHrdParameters>) -> Option<Seq<CpbEntry>> {
    match p {
        Some(p) => Some(p.cpb@),
        None => None,
    }
}

impl View for SubLayerHrd {
    type V = SubLayer;

    open spec fn view(&self) -> SubLayer {
        SubLayer {
            fixed_pic_rate_general_flag: self.fixed_pic_rate_general_flag,
            fixed_pic_rate_within_cvs_flag: self.fixed_pic_rate_within_cvs_flag,
            elemental_duration_in_tc_minus1: self.elemental_duration_in_tc_minus1,
            low_delay_hrd_flag: self.low_delay_hrd_flag,
            cpb_cnt_minus1: self.cpb_cnt_minus1,
            nal_hrd: entries_of(self.nal_hrd),
            vcl_hrd: entries_of(self.vcl_hrd),
        }
    }
}

/// The values of the sub-layers.
pub open spec fn layer_views(layers: Seq<SubLayerHrd>) -> Seq<SubLayer> {
    Seq::new(layers.len(), |i: int| layers[i]@)
}

impl View for HrdParameters {
    type V = Hrd;

    open spec fn view(&self) -> Hrd {
        Hrd {
            max_num_sub_layers_minus1: self.max_num_sub_layers_minus1,
            common: self.common,
            sub_layers: layer_views(self.sub_layers@),
        }
    }
}

/// The `n`-bit number at bit `at`.
pub open spec fn number_at(s: Seq<bool>, at: int, n: int) -> u8 {
    be_value(s.subrange(at, at + n)) as u8
}

/// How many bits the common information at the front of `s` takes.
pub open spec fn common_len(s: Seq<bool>) -> int {
    if s.len() < 2 || !(s[0] || s[1]) {
        2
    } else if s.len() < 3 {
        3
    } else if s[2] {
        49
    } else {
        26
    }
}

/// The common information at the front of `s`, field by field.
pub open spec fn common_at(s: Seq<bool>) -> HrdCommonInfo {
    let any = s[0] || s[1];
    let sub_pic = any && s[2];
    // behind the sub-picture block, where there is one
    let scales = if sub_pic {
        22int
    } else {
        3int
    };
    let lengths = if sub_pic {
        34int
    } else {
        11int
    };
    HrdCommonInfo {
        nal_hrd_parameters_present_flag: s[0],
        vcl_hrd_parameters_present_flag: s[1],
        sub_pic_hrd_params_present_flag: sub_pic,
        tick_divisor_minus2: if sub_pic {
            number_at(s, 3, 8)
        } else {
            0
        },
        du_cpb_removal_delay_increment_length_minus1: if sub_pic {
            number_at(s, 11, 5)
        } else {
            0
        },
        sub_pic_cpb_params_in_pic_timing_sei_flag: sub_pic && s[16],
        dpb_output_delay_du_length_minus1: if sub_pic {
            number_at(s, 17, 5)
        } else {
            0
        },
        bit_rate_scale: if any {
            number_at(s, scales, 4)
        } else {
            0
        },
        cpb_size_scale: if any {
            number_at(s, scales + 4, 4)
        } else {
            0
        },
        cpb_size_du_scale: if sub_pic {
            number_at(s, 30, 4)
        } else {
            0
        },
        initial_cpb_removal_delay_length_minus1: if any {
            number_at(s, lengths, 5)
        } else {
            0
        },
        au_cpb_removal_delay_length_minus1: if any {
            number_at(s, lengths + 5, 5)
        } else {
            0
        },
        dpb_output_delay_length_minus1: if any {
            number_at(s, lengths + 10, 5)
        } else {
            0
        },
    }
}

/// Why a structure is refused, and what the reader is left with: the bits from the field
/// that is cut off on, or those behind the value that is out of range.
pub struct Refusal {
    pub error: HrdError,
    pub rest: Seq<bool>,
}

/// How many bits the fields of the common information take that are there in full, where
/// `s` ends inside it.
pub open spec fn common_read(s: Seq<bool>) -> int {
    let n = s.len();
    if n < 3 {
        n as int
    } else if s[2] {
        if n < 11 {
            3
        } else if n < 16 {
            11
        } else if n < 17 {
            16
        } else if n < 22 {
            17
        } else if n < 26 {
            22
        } else if n < 30 {
            26
        } else if n < 34 {
            30
        } else if n < 39 {
            34
        } else if n < 44 {
            39
        } else {
            44
        }
    } else if n < 7 {
        3
    } else if n < 11 {
        7
    } else if n < 16 {
        11
    } else if n < 21 {
        16
    } else {
        21
    }
}

/// The common information at the front of `s`, and the bits behind it.
pub open spec fn read_common(s: Seq<bool>) -> Result<(HrdCommonInfo, Seq<bool>), Refusal> {
    if s.len() < common_len(s) {
        Err(Refusal { error: HrdError::Truncated, rest: s.skip(common_read(s)) })
    } else {
        Ok((common_at(s), s.skip(common_len(s))))
    }
}

/// The flag at the front of `s`, and the bits behind it.
pub open spec fn read_flag(s: Seq<bool>) -> Result<(bool, Seq<bool>), Refusal> {
    if s.len() == 0 {
        Err(Refusal { error: HrdError::Truncated, rest: s })
    } else {
        Ok((s[0], s.skip(1)))
    }
}

/// The `ue(v)` code at the front of `s`, and the bits behind it.
pub open spec fn read_code(s: Seq<bool>) -> Result<(u32, Seq<bool>), Refusal> {
    match read_ue(s) {
        Ok((v, rest)) => Ok((v as u32, rest)),
        Err(e) => Err(Refusal { error: hrd_error(e), rest: s }),
    }
}

/// A `ue(v)` code that a rule admits.
pub open spec fn read_checked(s: Seq<bool>, field: &'static str, legal: spec_fn(u32) -> bool) -> Result<
    (u32, Seq<bool>),
    Refusal,
> {
    match read_code(s) {
        Ok((v, rest)) => if legal(v) {
            Ok((v, rest))
        } else {
            Err(Refusal { error: HrdError::ValueOutOfRange { field, got: v }, rest })
        },
        Err(e) => Err(e),
    }
}

/// Rates rise from entry to entry.
pub open spec fn above(v: u32, prev: Option<u32>) -> bool {
    prev matches Some(p) ==> v > p
}

/// Buffer sizes do not rise from entry to entry.
pub open spec fn not_above(v: u32, prev: Option<u32>) -> bool {
    prev matches Some(p) ==> v <= p
}

/// The last of the entries found.
pub open spec fn last_entry(found: Seq<CpbEntry>) -> Option<CpbEntry> {
    if found.len() == 0 {
        None
    } else {
        Some(found.last())
    }
}

/// The sub-picture values at the front of `s`, where they are present: size,
/// then rate.
pub open spec fn read_du_values(s: Seq<bool>, sub_pic: bool, prev: Option<CpbEntry>) -> Result<
    (Option<u32>, Option<u32>, Seq<bool>),
    Refusal,
> {
    if !sub_pic {
        Ok((None, None, s))
    } else {
        let prev_size = match prev {
            Some(p) => p.cpb_size_du_value_minus1,
            None => None,
        };
        let prev_rate = match prev {
            Some(p) => p.bit_rate_du_value_minus1,
            None => None,
        };
        match read_checked(s, "cpb_size_du_value_minus1", |v: u32| not_above(v, prev_size)) {
            Ok((size, s1)) => match read_checked(s1, "bit_rate_du_value_minus1", |v: u32| above(v, prev_rate)) {
                Ok((rate, s2)) => Ok((Some(size), Some(rate), s2)),
                Err(e) => Err(e),
            },
            Err(e) => Err(e),
        }
    }
}

/// The CPB entry at the front of `s`, behind the entry `prev`.
pub open spec fn read_entry(s: Seq<bool>, sub_pic: bool, prev: Option<CpbEntry>) -> Result<
    (CpbEntry, Seq<bool>),
    Refusal,
> {
    let prev_rate = match prev {
        Some(p) => Some(p.bit_rate_value_minus1),
        None => None,
    };
    let prev_size = match prev {
        Some(p) => Some(p.cpb_size_value_minus1),
        None => None,
    };
    match read_checked(s, "bit_rate_value_minus1", |v: u32| above(v, prev_rate)) {
        Err(e) => Err(e),
        Ok((rate, s1)) => match read_checked(s1, "cpb_size_value_minus1", |v: u32| not_above(v, prev_size)) {
            Err(e) => Err(e),
            Ok((size, s2)) => match read_du_values(s2, sub_pic, prev) {
                Err(e) => Err(e),
                Ok((size_du, rate_du, s3)) => match read_flag(s3) {
                    Err(e) => Err(e),
                    Ok((cbr, s4)) => Ok(
                        (
                            CpbEntry {
                                bit_rate_value_minus1: rate,
                                cpb_size_value_minus1: size,
                                cpb_size_du_value_minus1: size_du,
                                bit_rate_du_value_minus1: rate_du,
                                cbr_flag: cbr,
                            },
                            s4,
                        ),
                    ),
                },
            },
        },
    }
}

/// `left` CPB entries at the front of `s`, behind `found`.
pub open spec fn read_entries(found: Seq<CpbEntry>, s: Seq<bool>, left: nat, sub_pic: bool) -> Result<
    (Seq<CpbEntry>, Seq<bool>),
    Refusal,
>
    decreases left,
{
    if left == 0 {
        Ok((found, s))
    } else {
        match read_entry(s, sub_pic, last_entry(found)) {
            Ok((e, rest)) => read_entries(found.push(e), rest, (left - 1) as nat, sub_pic),
            Err(e) => Err(e),
        }
    }
}

/// A `sub_layer_hrd_parameters()` payload at the front of `s`.
pub open spec fn read_payload(s: Seq<bool>, cpb_cnt: u32, sub_pic: bool) -> Result<
    (Seq<CpbEntry>, Seq<bool>),
    Refusal,
> {
    if cpb_cnt == 0 || cpb_cnt > HEVC_MAX_CPB_CNT {
        Err(Refusal { error: HrdError::ValueOutOfRange { field: "CpbCnt", got: cpb_cnt }, rest: s })
    } else {
        read_entries(Seq::empty(), s, cpb_cnt as nat, sub_pic)
    }
}

/// A payload at the front of `s`, if one is present.
pub open spec fn read_optional_payload(s: Seq<bool>, present: bool, cpb_cnt: u32, sub_pic: bool) -> Result<
    (Option<Seq<CpbEntry>>, Seq<bool>),
    Refusal,
> {
    if present {
        match read_payload(s, cpb_cnt, sub_pic) {
            Ok((p, rest)) => Ok((Some(p), rest)),
            Err(e) => Err(e),
        }
    } else {
        Ok((None, s))
    }
}

/// The picture rate flags, the duration and the delay flag at the front of `s`;
/// the number of CPBs is still to come.
pub open spec fn read_rate(s: Seq<bool>) -> Result<(SubLayer, Seq<bool>), Refusal> {
    match read_flag(s) {
        Err(e) => Err(e),
        Ok((general, s1)) => match if general {
            Ok((true, s1))
        } else {
            read_flag(s1)
        } {
            Err(e) => Err(e),
            Ok((within, s2)) => {
                let sl = SubLayer {
                    fixed_pic_rate_general_flag: general,
                    fixed_pic_rate_within_cvs_flag: within,
                    elemental_duration_in_tc_minus1: None,
                    low_delay_hrd_flag: false,
                    cpb_cnt_minus1: 0,
                    nal_hrd: None,
                    vcl_hrd: None,
                };
                if within {
                    match read_checked(
                        s2,
                        "elemental_duration_in_tc_minus1",
                        |v: u32| v <= HEVC_MAX_ELEMENTAL_DURATION_IN_TC_MINUS1,
                    ) {
                        Err(e) => Err(e),
                        Ok((v, s3)) => Ok((SubLayer { elemental_duration_in_tc_minus1: Some(v), ..sl }, s3)),
                    }
                } else {
                    match read_flag(s2) {
                        Err(e) => Err(e),
                        Ok((low_delay, s3)) => Ok((SubLayer { low_delay_hrd_flag: low_delay, ..sl }, s3)),
                    }
                }
            },
        },
    }
}

/// `cpb_cnt_minus1` at the front of `s`, which low delay leaves out.
pub open spec fn read_cpb_cnt(s: Seq<bool>, low_delay: bool) -> Result<(u32, Seq<bool>), Refusal> {
    if low_delay {
        Ok((0, s))
    } else {
        read_checked(s, "cpb_cnt_minus1", |v: u32| v < HEVC_MAX_CPB_CNT)
    }
}

/// Which payloads the sub-layers carry.
pub struct Gates {
    pub nal: bool,
    pub vcl: bool,
    pub sub_pic: bool,
}

/// The gates that common information opens; without any, none is open.
pub open spec fn gates(common: Option<HrdCommonInfo>) -> Gates {
    match common {
        Some(c) => Gates {
            nal: c.nal_hrd_parameters_present_flag,
            vcl: c.vcl_hrd_parameters_present_flag,
            sub_pic: c.sub_pic_hrd_params_present_flag,
        },
        None => Gates { nal: false, vcl: false, sub_pic: false },
    }
}

/// The sub-layer at the front of `s`.
pub open spec fn read_layer(s: Seq<bool>, g: Gates) -> Result<(SubLayer, Seq<bool>), Refusal> {
    match read_rate(s) {
        Err(e) => Err(e),
        Ok((sl, s1)) => match read_cpb_cnt(s1, sl.low_delay_hrd_flag) {
            Err(e) => Err(e),
            Ok((n, s2)) => match read_optional_payload(s2, g.nal, (n + 1) as u32, g.sub_pic) {
                Err(e) => Err(e),
                Ok((nal, s3)) => match read_optional_payload(s3, g.vcl, (n + 1) as u32, g.sub_pic) {
                    Err(e) => Err(e),
                    Ok((vcl, s4)) => Ok((SubLayer { cpb_cnt_minus1: n, nal_hrd: nal, vcl_hrd: vcl, ..sl }, s4)),
                },
            },
        },
    }
}

/// `left` sub-layers at the front of `s`, behind `found`.
pub open spec fn read_layers(found: Seq<SubLayer>, s: Seq<bool>, left: nat, g: Gates) -> Result<
    (Seq<SubLayer>, Seq<bool>),
    Refusal,
>
    decreases left,
{
    if left == 0 {
        Ok((found, s))
    } else {
        match read_layer(s, g) {
            Ok((l, rest)) => read_layers(found.push(l), rest, (left - 1) as nat, g),
            Err(e) => Err(e),
        }
    }
}

/// An `hrd_parameters()` body at the front of `s`. Without common information
/// of its own it goes by the inherited one.
pub open spec fn read_hrd(
    s: Seq<bool>,
    common_inf_present: bool,
    max_num_sub_layers_minus1: u8,
    inherited: Option<HrdCommonInfo>,
) -> Result<(Hrd, Seq<bool>), Refusal> {
    if max_num_sub_layers_minus1 >= HEVC_MAX_SUB_LAYERS {
        Err(Refusal { error: HrdError::InvalidMaxNumSubLayers { got: max_num_sub_layers_minus1 }, rest: s })
    } else {
        match if common_inf_present {
            match read_common(s) {
                Ok((c, rest)) => Ok((Some(c), rest)),
                Err(e) => Err(e),
            }
        } else {
            Ok((None, s))
        } {
            Err(e) => Err(e),
            Ok((common, s1)) => {
                let effective = if common_inf_present {
                    common
                } else {
                    inherited
                };
                match read_layers(Seq::empty(), s1, (max_num_sub_layers_minus1 + 1) as nat, gates(effective)) {
                    Err(e) => Err(e),
                    Ok((sub_layers, s2)) => Ok((Hrd { max_num_sub_layers_minus1, common, sub_layers }, s2)),
                }
            },
        }
    }
}

/// The common information that a previous entry hands on.
pub open spec fn inherited_common(prev: Option<&VpsHrdEntry>) -> Option<HrdCommonInfo> {
    match prev {
        Some(p) => p.hrd.common,
        None => None,
    }
}

/// Entry `index` of the VPS loop at the front of `s`: the layer set, the flag
/// for common information, the body.
pub open spec fn read_vps_entry(
    s: Seq<bool>,
    index: u32,
    max_sub_layers_minus1: u8,
    inherited: Option<HrdCommonInfo>,
) -> Result<(u32, bool, Hrd, Seq<bool>), Refusal> {
    match read_checked(s, "hrd_layer_set_idx", |v: u32| v <= HEVC_VPS_MAX_NUM_LAYER_SETS) {
        Err(e) => Err(e),
        Ok((idx, s1)) => match if index > 0 {
            read_flag(s1)
        } else {
            Ok((true, s1))
        } {
            Err(e) => Err(e),
            Ok((cprms, s2)) => match read_hrd(s2, cprms, max_sub_layers_minus1, inherited) {
                Err(e) => Err(e),
                Ok((hrd, s3)) => Ok((idx, cprms, hrd, s3)),
            },
        },
    }
}

/// A fixed-width field at bit `at` of the structure `s`.
fn field(br: &mut BitReader<'_>, n: u8, Ghost(s): Ghost<Seq<bool>>, Ghost(at): Ghost<int>) -> (r: Result<u8, HrdError>)
    requires
        old(br).wf(),
        1 <= n <= 8,
        0 <= at <= s.len(),
        old(br)@ == s.skip(at),
    ensures
        final(br).wf(),
        match r {
            Ok(v) => s.len() >= at + n && v == number_at(s, at, n as int) && final(br)@ == s.skip(at + n) && (n == 1
                ==> (v == 1) == s[at]),
            Err(e) => s.len() < at + n && e == HrdError::Truncated && *final(br) == *old(br),
        },
{
    match br.u(n) {
        Ok(v) => {
            proof {
                assert(s.skip(at).take(n as int) =~= s.subrange(at, at + n));
                assert(s.skip(at).skip(n as int) =~= s.skip(at + n));
                lemma_be_value_bound(s.subrange(at, at + n));
                lemma2_to64();
                if n < 8 {
                    lemma_pow2_strictly_increases(n as nat, 8);
                }
                if n == 1 {
                    let one = s.subrange(at, at + 1);
                    assert(one.drop_last() =~= Seq::<bool>::empty());
                    assert(be_value(Seq::<bool>::empty()) == 0);
                    assert(one.last() == s[at]);
                }
            }
            Ok(v as u8)
        },
        Err(_) => Err(HrdError::Truncated),
    }
}

fn flag(br: &mut BitReader<'_>) -> (r: Result<bool, HrdError>)
    requires
        old(br).wf(),
    ensures
        final(br).wf(),
        match r {
            Ok(v) => read_flag(old(br)@) == Ok::<(bool, Seq<bool>), Refusal>((v, final(br)@)),
            Err(e) => read_flag(old(br)@) == Err::<(bool, Seq<bool>), Refusal>(
                (Refusal { error: e, rest: final(br)@ }),
            ) && *final(br) == *old(br),
        },
{
    match br.u1() {
        Ok(b) => Ok(b != 0),
        Err(_) => Err(HrdError::Truncated),
    }
}

fn code(br: &mut BitReader<'_>) -> (r: Result<u32, HrdError>)
    requires
        old(br).wf(),
    ensures
        final(br).wf(),
        match r {
            Ok(v) => read_code(old(br)@) == Ok::<(u32, Seq<bool>), Refusal>((v, final(br)@)),
            Err(e) => read_code(old(br)@) == Err::<(u32, Seq<bool>), Refusal>(
                (Refusal { error: e, rest: final(br)@ }),
            ) && *final(br) == *old(br),
        },
{
    match br.ue() {
        Ok(v) => Ok(v),
        Err(e) => Err(HrdError::from(e)),
    }
}

impl HrdCommonInfo {
    /// Whether either HRD payload is present: this gates the inner block and
    /// the per-sub-layer payloads.
    pub fn has_any_hrd(&self) -> (b: bool)
        ensures
            b == (self.nal_hrd_parameters_present_flag || self.vcl_hrd_parameters_present_flag),
    {
        self.nal_hrd_parameters_present_flag || self.vcl_hrd_parameters_present_flag
    }

    fn parse(br: &mut BitReader<'_>) -> (r: Result<Self, HrdError>)
        requires
            old(br).wf(),
        ensures
            final(br).wf(),
            match r {
                Ok(c) => read_common(old(br)@) == Ok::<(HrdCommonInfo, Seq<bool>), Refusal>((c, final(br)@)),
                Err(e) => read_common(old(br)@) == Err::<(HrdCommonInfo, Seq<bool>), Refusal>(
                    (Refusal { error: e, rest: final(br)@ }),
                ),
            },
    {
        let ghost s = br@;
        assert(s.skip(0) =~= s);
        let nal: u8 = match field(br, 1, Ghost(s), Ghost(0int)) {
            Ok(v) => v,
            Err(e) => return Err(e),
        };
        let vcl: u8 = match field(br, 1, Ghost(s), Ghost(1int)) {
            Ok(v) => v,
            Err(e) => return Err(e),
        };
        let mut info = HrdCommonInfo {
            nal_hrd_parameters_present_flag: nal == 1,
            vcl_hrd_parameters_present_flag: vcl == 1,
            sub_pic_hrd_params_present_flag: false,
            tick_divisor_minus2: 0,
            du_cpb_removal_delay_increment_length_minus1: 0,
            sub_pic_cpb_params_in_pic_timing_sei_flag: false,
            dpb_output_delay_du_length_minus1: 0,
            bit_rate_scale: 0,
            cpb_size_scale: 0,
            cpb_size_du_scale: 0,
            initial_cpb_removal_delay_length_minus1: 0,
            au_cpb_removal_delay_length_minus1: 0,
            dpb_output_delay_length_minus1: 0,
        };
        if !info.has_any_hrd() {
            return Ok(info);
        }
        let sub_pic: u8 = match field(br, 1, Ghost(s), Ghost(2int)) {
            Ok(v) => v,
            Err(e) => return Err(e),
        };
        info.sub_pic_hrd_params_present_flag = sub_pic == 1;
        let ghost mut at: int = 3;
        if sub_pic == 1 {
            info.tick_divisor_minus2 = match field(br, 8, Ghost(s), Ghost(3int)) {
                Ok(v) => v,
                Err(e) => return Err(e),
            };
            info.du_cpb_removal_delay_increment_length_minus1 = match field(br, 5, Ghost(s), Ghost(11int)) {
                Ok(v) => v,
                Err(e) => return Err(e),
            };
            let in_sei: u8 = match field(br, 1, Ghost(s), Ghost(16int)) {
                Ok(v) => v,
                Err(e) => return Err(e),
            };
            info.sub_pic_cpb_params_in_pic_timing_sei_flag = in_sei == 1;
            info.dpb_output_delay_du_length_minus1 = match field(br, 5, Ghost(s), Ghost(17int)) {
                Ok(v) => v,
                Err(e) => return Err(e),
            };
            proof {
                at = 22;
            }
        }
        info.bit_rate_scale = match field(br, 4, Ghost(s), Ghost(at)) {
            Ok(v) => v,
            Err(e) => return Err(e),
        };
        info.cpb_size_scale = match field(br, 4, Ghost(s), Ghost(at + 4)) {
            Ok(v) => v,
            Err(e) => return Err(e),
        };
        proof {
            at = at + 8;
        }
        if sub_pic == 1 {
            info.cpb_size_du_scale = match field(br, 4, Ghost(s), Ghost(30int)) {
                Ok(v) => v,
                Err(e) => return Err(e),
            };
            proof {
                at = at + 4;
            }
        }
        info.initial_cpb_removal_delay_length_minus1 = match field(br, 5, Ghost(s), Ghost(at)) {
            Ok(v) => v,
            Err(e) => return Err(e),
        };
        info.au_cpb_removal_delay_length_minus1 = match field(br, 5, Ghost(s), Ghost(at + 5)) {
            Ok(v) => v,
            Err(e) => return Err(e),
        };
        info.dpb_output_delay_length_minus1 = match field(br, 5, Ghost(s), Ghost(at + 10)) {
            Ok(v) => v,
            Err(e) => return Err(e),
        };
        Ok(info)
    }
}

impl CpbEntry {
    /// The entry behind `prev`.
    fn parse(br: &mut BitReader<'_>, sub_pic: bool, prev: Option<CpbEntry>) -> (r: Result<Self, HrdError>)
        requires
            old(br).wf(),
        ensures
            final(br).wf(),
            match r {
                Ok(c) => read_entry(old(br)@, sub_pic, prev) == Ok::<(CpbEntry, Seq<bool>), Refusal>(
                    (c, final(br)@),
                ),
                Err(e) => read_entry(old(br)@, sub_pic, prev) == Err::<(CpbEntry, Seq<bool>), Refusal>(
                    (Refusal { error: e, rest: final(br)@ }),
                ),
            },
    {
        let bit_rate_value_minus1: u32 = match code(br) {
            Ok(v) => v,
            Err(e) => return Err(e),
        };
        if let Some(p) = prev {
            if bit_rate_value_minus1 <= p.bit_rate_value_minus1 {
                return Err(HrdError::ValueOutOfRange { field: "bit_rate_value_minus1", got: bit_rate_value_minus1 });
            }
        }
        let cpb_size_value_minus1: u32 = match code(br) {
            Ok(v) => v,
            Err(e) => return Err(e),
        };
        if let Some(p) = prev {
            if cpb_size_value_minus1 > p.cpb_size_value_minus1 {
                return Err(HrdError::ValueOutOfRange { field: "cpb_size_value_minus1", got: cpb_size_value_minus1 });
            }
        }
        let mut cpb_size_du_value_minus1: Option<u32> = None;
        let mut bit_rate_du_value_minus1: Option<u32> = None;
        if sub_pic {
            let du_cpb: u32 = match code(br) {
                Ok(v) => v,
                Err(e) => return Err(e),
            };
            if let Some(p) = prev {
                if let Some(q) = p.cpb_size_du_value_minus1 {
                    if du_cpb > q {
                        return Err(HrdError::ValueOutOfRange { field: "cpb_size_du_value_minus1", got: du_cpb });
                    }
                }
            }
            let du_bit: u32 = match code(br) {
                Ok(v) => v,
                Err(e) => return Err(e),
            };
            if let Some(p) = prev {
                if let Some(q) = p.bit_rate_du_value_minus1 {
                    if du_bit <= q {
                        return Err(HrdError::ValueOutOfRange { field: "bit_rate_du_value_minus1", got: du_bit });
                    }
                }
            }
            cpb_size_du_value_minus1 = Some(du_cpb);
            bit_rate_du_value_minus1 = Some(du_bit);
        }
        let cbr_flag: bool = match flag(br) {
            Ok(v) => v,
            Err(e) => return Err(e),
        };
        Ok(
            CpbEntry {
                bit_rate_value_minus1,
                cpb_size_value_minus1,
                cpb_size_du_value_minus1,
                bit_rate_du_value_minus1,
                cbr_flag,
            },
        )
    }
}

impl SubLayerHrdParameters {
    /// Parse a `sub_layer_hrd_parameters()` body of `cpb_cnt` entries.
    pub fn parse(br: &mut BitReader<'_>, cpb_cnt: u32, sub_pic_hrd_params_present: bool) -> (r: Result<Self, HrdError>)
        requires
            old(br).wf(),
        ensures
            final(br).wf(),
            match r {
                Ok(p) => read_payload(old(br)@, cpb_cnt, sub_pic_hrd_params_present) == Ok::<
                    (Seq<CpbEntry>, Seq<bool>),
                    Refusal,
                >((p.cpb@, final(br)@)),
                Err(e) => read_payload(old(br)@, cpb_cnt, sub_pic_hrd_params_present) == Err::<
                    (Seq<CpbEntry>, Seq<bool>),
                    Refusal,
                >((Refusal { error: e, rest: final(br)@ })),
            },
            cpb_cnt == 0 || cpb_cnt > 32 ==> *final(br) == *old(br),
    {
        if cpb_cnt == 0 || cpb_cnt as usize > HEVC_MAX_CPB_CNT {
            return Err(HrdError::ValueOutOfRange { field: "CpbCnt", got: cpb_cnt });
        }
        let mut cpb: Vec<CpbEntry> = Vec::new();
        let mut prev: Option<CpbEntry> = None;
        let mut left: u32 = cpb_cnt;
        let ghost goal = read_payload(br@, cpb_cnt, sub_pic_hrd_params_present);
        assert(cpb@ =~= Seq::<CpbEntry>::empty());
        while left > 0
            invariant
                br.wf(),
                goal == read_payload(old(br)@, cpb_cnt, sub_pic_hrd_params_present),
                1 <= cpb_cnt <= 32,
                prev == last_entry(cpb@),
                read_entries(cpb@, br@, left as nat, sub_pic_hrd_params_present) == goal,
            decreases left,
        {
            match CpbEntry::parse(br, sub_pic_hrd_params_present, prev) {
                Ok(e) => {
                    cpb.push(e);
                    prev = Some(e);
                },
                Err(e) => {
                    return Err(e);
                },
            }
            left = left - 1;
        }
        Ok(SubLayerHrdParameters { cpb })
    }

    /// A payload, if one is present.
    fn parse_if(br: &mut BitReader<'_>, present: bool, cpb_cnt: u32, sub_pic: bool) -> (r: Result<
        Option<Self>,
        HrdError,
    >)
        requires
            old(br).wf(),
        ensures
            final(br).wf(),
            match r {
                Ok(p) => read_optional_payload(old(br)@, present, cpb_cnt, sub_pic) == Ok::<
                    (Option<Seq<CpbEntry>>, Seq<bool>),
                    Refusal,
                >((entries_of(p), final(br)@)),
                Err(e) => read_optional_payload(old(br)@, present, cpb_cnt, sub_pic) == Err::<
                    (Option<Seq<CpbEntry>>, Seq<bool>),
                    Refusal,
                >((Refusal { error: e, rest: final(br)@ })),
            },
    {
        if present {
            match SubLayerHrdParameters::parse(br, cpb_cnt, sub_pic) {
                Ok(p) => Ok(Some(p)),
                Err(e) => Err(e),
            }
        } else {
            Ok(None)
        }
    }
}

impl SubLayerHrd {
    fn parse(br: &mut BitReader<'_>, nal: bool, vcl: bool, sub_pic: bool) -> (r: Result<Self, HrdError>)
        requires
            old(br).wf(),
        ensures
            final(br).wf(),
            match r {
                Ok(l) => read_layer(old(br)@, (Gates { nal, vcl, sub_pic })) == Ok::<(SubLayer, Seq<bool>), Refusal>(
                    (l@, final(br)@),
                ),
                Err(e) => read_layer(old(br)@, (Gates { nal, vcl, sub_pic })) == Err::<
                    (SubLayer, Seq<bool>),
                    Refusal,
                >((Refusal { error: e, rest: final(br)@ })),
            },
    {
        let ghost s = br@;
        let fixed_pic_rate_general_flag: bool = match flag(br) {
            Ok(v) => v,
            Err(e) => return Err(e),
        };
        // A rate that is fixed in general is fixed within the sequence.
        let fixed_pic_rate_within_cvs_flag: bool = if fixed_pic_rate_general_flag {
            true
        } else {
            match flag(br) {
                Ok(v) => v,
                Err(e) => return Err(e),
            }
        };
        let mut elemental_duration_in_tc_minus1: Option<u32> = None;
        let mut low_delay_hrd_flag: bool = false;
        if fixed_pic_rate_within_cvs_flag {
            let v: u32 = match code(br) {
                Ok(v) => v,
                Err(e) => return Err(e),
            };
            if v > HEVC_MAX_ELEMENTAL_DURATION_IN_TC_MINUS1 {
                return Err(HrdError::ValueOutOfRange { field: "elemental_duration_in_tc_minus1", got: v });
            }
            elemental_duration_in_tc_minus1 = Some(v);
        } else {
            low_delay_hrd_flag = match flag(br) {
                Ok(v) => v,
                Err(e) => return Err(e),
            };
        }
        let ghost head = SubLayer {
            fixed_pic_rate_general_flag,
            fixed_pic_rate_within_cvs_flag,
            elemental_duration_in_tc_minus1,
            low_delay_hrd_flag,
            cpb_cnt_minus1: 0,
            nal_hrd: None,
            vcl_hrd: None,
        };
        assert(read_rate(s) == Ok::<(SubLayer, Seq<bool>), Refusal>((head, br@)));
        let mut cpb_cnt_minus1: u32 = 0;
        if !low_delay_hrd_flag {
            let v: u32 = match code(br) {
                Ok(v) => v,
                Err(e) => return Err(e),
            };
            if v as usize >= HEVC_MAX_CPB_CNT {
                return Err(HrdError::ValueOutOfRange { field: "cpb_cnt_minus1", got: v });
            }
            cpb_cnt_minus1 = v;
        }
        let nal_hrd = match SubLayerHrdParameters::parse_if(br, nal, cpb_cnt_minus1 + 1, sub_pic) {
            Ok(p) => p,
            Err(e) => return Err(e),
        };
        let vcl_hrd = match SubLayerHrdParameters::parse_if(br, vcl, cpb_cnt_minus1 + 1, sub_pic) {
            Ok(p) => p,
            Err(e) => return Err(e),
        };
        Ok(
            SubLayerHrd {
                fixed_pic_rate_general_flag,
                fixed_pic_rate_within_cvs_flag,
                elemental_duration_in_tc_minus1,
                low_delay_hrd_flag,
                cpb_cnt_minus1,
                nal_hrd,
                vcl_hrd,
            },
        )
    }
}

/// The common information behind an optional reference.
pub open spec fn deref_common(c: Option<&HrdCommonInfo>) -> Option<HrdCommonInfo> {
    match c {
        Some(c) => Some(*c),
        None => None,
    }
}

impl HrdParameters {
    /// Parse an `hrd_parameters()` body at the reader's position.
    ///
    /// Where the common information is not present here, `prev_common` decides
    /// which per-sub-layer payloads follow.
    pub fn parse(
        br: &mut BitReader<'_>,
        common_inf_present: bool,
        max_num_sub_layers_minus1: u8,
        prev_common: Option<&HrdCommonInfo>,
    ) -> (r: Result<Self, HrdError>)
        requires
            old(br).wf(),
        ensures
            final(br).wf(),
            match r {
                Ok(h) => read_hrd(old(br)@, common_inf_present, max_num_sub_layers_minus1, deref_common(prev_common))
                    == Ok::<(Hrd, Seq<bool>), Refusal>((h@, final(br)@)),
                Err(e) => read_hrd(
                    old(br)@,
                    common_inf_present,
                    max_num_sub_layers_minus1,
                    deref_common(prev_common),
                ) == Err::<(Hrd, Seq<bool>), Refusal>(
                    (Refusal { error: e, rest: final(br)@ }),
                ),
            },
            max_num_sub_layers_minus1 >= HEVC_MAX_SUB_LAYERS ==> *final(br) == *old(br),
    {
        if max_num_sub_layers_minus1 as usize >= HEVC_MAX_SUB_LAYERS {
            return Err(HrdError::InvalidMaxNumSubLayers { got: max_num_sub_layers_minus1 });
        }
        let ghost goal = read_hrd(br@, common_inf_present, max_num_sub_layers_minus1, deref_common(prev_common));
        let mut common: Option<HrdCommonInfo> = None;
        let mut effective: Option<HrdCommonInfo> = None;
        if common_inf_present {
            match HrdCommonInfo::parse(br) {
                Ok(c) => {
                    common = Some(c);
                    effective = Some(c);
                },
                Err(e) => return Err(e),
            }
        } else if let Some(c) = prev_common {
            effective = Some(*c);
        }
        let mut nal: bool = false;
        let mut vcl: bool = false;
        let mut sub_pic: bool = false;
        if let Some(c) = effective {
            nal = c.nal_hrd_parameters_present_flag;
            vcl = c.vcl_hrd_parameters_present_flag;
            sub_pic = c.sub_pic_hrd_params_present_flag;
        }
        let ghost g = gates(effective);
        let ghost start = br@;
        let ghost inner = read_layers(Seq::empty(), start, (max_num_sub_layers_minus1 + 1) as nat, g);
        let mut sub_layers: Vec<SubLayerHrd> = Vec::new();
        let mut left: u8 = max_num_sub_layers_minus1 + 1;
        assert(layer_views(sub_layers@) =~= Seq::<SubLayer>::empty());
        while left > 0
            invariant
                br.wf(),
                g == (Gates { nal, vcl, sub_pic }),
                goal == read_hrd(old(br)@, common_inf_present, max_num_sub_layers_minus1, deref_common(prev_common)),
                max_num_sub_layers_minus1 < HEVC_MAX_SUB_LAYERS,
                inner matches Err(e) ==> goal == Err::<(Hrd, Seq<bool>), Refusal>(e),
                read_layers(layer_views(sub_layers@), br@, left as nat, g) == inner,
            decreases left,
        {
            match SubLayerHrd::parse(br, nal, vcl, sub_pic) {
                Ok(l) => {
                    let ghost before = layer_views(sub_layers@);
                    sub_layers.push(l);
                    assert(layer_views(sub_layers@) =~= before.push(l@));
                },
                Err(e) => return Err(e),
            }
            left = left - 1;
        }
        Ok(HrdParameters { max_num_sub_layers_minus1, common, sub_layers })
    }
}

impl VpsHrdEntry {
    /// Parse one entry of the VPS loop. Only entries behind the first signal
    /// `cprms_present_flag`; without common information an entry inherits that
    /// of `prev`.
    pub fn parse(
        br: &mut BitReader<'_>,
        index: u32,
        vps_max_sub_layers_minus1: u8,
        prev: Option<&VpsHrdEntry>,
    ) -> (r: Result<Self, HrdError>)
        requires
            old(br).wf(),
        ensures
            final(br).wf(),
            match r {
                Ok(v) => read_vps_entry(old(br)@, index, vps_max_sub_layers_minus1, inherited_common(prev)) == Ok::<
                    (u32, bool, Hrd, Seq<bool>),
                    Refusal,
                >((v.hrd_layer_set_idx, v.cprms_present_flag, v.hrd@, final(br)@)),
                Err(e) => read_vps_entry(old(br)@, index, vps_max_sub_layers_minus1, inherited_common(prev)) == Err::<
                    (u32, bool, Hrd, Seq<bool>),
                    Refusal,
                >((Refusal { error: e, rest: final(br)@ })),
            },
            read_code(old(br)@) is Err ==> *final(br) == *old(br),
    {
        let hrd_layer_set_idx: u32 = match code(br) {
            Ok(v) => v,
            Err(e) => return Err(e),
        };
        if hrd_layer_set_idx as usize > HEVC_VPS_MAX_NUM_LAYER_SETS {
            return Err(HrdError::ValueOutOfRange { field: "hrd_layer_set_idx", got: hrd_layer_set_idx });
        }
        let cprms_present_flag: bool = if index > 0 {
            match flag(br) {
                Ok(v) => v,
                Err(e) => return Err(e),
            }
        } else {
            true
        };
        let prev_common: Option<&HrdCommonInfo> = match prev {
            Some(p) => match &p.hrd.common {
                Some(c) => Some(c),
                None => None,
            },
            None => None,
        };
        match HrdParameters::parse(br, cprms_present_flag, vps_max_sub_layers_minus1, prev_common) {
            Ok(hrd) => Ok(VpsHrdEntry { hrd_layer_set_idx, cprms_present_flag, hrd }),
            Err(e) => Err(e),
        }
    }
}

/// The order that the entries of a payload keep.
pub open spec fn ordered(e: Seq<CpbEntry>) -> bool {
    forall|i: int, j: int|
        #![trigger e[i], e[j]]
        0 <= i < j < e.len() ==> {
            &&& e[i].bit_rate_value_minus1 < e[j].bit_rate_value_minus1
            &&& e[i].cpb_size_value_minus1 >= e[j].cpb_size_value_minus1
            &&& e[i].cpb_size_du_value_minus1 matches Some(a) ==> e[j].cpb_size_du_value_minus1 matches Some(b) && a
                >= b
            &&& e[i].bit_rate_du_value_minus1 matches Some(a) ==> e[j].bit_rate_du_value_minus1 matches Some(b) && a
                < b
        }
}

spec fn uniform(e: Seq<CpbEntry>, sub_pic: bool) -> bool {
    forall|i: int|
        0 <= i < e.len() ==> (#[trigger] e[i]).cpb_size_du_value_minus1 is Some == sub_pic
            && e[i].bit_rate_du_value_minus1 is Some == sub_pic
}

proof fn lemma_entries_ordered(found: Seq<CpbEntry>, s: Seq<bool>, left: nat, sub_pic: bool)
    requires
        ordered(found),
        uniform(found, sub_pic),
    ensures
        read_entries(found, s, left, sub_pic) matches Ok((e, _)) ==> ordered(e) && uniform(e, sub_pic) && e.len()
            == found.len() + left,
    decreases left,
{
    if left > 0 {
        if let Ok((e, rest)) = read_entry(s, sub_pic, last_entry(found)) {
            let next = found.push(e);
            assert(ordered(next)) by {
                assert forall|i: int, j: int| #![trigger next[i], next[j]] 0 <= i < j < next.len() implies {
                    &&& next[i].bit_rate_value_minus1 < next[j].bit_rate_value_minus1
                    &&& next[i].cpb_size_value_minus1 >= next[j].cpb_size_value_minus1
                    &&& next[i].cpb_size_du_value_minus1 matches Some(a) ==> next[j].cpb_size_du_value_minus1
                        matches Some(b) && a >= b
                    &&& next[i].bit_rate_du_value_minus1 matches Some(a) ==> next[j].bit_rate_du_value_minus1
                        matches Some(b) && a < b
                } by {
                    if j == found.len() {
                        assert(last_entry(found) == Some(found.last()));
                        assert(found[found.len() - 1] == found.last());
                        assert(found[i] == next[i]);
                    } else {
                        assert(found[i] == next[i] && found[j] == next[j]);
                    }
                }
            }
            assert(uniform(next, sub_pic)) by {
                assert forall|i: int| 0 <= i < next.len() implies (#[trigger] next[i]).cpb_size_du_value_minus1 is Some
                    == sub_pic && next[i].bit_rate_du_value_minus1 is Some == sub_pic by {
                    if i < found.len() {
                        assert(found[i] == next[i]);
                    }
                }
            }
            lemma_entries_ordered(next, rest, (left - 1) as nat, sub_pic);
        }
    }
}

/// In every payload that parses, there is one entry per CPB, rates rise
/// strictly, and buffer sizes never rise.
pub proof fn law_payload_is_ordered(s: Seq<bool>, cpb_cnt: u32, sub_pic: bool)
    ensures
        read_payload(s, cpb_cnt, sub_pic) matches Ok((e, _)) ==> e.len() == cpb_cnt && cpb_cnt <= HEVC_MAX_CPB_CNT
            && ordered(e),
{
    lemma_entries_ordered(Seq::empty(), s, cpb_cnt as nat, sub_pic);
}

proof fn lemma_layers_len(found: Seq<SubLayer>, s: Seq<bool>, left: nat, g: Gates)
    ensures
        read_layers(found, s, left, g) matches Ok((l, _)) ==> l.len() == found.len() + left,
    decreases left,
{
    if left > 0 {
        if let Ok((l, rest)) = read_layer(s, g) {
            lemma_layers_len(found.push(l), rest, (left - 1) as nat, g);
        }
    }
}

/// Every body that parses has one entry per sub-layer, and no more than the
/// largest number of sub-layers.
pub proof fn law_sub_layer_count(s: Seq<bool>, present: bool, max_minus1: u8, inherited: Option<HrdCommonInfo>)
    ensures
        read_hrd(s, present, max_minus1, inherited) matches Ok((h, _)) ==> h.sub_layers.len() == max_minus1 + 1
            && h.sub_layers.len() <= HEVC_MAX_SUB_LAYERS,
{
    if let Ok((h, _)) = read_hrd(s, present, max_minus1, inherited) {
        let s1 = if present {
            s.skip(common_len(s))
        } else {
            s
        };
        let common = if present {
            Some(common_at(s))
        } else {
            inherited
        };
        lemma_layers_len(Seq::empty(), s1, (max_minus1 + 1) as nat, gates(common));
    }
}

} // verus!
