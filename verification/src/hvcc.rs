//! `HEVCDecoderConfigurationRecord` (`hvcC`) extradata.
//!
//! ISO-BMFF tracks carry the parameter sets out of band, inside the sample
//! entry's `hvcC` box, and frame the in-band NAL units with big-endian length
//! prefixes instead of Annex B start codes.
use vstd::prelude::*;
use crate::nal::{nal_unit_from_coded, unit_of, views, NalError, NalUnit, Unit};

verus! {

/// Errors from the `hvcC` record parse or the length-prefixed sample-data split.
#[derive(Debug, Clone, Copy, PartialEq, Eq, Structural)]
pub enum HvccError {
    /// The record is shorter than the fixed 23-byte prefix, or an array or
    /// NAL unit length points past the end of the record.
    Truncated,
    /// `configurationVersion` was not 1.
    BadVersion(u8),
    /// `lengthSizeMinusOne` was 2: only 1-, 2- and 4-byte prefixes exist.
    BadLengthSize,
    /// A carried NAL unit failed the header parse.
    Nal(NalError),
    /// A sample-data buffer ended in the middle of a length prefix or of the
    /// NAL bytes the prefix promised.
    TruncatedSample,
}

impl From<NalError> for HvccError {
    fn from(e: NalError) -> (r: Self) {
        HvccError::Nal(e)
    }
}

impl vstd::std_specs::convert::FromSpecImpl<NalError> for HvccError {
    open spec fn obeys_from_spec() -> bool {
        true
    }

    open spec fn from_spec(e: NalError) -> Self {
        HvccError::Nal(e)
    }
}

/// Parsed `HEVCDecoderConfigurationRecord`. The profile and level mirror
/// fields are surfaced for inspection only.
#[derive(Debug, Clone, PartialEq, Eq)]
pub struct HvccRecord {
    /// `general_profile_space` (2 bits).
    pub general_profile_space: u8,
    /// `general_tier_flag`.
    pub general_tier_flag: bool,
    /// `general_profile_idc` (5 bits).
    pub general_profile_idc: u8,
    /// `general_profile_compatibility_flags` (32 bits; bit 31 is flag 0).
    pub general_profile_compatibility_flags: u32,
    /// `general_constraint_indicator_flags` (48 bits, in the low bits).
    pub general_constraint_indicator_flags: u64,
    /// `general_level_idc`.
    pub general_level_idc: u8,
    /// `min_spatial_segmentation_idc` (12 bits).
    pub min_spatial_segmentation_idc: u16,
    /// `parallelismType` (2 bits): 0 unknown or mixed, 1 slices, 2 tiles, 3
    /// entropy-coding sync.
    pub parallelism_type: u8,
    /// `chroma_format_idc` mirror (2 bits).
    pub chroma_format_idc: u8,
    /// `bit_depth_luma_minus8` mirror (3 bits).
    pub bit_depth_luma_minus8: u8,
    /// `bit_depth_chroma_minus8` mirror (3 bits).
    pub bit_depth_chroma_minus8: u8,
    /// `avgFrameRate` in frames per 256 seconds (0 = unspecified).
    pub avg_frame_rate: u16,
    /// `constantFrameRate` (2 bits).
    pub constant_frame_rate: u8,
    /// `numTemporalLayers` (3 bits).
    pub num_temporal_layers: u8,
    /// `temporalIdNested`.
    pub temporal_id_nested: bool,
    /// Byte width of every in-band NAL length prefix: 1, 2 or 4.
    pub length_size: usize,
    /// The carried parameter-set and SEI NAL units, in array order. Arrays with
    /// another `NAL_unit_type` are skipped.
    pub nal_units: Vec<NalUnit>,
}

/// The big-endian number that bytes denote.
pub open spec fn be_number(bytes: Seq<u8>) -> nat
    decreases bytes.len(),
{
    if bytes.len() == 0 {
        0
    } else {
        256 * be_number(bytes.drop_last()) + bytes.last() as nat
    }
}

/// The array types that a record may carry: VPS, SPS, PPS, prefix and suffix SEI.
pub open spec fn permitted_type(nal_unit_type: int) -> bool {
    32 <= nal_unit_type <= 34 || nal_unit_type == 39 || nal_unit_type == 40
}

/// `left` NAL units of one array from position `pos` on, behind `found`; the
/// units of an array that is not permitted are passed over.
pub open spec fn array_units(found: Seq<Unit>, data: Seq<u8>, pos: int, left: nat, keep: bool) -> Result<
    (Seq<Unit>, int),
    HvccError,
>
    decreases left,
{
    if left == 0 {
        Ok((found, pos))
    } else if pos + 2 > data.len() {
        Err(HvccError::Truncated)
    } else {
        let len = be_number(data.subrange(pos, pos + 2)) as int;
        let begin = pos + 2;
        if begin + len > data.len() {
            Err(HvccError::Truncated)
        } else if keep {
            match unit_of(data.subrange(begin, begin + len)) {
                Ok(u) => array_units(found.push(u), data, begin + len, (left - 1) as nat, keep),
                Err(e) => Err(HvccError::Nal(e)),
            }
        } else {
            array_units(found, data, begin + len, (left - 1) as nat, keep)
        }
    }
}

/// `left` arrays from position `pos` on, behind `found`.
pub open spec fn arrays(found: Seq<Unit>, data: Seq<u8>, pos: int, left: nat) -> Result<Seq<Unit>, HvccError>
    decreases left,
{
    if left == 0 {
        Ok(found)
    } else if pos + 3 > data.len() {
        Err(HvccError::Truncated)
    } else {
        let keep = permitted_type(data[pos] as int % 64);
        let count = be_number(data.subrange(pos + 1, pos + 3));
        match array_units(found, data, pos + 3, count, keep) {
            Ok((units, end)) => arrays(units, data, end, (left - 1) as nat),
            Err(e) => Err(e),
        }
    }
}

/// What refuses a record, or the units that it carries.
pub open spec fn record_units(data: Seq<u8>) -> Result<Seq<Unit>, HvccError> {
    if data.len() < 23 {
        Err(HvccError::Truncated)
    } else if data[0] != 1 {
        Err(HvccError::BadVersion(data[0]))
    } else if data[21] % 4 == 2 {
        Err(HvccError::BadLengthSize)
    } else {
        arrays(Seq::empty(), data, 23, data[22] as nat)
    }
}

impl HvccRecord {
    /// The fixed fields are those of the record's first 23 bytes.
    pub open spec fn mirrors(&self, data: Seq<u8>) -> bool {
        &&& self.general_profile_space == data[1] / 64
        &&& self.general_tier_flag == ((data[1] / 32) % 2 == 1)
        &&& self.general_profile_idc == data[1] % 32
        &&& self.general_profile_compatibility_flags == be_number(data.subrange(2, 6))
        &&& self.general_constraint_indicator_flags == be_number(data.subrange(6, 12))
        &&& self.general_level_idc == data[12]
        &&& self.min_spatial_segmentation_idc == (data[13] % 16) * 256 + data[14]
        &&& self.parallelism_type == data[15] % 4
        &&& self.chroma_format_idc == data[16] % 4
        &&& self.bit_depth_luma_minus8 == data[17] % 8
        &&& self.bit_depth_chroma_minus8 == data[18] % 8
        &&& self.avg_frame_rate == be_number(data.subrange(19, 21))
        &&& self.constant_frame_rate == data[21] / 64
        &&& self.num_temporal_layers == (data[21] / 8) % 8
        &&& self.temporal_id_nested == ((data[21] / 4) % 2 == 1)
        &&& self.length_size == data[21] % 4 + 1
    }
}

/// The units of length-prefixed sample data from position `pos` on, behind `found`.
pub open spec fn sample_units(found: Seq<Unit>, data: Seq<u8>, pos: int, length_size: int) -> Result<
    Seq<Unit>,
    HvccError,
>
    decreases data.len() - pos,
{
    if pos >= data.len() || length_size <= 0 {
        Ok(found)
    } else if pos + length_size > data.len() {
        Err(HvccError::TruncatedSample)
    } else {
        let len = be_number(data.subrange(pos, pos + length_size)) as int;
        let begin = pos + length_size;
        if begin + len > data.len() {
            Err(HvccError::TruncatedSample)
        } else {
            match unit_of(data.subrange(begin, begin + len)) {
                Ok(u) => sample_units(found.push(u), data, begin + len, length_size),
                Err(e) => Err(HvccError::Nal(e)),
            }
        }
    }
}

fn array_type_permitted(nal_unit_type: u8) -> (b: bool)
    ensures
        b == permitted_type(nal_unit_type as int),
{
    (32 <= nal_unit_type && nal_unit_type <= 34) || nal_unit_type == 39 || nal_unit_type == 40
}

/// The big-endian number in `len` bytes from `pos` on.
fn read_number(data: &[u8], pos: usize, len: usize) -> (v: u64)
    requires
        pos + len <= data.len(),
        len <= 8,
    ensures
        v == be_number(data@.subrange(pos as int, pos + len)),
        len <= 2 ==> v < 0x1_0000,
        len <= 4 ==> v < 0x1_0000_0000,
{
    let mut v: u64 = 0;
    let mut i: usize = 0;
    let ghost limits = seq![1, 0x100, 0x1_0000, 0x100_0000, 0x1_0000_0000, 0x100_0000_0000, 0x1_0000_0000_0000, 0x100_0000_0000_0000int, 0x1_0000_0000_0000_0000int];
    while i < len
        invariant
            i <= len <= 8,
            pos + len <= data.len(),
            v == be_number(data@.subrange(pos as int, pos + i)),
            limits == seq![1, 0x100, 0x1_0000, 0x100_0000, 0x1_0000_0000, 0x100_0000_0000, 0x1_0000_0000_0000, 0x100_0000_0000_0000int, 0x1_0000_0000_0000_0000int],
            v < limits[i as int],
        decreases len - i,
    {
        proof {
            let s = data@.subrange(pos as int, pos + i + 1);
            assert(s.drop_last() =~= data@.subrange(pos as int, pos + i));
            assert(limits[i + 1] == 256 * limits[i as int]);
            assert(limits[i as int] <= 0x100_0000_0000_0000);
        }
        v = v * 256 + data[pos + i] as u64;
        i = i + 1;
    }
    v
}

/// Quick extradata-form probe: an `hvcC` record always starts with
/// `configurationVersion == 1` and is at least 23 bytes, while Annex B extradata
/// starts with a start code.
pub fn extradata_is_hvcc(data: &[u8]) -> (b: bool)
    ensures
        b == (data@.len() >= 23 && data@[0] == 1),
{
    data.len() >= 23 && data[0] == 1
}

/// Parse an `HEVCDecoderConfigurationRecord`.
pub fn parse_hvcc(data: &[u8]) -> (r: Result<HvccRecord, HvccError>)
    ensures
        match r {
            Ok(rec) => record_units(data@) == Ok::<Seq<Unit>, HvccError>(views(rec.nal_units@)) && rec.mirrors(data@),
            Err(e) => record_units(data@) == Err::<Seq<Unit>, HvccError>(e),
        },
{
    if data.len() < 23 {
        return Err(HvccError::Truncated);
    }
    if data[0] != 1 {
        return Err(HvccError::BadVersion(data[0]));
    }
    let length_size_minus_one: usize = (data[21] % 4) as usize;
    if length_size_minus_one == 2 {
        return Err(HvccError::BadLengthSize);
    }
    let mut nal_units: Vec<NalUnit> = Vec::new();
    let num_of_arrays: u8 = data[22];
    let mut pos: usize = 23;
    let mut left: u8 = num_of_arrays;
    let ghost goal = record_units(data@);
    assert(views(nal_units@) =~= Seq::<Unit>::empty());
    while left > 0
        invariant
            23 <= pos <= data@.len(),
            goal == record_units(data@),
            arrays(views(nal_units@), data@, pos as int, left as nat) == goal,
        decreases left,
    {
        if data.len() - pos < 3 {
            return Err(HvccError::Truncated);
        }
        let nal_unit_type: u8 = data[pos] % 64;
        let keep: bool = array_type_permitted(nal_unit_type);
        let num_nalus: u64 = read_number(data, pos + 1, 2);
        let ghost inner = array_units(views(nal_units@), data@, pos + 3, num_nalus as nat, keep);
        let ghost rest = (left - 1) as nat;
        pos = pos + 3;
        let mut count: u64 = num_nalus;
        while count > 0
            invariant
                23 <= pos <= data@.len(),
                array_units(views(nal_units@), data@, pos as int, count as nat, keep) == inner,
                goal == record_units(data@),
                inner matches Err(e) ==> goal == Err::<Seq<Unit>, HvccError>(e),
            decreases count,
        {
            if data.len() - pos < 2 {
                return Err(HvccError::Truncated);
            }
            let len: usize = read_number(data, pos, 2) as usize;
            pos = pos + 2;
            if data.len() - pos < len {
                return Err(HvccError::Truncated);
            }
            if keep {
                match nal_unit_from_coded(vstd::slice::slice_subrange(data, pos, pos + len)) {
                    Ok(u) => {
                        let ghost before = views(nal_units@);
                        nal_units.push(u);
                        assert(views(nal_units@) =~= before.push(u@));
                    },
                    Err(e) => {
                        return Err(HvccError::Nal(e));
                    },
                }
            }
            pos = pos + len;
            count = count - 1;
        }
        left = left - 1;
    }
    let rec = HvccRecord {
        general_profile_space: data[1] / 64,
        general_tier_flag: (data[1] / 32) % 2 == 1,
        general_profile_idc: data[1] % 32,
        general_profile_compatibility_flags: read_number(data, 2, 4) as u32,
        general_constraint_indicator_flags: read_number(data, 6, 6),
        general_level_idc: data[12],
        min_spatial_segmentation_idc: (data[13] % 16) as u16 * 256 + data[14] as u16,
        parallelism_type: data[15] % 4,
        chroma_format_idc: data[16] % 4,
        bit_depth_luma_minus8: data[17] % 8,
        bit_depth_chroma_minus8: data[18] % 8,
        avg_frame_rate: read_number(data, 19, 2) as u16,
        constant_frame_rate: data[21] / 64,
        num_temporal_layers: (data[21] / 8) % 8,
        temporal_id_nested: (data[21] / 4) % 2 == 1,
        length_size: length_size_minus_one + 1,
        nal_units,
    };
    Ok(rec)
}

/// Split a length-prefixed sample buffer (the payload for one or more access
/// units) into its coded NAL units, `length_size` bytes of big-endian size
/// before each unit.
pub fn split_length_prefixed(data: &[u8], length_size: usize) -> (r: Result<Vec<NalUnit>, HvccError>)
    requires
        length_size == 1 || length_size == 2 || length_size == 4,
    ensures
        match r {
            Ok(units) => sample_units(Seq::empty(), data@, 0, length_size as int) == Ok::<Seq<Unit>, HvccError>(
                views(units@),
            ),
            Err(e) => sample_units(Seq::empty(), data@, 0, length_size as int) == Err::<Seq<Unit>, HvccError>(e),
        },
{
    let mut out: Vec<NalUnit> = Vec::new();
    let mut pos: usize = 0;
    let ghost goal = sample_units(Seq::empty(), data@, 0, length_size as int);
    assert(views(out@) =~= Seq::<Unit>::empty());
    while pos < data.len()
        invariant
            length_size == 1 || length_size == 2 || length_size == 4,
            pos <= data@.len(),
            goal == sample_units(Seq::empty(), data@, 0, length_size as int),
            sample_units(views(out@), data@, pos as int, length_size as int) == goal,
        decreases data.len() - pos,
    {
        if data.len() - pos < length_size {
            return Err(HvccError::TruncatedSample);
        }
        let len: u64 = read_number(data, pos, length_size);
        pos = pos + length_size;
        if ((data.len() - pos) as u64) < len {
            return Err(HvccError::TruncatedSample);
        }
        match nal_unit_from_coded(vstd::slice::slice_subrange(data, pos, pos + len as usize)) {
            Ok(u) => {
                let ghost before = views(out@);
                out.push(u);
                assert(views(out@) =~= before.push(u@));
            },
            Err(e) => {
                return Err(HvccError::Nal(e));
            },
        }
        pos = pos + len as usize;
    }
    Ok(out)
}

/// Units behind big-endian length prefixes.
pub open spec fn length_prefixed(units: Seq<Seq<u8>>, length_size: nat) -> Seq<u8>
    decreases units.len(),
{
    if units.len() == 0 {
        Seq::empty()
    } else {
        be_bytes(units[0].len(), length_size) + units[0] + length_prefixed(units.skip(1), length_size)
    }
}

/// A number in `n` big-endian bytes.
pub open spec fn be_bytes(v: nat, n: nat) -> Seq<u8>
    decreases n,
{
    if n == 0 {
        Seq::empty()
    } else {
        be_bytes(v / 256, (n - 1) as nat).push((v % 256) as u8)
    }
}

/// What `n` big-endian bytes can hold.
pub open spec fn byte_capacity(n: nat) -> nat
    decreases n,
{
    if n == 0 {
        1
    } else {
        256 * byte_capacity((n - 1) as nat)
    }
}

pub(crate) proof fn lemma_be_bytes(v: nat, n: nat)
    requires
        v < byte_capacity(n),
    ensures
        be_bytes(v, n).len() == n,
        be_number(be_bytes(v, n)) == v,
    decreases n,
{
    if n > 0 {
        lemma_be_bytes(v / 256, (n - 1) as nat);
        assert(be_bytes(v, n).drop_last() =~= be_bytes(v / 256, (n - 1) as nat));
    }
}

proof fn lemma_sample_units(found: Seq<Unit>, units: Seq<Seq<u8>>, parts: Seq<Unit>, head: Seq<u8>, length_size: nat)
    requires
        length_size > 0,
        parts.len() == units.len(),
        forall|j: int| 0 <= j < units.len() ==> (#[trigger] units[j]).len() < byte_capacity(length_size),
        forall|j: int| 0 <= j < units.len() ==> unit_of(#[trigger] units[j]) == Ok::<Unit, NalError>(parts[j]),
    ensures
        sample_units(found, head + length_prefixed(units, length_size), head.len() as int, length_size as int) == Ok::<
            Seq<Unit>,
            HvccError,
        >(found + parts),
    decreases units.len(),
{
    let data = head + length_prefixed(units, length_size);
    let pos = head.len() as int;
    if units.len() == 0 {
        assert(data =~= head);
        assert(found + parts =~= found);
    } else {
        let u = units[0];
        let prefix = be_bytes(u.len(), length_size);
        lemma_be_bytes(u.len(), length_size);
        let rest = length_prefixed(units.skip(1), length_size);
        assert(data =~= head + prefix + u + rest);
        let begin = pos + length_size;
        assert(data.subrange(pos, begin) =~= prefix);
        assert(data.subrange(begin, begin + u.len()) =~= u);
        let head2 = head + prefix + u;
        assert(data =~= head2 + rest);
        assert forall|j: int| 0 <= j < units.skip(1).len() implies (#[trigger] units.skip(1)[j]).len() < byte_capacity(
            length_size,
        ) && unit_of(units.skip(1)[j]) == Ok::<Unit, NalError>(parts.skip(1)[j]) by {
            assert(units.skip(1)[j] == units[j + 1]);
        }
        lemma_sample_units(found.push(parts[0]), units.skip(1), parts.skip(1), head2, length_size);
        assert(found.push(parts[0]) + parts.skip(1) =~= found + parts);
    }
}

/// Splitting length-prefixed data finds exactly the units that were prefixed.
pub proof fn law_split_inverts_prefixing(units: Seq<Seq<u8>>, parts: Seq<Unit>, length_size: nat)
    requires
        length_size == 1 || length_size == 2 || length_size == 4,
        parts.len() == units.len(),
        forall|j: int| 0 <= j < units.len() ==> (#[trigger] units[j]).len() < byte_capacity(length_size),
        forall|j: int| 0 <= j < units.len() ==> unit_of(#[trigger] units[j]) == Ok::<Unit, NalError>(parts[j]),
    ensures
        sample_units(Seq::empty(), length_prefixed(units, length_size), 0, length_size as int) == Ok::<
            Seq<Unit>,
            HvccError,
        >(parts),
{
    lemma_sample_units(Seq::empty(), units, parts, Seq::empty(), length_size);
    assert(Seq::<u8>::empty() + length_prefixed(units, length_size) =~= length_prefixed(units, length_size));
    assert(Seq::<Unit>::empty() + parts =~= parts);
}

/// Where `left` arrays from position `pos` on end.
pub open spec fn arrays_end(data: Seq<u8>, pos: int, left: nat) -> int
    decreases left,
{
    if left == 0 {
        pos
    } else {
        let keep = permitted_type(data[pos] as int % 64);
        let count = be_number(data.subrange(pos + 1, pos + 3));
        match array_units(Seq::empty(), data, pos + 3, count, keep) {
            Ok((units, end)) => arrays_end(data, end, (left - 1) as nat),
            Err(e) => pos,
        }
    }
}

/// The end of an array does not depend on what was found before it.
proof fn lemma_array_end(found: Seq<Unit>, other: Seq<Unit>, data: Seq<u8>, pos: int, left: nat, keep: bool)
    requires
        array_units(found, data, pos, left, keep) is Ok,
    ensures
        array_units(other, data, pos, left, keep) is Ok,
        array_units(other, data, pos, left, keep)->Ok_0.1 == array_units(found, data, pos, left, keep)->Ok_0.1,
    decreases left,
{
    if left > 0 {
        let len = be_number(data.subrange(pos, pos + 2)) as int;
        let begin = pos + 2;
        if keep {
            let u = unit_of(data.subrange(begin, begin + len))->Ok_0;
            lemma_array_end(found.push(u), other.push(u), data, begin + len, (left - 1) as nat, keep);
        } else {
            lemma_array_end(found, other, data, begin + len, (left - 1) as nat, keep);
        }
    }
}

/// An array cut off before its end is truncated; cut off later it is the same.
proof fn lemma_array_cut(found: Seq<Unit>, data: Seq<u8>, pos: int, left: nat, keep: bool, cut: int)
    requires
        array_units(found, data, pos, left, keep) is Ok,
        0 <= pos <= cut <= data.len(),
    ensures
        pos <= array_units(found, data, pos, left, keep)->Ok_0.1,
        cut < array_units(found, data, pos, left, keep)->Ok_0.1 ==> array_units(
            found,
            data.take(cut),
            pos,
            left,
            keep,
        ) == Err::<(Seq<Unit>, int), HvccError>(HvccError::Truncated),
        cut >= array_units(found, data, pos, left, keep)->Ok_0.1 ==> array_units(
            found,
            data.take(cut),
            pos,
            left,
            keep,
        ) == array_units(found, data, pos, left, keep),
    decreases left,
{
    if left > 0 {
        let len = be_number(data.subrange(pos, pos + 2)) as int;
        let begin = pos + 2;
        let next = begin + len;
        let more = if keep {
            found.push(unit_of(data.subrange(begin, next))->Ok_0)
        } else {
            found
        };
        if begin <= cut {
            assert(data.take(cut).subrange(pos, pos + 2) =~= data.subrange(pos, pos + 2));
        }
        if next <= cut {
            assert(data.take(cut).subrange(begin, next) =~= data.subrange(begin, next));
            lemma_array_cut(more, data, next, (left - 1) as nat, keep, cut);
        } else {
            lemma_array_cut(more, data, next, (left - 1) as nat, keep, data.len() as int);
        }
    }
}

proof fn lemma_arrays_cut(found: Seq<Unit>, data: Seq<u8>, pos: int, left: nat, cut: int)
    requires
        arrays(found, data, pos, left) is Ok,
        0 <= pos <= cut <= data.len(),
        cut < arrays_end(data, pos, left),
    ensures
        arrays(found, data.take(cut), pos, left) == Err::<Seq<Unit>, HvccError>(HvccError::Truncated),
    decreases left,
{
    if left > 0 && pos + 3 <= cut {
        let keep = permitted_type(data[pos] as int % 64);
        let count = be_number(data.subrange(pos + 1, pos + 3));
        assert(data.take(cut)[pos] == data[pos]);
        assert(data.take(cut).subrange(pos + 1, pos + 3) =~= data.subrange(pos + 1, pos + 3));
        lemma_array_end(found, Seq::empty(), data, pos + 3, count, keep);
        lemma_array_cut(found, data, pos + 3, count, keep, cut);
        let (units, end) = array_units(found, data, pos + 3, count, keep)->Ok_0;
        if end <= cut {
            lemma_arrays_cut(units, data, end, (left - 1) as nat, cut);
        }
    }
}

/// A record that is cut off anywhere before its end is refused as truncated.
pub proof fn law_truncated_record_is_refused(data: Seq<u8>, cut: int)
    requires
        record_units(data) is Ok,
        0 <= cut <= data.len(),
        cut < arrays_end(data, 23, data[22] as nat),
    ensures
        record_units(data.take(cut)) == Err::<Seq<Unit>, HvccError>(HvccError::Truncated),
{
    if cut >= 23 {
        assert(data.take(cut)[0] == data[0]);
        assert(data.take(cut)[21] == data[21]);
        assert(data.take(cut)[22] == data[22]);
        lemma_arrays_cut(Seq::empty(), data, 23, data[22] as nat, cut);
    }
}

} // verus!
