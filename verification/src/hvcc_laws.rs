//! Laws of the configuration record: what is written as a record is read back from it.
use vstd::prelude::*;
use crate::hvcc::{
    array_units, arrays, be_bytes, be_number, byte_capacity, extradata_is_hvcc, length_prefixed, parse_hvcc,
    permitted_type, record_units, sample_units, split_length_prefixed, HvccError, HvccRecord,
};
use crate::nal::{unit_of, views, NalError, NalUnit, Unit};

verus! {

/// One array of a record: the type of its units, and the coded units.
pub struct UnitArray {
    pub nal_unit_type: int,
    pub units: Seq<Seq<u8>>,
}

impl UnitArray {
    /// The type takes six bits, the count two bytes and each unit length two bytes.
    pub open spec fn wf(self) -> bool {
        &&& 0 <= self.nal_unit_type < 64
        &&& self.units.len() < 65536
        &&& forall|i: int| 0 <= i < self.units.len() ==> (#[trigger] self.units[i]).len() < 65536
    }

    /// Video, sequence and picture parameter sets and both kinds of supplemental
    /// information are kept.
    pub open spec fn kept(self) -> bool {
        let t = self.nal_unit_type;
        t == 32 || t == 33 || t == 34 || t == 39 || t == 40
    }

    /// The array as a record carries it: completeness and the type, the count, and each unit
    /// behind its length.
    pub open spec fn bytes(self, complete: bool) -> Seq<u8> {
        seq![((if complete {
            128int
        } else {
            0
        }) + self.nal_unit_type) as u8] + be_bytes(self.units.len(), 2) + length_prefixed(self.units, 2)
    }
}

/// The first `n` arrays, one behind the other.
pub open spec fn arrays_bytes(all: Seq<UnitArray>, complete: Seq<bool>) -> Seq<u8>
    decreases all.len(),
{
    if all.len() == 0 {
        Seq::empty()
    } else {
        all[0].bytes(complete[0]) + arrays_bytes(all.skip(1), complete.skip(1))
    }
}

/// The units of the arrays that are kept, in order, as `parts` says each parses.
pub open spec fn carried(all: Seq<UnitArray>, parts: Seq<Seq<Unit>>) -> Seq<Unit>
    decreases all.len(),
{
    if all.len() == 0 {
        Seq::empty()
    } else {
        (if all[0].kept() {
            parts[0]
        } else {
            Seq::empty()
        }) + carried(all.skip(1), parts.skip(1))
    }
}

/// Each kept unit parses, to what `parts` says.
pub open spec fn parses(a: UnitArray, parts: Seq<Unit>) -> bool {
    a.kept() ==> parts.len() == a.units.len() && forall|i: int|
        0 <= i < a.units.len() ==> unit_of(#[trigger] a.units[i]) == Ok::<Unit, NalError>(parts[i])
}

proof fn lemma_two_bytes(v: nat)
    requires
        v < 65536,
    ensures
        be_bytes(v, 2).len() == 2,
        be_number(be_bytes(v, 2)) == v,
{
    assert(byte_capacity(2) == 65536) by {
        reveal_with_fuel(byte_capacity, 3);
    }
    crate::hvcc::lemma_be_bytes(v, 2);
}

proof fn lemma_array(found: Seq<Unit>, a: UnitArray, parts: Seq<Unit>, head: Seq<u8>, tail: Seq<u8>, k: nat, keep: bool)
    requires
        a.wf(),
        keep ==> parts.len() == a.units.len(),
        keep ==> forall|i: int|
            0 <= i < a.units.len() ==> unit_of(#[trigger] a.units[i]) == Ok::<Unit, NalError>(parts[i]),
        k <= a.units.len(),
    ensures
        ({
            let left = a.units.skip(k as int);
            let coded = length_prefixed(left, 2);
            array_units(found, head + coded + tail, head.len() as int, left.len(), keep) == Ok::<
                (Seq<Unit>, int),
                HvccError,
            >(
                (
                    if keep {
                        found + parts.skip(k as int)
                    } else {
                        found
                    },
                    (head.len() + coded.len()) as int,
                ),
            )
        }),
    decreases a.units.len() - k,
{
    let left = a.units.skip(k as int);
    let coded = length_prefixed(left, 2);
    let data = head + coded + tail;
    let pos = head.len() as int;
    if k == a.units.len() {
        assert(left.len() == 0);
        if keep {
            assert(found + parts.skip(k as int) =~= found);
        }
    } else {
        let u = a.units[k as int];
        assert(left[0] == u);
        lemma_two_bytes(u.len());
        let prefix = be_bytes(u.len(), 2);
        assert(left.skip(1) =~= a.units.skip(k as int + 1));
        let rest = length_prefixed(a.units.skip(k as int + 1), 2);
        assert(coded =~= prefix + u + rest);
        assert(data.subrange(pos, pos + 2) =~= prefix);
        assert(data.subrange(pos + 2, pos + 2 + u.len()) =~= u);
        let head2 = head + prefix + u;
        assert(data =~= head2 + rest + tail);
        if keep {
            let more = found.push(parts[k as int]);
            lemma_array(more, a, parts, head2, tail, k + 1, keep);
            assert(more + parts.skip(k as int + 1) =~= found + parts.skip(k as int));
        } else {
            lemma_array(found, a, parts, head2, tail, k + 1, keep);
        }
    }
}

proof fn lemma_arrays(
    found: Seq<Unit>,
    all: Seq<UnitArray>,
    complete: Seq<bool>,
    parts: Seq<Seq<Unit>>,
    head: Seq<u8>,
)
    requires
        complete.len() == all.len(),
        parts.len() == all.len(),
        forall|i: int| 0 <= i < all.len() ==> (#[trigger] all[i]).wf() && parses(all[i], parts[i]),
    ensures
        arrays(found, head + arrays_bytes(all, complete), head.len() as int, all.len()) == Ok::<Seq<Unit>, HvccError>(
            found + carried(all, parts),
        ),
    decreases all.len(),
{
    let data = head + arrays_bytes(all, complete);
    let pos = head.len() as int;
    if all.len() == 0 {
        assert(found + carried(all, parts) =~= found);
    } else {
        let a = all[0];
        let first = ((if complete[0] {
            128int
        } else {
            0
        }) + a.nal_unit_type) as u8;
        assert(a.wf() && parses(a, parts[0]));
        lemma_two_bytes(a.units.len());
        let count = be_bytes(a.units.len(), 2);
        let coded = length_prefixed(a.units, 2);
        let rest = arrays_bytes(all.skip(1), complete.skip(1));
        let head1 = head + seq![first] + count;
        assert(data =~= head1 + coded + rest);
        assert(data[pos] == first);
        assert(first as int % 64 == a.nal_unit_type);
        assert(data.subrange(pos + 1, pos + 3) =~= count);
        assert(a.units.skip(0) =~= a.units);
        lemma_array(found, a, parts[0], head1, rest, 0, a.kept());
        assert(parts[0].skip(0) =~= parts[0]);
        let more = if a.kept() {
            found + parts[0]
        } else {
            found
        };
        let head2 = head1 + coded;
        assert(data =~= head2 + rest);
        assert forall|i: int| 0 <= i < all.skip(1).len() implies (#[trigger] all.skip(1)[i]).wf() && parses(
            all.skip(1)[i],
            parts.skip(1)[i],
        ) by {
            assert(all.skip(1)[i] == all[i + 1]);
        }
        lemma_arrays(more, all.skip(1), complete.skip(1), parts.skip(1), head2);
        assert(more + carried(all.skip(1), parts.skip(1)) =~= found + carried(all, parts));
    }
}

/// The fixed fields of a record that holds `count` arrays, as they are written; reserved
/// bits are ones.
#[verifier::opaque]
pub open spec fn fixed_bytes(rec: HvccRecord, count: nat) -> Seq<u8> {
    let tier: int = if rec.general_tier_flag {
        1
    } else {
        0
    };
    let nested: int = if rec.temporal_id_nested {
        1
    } else {
        0
    };
    seq![1u8, (64 * rec.general_profile_space + 32 * tier + rec.general_profile_idc) as u8] + be_bytes(
        rec.general_profile_compatibility_flags as nat,
        4,
    ) + be_bytes(rec.general_constraint_indicator_flags as nat, 6) + seq![rec.general_level_idc] + be_bytes(
        (0xf000 + rec.min_spatial_segmentation_idc) as nat,
        2,
    ) + seq![
        (0xfc + rec.parallelism_type) as u8,
        (0xfc + rec.chroma_format_idc) as u8,
        (0xf8 + rec.bit_depth_luma_minus8) as u8,
        (0xf8 + rec.bit_depth_chroma_minus8) as u8,
    ] + be_bytes(rec.avg_frame_rate as nat, 2) + seq![
        (64 * rec.constant_frame_rate + 8 * rec.num_temporal_layers + 4 * nested + (rec.length_size - 1)) as u8,
        count as u8,
    ]
}

/// Each field fits the bits that it has.
pub open spec fn fields_fit(rec: HvccRecord) -> bool {
    &&& rec.general_profile_space < 4
    &&& rec.general_profile_idc < 32
    &&& rec.general_constraint_indicator_flags < 0x1_0000_0000_0000
    &&& rec.min_spatial_segmentation_idc < 4096
    &&& rec.parallelism_type < 4
    &&& rec.chroma_format_idc < 4
    &&& rec.bit_depth_luma_minus8 < 8
    &&& rec.bit_depth_chroma_minus8 < 8
    &&& rec.constant_frame_rate < 4
    &&& rec.num_temporal_layers < 8
    &&& rec.length_size == 1 || rec.length_size == 2 || rec.length_size == 4
}

/// Every fixed field but the units is the same.
pub open spec fn same_fields(a: HvccRecord, b: HvccRecord) -> bool {
    &&& a.general_profile_space == b.general_profile_space
    &&& a.general_tier_flag == b.general_tier_flag
    &&& a.general_profile_idc == b.general_profile_idc
    &&& a.general_profile_compatibility_flags == b.general_profile_compatibility_flags
    &&& a.general_constraint_indicator_flags == b.general_constraint_indicator_flags
    &&& a.general_level_idc == b.general_level_idc
    &&& a.min_spatial_segmentation_idc == b.min_spatial_segmentation_idc
    &&& a.parallelism_type == b.parallelism_type
    &&& a.chroma_format_idc == b.chroma_format_idc
    &&& a.bit_depth_luma_minus8 == b.bit_depth_luma_minus8
    &&& a.bit_depth_chroma_minus8 == b.bit_depth_chroma_minus8
    &&& a.avg_frame_rate == b.avg_frame_rate
    &&& a.constant_frame_rate == b.constant_frame_rate
    &&& a.num_temporal_layers == b.num_temporal_layers
    &&& a.temporal_id_nested == b.temporal_id_nested
    &&& a.length_size == b.length_size
}

/// The fields stand where the record has them.
spec fn holds_fields(d: Seq<u8>, f: HvccRecord, count: nat) -> bool {
    &&& d.len() >= 23
    &&& d[0] == 1
    &&& d[1] == 64 * f.general_profile_space + 32 * (if f.general_tier_flag {
        1int
    } else {
        0
    }) + f.general_profile_idc
    &&& be_number(d.subrange(2, 6)) == f.general_profile_compatibility_flags
    &&& be_number(d.subrange(6, 12)) == f.general_constraint_indicator_flags
    &&& d[12] == f.general_level_idc
    &&& be_number(d.subrange(13, 15)) == 0xf000 + f.min_spatial_segmentation_idc
    &&& d[15] == 0xfc + f.parallelism_type
    &&& d[16] == 0xfc + f.chroma_format_idc
    &&& d[17] == 0xf8 + f.bit_depth_luma_minus8
    &&& d[18] == 0xf8 + f.bit_depth_chroma_minus8
    &&& be_number(d.subrange(19, 21)) == f.avg_frame_rate
    &&& d[21] == 64 * f.constant_frame_rate + 8 * f.num_temporal_layers + 4 * (if f.temporal_id_nested {
        1int
    } else {
        0
    }) + (f.length_size - 1)
    &&& d[22] == count
}

proof fn lemma_fixed(rec: HvccRecord, count: nat)
    requires
        fields_fit(rec),
        count < 256,
    ensures
        fixed_bytes(rec, count).len() == 23,
        holds_fields(fixed_bytes(rec, count), rec, count),
{
    reveal(fixed_bytes);
    reveal_with_fuel(byte_capacity, 7);
    let a = be_bytes(rec.general_profile_compatibility_flags as nat, 4);
    let b = be_bytes(rec.general_constraint_indicator_flags as nat, 6);
    let c = be_bytes((0xf000 + rec.min_spatial_segmentation_idc) as nat, 2);
    let e = be_bytes(rec.avg_frame_rate as nat, 2);
    crate::hvcc::lemma_be_bytes(rec.general_profile_compatibility_flags as nat, 4);
    crate::hvcc::lemma_be_bytes(rec.general_constraint_indicator_flags as nat, 6);
    crate::hvcc::lemma_be_bytes((0xf000 + rec.min_spatial_segmentation_idc) as nat, 2);
    crate::hvcc::lemma_be_bytes(rec.avg_frame_rate as nat, 2);
    let d = fixed_bytes(rec, count);
    assert(d.subrange(2, 6) =~= a);
    assert(d.subrange(6, 12) =~= b);
    assert(d.subrange(13, 15) =~= c);
    assert(d.subrange(19, 21) =~= e);
}

proof fn lemma_fields_of(data: Seq<u8>, head: Seq<u8>, f: HvccRecord, count: nat)
    requires
        holds_fields(head, f, count),
        head.len() == 23,
        data.len() >= 23,
        data.take(23) == head,
    ensures
        holds_fields(data, f, count),
{
    assert(forall|i: int| 0 <= i < 23 ==> #[trigger] data[i] == head[i]) by {
        assert forall|i: int| 0 <= i < 23 implies #[trigger] data[i] == head[i] by {
            assert(data.take(23)[i] == data[i]);
        }
    }
    assert(data.subrange(2, 6) =~= head.subrange(2, 6));
    assert(data.subrange(6, 12) =~= head.subrange(6, 12));
    assert(data.subrange(13, 15) =~= head.subrange(13, 15));
    assert(data.subrange(19, 21) =~= head.subrange(19, 21));
}

proof fn lemma_mirrored(rec: HvccRecord, f: HvccRecord, data: Seq<u8>, count: nat)
    requires
        fields_fit(f),
        holds_fields(data, f, count),
        rec.mirrors(data),
    ensures
        same_fields(rec, f),
{
    law_numbers_are_big_endian(data.subrange(13, 15));
    assert(data.subrange(13, 15)[0] == data[13] && data.subrange(13, 15)[1] == data[14]);
}

/// A number in two bytes is the first times 256 and the second; and the four and six byte
/// ones go on in the same way.
pub proof fn law_numbers_are_big_endian(s: Seq<u8>)
    ensures
        s.len() == 1 ==> be_number(s) == s[0],
        s.len() == 2 ==> be_number(s) == 256 * s[0] + s[1],
        s.len() >= 2 ==> be_number(s) == 65536 * be_number(s.take(s.len() - 2)) + 256 * s[s.len() - 2] + s[s.len() - 1],
{
    reveal_with_fuel(be_number, 3);
    if s.len() >= 2 {
        assert(s.drop_last().drop_last() =~= s.take(s.len() - 2));
    }
}

/// What is written as a record is read back: every fixed field, and the units of the arrays
/// of video, sequence and picture parameter sets and of prefix and suffix supplemental
/// information, in order. The units of every other array are passed over.
pub proof fn law_record_reads_back(
    data: &[u8],
    r: Result<HvccRecord, HvccError>,
    probed: bool,
    want: HvccRecord,
    all: Seq<UnitArray>,
    complete: Seq<bool>,
    parts: Seq<Seq<Unit>>,
)
    requires
        fields_fit(want),
        all.len() < 256,
        complete.len() == all.len(),
        parts.len() == all.len(),
        forall|i: int| 0 <= i < all.len() ==> (#[trigger] all[i]).wf() && parses(all[i], parts[i]),
        data@ == fixed_bytes(want, all.len()) + arrays_bytes(all, complete),
        call_ensures(parse_hvcc, (data,), r),
        call_ensures(extradata_is_hvcc, (data,), probed),
    ensures
        probed,
        r matches Ok(rec) && same_fields(rec, want) && views(rec.nal_units@) == carried(all, parts),
{
    let head = fixed_bytes(want, all.len());
    lemma_fixed(want, all.len());
    lemma_arrays(Seq::empty(), all, complete, parts, head);
    assert(Seq::<Unit>::empty() + carried(all, parts) =~= carried(all, parts));
    assert(data@.take(23) =~= head);
    lemma_fields_of(data@, head, want, all.len());
    assert(record_units(data@) == Ok::<Seq<Unit>, HvccError>(carried(all, parts)));
    lemma_mirrored(r->Ok_0, want, data@, all.len());
}

/// What is no record is refused for what is wrong with it first: its length, its version, its
/// length size.
pub proof fn law_what_is_no_record_is_refused(data: &[u8], r: Result<HvccRecord, HvccError>, probed: bool)
    requires
        call_ensures(parse_hvcc, (data,), r),
        call_ensures(extradata_is_hvcc, (data,), probed),
    ensures
        data@.len() < 23 ==> r == Err::<HvccRecord, HvccError>(HvccError::Truncated),
        data@.len() >= 23 && data@[0] != 1 ==> r == Err::<HvccRecord, HvccError>(HvccError::BadVersion(data@[0])),
        data@.len() >= 23 && data@[0] == 1 && data@[21] % 4 == 2 ==> r == Err::<HvccRecord, HvccError>(
            HvccError::BadLengthSize,
        ),
        r is Ok ==> probed,
        probed ==> (r matches Err(e) ==> !(e is BadVersion)),
{
    if data@.len() >= 23 && data@[0] == 1 && data@[21] % 4 != 2 {
        lemma_arrays_error(Seq::empty(), data@, 23, data@[22] as nat);
    }
}

proof fn lemma_array_error(found: Seq<Unit>, data: Seq<u8>, pos: int, left: nat, keep: bool)
    ensures
        array_units(found, data, pos, left, keep) matches Err(e) ==> !(e is BadVersion),
    decreases left,
{
    if left > 0 && pos + 2 <= data.len() {
        let len = be_number(data.subrange(pos, pos + 2)) as int;
        let begin = pos + 2;
        if begin + len <= data.len() {
            if keep {
                if let Ok(u) = unit_of(data.subrange(begin, begin + len)) {
                    lemma_array_error(found.push(u), data, begin + len, (left - 1) as nat, keep);
                }
            } else {
                lemma_array_error(found, data, begin + len, (left - 1) as nat, keep);
            }
        }
    }
}

proof fn lemma_arrays_error(found: Seq<Unit>, data: Seq<u8>, pos: int, left: nat)
    ensures
        arrays(found, data, pos, left) matches Err(e) ==> !(e is BadVersion),
    decreases left,
{
    if left > 0 && pos + 3 <= data.len() {
        let keep = permitted_type(data[pos] as int % 64);
        let count = be_number(data.subrange(pos + 1, pos + 3));
        lemma_array_error(found, data, pos + 3, count, keep);
        if let Ok((units, end)) = array_units(found, data, pos + 3, count, keep) {
            lemma_arrays_error(units, data, end, (left - 1) as nat);
        }
    }
}

/// Sample data that was written as units behind their lengths, in one, two or four bytes,
/// splits into those units; and a prefix or a unit that is cut off is refused.
pub proof fn law_samples_split_back(
    data: &[u8],
    length_size: usize,
    units: Seq<Seq<u8>>,
    parts: Seq<Unit>,
    cut: Seq<u8>,
    r: Result<Vec<NalUnit>, HvccError>,
)
    requires
        length_size == 1 || length_size == 2 || length_size == 4,
        parts.len() == units.len(),
        forall|j: int| 0 <= j < units.len() ==> (#[trigger] units[j]).len() < byte_capacity(length_size as nat),
        forall|j: int| 0 <= j < units.len() ==> unit_of(#[trigger] units[j]) == Ok::<Unit, NalError>(parts[j]),
        data@ == length_prefixed(units, length_size as nat) + cut,
        call_ensures(split_length_prefixed, (data, length_size), r),
    ensures
        cut.len() == 0 ==> (r matches Ok(found) && views(found@) == parts),
        0 < cut.len() < length_size ==> r == Err::<Vec<NalUnit>, HvccError>(HvccError::TruncatedSample),
        cut.len() >= length_size && cut.len() < length_size + be_number(cut.take(length_size as int)) ==> r == Err::<
            Vec<NalUnit>,
            HvccError,
        >(HvccError::TruncatedSample),
{
    lemma_units_behind(Seq::empty(), units, parts, Seq::empty(), cut, length_size as nat);
    let whole = length_prefixed(units, length_size as nat);
    assert(Seq::<u8>::empty() + whole + cut =~= data@);
    assert(Seq::<Unit>::empty() + parts =~= parts);
    let pos = whole.len() as int;
    if cut.len() >= length_size {
        assert(data@.subrange(pos, pos + length_size) =~= cut.take(length_size as int));
    }
}

proof fn lemma_units_behind(
    found: Seq<Unit>,
    units: Seq<Seq<u8>>,
    parts: Seq<Unit>,
    head: Seq<u8>,
    cut: Seq<u8>,
    length_size: nat,
)
    requires
        length_size > 0,
        parts.len() == units.len(),
        forall|j: int| 0 <= j < units.len() ==> (#[trigger] units[j]).len() < byte_capacity(length_size),
        forall|j: int| 0 <= j < units.len() ==> unit_of(#[trigger] units[j]) == Ok::<Unit, NalError>(parts[j]),
    ensures
        ({
            let whole = length_prefixed(units, length_size);
            let data = head + whole + cut;
            sample_units(found, data, head.len() as int, length_size as int) == sample_units(
                found + parts,
                data,
                (head.len() + whole.len()) as int,
                length_size as int,
            )
        }),
    decreases units.len(),
{
    let whole = length_prefixed(units, length_size);
    let data = head + whole + cut;
    let pos = head.len() as int;
    if units.len() == 0 {
        assert(found + parts =~= found);
    } else {
        let u = units[0];
        let prefix = be_bytes(u.len(), length_size);
        crate::hvcc::lemma_be_bytes(u.len(), length_size);
        let rest = length_prefixed(units.skip(1), length_size);
        let begin = pos + length_size;
        assert(whole =~= prefix + u + rest);
        assert(data.subrange(pos, begin) =~= prefix);
        assert(data.subrange(begin, begin + u.len()) =~= u);
        let head2 = head + prefix + u;
        assert(data =~= head2 + rest + cut);
        assert forall|j: int| 0 <= j < units.skip(1).len() implies (#[trigger] units.skip(1)[j]).len() < byte_capacity(
            length_size,
        ) && unit_of(units.skip(1)[j]) == Ok::<Unit, NalError>(parts.skip(1)[j]) by {
            assert(units.skip(1)[j] == units[j + 1]);
        }
        lemma_units_behind(found.push(parts[0]), units.skip(1), parts.skip(1), head2, cut, length_size);
        assert(found.push(parts[0]) + parts.skip(1) =~= found + parts);
    }
}

} // verus!
