//! Laws of the HRD parameters: a body that is written by the syntax is read back, and what
//! is read is legal.
use vstd::prelude::*;
use vstd::arithmetic::power2::lemma2_to64;
use crate::bitreader::{law_ue_roundtrip, BitReader};
use crate::bits::{be_bits, lemma_be_bits_roundtrip, ue_bits};
use crate::hrd::{
    common_at, common_len, deref_common, gates, inherited_common, last_entry, law_payload_is_ordered, ordered,
    read_code, read_common, read_cpb_cnt, read_du_values, read_entries, read_entry, read_flag, read_hrd, read_layer,
    read_layers, read_optional_payload, read_rate, CpbEntry, Gates, Hrd, HrdCommonInfo, HrdError, HrdParameters,
    Refusal, SubLayer, SubLayerHrdParameters, VpsHrdEntry,
};

verus! {

/// The common information as it is written.
pub open spec fn common_bits(c: HrdCommonInfo) -> Seq<bool> {
    let any = c.nal_hrd_parameters_present_flag || c.vcl_hrd_parameters_present_flag;
    let sub_pic = c.sub_pic_hrd_params_present_flag;
    let none = Seq::<bool>::empty();
    seq![c.nal_hrd_parameters_present_flag, c.vcl_hrd_parameters_present_flag] + if !any {
        none
    } else {
        seq![sub_pic] + (if sub_pic {
            be_bits(c.tick_divisor_minus2 as nat, 8) + be_bits(
                c.du_cpb_removal_delay_increment_length_minus1 as nat,
                5,
            ) + seq![c.sub_pic_cpb_params_in_pic_timing_sei_flag] + be_bits(
                c.dpb_output_delay_du_length_minus1 as nat,
                5,
            )
        } else {
            none
        }) + be_bits(c.bit_rate_scale as nat, 4) + be_bits(c.cpb_size_scale as nat, 4) + (if sub_pic {
            be_bits(c.cpb_size_du_scale as nat, 4)
        } else {
            none
        }) + be_bits(c.initial_cpb_removal_delay_length_minus1 as nat, 5) + be_bits(
            c.au_cpb_removal_delay_length_minus1 as nat,
            5,
        ) + be_bits(c.dpb_output_delay_length_minus1 as nat, 5)
    }
}

/// What is not signalled is zero, and what is fits its bits.
pub open spec fn common_legal(c: HrdCommonInfo) -> bool {
    let any = c.nal_hrd_parameters_present_flag || c.vcl_hrd_parameters_present_flag;
    let sub_pic = c.sub_pic_hrd_params_present_flag;
    &&& sub_pic ==> any
    &&& !sub_pic ==> c.tick_divisor_minus2 == 0 && c.du_cpb_removal_delay_increment_length_minus1 == 0
        && !c.sub_pic_cpb_params_in_pic_timing_sei_flag && c.dpb_output_delay_du_length_minus1 == 0
        && c.cpb_size_du_scale == 0
    &&& !any ==> c.bit_rate_scale == 0 && c.cpb_size_scale == 0 && c.initial_cpb_removal_delay_length_minus1 == 0
        && c.au_cpb_removal_delay_length_minus1 == 0 && c.dpb_output_delay_length_minus1 == 0
    &&& c.du_cpb_removal_delay_increment_length_minus1 < 32
    &&& c.dpb_output_delay_du_length_minus1 < 32
    &&& c.bit_rate_scale < 16
    &&& c.cpb_size_scale < 16
    &&& c.cpb_size_du_scale < 16
    &&& c.initial_cpb_removal_delay_length_minus1 < 32
    &&& c.au_cpb_removal_delay_length_minus1 < 32
    &&& c.dpb_output_delay_length_minus1 < 32
}

/// The common information reads back.
#[verifier::rlimit(50)]
#[verifier::spinoff_prover]
pub proof fn law_common_information_reads_back(c: HrdCommonInfo, rest: Seq<bool>)
    requires
        common_legal(c),
    ensures
        read_common(common_bits(c) + rest) == Ok::<(HrdCommonInfo, Seq<bool>), Refusal>((c, rest)),
{
    let s = common_bits(c) + rest;
    let any = c.nal_hrd_parameters_present_flag || c.vcl_hrd_parameters_present_flag;
    lemma2_to64();
    assert(s[0] == c.nal_hrd_parameters_present_flag && s[1] == c.vcl_hrd_parameters_present_flag);
    lemma_be_bits_roundtrip(c.tick_divisor_minus2 as nat, 8);
    lemma_be_bits_roundtrip(c.du_cpb_removal_delay_increment_length_minus1 as nat, 5);
    lemma_be_bits_roundtrip(c.dpb_output_delay_du_length_minus1 as nat, 5);
    lemma_be_bits_roundtrip(c.bit_rate_scale as nat, 4);
    lemma_be_bits_roundtrip(c.cpb_size_scale as nat, 4);
    lemma_be_bits_roundtrip(c.cpb_size_du_scale as nat, 4);
    lemma_be_bits_roundtrip(c.initial_cpb_removal_delay_length_minus1 as nat, 5);
    lemma_be_bits_roundtrip(c.au_cpb_removal_delay_length_minus1 as nat, 5);
    lemma_be_bits_roundtrip(c.dpb_output_delay_length_minus1 as nat, 5);
    let lengths = |at: int|
        s.subrange(at, at + 5) =~= be_bits(c.initial_cpb_removal_delay_length_minus1 as nat, 5) && s.subrange(
            at + 5,
            at + 10,
        ) =~= be_bits(c.au_cpb_removal_delay_length_minus1 as nat, 5) && s.subrange(at + 10, at + 15) =~= be_bits(
            c.dpb_output_delay_length_minus1 as nat,
            5,
        );
    if !any {
        assert(s.skip(2) =~= rest);
    } else if c.sub_pic_hrd_params_present_flag {
        assert(s.len() == 49 + rest.len());
        assert(s[2]);
        assert(s.skip(49) =~= rest);
        assert(s.subrange(3, 11) =~= be_bits(c.tick_divisor_minus2 as nat, 8));
        assert(s.subrange(11, 16) =~= be_bits(c.du_cpb_removal_delay_increment_length_minus1 as nat, 5));
        assert(s[16] == c.sub_pic_cpb_params_in_pic_timing_sei_flag);
        assert(s.subrange(17, 22) =~= be_bits(c.dpb_output_delay_du_length_minus1 as nat, 5));
        assert(s.subrange(22, 26) =~= be_bits(c.bit_rate_scale as nat, 4));
        assert(s.subrange(26, 30) =~= be_bits(c.cpb_size_scale as nat, 4));
        assert(s.subrange(30, 34) =~= be_bits(c.cpb_size_du_scale as nat, 4));
        assert(lengths(34));
    } else {
        assert(s.len() == 26 + rest.len());
        assert(!s[2]);
        assert(s.skip(26) =~= rest);
        assert(s.subrange(3, 7) =~= be_bits(c.bit_rate_scale as nat, 4));
        assert(s.subrange(7, 11) =~= be_bits(c.cpb_size_scale as nat, 4));
        assert(lengths(11));
    }
    assert(common_at(s) == c);
}

/// A value that an exp-Golomb code can carry.
pub open spec fn codable(v: u32) -> bool {
    v <= 0xffff_fffe
}

/// An exp-Golomb code.
#[verifier::opaque]
pub open spec fn code_bits(v: nat) -> Seq<bool> {
    ue_bits(v)
}

proof fn lemma_assoc(a: Seq<bool>, b: Seq<bool>, c: Seq<bool>)
    ensures
        (a + b) + c == a + (b + c),
{
    assert((a + b) + c =~= a + (b + c));
}

proof fn lemma_empty(a: Seq<bool>, b: Seq<bool>)
    requires
        a.len() == 0,
    ensures
        a + b == b,
{
    assert(a + b =~= b);
}

/// One CPB entry as it is written.
#[verifier::opaque]
pub open spec fn entry_bits(e: CpbEntry, sub_pic: bool) -> Seq<bool> {
    code_bits(e.bit_rate_value_minus1 as nat) + code_bits(e.cpb_size_value_minus1 as nat) + (if sub_pic {
        code_bits(e.cpb_size_du_value_minus1->0 as nat) + code_bits(e.bit_rate_du_value_minus1->0 as nat)
    } else {
        Seq::empty()
    }) + seq![e.cbr_flag]
}

/// An entry has the sub-picture values exactly where they are signalled.
pub open spec fn entry_legal(e: CpbEntry, sub_pic: bool) -> bool {
    &&& codable(e.bit_rate_value_minus1) && codable(e.cpb_size_value_minus1)
    &&& e.cpb_size_du_value_minus1 is Some == sub_pic
    &&& e.bit_rate_du_value_minus1 is Some == sub_pic
    &&& sub_pic ==> codable(e.cpb_size_du_value_minus1->0) && codable(e.bit_rate_du_value_minus1->0)
}

/// An entry may stand behind another: both rates rise, and neither size does.
pub open spec fn follows(e: CpbEntry, prev: CpbEntry, sub_pic: bool) -> bool {
    &&& e.bit_rate_value_minus1 > prev.bit_rate_value_minus1
    &&& e.cpb_size_value_minus1 <= prev.cpb_size_value_minus1
    &&& sub_pic ==> e.bit_rate_du_value_minus1->0 > prev.bit_rate_du_value_minus1->0
        && e.cpb_size_du_value_minus1->0 <= prev.cpb_size_du_value_minus1->0
}

/// The entries from number `k` on, one behind the other.
pub open spec fn entries_bits(e: Seq<CpbEntry>, k: nat, sub_pic: bool) -> Seq<bool>
    decreases e.len() - k,
{
    if k >= e.len() {
        Seq::empty()
    } else {
        entry_bits(e[k as int], sub_pic) + entries_bits(e, k + 1, sub_pic)
    }
}

/// A payload has 1 to 32 entries, each of which may stand behind the one before.
pub open spec fn payload_legal(e: Seq<CpbEntry>, sub_pic: bool) -> bool {
    &&& 1 <= e.len() <= 32
    &&& forall|i: int| 0 <= i < e.len() ==> entry_legal(#[trigger] e[i], sub_pic)
    &&& forall|i: int| 0 < i < e.len() ==> follows(#[trigger] e[i], e[i - 1], sub_pic)
}

proof fn lemma_flag(b: bool, rest: Seq<bool>)
    ensures
        read_flag(seq![b] + rest) == Ok::<(bool, Seq<bool>), Refusal>((b, rest)),
{
    assert((seq![b] + rest).skip(1) =~= rest);
}

proof fn lemma_code(v: u32, rest: Seq<bool>)
    requires
        codable(v),
    ensures
        read_code(code_bits(v as nat) + rest) == Ok::<(u32, Seq<bool>), Refusal>((v, rest)),
{
    reveal(code_bits);
    law_ue_roundtrip(v as nat, rest);
}

/// An entry is read field by field.
proof fn lemma_entry_steps(
    e: CpbEntry,
    prev: Option<CpbEntry>,
    sub_pic: bool,
    s: Seq<bool>,
    s1: Seq<bool>,
    s2: Seq<bool>,
    s3: Seq<bool>,
    rest: Seq<bool>,
)
    requires
        entry_legal(e, sub_pic),
        prev matches Some(p) ==> entry_legal(p, sub_pic) && follows(e, p, sub_pic),
        read_code(s) == Ok::<(u32, Seq<bool>), Refusal>((e.bit_rate_value_minus1, s1)),
        read_code(s1) == Ok::<(u32, Seq<bool>), Refusal>((e.cpb_size_value_minus1, s2)),
        sub_pic ==> (read_code(s2) matches Ok((size, mid)) && size == e.cpb_size_du_value_minus1->0 && read_code(mid)
            == Ok::<(u32, Seq<bool>), Refusal>((e.bit_rate_du_value_minus1->0, s3))),
        !sub_pic ==> s2 == s3,
        read_flag(s3) == Ok::<(bool, Seq<bool>), Refusal>((e.cbr_flag, rest)),
    ensures
        read_entry(s, sub_pic, prev) == Ok::<(CpbEntry, Seq<bool>), Refusal>((e, rest)),
{
    if sub_pic {
        assert(read_du_values(s2, sub_pic, prev) == Ok::<(Option<u32>, Option<u32>, Seq<bool>), Refusal>(
            (e.cpb_size_du_value_minus1, e.bit_rate_du_value_minus1, s3),
        ));
    }
}

proof fn lemma_entry(e: CpbEntry, prev: Option<CpbEntry>, sub_pic: bool, rest: Seq<bool>)
    requires
        entry_legal(e, sub_pic),
        prev matches Some(p) ==> entry_legal(p, sub_pic) && follows(e, p, sub_pic),
    ensures
        read_entry(entry_bits(e, sub_pic) + rest, sub_pic, prev) == Ok::<(CpbEntry, Seq<bool>), Refusal>((e, rest)),
{
    reveal(entry_bits);
    let s4 = rest;
    let s3 = seq![e.cbr_flag] + s4;
    lemma_flag(e.cbr_flag, s4);
    let s2 = if sub_pic {
        code_bits(e.cpb_size_du_value_minus1->0 as nat) + (code_bits(e.bit_rate_du_value_minus1->0 as nat) + s3)
    } else {
        s3
    };
    if sub_pic {
        lemma_code(e.bit_rate_du_value_minus1->0, s3);
        lemma_code(e.cpb_size_du_value_minus1->0, code_bits(e.bit_rate_du_value_minus1->0 as nat) + s3);
    }
    let s1 = code_bits(e.cpb_size_value_minus1 as nat) + s2;
    lemma_code(e.cpb_size_value_minus1, s2);
    lemma_code(e.bit_rate_value_minus1, s1);
    let (a, b) = (code_bits(e.bit_rate_value_minus1 as nat), code_bits(e.cpb_size_value_minus1 as nat));
    let c = if sub_pic {
        code_bits(e.cpb_size_du_value_minus1->0 as nat) + code_bits(e.bit_rate_du_value_minus1->0 as nat)
    } else {
        Seq::empty()
    };
    lemma_assoc(a + b + c, seq![e.cbr_flag], rest);
    lemma_assoc(a + b, c, s3);
    lemma_assoc(a, b, c + s3);
    if sub_pic {
        lemma_assoc(
            code_bits(e.cpb_size_du_value_minus1->0 as nat),
            code_bits(e.bit_rate_du_value_minus1->0 as nat),
            s3,
        );
    } else {
        lemma_empty(c, s3);
    }
    assert(entry_bits(e, sub_pic) + rest == a + s1);
    lemma_entry_steps(e, prev, sub_pic, a + s1, s1, s2, s3, rest);
}

proof fn lemma_entries(e: Seq<CpbEntry>, k: nat, sub_pic: bool, rest: Seq<bool>)
    requires
        payload_legal(e, sub_pic),
        k <= e.len(),
    ensures
        read_entries(e.take(k as int), entries_bits(e, k, sub_pic) + rest, (e.len() - k) as nat, sub_pic) == Ok::<
            (Seq<CpbEntry>, Seq<bool>),
            Refusal,
        >((e, rest)),
    decreases e.len() - k,
{
    let found = e.take(k as int);
    if k == e.len() {
        assert(found =~= e);
        assert(entries_bits(e, k, sub_pic) + rest =~= rest);
    } else {
        let next = e[k as int];
        let behind = entries_bits(e, k + 1, sub_pic) + rest;
        lemma_assoc(entry_bits(next, sub_pic), entries_bits(e, k + 1, sub_pic), rest);
        assert(entry_legal(next, sub_pic));
        if k > 0 {
            assert(found.last() == e[k - 1]);
            assert(follows(e[k as int], e[k - 1], sub_pic));
            assert(entry_legal(e[k - 1], sub_pic));
        }
        lemma_entry(next, last_entry(found), sub_pic, behind);
        assert(found.push(next) =~= e.take(k as int + 1));
        lemma_entries(e, k + 1, sub_pic, rest);
    }
}

/// An optional payload as it is written.
pub open spec fn payload_bits(p: Option<Seq<CpbEntry>>, sub_pic: bool) -> Seq<bool> {
    match p {
        Some(e) => entries_bits(e, 0, sub_pic),
        None => Seq::empty(),
    }
}

proof fn lemma_payload(p: Option<Seq<CpbEntry>>, present: bool, count: u32, sub_pic: bool, rest: Seq<bool>)
    requires
        p is Some == present,
        p matches Some(e) ==> e.len() == count && payload_legal(e, sub_pic),
    ensures
        read_optional_payload(payload_bits(p, sub_pic) + rest, present, count, sub_pic) == Ok::<
            (Option<Seq<CpbEntry>>, Seq<bool>),
            Refusal,
        >((p, rest)),
{
    match p {
        Some(e) => {
            lemma_entries(e, 0, sub_pic, rest);
            assert(e.take(0) =~= Seq::<CpbEntry>::empty());
        },
        None => {
            assert(Seq::<bool>::empty() + rest =~= rest);
        },
    }
}

/// One sub-layer as it is written: a rate that is fixed in general says so alone; a fixed
/// rate has a duration and any other a delay flag; low delay leaves the count out.
#[verifier::opaque]
pub open spec fn layer_bits(l: SubLayer, g: Gates) -> Seq<bool> {
    seq![l.fixed_pic_rate_general_flag] + (if l.fixed_pic_rate_general_flag {
        Seq::empty()
    } else {
        seq![l.fixed_pic_rate_within_cvs_flag]
    }) + (if l.fixed_pic_rate_within_cvs_flag {
        code_bits(l.elemental_duration_in_tc_minus1->0 as nat)
    } else {
        seq![l.low_delay_hrd_flag]
    }) + (if l.low_delay_hrd_flag {
        Seq::empty()
    } else {
        code_bits(l.cpb_cnt_minus1 as nat)
    }) + payload_bits(l.nal_hrd, g.sub_pic) + payload_bits(l.vcl_hrd, g.sub_pic)
}

/// What a sub-layer may say.
pub open spec fn layer_legal(l: SubLayer, g: Gates) -> bool {
    &&& l.fixed_pic_rate_general_flag ==> l.fixed_pic_rate_within_cvs_flag
    &&& l.fixed_pic_rate_within_cvs_flag ==> !l.low_delay_hrd_flag
    &&& l.elemental_duration_in_tc_minus1 is Some == l.fixed_pic_rate_within_cvs_flag
    &&& l.elemental_duration_in_tc_minus1 matches Some(d) ==> d <= 2047
    &&& l.cpb_cnt_minus1 <= 31
    &&& l.low_delay_hrd_flag ==> l.cpb_cnt_minus1 == 0
    &&& l.nal_hrd is Some == g.nal
    &&& l.vcl_hrd is Some == g.vcl
    &&& l.nal_hrd matches Some(e) ==> e.len() == l.cpb_cnt_minus1 + 1 && payload_legal(e, g.sub_pic)
    &&& l.vcl_hrd matches Some(e) ==> e.len() == l.cpb_cnt_minus1 + 1 && payload_legal(e, g.sub_pic)
}

/// A sub-layer is read field by field.
proof fn lemma_layer_steps(
    l: SubLayer,
    g: Gates,
    s: Seq<bool>,
    within: Seq<bool>,
    s0: Seq<bool>,
    s1: Seq<bool>,
    s2: Seq<bool>,
    s3: Seq<bool>,
    rest: Seq<bool>,
)
    requires
        layer_legal(l, g),
        read_flag(s) == Ok::<(bool, Seq<bool>), Refusal>((l.fixed_pic_rate_general_flag, within)),
        l.fixed_pic_rate_general_flag ==> within == s0,
        !l.fixed_pic_rate_general_flag ==> read_flag(within) == Ok::<(bool, Seq<bool>), Refusal>(
            (l.fixed_pic_rate_within_cvs_flag, s0),
        ),
        l.fixed_pic_rate_within_cvs_flag ==> read_code(s0) == Ok::<(u32, Seq<bool>), Refusal>(
            (l.elemental_duration_in_tc_minus1->0, s1),
        ),
        !l.fixed_pic_rate_within_cvs_flag ==> read_flag(s0) == Ok::<(bool, Seq<bool>), Refusal>(
            (l.low_delay_hrd_flag, s1),
        ),
        read_cpb_cnt(s1, l.low_delay_hrd_flag) == Ok::<(u32, Seq<bool>), Refusal>((l.cpb_cnt_minus1, s2)),
        read_optional_payload(s2, g.nal, (l.cpb_cnt_minus1 + 1) as u32, g.sub_pic) == Ok::<
            (Option<Seq<CpbEntry>>, Seq<bool>),
            Refusal,
        >((l.nal_hrd, s3)),
        read_optional_payload(s3, g.vcl, (l.cpb_cnt_minus1 + 1) as u32, g.sub_pic) == Ok::<
            (Option<Seq<CpbEntry>>, Seq<bool>),
            Refusal,
        >((l.vcl_hrd, rest)),
    ensures
        read_layer(s, g) == Ok::<(SubLayer, Seq<bool>), Refusal>((l, rest)),
{
}

proof fn lemma_layer(l: SubLayer, g: Gates, rest: Seq<bool>)
    requires
        layer_legal(l, g),
    ensures
        read_layer(layer_bits(l, g) + rest, g) == Ok::<(SubLayer, Seq<bool>), Refusal>((l, rest)),
{
    reveal(layer_bits);
    let count = (l.cpb_cnt_minus1 + 1) as u32;
    let s3 = payload_bits(l.vcl_hrd, g.sub_pic) + rest;
    lemma_payload(l.vcl_hrd, g.vcl, count, g.sub_pic, rest);
    let s2 = payload_bits(l.nal_hrd, g.sub_pic) + s3;
    lemma_payload(l.nal_hrd, g.nal, count, g.sub_pic, s3);
    let s1 = if l.low_delay_hrd_flag {
        s2
    } else {
        code_bits(l.cpb_cnt_minus1 as nat) + s2
    };
    lemma_code(l.cpb_cnt_minus1, s2);
    assert(read_cpb_cnt(s1, l.low_delay_hrd_flag) == Ok::<(u32, Seq<bool>), Refusal>((l.cpb_cnt_minus1, s2)));
    let s0 = if l.fixed_pic_rate_within_cvs_flag {
        code_bits(l.elemental_duration_in_tc_minus1->0 as nat) + s1
    } else {
        seq![l.low_delay_hrd_flag] + s1
    };
    lemma_flag(l.low_delay_hrd_flag, s1);
    if l.fixed_pic_rate_within_cvs_flag {
        lemma_code(l.elemental_duration_in_tc_minus1->0, s1);
    }
    let within = if l.fixed_pic_rate_general_flag {
        s0
    } else {
        seq![l.fixed_pic_rate_within_cvs_flag] + s0
    };
    lemma_flag(l.fixed_pic_rate_within_cvs_flag, s0);
    lemma_flag(l.fixed_pic_rate_general_flag, within);
    let first = seq![l.fixed_pic_rate_general_flag];
    let second = if l.fixed_pic_rate_general_flag {
        Seq::empty()
    } else {
        seq![l.fixed_pic_rate_within_cvs_flag]
    };
    let third = if l.fixed_pic_rate_within_cvs_flag {
        code_bits(l.elemental_duration_in_tc_minus1->0 as nat)
    } else {
        seq![l.low_delay_hrd_flag]
    };
    let fourth = if l.low_delay_hrd_flag {
        Seq::empty()
    } else {
        code_bits(l.cpb_cnt_minus1 as nat)
    };
    let (nal, vcl) = (payload_bits(l.nal_hrd, g.sub_pic), payload_bits(l.vcl_hrd, g.sub_pic));
    lemma_assoc(first + second + third + fourth + nal, vcl, rest);
    lemma_assoc(first + second + third + fourth, nal, s3);
    lemma_assoc(first + second + third, fourth, s2);
    lemma_assoc(first + second, third, fourth + s2);
    lemma_assoc(first, second, third + (fourth + s2));
    if l.low_delay_hrd_flag {
        lemma_empty(fourth, s2);
    }
    assert(fourth + s2 == s1);
    assert(third + s1 == s0);
    if l.fixed_pic_rate_general_flag {
        lemma_empty(second, s0);
    }
    assert(second + s0 == within);
    assert(layer_bits(l, g) + rest == first + within);
    lemma_layer_steps(l, g, first + within, within, s0, s1, s2, s3, rest);
}

/// The sub-layers from number `k` on, one behind the other.
pub open spec fn layers_bits(l: Seq<SubLayer>, k: nat, g: Gates) -> Seq<bool>
    decreases l.len() - k,
{
    if k >= l.len() {
        Seq::empty()
    } else {
        layer_bits(l[k as int], g) + layers_bits(l, k + 1, g)
    }
}

#[verifier::spinoff_prover]
proof fn lemma_layers(l: Seq<SubLayer>, k: nat, g: Gates, rest: Seq<bool>)
    requires
        k <= l.len(),
        forall|i: int| 0 <= i < l.len() ==> layer_legal(#[trigger] l[i], g),
    ensures
        read_layers(l.take(k as int), layers_bits(l, k, g) + rest, (l.len() - k) as nat, g) == Ok::<
            (Seq<SubLayer>, Seq<bool>),
            Refusal,
        >((l, rest)),
    decreases l.len() - k,
{
    if k == l.len() {
        assert(l.take(k as int) =~= l);
        lemma_empty(layers_bits(l, k, g), rest);
    } else {
        let behind = layers_bits(l, k + 1, g) + rest;
        let next = l[k as int];
        lemma_assoc(layer_bits(next, g), layers_bits(l, k + 1, g), rest);
        lemma_layer(next, g, behind);
        lemma_push_take(l, k as int);
        lemma_layers(l, k + 1, g, rest);
        lemma_layers_step(l.take(k as int), layer_bits(next, g) + behind, (l.len() - k) as nat, g, next, behind);
    }
}

proof fn lemma_push_take(l: Seq<SubLayer>, k: int)
    requires
        0 <= k < l.len(),
    ensures
        l.take(k).push(l[k]) == l.take(k + 1),
{
    assert(l.take(k).push(l[k]) =~= l.take(k + 1));
}

proof fn lemma_layers_step(found: Seq<SubLayer>, s: Seq<bool>, left: nat, g: Gates, l: SubLayer, behind: Seq<bool>)
    requires
        left > 0,
        read_layer(s, g) == Ok::<(SubLayer, Seq<bool>), Refusal>((l, behind)),
    ensures
        read_layers(found, s, left, g) == read_layers(found.push(l), behind, (left - 1) as nat, g),
{
}

/// The gates that a body goes by: its own common information, or the inherited one.
pub open spec fn gates_of(h: Hrd, inherited: Option<HrdCommonInfo>) -> Gates {
    if h.common is Some {
        gates(h.common)
    } else {
        gates(inherited)
    }
}

/// A body as it is written.
pub open spec fn hrd_bits(h: Hrd, inherited: Option<HrdCommonInfo>) -> Seq<bool> {
    (match h.common {
        Some(c) => common_bits(c),
        None => Seq::empty(),
    }) + layers_bits(h.sub_layers, 0, gates_of(h, inherited))
}

/// A body has at most seven sub-layers, each legal under the gates it goes by.
pub open spec fn hrd_legal(h: Hrd, inherited: Option<HrdCommonInfo>) -> bool {
    &&& h.max_num_sub_layers_minus1 <= 6
    &&& h.sub_layers.len() == h.max_num_sub_layers_minus1 + 1
    &&& h.common matches Some(c) ==> common_legal(c)
    &&& forall|i: int| 0 <= i < h.sub_layers.len() ==> layer_legal(#[trigger] h.sub_layers[i], gates_of(h, inherited))
}

proof fn lemma_hrd(h: Hrd, inherited: Option<HrdCommonInfo>, rest: Seq<bool>)
    requires
        hrd_legal(h, inherited),
    ensures
        read_hrd(hrd_bits(h, inherited) + rest, h.common is Some, h.max_num_sub_layers_minus1, inherited) == Ok::<
            (Hrd, Seq<bool>),
            Refusal,
        >((h, rest)),
{
    let g = gates_of(h, inherited);
    let s1 = layers_bits(h.sub_layers, 0, g) + rest;
    lemma_layers(h.sub_layers, 0, g, rest);
    assert(h.sub_layers.take(0) =~= Seq::<SubLayer>::empty());
    match h.common {
        Some(c) => {
            law_common_information_reads_back(c, s1);
            lemma_assoc(common_bits(c), layers_bits(h.sub_layers, 0, g), rest);
        },
        None => {
            lemma_empty(Seq::empty(), layers_bits(h.sub_layers, 0, g));
        },
    }
}

/// A legal body that is written by the syntax is read back, and the reader stands behind
/// it, whatever follows.
pub proof fn law_hrd_reads_back(
    br: &mut BitReader<'_>,
    prev_common: Option<&HrdCommonInfo>,
    h: Hrd,
    rest: Seq<bool>,
    r: Result<HrdParameters, HrdError>,
)
    requires
        old(br).wf(),
        hrd_legal(h, deref_common(prev_common)),
        old(br)@ == hrd_bits(h, deref_common(prev_common)) + rest,
        call_ensures(HrdParameters::parse, (br, h.common is Some, h.max_num_sub_layers_minus1, prev_common), r),
    ensures
        r matches Ok(p) && p@ == h,
        final(br)@ == rest,
{
    lemma_hrd(h, deref_common(prev_common), rest);
}

/// An entry of the VPS that is written by the syntax is read back: only entries behind the
/// first say whether they bring common information, and those that do not go by that of the
/// entry before.
pub proof fn law_vps_entry_reads_back(
    br: &mut BitReader<'_>,
    index: u32,
    prev: Option<&VpsHrdEntry>,
    layer_set: u32,
    h: Hrd,
    rest: Seq<bool>,
    r: Result<VpsHrdEntry, HrdError>,
)
    requires
        old(br).wf(),
        layer_set <= 1024,
        index == 0 ==> h.common is Some,
        hrd_legal(h, inherited_common(prev)),
        old(br)@ == code_bits(layer_set as nat) + (if index > 0 {
            seq![h.common is Some]
        } else {
            Seq::empty()
        }) + hrd_bits(h, inherited_common(prev)) + rest,
        call_ensures(VpsHrdEntry::parse, (br, index, h.max_num_sub_layers_minus1, prev), r),
    ensures
        r matches Ok(v) && v.hrd_layer_set_idx == layer_set && v.cprms_present_flag == (h.common is Some) && v.hrd@
            == h,
        final(br)@ == rest,
{
    let inherited = inherited_common(prev);
    let s2 = hrd_bits(h, inherited) + rest;
    lemma_hrd(h, inherited, rest);
    let s1 = if index > 0 {
        seq![h.common is Some] + s2
    } else {
        s2
    };
    lemma_flag(h.common is Some, s2);
    lemma_code(layer_set, s1);
    let a = code_bits(layer_set as nat);
    let b = if index > 0 {
        seq![h.common is Some]
    } else {
        Seq::empty()
    };
    lemma_assoc(a + b, hrd_bits(h, inherited), rest);
    lemma_assoc(a, b, s2);
    if index == 0 {
        lemma_empty(b, s2);
    }
    assert(old(br)@ == a + s1);
}

proof fn lemma_layer_is_legal(s: Seq<bool>, g: Gates)
    ensures
        read_layer(s, g) matches Ok((l, _)) ==> sub_layer_checked(l, g),
{
    if let Ok((sl, s1)) = read_rate(s) {
        if let Ok((n, s2)) = read_cpb_cnt(s1, sl.low_delay_hrd_flag) {
            law_payload_is_ordered(s2, (n + 1) as u32, g.sub_pic);
            if let Ok((nal, s3)) = read_optional_payload(s2, g.nal, (n + 1) as u32, g.sub_pic) {
                law_payload_is_ordered(s3, (n + 1) as u32, g.sub_pic);
            }
        }
    }
}

/// What a parsed sub-layer says is legal: a fixed rate has a duration of at most 2048 ticks
/// and no low delay, there are at most 32 buffers and one with low delay, and each payload
/// that the gates ask for has one entry per buffer, with rising rates and falling sizes.
pub open spec fn sub_layer_checked(l: SubLayer, g: Gates) -> bool {
    &&& l.fixed_pic_rate_general_flag ==> l.fixed_pic_rate_within_cvs_flag
    &&& l.fixed_pic_rate_within_cvs_flag ==> !l.low_delay_hrd_flag
    &&& l.elemental_duration_in_tc_minus1 is Some == l.fixed_pic_rate_within_cvs_flag
    &&& l.elemental_duration_in_tc_minus1 matches Some(d) ==> d <= 2047
    &&& l.cpb_cnt_minus1 <= 31
    &&& l.low_delay_hrd_flag ==> l.cpb_cnt_minus1 == 0
    &&& l.nal_hrd is Some == g.nal
    &&& l.vcl_hrd is Some == g.vcl
    &&& l.nal_hrd matches Some(e) ==> e.len() == l.cpb_cnt_minus1 + 1 && ordered(e)
    &&& l.vcl_hrd matches Some(e) ==> e.len() == l.cpb_cnt_minus1 + 1 && ordered(e)
}

proof fn lemma_layers_checked(found: Seq<SubLayer>, s: Seq<bool>, left: nat, g: Gates)
    requires
        forall|i: int| 0 <= i < found.len() ==> sub_layer_checked(#[trigger] found[i], g),
    ensures
        read_layers(found, s, left, g) matches Ok((l, _)) ==> l.len() == found.len() + left && forall|i: int|
            0 <= i < l.len() ==> sub_layer_checked(#[trigger] l[i], g),
    decreases left,
{
    if left > 0 {
        lemma_layer_is_legal(s, g);
        if let Ok((l, rest)) = read_layer(s, g) {
            lemma_layers_checked(found.push(l), rest, (left - 1) as nat, g);
        }
    }
}

/// Whatever a body says, it parses only if it is legal, with at most seven sub-layers; too
/// many are refused before anything is read.
pub proof fn law_parsed_hrd_is_legal(
    br: &mut BitReader<'_>,
    common_inf_present: bool,
    max_num_sub_layers_minus1: u8,
    prev_common: Option<&HrdCommonInfo>,
    r: Result<HrdParameters, HrdError>,
)
    requires
        old(br).wf(),
        call_ensures(HrdParameters::parse, (br, common_inf_present, max_num_sub_layers_minus1, prev_common), r),
    ensures
        r matches Ok(p) ==> {
            &&& p.max_num_sub_layers_minus1 == max_num_sub_layers_minus1
            &&& max_num_sub_layers_minus1 <= 6
            &&& p.sub_layers@.len() == max_num_sub_layers_minus1 + 1
            &&& p.common is Some == common_inf_present
            &&& forall|i: int|
                0 <= i < p@.sub_layers.len() ==> sub_layer_checked(
                    #[trigger] p@.sub_layers[i],
                    gates_of(p@, deref_common(prev_common)),
                )
        },
        max_num_sub_layers_minus1 > 6 ==> r == Err::<HrdParameters, HrdError>(
            HrdError::InvalidMaxNumSubLayers { got: max_num_sub_layers_minus1 },
        ) && final(br)@ == old(br)@,
{
    let inherited = deref_common(prev_common);
    let s = old(br)@;
    if let Ok(p) = r {
        let s1 = if common_inf_present {
            s.skip(common_len(s))
        } else {
            s
        };
        let effective = if common_inf_present {
            Some(common_at(s))
        } else {
            inherited
        };
        lemma_layers_checked(Seq::empty(), s1, (max_num_sub_layers_minus1 + 1) as nat, gates(effective));
    }
}

/// A layer set above 1024 is refused by its name, whatever follows.
pub proof fn law_layer_set_out_of_range_is_refused(
    br: &mut BitReader<'_>,
    index: u32,
    max_sub_layers_minus1: u8,
    prev: Option<&VpsHrdEntry>,
    layer_set: u32,
    rest: Seq<bool>,
    r: Result<VpsHrdEntry, HrdError>,
)
    requires
        old(br).wf(),
        layer_set > 1024,
        codable(layer_set),
        old(br)@ == code_bits(layer_set as nat) + rest,
        call_ensures(VpsHrdEntry::parse, (br, index, max_sub_layers_minus1, prev), r),
    ensures
        r == Err::<VpsHrdEntry, HrdError>(HrdError::ValueOutOfRange { field: "hrd_layer_set_idx", got: layer_set }),
        final(br)@ == rest,
{
    lemma_code(layer_set, rest);
}

/// Common information announces a payload exactly where it says more than its two flags.
pub proof fn law_any_hrd_brings_more_than_two_flags(c: HrdCommonInfo, any: bool)
    requires
        common_legal(c),
        call_ensures(HrdCommonInfo::has_any_hrd, (&c,), any),
    ensures
        any <==> common_bits(c).len() > 2,
        any <==> gates(Some(c)).nal || gates(Some(c)).vcl,
{
}

/// A payload on its own reads back too, for 1 to 32 buffers; any other number is refused before
/// anything is read.
pub proof fn law_payload_reads_back(
    br: &mut BitReader<'_>,
    count: u32,
    sub_pic: bool,
    e: Seq<CpbEntry>,
    rest: Seq<bool>,
    r: Result<SubLayerHrdParameters, HrdError>,
)
    requires
        old(br).wf(),
        call_ensures(SubLayerHrdParameters::parse, (br, count, sub_pic), r),
    ensures
        e.len() == count && payload_legal(e, sub_pic) && old(br)@ == payload_bits(Some(e), sub_pic) + rest ==> (r
            matches Ok(p) && p.cpb@ == e && final(br)@ == rest),
        count == 0 || count > 32 ==> r == Err::<SubLayerHrdParameters, HrdError>(
            HrdError::ValueOutOfRange { field: "CpbCnt", got: count },
        ) && final(br)@ == old(br)@,
        r matches Ok(p) ==> p.cpb@.len() == count && ordered(p.cpb@),
{
    law_payload_is_ordered(old(br)@, count, sub_pic);
    if e.len() == count && payload_legal(e, sub_pic) && old(br)@ == payload_bits(Some(e), sub_pic) + rest {
        lemma_entries(e, 0, sub_pic, rest);
        assert(e.take(0) =~= Seq::<CpbEntry>::empty());
    }
}

} // verus!
