//! NAL units: encapsulation of a raw byte sequence payload behind the two-byte
//! header with emulation prevention, framing into an Annex B byte stream, and
//! the walk back.
use vstd::prelude::*;

verus! {

/// Why a NAL unit could not be taken apart.
#[derive(Debug, Clone, Copy, PartialEq, Eq, Structural)]
pub enum NalError {
    /// The unit is shorter than its two-byte header.
    Truncated,
    /// `forbidden_zero_bit` is set.
    ForbiddenBitSet,
    /// `nuh_temporal_id_plus1` is zero.
    ZeroTemporalIdPlus1,
}

/// The fields of the two-byte NAL unit header.
#[derive(Debug, Clone, Copy, PartialEq, Eq, Structural)]
pub struct NalHeader {
    /// `nal_unit_type` (6 bits).
    pub nal_unit_type: u8,
    /// `nuh_layer_id` (6 bits).
    pub nuh_layer_id: u8,
    /// `nuh_temporal_id_plus1 - 1`.
    pub temporal_id: u8,
}

/// A NAL unit taken apart.
#[derive(Debug, Clone, PartialEq, Eq)]
pub struct NalUnit {
    pub header: NalHeader,
    /// The payload with the emulation prevention bytes removed.
    pub rbsp: Vec<u8>,
    /// The payload as it stands in the stream.
    pub escaped: Vec<u8>,
}

/// The mathematical value of a [`NalUnit`].
#[verifier::ext_equal]
pub struct Unit {
    pub header: NalHeader,
    pub rbsp: Seq<u8>,
    pub escaped: Seq<u8>,
}

impl View for NalUnit {
    type V = Unit;

    open spec fn view(&self) -> Unit {
        Unit { header: self.header, rbsp: self.rbsp@, escaped: self.escaped@ }
    }
}

/// The payload with emulation prevention bytes in it, and how many zeros it
/// ends in: behind two zeros, a byte up to 3 is preceded by a 3.
pub open spec fn escaping(rbsp: Seq<u8>) -> (Seq<u8>, nat)
    decreases rbsp.len(),
{
    if rbsp.len() == 0 {
        (Seq::empty(), 0)
    } else {
        let (out, run) = escaping(rbsp.drop_last());
        let b = rbsp.last();
        let stuffed = run >= 2 && b <= 3;
        (
            (if stuffed {
                out.push(3)
            } else {
                out
            }).push(b),
            if b != 0 {
                0
            } else if stuffed {
                1
            } else {
                run + 1
            },
        )
    }
}

/// The payload with emulation prevention bytes in it.
pub open spec fn escaped(rbsp: Seq<u8>) -> Seq<u8> {
    escaping(rbsp).0
}

/// The bytes without emulation prevention bytes, and how many zeros have just
/// passed: a 3 behind two zeros is left out.
pub open spec fn stripping(bytes: Seq<u8>) -> (Seq<u8>, nat)
    decreases bytes.len(),
{
    if bytes.len() == 0 {
        (Seq::empty(), 0)
    } else {
        let (out, run) = stripping(bytes.drop_last());
        let b = bytes.last();
        if run >= 2 && b == 3 {
            (out, 0)
        } else {
            (
                out.push(b),
                if b == 0 {
                    run + 1
                } else {
                    0
                },
            )
        }
    }
}

/// The bytes without emulation prevention bytes.
pub open spec fn stripped(bytes: Seq<u8>) -> Seq<u8> {
    stripping(bytes).0
}

/// The two header bytes.
pub open spec fn header_bytes(nal_unit_type: int, nuh_layer_id: int, temporal_id: int) -> Seq<u8> {
    seq![
        (nal_unit_type * 2 + nuh_layer_id / 32) as u8,
        ((nuh_layer_id % 32) * 8 + temporal_id + 1) as u8,
    ]
}

/// A complete coded NAL unit.
pub open spec fn unit_bytes(nal_unit_type: int, nuh_layer_id: int, temporal_id: int, rbsp: Seq<u8>) -> Seq<u8> {
    header_bytes(nal_unit_type, nuh_layer_id, temporal_id) + escaped(rbsp)
}

/// The four-byte start code.
pub open spec fn start_code() -> Seq<u8> {
    seq![0u8, 0u8, 0u8, 1u8]
}

/// Units one after another, each behind a start code.
pub open spec fn stream_of(units: Seq<Seq<u8>>) -> Seq<u8>
    decreases units.len(),
{
    if units.len() == 0 {
        Seq::empty()
    } else {
        stream_of(units.drop_last()) + start_code() + units.last()
    }
}

/// The contents of a vector of byte vectors.
pub open spec fn contents(units: Seq<Vec<u8>>) -> Seq<Seq<u8>> {
    Seq::new(units.len(), |i: int| units[i]@)
}

/// The header at the front of unescaped NAL unit bytes.
pub open spec fn header_of(bytes: Seq<u8>) -> Result<NalHeader, NalError> {
    if bytes.len() < 2 {
        Err(NalError::Truncated)
    } else if bytes[0] >= 128 {
        Err(NalError::ForbiddenBitSet)
    } else if bytes[1] % 8 == 0 {
        Err(NalError::ZeroTemporalIdPlus1)
    } else {
        Ok(
            NalHeader {
                nal_unit_type: bytes[0] / 2,
                nuh_layer_id: ((bytes[0] % 2) * 32 + bytes[1] / 8) as u8,
                temporal_id: (bytes[1] % 8 - 1) as u8,
            },
        )
    }
}

/// A complete coded NAL unit taken apart.
pub open spec fn unit_of(coded: Seq<u8>) -> Result<Unit, NalError> {
    match header_of(stripped(coded)) {
        Ok(header) => Ok(Unit { header, rbsp: stripped(coded).skip(2), escaped: coded.skip(2) }),
        Err(e) => Err(e),
    }
}

/// Whether the three-byte start code prefix stands at `i`.
pub open spec fn prefix_at(s: Seq<u8>, i: int) -> bool {
    0 <= i && i + 3 <= s.len() && s[i] == 0 && s[i + 1] == 0 && s[i + 2] == 1
}

/// The first start code prefix at or behind `i`, or the end of the stream.
pub open spec fn next_prefix(s: Seq<u8>, i: int) -> int
    decreases s.len() - i,
{
    if i >= s.len() {
        s.len() as int
    } else if prefix_at(s, i) {
        i
    } else {
        next_prefix(s, i + 1)
    }
}

/// The bytes without the zeros at their end.
pub open spec fn without_trailing_zeros(s: Seq<u8>) -> Seq<u8>
    decreases s.len(),
{
    if s.len() > 0 && s.last() == 0 {
        without_trailing_zeros(s.drop_last())
    } else {
        s
    }
}

/// The units found from position `i` of an Annex B stream on, behind `found`.
pub open spec fn walk(found: Seq<Unit>, s: Seq<u8>, i: int) -> Result<Seq<Unit>, NalError>
    decreases s.len() - i,
    via walk_decreases
{
    let start = next_prefix(s, i);
    if i < 0 || start + 3 > s.len() {
        Ok(found)
    } else {
        let next = next_prefix(s, start + 3);
        match unit_of(without_trailing_zeros(s.subrange(start + 3, next))) {
            Ok(u) => walk(found.push(u), s, next),
            Err(e) => Err(e),
        }
    }
}

#[via_fn]
proof fn walk_decreases(found: Seq<Unit>, s: Seq<u8>, i: int) {
    if 0 <= i <= s.len() {
        lemma_next_prefix(s, i);
        if next_prefix(s, i) + 3 <= s.len() {
            lemma_next_prefix(s, next_prefix(s, i) + 3);
        }
    }
}

proof fn lemma_next_prefix(s: Seq<u8>, i: int)
    requires
        0 <= i <= s.len(),
    ensures
        i <= next_prefix(s, i) <= s.len(),
        next_prefix(s, i) < s.len() ==> prefix_at(s, next_prefix(s, i)),
        forall|j: int| i <= j < next_prefix(s, i) ==> !prefix_at(s, j),
    decreases s.len() - i,
{
    if i < s.len() && !prefix_at(s, i) {
        lemma_next_prefix(s, i + 1);
    }
}

/// The first prefix is where one stands with none before it.
proof fn lemma_next_prefix_is(s: Seq<u8>, i: int, at: int)
    requires
        0 <= i <= at <= s.len(),
        at < s.len() ==> prefix_at(s, at),
        forall|j: int| i <= j < at ==> !prefix_at(s, j),
    ensures
        next_prefix(s, i) == at,
    decreases at - i,
{
    if i < at {
        lemma_next_prefix_is(s, i + 1, at);
    }
}

/// Insert emulation prevention bytes: within the payload, any `00 00` followed
/// by a byte `<= 0x03` becomes `00 00 03 xx`, so that no start code prefix can
/// appear inside a NAL unit.
#[must_use]
pub fn escape_rbsp(rbsp: &[u8]) -> (out: Vec<u8>)
    ensures
        out@ == escaped(rbsp@),
{
    let mut out: Vec<u8> = Vec::new();
    let mut zero_run: u8 = 0;
    let mut i: usize = 0;
    while i < rbsp.len()
        invariant
            i <= rbsp.len(),
            zero_run <= 2,
            escaping(rbsp@.take(i as int)) == (out@, zero_run as nat),
        decreases rbsp.len() - i,
    {
        let b: u8 = rbsp[i];
        proof {
            assert(rbsp@.take(i + 1).drop_last() =~= rbsp@.take(i as int));
        }
        if zero_run >= 2 && b <= 0x03 {
            out.push(0x03);
            zero_run = 0;
        }
        out.push(b);
        if b == 0 {
            zero_run = zero_run + 1;
        } else {
            zero_run = 0;
        }
        i = i + 1;
    }
    assert(rbsp@.take(i as int) =~= rbsp@);
    out
}

/// Remove emulation prevention bytes.
#[must_use]
pub fn strip_emulation_prevention(bytes: &[u8]) -> (out: Vec<u8>)
    ensures
        out@ == stripped(bytes@),
{
    let mut out: Vec<u8> = Vec::new();
    let mut zero_run: usize = 0;
    let mut i: usize = 0;
    while i < bytes.len()
        invariant
            i <= bytes.len(),
            zero_run <= i,
            stripping(bytes@.take(i as int)) == (out@, zero_run as nat),
        decreases bytes.len() - i,
    {
        let b: u8 = bytes[i];
        proof {
            assert(bytes@.take(i + 1).drop_last() =~= bytes@.take(i as int));
        }
        if zero_run >= 2 && b == 0x03 {
            zero_run = 0;
        } else {
            out.push(b);
            if b == 0 {
                zero_run = zero_run + 1;
            } else {
                zero_run = 0;
            }
        }
        i = i + 1;
    }
    assert(bytes@.take(i as int) =~= bytes@);
    out
}

/// Build a complete coded NAL unit: the two-byte header followed by the
/// escaped payload.
#[must_use]
pub fn nal_unit(nal_unit_type: u8, nuh_layer_id: u8, temporal_id: u8, rbsp: &[u8]) -> (out: Vec<u8>)
    requires
        nal_unit_type < 64,
        nuh_layer_id < 64,
        temporal_id < 7,
    ensures
        out@ == unit_bytes(nal_unit_type as int, nuh_layer_id as int, temporal_id as int, rbsp@),
{
    let mut out: Vec<u8> = Vec::new();
    out.push(nal_unit_type * 2 + nuh_layer_id / 32);
    out.push((nuh_layer_id % 32) * 8 + temporal_id + 1);
    let mut payload = escape_rbsp(rbsp);
    out.append(&mut payload);
    assert(out@ =~= unit_bytes(nal_unit_type as int, nuh_layer_id as int, temporal_id as int, rbsp@));
    out
}

/// Frame complete coded NAL units into an Annex B byte stream, each behind the
/// four-byte start code.
#[must_use]
pub fn annexb(units: &[Vec<u8>]) -> (out: Vec<u8>)
    ensures
        out@ == stream_of(contents(units@)),
{
    let mut out: Vec<u8> = Vec::new();
    let mut i: usize = 0;
    while i < units.len()
        invariant
            i <= units.len(),
            out@ == stream_of(contents(units@.take(i as int))),
        decreases units.len() - i,
    {
        proof {
            assert(contents(units@.take(i + 1)).drop_last() =~= contents(units@.take(i as int)));
        }
        let ghost before = out@;
        out.push(0);
        out.push(0);
        out.push(0);
        out.push(1);
        assert(out@ =~= before + start_code());
        out.extend_from_slice(units[i].as_slice());
        assert(out@ =~= before + start_code() + units@[i as int]@);
        i = i + 1;
    }
    assert(units@.take(i as int) =~= units@);
    out
}

impl NalHeader {
    /// Parse the header at the front of unescaped NAL unit bytes.
    pub fn parse(bytes: &[u8]) -> (r: Result<NalHeader, NalError>)
        ensures
            r == header_of(bytes@),
    {
        if bytes.len() < 2 {
            return Err(NalError::Truncated);
        }
        let b0: u8 = bytes[0];
        let b1: u8 = bytes[1];
        if b0 >= 128 {
            return Err(NalError::ForbiddenBitSet);
        }
        if b1 % 8 == 0 {
            return Err(NalError::ZeroTemporalIdPlus1);
        }
        Ok(NalHeader { nal_unit_type: b0 / 2, nuh_layer_id: (b0 % 2) * 32 + b1 / 8, temporal_id: b1 % 8 - 1 })
    }
}

/// Take a complete coded NAL unit apart: the framing-free form that both
/// configuration records and length-prefixed sample data carry.
pub fn nal_unit_from_coded(coded: &[u8]) -> (r: Result<NalUnit, NalError>)
    ensures
        match r {
            Ok(u) => unit_of(coded@) == Ok::<Unit, NalError>(u@),
            Err(e) => unit_of(coded@) == Err::<Unit, NalError>(e),
        },
{
    let unescaped = strip_emulation_prevention(coded);
    match NalHeader::parse(unescaped.as_slice()) {
        Ok(header) => {
            proof {
                lemma_stripped_len(coded@);
            }
            let rbsp = vstd::slice::slice_to_vec(vstd::slice::slice_subrange(unescaped.as_slice(), 2, unescaped.len()));
            let escaped_payload = vstd::slice::slice_to_vec(vstd::slice::slice_subrange(coded, 2, coded.len()));
            let u = NalUnit { header, rbsp, escaped: escaped_payload };
            assert(u@.rbsp =~= stripped(coded@).skip(2));
            assert(u@.escaped =~= coded@.skip(2));
            Ok(u)
        },
        Err(e) => Err(e),
    }
}

/// The values of taken-apart units.
pub open spec fn views(units: Seq<NalUnit>) -> Seq<Unit> {
    Seq::new(units.len(), |i: int| units[i]@)
}

/// Find the units of an Annex B byte stream and take each apart.
pub fn collect_nal_units(stream: &[u8]) -> (r: Result<Vec<NalUnit>, NalError>)
    ensures
        match r {
            Ok(units) => walk(Seq::empty(), stream@, 0) == Ok::<Seq<Unit>, NalError>(views(units@)),
            Err(e) => walk(Seq::empty(), stream@, 0) == Err::<Seq<Unit>, NalError>(e),
        },
{
    let mut units: Vec<NalUnit> = Vec::new();
    let mut start: usize = find_prefix(stream, 0);
    let ghost goal = walk(Seq::empty(), stream@, 0);
    let ghost mut pos: int = 0;
    assert(views(units@) =~= Seq::<Unit>::empty());
    proof {
        lemma_next_prefix(stream@, 0);
    }
    while start < stream.len()
        invariant
            0 <= pos <= stream@.len(),
            start == next_prefix(stream@, pos),
            start <= stream@.len(),
            start < stream@.len() ==> prefix_at(stream@, start as int),
            walk(views(units@), stream@, pos) == goal,
            goal == walk(Seq::empty(), stream@, 0),
        decreases stream.len() - start,
    {
        let begin: usize = start + 3;
        let next: usize = find_prefix(stream, begin);
        let ghost segment = stream@.subrange(begin as int, next as int);
        proof {
            lemma_next_prefix(stream@, begin as int);
        }
        let mut end: usize = next;
        assert(stream@.subrange(begin as int, end as int) =~= segment);
        while end > begin && stream[end - 1] == 0
            invariant
                begin <= end <= next <= stream@.len(),
                without_trailing_zeros(stream@.subrange(begin as int, end as int)) == without_trailing_zeros(segment),
            decreases end - begin,
        {
            proof {
                let s = stream@.subrange(begin as int, end as int);
                assert(s.drop_last() =~= stream@.subrange(begin as int, end - 1));
            }
            end = end - 1;
        }
        assert(without_trailing_zeros(segment) == stream@.subrange(begin as int, end as int)) by {
            let s = stream@.subrange(begin as int, end as int);
            assert(s.len() > 0 ==> s.last() == stream@[end - 1]);
        }
        match nal_unit_from_coded(vstd::slice::slice_subrange(stream, begin, end)) {
            Ok(u) => {
                let ghost before = views(units@);
                units.push(u);
                assert(views(units@) =~= before.push(u@));
                proof {
                    pos = next as int;
                    lemma_next_prefix(stream@, pos);
                }
                start = next;
                assert(next_prefix(stream@, pos) == start) by {
                    lemma_next_prefix_is(stream@, pos, pos);
                }
            },
            Err(e) => {
                return Err(e);
            },
        }
    }
    Ok(units)
}

fn find_prefix(stream: &[u8], from: usize) -> (at: usize)
    requires
        from <= stream@.len(),
    ensures
        at == next_prefix(stream@, from as int),
{
    let mut i: usize = from;
    while i < stream.len()
        invariant
            from <= i <= stream@.len(),
            next_prefix(stream@, from as int) == next_prefix(stream@, i as int),
        decreases stream.len() - i,
    {
        if stream.len() - i >= 3 && stream[i] == 0 && stream[i + 1] == 0 && stream[i + 2] == 1 {
            return i;
        }
        i = i + 1;
    }
    i
}

proof fn lemma_stripped_len(s: Seq<u8>)
    ensures
        stripped(s).len() <= s.len(),
    decreases s.len(),
{
    if s.len() > 0 {
        lemma_stripped_len(s.drop_last());
    }
}

proof fn lemma_strip_escaping(rbsp: Seq<u8>)
    ensures
        stripping(escaping(rbsp).0) == (rbsp, escaping(rbsp).1),
    decreases rbsp.len(),
{
    if rbsp.len() > 0 {
        let h = rbsp.drop_last();
        lemma_strip_escaping(h);
        let (out, run) = escaping(h);
        let b = rbsp.last();
        if run >= 2 && b <= 3 {
            assert(out.push(3).drop_last() =~= out);
            assert(stripping(out.push(3)) == (h, 0nat));
            assert(out.push(3).push(b).drop_last() =~= out.push(3));
        } else {
            assert(out.push(b).drop_last() =~= out);
        }
        assert(h.push(b) =~= rbsp);
    } else {
        assert(escaping(rbsp).0 =~= Seq::<u8>::empty());
        assert(rbsp =~= Seq::<u8>::empty());
    }
}

/// Removing the emulation prevention bytes gives back the payload.
pub proof fn law_strip_inverts_escape(rbsp: Seq<u8>)
    ensures
        stripped(escaped(rbsp)) == rbsp,
{
    lemma_strip_escaping(rbsp);
}

/// No two zeros are followed by a byte below 3.
pub open spec fn free_of_start_codes(s: Seq<u8>) -> bool {
    forall|i: int| 0 <= i && i + 2 < s.len() && s[i] == 0 && s[i + 1] == 0 ==> #[trigger] s[i + 2] >= 3
}

/// The bytes end in at least `run` zeros, and in no more.
spec fn ends_in_zeros(s: Seq<u8>, run: nat) -> bool {
    &&& run <= 2
    &&& run <= s.len()
    &&& run >= 1 ==> s[s.len() - 1] == 0
    &&& run >= 2 ==> s[s.len() - 2] == 0
    &&& run == 0 && s.len() >= 1 ==> s[s.len() - 1] != 0
    &&& run == 1 && s.len() >= 2 ==> s[s.len() - 2] != 0
}

proof fn lemma_escaped_free(rbsp: Seq<u8>)
    ensures
        free_of_start_codes(escaping(rbsp).0),
        ends_in_zeros(escaping(rbsp).0, escaping(rbsp).1),
    decreases rbsp.len(),
{
    if rbsp.len() > 0 {
        lemma_escaped_free(rbsp.drop_last());
        let (out, run) = escaping(rbsp.drop_last());
        let b = rbsp.last();
        let out2 = escaping(rbsp).0;
        if run >= 2 && b <= 3 {
            let mid = out.push(3);
            assert(free_of_start_codes(mid)) by {
                assert forall|i: int| 0 <= i && i + 2 < mid.len() && mid[i] == 0 && mid[i + 1] == 0 implies
                    #[trigger] mid[i + 2] >= 3 by {
                    if i + 2 < out.len() {
                        assert(out[i + 2] >= 3);
                    }
                }
            }
            assert forall|i: int| 0 <= i && i + 2 < out2.len() && out2[i] == 0 && out2[i + 1] == 0 implies
                #[trigger] out2[i + 2] >= 3 by {
                if i + 2 < mid.len() {
                    assert(mid[i + 2] >= 3);
                }
            }
        } else {
            assert forall|i: int| 0 <= i && i + 2 < out2.len() && out2[i] == 0 && out2[i + 1] == 0 implies
                #[trigger] out2[i + 2] >= 3 by {
                if i + 2 < out.len() {
                    assert(out[i + 2] >= 3);
                }
            }
        }
    }
}

/// No start code prefix, nor the `00 00 00` that may precede one, survives
/// inside an escaped payload.
pub proof fn law_escaped_is_free_of_start_codes(rbsp: Seq<u8>)
    ensures
        free_of_start_codes(escaped(rbsp)),
{
    lemma_escaped_free(rbsp);
}

/// Stripping goes on behind a part that ends in no zero as it starts.
proof fn lemma_strip_concat(a: Seq<u8>, b: Seq<u8>)
    requires
        stripping(a).1 == 0,
    ensures
        stripping(a + b) == (stripping(a).0 + stripping(b).0, stripping(b).1),
    decreases b.len(),
{
    if b.len() == 0 {
        assert(a + b =~= a);
        assert(stripping(a).0 + stripping(b).0 =~= stripping(a).0);
    } else {
        assert((a + b).drop_last() =~= a + b.drop_last());
        lemma_strip_concat(a, b.drop_last());
        let (out, run) = stripping(b.drop_last());
        assert((stripping(a).0 + out).push(b.last()) =~= stripping(a).0 + out.push(b.last()));
    }
}

/// A coded NAL unit comes apart into the header fields and the payload that it
/// was built from.
pub proof fn law_unit_roundtrip(nal_unit_type: int, nuh_layer_id: int, temporal_id: int, rbsp: Seq<u8>)
    requires
        0 <= nal_unit_type < 64,
        0 <= nuh_layer_id < 64,
        0 <= temporal_id < 7,
    ensures
        unit_of(unit_bytes(nal_unit_type, nuh_layer_id, temporal_id, rbsp)) == Ok::<Unit, NalError>(
            Unit {
                header: NalHeader {
                    nal_unit_type: nal_unit_type as u8,
                    nuh_layer_id: nuh_layer_id as u8,
                    temporal_id: temporal_id as u8,
                },
                rbsp,
                escaped: escaped(rbsp),
            },
        ),
{
    let h = header_bytes(nal_unit_type, nuh_layer_id, temporal_id);
    let coded = unit_bytes(nal_unit_type, nuh_layer_id, temporal_id, rbsp);
    assert(h[1] % 8 == temporal_id + 1 && h[1] / 8 == nuh_layer_id % 32);
    assert(h[0] / 2 == nal_unit_type && h[0] % 2 == nuh_layer_id / 32 && h[0] < 128);
    assert(stripping(h) == (h, 0nat)) by {
        let one = h.drop_last();
        assert(one.drop_last() =~= Seq::<u8>::empty());
        assert(stripping(Seq::<u8>::empty()) == (Seq::<u8>::empty(), 0nat));
        assert(stripping(one).0 =~= one);
        assert(one.push(h.last()) =~= h);
    }
    lemma_strip_concat(h, escaped(rbsp));
    lemma_strip_escaping(rbsp);
    assert(stripped(coded) == h + rbsp);
    assert((h + rbsp).skip(2) =~= rbsp);
    assert(coded.skip(2) =~= escaped(rbsp));
    assert((h + rbsp)[0] == h[0] && (h + rbsp)[1] == h[1]);
}

/// A unit that a start code can delimit: it holds none, and does not end in a
/// zero byte, which the walk would take for padding.
pub open spec fn frameable(unit: Seq<u8>) -> bool {
    unit.len() > 0 && unit.last() != 0 && free_of_start_codes(unit)
}

/// A coded NAL unit whose payload ends in a nonzero byte, as every payload with
/// a stop bit does, can be framed.
pub proof fn law_unit_is_frameable(nal_unit_type: int, nuh_layer_id: int, temporal_id: int, rbsp: Seq<u8>)
    requires
        0 <= nal_unit_type < 64,
        0 <= nuh_layer_id < 64,
        0 <= temporal_id < 7,
        rbsp.len() > 0,
        rbsp.last() != 0,
    ensures
        frameable(unit_bytes(nal_unit_type, nuh_layer_id, temporal_id, rbsp)),
{
    let h = header_bytes(nal_unit_type, nuh_layer_id, temporal_id);
    let e = escaped(rbsp);
    let u = h + e;
    lemma_escaped_free(rbsp);
    assert(h[1] % 8 == temporal_id + 1);
    assert(e.len() > 0 && e.last() == rbsp.last());
    assert forall|i: int| 0 <= i && i + 2 < u.len() && u[i] == 0 && u[i + 1] == 0 implies #[trigger] u[i + 2] >= 3 by {
        if i >= 2 {
            assert(e[i - 2 + 2] >= 3);
        }
    }
}

/// Where unit `k` of a stream starts, with its start code.
spec fn offset(units: Seq<Seq<u8>>, k: int) -> int {
    stream_of(units.take(k)).len() as int
}

/// Unit `k` and its start code stand at their offset.
proof fn lemma_stream_at(units: Seq<Seq<u8>>, k: int)
    requires
        0 <= k < units.len(),
    ensures
        offset(units, k + 1) == offset(units, k) + 4 + units[k].len(),
        offset(units, k + 1) <= stream_of(units).len(),
        stream_of(units).subrange(offset(units, k), offset(units, k + 1)) == start_code() + units[k],
    decreases units.len(),
{
    let s = stream_of(units);
    let t = units.take(k + 1);
    assert(t.drop_last() =~= units.take(k));
    assert(stream_of(t) == stream_of(units.take(k)) + start_code() + units[k]);
    if k == units.len() - 1 {
        assert(t =~= units);
        assert(s.subrange(offset(units, k), offset(units, k + 1)) =~= start_code() + units[k]);
    } else {
        let h = units.drop_last();
        lemma_stream_at(h, k);
        assert(h.take(k) =~= units.take(k));
        assert(h.take(k + 1) =~= t);
        assert(s.subrange(offset(units, k), offset(units, k + 1)) =~= stream_of(h).subrange(
            offset(units, k),
            offset(units, k + 1),
        ));
    }
}

/// The walk finds unit `k` and goes on to the next.
proof fn lemma_walk_units(units: Seq<Seq<u8>>, parts: Seq<Unit>, k: int, i: int)
    requires
        0 <= k <= units.len(),
        parts.len() == units.len(),
        forall|j: int| 0 <= j < units.len() ==> frameable(#[trigger] units[j]),
        forall|j: int| 0 <= j < units.len() ==> unit_of(#[trigger] units[j]) == Ok::<Unit, NalError>(parts[j]),
        0 <= i <= stream_of(units).len(),
        next_prefix(stream_of(units), i) == if k < units.len() {
            offset(units, k) + 1
        } else {
            stream_of(units).len() as int
        },
    ensures
        walk(parts.take(k), stream_of(units), i) == Ok::<Seq<Unit>, NalError>(parts),
    decreases units.len() - k,
{
    let s = stream_of(units);
    if k == units.len() {
        assert(parts.take(k) =~= parts);
    } else {
        lemma_stream_at(units, k);
        let u = units[k];
        let n = u.len() as int;
        let at = offset(units, k);
        let begin = at + 4;
        let end = begin + n;
        let framed = s.subrange(at, end);
        assert forall|j: int| 0 <= j < n implies s[begin + j] == #[trigger] u[j] by {
            assert(framed[4 + j] == u[j]);
        }
        let next = if k + 1 < units.len() {
            end + 1
        } else {
            s.len() as int
        };
        assert(units.take(units.len() as int) =~= units);
        if k + 1 < units.len() {
            lemma_stream_at(units, k + 1);
            let code = s.subrange(end, end + 4 + units[k + 1].len());
            assert(code[0] == 0 && code[1] == 0 && code[2] == 0 && code[3] == 1);
            assert(s[end] == code[0] && s[end + 1] == code[1] && s[end + 2] == code[2] && s[end + 3] == code[3]);
        } else {
            assert(end == s.len());
        }
        assert(next_prefix(s, begin) == next) by {
            assert forall|j: int| begin <= j < next implies !prefix_at(s, j) by {
                if prefix_at(s, j) {
                    assert(u.last() == u[n - 1]);
                    if j + 2 < end {
                        assert(u[j - begin] == 0 && u[j - begin + 1] == 0);
                        assert(u[j - begin + 2] >= 3);
                    } else if j < end {
                        assert(s[end - 1] == u[n - 1]);
                    }
                }
            }
            lemma_next_prefix_is(s, begin, next);
        }
        let segment = s.subrange(begin, next);
        assert(without_trailing_zeros(segment) == u) by {
            assert(without_trailing_zeros(u) == u);
            if k + 1 < units.len() {
                assert(segment.drop_last() =~= u);
                assert(segment.last() == 0);
            } else {
                assert(segment =~= u);
            }
        }
        assert(parts.take(k).push(parts[k]) =~= parts.take(k + 1));
        assert(next_prefix(s, next) == next) by {
            if k + 1 < units.len() {
                assert(prefix_at(s, next));
            }
        }
        lemma_walk_units(units, parts, k + 1, next);
    }
}

/// The walk over an Annex B stream finds exactly the units that were framed.
pub proof fn law_walk_inverts_framing(units: Seq<Seq<u8>>, parts: Seq<Unit>)
    requires
        parts.len() == units.len(),
        forall|j: int| 0 <= j < units.len() ==> frameable(#[trigger] units[j]),
        forall|j: int| 0 <= j < units.len() ==> unit_of(#[trigger] units[j]) == Ok::<Unit, NalError>(parts[j]),
    ensures
        walk(Seq::empty(), stream_of(units), 0) == Ok::<Seq<Unit>, NalError>(parts),
{
    let s = stream_of(units);
    assert(parts.take(0) =~= Seq::<Unit>::empty());
    if units.len() > 0 {
        lemma_stream_at(units, 0);
        assert(units.take(0) =~= Seq::<Seq<u8>>::empty());
        let framed = s.subrange(0, 4 + units[0].len() as int);
        assert(framed[0] == 0 && framed[1] == 0 && framed[2] == 0 && framed[3] == 1);
        assert(s[0] == framed[0] && s[1] == framed[1] && s[2] == framed[2] && s[3] == framed[3]);
        lemma_next_prefix_is(s, 0, 1);
    }
    lemma_walk_units(units, parts, 0, 0);
}

} // verus!
