//! Lists of header fields: how the fields of a parameter set or a slice header are
//! written one behind the other, and read back.
use vstd::prelude::*;
use vstd::arithmetic::power2::pow2;
use crate::bitreader::{law_se_roundtrip, law_u_roundtrip, law_ue_roundtrip, read_se, read_u, read_ue};
use crate::bits::{be_bits, se_bits, ue_bits};
use crate::bitwriter::BitWriter;

verus! {

/// A header field and its value.
pub enum Field {
    /// A single bit.
    Flag(bool),
    /// `u(n)`: the value, then the number of bits.
    Bits(nat, nat),
    /// `ue(v)`.
    Code(nat),
    /// `se(v)`.
    Signed(int),
}

/// How a field is coded.
pub enum Kind {
    Flag,
    Bits(nat),
    Code,
    Signed,
}

impl Field {
    /// The bits of the field.
    pub open spec fn bits(self) -> Seq<bool> {
        match self {
            Field::Flag(b) => seq![b],
            Field::Bits(v, n) => be_bits(v, n),
            Field::Code(v) => ue_bits(v),
            Field::Signed(v) => se_bits(v),
        }
    }

    /// The value is one that its code can hold.
    pub open spec fn fits(self) -> bool {
        match self {
            Field::Flag(_) => true,
            Field::Bits(v, n) => v < pow2(n),
            Field::Code(v) => v <= BitWriter::MAX_UE,
            Field::Signed(v) => BitWriter::MIN_SE <= v <= BitWriter::MAX_SE,
        }
    }

    pub open spec fn kind(self) -> Kind {
        match self {
            Field::Flag(_) => Kind::Flag,
            Field::Bits(_, n) => Kind::Bits(n),
            Field::Code(_) => Kind::Code,
            Field::Signed(_) => Kind::Signed,
        }
    }
}

/// The first `n` fields of a list, one behind the other.
pub open spec fn fields_bits(list: Seq<Field>, n: nat) -> Seq<bool>
    decreases n,
{
    if n == 0 {
        Seq::empty()
    } else {
        fields_bits(list, (n - 1) as nat) + list[n - 1].bits()
    }
}

/// The field of a kind at the front of `s`, and the bits behind it.
pub open spec fn read_field(kind: Kind, s: Seq<bool>) -> Option<(Field, Seq<bool>)> {
    match kind {
        Kind::Flag => if s.len() == 0 {
            None
        } else {
            Some((Field::Flag(s[0]), s.skip(1)))
        },
        Kind::Bits(n) => match read_u(s, n) {
            Ok((v, rest)) => Some((Field::Bits(v, n), rest)),
            Err(_) => None,
        },
        Kind::Code => match read_ue(s) {
            Ok((v, rest)) => Some((Field::Code(v), rest)),
            Err(_) => None,
        },
        Kind::Signed => match read_se(s) {
            Ok((v, rest)) => Some((Field::Signed(v), rest)),
            Err(_) => None,
        },
    }
}

/// The first `n` fields of the kinds of a list at the front of `s`, and the bits behind
/// them.
pub open spec fn read_fields(kinds: Seq<Kind>, s: Seq<bool>, n: nat) -> Option<(Seq<Field>, Seq<bool>)>
    decreases n,
{
    if n == 0 {
        Some((Seq::empty(), s))
    } else {
        match read_fields(kinds, s, (n - 1) as nat) {
            Some((found, rest)) => match read_field(kinds[n - 1], rest) {
                Some((f, behind)) => Some((found.push(f), behind)),
                None => None,
            },
            None => None,
        }
    }
}

/// The kinds of a list of fields.
pub open spec fn kinds_of(list: Seq<Field>) -> Seq<Kind> {
    Seq::new(list.len(), |i: int| list[i].kind())
}

/// Every field of a list fits its code.
pub open spec fn all_fit(list: Seq<Field>) -> bool {
    forall|i: int| 0 <= i < list.len() ==> (#[trigger] list[i]).fits()
}

proof fn lemma_read_field(f: Field, rest: Seq<bool>)
    requires
        f.fits(),
    ensures
        read_field(f.kind(), f.bits() + rest) == Some((f, rest)),
{
    match f {
        Field::Flag(b) => {
            assert((f.bits() + rest).skip(1) =~= rest);
        },
        Field::Bits(v, n) => {
            law_u_roundtrip(v, n, rest);
        },
        Field::Code(v) => {
            law_ue_roundtrip(v, rest);
        },
        Field::Signed(v) => {
            law_se_roundtrip(v, rest);
        },
    }
}

/// A list of fields reads back as itself, whatever follows.
pub proof fn law_fields_read_back(list: Seq<Field>, n: nat, rest: Seq<bool>)
    requires
        n <= list.len(),
        all_fit(list),
    ensures
        read_fields(kinds_of(list), fields_bits(list, n) + rest, n) == Some((list.take(n as int), rest)),
    decreases n,
{
    if n == 0 {
        assert(fields_bits(list, 0) + rest =~= rest);
        assert(list.take(0) =~= Seq::<Field>::empty());
    } else {
        let m = (n - 1) as nat;
        let f = list[n - 1];
        assert(fields_bits(list, n) + rest =~= fields_bits(list, m) + (f.bits() + rest));
        law_fields_read_back(list, m, f.bits() + rest);
        lemma_read_field(f, rest);
        assert(list.take(m as int).push(f) =~= list.take(n as int));
    }
}

} // verus!
