//! The marker table and the canonical encoding of a value, as spec functions.
use vstd::prelude::*;
use crate::value::Val;

verus! {

broadcast use vstd::seq::group_seq_axioms;

pub const NULL: u8 = 0xC0;
pub const FLOAT_64: u8 = 0xC1;
pub const FALSE: u8 = 0xC2;
pub const TRUE: u8 = 0xC3;
pub const INT_8: u8 = 0xC8;
pub const INT_16: u8 = 0xC9;
pub const INT_32: u8 = 0xCA;
pub const INT_64: u8 = 0xCB;
pub const BYTES_8: u8 = 0xCC;
pub const BYTES_16: u8 = 0xCD;
pub const BYTES_32: u8 = 0xCE;
pub const TINY_STRING: u8 = 0x80;
pub const STRING_8: u8 = 0xD0;
pub const STRING_16: u8 = 0xD1;
pub const STRING_32: u8 = 0xD2;
pub const TINY_LIST: u8 = 0x90;
pub const LIST_8: u8 = 0xD4;
pub const LIST_16: u8 = 0xD5;
pub const LIST_32: u8 = 0xD6;
pub const LIST_STREAM: u8 = 0xD7;
pub const TINY_MAP: u8 = 0xA0;
pub const MAP_8: u8 = 0xD8;
pub const MAP_16: u8 = 0xD9;
pub const MAP_32: u8 = 0xDA;
pub const MAP_STREAM: u8 = 0xDB;
pub const TINY_STRUCT: u8 = 0xB0;
pub const END_OF_STREAM: u8 = 0xDF;

/// The largest length that a size field can carry.
pub const MAX_SIZE: u64 = 0xFFFF_FFFF;
/// The largest field count of a structure.
pub const MAX_FIELDS: usize = 15;

/// The kinds of value whose size is written in a tiered length field.
#[derive(PartialEq, Eq, Structural, Clone, Copy)]
pub enum Family {
    Bytes,
    Text,
    List,
    Dict,
}

/// `256` to the power `w`.
pub open spec fn pow256(w: nat) -> nat
    decreases w,
{
    if w == 0 {
        1
    } else {
        256 * pow256((w - 1) as nat)
    }
}

/// The `w` low bytes of `u`, most significant first.
pub open spec fn be(u: nat, w: nat) -> Seq<u8>
    decreases w,
{
    if w == 0 {
        Seq::empty()
    } else {
        be(u / 256, (w - 1) as nat).push((u % 256) as u8)
    }
}

/// The unsigned number that the bytes `s` spell, most significant first.
pub open spec fn be_val(s: Seq<u8>) -> nat
    decreases s.len(),
{
    if s.len() == 0 {
        0
    } else {
        (be_val(s.drop_last()) * 256 + s.last()) as nat
    }
}

/// The two's-complement pattern of `i` in `w` bytes.
pub open spec fn twos(i: int, w: nat) -> nat {
    if i < 0 {
        (i + pow256(w)) as nat
    } else {
        i as nat
    }
}

/// The signed number that the `w`-byte two's-complement pattern `u` stands for.
pub open spec fn signed(u: nat, w: nat) -> int {
    if u >= pow256(w) / 2 {
        u - pow256(w)
    } else {
        u as int
    }
}

/// Whether `i` is representable as a signed integer of `w` bytes.
pub open spec fn fits_signed(i: int, w: nat) -> bool {
    -(pow256(w) / 2) <= i < pow256(w) / 2
}

/// The canonical encoding of an integer: the narrowest marker whose range holds it.
pub open spec fn int_enc(i: int) -> Seq<u8> {
    if -16 <= i <= 127 {
        seq![twos(i, 1) as u8]
    } else if -128 <= i <= 127 {
        seq![INT_8] + be(twos(i, 1), 1)
    } else if -32768 <= i <= 32767 {
        seq![INT_16] + be(twos(i, 2), 2)
    } else if -0x8000_0000 <= i <= 0x7FFF_FFFF {
        seq![INT_32] + be(twos(i, 4), 4)
    } else {
        seq![INT_64] + be(twos(i, 8), 8)
    }
}

/// The marker of the tiny form of a family, where it has one.
pub open spec fn tiny_marker(f: Family) -> Option<u8> {
    match f {
        Family::Bytes => None,
        Family::Text => Some(TINY_STRING),
        Family::List => Some(TINY_LIST),
        Family::Dict => Some(TINY_MAP),
    }
}

/// The marker of the 8-bit length form of a family; the 16- and 32-bit forms follow it.
pub open spec fn marker_8(f: Family) -> u8 {
    match f {
        Family::Bytes => BYTES_8,
        Family::Text => STRING_8,
        Family::List => LIST_8,
        Family::Dict => MAP_8,
    }
}

/// The canonical header of a sized value of `n` items: the narrowest tier that holds `n`.
pub open spec fn header(f: Family, n: nat) -> Seq<u8> {
    if n < 16 && tiny_marker(f) is Some {
        seq![(tiny_marker(f)->0 + n) as u8]
    } else if n < 256 {
        seq![marker_8(f)] + be(n, 1)
    } else if n < 65536 {
        seq![(marker_8(f) + 1) as u8] + be(n, 2)
    } else {
        seq![(marker_8(f) + 2) as u8] + be(n, 4)
    }
}

/// The canonical encoding of a value.
pub open spec fn enc(v: Val) -> Seq<u8>
    decreases v,
{
    match v {
        Val::Null => seq![NULL],
        Val::Boolean(b) => seq![if b { TRUE } else { FALSE }],
        Val::Integer(i) => int_enc(i),
        Val::Float(bits) => seq![FLOAT_64] + be(bits as nat, 8),
        Val::Bytes(s) => header(Family::Bytes, s.len()) + s,
        Val::Text(s) => header(Family::Text, s.len()) + s,
        Val::List(items) => header(Family::List, items.len()) + enc_all(items),
        Val::Dict(entries) => header(Family::Dict, entries.len()) + enc_entries(entries),
        Val::Structure(tag, fields) => seq![(TINY_STRUCT + fields.len()) as u8, tag] + enc_all(
            fields,
        ),
    }
}

/// The encodings of the values of `s`, one after another.
pub open spec fn enc_all(s: Seq<Val>) -> Seq<u8>
    decreases s,
{
    if s.len() == 0 {
        Seq::empty()
    } else {
        enc_all(s.drop_last()) + enc(s.last())
    }
}

/// The encodings of the entries of `s`, key then value, one after another.
pub open spec fn enc_entries(s: Seq<(Seq<u8>, Val)>) -> Seq<u8>
    decreases s,
{
    if s.len() == 0 {
        Seq::empty()
    } else {
        enc_entries(s.drop_last()) + header(Family::Text, s.last().0.len()) + s.last().0 + enc(
            s.last().1,
        )
    }
}

/// The streaming encoding of a list: the unknown-length marker, the items, the sentinel.
pub open spec fn enc_list_stream(items: Seq<Val>) -> Seq<u8> {
    seq![LIST_STREAM] + enc_all(items) + seq![END_OF_STREAM]
}

/// The streaming encoding of a map.
pub open spec fn enc_map_stream(entries: Seq<(Seq<u8>, Val)>) -> Seq<u8> {
    seq![MAP_STREAM] + enc_entries(entries) + seq![END_OF_STREAM]
}

/// Whether every size in `v` fits the format: lengths in 32 bits, at most 15 fields.
pub open spec fn encodable(v: Val) -> bool
    decreases v,
{
    match v {
        Val::Bytes(s) => s.len() <= MAX_SIZE,
        Val::Text(s) => s.len() <= MAX_SIZE,
        Val::List(items) => items.len() <= MAX_SIZE && all_encodable(items),
        Val::Dict(entries) => entries.len() <= MAX_SIZE && entries_encodable(entries),
        Val::Structure(_, fields) => fields.len() <= MAX_FIELDS && all_encodable(fields),
        _ => true,
    }
}

pub open spec fn all_encodable(s: Seq<Val>) -> bool
    decreases s,
{
    if s.len() == 0 {
        true
    } else {
        all_encodable(s.drop_last()) && encodable(s.last())
    }
}

pub open spec fn entries_encodable(s: Seq<(Seq<u8>, Val)>) -> bool
    decreases s,
{
    if s.len() == 0 {
        true
    } else {
        entries_encodable(s.drop_last()) && s.last().0.len() <= MAX_SIZE && encodable(s.last().1)
    }
}

pub proof fn lemma_pow256_values()
    ensures
        pow256(0) == 1,
        pow256(1) == 256,
        pow256(2) == 65536,
        pow256(3) == 0x100_0000,
        pow256(4) == 0x1_0000_0000,
        pow256(8) == 0x1_0000_0000_0000_0000,
{
    reveal_with_fuel(pow256, 9);
}

pub proof fn lemma_be(u: nat, w: nat)
    requires
        u < pow256(w),
    ensures
        be(u, w).len() == w,
        be_val(be(u, w)) == u,
    decreases w,
{
    if w > 0 {
        let p = pow256((w - 1) as nat);
        assert(u / 256 < p) by (nonlinear_arith)
            requires
                u < 256 * p,
        ;
        lemma_be(u / 256, (w - 1) as nat);
        let s = be(u, w);
        assert(s.drop_last() =~= be(u / 256, (w - 1) as nat));
    }
}

} // verus!

verus! {

pub proof fn lemma_all_encodable(s: Seq<Val>)
    ensures
        all_encodable(s) <==> forall|i: int| 0 <= i < s.len() ==> encodable(#[trigger] s[i]),
    decreases s.len(),
{
    if s.len() > 0 {
        lemma_all_encodable(s.drop_last());
        assert(forall|i: int| 0 <= i < s.len() - 1 ==> s.drop_last()[i] == s[i]);
    }
}

pub proof fn lemma_entries_encodable(s: Seq<(Seq<u8>, Val)>)
    ensures
        entries_encodable(s) <==> forall|i: int|
            0 <= i < s.len() ==> (#[trigger] s[i]).0.len() <= MAX_SIZE && encodable(s[i].1),
    decreases s.len(),
{
    if s.len() > 0 {
        lemma_entries_encodable(s.drop_last());
        assert(forall|i: int| 0 <= i < s.len() - 1 ==> s.drop_last()[i] == s[i]);
    }
}

/// Appending one more value to a prefix of `s` appends its encoding.
pub proof fn lemma_enc_all_take(s: Seq<Val>, i: int)
    requires
        0 <= i < s.len(),
    ensures
        enc_all(s.take(i + 1)) == enc_all(s.take(i)) + enc(s[i]),
{
    assert(s.take(i + 1).drop_last() =~= s.take(i));
}

pub proof fn lemma_enc_entries_take(s: Seq<(Seq<u8>, Val)>, i: int)
    requires
        0 <= i < s.len(),
    ensures
        enc_entries(s.take(i + 1)) == enc_entries(s.take(i)) + header(Family::Text, s[i].0.len())
            + s[i].0 + enc(s[i].1),
{
    assert(s.take(i + 1).drop_last() =~= s.take(i));
}

} // verus!

verus! {

pub proof fn lemma_pow256_mono(k1: nat, k2: nat)
    requires
        k1 <= k2,
    ensures
        pow256(k1) <= pow256(k2),
        pow256(k1) >= 1,
    decreases k2,
{
    if k2 > k1 {
        lemma_pow256_mono(k1, (k2 - 1) as nat);
    } else if k1 > 0 {
        lemma_pow256_mono((k1 - 1) as nat, (k1 - 1) as nat);
    }
}

} // verus!
