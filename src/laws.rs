//! What holds of the encoder and the decoder together.
use vstd::prelude::*;
use crate::value::Val;
use crate::wire::{
    Family, pow256, be, be_val, twos, fits_signed, int_enc, header, enc, enc_all,
    enc_entries, encodable, enc_list_stream, lemma_pow256_values, lemma_be, lemma_all_encodable,
    lemma_entries_encodable, MAX_SIZE, MAX_FIELDS, INT_8, INT_16, INT_32, INT_64, FLOAT_64,
    LIST_STREAM, MAP_STREAM, END_OF_STREAM, enc_map_stream,
};
use crate::grammar::{
    DecodeError, Malformed, utf8_valid, family_of, read_size, parse_text, parse_value, parse_items,
    parse_entries, parse_stream, parse_entry_stream, key_pos, last_wins,
};

verus! {

broadcast use vstd::seq::group_seq_axioms;

/// Whether `v` can be decoded under the bounds `depth` and `lim`: integers fit 64
/// bits, text is UTF-8, lengths are within `lim` and the format, structures have
/// at most 15 fields, containers nest at most `depth` deep, and no map repeats a key.
pub open spec fn fits(v: Val, depth: nat, lim: nat) -> bool
    decreases v,
{
    match v {
        Val::Integer(i) => i64::MIN <= i <= i64::MAX,
        Val::Bytes(s) => s.len() <= lim && s.len() <= MAX_SIZE,
        Val::Text(s) => s.len() <= lim && s.len() <= MAX_SIZE && utf8_valid(s),
        Val::List(items) => depth >= 1 && items.len() <= lim && items.len() <= MAX_SIZE
            && forall|i: int|
            0 <= i < items.len() ==> fits(#[trigger] items[i], (depth - 1) as nat, lim),
        Val::Dict(es) => depth >= 1 && es.len() <= lim && es.len() <= MAX_SIZE && keys_unique(es)
            && forall|i: int|
            0 <= i < es.len() ==> {
                &&& (#[trigger] es[i]).0.len() <= lim
                &&& es[i].0.len() <= MAX_SIZE
                &&& utf8_valid(es[i].0)
                &&& fits(es[i].1, (depth - 1) as nat, lim)
            },
        Val::Structure(_, fields) => depth >= 1 && fields.len() <= MAX_FIELDS && forall|i: int|
            0 <= i < fields.len() ==> fits(#[trigger] fields[i], (depth - 1) as nat, lim),
        _ => true,
    }
}

/// No two entries share a key.
pub open spec fn keys_unique(es: Seq<(Seq<u8>, Val)>) -> bool {
    forall|i: int, j: int| 0 <= i < j < es.len() ==> es[i].0 != es[j].0
}

proof fn lemma_sub(b: Seq<u8>, pos: int, s: Seq<u8>, a: int, c: int)
    requires
        0 <= pos,
        pos + s.len() <= b.len(),
        b.subrange(pos, pos + s.len()) == s,
        0 <= a <= c <= s.len(),
    ensures
        b.subrange(pos + a, pos + c) == s.subrange(a, c),
        a < s.len() ==> b[pos + a] == s[a],
{
    assert(b.subrange(pos + a, pos + c) =~= s.subrange(a, c));
    if a < s.len() {
        assert(b[pos + a] == b.subrange(pos, pos + s.len())[a]);
    }
}

proof fn lemma_read_be(b: Seq<u8>, pos: int, s: Seq<u8>, m: u8, u: nat, w: nat)
    requires
        0 <= pos,
        pos + s.len() <= b.len(),
        b.subrange(pos, pos + s.len()) == s,
        s == seq![m] + be(u, w),
        u < pow256(w),
    ensures
        s.len() == 1 + w,
        b[pos] == m,
        be_val(b.subrange(pos + 1, pos + 1 + w)) == u,
{
    lemma_be(u, w);
    assert(s.subrange(1, 1 + w as int) =~= be(u, w));
    lemma_sub(b, pos, s, 1, 1 + w as int);
    lemma_sub(b, pos, s, 0, 0);
}

proof fn lemma_parse_int(i: int, b: Seq<u8>, pos: int, depth: nat, lim: nat)
    requires
        i64::MIN <= i <= i64::MAX,
        0 <= pos,
        pos + int_enc(i).len() <= b.len(),
        b.subrange(pos, pos + int_enc(i).len()) == int_enc(i),
    ensures
        parse_value(b, pos, depth, lim) == Ok::<(Val, int), DecodeError>(
            (Val::Integer(i), pos + int_enc(i).len()),
        ),
{
    lemma_pow256_values();
    let s = int_enc(i);
    lemma_sub(b, pos, s, 0, 0);
    if -16 <= i <= 127 {
    } else if -128 <= i <= 127 {
        lemma_read_be(b, pos, s, INT_8, twos(i, 1), 1);
    } else if -32768 <= i <= 32767 {
        lemma_read_be(b, pos, s, INT_16, twos(i, 2), 2);
    } else if -0x8000_0000 <= i <= 0x7FFF_FFFF {
        lemma_read_be(b, pos, s, INT_32, twos(i, 4), 4);
    } else {
        lemma_read_be(b, pos, s, INT_64, twos(i, 8), 8);
    }
}

proof fn lemma_read_header(f: Family, n: nat, b: Seq<u8>, pos: int)
    requires
        n <= MAX_SIZE,
        0 <= pos,
        pos + header(f, n).len() <= b.len(),
        b.subrange(pos, pos + header(f, n).len()) == header(f, n),
    ensures
        1 <= header(f, n).len() <= 5,
        family_of(b[pos]) == Some(f),
        read_size(b, pos + 1, b[pos]) == Ok::<(nat, int), DecodeError>(
            (n, pos + header(f, n).len()),
        ),
{
    lemma_pow256_values();
    let h = header(f, n);
    lemma_sub(b, pos, h, 0, 0);
    if n < 16 && f != Family::Bytes {
    } else if n < 256 {
        lemma_read_be(b, pos, h, h[0], n, 1);
    } else if n < 65536 {
        lemma_read_be(b, pos, h, h[0], n, 2);
    } else {
        lemma_read_be(b, pos, h, h[0], n, 4);
    }
}

proof fn lemma_be_len(u: nat, w: nat)
    ensures
        be(u, w).len() == w,
    decreases w,
{
    if w > 0 {
        lemma_be_len(u / 256, (w - 1) as nat);
    }
}

proof fn lemma_header_len(f: Family, n: nat)
    ensures
        1 <= header(f, n).len() <= 5,
{
    lemma_be_len(n, 1);
    lemma_be_len(n, 2);
    lemma_be_len(n, 4);
}

proof fn lemma_enc_nonempty(v: Val)
    ensures
        enc(v).len() >= 1,
{
    match v {
        Val::Bytes(s) => lemma_header_len(Family::Bytes, s.len()),
        Val::Text(s) => lemma_header_len(Family::Text, s.len()),
        Val::List(s) => lemma_header_len(Family::List, s.len()),
        Val::Dict(s) => lemma_header_len(Family::Dict, s.len()),
        _ => {},
    }
}

proof fn lemma_enc_all_first(s: Seq<Val>)
    requires
        s.len() > 0,
    ensures
        enc_all(s) == enc(s[0]) + enc_all(s.subrange(1, s.len() as int)),
    decreases s.len(),
{
    let rest = s.subrange(1, s.len() as int);
    if s.len() == 1 {
        assert(s.drop_last() =~= Seq::<Val>::empty());
        assert(rest =~= Seq::<Val>::empty());
        assert(enc_all(s) =~= enc(s[0]) + enc_all(rest));
    } else {
        lemma_enc_all_first(s.drop_last());
        assert(s.drop_last().subrange(1, s.len() - 1) =~= rest.drop_last());
        assert(rest.last() == s.last());
        assert(enc_all(s) =~= enc(s[0]) + enc_all(rest));
    }
}

proof fn lemma_enc_entries_first(s: Seq<(Seq<u8>, Val)>)
    requires
        s.len() > 0,
    ensures
        enc_entries(s) == header(Family::Text, s[0].0.len()) + s[0].0 + enc(s[0].1) + enc_entries(
            s.subrange(1, s.len() as int),
        ),
    decreases s.len(),
{
    let rest = s.subrange(1, s.len() as int);
    if s.len() == 1 {
        assert(s.drop_last() =~= Seq::<(Seq<u8>, Val)>::empty());
        assert(rest =~= Seq::<(Seq<u8>, Val)>::empty());
        assert(enc_entries(s) =~= header(Family::Text, s[0].0.len()) + s[0].0 + enc(s[0].1)
            + enc_entries(rest));
    } else {
        lemma_enc_entries_first(s.drop_last());
        assert(s.drop_last().subrange(1, s.len() - 1) =~= rest.drop_last());
        assert(rest.last() == s.last());
        assert(enc_entries(s) =~= header(Family::Text, s[0].0.len()) + s[0].0 + enc(s[0].1)
            + enc_entries(rest));
    }
}

proof fn lemma_parse_text_enc(s: Seq<u8>, b: Seq<u8>, pos: int, lim: nat)
    requires
        s.len() <= lim,
        s.len() <= MAX_SIZE,
        utf8_valid(s),
        0 <= pos,
        pos + header(Family::Text, s.len()).len() + s.len() <= b.len(),
        b.subrange(pos, pos + header(Family::Text, s.len()).len() + s.len()) == header(
            Family::Text,
            s.len(),
        ) + s,
    ensures
        parse_text(b, pos, lim) == Ok::<(Seq<u8>, int), DecodeError>(
            (s, pos + header(Family::Text, s.len()).len() + s.len()),
        ),
{
    let h = header(Family::Text, s.len());
    let t = h + s;
    lemma_sub(b, pos, t, 0, h.len() as int);
    assert(t.subrange(0, h.len() as int) =~= h);
    lemma_read_header(Family::Text, s.len(), b, pos);
    lemma_sub(b, pos, t, h.len() as int, t.len() as int);
    assert(t.subrange(h.len() as int, t.len() as int) =~= s);
}

proof fn lemma_key_pos_absent(s: Seq<(Seq<u8>, Val)>, k: Seq<u8>)
    requires
        forall|i: int| 0 <= i < s.len() ==> (#[trigger] s[i]).0 != k,
    ensures
        key_pos(s, k) == -1,
    decreases s.len(),
{
    if s.len() > 0 {
        assert(s.last() == s[s.len() - 1]);
        lemma_key_pos_absent(s.drop_last(), k);
    }
}

/// Entries with distinct keys are kept as they are by the last-wins policy.
pub proof fn lemma_last_wins_unique(s: Seq<(Seq<u8>, Val)>)
    requires
        keys_unique(s),
    ensures
        last_wins(s) == s,
    decreases s.len(),
{
    if s.len() > 0 {
        let d = s.drop_last();
        lemma_last_wins_unique(d);
        assert forall|i: int| 0 <= i < d.len() implies (#[trigger] d[i]).0 != s.last().0 by {
            assert(d[i] == s[i]);
        }
        lemma_key_pos_absent(d, s.last().0);
        assert(d.push(s.last()) =~= s);
    }
}

/// The decoder reads back at `pos` any value that fits, encoded canonically there.
#[verifier::rlimit(80)]
#[verifier::spinoff_prover]
proof fn lemma_parse_enc(v: Val, b: Seq<u8>, pos: int, depth: nat, lim: nat)
    requires
        fits(v, depth, lim),
        0 <= pos,
        pos + enc(v).len() <= b.len(),
        b.subrange(pos, pos + enc(v).len()) == enc(v),
    ensures
        parse_value(b, pos, depth, lim) == Ok::<(Val, int), DecodeError>(
            (v, pos + enc(v).len()),
        ),
    decreases v,
{
    let t = enc(v);
    lemma_sub(b, pos, t, 0, 0);
    match v {
        Val::Integer(i) => {
            lemma_parse_int(i, b, pos, depth, lim);
        },
        Val::Float(bits) => {
            lemma_pow256_values();
            lemma_read_be(b, pos, t, FLOAT_64, bits as nat, 8);
        },
        Val::Bytes(s) => {
            let h = header(Family::Bytes, s.len());
            lemma_header_len(Family::Bytes, s.len());
            lemma_sub(b, pos, t, 0, h.len() as int);
            assert(t.subrange(0, h.len() as int) =~= h);
            lemma_read_header(Family::Bytes, s.len(), b, pos);
            lemma_sub(b, pos, t, h.len() as int, t.len() as int);
            assert(t.subrange(h.len() as int, t.len() as int) =~= s);
        },
        Val::Text(s) => {
            let h = header(Family::Text, s.len());
            lemma_header_len(Family::Text, s.len());
            lemma_sub(b, pos, t, 0, h.len() as int);
            assert(t.subrange(0, h.len() as int) =~= h);
            lemma_read_header(Family::Text, s.len(), b, pos);
            lemma_parse_text_enc(s, b, pos, lim);
        },
        Val::List(items) => {
            let h = header(Family::List, items.len());
            lemma_header_len(Family::List, items.len());
            lemma_sub(b, pos, t, 0, h.len() as int);
            assert(t.subrange(0, h.len() as int) =~= h);
            lemma_read_header(Family::List, items.len(), b, pos);
            lemma_sub(b, pos, t, h.len() as int, t.len() as int);
            assert(t.subrange(h.len() as int, t.len() as int) =~= enc_all(items));
            lemma_parse_enc_items(items, b, pos + h.len(), (depth - 1) as nat, lim);
        },
        Val::Dict(es) => {
            let h = header(Family::Dict, es.len());
            lemma_header_len(Family::Dict, es.len());
            lemma_sub(b, pos, t, 0, h.len() as int);
            assert(t.subrange(0, h.len() as int) =~= h);
            lemma_read_header(Family::Dict, es.len(), b, pos);
            lemma_sub(b, pos, t, h.len() as int, t.len() as int);
            assert(t.subrange(h.len() as int, t.len() as int) =~= enc_entries(es));
            lemma_parse_enc_entries(es, b, pos + h.len(), (depth - 1) as nat, lim);
            lemma_last_wins_unique(es);
        },
        Val::Structure(tag, fields) => {
            lemma_sub(b, pos, t, 1, 1);
            lemma_sub(b, pos, t, 2, t.len() as int);
            assert(t.subrange(2, t.len() as int) =~= enc_all(fields));
            lemma_parse_enc_items(fields, b, pos + 2, (depth - 1) as nat, lim);
        },
        _ => {},
    }
}

/// The decoder reads back the canonical encodings of values that fit, one after another.
proof fn lemma_parse_enc_items(items: Seq<Val>, b: Seq<u8>, pos: int, depth: nat, lim: nat)
    requires
        forall|i: int| 0 <= i < items.len() ==> fits(#[trigger] items[i], depth, lim),
        0 <= pos,
        pos + enc_all(items).len() <= b.len(),
        b.subrange(pos, pos + enc_all(items).len()) == enc_all(items),
    ensures
        parse_items(b, pos, items.len(), depth, lim) == Ok::<(Seq<Val>, int), DecodeError>(
            (items, pos + enc_all(items).len()),
        ),
    decreases items,
{
    if items.len() == 0 {
        assert(items =~= Seq::<Val>::empty());
    } else {
        let t = enc_all(items);
        let rest = items.subrange(1, items.len() as int);
        lemma_enc_all_first(items);
        let e0 = enc(items[0]);
        lemma_enc_nonempty(items[0]);
        lemma_sub(b, pos, t, 0, e0.len() as int);
        assert(t.subrange(0, e0.len() as int) =~= e0);
        lemma_parse_enc(items[0], b, pos, depth, lim);
        lemma_sub(b, pos, t, e0.len() as int, t.len() as int);
        assert(t.subrange(e0.len() as int, t.len() as int) =~= enc_all(rest));
        assert forall|i: int| 0 <= i < rest.len() implies fits(#[trigger] rest[i], depth, lim) by {
            assert(rest[i] == items[i + 1]);
        }
        lemma_parse_enc_items(rest, b, pos + e0.len(), depth, lim);
        assert(seq![items[0]] + rest =~= items);
    }
}

/// The decoder reads back the canonical encodings of map entries that fit, one after another.
proof fn lemma_parse_enc_entries(
    es: Seq<(Seq<u8>, Val)>,
    b: Seq<u8>,
    pos: int,
    depth: nat,
    lim: nat,
)
    requires
        forall|i: int|
            0 <= i < es.len() ==> {
                &&& (#[trigger] es[i]).0.len() <= lim
                &&& es[i].0.len() <= MAX_SIZE
                &&& utf8_valid(es[i].0)
                &&& fits(es[i].1, depth, lim)
            },
        0 <= pos,
        pos + enc_entries(es).len() <= b.len(),
        b.subrange(pos, pos + enc_entries(es).len()) == enc_entries(es),
    ensures
        parse_entries(b, pos, es.len(), depth, lim) == Ok::<
            (Seq<(Seq<u8>, Val)>, int),
            DecodeError,
        >((es, pos + enc_entries(es).len())),
    decreases es,
{
    if es.len() == 0 {
        assert(es =~= Seq::<(Seq<u8>, Val)>::empty());
    } else {
        let t = enc_entries(es);
        let rest = es.subrange(1, es.len() as int);
        lemma_enc_entries_first(es);
        let k = es[0].0;
        let v = es[0].1;
        let kt = header(Family::Text, k.len()) + k;
        let e0 = enc(v);
        lemma_header_len(Family::Text, k.len());
        lemma_enc_nonempty(v);
        lemma_sub(b, pos, t, 0, kt.len() as int);
        assert(t.subrange(0, kt.len() as int) =~= kt);
        lemma_parse_text_enc(k, b, pos, lim);
        lemma_sub(b, pos, t, kt.len() as int, (kt.len() + e0.len()) as int);
        assert(t.subrange(kt.len() as int, (kt.len() + e0.len()) as int) =~= e0);
        assert(es[0] == (k, v));
        lemma_parse_enc(v, b, pos + kt.len(), depth, lim);
        lemma_sub(b, pos, t, (kt.len() + e0.len()) as int, t.len() as int);
        assert(t.subrange((kt.len() + e0.len()) as int, t.len() as int) =~= enc_entries(rest));
        assert forall|i: int| 0 <= i < rest.len() implies {
            &&& (#[trigger] rest[i]).0.len() <= lim
            &&& rest[i].0.len() <= MAX_SIZE
            &&& utf8_valid(rest[i].0)
            &&& fits(rest[i].1, depth, lim)
        } by {
            assert(rest[i] == es[i + 1]);
        }
        lemma_parse_enc_entries(rest, b, pos + (kt.len() + e0.len()) as int, depth, lim);
        assert(seq![(k, v)] + rest =~= es);
    }
}

proof fn lemma_fits_encodable(v: Val, depth: nat, lim: nat)
    requires
        fits(v, depth, lim),
    ensures
        encodable(v),
    decreases v,
{
    match v {
        Val::List(items) => {
            assert forall|i: int| 0 <= i < items.len() implies encodable(#[trigger] items[i]) by {
                lemma_fits_encodable(items[i], (depth - 1) as nat, lim);
            }
            lemma_all_encodable(items);
        },
        Val::Structure(_, items) => {
            assert forall|i: int| 0 <= i < items.len() implies encodable(#[trigger] items[i]) by {
                lemma_fits_encodable(items[i], (depth - 1) as nat, lim);
            }
            lemma_all_encodable(items);
        },
        Val::Dict(es) => {
            assert forall|i: int| 0 <= i < es.len() implies (#[trigger] es[i]).0.len() <= MAX_SIZE
                && encodable(es[i].1) by {
                lemma_fits_encodable(es[i].1, (depth - 1) as nat, lim);
            }
            lemma_entries_encodable(es);
        },
        _ => {},
    }
}

/// Round trip: a value that fits the decoder's bounds can be encoded, and
/// decoding its encoding gives the same value back, having read all of it.
pub proof fn law_round_trip(v: Val, depth: nat, lim: nat)
    requires
        fits(v, depth, lim),
    ensures
        encodable(v),
        parse_value(enc(v), 0, depth, lim) == Ok::<(Val, int), DecodeError>(
            (v, enc(v).len() as int),
        ),
{
    lemma_fits_encodable(v, depth, lim);
    assert(enc(v).subrange(0, enc(v).len() as int) =~= enc(v));
    lemma_parse_enc(v, enc(v), 0, depth, lim);
}

/// The integer marker of a payload of `w` bytes.
pub open spec fn int_marker(w: nat) -> u8 {
    if w == 1 {
        INT_8
    } else if w == 2 {
        INT_16
    } else if w == 4 {
        INT_32
    } else {
        INT_64
    }
}

/// An encoding of `i` with an integer marker of the payload width `w`, minimal or not.
pub open spec fn wide_int_enc(i: int, w: nat) -> Seq<u8> {
    seq![int_marker(w)] + be(twos(i, w), w)
}

/// Minimal integers: an integer in -16..=127 takes one byte, and any other takes
/// the narrowest signed width that holds it.
pub proof fn law_int_minimal(i: int)
    requires
        i64::MIN <= i <= i64::MAX,
    ensures
        int_enc(i).len() == 1 <==> -16 <= i <= 127,
        int_enc(i).len() > 1 ==> exists|w: nat|
            (w == 1 || w == 2 || w == 4 || w == 8) && int_enc(i) == wide_int_enc(i, w),
        forall|w: nat|
            (w == 1 || w == 2 || w == 4 || w == 8) && fits_signed(i, w) ==> int_enc(i).len() <= 1
                + w,
{
    lemma_pow256_values();
    lemma_be_len(twos(i, 1), 1);
    lemma_be_len(twos(i, 2), 2);
    lemma_be_len(twos(i, 4), 4);
    lemma_be_len(twos(i, 8), 8);
    if -16 <= i <= 127 {
    } else if -128 <= i <= 127 {
        assert(int_enc(i) == wide_int_enc(i, 1));
    } else if -32768 <= i <= 32767 {
        assert(int_enc(i) == wide_int_enc(i, 2));
    } else if -0x8000_0000 <= i <= 0x7FFF_FFFF {
        assert(int_enc(i) == wide_int_enc(i, 4));
    } else {
        assert(int_enc(i) == wide_int_enc(i, 8));
    }
}

/// Permissive integers: an integer written in any signed width that holds it,
/// minimal or not, decodes to that integer.
pub proof fn law_permissive_int(i: int, w: nat, depth: nat, lim: nat)
    requires
        w == 1 || w == 2 || w == 4 || w == 8,
        fits_signed(i, w),
    ensures
        parse_value(wide_int_enc(i, w), 0, depth, lim) == Ok::<(Val, int), DecodeError>(
            (Val::Integer(i), 1 + w as int),
        ),
{
    lemma_pow256_values();
    let s = wide_int_enc(i, w);
    assert(s.subrange(0, s.len() as int) =~= s);
    lemma_read_be(s, 0, s, int_marker(w), twos(i, w), w);
}

/// Length bound: a declared length over the decoder's bound is refused as
/// malformed, whatever follows it, before any payload is read.
pub proof fn law_length_over_limit(b: Seq<u8>, depth: nat, lim: nat)
    requires
        b.len() >= 1,
        family_of(b[0]) is Some,
        read_size(b, 1, b[0]) is Ok,
        read_size(b, 1, b[0])->Ok_0.0 > lim,
    ensures
        parse_value(b, 0, depth, lim) == Err::<(Val, int), DecodeError>(
            DecodeError::MalformedInput(Malformed::LengthOverLimit),
        ),
{
}

proof fn lemma_enc_first_byte(v: Val)
    requires
        encodable(v),
    ensures
        enc(v).len() >= 1,
        enc(v)[0] != END_OF_STREAM,
{
    lemma_enc_nonempty(v);
    lemma_pow256_values();
    match v {
        Val::Integer(i) => {
            assert(enc(v) == int_enc(i));
            if -16 <= i <= 127 {
                assert(twos(i, 1) < 128 || twos(i, 1) >= 240);
                assert(int_enc(i)[0] == twos(i, 1) as u8);
            } else {
                let w: nat = if -128 <= i <= 127 {
                    1
                } else if -32768 <= i <= 32767 {
                    2
                } else if -0x8000_0000 <= i <= 0x7FFF_FFFF {
                    4
                } else {
                    8
                };
                assert(int_enc(i) == seq![int_marker(w)] + be(twos(i, w), w));
                assert((seq![int_marker(w)] + be(twos(i, w), w))[0] == int_marker(w));
            }
        },
        Val::Bytes(s) => {
            lemma_be_len(s.len(), 1);
        },
        Val::Text(s) => {
            lemma_be_len(s.len(), 1);
        },
        Val::List(s) => {
            lemma_be_len(s.len(), 1);
        },
        Val::Dict(s) => {
            lemma_be_len(s.len(), 1);
        },
        _ => {},
    }
}

proof fn lemma_parse_enc_stream(items: Seq<Val>, b: Seq<u8>, pos: int, depth: nat, lim: nat)
    requires
        forall|i: int| 0 <= i < items.len() ==> fits(#[trigger] items[i], depth, lim),
        0 <= pos,
        pos + enc_all(items).len() + 1 <= b.len(),
        b.subrange(pos, pos + enc_all(items).len() + 1) == enc_all(items).push(END_OF_STREAM),
    ensures
        parse_stream(b, pos, depth, lim) == Ok::<(Seq<Val>, int), DecodeError>(
            (items, pos + enc_all(items).len() + 1),
        ),
    decreases items.len(),
{
    let t = enc_all(items).push(END_OF_STREAM);
    if items.len() == 0 {
        assert(items =~= Seq::<Val>::empty());
        lemma_sub(b, pos, t, 0, 0);
    } else {
        let rest = items.subrange(1, items.len() as int);
        lemma_enc_all_first(items);
        let e0 = enc(items[0]);
        lemma_fits_encodable(items[0], depth, lim);
        lemma_enc_first_byte(items[0]);
        lemma_sub(b, pos, t, 0, e0.len() as int);
        assert(t.subrange(0, e0.len() as int) =~= e0);
        assert(b[pos] == e0[0]);
        lemma_parse_enc(items[0], b, pos, depth, lim);
        lemma_sub(b, pos, t, e0.len() as int, t.len() as int);
        assert(t.subrange(e0.len() as int, t.len() as int) =~= enc_all(rest).push(END_OF_STREAM));
        assert forall|i: int| 0 <= i < rest.len() implies fits(#[trigger] rest[i], depth, lim) by {
            assert(rest[i] == items[i + 1]);
        }
        lemma_parse_enc_stream(rest, b, pos + e0.len(), depth, lim);
        assert(seq![items[0]] + rest =~= items);
    }
}

/// Streaming equivalence: a list written with an unknown length, its items
/// then the sentinel, decodes to the same list as its length-prefixed encoding.
pub proof fn law_stream_list(items: Seq<Val>, depth: nat, lim: nat)
    requires
        fits(Val::List(items), depth, lim),
    ensures
        parse_value(enc_list_stream(items), 0, depth, lim) == Ok::<(Val, int), DecodeError>(
            (Val::List(items), enc_list_stream(items).len() as int),
        ),
        parse_value(enc(Val::List(items)), 0, depth, lim) == Ok::<(Val, int), DecodeError>(
            (Val::List(items), enc(Val::List(items)).len() as int),
        ),
{
    law_round_trip(Val::List(items), depth, lim);
    let s = enc_list_stream(items);
    assert(s[0] == LIST_STREAM);
    assert(s.subrange(1, s.len() as int) =~= enc_all(items).push(END_OF_STREAM));
    lemma_parse_enc_stream(items, s, 1, (depth - 1) as nat, lim);
}

proof fn lemma_parse_enc_entry_stream(
    es: Seq<(Seq<u8>, Val)>,
    b: Seq<u8>,
    pos: int,
    depth: nat,
    lim: nat,
)
    requires
        forall|i: int|
            0 <= i < es.len() ==> {
                &&& (#[trigger] es[i]).0.len() <= lim
                &&& es[i].0.len() <= MAX_SIZE
                &&& utf8_valid(es[i].0)
                &&& fits(es[i].1, depth, lim)
            },
        0 <= pos,
        pos + enc_entries(es).len() + 1 <= b.len(),
        b.subrange(pos, pos + enc_entries(es).len() + 1) == enc_entries(es).push(END_OF_STREAM),
    ensures
        parse_entry_stream(b, pos, depth, lim) == Ok::<
            (Seq<(Seq<u8>, Val)>, int),
            DecodeError,
        >((es, pos + enc_entries(es).len() + 1)),
    decreases es.len(),
{
    let t = enc_entries(es).push(END_OF_STREAM);
    if es.len() == 0 {
        assert(es =~= Seq::<(Seq<u8>, Val)>::empty());
        lemma_sub(b, pos, t, 0, 0);
    } else {
        let rest = es.subrange(1, es.len() as int);
        lemma_enc_entries_first(es);
        let k = es[0].0;
        let v = es[0].1;
        let kt = header(Family::Text, k.len()) + k;
        let e0 = enc(v);
        lemma_header_len(Family::Text, k.len());
        lemma_enc_nonempty(v);
        lemma_enc_first_byte(Val::Text(k));
        assert(enc(Val::Text(k)) == kt);
        lemma_sub(b, pos, t, 0, kt.len() as int);
        assert(t.subrange(0, kt.len() as int) =~= kt);
        assert(b[pos] == kt[0]);
        lemma_parse_text_enc(k, b, pos, lim);
        lemma_sub(b, pos, t, kt.len() as int, (kt.len() + e0.len()) as int);
        assert(t.subrange(kt.len() as int, (kt.len() + e0.len()) as int) =~= e0);
        assert(es[0] == (k, v));
        lemma_parse_enc(v, b, pos + kt.len(), depth, lim);
        lemma_sub(b, pos, t, (kt.len() + e0.len()) as int, t.len() as int);
        assert(t.subrange((kt.len() + e0.len()) as int, t.len() as int) =~= enc_entries(rest).push(
            END_OF_STREAM,
        ));
        assert forall|i: int| 0 <= i < rest.len() implies {
            &&& (#[trigger] rest[i]).0.len() <= lim
            &&& rest[i].0.len() <= MAX_SIZE
            &&& utf8_valid(rest[i].0)
            &&& fits(rest[i].1, depth, lim)
        } by {
            assert(rest[i] == es[i + 1]);
        }
        lemma_parse_enc_entry_stream(rest, b, pos + kt.len() + e0.len(), depth, lim);
        assert(seq![(k, v)] + rest =~= es);
    }
}

/// Streaming equivalence for maps: a map written with an unknown length, its
/// entries then the sentinel, decodes to the same map as its length-prefixed encoding.
pub proof fn law_stream_map(es: Seq<(Seq<u8>, Val)>, depth: nat, lim: nat)
    requires
        fits(Val::Dict(es), depth, lim),
    ensures
        parse_value(enc_map_stream(es), 0, depth, lim) == Ok::<(Val, int), DecodeError>(
            (Val::Dict(es), enc_map_stream(es).len() as int),
        ),
        parse_value(enc(Val::Dict(es)), 0, depth, lim) == Ok::<(Val, int), DecodeError>(
            (Val::Dict(es), enc(Val::Dict(es)).len() as int),
        ),
{
    law_round_trip(Val::Dict(es), depth, lim);
    let s = enc_map_stream(es);
    assert(s[0] == MAP_STREAM);
    assert(s.subrange(1, s.len() as int) =~= enc_entries(es).push(END_OF_STREAM));
    lemma_parse_enc_entry_stream(es, s, 1, (depth - 1) as nat, lim);
    lemma_last_wins_unique(es);
}

} // verus!
