//! The decoder: the executable parser, proved to follow the grammar.
use vstd::prelude::*;
use crate::value::{Val, Value, models, entry_models, lemma_entry_models_len};
use crate::wire::{
    Family, pow256, be_val, signed, lemma_pow256_values, lemma_pow256_mono, NULL, TRUE, FALSE,
    FLOAT_64, INT_8, INT_16, INT_32, INT_64, BYTES_8, BYTES_32, STRING_8, STRING_32, LIST_8,
    LIST_32, MAP_8, MAP_32, LIST_STREAM, MAP_STREAM, TINY_STRUCT, END_OF_STREAM,
};
use crate::grammar::{
    DecodeError, Malformed, family_of, int_width, read_uint, read_size, parse_text,
    parse_value, parse_items, parse_entries, parse_stream, parse_entry_stream, prepend, key_pos,
    put_entry, last_wins, is_utf8, lemma_prepend_prepend, lemma_prepend_empty,
};

verus! {

broadcast use {vstd::std_specs::vec::group_vec_axioms, vstd::seq::group_seq_axioms};

/// The nesting bound of `Limits::standard`.
pub const DEFAULT_MAX_DEPTH: usize = 64;
/// The length bound of `Limits::standard`: 64 MiB, or as many items.
pub const DEFAULT_MAX_LEN: u64 = 0x400_0000;

/// The bounds that a decoder holds untrusted input to.
pub struct Limits {
    /// How many levels of list, map and structure may nest.
    pub max_depth: usize,
    /// The largest declared length of bytes, text, list or map that is accepted.
    pub max_len: u64,
}

impl Limits {
    pub fn standard() -> (r: Limits)
        ensures
            r.max_depth == DEFAULT_MAX_DEPTH,
            r.max_len == DEFAULT_MAX_LEN,
    {
        Limits { max_depth: DEFAULT_MAX_DEPTH, max_len: DEFAULT_MAX_LEN }
    }
}

/// Reads an unsigned big-endian number of `w` bytes at `p`.
fn read_uint_at(b: &[u8], p: usize, w: usize) -> (r: Result<(u64, usize), DecodeError>)
    requires
        p <= b.len(),
        1 <= w <= 8,
    ensures
        match r {
            Ok((u, e)) => read_uint(b@, p as int, w as nat) == Ok::<(nat, int), DecodeError>(
                (u as nat, e as int),
            ) && u < pow256(w as nat) && e <= b.len(),
            Err(x) => read_uint(b@, p as int, w as nat) == Err::<(nat, int), DecodeError>(x),
        },
{
    if w > b.len() - p {
        return Err(DecodeError::NeedMoreInput);
    }
    proof {
        lemma_pow256_values();
    }
    let mut acc: u64 = 0;
    let mut i: usize = p;
    while i < p + w
        invariant
            p <= i <= p + w,
            p + w <= b.len(),
            1 <= w <= 8,
            acc == be_val(b@.subrange(p as int, i as int)),
            acc < pow256((i - p) as nat),
            pow256(7) == 0x100_0000_0000_0000,
        decreases p + w - i,
    {
        proof {
            lemma_pow256_mono((i - p) as nat, 7);
            assert(b@.subrange(p as int, i + 1).drop_last() =~= b@.subrange(p as int, i as int));
        }
        let ghost k = (i - p) as nat;
        assert(acc * 256 + b[i as int] < 256 * pow256(k)) by (nonlinear_arith)
            requires
                acc < pow256(k),
                b[i as int] < 256,
        ;
        acc = acc * 256 + b[i] as u64;
        i = i + 1;
        assert(pow256((i - p) as nat) == 256 * pow256(k));
    }
    Ok((acc, i))
}

/// The family of a sized marker.
fn family(m: u8) -> (r: Option<Family>)
    ensures
        r == family_of(m),
{
    if (0x80 <= m && m <= 0x8F) || (STRING_8 <= m && m <= STRING_32) {
        Some(Family::Text)
    } else if BYTES_8 <= m && m <= BYTES_32 {
        Some(Family::Bytes)
    } else if (0x90 <= m && m <= 0x9F) || (LIST_8 <= m && m <= LIST_32) {
        Some(Family::List)
    } else if (0xA0 <= m && m <= 0xAF) || (MAP_8 <= m && m <= MAP_32) {
        Some(Family::Dict)
    } else {
        None
    }
}

/// Reads the size that a sized marker `m` declares, from `p` on.
fn read_size_at(b: &[u8], p: usize, m: u8) -> (r: Result<(u64, usize), DecodeError>)
    requires
        p <= b.len(),
        family_of(m) is Some,
    ensures
        match r {
            Ok((n, e)) => read_size(b@, p as int, m) == Ok::<(nat, int), DecodeError>(
                (n as nat, e as int),
            ) && p <= e <= b.len(),
            Err(x) => read_size(b@, p as int, m) == Err::<(nat, int), DecodeError>(x),
        },
{
    if 0x80 <= m && m <= 0xAF {
        return Ok(((m % 16) as u64, p));
    }
    let base: u8 = match family(m) {
        Some(Family::Bytes) => BYTES_8,
        Some(Family::Text) => STRING_8,
        Some(Family::List) => LIST_8,
        _ => MAP_8,
    };
    let k = m - base;
    let w: usize = if k == 0 {
        1
    } else if k == 1 {
        2
    } else {
        4
    };
    read_uint_at(b, p, w)
}

/// The signed number that a `w`-byte two's-complement pattern stands for.
fn to_signed(u: u64, w: usize) -> (r: i64)
    requires
        w == 1 || w == 2 || w == 4 || w == 8,
        u < pow256(w as nat),
    ensures
        r as int == signed(u as nat, w as nat),
{
    proof {
        lemma_pow256_values();
    }
    if w == 8 {
        if u >= 0x8000_0000_0000_0000 {
            (u - 0x8000_0000_0000_0000) as i64 + i64::MIN
        } else {
            u as i64
        }
    } else {
        let half: u64 = if w == 1 {
            0x80
        } else if w == 2 {
            0x8000
        } else {
            0x8000_0000
        };
        if u >= half {
            u as i64 - 2 * (half as i64)
        } else {
            u as i64
        }
    }
}

/// A copy of `n` bytes of `b` from `p`.
fn copy_bytes(b: &[u8], p: usize, n: usize) -> (r: Vec<u8>)
    requires
        p + n <= b.len(),
    ensures
        r@ == b@.subrange(p as int, p + n),
{
    let mut out: Vec<u8> = Vec::new();
    let mut i: usize = 0;
    while i < n
        invariant
            i <= n,
            p + n <= b.len(),
            out@ == b@.subrange(p as int, p + i),
        decreases n - i,
    {
        out.push(b[p + i]);
        i = i + 1;
        assert(out@ =~= b@.subrange(p as int, p + i));
    }
    out
}

/// Text at `pos`: a text marker, its length, then UTF-8 bytes.
fn decode_text(b: &[u8], pos: usize, lim: u64) -> (r: Result<(Vec<u8>, usize), DecodeError>)
    requires
        pos <= b.len(),
    ensures
        match r {
            Ok((s, e)) => parse_text(b@, pos as int, lim as nat) == Ok::<(Seq<u8>, int), DecodeError>(
                (s@, e as int),
            ) && pos < e <= b.len(),
            Err(x) => parse_text(b@, pos as int, lim as nat) == Err::<(Seq<u8>, int), DecodeError>(x),
        },
{
    if pos >= b.len() {
        return Err(DecodeError::NeedMoreInput);
    }
    let m = b[pos];
    if family(m) != Some(Family::Text) {
        return Err(DecodeError::MalformedInput(Malformed::KeyNotText));
    }
    match read_size_at(b, pos + 1, m) {
        Err(x) => Err(x),
        Ok((n, q)) => {
            if n > lim {
                Err(DecodeError::MalformedInput(Malformed::LengthOverLimit))
            } else if n > (b.len() - q) as u64 {
                Err(DecodeError::NeedMoreInput)
            } else {
                let s = copy_bytes(b, q, n as usize);
                if is_utf8(s.as_slice()) {
                    Ok((s, q + n as usize))
                } else {
                    Err(DecodeError::MalformedInput(Malformed::InvalidUtf8))
                }
            }
        },
    }
}

/// The value at `pos`, with containers allowed `depth` levels deep and declared
/// lengths up to `lim`.
#[verifier::rlimit(60)]
fn decode_value(b: &[u8], pos: usize, depth: usize, lim: u64) -> (r: Result<(Value, usize), DecodeError>)
    requires
        pos <= b.len(),
    ensures
        match r {
            Ok((v, e)) => parse_value(b@, pos as int, depth as nat, lim as nat) == Ok::<(Val, int), DecodeError>(
                (v@, e as int),
            ) && pos < e <= b.len(),
            Err(x) => parse_value(b@, pos as int, depth as nat, lim as nat) == Err::<(Val, int), DecodeError>(x),
        },
    decreases depth, b.len() - pos, 0nat,
{
    if pos >= b.len() {
        return Err(DecodeError::NeedMoreInput);
    }
    let m = b[pos];
    let p = pos + 1;
    if m <= 0x7F {
        return Ok((Value::Integer(m as i64), p));
    }
    if m >= 0xF0 {
        return Ok((Value::Integer(m as i64 - 256), p));
    }
    if m == NULL {
        return Ok((Value::Null, p));
    }
    if m == FALSE {
        return Ok((Value::Boolean(false), p));
    }
    if m == TRUE {
        return Ok((Value::Boolean(true), p));
    }
    if m == FLOAT_64 {
        return match read_uint_at(b, p, 8) {
            Err(x) => Err(x),
            Ok((u, e)) => Ok((Value::Float(u), e)),
        };
    }
    if INT_8 <= m && m <= INT_64 {
        let w: usize = if m == INT_8 {
            1
        } else if m == INT_16 {
            2
        } else if m == INT_32 {
            4
        } else {
            8
        };
        assert(w == int_width(m));
        return match read_uint_at(b, p, w) {
            Err(x) => Err(x),
            Ok((u, e)) => Ok((Value::Integer(to_signed(u, w)), e)),
        };
    }
    let fam = family(m);
    if fam == Some(Family::Text) {
        return match decode_text(b, pos, lim) {
            Err(x) => Err(x),
            Ok((s, e)) => Ok((Value::String(s), e)),
        };
    }
    if let Some(f) = fam {
        match read_size_at(b, p, m) {
            Err(x) => {
                return Err(x);
            },
            Ok((n, q)) => {
                if n > lim {
                    return Err(DecodeError::MalformedInput(Malformed::LengthOverLimit));
                }
                if f == Family::Bytes {
                    if n > (b.len() - q) as u64 {
                        return Err(DecodeError::NeedMoreInput);
                    }
                    let s = copy_bytes(b, q, n as usize);
                    return Ok((Value::Bytes(s), q + n as usize));
                }
                if depth == 0 {
                    return Err(DecodeError::MalformedInput(Malformed::TooDeep));
                }
                if f == Family::List {
                    return match decode_items(b, q, n, depth - 1, lim) {
                        Err(x) => Err(x),
                        Ok((items, e)) => Ok((Value::List(items), e)),
                    };
                }
                return match decode_entries(b, q, n, depth - 1, lim) {
                    Err(x) => Err(x),
                    Ok((entries, e)) => Ok((Value::Dict(entries), e)),
                };
            },
        }
    }
    if m == LIST_STREAM || m == MAP_STREAM || (TINY_STRUCT <= m && m <= 0xBF) {
        if depth == 0 {
            return Err(DecodeError::MalformedInput(Malformed::TooDeep));
        }
        if m == LIST_STREAM {
            return match decode_stream(b, p, depth - 1, lim) {
                Err(x) => Err(x),
                Ok((items, e)) => Ok((Value::List(items), e)),
            };
        }
        if m == MAP_STREAM {
            return match decode_entry_stream(b, p, depth - 1, lim) {
                Err(x) => Err(x),
                Ok((entries, e)) => Ok((Value::Dict(entries), e)),
            };
        }
        if p >= b.len() {
            return Err(DecodeError::NeedMoreInput);
        }
        let tag = b[p];
        return match decode_items(b, p + 1, (m - TINY_STRUCT) as u64, depth - 1, lim) {
            Err(x) => Err(x),
            Ok((fields, e)) => Ok((Value::Structure(tag, fields), e)),
        };
    }
    Err(DecodeError::MalformedInput(Malformed::UnknownMarker))
}

/// `n` values one after another from `pos`.
fn decode_items(b: &[u8], pos: usize, n: u64, depth: usize, lim: u64) -> (r: Result<
    (Vec<Value>, usize),
    DecodeError,
>)
    requires
        pos <= b.len(),
    ensures
        match r {
            Ok((items, e)) => parse_items(b@, pos as int, n as nat, depth as nat, lim as nat)
                == Ok::<(Seq<Val>, int), DecodeError>((models(items@), e as int)) && pos <= e
                <= b.len(),
            Err(x) => parse_items(b@, pos as int, n as nat, depth as nat, lim as nat) == Err::<
                (Seq<Val>, int),
                DecodeError,
            >(x),
        },
    decreases depth, b.len() - pos, n + 1,
{
    let mut items: Vec<Value> = Vec::new();
    let mut cur: usize = pos;
    let mut i: u64 = 0;
    while i < n
        invariant
            pos <= cur <= b.len(),
            i <= n,
            parse_items(b@, pos as int, n as nat, depth as nat, lim as nat) == prepend(
                models(items@),
                parse_items(b@, cur as int, (n - i) as nat, depth as nat, lim as nat),
            ),
        decreases n - i,
    {
        match decode_value(b, cur, depth, lim) {
            Err(x) => {
                return Err(x);
            },
            Ok((v, e)) => {
                proof {
                    lemma_prepend_prepend(
                        models(items@),
                        seq![v@],
                        parse_items(b@, e as int, (n - i - 1) as nat, depth as nat, lim as nat),
                    );
                }
                let ghost before = items@;
                items.push(v);
                assert(items@.drop_last() =~= before);
                assert(models(items@) == models(before) + seq![v@]);
                cur = e;
                i = i + 1;
            },
        }
    }
    proof {
        lemma_prepend_empty(models(items@), cur as int);
    }
    Ok((items, cur))
}

/// Values one after another from `pos` up to and including the sentinel.
fn decode_stream(b: &[u8], pos: usize, depth: usize, lim: u64) -> (r: Result<
    (Vec<Value>, usize),
    DecodeError,
>)
    requires
        pos <= b.len(),
    ensures
        match r {
            Ok((items, e)) => parse_stream(b@, pos as int, depth as nat, lim as nat) == Ok::<
                (Seq<Val>, int),
                DecodeError,
            >((models(items@), e as int)) && pos < e <= b.len(),
            Err(x) => parse_stream(b@, pos as int, depth as nat, lim as nat) == Err::<
                (Seq<Val>, int),
                DecodeError,
            >(x),
        },
    decreases depth, b.len() - pos, 1nat,
{
    let mut items: Vec<Value> = Vec::new();
    let mut cur: usize = pos;
    loop
        invariant
            pos <= cur <= b.len(),
            parse_stream(b@, pos as int, depth as nat, lim as nat) == prepend(
                models(items@),
                parse_stream(b@, cur as int, depth as nat, lim as nat),
            ),
        decreases b.len() - cur,
    {
        if cur >= b.len() {
            return Err(DecodeError::NeedMoreInput);
        }
        if b[cur] == END_OF_STREAM {
            proof {
                lemma_prepend_empty(models(items@), cur + 1);
            }
            return Ok((items, cur + 1));
        }
        match decode_value(b, cur, depth, lim) {
            Err(x) => {
                return Err(x);
            },
            Ok((v, e)) => {
                proof {
                    lemma_prepend_prepend(
                        models(items@),
                        seq![v@],
                        parse_stream(b@, e as int, depth as nat, lim as nat),
                    );
                }
                let ghost before = items@;
                items.push(v);
                assert(items@.drop_last() =~= before);
                assert(models(items@) == models(before) + seq![v@]);
                cur = e;
            },
        }
    }
}

/// Whether two byte strings are equal.
fn bytes_eq(a: &Vec<u8>, c: &Vec<u8>) -> (r: bool)
    ensures
        r == (a@ == c@),
{
    if a.len() != c.len() {
        return false;
    }
    let mut i: usize = 0;
    while i < a.len()
        invariant
            a.len() == c.len(),
            i <= a.len(),
            forall|j: int| 0 <= j < i ==> a@[j] == c@[j],
        decreases a.len() - i,
    {
        if a[i] != c[i] {
            return false;
        }
        i = i + 1;
    }
    assert(a@ =~= c@);
    true
}

/// Puts an entry into decoded map entries: a repeated key takes the new value in place.
fn put_entry_into(es: &mut Vec<(Vec<u8>, Value)>, k: Vec<u8>, v: Value)
    ensures
        entry_models(final(es)@) == put_entry(entry_models(old(es)@), (k@, v@)),
{
    let ghost ms = entry_models(es@);
    proof {
        lemma_entry_models_len(es@);
    }
    let mut i: usize = es.len();
    assert(ms.take(i as int) =~= ms);
    while i > 0
        invariant
            i <= es.len(),
            es@ == old(es)@,
            ms == entry_models(es@),
            ms.len() == es.len(),
            forall|j: int| 0 <= j < es.len() ==> #[trigger] ms[j] == (es@[j].0@, es@[j].1.model()),
            key_pos(ms, k@) == key_pos(ms.take(i as int), k@),
        decreases i,
    {
        assert(ms.take(i as int).drop_last() =~= ms.take(i - 1));
        assert(ms.take(i as int).last() == ms[i - 1]);
        if bytes_eq(&es[i - 1].0, &k) {
            let ghost old_es = es@;
            es[i - 1] = (k, v);
            proof {
                lemma_entry_models_len(es@);
                assert(entry_models(es@) =~= ms.update(i - 1, (k@, v@)));
            }
            return;
        }
        i = i - 1;
    }
    assert(ms.take(0) =~= Seq::<(Seq<u8>, Val)>::empty());
    let ghost before = es@;
    es.push((k, v));
    assert(es@.drop_last() =~= before);
}

/// `n` key-value entries one after another from `pos`, gathered into a map.
fn decode_entries(b: &[u8], pos: usize, n: u64, depth: usize, lim: u64) -> (r: Result<
    (Vec<(Vec<u8>, Value)>, usize),
    DecodeError,
>)
    requires
        pos <= b.len(),
    ensures
        match r {
            Ok((es, e)) => parse_entries(b@, pos as int, n as nat, depth as nat, lim as nat) matches Ok(
                (raw, e2),
            ) && e2 == e && entry_models(es@) == last_wins(raw) && pos <= e <= b.len(),
            Err(x) => parse_entries(b@, pos as int, n as nat, depth as nat, lim as nat) == Err::<
                (Seq<(Seq<u8>, Val)>, int),
                DecodeError,
            >(x),
        },
    decreases depth, b.len() - pos, n + 1,
{
    let mut es: Vec<(Vec<u8>, Value)> = Vec::new();
    let ghost mut raw: Seq<(Seq<u8>, Val)> = Seq::empty();
    let mut cur: usize = pos;
    let mut i: u64 = 0;
    while i < n
        invariant
            pos <= cur <= b.len(),
            i <= n,
            entry_models(es@) == last_wins(raw),
            parse_entries(b@, pos as int, n as nat, depth as nat, lim as nat) == prepend(
                raw,
                parse_entries(b@, cur as int, (n - i) as nat, depth as nat, lim as nat),
            ),
        decreases n - i,
    {
        let (k, q) = match decode_text(b, cur, lim) {
            Err(x) => {
                return Err(x);
            },
            Ok(kq) => kq,
        };
        match decode_value(b, q, depth, lim) {
            Err(x) => {
                return Err(x);
            },
            Ok((v, e)) => {
                proof {
                    lemma_prepend_prepend(
                        raw,
                        seq![(k@, v@)],
                        parse_entries(b@, e as int, (n - i - 1) as nat, depth as nat, lim as nat),
                    );
                    let next = raw + seq![(k@, v@)];
                    assert(next.drop_last() =~= raw);
                    raw = next;
                }
                put_entry_into(&mut es, k, v);
                cur = e;
                i = i + 1;
            },
        }
    }
    proof {
        lemma_prepend_empty(raw, cur as int);
    }
    Ok((es, cur))
}

/// Key-value entries one after another from `pos` up to and including the sentinel.
fn decode_entry_stream(b: &[u8], pos: usize, depth: usize, lim: u64) -> (r: Result<
    (Vec<(Vec<u8>, Value)>, usize),
    DecodeError,
>)
    requires
        pos <= b.len(),
    ensures
        match r {
            Ok((es, e)) => parse_entry_stream(b@, pos as int, depth as nat, lim as nat) matches Ok(
                (raw, e2),
            ) && e2 == e && entry_models(es@) == last_wins(raw) && pos < e <= b.len(),
            Err(x) => parse_entry_stream(b@, pos as int, depth as nat, lim as nat) == Err::<
                (Seq<(Seq<u8>, Val)>, int),
                DecodeError,
            >(x),
        },
    decreases depth, b.len() - pos, 1nat,
{
    let mut es: Vec<(Vec<u8>, Value)> = Vec::new();
    let ghost mut raw: Seq<(Seq<u8>, Val)> = Seq::empty();
    let mut cur: usize = pos;
    loop
        invariant
            pos <= cur <= b.len(),
            entry_models(es@) == last_wins(raw),
            parse_entry_stream(b@, pos as int, depth as nat, lim as nat) == prepend(
                raw,
                parse_entry_stream(b@, cur as int, depth as nat, lim as nat),
            ),
        decreases b.len() - cur,
    {
        if cur >= b.len() {
            return Err(DecodeError::NeedMoreInput);
        }
        if b[cur] == END_OF_STREAM {
            proof {
                lemma_prepend_empty(raw, cur + 1);
            }
            return Ok((es, cur + 1));
        }
        let (k, q) = match decode_text(b, cur, lim) {
            Err(x) => {
                return Err(x);
            },
            Ok(kq) => kq,
        };
        match decode_value(b, q, depth, lim) {
            Err(x) => {
                return Err(x);
            },
            Ok((v, e)) => {
                proof {
                    lemma_prepend_prepend(
                        raw,
                        seq![(k@, v@)],
                        parse_entry_stream(b@, e as int, depth as nat, lim as nat),
                    );
                    let next = raw + seq![(k@, v@)];
                    assert(next.drop_last() =~= raw);
                    raw = next;
                }
                put_entry_into(&mut es, k, v);
                cur = e;
            },
        }
    }
}

/// Decodes the value that starts at `pos` of `b`. Returns it with the position
/// just past it, or says that the input ends inside it, or why it is malformed.
pub fn decode_from(b: &[u8], pos: usize, limits: &Limits) -> (r: Result<(Value, usize), DecodeError>)
    ensures
        match r {
            Ok((v, e)) => parse_value(b@, pos as int, limits.max_depth as nat, limits.max_len as nat)
                == Ok::<(Val, int), DecodeError>((v@, e as int)) && pos < e <= b.len(),
            Err(x) => parse_value(b@, pos as int, limits.max_depth as nat, limits.max_len as nat)
                == Err::<(Val, int), DecodeError>(x),
        },
{
    if pos > b.len() {
        return Err(DecodeError::NeedMoreInput);
    }
    decode_value(b, pos, limits.max_depth, limits.max_len)
}

/// Decodes the value at the start of `b`, with the number of bytes it took.
pub fn decode(b: &[u8], limits: &Limits) -> (r: Result<(Value, usize), DecodeError>)
    ensures
        match r {
            Ok((v, n)) => parse_value(b@, 0, limits.max_depth as nat, limits.max_len as nat)
                == Ok::<(Val, int), DecodeError>((v@, n as int)) && 0 < n <= b.len(),
            Err(x) => parse_value(b@, 0, limits.max_depth as nat, limits.max_len as nat) == Err::<
                (Val, int),
                DecodeError,
            >(x),
        },
{
    decode_value(b, 0, limits.max_depth, limits.max_len)
}

} // verus!
