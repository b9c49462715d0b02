//! The encoder: canonical encoding of values, and the streaming entry points.
use vstd::prelude::*;
use crate::value::{Val, Value, models, entry_models, lemma_models_len, lemma_entry_models_len};
use crate::wire::{
    Family, pow256, be, header, int_enc, enc, enc_all, enc_entries, encodable, all_encodable,
    entries_encodable, lemma_pow256_values, lemma_all_encodable, lemma_entries_encodable,
    lemma_enc_all_take, lemma_enc_entries_take, NULL, TRUE, FALSE, FLOAT_64, INT_8, INT_16, INT_32,
    INT_64, BYTES_8, STRING_8, LIST_8, MAP_8, TINY_STRING, TINY_LIST, TINY_MAP, TINY_STRUCT,
    MAX_SIZE, MAX_FIELDS, LIST_STREAM, MAP_STREAM, END_OF_STREAM,
};

verus! {

broadcast use {vstd::std_specs::vec::group_vec_axioms, vstd::seq::group_seq_axioms};

/// Why a value could not be encoded.
#[derive(PartialEq, Eq, Structural, Clone, Copy, Debug)]
pub enum EncodeError {
    /// A length over 32 bits, or a structure with more than 15 fields.
    ValueTooLarge,
}

/// Appends the `w` low bytes of `u`, most significant first.
fn push_be(out: &mut Vec<u8>, u: u64, w: usize)
    requires
        w <= 8,
        u < pow256(w as nat),
    ensures
        final(out)@ == old(out)@ + be(u as nat, w as nat),
    decreases w,
{
    if w > 0 {
        let ghost p = pow256((w - 1) as nat);
        assert(u / 256 < p) by (nonlinear_arith)
            requires
                u < 256 * p,
        ;
        push_be(out, u / 256, w - 1);
        out.push((u % 256) as u8);
    }
}

/// Appends the canonical header of a sized value of `n` items.
pub fn write_header(out: &mut Vec<u8>, f: Family, n: usize)
    requires
        n <= MAX_SIZE,
    ensures
        final(out)@ == old(out)@ + header(f, n as nat),
{
    proof {
        lemma_pow256_values();
    }
    let has_tiny = match f {
        Family::Bytes => false,
        _ => true,
    };
    let m8: u8 = match f {
        Family::Bytes => BYTES_8,
        Family::Text => STRING_8,
        Family::List => LIST_8,
        Family::Dict => MAP_8,
    };
    if n < 16 && has_tiny {
        let tiny: u8 = match f {
            Family::Text => TINY_STRING,
            Family::List => TINY_LIST,
            _ => TINY_MAP,
        };
        out.push(tiny + n as u8);
    } else if n < 256 {
        out.push(m8);
        push_be(out, n as u64, 1);
    } else if n < 65536 {
        out.push(m8 + 1);
        push_be(out, n as u64, 2);
    } else {
        out.push(m8 + 2);
        push_be(out, n as u64, 4);
    }
    assert(final(out)@ =~= old(out)@ + header(f, n as nat));
}

/// Appends the canonical encoding of an integer.
pub fn write_int(out: &mut Vec<u8>, i: i64)
    ensures
        final(out)@ == old(out)@ + int_enc(i as int),
{
    proof {
        lemma_pow256_values();
    }
    if -16 <= i && i <= 127 {
        let b: u8 = if i < 0 { (i + 256) as u8 } else { i as u8 };
        out.push(b);
    } else if -128 <= i && i <= 127 {
        out.push(INT_8);
        push_be(out, (i + 256) as u64, 1);
    } else if -32768 <= i && i <= 32767 {
        out.push(INT_16);
        let u: u64 = if i < 0 { (i + 65536) as u64 } else { i as u64 };
        push_be(out, u, 2);
    } else if -0x8000_0000 <= i && i <= 0x7FFF_FFFF {
        out.push(INT_32);
        let u: u64 = if i < 0 { (i + 0x1_0000_0000) as u64 } else { i as u64 };
        push_be(out, u, 4);
    } else {
        out.push(INT_64);
        let u: u64 = if i < 0 {
            ((i - i64::MIN) as u64) + 0x8000_0000_0000_0000
        } else {
            i as u64
        };
        push_be(out, u, 8);
    }
    assert(final(out)@ =~= old(out)@ + int_enc(i as int));
}

/// Appends the canonical encoding of `v`. On error the output holds a partial
/// encoding and is to be discarded.
pub fn write_value(out: &mut Vec<u8>, v: &Value) -> (r: Result<(), EncodeError>)
    ensures
        r is Ok <==> encodable(v@),
        r is Ok ==> final(out)@ == old(out)@ + enc(v@),
    decreases v, 0nat,
{
    match v {
        Value::Null => {
            out.push(NULL);
        },
        Value::Boolean(b) => {
            out.push(if *b { TRUE } else { FALSE });
        },
        Value::Integer(i) => {
            write_int(out, *i);
        },
        Value::Float(bits) => {
            proof {
                lemma_pow256_values();
            }
            out.push(FLOAT_64);
            push_be(out, *bits, 8);
        },
        Value::Bytes(b) => {
            if b.len() as u64 > MAX_SIZE {
                return Err(EncodeError::ValueTooLarge);
            }
            write_header(out, Family::Bytes, b.len());
            write_raw(out, b);
        },
        Value::String(s) => {
            if s.len() as u64 > MAX_SIZE {
                return Err(EncodeError::ValueTooLarge);
            }
            write_header(out, Family::Text, s.len());
            write_raw(out, s);
        },
        Value::List(items) => {
            if items.len() as u64 > MAX_SIZE {
                proof {
                    lemma_models_len(items@);
                }
                return Err(EncodeError::ValueTooLarge);
            }
            assert(v@ == Val::List(models(items@)));
            proof {
                lemma_models_len(items@);
            }
            write_header(out, Family::List, items.len());
            let r = write_all(out, items);
            return r;
        },
        Value::Dict(entries) => {
            if entries.len() as u64 > MAX_SIZE {
                proof {
                    lemma_entry_models_len(entries@);
                }
                return Err(EncodeError::ValueTooLarge);
            }
            assert(v@ == Val::Dict(entry_models(entries@)));
            proof {
                lemma_entry_models_len(entries@);
            }
            write_header(out, Family::Dict, entries.len());
            let r = write_entries(out, entries);
            return r;
        },
        Value::Structure(tag, fields) => {
            proof {
                lemma_models_len(fields@);
            }
            if fields.len() > MAX_FIELDS {
                return Err(EncodeError::ValueTooLarge);
            }
            out.push(TINY_STRUCT + fields.len() as u8);
            out.push(*tag);
            assert(v@ == Val::Structure(*tag, models(fields@)));
            let r = write_all(out, fields);
            assert(r is Ok ==> final(out)@ =~= old(out)@ + enc(v@));
            return r;
        },
    }
    assert(final(out)@ =~= old(out)@ + enc(v@));
    Ok(())
}

/// Appends raw bytes.
fn write_raw(out: &mut Vec<u8>, b: &Vec<u8>)
    ensures
        final(out)@ == old(out)@ + b@,
{
    let mut i: usize = 0;
    while i < b.len()
        invariant
            i <= b.len(),
            out@ == old(out)@ + b@.take(i as int),
        decreases b.len() - i,
    {
        out.push(b[i]);
        i = i + 1;
        assert(out@ =~= old(out)@ + b@.take(i as int));
    }
    assert(b@.take(b.len() as int) =~= b@);
}

/// Appends the encodings of `items`, one after another.
fn write_all(out: &mut Vec<u8>, items: &Vec<Value>) -> (r: Result<(), EncodeError>)
    ensures
        r is Ok <==> all_encodable(models(items@)),
        r is Ok ==> final(out)@ == old(out)@ + enc_all(models(items@)),
    decreases items, 1nat,
{
    proof {
        lemma_models_len(items@);
        lemma_all_encodable(models(items@));
    }
    let ghost ms = models(items@);
    let mut i: usize = 0;
    while i < items.len()
        invariant
            i <= items.len(),
            ms == models(items@),
            ms.len() == items.len(),
            forall|j: int| 0 <= j < items.len() ==> #[trigger] ms[j] == items@[j].model(),
            forall|j: int| 0 <= j < i ==> encodable(#[trigger] ms[j]),
            out@ == old(out)@ + enc_all(ms.take(i as int)),
        decreases items.len() - i,
    {
        proof {
            lemma_enc_all_take(ms, i as int);
        }
        let r = write_value(out, &items[i]);
        if r.is_err() {
            assert(!encodable(ms[i as int]));
            proof {
                lemma_all_encodable(ms);
            }
            return r;
        }
        i = i + 1;
        assert(out@ =~= old(out)@ + enc_all(ms.take(i as int)));
    }
    assert(ms.take(i as int) =~= ms);
    Ok(())
}

/// Appends the encodings of map entries, key then value, one after another.
fn write_entries(out: &mut Vec<u8>, entries: &Vec<(Vec<u8>, Value)>) -> (r: Result<(), EncodeError>)
    ensures
        r is Ok <==> entries_encodable(entry_models(entries@)),
        r is Ok ==> final(out)@ == old(out)@ + enc_entries(entry_models(entries@)),
    decreases entries, 1nat,
{
    proof {
        lemma_entry_models_len(entries@);
        lemma_entries_encodable(entry_models(entries@));
    }
    let ghost ms = entry_models(entries@);
    let mut i: usize = 0;
    while i < entries.len()
        invariant
            i <= entries.len(),
            ms == entry_models(entries@),
            ms.len() == entries.len(),
            forall|j: int|
                0 <= j < entries.len() ==> #[trigger] ms[j] == (entries@[j].0@, entries@[j].1.model()),
            forall|j: int| 0 <= j < i ==> (#[trigger] ms[j]).0.len() <= MAX_SIZE && encodable(ms[j].1),
            out@ == old(out)@ + enc_entries(ms.take(i as int)),
        decreases entries.len() - i,
    {
        proof {
            lemma_enc_entries_take(ms, i as int);
        }
        let r = write_entry(out, &entries[i].0, &entries[i].1);
        if r.is_err() {
            assert(!(ms[i as int].0.len() <= MAX_SIZE && encodable(ms[i as int].1)));
            proof {
                lemma_entries_encodable(ms);
            }
            return r;
        }
        i = i + 1;
        assert(out@ =~= old(out)@ + enc_entries(ms.take(i as int)));
    }
    assert(ms.take(i as int) =~= ms);
    Ok(())
}

/// Appends one map entry: the key as text, then the value. On a streaming map
/// this is the element step between `begin_map` and `end_map`.
pub fn write_entry(out: &mut Vec<u8>, key: &Vec<u8>, value: &Value) -> (r: Result<(), EncodeError>)
    ensures
        r is Ok <==> key@.len() <= MAX_SIZE && encodable(value@),
        r is Ok ==> final(out)@ == old(out)@ + header(Family::Text, key@.len()) + key@ + enc(
            value@,
        ),
    decreases value, 1nat,
{
    if key.len() as u64 > MAX_SIZE {
        return Err(EncodeError::ValueTooLarge);
    }
    write_header(out, Family::Text, key.len());
    write_raw(out, key);
    let r = write_value(out, value);
    assert(r is Ok ==> final(out)@ =~= old(out)@ + header(Family::Text, key@.len()) + key@ + enc(
        value@,
    ));
    r
}

/// The canonical encoding of `v`; fails exactly when a size in `v` exceeds the format.
pub fn encode(v: &Value) -> (r: Result<Vec<u8>, EncodeError>)
    ensures
        r is Ok <==> encodable(v@),
        r matches Ok(bytes) ==> bytes@ == enc(v@),
{
    let mut out: Vec<u8> = Vec::new();
    let r = write_value(&mut out, v);
    match r {
        Ok(()) => {
            assert(out@ =~= enc(v@));
            Ok(out)
        },
        Err(e) => Err(e),
    }
}

/// Opens a list of unknown length; its items follow, each by `write_value`.
pub fn begin_list(out: &mut Vec<u8>)
    ensures
        final(out)@ == old(out)@.push(LIST_STREAM),
{
    out.push(LIST_STREAM);
}

/// Closes a list opened by `begin_list`.
pub fn end_list(out: &mut Vec<u8>)
    ensures
        final(out)@ == old(out)@.push(END_OF_STREAM),
{
    out.push(END_OF_STREAM);
}

/// Opens a map of unknown length; its entries follow, each by `write_entry`.
pub fn begin_map(out: &mut Vec<u8>)
    ensures
        final(out)@ == old(out)@.push(MAP_STREAM),
{
    out.push(MAP_STREAM);
}

/// Closes a map opened by `begin_map`.
pub fn end_map(out: &mut Vec<u8>)
    ensures
        final(out)@ == old(out)@.push(END_OF_STREAM),
{
    out.push(END_OF_STREAM);
}

} // verus!
