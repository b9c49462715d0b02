//! The decoding grammar, as spec functions: what the decoder returns at each
//! position of an input, including which error it reports.
use vstd::prelude::*;
use crate::value::Val;
use crate::wire::{
    Family, be_val, signed, marker_8, NULL, TRUE, FALSE, FLOAT_64, INT_8, INT_64, BYTES_8,
    BYTES_32, STRING_8, STRING_32, LIST_8, LIST_32, MAP_8, MAP_32, LIST_STREAM, MAP_STREAM,
    TINY_STRUCT, END_OF_STREAM,
};

verus! {

/// Why an input is not a valid encoding.
#[derive(PartialEq, Eq, Structural, Clone, Copy, Debug)]
pub enum Malformed {
    /// A marker byte that stands for no value here.
    UnknownMarker,
    /// A declared length over the decoder's bound.
    LengthOverLimit,
    /// Text whose bytes are not UTF-8.
    InvalidUtf8,
    /// Containers nested deeper than the decoder's bound.
    TooDeep,
    /// A map key that is not text.
    KeyNotText,
}

/// The outcome of a decode that did not produce a value.
#[derive(PartialEq, Eq, Structural, Clone, Copy, Debug)]
pub enum DecodeError {
    /// The input ends inside a value: supply more bytes and decode again.
    NeedMoreInput,
    MalformedInput(Malformed),
}

/// Whether `b` is well-formed UTF-8.
pub uninterp spec fn utf8_valid(b: Seq<u8>) -> bool;

/// Relies on `std::str::from_utf8`: it succeeds exactly on well-formed UTF-8.
#[verifier::external_body]
pub(crate) fn is_utf8(b: &[u8]) -> (r: bool)
    ensures
        r == utf8_valid(b@),
{
    std::str::from_utf8(b).is_ok()
}

/// A decoded item and the position just past it.
pub type Parsed<T> = Result<(T, int), DecodeError>;

/// The family of a sized marker: bytes, text, list or map, tiny or with a length field.
pub open spec fn family_of(m: u8) -> Option<Family> {
    if 0x80 <= m <= 0x8F || STRING_8 <= m <= STRING_32 {
        Some(Family::Text)
    } else if BYTES_8 <= m <= BYTES_32 {
        Some(Family::Bytes)
    } else if 0x90 <= m <= 0x9F || LIST_8 <= m <= LIST_32 {
        Some(Family::List)
    } else if 0xA0 <= m <= 0xAF || MAP_8 <= m <= MAP_32 {
        Some(Family::Dict)
    } else {
        None
    }
}

/// The width of the length field after a sized marker; 0 for a tiny form.
pub open spec fn size_width(m: u8) -> nat {
    if 0x80 <= m <= 0xAF {
        0
    } else {
        let k = m - marker_8(family_of(m)->0);
        if k == 0 {
            1
        } else if k == 1 {
            2
        } else {
            4
        }
    }
}

/// The width of the payload after an integer marker.
pub open spec fn int_width(m: u8) -> nat {
    if m == INT_8 {
        1
    } else if m == INT_8 + 1 {
        2
    } else if m == INT_8 + 2 {
        4
    } else {
        8
    }
}

/// An unsigned big-endian number of `w` bytes at `p`.
pub open spec fn read_uint(b: Seq<u8>, p: int, w: nat) -> Parsed<nat> {
    if p + w > b.len() {
        Err(DecodeError::NeedMoreInput)
    } else {
        Ok((be_val(b.subrange(p, p + w)), p + w))
    }
}

/// The size that a sized marker `m` declares, read from `p` on.
pub open spec fn read_size(b: Seq<u8>, p: int, m: u8) -> Parsed<nat> {
    if size_width(m) == 0 {
        Ok(((m % 16) as nat, p))
    } else {
        read_uint(b, p, size_width(m))
    }
}

/// `n` raw bytes at `p`, the payload of a value whose length has been read.
pub open spec fn parse_blob(b: Seq<u8>, p: int, n: nat) -> Parsed<Seq<u8>> {
    if p + n > b.len() {
        Err(DecodeError::NeedMoreInput)
    } else {
        Ok((b.subrange(p, p + n), p + n))
    }
}

/// Text at `pos`: a text marker, its length, then UTF-8 bytes.
pub open spec fn parse_text(b: Seq<u8>, pos: int, lim: nat) -> Parsed<Seq<u8>> {
    if pos < 0 || pos >= b.len() {
        Err(DecodeError::NeedMoreInput)
    } else if family_of(b[pos]) != Some(Family::Text) {
        Err(DecodeError::MalformedInput(Malformed::KeyNotText))
    } else {
        match read_size(b, pos + 1, b[pos]) {
            Err(x) => Err(x),
            Ok((n, q)) => if n > lim {
                Err(DecodeError::MalformedInput(Malformed::LengthOverLimit))
            } else {
                match parse_blob(b, q, n) {
                    Err(x) => Err(x),
                    Ok((s, e)) => if utf8_valid(s) {
                        Ok((s, e))
                    } else {
                        Err(DecodeError::MalformedInput(Malformed::InvalidUtf8))
                    },
                }
            },
        }
    }
}

/// The value at `pos`, with containers allowed `depth` levels deep and declared
/// lengths up to `lim`.
pub open spec fn parse_value(b: Seq<u8>, pos: int, depth: nat, lim: nat) -> Parsed<Val>
    decreases depth, b.len() - pos, 0nat,
{
    if pos < 0 || pos >= b.len() {
        Err(DecodeError::NeedMoreInput)
    } else {
        let m = b[pos];
        let p = pos + 1;
        if m <= 0x7F {
            Ok((Val::Integer(m as int), p))
        } else if m >= 0xF0 {
            Ok((Val::Integer(m - 256), p))
        } else if m == NULL {
            Ok((Val::Null, p))
        } else if m == FALSE {
            Ok((Val::Boolean(false), p))
        } else if m == TRUE {
            Ok((Val::Boolean(true), p))
        } else if m == FLOAT_64 {
            match read_uint(b, p, 8) {
                Err(x) => Err(x),
                Ok((u, e)) => Ok((Val::Float(u as u64), e)),
            }
        } else if INT_8 <= m <= INT_64 {
            match read_uint(b, p, int_width(m)) {
                Err(x) => Err(x),
                Ok((u, e)) => Ok((Val::Integer(signed(u, int_width(m))), e)),
            }
        } else if family_of(m) == Some(Family::Text) {
            match parse_text(b, pos, lim) {
                Err(x) => Err(x),
                Ok((s, e)) => Ok((Val::Text(s), e)),
            }
        } else if family_of(m) is Some {
            match read_size(b, p, m) {
                Err(x) => Err(x),
                Ok((n, q)) => if n > lim {
                    Err(DecodeError::MalformedInput(Malformed::LengthOverLimit))
                } else if family_of(m) == Some(Family::Bytes) {
                    match parse_blob(b, q, n) {
                        Err(x) => Err(x),
                        Ok((s, e)) => Ok((Val::Bytes(s), e)),
                    }
                } else if depth == 0 {
                    Err(DecodeError::MalformedInput(Malformed::TooDeep))
                } else if family_of(m) == Some(Family::List) {
                    match parse_items(b, q, n, (depth - 1) as nat, lim) {
                        Err(x) => Err(x),
                        Ok((s, e)) => Ok((Val::List(s), e)),
                    }
                } else {
                    match parse_entries(b, q, n, (depth - 1) as nat, lim) {
                        Err(x) => Err(x),
                        Ok((s, e)) => Ok((Val::Dict(last_wins(s)), e)),
                    }
                },
            }
        } else if m == LIST_STREAM || m == MAP_STREAM || TINY_STRUCT <= m <= 0xBF {
            if depth == 0 {
                Err(DecodeError::MalformedInput(Malformed::TooDeep))
            } else if m == LIST_STREAM {
                match parse_stream(b, p, (depth - 1) as nat, lim) {
                    Err(x) => Err(x),
                    Ok((s, e)) => Ok((Val::List(s), e)),
                }
            } else if m == MAP_STREAM {
                match parse_entry_stream(b, p, (depth - 1) as nat, lim) {
                    Err(x) => Err(x),
                    Ok((s, e)) => Ok((Val::Dict(last_wins(s)), e)),
                }
            } else if p >= b.len() {
                Err(DecodeError::NeedMoreInput)
            } else {
                match parse_items(b, p + 1, (m - TINY_STRUCT) as nat, (depth - 1) as nat, lim) {
                    Err(x) => Err(x),
                    Ok((s, e)) => Ok((Val::Structure(b[p], s), e)),
                }
            }
        } else {
            Err(DecodeError::MalformedInput(Malformed::UnknownMarker))
        }
    }
}

/// `n` values one after another from `pos`.
pub open spec fn parse_items(b: Seq<u8>, pos: int, n: nat, depth: nat, lim: nat) -> Parsed<
    Seq<Val>,
>
    decreases depth, b.len() - pos, n + 1,
{
    if n == 0 {
        Ok((Seq::empty(), pos))
    } else {
        match parse_value(b, pos, depth, lim) {
            Err(x) => Err(x),
            Ok((v, e)) => if pos < e <= b.len() {
                prepend(seq![v], parse_items(b, e, (n - 1) as nat, depth, lim))
            } else {
                Err(DecodeError::NeedMoreInput)
            },
        }
    }
}

/// `n` key-value entries one after another from `pos`.
pub open spec fn parse_entries(b: Seq<u8>, pos: int, n: nat, depth: nat, lim: nat) -> Parsed<
    Seq<(Seq<u8>, Val)>,
>
    decreases depth, b.len() - pos, n + 1,
{
    if n == 0 {
        Ok((Seq::empty(), pos))
    } else {
        match parse_text(b, pos, lim) {
            Err(x) => Err(x),
            Ok((k, q)) => if pos < q <= b.len() {
                match parse_value(b, q, depth, lim) {
                    Err(x) => Err(x),
                    Ok((v, e)) => if q < e <= b.len() {
                        prepend(seq![(k, v)], parse_entries(b, e, (n - 1) as nat, depth, lim))
                    } else {
                        Err(DecodeError::NeedMoreInput)
                    },
                }
            } else {
                Err(DecodeError::NeedMoreInput)
            },
        }
    }
}

/// Values one after another from `pos` up to and including the sentinel.
pub open spec fn parse_stream(b: Seq<u8>, pos: int, depth: nat, lim: nat) -> Parsed<Seq<Val>>
    decreases depth, b.len() - pos, 1nat,
{
    if pos < 0 || pos >= b.len() {
        Err(DecodeError::NeedMoreInput)
    } else if b[pos] == END_OF_STREAM {
        Ok((Seq::empty(), pos + 1))
    } else {
        match parse_value(b, pos, depth, lim) {
            Err(x) => Err(x),
            Ok((v, e)) => if pos < e <= b.len() {
                prepend(seq![v], parse_stream(b, e, depth, lim))
            } else {
                Err(DecodeError::NeedMoreInput)
            },
        }
    }
}

/// Key-value entries one after another from `pos` up to and including the sentinel.
pub open spec fn parse_entry_stream(b: Seq<u8>, pos: int, depth: nat, lim: nat) -> Parsed<
    Seq<(Seq<u8>, Val)>,
>
    decreases depth, b.len() - pos, 1nat,
{
    if pos < 0 || pos >= b.len() {
        Err(DecodeError::NeedMoreInput)
    } else if b[pos] == END_OF_STREAM {
        Ok((Seq::empty(), pos + 1))
    } else {
        match parse_text(b, pos, lim) {
            Err(x) => Err(x),
            Ok((k, q)) => if pos < q <= b.len() {
                match parse_value(b, q, depth, lim) {
                    Err(x) => Err(x),
                    Ok((v, e)) => if q < e <= b.len() {
                        prepend(seq![(k, v)], parse_entry_stream(b, e, depth, lim))
                    } else {
                        Err(DecodeError::NeedMoreInput)
                    },
                }
            } else {
                Err(DecodeError::NeedMoreInput)
            },
        }
    }
}

/// `a` put before the items of a successful parse; a failure passes through.
pub open spec fn prepend<T>(a: Seq<T>, r: Parsed<Seq<T>>) -> Parsed<Seq<T>> {
    match r {
        Ok((s, e)) => Ok((a + s, e)),
        Err(x) => Err(x),
    }
}

/// The position of the last entry of `s` with key `k`, or -1.
pub open spec fn key_pos(s: Seq<(Seq<u8>, Val)>, k: Seq<u8>) -> int
    decreases s.len(),
{
    if s.len() == 0 {
        -1
    } else if s.last().0 == k {
        s.len() - 1
    } else {
        key_pos(s.drop_last(), k)
    }
}

/// `s` with the entry `e` put in: it replaces the value of an entry with the same
/// key in place, or is added at the end.
pub open spec fn put_entry(s: Seq<(Seq<u8>, Val)>, e: (Seq<u8>, Val)) -> Seq<(Seq<u8>, Val)> {
    if key_pos(s, e.0) >= 0 {
        s.update(key_pos(s, e.0), e)
    } else {
        s.push(e)
    }
}

/// The map that decoded entries make: for a repeated key, the last value wins,
/// at the position where the key first appeared.
pub open spec fn last_wins(s: Seq<(Seq<u8>, Val)>) -> Seq<(Seq<u8>, Val)>
    decreases s.len(),
{
    if s.len() == 0 {
        s
    } else {
        put_entry(last_wins(s.drop_last()), s.last())
    }
}

} // verus!

verus! {

pub proof fn lemma_prepend_prepend<T>(a: Seq<T>, c: Seq<T>, r: Parsed<Seq<T>>)
    ensures
        prepend(a, prepend(c, r)) == prepend(a + c, r),
{
    if let Ok((s, e)) = r {
        assert(a + (c + s) =~= (a + c) + s);
    }
}

pub proof fn lemma_prepend_empty<T>(a: Seq<T>, e: int)
    ensures
        prepend(a, Ok((Seq::<T>::empty(), e))) == Ok::<(Seq<T>, int), DecodeError>((a, e)),
{
    assert(a + Seq::<T>::empty() =~= a);
}

} // verus!
