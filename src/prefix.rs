//! What the decoder makes of an input cut short: a value that ends within the
//! input is read as before, and one that ends past it asks for more input.
use vstd::prelude::*;
use crate::value::Val;
use crate::grammar::{
    DecodeError, Parsed, read_uint, read_size, parse_blob, parse_text, parse_value, parse_items,
    parse_entries, parse_stream, parse_entry_stream, family_of, int_width,
};
use crate::wire::{Family, FLOAT_64, INT_8, INT_64, LIST_STREAM, MAP_STREAM, TINY_STRUCT, END_OF_STREAM};

verus! {

broadcast use vstd::seq::group_seq_axioms;

/// `rt`, a parse of the input cut to `k` bytes, agrees with `rb`, the same parse
/// of the whole input: where `rb` succeeds, `rt` gives the same result if it ends
/// within `k`, and asks for more input if not.
pub open spec fn agrees_up_to<T>(rb: Parsed<T>, rt: Parsed<T>, k: int) -> bool {
    rb is Ok ==> if rb->Ok_0.1 <= k {
        rt == rb
    } else {
        rt == Err::<(T, int), DecodeError>(DecodeError::NeedMoreInput)
    }
}

proof fn lemma_read_uint_cut(b: Seq<u8>, p: int, w: nat, k: int)
    requires
        0 <= p <= k <= b.len(),
    ensures
        agrees_up_to(read_uint(b, p, w), read_uint(b.take(k), p, w), k),
{
    if p + w <= k {
        assert(b.take(k).subrange(p, p + w) =~= b.subrange(p, p + w));
    }
}

proof fn lemma_read_size_cut(b: Seq<u8>, p: int, m: u8, k: int)
    requires
        0 <= p <= k <= b.len(),
    ensures
        agrees_up_to(read_size(b, p, m), read_size(b.take(k), p, m), k),
{
    lemma_read_uint_cut(b, p, crate::grammar::size_width(m), k);
}

proof fn lemma_parse_blob_cut(b: Seq<u8>, p: int, n: nat, k: int)
    requires
        0 <= p <= k <= b.len(),
    ensures
        agrees_up_to(parse_blob(b, p, n), parse_blob(b.take(k), p, n), k),
{
    if p + n <= k {
        assert(b.take(k).subrange(p, p + n) =~= b.subrange(p, p + n));
    }
}

proof fn lemma_parse_text_cut(b: Seq<u8>, pos: int, lim: nat, k: int)
    requires
        0 <= pos <= k <= b.len(),
    ensures
        agrees_up_to(parse_text(b, pos, lim), parse_text(b.take(k), pos, lim), k),
{
    let t = b.take(k);
    if pos < k && parse_text(b, pos, lim) is Ok {
        assert(t[pos] == b[pos]);
        lemma_read_size_cut(b, pos + 1, b[pos], k);
        if let Ok((n, q)) = read_size(b, pos + 1, b[pos]) {
            if q <= k {
                lemma_parse_blob_cut(b, q, n, k);
            }
        }
    }
}

/// The end of a successful parse.
pub open spec fn end_of<T>(r: Parsed<T>) -> int {
    r->Ok_0.1
}

#[verifier::rlimit(100)]
#[verifier::spinoff_prover]
proof fn lemma_value_cut(b: Seq<u8>, pos: int, depth: nat, lim: nat, k: int)
    requires
        0 <= pos <= k <= b.len(),
    ensures
        agrees_up_to(parse_value(b, pos, depth, lim), parse_value(b.take(k), pos, depth, lim), k),
        parse_value(b, pos, depth, lim) is Ok ==> pos < end_of(parse_value(b, pos, depth, lim))
            <= b.len(),
    decreases depth, b.len() - pos, 0nat,
{
    let t = b.take(k);
    if pos < b.len() && parse_value(b, pos, depth, lim) is Ok {
        let m = b[pos];
        let p = pos + 1;
        if pos < k {
            assert(t[pos] == m);
        }
        if m == FLOAT_64 {
            lemma_read_uint_cut(b, p, 8, if p <= k { k } else { b.len() as int });
        } else if INT_8 <= m <= INT_64 {
            lemma_read_uint_cut(b, p, int_width(m), if p <= k { k } else { b.len() as int });
        } else if family_of(m) == Some(Family::Text) {
            lemma_parse_text_cut(b, pos, lim, k);
        } else if family_of(m) is Some {
            let k1 = if p <= k { k } else { b.len() as int };
            lemma_read_size_cut(b, p, m, k1);
            if let Ok((n, q)) = read_size(b, p, m) {
                let k2 = if q <= k { k } else { b.len() as int };
                if family_of(m) == Some(Family::Bytes) {
                    lemma_parse_blob_cut(b, q, n, k2);
                } else if depth > 0 {
                    if family_of(m) == Some(Family::List) {
                        lemma_items_cut(b, q, n, (depth - 1) as nat, lim, k2);
                    } else {
                        lemma_entries_cut(b, q, n, (depth - 1) as nat, lim, k2);
                    }
                }
            }
        } else if depth > 0 {
            let k1 = if p <= k { k } else { b.len() as int };
            if m == LIST_STREAM {
                lemma_stream_cut(b, p, (depth - 1) as nat, lim, k1);
            } else if m == MAP_STREAM {
                lemma_entry_stream_cut(b, p, (depth - 1) as nat, lim, k1);
            } else if TINY_STRUCT <= m <= 0xBF && p < b.len() {
                if p < k {
                    assert(t[p] == b[p]);
                }
                let k2 = if p + 1 <= k { k } else { b.len() as int };
                lemma_items_cut(b, p + 1, (m - TINY_STRUCT) as nat, (depth - 1) as nat, lim, k2);
            }
        }
    }
}

proof fn lemma_items_cut(b: Seq<u8>, pos: int, n: nat, depth: nat, lim: nat, k: int)
    requires
        0 <= pos <= k <= b.len(),
    ensures
        agrees_up_to(
            parse_items(b, pos, n, depth, lim),
            parse_items(b.take(k), pos, n, depth, lim),
            k,
        ),
        parse_items(b, pos, n, depth, lim) is Ok ==> pos <= end_of(
            parse_items(b, pos, n, depth, lim),
        ) <= b.len(),
    decreases depth, b.len() - pos, n + 1,
{
    if n > 0 {
        lemma_value_cut(b, pos, depth, lim, k);
        if let Ok((v, e1)) = parse_value(b, pos, depth, lim) {
            let k2 = if e1 <= k { k } else { b.len() as int };
            lemma_items_cut(b, e1, (n - 1) as nat, depth, lim, k2);
        }
    }
}

proof fn lemma_stream_cut(b: Seq<u8>, pos: int, depth: nat, lim: nat, k: int)
    requires
        0 <= pos <= k <= b.len(),
    ensures
        agrees_up_to(parse_stream(b, pos, depth, lim), parse_stream(b.take(k), pos, depth, lim), k),
        parse_stream(b, pos, depth, lim) is Ok ==> pos < end_of(parse_stream(b, pos, depth, lim))
            <= b.len(),
    decreases depth, b.len() - pos, 1nat,
{
    let t = b.take(k);
    if pos < b.len() {
        if pos < k {
            assert(t[pos] == b[pos]);
        }
        if b[pos] != END_OF_STREAM {
            lemma_value_cut(b, pos, depth, lim, k);
            if let Ok((v, e1)) = parse_value(b, pos, depth, lim) {
                let k2 = if e1 <= k { k } else { b.len() as int };
                lemma_stream_cut(b, e1, depth, lim, k2);
            }
        }
    }
}

proof fn lemma_entries_cut(b: Seq<u8>, pos: int, n: nat, depth: nat, lim: nat, k: int)
    requires
        0 <= pos <= k <= b.len(),
    ensures
        agrees_up_to(
            parse_entries(b, pos, n, depth, lim),
            parse_entries(b.take(k), pos, n, depth, lim),
            k,
        ),
        parse_entries(b, pos, n, depth, lim) is Ok ==> pos <= end_of(
            parse_entries(b, pos, n, depth, lim),
        ) <= b.len(),
    decreases depth, b.len() - pos, n + 1,
{
    if n > 0 {
        lemma_parse_text_cut(b, pos, lim, k);
        if let Ok((key, q)) = parse_text(b, pos, lim) {
            if pos < q <= b.len() {
                let k1 = if q <= k { k } else { b.len() as int };
                lemma_value_cut(b, q, depth, lim, k1);
                if let Ok((v, e1)) = parse_value(b, q, depth, lim) {
                    let k2 = if e1 <= k { k } else { b.len() as int };
                    lemma_entries_cut(b, e1, (n - 1) as nat, depth, lim, k2);
                }
            }
        }
    }
}

proof fn lemma_entry_stream_cut(b: Seq<u8>, pos: int, depth: nat, lim: nat, k: int)
    requires
        0 <= pos <= k <= b.len(),
    ensures
        agrees_up_to(
            parse_entry_stream(b, pos, depth, lim),
            parse_entry_stream(b.take(k), pos, depth, lim),
            k,
        ),
        parse_entry_stream(b, pos, depth, lim) is Ok ==> pos < end_of(
            parse_entry_stream(b, pos, depth, lim),
        ) <= b.len(),
    decreases depth, b.len() - pos, 1nat,
{
    let t = b.take(k);
    if pos < b.len() {
        if pos < k {
            assert(t[pos] == b[pos]);
        }
        if b[pos] != END_OF_STREAM {
            lemma_parse_text_cut(b, pos, lim, k);
            if let Ok((key, q)) = parse_text(b, pos, lim) {
                if pos < q <= b.len() {
                    let k1 = if q <= k { k } else { b.len() as int };
                    lemma_value_cut(b, q, depth, lim, k1);
                    if let Ok((v, e1)) = parse_value(b, q, depth, lim) {
                        let k2 = if e1 <= k { k } else { b.len() as int };
                        lemma_entry_stream_cut(b, e1, depth, lim, k2);
                    }
                }
            }
        }
    }
}

/// Truncation: every strict, non-empty prefix of an input that decodes asks
/// for more input; the decoder neither fails on it nor returns a value.
pub proof fn law_truncated_needs_more(b: Seq<u8>, depth: nat, lim: nat, k: int)
    requires
        parse_value(b, 0, depth, lim) is Ok,
        0 < k < end_of(parse_value(b, 0, depth, lim)),
    ensures
        parse_value(b.take(k), 0, depth, lim) == Err::<(Val, int), DecodeError>(
            DecodeError::NeedMoreInput,
        ),
{
    lemma_value_cut(b, 0, depth, lim, b.len() as int);
    lemma_value_cut(b, 0, depth, lim, k);
}

} // verus!
