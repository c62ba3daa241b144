use vstd::prelude::*;

use crate::decode::{
    all_digits, digits_value, lemma_digits_value_nonneg, fits_i64, int_text_ok, int_text_value, is_digit,
    leading_zeros_text, lemma_find_found, negative_zero_text, spec_decode, spec_find,
    spec_parse_all, spec_parse_dict_pairs, spec_parse_i64, spec_parse_integer, spec_parse_item,
    spec_parse_list_items, spec_parse_string,
};
use crate::encode::{
    dec_digits, int_literal, spec_encode, spec_encode_pairs, spec_encode_seq, string_encoding,
    Bencode,
};
use crate::error::ErrorKind;
use crate::items::{
    keys_sorted, lemma_lex_lt_transitive, lemma_lex_lt_trichotomy, lemma_sorted_insert_split,
    lex_lt, sorted_insert, to_map, value_wf, Item, Value,
};

verus! {

/// The decimal digits of a nonnegative number are digits, start with a
/// nonzero digit unless the number is zero, and evaluate back to it.
pub proof fn lemma_dec_digits_props(n: int)
    requires
        n >= 0,
    ensures
        all_digits(dec_digits(n)),
        dec_digits(n).len() >= 1,
        digits_value(dec_digits(n)) == n,
        n > 0 ==> dec_digits(n)[0] != 48,
        n == 0 ==> dec_digits(n) == seq![48u8],
    decreases n,
{
    if n < 10 {
        let t = dec_digits(n);
        assert(t == seq![(48 + n) as u8]);
        assert(t.drop_last() =~= Seq::<u8>::empty());
        assert(digits_value(Seq::<u8>::empty()) == 0);
        assert(t.last() == (48 + n) as u8);
        assert(digits_value(t) == (48 + n) - 48);
    } else {
        lemma_dec_digits_props(n / 10);
        let base = dec_digits(n / 10);
        let t = dec_digits(n);
        assert(t == base.push((48 + n % 10) as u8));
        assert(t.drop_last() =~= base);
        assert(digits_value(t) == digits_value(base) * 10 + ((48 + n % 10) - 48));
        assert(t[0] == base[0]);
        assert(forall|k: int|
            0 <= k < base.len() ==> #[trigger] t[k] == base[k]);
    }
}

/// The canonical text of an in-range integer parses back to it, and holds
/// neither the byte `e` nor the byte `:`.
pub proof fn lemma_parse_int_literal(i: int)
    requires
        fits_i64(i),
    ensures
        spec_parse_i64(int_literal(i)) == Ok::<int, ErrorKind>(i),
        int_literal(i).len() >= 1,
        forall|k: int|
            0 <= k < int_literal(i).len() ==> #[trigger] int_literal(i)[k] != 101
                && int_literal(i)[k] != 58,
{
    let t = int_literal(i);
    if i < 0 {
        lemma_dec_digits_props(-i);
        let dd = dec_digits(-i);
        assert(t == seq![45u8] + dd);
        assert(t[0] == 45);
        assert(forall|k: int| 1 <= k < t.len() ==> #[trigger] t[k] == dd[k - 1]);
        assert(t.skip(1) =~= dd);
        assert(!leading_zeros_text(t));
        assert(!negative_zero_text(t));
        assert(int_text_ok(t));
        assert(int_text_value(t) == i);
    } else {
        lemma_dec_digits_props(i);
        assert(t == dec_digits(i));
        assert(is_digit(t[0]));
        assert(t[0] != 43 && t[0] != 45);
        if i == 0 {
            assert(t.len() == 1);
        }
        assert(!leading_zeros_text(t));
        assert(!negative_zero_text(t));
        assert(int_text_ok(t));
        assert(int_text_value(t) == i);
    }
}

/// A byte-string encoding embedded in a larger buffer parses as exactly
/// those bytes, ending just past the encoding.
pub proof fn lemma_parse_string_encoding(s: Seq<u8>, pos: int, b: Seq<u8>)
    requires
        0 <= pos,
        b.len() <= i64::MAX,
        pos + string_encoding(b).len() <= s.len(),
        s.subrange(pos, pos + string_encoding(b).len()) == string_encoding(b),
    ensures
        spec_parse_string(s, pos) == Ok::<(Value, int), ErrorKind>(
            (Value::Bytes(b), pos + string_encoding(b).len()),
        ),
        is_digit(s[pos]),
{
    let n = b.len() as int;
    lemma_dec_digits_props(n);
    let dd = dec_digits(n);
    let enc = string_encoding(b);
    let colon = pos + dd.len();
    assert forall|k: int| pos <= k < pos + enc.len() implies #[trigger] s[k] == enc[k - pos] by {
        assert(s.subrange(pos, pos + enc.len())[k - pos] == enc[k - pos]);
    }
    assert(forall|k: int| 0 <= k < dd.len() ==> #[trigger] enc[k] == dd[k]);
    assert(enc[dd.len() as int] == 58);
    assert(s[colon] == 58);
    assert forall|k: int| pos <= k < colon implies #[trigger] s[k] != 58 by {
        assert(s[k] == enc[k - pos]);
        assert(enc[k - pos] == dd[k - pos]);
        assert(is_digit(dd[k - pos]));
    }
    lemma_find_found(s, pos, 58, colon);
    assert(s.subrange(pos, colon) =~= dd);
    lemma_parse_int_literal(n);
    assert(int_literal(n) == dd);
    assert(spec_parse_i64(s.subrange(pos, colon)) == Ok::<int, ErrorKind>(n));
    assert forall|k: int| 0 <= k < b.len() implies #[trigger] s[colon + 1 + k] == b[k] by {
        assert(s[colon + 1 + k] == enc[colon + 1 + k - pos]);
        assert(enc[dd.len() + 1 + k] == b[k]);
        assert(colon + 1 + k - pos == dd.len() + 1 + k);
    }
    assert(s.subrange(colon + 1, colon + 1 + n) =~= b);
    assert(is_digit(s[pos]));
}

/// An integer encoding embedded in a larger buffer parses as exactly that
/// integer, ending just past the encoding.
pub proof fn lemma_parse_integer_encoding(s: Seq<u8>, pos: int, i: int)
    requires
        0 <= pos,
        fits_i64(i),
        pos + spec_encode(Value::Int(i)).len() <= s.len(),
        s.subrange(pos, pos + spec_encode(Value::Int(i)).len()) == spec_encode(Value::Int(i)),
    ensures
        spec_parse_integer(s, pos) == Ok::<(Value, int), ErrorKind>(
            (Value::Int(i), pos + spec_encode(Value::Int(i)).len()),
        ),
        s[pos] == 105,
{
    let lit = int_literal(i);
    lemma_parse_int_literal(i);
    let enc = spec_encode(Value::Int(i));
    assert(enc == seq![105u8] + lit + seq![101u8]);
    assert forall|k: int| pos <= k < pos + enc.len() implies #[trigger] s[k] == enc[k - pos] by {
        assert(s.subrange(pos, pos + enc.len())[k - pos] == enc[k - pos]);
    }
    assert(enc[0] == 105);
    assert(forall|k: int| 0 <= k < lit.len() ==> #[trigger] enc[1 + k] == lit[k]);
    let epos = pos + 1 + lit.len();
    assert(enc[1 + lit.len() as int] == 101);
    assert(s[epos] == 101);
    assert forall|k: int| pos + 1 <= k < epos implies #[trigger] s[k] != 101 by {
        assert(s[k] == enc[k - pos]);
        assert(enc[1 + (k - pos - 1)] == lit[k - pos - 1]);
        assert(k - pos == 1 + (k - pos - 1));
    }
    lemma_find_found(s, pos + 1, 101, epos);
    assert forall|k: int| 0 <= k < lit.len() implies #[trigger] s.subrange(pos + 1, epos)[k]
        == lit[k] by {
        assert(s[pos + 1 + k] == enc[pos + 1 + k - pos]);
        assert(enc[1 + k] == lit[k]);
        assert(pos + 1 + k - pos == 1 + k);
    }
    assert(s.subrange(pos + 1, epos) =~= lit);
}

/// Splitting a known region: if a stretch of the buffer holds `front`
/// followed by `back`, each part occupies its own subrange.
proof fn lemma_region_split(s: Seq<u8>, pos: int, front: Seq<u8>, back: Seq<u8>)
    requires
        0 <= pos,
        pos + front.len() + back.len() <= s.len(),
        s.subrange(pos, pos + front.len() + back.len()) == front + back,
    ensures
        s.subrange(pos, pos + front.len()) == front,
        s.subrange(pos + front.len(), pos + front.len() + back.len()) == back,
{
    let whole = front + back;
    assert forall|k: int|
        pos <= k < pos + whole.len() implies #[trigger] s[k] == whole[k - pos] by {
        assert(s.subrange(pos, pos + whole.len())[k - pos] == whole[k - pos]);
    }
    assert(s.subrange(pos, pos + front.len()) =~= front);
    assert(s.subrange(pos + front.len(), pos + front.len() + back.len()) =~= back);
}

/// Every encoding is at least two bytes long and never starts with the
/// closing byte `e`.
pub proof fn lemma_spec_encode_first(v: Value)
    ensures
        spec_encode(v).len() >= 2,
        spec_encode(v)[0] != 101,
{
    match v {
        Value::Bytes(b) => {
            lemma_dec_digits_props(b.len() as int);
            assert(spec_encode(v)[0] == dec_digits(b.len() as int)[0]);
            assert(is_digit(spec_encode(v)[0]));
        },
        Value::Int(i) => {
            if i < 0 {
                lemma_dec_digits_props(-i);
            } else {
                lemma_dec_digits_props(i);
            }
            assert(int_literal(i).len() >= 1);
            assert(spec_encode(v)[0] == 105);
        },
        Value::List(_) => {
            assert(spec_encode(v)[0] == 108);
        },
        Value::Dict(_) => {
            assert(spec_encode(v)[0] == 100);
        },
    }
}

/// A strictly key-sorted pair sequence is already in map form: collecting it
/// changes nothing.
pub proof fn lemma_to_map_sorted_id(pairs: Seq<(Seq<u8>, Value)>)
    requires
        keys_sorted(pairs),
    ensures
        to_map(pairs) == pairs,
    decreases pairs.len(),
{
    if pairs.len() > 0 {
        let front = pairs.drop_last();
        assert(keys_sorted(front)) by {
            assert(forall|i: int|
                0 <= i < front.len() ==> #[trigger] front[i] == pairs[i]);
        }
        lemma_to_map_sorted_id(front);
        assert(forall|j: int|
            0 <= j < front.len() ==> lex_lt(#[trigger] front[j].0, pairs.last().0));
        lemma_sorted_insert_split(front, pairs.last().0, pairs.last().1, front.len() as int);
        assert((pairs.last().0, pairs.last().1) == pairs.last());
        assert(front.take(front.len() as int) + seq![pairs.last()] + front.skip(
            front.len() as int,
        ) =~= pairs);
    }
}

/// An item encoding embedded in a larger buffer parses back to exactly that
/// item, ending just past the encoding, under either ordering policy.
pub proof fn lemma_parse_encoded_at(v: Value, s: Seq<u8>, pos: int, allow_unsorted: bool)
    requires
        value_wf(v),
        0 <= pos,
        pos + spec_encode(v).len() <= s.len(),
        s.subrange(pos, pos + spec_encode(v).len()) == spec_encode(v),
    ensures
        spec_parse_item(s, pos, allow_unsorted) == Ok::<(Value, int), ErrorKind>(
            (v, pos + spec_encode(v).len()),
        ),
    decreases v, 0int,
{
    let enc = spec_encode(v);
    lemma_spec_encode_first(v);
    match v {
        Value::Bytes(b) => {
            lemma_parse_string_encoding(s, pos, b);
        },
        Value::Int(i) => {
            lemma_parse_integer_encoding(s, pos, i);
        },
        Value::List(items) => {
            let body = spec_encode_seq(items);
            assert(enc =~= seq![108u8] + (body + seq![101u8]));
            lemma_region_split(s, pos, seq![108u8], body + seq![101u8]);
            assert(s[pos] == 108) by {
                assert(s.subrange(pos, pos + 1)[0] == s[pos]);
            }
            lemma_region_split(s, pos + 1, body, seq![101u8]);
            assert(s[pos + 1 + body.len()] == 101) by {
                assert(s.subrange(pos + 1 + body.len(), pos + 1 + body.len() + 1)[0] == s[pos + 1
                    + body.len()]);
            }
            lemma_parse_encoded_seq(items, s, pos + 1, allow_unsorted);
        },
        Value::Dict(pairs) => {
            let body = spec_encode_pairs(pairs);
            assert(enc =~= seq![100u8] + (body + seq![101u8]));
            lemma_region_split(s, pos, seq![100u8], body + seq![101u8]);
            assert(s[pos] == 100) by {
                assert(s.subrange(pos, pos + 1)[0] == s[pos]);
            }
            lemma_region_split(s, pos + 1, body, seq![101u8]);
            assert(s[pos + 1 + body.len()] == 101) by {
                assert(s.subrange(pos + 1 + body.len(), pos + 1 + body.len() + 1)[0] == s[pos + 1
                    + body.len()]);
            }
            assert forall|i: int|
                0 <= i < pairs.len() implies value_wf(#[trigger] pairs[i].1) && pairs[i].0.len()
                <= i64::MAX by {
                let key = pairs[i].0;
                let val = pairs[i].1;
                assert(value_wf(val));
                assert(key.len() <= i64::MAX);
            }
            lemma_parse_encoded_pairs(pairs, s, pos + 1, allow_unsorted, None);
            lemma_to_map_sorted_id(pairs);
        },
    }
}

/// The concatenated encodings of a sequence of well-formed values, followed
/// by the closing byte `e`, parse as exactly those values in order.
pub proof fn lemma_parse_encoded_seq(items: Seq<Value>, s: Seq<u8>, pos: int, allow_unsorted: bool)
    requires
        forall|i: int| 0 <= i < items.len() ==> value_wf(#[trigger] items[i]),
        0 <= pos,
        pos + spec_encode_seq(items).len() + 1 <= s.len(),
        s.subrange(pos, pos + spec_encode_seq(items).len()) == spec_encode_seq(items),
        s[pos + spec_encode_seq(items).len()] == 101,
    ensures
        spec_parse_list_items(s, pos, allow_unsorted) == Ok::<(Seq<Value>, int), ErrorKind>(
            (items, pos + spec_encode_seq(items).len() + 1),
        ),
    decreases items, 1int,
{
    let encseq = spec_encode_seq(items);
    if items.len() == 0 {
        assert(s[pos] == 101);
        assert(items =~= Seq::<Value>::empty());
    } else {
        let v0 = items[0];
        let e0 = spec_encode(v0);
        let rest = items.skip(1);
        let erest = spec_encode_seq(rest);
        assert(encseq =~= e0 + erest);
        lemma_spec_encode_first(v0);
        lemma_region_split(s, pos, e0, erest);
        assert(s[pos] == e0[0]) by {
            assert(s.subrange(pos, pos + e0.len())[0] == s[pos]);
        }
        assert(s[pos] != 101);
        lemma_parse_encoded_at(v0, s, pos, allow_unsorted);
        let p2 = pos + e0.len();
        assert(s[p2 + erest.len()] == 101);
        lemma_parse_encoded_seq(rest, s, p2, allow_unsorted);
        assert(seq![v0] + rest =~= items);
    }
}

/// The concatenated key/value encodings of a strictly key-sorted pair
/// sequence, followed by the closing byte `e`, parse as exactly those pairs
/// in order, under either ordering policy, provided no key falls below the
/// previously accepted key.
#[verifier::rlimit(100)]
pub proof fn lemma_parse_encoded_pairs(
    pairs: Seq<(Seq<u8>, Value)>,
    s: Seq<u8>,
    pos: int,
    allow_unsorted: bool,
    prev: Option<Seq<u8>>,
)
    requires
        keys_sorted(pairs),
        forall|i: int|
            0 <= i < pairs.len() ==> value_wf(#[trigger] pairs[i].1) && pairs[i].0.len()
                <= i64::MAX,
        match prev {
            None => true,
            Some(pk) => forall|i: int|
                0 <= i < pairs.len() ==> !lex_lt((#[trigger] pairs[i]).0, pk),
        },
        0 <= pos,
        pos + spec_encode_pairs(pairs).len() + 1 <= s.len(),
        s.subrange(pos, pos + spec_encode_pairs(pairs).len()) == spec_encode_pairs(pairs),
        s[pos + spec_encode_pairs(pairs).len()] == 101,
    ensures
        spec_parse_dict_pairs(s, pos, allow_unsorted, prev) == Ok::<
            (Seq<(Seq<u8>, Value)>, int),
            ErrorKind,
        >((pairs, pos + spec_encode_pairs(pairs).len() + 1)),
    decreases pairs, 1int,
{
    let encps = spec_encode_pairs(pairs);
    if pairs.len() == 0 {
        assert(s[pos] == 101);
        assert(pairs =~= Seq::<(Seq<u8>, Value)>::empty());
    } else {
        let k0 = pairs[0].0;
        let v0 = pairs[0].1;
        let ek = string_encoding(k0);
        let ev = spec_encode(v0);
        let rest = pairs.skip(1);
        let erest = spec_encode_pairs(rest);
        assert(encps =~= ek + (ev + erest));
        lemma_region_split(s, pos, ek, ev + erest);
        lemma_parse_string_encoding(s, pos, k0);
        assert(s[pos] != 101);
        let p2 = pos + ek.len();
        lemma_spec_encode_first(v0);
        lemma_region_split(s, p2, ev, erest);
        lemma_parse_encoded_at(v0, s, p2, allow_unsorted);
        let p3 = p2 + ev.len();
        assert(s[p3 + erest.len()] == 101);
        assert(encps.len() == ek.len() + ev.len() + erest.len());
        assert(spec_parse_item(s, pos, allow_unsorted) == Ok::<(Value, int), ErrorKind>(
            (Value::Bytes(k0), p2),
        ));
        assert(spec_parse_item(s, p2, allow_unsorted) == Ok::<(Value, int), ErrorKind>((v0, p3)));
        assert(pos < p2 <= s.len());
        assert(p2 < s.len());
        assert(p2 < p3 <= s.len());
        assert(keys_sorted(rest)) by {
            assert(forall|i: int|
                0 <= i < rest.len() ==> #[trigger] rest[i] == pairs[i + 1]);
        }
        assert forall|i: int|
            0 <= i < rest.len() implies !lex_lt((#[trigger] rest[i]).0, k0) by {
            assert(rest[i] == pairs[i + 1]);
            assert(lex_lt(pairs[0].0, pairs[i + 1].0));
            lemma_lex_lt_trichotomy(pairs[i + 1].0, k0);
        }
        assert forall|i: int|
            0 <= i < rest.len() implies value_wf(#[trigger] rest[i].1) && rest[i].0.len()
            <= i64::MAX by {
            assert(rest[i] == pairs[i + 1]);
            let key = pairs[i + 1].0;
            let val = pairs[i + 1].1;
            assert(value_wf(val));
            assert(key.len() <= i64::MAX);
        }
        lemma_parse_encoded_pairs(rest, s, p3, allow_unsorted, Some(k0));
        match prev {
            None => {},
            Some(pk) => {
                assert(!lex_lt(pairs[0].0, pk));
            },
        }
        assert((k0, v0) == pairs[0]);
        assert(seq![(k0, v0)] + rest =~= pairs);
    }
}

/// ROUND TRIP: decoding the encoding of any well-formed item tree yields
/// exactly that tree, as the single decoded value, under either dictionary
/// ordering policy.
pub proof fn lemma_round_trip(v: Value, allow_unsorted: bool)
    requires
        value_wf(v),
    ensures
        spec_decode(spec_encode(v), allow_unsorted) == Ok::<Seq<Value>, ErrorKind>(seq![v]),
{
    let s = spec_encode(v);
    lemma_spec_encode_first(v);
    assert(s.subrange(0, s.len() as int) =~= s);
    lemma_parse_encoded_at(v, s, 0, allow_unsorted);
    assert(spec_parse_all(s, s.len() as int, allow_unsorted) == Ok::<Seq<Value>, ErrorKind>(
        Seq::empty(),
    ));
    assert(seq![v] + Seq::<Value>::empty() =~= seq![v]);
}

/// Decoding the concatenated encodings of well-formed item trees yields
/// exactly those trees, in order: a buffer may carry several top-level
/// values back to back.
pub proof fn lemma_round_trip_sequence(items: Seq<Value>, allow_unsorted: bool)
    requires
        forall|i: int| 0 <= i < items.len() ==> value_wf(#[trigger] items[i]),
    ensures
        spec_decode(spec_encode_seq(items), allow_unsorted) == Ok::<Seq<Value>, ErrorKind>(items),
{
    let s = spec_encode_seq(items);
    assert(s.subrange(0, s.len() as int) =~= s);
    lemma_parse_all_encoded(items, s, 0, allow_unsorted);
}

proof fn lemma_parse_all_encoded(items: Seq<Value>, s: Seq<u8>, pos: int, allow_unsorted: bool)
    requires
        forall|i: int| 0 <= i < items.len() ==> value_wf(#[trigger] items[i]),
        0 <= pos,
        pos + spec_encode_seq(items).len() == s.len(),
        s.subrange(pos, pos + spec_encode_seq(items).len()) == spec_encode_seq(items),
    ensures
        spec_parse_all(s, pos, allow_unsorted) == Ok::<Seq<Value>, ErrorKind>(items),
    decreases items,
{
    let encseq = spec_encode_seq(items);
    if items.len() == 0 {
        assert(items =~= Seq::<Value>::empty());
    } else {
        let v0 = items[0];
        let e0 = spec_encode(v0);
        let rest = items.skip(1);
        let erest = spec_encode_seq(rest);
        assert(encseq =~= e0 + erest);
        lemma_spec_encode_first(v0);
        lemma_region_split(s, pos, e0, erest);
        lemma_parse_encoded_at(v0, s, pos, allow_unsorted);
        let p2 = pos + e0.len();
        lemma_parse_all_encoded(rest, s, p2, allow_unsorted);
        assert(seq![v0] + rest =~= items);
    }
}

/// Sorted insertion keeps keys strictly sorted, and every entry of the
/// result is the inserted pair or one of the old entries.
proof fn lemma_sorted_insert_keeps(m: Seq<(Seq<u8>, Value)>, k: Seq<u8>, v: Value)
    requires
        keys_sorted(m),
    ensures
        keys_sorted(sorted_insert(m, k, v)),
        forall|j: int|
            0 <= j < sorted_insert(m, k, v).len() ==> #[trigger] sorted_insert(m, k, v)[j] == (
            k,
            v,
            ) || exists|i: int| 0 <= i < m.len() && sorted_insert(m, k, v)[j] == m[i],
    decreases m.len(),
{
    let r = sorted_insert(m, k, v);
    if m.len() == 0 {
        assert(r == seq![(k, v)]);
        assert(r[0] == (k, v));
    } else if lex_lt(k, m[0].0) {
        assert(r == seq![(k, v)] + m);
        assert forall|i: int, j: int| 0 <= i < j < r.len() implies lex_lt(
            r[i].0,
            r[j].0,
        ) by {
            if i == 0 {
                if j > 1 {
                    lemma_lex_lt_transitive(k, m[0].0, m[j - 1].0);
                }
            } else {
                assert(r[i] == m[i - 1] && r[j] == m[j - 1]);
            }
        }
        assert forall|j: int|
            0 <= j < r.len() implies #[trigger] r[j] == (k, v) || exists|i: int|
            0 <= i < m.len() && r[j] == m[i] by {
            if j > 0 {
                assert(r[j] == m[j - 1]);
            }
        }
    } else if k == m[0].0 {
        assert(r == seq![(k, v)] + m.skip(1));
        assert forall|i: int, j: int| 0 <= i < j < r.len() implies lex_lt(
            r[i].0,
            r[j].0,
        ) by {
            if i == 0 {
                assert(r[j] == m.skip(1)[j - 1] && m.skip(1)[j - 1] == m[j]);
                assert(lex_lt(m[0].0, m[j].0));
            } else {
                assert(r[i] == m[i] && r[j] == m[j]);
            }
        }
        assert forall|j: int|
            0 <= j < r.len() implies #[trigger] r[j] == (k, v) || exists|i: int|
            0 <= i < m.len() && r[j] == m[i] by {
            if j > 0 {
                assert(r[j] == m[j]);
            }
        }
    } else {
        lemma_lex_lt_trichotomy(k, m[0].0);
        assert(lex_lt(m[0].0, k));
        assert(keys_sorted(m.skip(1))) by {
            assert(forall|i: int|
                0 <= i < m.len() - 1 ==> #[trigger] m.skip(1)[i] == m[i + 1]);
        }
        lemma_sorted_insert_keeps(m.skip(1), k, v);
        let rr = sorted_insert(m.skip(1), k, v);
        assert(r == seq![m[0]] + rr);
        assert forall|i: int, j: int| 0 <= i < j < r.len() implies lex_lt(
            r[i].0,
            r[j].0,
        ) by {
            if i == 0 {
                assert(r[j] == rr[j - 1]);
                if rr[j - 1] == (k, v) {
                    assert(lex_lt(m[0].0, k));
                } else {
                    let w = choose|w: int|
                        0 <= w < m.skip(1).len() && rr[j - 1] == m.skip(1)[w];
                    assert(m.skip(1)[w] == m[w + 1]);
                    assert(lex_lt(m[0].0, m[w + 1].0));
                }
            } else {
                assert(r[i] == rr[i - 1] && r[j] == rr[j - 1]);
            }
        }
        assert forall|j: int|
            0 <= j < r.len() implies #[trigger] r[j] == (k, v) || exists|i: int|
            0 <= i < m.len() && r[j] == m[i] by {
            if j == 0 {
                assert(r[0] == m[0]);
            } else {
                assert(r[j] == rr[j - 1]);
                if rr[j - 1] != (k, v) {
                    let w = choose|w: int|
                        0 <= w < m.skip(1).len() && rr[j - 1] == m.skip(1)[w];
                    assert(m.skip(1)[w] == m[w + 1]);
                    assert(r[j] == m[w + 1]);
                }
            }
        }
    }
}

/// Collecting any pair sequence with well-formed values and in-range keys
/// into map form yields a well-formed dictionary.
pub proof fn lemma_to_map_wf(pairs: Seq<(Seq<u8>, Value)>)
    requires
        forall|i: int| 0 <= i < pairs.len() ==> value_wf(#[trigger] pairs[i].1),
        forall|i: int| 0 <= i < pairs.len() ==> (#[trigger] pairs[i].0).len() <= i64::MAX,
    ensures
        value_wf(Value::Dict(to_map(pairs))),
    decreases pairs.len(),
{
    if pairs.len() == 0 {
        assert(keys_sorted(to_map(pairs)));
    } else {
        let front = pairs.drop_last();
        assert forall|i: int|
            0 <= i < front.len() implies value_wf(#[trigger] front[i].1) && (front[i].0).len()
            <= i64::MAX by {
            assert(front[i] == pairs[i]);
            let key = pairs[i].0;
            let val = pairs[i].1;
            assert(value_wf(val));
            assert(key.len() <= i64::MAX);
        }
        lemma_to_map_wf(front);
        let base = to_map(front);
        let k = pairs.last().0;
        let v = pairs.last().1;
        lemma_sorted_insert_keeps(base, k, v);
        let r = sorted_insert(base, k, v);
        assert(to_map(pairs) == r);
        assert(value_wf(pairs.last().1));
        assert(pairs.last().0.len() <= i64::MAX);
        assert forall|j: int| 0 <= j < r.len() implies value_wf(#[trigger] r[j].1) by {
            if r[j] != (k, v) {
                let w = choose|w: int| 0 <= w < base.len() && r[j] == base[w];
                assert(value_wf(base[w].1));
            }
        }
        assert forall|j: int| 0 <= j < r.len() implies (#[trigger] r[j].0).len() <= i64::MAX by {
            if r[j] != (k, v) {
                let w = choose|w: int| 0 <= w < base.len() && r[j] == base[w];
                assert(base[w].0.len() <= i64::MAX);
            }
        }
    }
}

/// Every value a successful item parse yields is well-formed: integers and
/// string lengths fit in 64 signed bits and every dictionary's keys are
/// strictly sorted.
pub proof fn lemma_parse_item_wf(s: Seq<u8>, pos: int, allow_unsorted: bool)
    requires
        0 <= pos < s.len(),
    ensures
        spec_parse_item(s, pos, allow_unsorted) matches Ok(r) ==> value_wf(r.0),
    decreases s.len() - pos, 2int,
{
    let b = s[pos];
    if is_digit(b) {
        match spec_find(s, pos, 58) {
            Some(colon) => {
                match spec_parse_i64(s.subrange(pos, colon)) {
                    Ok(n) => {
                        crate::decode::lemma_find_props(s, pos, 58);
                        lemma_digits_value_nonneg_text(s.subrange(pos, colon));
                    },
                    Err(_) => {},
                }
            },
            None => {},
        }
    } else if b == 108 {
        lemma_parse_list_items_wf(s, pos + 1, allow_unsorted);
    } else if b == 100 {
        lemma_parse_dict_pairs_wf(s, pos + 1, allow_unsorted, None);
        match spec_parse_dict_pairs(s, pos + 1, allow_unsorted, None) {
            Ok((pairs, end)) => {
                lemma_to_map_wf(pairs);
            },
            Err(_) => {},
        }
    }
}

/// A successfully parsed length prefix that starts with a digit is
/// nonnegative.
proof fn lemma_digits_value_nonneg_text(t: Seq<u8>)
    requires
        t.len() > 0 ==> !(t[0] == 43 || t[0] == 45),
    ensures
        spec_parse_i64(t) matches Ok(n) ==> n >= 0,
{
    match spec_parse_i64(t) {
        Ok(n) => {
            assert(int_text_ok(t));
            lemma_digits_value_nonneg(t);
        },
        Err(_) => {},
    }
}

proof fn lemma_parse_list_items_wf(s: Seq<u8>, pos: int, allow_unsorted: bool)
    requires
        0 <= pos,
    ensures
        spec_parse_list_items(s, pos, allow_unsorted) matches Ok(r) ==> forall|i: int|
            0 <= i < r.0.len() ==> value_wf(#[trigger] r.0[i]),
    decreases s.len() - pos, 3int,
{
    if pos < s.len() && s[pos] != 101 {
        match spec_parse_item(s, pos, allow_unsorted) {
            Ok((v, p2)) => {
                if pos < p2 <= s.len() {
                    lemma_parse_item_wf(s, pos, allow_unsorted);
                    lemma_parse_list_items_wf(s, p2, allow_unsorted);
                    match spec_parse_list_items(s, p2, allow_unsorted) {
                        Ok((rest, end)) => {
                            assert forall|i: int|
                                0 <= i < (seq![v] + rest).len() implies value_wf(
                                #[trigger] (seq![v] + rest)[i],
                            ) by {
                                if i > 0 {
                                    assert((seq![v] + rest)[i] == rest[i - 1]);
                                }
                            }
                        },
                        Err(_) => {},
                    }
                }
            },
            Err(_) => {},
        }
    }
}

proof fn lemma_parse_dict_pairs_wf(
    s: Seq<u8>,
    pos: int,
    allow_unsorted: bool,
    prev: Option<Seq<u8>>,
)
    requires
        0 <= pos,
    ensures
        spec_parse_dict_pairs(s, pos, allow_unsorted, prev) matches Ok(r) ==> (forall|i: int|
            0 <= i < r.0.len() ==> value_wf(#[trigger] r.0[i].1)) && (forall|i: int|
            0 <= i < r.0.len() ==> (#[trigger] r.0[i].0).len() <= i64::MAX),
    decreases s.len() - pos, 3int,
{
    if pos < s.len() && s[pos] != 101 {
        match spec_parse_item(s, pos, allow_unsorted) {
            Ok((k, p2)) => {
                if pos < p2 <= s.len() {
                    match k {
                        Value::Bytes(key) => {
                            lemma_parse_item_wf(s, pos, allow_unsorted);
                            if p2 < s.len() {
                                match spec_parse_item(s, p2, allow_unsorted) {
                                    Ok((v, p3)) => {
                                        if p2 < p3 <= s.len() {
                                            lemma_parse_item_wf(s, p2, allow_unsorted);
                                            lemma_parse_dict_pairs_wf(
                                                s,
                                                p3,
                                                allow_unsorted,
                                                Some(key),
                                            );
                                            match spec_parse_dict_pairs(
                                                s,
                                                p3,
                                                allow_unsorted,
                                                Some(key),
                                            ) {
                                                Ok((rest, end)) => {
                                                    let all = seq![(key, v)] + rest;
                                                    assert forall|i: int|
                                                        0 <= i < all.len() implies value_wf(
                                                        #[trigger] all[i].1,
                                                    ) && (all[i].0).len() <= i64::MAX by {
                                                        if i > 0 {
                                                            assert(all[i] == rest[i - 1]);
                                                            let key2 = rest[i - 1].0;
                                                            let val2 = rest[i - 1].1;
                                                            assert(value_wf(val2));
                                                            assert(key2.len() <= i64::MAX);
                                                        }
                                                    }
                                                },
                                                Err(_) => {},
                                            }
                                        }
                                    },
                                    Err(_) => {},
                                }
                            }
                        },
                        _ => {},
                    }
                }
            },
            Err(_) => {},
        }
    }
}

/// DECODED TREES ARE WELL-FORMED: every value a successful decode yields —
/// under either ordering policy — has its integers and string lengths within
/// 64 signed bits and every dictionary's entries in strictly ascending key
/// order, so dictionaries always iterate sorted.
pub proof fn lemma_decode_wf(s: Seq<u8>, allow_unsorted: bool)
    ensures
        spec_decode(s, allow_unsorted) matches Ok(items) ==> forall|i: int|
            0 <= i < items.len() ==> value_wf(#[trigger] items[i]),
{
    lemma_parse_all_wf(s, 0, allow_unsorted);
}

proof fn lemma_parse_all_wf(s: Seq<u8>, pos: int, allow_unsorted: bool)
    requires
        0 <= pos,
    ensures
        spec_parse_all(s, pos, allow_unsorted) matches Ok(items) ==> forall|i: int|
            0 <= i < items.len() ==> value_wf(#[trigger] items[i]),
    decreases s.len() - pos,
{
    if pos < s.len() {
        match spec_parse_item(s, pos, allow_unsorted) {
            Ok((v, p2)) => {
                if pos < p2 <= s.len() {
                    lemma_parse_item_wf(s, pos, allow_unsorted);
                    lemma_parse_all_wf(s, p2, allow_unsorted);
                    match spec_parse_all(s, p2, allow_unsorted) {
                        Ok(rest) => {
                            assert forall|i: int|
                                0 <= i < (seq![v] + rest).len() implies value_wf(
                                #[trigger] (seq![v] + rest)[i],
                            ) by {
                                if i > 0 {
                                    assert((seq![v] + rest)[i] == rest[i - 1]);
                                }
                            }
                        },
                        Err(_) => {},
                    }
                }
            },
            Err(_) => {},
        }
    }
}

/// Encoding is a pure function of an item's model: items with equal models
/// produce identical bytes, so repeated encodings of an equal tree agree.
pub proof fn lemma_encode_deterministic(a: Item, b: Item)
    requires
        a@ == b@,
    ensures
        a.encoding() == b.encoding(),
{
}

} // verus!

