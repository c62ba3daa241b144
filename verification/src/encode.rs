use vstd::prelude::*;

use crate::items::{
    lemma_view_items, lemma_view_pairs, view_items, view_pairs, BDictionary, BInteger, BList,
    BString, Item, Value,
};

verus! {

/// The decimal digits of `n` (for `n >= 0`), most significant first, with no
/// leading zeros; `0` renders as the single digit `0`.
pub open spec fn dec_digits(n: int) -> Seq<u8>
    recommends
        n >= 0,
    decreases n,
{
    if n < 10 {
        seq![(48 + if 0 <= n < 10 { n } else { 0 }) as u8]
    } else {
        dec_digits(n / 10).push((48 + n % 10) as u8)
    }
}

/// The canonical decimal text of a signed integer: a `-` sign only if
/// negative, then the digits of its magnitude.
pub open spec fn int_literal(i: int) -> Seq<u8> {
    if i < 0 {
        seq![45u8] + dec_digits(-i)
    } else {
        dec_digits(i)
    }
}

/// The wire form of a byte string: decimal length, `:`, then the raw bytes.
pub open spec fn string_encoding(s: Seq<u8>) -> Seq<u8> {
    dec_digits(s.len() as int) + seq![58u8] + s
}

/// The canonical bencode byte sequence of one model value.
pub open spec fn spec_encode(v: Value) -> Seq<u8>
    decreases v,
{
    match v {
        Value::Bytes(s) => string_encoding(s),
        Value::Int(i) => seq![105u8] + int_literal(i) + seq![101u8],
        Value::List(items) => seq![108u8] + spec_encode_seq(items) + seq![101u8],
        Value::Dict(pairs) => seq![100u8] + spec_encode_pairs(pairs) + seq![101u8],
    }
}

/// The concatenation of the encodings of a sequence of values, in order.
pub open spec fn spec_encode_seq(items: Seq<Value>) -> Seq<u8>
    decreases items,
{
    if items.len() == 0 {
        Seq::empty()
    } else {
        spec_encode(items[0]) + spec_encode_seq(items.skip(1))
    }
}

/// The concatenation of the encodings of a sequence of key/value pairs, in
/// order: each key as a byte string, immediately followed by its value.
pub open spec fn spec_encode_pairs(pairs: Seq<(Seq<u8>, Value)>) -> Seq<u8>
    decreases pairs,
{
    if pairs.len() == 0 {
        Seq::empty()
    } else {
        string_encoding(pairs[0].0) + spec_encode(pairs[0].1) + spec_encode_pairs(pairs.skip(1))
    }
}

pub proof fn lemma_spec_encode_seq_concat(s1: Seq<Value>, s2: Seq<Value>)
    ensures
        spec_encode_seq(s1 + s2) == spec_encode_seq(s1) + spec_encode_seq(s2),
    decreases s1.len(),
{
    if s1.len() == 0 {
        assert(s1 + s2 =~= s2);
        assert(spec_encode_seq(s1) + spec_encode_seq(s2) =~= spec_encode_seq(s2));
    } else {
        lemma_spec_encode_seq_concat(s1.skip(1), s2);
        assert((s1 + s2).skip(1) =~= s1.skip(1) + s2);
        assert(spec_encode(s1[0]) + (spec_encode_seq(s1.skip(1)) + spec_encode_seq(s2)) =~= (
        spec_encode(s1[0]) + spec_encode_seq(s1.skip(1))) + spec_encode_seq(s2));
    }
}

pub proof fn lemma_spec_encode_pairs_concat(s1: Seq<(Seq<u8>, Value)>, s2: Seq<(Seq<u8>, Value)>)
    ensures
        spec_encode_pairs(s1 + s2) == spec_encode_pairs(s1) + spec_encode_pairs(s2),
    decreases s1.len(),
{
    if s1.len() == 0 {
        assert(s1 + s2 =~= s2);
        assert(spec_encode_pairs(s1) + spec_encode_pairs(s2) =~= spec_encode_pairs(s2));
    } else {
        lemma_spec_encode_pairs_concat(s1.skip(1), s2);
        assert((s1 + s2).skip(1) =~= s1.skip(1) + s2);
        assert(string_encoding(s1[0].0) + spec_encode(s1[0].1) + (spec_encode_pairs(s1.skip(1))
            + spec_encode_pairs(s2)) =~= (string_encoding(s1[0].0) + spec_encode(s1[0].1)
            + spec_encode_pairs(s1.skip(1))) + spec_encode_pairs(s2));
    }
}

/// Appends the decimal digits of `n` to `out`.
fn push_decimal_u64(out: &mut Vec<u8>, n: u64)
    ensures
        final(out)@ == old(out)@ + dec_digits(n as int),
    decreases n,
{
    if n < 10 {
        out.push((48 + n) as u8);
        assert(out@ =~= old(out)@ + dec_digits(n as int));
    } else {
        push_decimal_u64(out, n / 10);
        out.push((48 + n % 10) as u8);
        assert(out@ =~= old(out)@ + dec_digits(n as int));
    }
}

/// Appends the canonical decimal text of `n`, sign included, to `out`.
fn push_decimal_i64(out: &mut Vec<u8>, n: i64)
    ensures
        final(out)@ == old(out)@ + int_literal(n as int),
{
    if n < 0 {
        out.push(45);
        let mag: u64 = ((-1 - n) as u64) + 1;
        push_decimal_u64(out, mag);
        assert(out@ =~= old(out)@ + int_literal(n as int));
    } else {
        push_decimal_u64(out, n as u64);
    }
}

/// Appends a copy of `src` to `out`.
fn push_bytes(out: &mut Vec<u8>, src: &Vec<u8>)
    ensures
        final(out)@ == old(out)@ + src@,
{
    let ghost out0 = out@;
    let mut i: usize = 0;
    while i < src.len()
        invariant
            i <= src.len(),
            out@ == out0 + src@.take(i as int),
        decreases src.len() - i,
    {
        out.push(src[i]);
        assert(out@ =~= out0 + src@.take(i + 1));
        i = i + 1;
    }
    assert(out@ =~= out0 + src@);
}

/// Appends the byte-string encoding of `s` to `out`.
fn push_string_encoding(out: &mut Vec<u8>, s: &Vec<u8>)
    ensures
        final(out)@ == old(out)@ + string_encoding(s@),
{
    push_decimal_u64(out, s.len() as u64);
    out.push(58);
    push_bytes(out, s);
    assert(out@ =~= old(out)@ + string_encoding(s@));
}

/// Appends the encoding of one item to `out`.
pub fn encode_item_into(item: &Item, out: &mut Vec<u8>)
    ensures
        final(out)@ == old(out)@ + spec_encode(item@),
    decreases item,
{
    match item {
        Item::String(s) => {
            push_string_encoding(out, &s.0);
        },
        Item::Integer(i) => {
            out.push(105);
            push_decimal_i64(out, i.0);
            out.push(101);
            assert(out@ =~= old(out)@ + spec_encode(item@));
        },
        Item::List(l) => {
            encode_list_into(l, out);
        },
        Item::Dictionary(d) => {
            encode_dictionary_into(d, out);
        },
    }
}

/// Appends the encoding of a list to `out`: `l`, the items in order, `e`.
pub fn encode_list_into(l: &BList, out: &mut Vec<u8>)
    ensures
        final(out)@ == old(out)@ + spec_encode(Value::List(view_items(l.0@))),
    decreases l,
{
    proof {
        broadcast use lemma_view_items;

    }
    let ghost out0 = out@;
    let ghost model = view_items(l.0@);
    out.push(108);
    let mut i: usize = 0;
    while i < l.0.len()
        invariant
            i <= l.0.len(),
            model == view_items(l.0@),
            out@ == out0 + seq![108u8] + spec_encode_seq(model.take(i as int)),
        decreases l.0.len() - i,
    {
        proof {
            broadcast use lemma_view_items;

            assert(decreases_to!(l.0 => l.0@[i as int]));
        }
        encode_item_into(&l.0[i], out);
        proof {
            assert(model.take(i + 1) =~= model.take(i as int) + seq![model[i as int]]);
            lemma_spec_encode_seq_concat(model.take(i as int), seq![model[i as int]]);
            assert(seq![model[i as int]].skip(1) =~= Seq::<Value>::empty());
            assert(spec_encode_seq(Seq::<Value>::empty()) =~= Seq::<u8>::empty());
            assert(spec_encode_seq(seq![model[i as int]]) =~= spec_encode(model[i as int])
                + Seq::<u8>::empty());
            assert(spec_encode(model[i as int]) + Seq::<u8>::empty() =~= spec_encode(
                model[i as int],
            ));
            assert(out@ =~= out0 + seq![108u8] + spec_encode_seq(model.take(i + 1)));
        }
        i = i + 1;
    }
    out.push(101);
    proof {
        assert(model.take(l.0@.len() as int) =~= model);
        assert(out@ =~= old(out)@ + spec_encode(Value::List(view_items(l.0@))));
    }
}

/// Appends the encoding of a dictionary to `out`: `d`, each key and value in
/// the dictionary's own pair order, `e`.
pub fn encode_dictionary_into(d: &BDictionary, out: &mut Vec<u8>)
    ensures
        final(out)@ == old(out)@ + spec_encode(Value::Dict(view_pairs(d.0@))),
    decreases d,
{
    proof {
        broadcast use lemma_view_pairs;

    }
    let ghost out0 = out@;
    let ghost model = view_pairs(d.0@);
    out.push(100);
    let mut i: usize = 0;
    while i < d.0.len()
        invariant
            i <= d.0.len(),
            model == view_pairs(d.0@),
            out@ == out0 + seq![100u8] + spec_encode_pairs(model.take(i as int)),
        decreases d.0.len() - i,
    {
        push_string_encoding(out, &d.0[i].0 .0);
        proof {
            broadcast use lemma_view_pairs;

            assert(decreases_to!(d.0 => d.0@[i as int]));
        }
        encode_item_into(&d.0[i].1, out);
        proof {
            assert(model.take(i + 1) =~= model.take(i as int) + seq![model[i as int]]);
            lemma_spec_encode_pairs_concat(model.take(i as int), seq![model[i as int]]);
            assert(seq![model[i as int]].skip(1) =~= Seq::<(Seq<u8>, Value)>::empty());
            assert(spec_encode_pairs(Seq::<(Seq<u8>, Value)>::empty()) =~= Seq::<u8>::empty());
            assert(spec_encode_pairs(seq![model[i as int]]) =~= string_encoding(
                model[i as int].0,
            ) + spec_encode(model[i as int].1) + Seq::<u8>::empty());
            assert(string_encoding(model[i as int].0) + spec_encode(model[i as int].1)
                + Seq::<u8>::empty() =~= string_encoding(model[i as int].0) + spec_encode(
                model[i as int].1,
            ));
            assert(out@ =~= out0 + seq![100u8] + spec_encode_pairs(model.take(i + 1)));
        }
        i = i + 1;
    }
    out.push(101);
    proof {
        assert(model.take(d.0@.len() as int) =~= model);
        assert(out@ =~= old(out)@ + spec_encode(Value::Dict(view_pairs(d.0@))));
    }
}

/// Bencode trait: anything that can serialize itself to bencode bytes.
pub trait Bencode {
    /// The byte sequence that `encode` produces.
    spec fn encoding(&self) -> Seq<u8>;

    /// Performs the encoding.
    fn encode(&self) -> (r: Vec<u8>)
        ensures
            r@ == self.encoding(),
    ;
}

impl Bencode for Item {
    open spec fn encoding(&self) -> Seq<u8> {
        spec_encode(self@)
    }

    fn encode(&self) -> (r: Vec<u8>) {
        let mut out: Vec<u8> = Vec::new();
        encode_item_into(self, &mut out);
        out
    }
}

impl Bencode for BString {
    open spec fn encoding(&self) -> Seq<u8> {
        string_encoding(self.0@)
    }

    fn encode(&self) -> (r: Vec<u8>) {
        let mut out: Vec<u8> = Vec::new();
        push_string_encoding(&mut out, &self.0);
        out
    }
}

impl Bencode for BInteger {
    open spec fn encoding(&self) -> Seq<u8> {
        spec_encode(Value::Int(self.0 as int))
    }

    fn encode(&self) -> (r: Vec<u8>) {
        let mut out: Vec<u8> = Vec::new();
        out.push(105);
        push_decimal_i64(&mut out, self.0);
        out.push(101);
        assert(out@ =~= self.encoding());
        out
    }
}

impl Bencode for BList {
    open spec fn encoding(&self) -> Seq<u8> {
        spec_encode(Value::List(view_items(self.0@)))
    }

    fn encode(&self) -> (r: Vec<u8>) {
        let mut out: Vec<u8> = Vec::new();
        encode_list_into(self, &mut out);
        out
    }
}

impl Bencode for BDictionary {
    open spec fn encoding(&self) -> Seq<u8> {
        spec_encode(Value::Dict(view_pairs(self.0@)))
    }

    fn encode(&self) -> (r: Vec<u8>) {
        let mut out: Vec<u8> = Vec::new();
        encode_dictionary_into(self, &mut out);
        out
    }
}

/// Encoding a sequence of items is the concatenation of each item's
/// encoding, in order.
impl Bencode for Vec<Item> {
    open spec fn encoding(&self) -> Seq<u8> {
        spec_encode_seq(view_items(self@))
    }

    fn encode(&self) -> (r: Vec<u8>) {
        proof {
            broadcast use lemma_view_items;

        }
        let ghost model = view_items(self@);
        let mut out: Vec<u8> = Vec::new();
        let mut i: usize = 0;
        while i < self.len()
            invariant
                i <= self.len(),
                model == view_items(self@),
                out@ == spec_encode_seq(model.take(i as int)),
            decreases self.len() - i,
        {
            proof {
                broadcast use lemma_view_items;

            }
            encode_item_into(&self[i], &mut out);
            proof {
                assert(model.take(i + 1) =~= model.take(i as int) + seq![model[i as int]]);
                lemma_spec_encode_seq_concat(model.take(i as int), seq![model[i as int]]);
                assert(seq![model[i as int]].skip(1) =~= Seq::<Value>::empty());
                assert(spec_encode_seq(Seq::<Value>::empty()) =~= Seq::<u8>::empty());
                assert(spec_encode_seq(seq![model[i as int]]) =~= spec_encode(model[i as int])
                    + Seq::<u8>::empty());
                assert(spec_encode(model[i as int]) + Seq::<u8>::empty() =~= spec_encode(
                    model[i as int],
                ));
            }
            i = i + 1;
        }
        proof {
            assert(model.take(self@.len() as int) =~= model);
        }
        out
    }
}

} // verus!
