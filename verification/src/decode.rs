use vstd::prelude::*;

use crate::error::{DecodeError, ErrorKind};
use crate::items::{
    lemma_view_items, lemma_view_pairs, lex_lt, to_map, view_items, view_pairs,
    BDictionary, BInteger, BList, BString, Item, Value,
};

verus! {

/// Decoder settings.
#[non_exhaustive]
#[derive(Debug)]
pub enum Settings {
    /// Allow only sorted dictionaries.
    SortedDictionaries,
    /// Allow sorted and unsorted dictionaries.
    UnsortedDictionaries,
}

pub open spec fn is_digit(b: u8) -> bool {
    48 <= b <= 57
}

pub open spec fn all_digits(t: Seq<u8>) -> bool {
    forall|i: int| 0 <= i < t.len() ==> is_digit(#[trigger] t[i])
}

/// The shape accepted as signed decimal text: an optional `+` or `-` sign
/// followed by at least one digit.
pub open spec fn int_text_ok(t: Seq<u8>) -> bool {
    if t.len() == 0 {
        false
    } else if t[0] == 43 || t[0] == 45 {
        t.len() >= 2 && all_digits(t.skip(1))
    } else {
        all_digits(t)
    }
}

/// The numeric value of a digit sequence, most significant digit first.
pub open spec fn digits_value(t: Seq<u8>) -> int
    decreases t.len(),
{
    if t.len() == 0 {
        0
    } else {
        digits_value(t.drop_last()) * 10 + (t.last() - 48)
    }
}

/// The signed value of decimal text (sign handling only; digits as above).
pub open spec fn int_text_value(t: Seq<u8>) -> int {
    if t.len() > 0 && t[0] == 45 {
        -digits_value(t.skip(1))
    } else if t.len() > 0 && t[0] == 43 {
        digits_value(t.skip(1))
    } else {
        digits_value(t)
    }
}

pub open spec fn fits_i64(v: int) -> bool {
    i64::MIN <= v <= i64::MAX
}

/// Text rejected for leading zeros: a sign followed by `0` and more text, or
/// a bare `0` followed by more text.
pub open spec fn leading_zeros_text(t: Seq<u8>) -> bool {
    (t.len() >= 3 && t[0] == 45 && t[1] == 48) || (t.len() >= 2 && t[0] == 48)
}

/// The literal text `-0`.
pub open spec fn negative_zero_text(t: Seq<u8>) -> bool {
    t.len() == 2 && t[0] == 45 && t[1] == 48
}

/// What parsing decimal text yields: the canonicalization rules are checked
/// in order (leading zeros, then negative zero), and anything else that is
/// not well-shaped signed decimal text within the signed 64-bit range is
/// invalid data.
pub open spec fn spec_parse_i64(t: Seq<u8>) -> Result<int, ErrorKind> {
    if leading_zeros_text(t) {
        Err(ErrorKind::LeadingZeros)
    } else if negative_zero_text(t) {
        Err(ErrorKind::NegativeZero)
    } else if !int_text_ok(t) || !fits_i64(int_text_value(t)) {
        Err(ErrorKind::InvalidData)
    } else {
        Ok(int_text_value(t))
    }
}

/// The position of the first occurrence of `stop` at or after `pos`.
pub open spec fn spec_find(s: Seq<u8>, pos: int, stop: u8) -> Option<int>
    decreases s.len() - pos,
{
    if pos < 0 || pos >= s.len() {
        None
    } else if s[pos] == stop {
        Some(pos)
    } else {
        spec_find(s, pos + 1, stop)
    }
}

/// What the byte-string production starting at `pos` yields: the digits up
/// to the first `:` read as a length, then that many content bytes.
pub open spec fn spec_parse_string(s: Seq<u8>, pos: int) -> Result<(Value, int), ErrorKind> {
    match spec_find(s, pos, 58) {
        None => Err(ErrorKind::UnexpectedEndOfBuffer),
        Some(colon) => match spec_parse_i64(s.subrange(pos, colon)) {
            Err(e) => Err(e),
            Ok(n) => if colon + 1 + n > s.len() {
                Err(ErrorKind::UnexpectedEndOfBuffer)
            } else {
                Ok((Value::Bytes(s.subrange(colon + 1, colon + 1 + n)), colon + 1 + n))
            },
        },
    }
}

/// What the integer production starting at `pos` (on the `i`) yields: the
/// text up to the first `e` read as a signed decimal integer.
pub open spec fn spec_parse_integer(s: Seq<u8>, pos: int) -> Result<(Value, int), ErrorKind> {
    match spec_find(s, pos + 1, 101) {
        None => Err(ErrorKind::UnexpectedEndOfBuffer),
        Some(epos) => match spec_parse_i64(s.subrange(pos + 1, epos)) {
            Err(e) => Err(e),
            Ok(n) => Ok((Value::Int(n), epos + 1)),
        },
    }
}

/// What parsing one item at `pos` yields: the first byte chooses the
/// production, and any other byte is an unexpected byte.
pub open spec fn spec_parse_item(s: Seq<u8>, pos: int, allow_unsorted: bool) -> Result<
    (Value, int),
    ErrorKind,
>
    recommends
        0 <= pos < s.len(),
    decreases s.len() - pos, 2int,
{
    let b = s[pos];
    if is_digit(b) {
        spec_parse_string(s, pos)
    } else if b == 105 {
        spec_parse_integer(s, pos)
    } else if b == 108 {
        spec_parse_list(s, pos, allow_unsorted)
    } else if b == 100 {
        spec_parse_dict(s, pos, allow_unsorted)
    } else {
        Err(ErrorKind::UnexpectedByte(b))
    }
}

/// What the list production starting at `pos` (on the `l`) yields.
pub open spec fn spec_parse_list(s: Seq<u8>, pos: int, allow_unsorted: bool) -> Result<
    (Value, int),
    ErrorKind,
>
    decreases s.len() - pos, 1int,
{
    if pos >= s.len() {
        Err(ErrorKind::UnexpectedEndOfBuffer)
    } else {
        match spec_parse_list_items(s, pos + 1, allow_unsorted) {
            Ok((items, end)) => Ok((Value::List(items), end)),
            Err(e) => Err(e),
        }
    }
}

/// The items of a list body, parsed in order until the closing `e`; running
/// out of buffer first is an error. The position guard after each item never
/// fires (see `lemma_parse_item_progress`); it bounds the recursion.
pub open spec fn spec_parse_list_items(s: Seq<u8>, pos: int, allow_unsorted: bool) -> Result<
    (Seq<Value>, int),
    ErrorKind,
>
    decreases s.len() - pos, 3int,
{
    if pos >= s.len() {
        Err(ErrorKind::UnexpectedEndOfBuffer)
    } else if s[pos] == 101 {
        Ok((Seq::empty(), pos + 1))
    } else {
        match spec_parse_item(s, pos, allow_unsorted) {
            Err(e) => Err(e),
            Ok((v, p2)) => if !(pos < p2 <= s.len()) {
                Err(ErrorKind::UnexpectedEndOfBuffer)
            } else {
                match spec_parse_list_items(s, p2, allow_unsorted) {
                    Ok((rest, end)) => Ok((seq![v] + rest, end)),
                    Err(e) => Err(e),
                }
            },
        }
    }
}

/// What the dictionary production starting at `pos` (on the `d`) yields: the
/// accepted pairs collected into the sorted-map representation.
pub open spec fn spec_parse_dict(s: Seq<u8>, pos: int, allow_unsorted: bool) -> Result<
    (Value, int),
    ErrorKind,
>
    decreases s.len() - pos, 1int,
{
    if pos >= s.len() {
        Err(ErrorKind::UnexpectedEndOfBuffer)
    } else {
        match spec_parse_dict_pairs(s, pos + 1, allow_unsorted, None) {
            Ok((pairs, end)) => Ok((Value::Dict(to_map(pairs)), end)),
            Err(e) => Err(e),
        }
    }
}

/// The key/value pairs of a dictionary body, in input order, parsed until
/// the closing `e`. Each key must be a byte string and — unless unsorted
/// dictionaries are allowed — must not be strictly less than the previously
/// accepted key `prev`. The position guards never fire (see
/// `lemma_parse_item_progress`); they bound the recursion.
pub open spec fn spec_parse_dict_pairs(
    s: Seq<u8>,
    pos: int,
    allow_unsorted: bool,
    prev: Option<Seq<u8>>,
) -> Result<(Seq<(Seq<u8>, Value)>, int), ErrorKind>
    decreases s.len() - pos, 3int,
{
    if pos >= s.len() {
        Err(ErrorKind::UnexpectedEndOfBuffer)
    } else if s[pos] == 101 {
        Ok((Seq::empty(), pos + 1))
    } else {
        match spec_parse_item(s, pos, allow_unsorted) {
            Err(e) => Err(e),
            Ok((k, p2)) => if !(pos < p2 <= s.len()) {
                Err(ErrorKind::UnexpectedEndOfBuffer)
            } else {
                match k {
                    Value::Bytes(key) => {
                        if !allow_unsorted && (match prev {
                            Some(pk) => lex_lt(key, pk),
                            None => false,
                        }) {
                            Err(ErrorKind::UnsortedDictionary)
                        } else if p2 >= s.len() {
                            Err(ErrorKind::UnexpectedEndOfBuffer)
                        } else {
                            match spec_parse_item(s, p2, allow_unsorted) {
                                Err(e) => Err(e),
                                Ok((v, p3)) => if !(p2 < p3 <= s.len()) {
                                    Err(ErrorKind::UnexpectedEndOfBuffer)
                                } else {
                                    match spec_parse_dict_pairs(
                                        s,
                                        p3,
                                        allow_unsorted,
                                        Some(key),
                                    ) {
                                        Ok((rest, end)) => Ok((seq![(key, v)] + rest, end)),
                                        Err(e) => Err(e),
                                    }
                                },
                            }
                        }
                    },
                    _ => Err(ErrorKind::InvalidDictionaryKey),
                }
            },
        }
    }
}

/// What decoding a whole buffer from `pos` yields: top-level items parsed
/// one after another until the buffer is exhausted.
pub open spec fn spec_parse_all(s: Seq<u8>, pos: int, allow_unsorted: bool) -> Result<
    Seq<Value>,
    ErrorKind,
>
    decreases s.len() - pos,
{
    if pos >= s.len() {
        Ok(Seq::empty())
    } else {
        match spec_parse_item(s, pos, allow_unsorted) {
            Err(e) => Err(e),
            Ok((v, p2)) => if !(pos < p2 <= s.len()) {
                Err(ErrorKind::UnexpectedEndOfBuffer)
            } else {
                match spec_parse_all(s, p2, allow_unsorted) {
                    Ok(rest) => Ok(seq![v] + rest),
                    Err(e) => Err(e),
                }
            },
        }
    }
}

/// What decoding a whole buffer yields.
pub open spec fn spec_decode(s: Seq<u8>, allow_unsorted: bool) -> Result<Seq<Value>, ErrorKind> {
    spec_parse_all(s, 0, allow_unsorted)
}

pub proof fn lemma_find_props(s: Seq<u8>, pos: int, stop: u8)
    requires
        0 <= pos,
    ensures
        match spec_find(s, pos, stop) {
            Some(q) => pos <= q < s.len() && s[q] == stop && forall|k: int|
                pos <= k < q ==> #[trigger] s[k] != stop,
            None => forall|k: int| pos <= k < s.len() ==> #[trigger] s[k] != stop,
        },
    decreases s.len() - pos,
{
    if pos < s.len() && s[pos] != stop {
        lemma_find_props(s, pos + 1, stop);
    }
}

pub proof fn lemma_find_found(s: Seq<u8>, pos: int, stop: u8, q: int)
    requires
        0 <= pos <= q < s.len(),
        s[q] == stop,
        forall|k: int| pos <= k < q ==> #[trigger] s[k] != stop,
    ensures
        spec_find(s, pos, stop) == Some(q),
    decreases q - pos,
{
    if pos < q {
        lemma_find_found(s, pos + 1, stop, q);
    }
}

pub proof fn lemma_find_none(s: Seq<u8>, pos: int, stop: u8)
    requires
        0 <= pos,
        forall|k: int| pos <= k < s.len() ==> #[trigger] s[k] != stop,
    ensures
        spec_find(s, pos, stop) == None::<int>,
    decreases s.len() - pos,
{
    if pos < s.len() {
        lemma_find_none(s, pos + 1, stop);
    }
}

pub proof fn lemma_digits_value_nonneg(t: Seq<u8>)
    requires
        all_digits(t),
    ensures
        digits_value(t) >= 0,
    decreases t.len(),
{
    if t.len() > 0 {
        assert(all_digits(t.drop_last())) by {
            assert(forall|i: int|
                0 <= i < t.len() - 1 ==> #[trigger] t.drop_last()[i] == t[i]);
        }
        lemma_digits_value_nonneg(t.drop_last());
    }
}

pub proof fn lemma_digits_value_step(t: Seq<u8>, i: int, j: int)
    requires
        0 <= i <= j < t.len(),
    ensures
        digits_value(t.subrange(i, j + 1)) == digits_value(t.subrange(i, j)) * 10 + (t[j] - 48),
{
    assert(t.subrange(i, j + 1).drop_last() =~= t.subrange(i, j));
    assert(t.subrange(i, j + 1).last() == t[j]);
}

pub proof fn lemma_digits_value_prefix_le(t: Seq<u8>, i: int)
    requires
        all_digits(t),
        0 <= i <= t.len(),
    ensures
        digits_value(t.subrange(0, i)) <= digits_value(t),
    decreases t.len() - i,
{
    if i == t.len() {
        assert(t.subrange(0, i) =~= t);
    } else {
        lemma_digits_value_step(t, 0, i);
        assert(all_digits(t.subrange(0, i))) by {
            assert(forall|k: int|
                0 <= k < i ==> #[trigger] t.subrange(0, i)[k] == t[k]);
        }
        lemma_digits_value_nonneg(t.subrange(0, i));
        lemma_digits_value_prefix_le(t, i + 1);
    }
}

pub proof fn lemma_parse_string_progress(s: Seq<u8>, pos: int)
    requires
        0 <= pos < s.len(),
        is_digit(s[pos]),
    ensures
        spec_parse_string(s, pos) matches Ok(r) ==> pos < r.1 <= s.len() && r.0 is Bytes,
{
    lemma_find_props(s, pos, 58);
    match spec_find(s, pos, 58) {
        Some(colon) => {
            let t = s.subrange(pos, colon);
            match spec_parse_i64(t) {
                Ok(n) => {
                    assert(t[0] == s[pos]);
                    assert(int_text_ok(t));
                    lemma_digits_value_nonneg(t);
                    assert(n == digits_value(t));
                },
                Err(_) => {},
            }
        },
        None => {},
    }
}

pub proof fn lemma_parse_integer_progress(s: Seq<u8>, pos: int)
    requires
        0 <= pos < s.len(),
    ensures
        spec_parse_integer(s, pos) matches Ok(r) ==> pos < r.1 <= s.len(),
{
    lemma_find_props(s, pos + 1, 101);
}

pub proof fn lemma_parse_list_items_progress(s: Seq<u8>, pos: int, allow_unsorted: bool)
    requires
        0 <= pos,
    ensures
        spec_parse_list_items(s, pos, allow_unsorted) matches Ok(r) ==> pos < r.1 <= s.len(),
    decreases s.len() - pos,
{
    if pos < s.len() && s[pos] != 101 {
        match spec_parse_item(s, pos, allow_unsorted) {
            Ok((v, p2)) => {
                if pos < p2 <= s.len() {
                    lemma_parse_list_items_progress(s, p2, allow_unsorted);
                }
            },
            Err(_) => {},
        }
    }
}

pub proof fn lemma_parse_dict_pairs_progress(
    s: Seq<u8>,
    pos: int,
    allow_unsorted: bool,
    prev: Option<Seq<u8>>,
)
    requires
        0 <= pos,
    ensures
        spec_parse_dict_pairs(s, pos, allow_unsorted, prev) matches Ok(r) ==> pos < r.1
            <= s.len(),
    decreases s.len() - pos,
{
    if pos < s.len() && s[pos] != 101 {
        match spec_parse_item(s, pos, allow_unsorted) {
            Ok((k, p2)) => {
                if pos < p2 <= s.len() {
                    match k {
                        Value::Bytes(key) => {
                            if p2 < s.len() {
                                match spec_parse_item(s, p2, allow_unsorted) {
                                    Ok((v, p3)) => {
                                        if p2 < p3 <= s.len() {
                                            lemma_parse_dict_pairs_progress(
                                                s,
                                                p3,
                                                allow_unsorted,
                                                Some(key),
                                            );
                                        }
                                    },
                                    Err(_) => {},
                                }
                            }
                        },
                        _ => {},
                    }
                }
            },
            Err(_) => {},
        }
    }
}

/// Parses a signed 64-bit integer from decimal text, enforcing the
/// canonicalization rules: no leading zeros, no negative zero.
pub fn parse_i64(bytes: &Vec<u8>) -> (r: Result<i64, DecodeError>)
    ensures
        match r {
            Ok(n) => spec_parse_i64(bytes@) == Ok::<int, ErrorKind>(n as int),
            Err(e) => spec_parse_i64(bytes@) == Err::<int, ErrorKind>(e.kind),
        },
{
    let ghost t = bytes@;
    let len = bytes.len();
    if (len >= 3 && bytes[0] == 45 && bytes[1] == 48) || (len >= 2 && bytes[0] == 48) {
        return Err(DecodeError { kind: ErrorKind::LeadingZeros });
    }
    if len == 2 && bytes[0] == 45 && bytes[1] == 48 {
        return Err(DecodeError { kind: ErrorKind::NegativeZero });
    }
    let mut i: usize = 0;
    let mut negative = false;
    if len > 0 && (bytes[0] == 43 || bytes[0] == 45) {
        negative = bytes[0] == 45;
        i = 1;
    }
    let ghost start = i as int;
    if i >= len {
        assert(!int_text_ok(t));
        return Err(DecodeError { kind: ErrorKind::InvalidData });
    }
    let mut mag: u64 = 0;
    while i < len
        invariant
            t == bytes@,
            len == bytes.len(),
            0 <= start <= i as int <= len,
            start < t.len(),
            start == 0 || start == 1,
            start == 1 ==> t.len() > 0 && (t[0] == 43 || t[0] == 45),
            start == 0 ==> t.len() == 0 || (t[0] != 43 && t[0] != 45),
            negative <==> (start == 1 && t[0] == 45),
            !leading_zeros_text(t),
            !negative_zero_text(t),
            forall|k: int| start <= k < i as int ==> is_digit(#[trigger] t[k]),
            mag as int == digits_value(t.subrange(start, i as int)),
            mag <= 0x8000_0000_0000_0000u64,
        decreases len - i,
    {
        let b = bytes[i];
        if b < 48 || b > 57 {
            proof {
                assert(!is_digit(t[i as int]));
                if start == 1 {
                    assert(t.skip(1)[i as int - 1] == t[i as int]);
                }
                assert(!int_text_ok(t));
            }
            return Err(DecodeError { kind: ErrorKind::InvalidData });
        }
        let d = (b - 48) as u64;
        if mag > (0x8000_0000_0000_0000u64 - d) / 10 {
            proof {
                let bound: int = 0x8000_0000_0000_0000;
                lemma_digits_value_step(t, start, i as int);
                assert(mag as int * 10 + d as int > bound) by (nonlinear_arith)
                    requires
                        mag as int > (bound - d as int) / 10,
                        0 <= d as int <= 9,
                        bound == 0x8000_0000_0000_0000,
                ;
                if int_text_ok(t) {
                    let tail = t.subrange(start, len as int);
                    assert(all_digits(tail)) by {
                        if start == 1 {
                            assert(forall|j: int|
                                0 <= j < t.len() - 1 ==> #[trigger] t.skip(1)[j] == t[j + 1]);
                            assert(forall|j: int|
                                0 <= j < tail.len() ==> #[trigger] tail[j] == t[j + 1]);
                        }
                    }
                    assert(tail.subrange(0, i as int + 1 - start) =~= t.subrange(
                        start,
                        i as int + 1,
                    ));
                    lemma_digits_value_prefix_le(tail, i as int + 1 - start);
                    assert(digits_value(tail) > bound);
                    if start == 1 {
                        assert(t.skip(1) =~= tail);
                    } else {
                        assert(tail =~= t);
                    }
                    assert(!fits_i64(int_text_value(t)));
                }
            }
            return Err(DecodeError { kind: ErrorKind::InvalidData });
        }
        proof {
            let bound: int = 0x8000_0000_0000_0000;
            lemma_digits_value_step(t, start, i as int);
            assert(mag as int * 10 + d as int <= bound) by (nonlinear_arith)
                requires
                    mag as int <= (bound - d as int) / 10,
                    0 <= d as int <= 9,
                    bound == 0x8000_0000_0000_0000,
            ;
        }
        mag = mag * 10 + d;
        i = i + 1;
    }
    proof {
        let tail = t.subrange(start, len as int);
        if start == 1 {
            assert(forall|j: int|
                0 <= j < t.len() - 1 ==> #[trigger] t.skip(1)[j] == t[j + 1]);
            assert(t.skip(1) =~= tail);
        } else {
            assert(tail =~= t);
        }
        assert(all_digits(tail)) by {
            assert(forall|j: int| 0 <= j < tail.len() ==> #[trigger] tail[j] == t[j + start]);
        }
        assert(int_text_ok(t));
        assert(int_text_value(t) == if negative {
            -(mag as int)
        } else {
            mag as int
        });
    }
    if negative {
        if mag == 0x8000_0000_0000_0000u64 {
            Ok(i64::MIN)
        } else {
            Ok(-(mag as i64))
        }
    } else {
        if mag >= 0x8000_0000_0000_0000u64 {
            assert(!fits_i64(int_text_value(t)));
            return Err(DecodeError { kind: ErrorKind::InvalidData });
        }
        Ok(mag as i64)
    }
}

/// Any successfully parsed item ends strictly after it starts and within
/// the buffer.
pub proof fn lemma_parse_item_progress(s: Seq<u8>, pos: int, allow_unsorted: bool)
    requires
        0 <= pos < s.len(),
    ensures
        spec_parse_item(s, pos, allow_unsorted) matches Ok(r) ==> pos < r.1 <= s.len(),
{
    let b = s[pos];
    if is_digit(b) {
        lemma_parse_string_progress(s, pos);
    } else if b == 105 {
        lemma_parse_integer_progress(s, pos);
    } else if b == 108 {
        lemma_parse_list_items_progress(s, pos + 1, allow_unsorted);
    } else if b == 100 {
        lemma_parse_dict_pairs_progress(s, pos + 1, allow_unsorted, None);
    }
}

/// The model of the previously accepted dictionary key, if any.
spec fn opt_key_view(o: Option<BString>) -> Option<Seq<u8>> {
    match o {
        Some(k) => Some(k@),
        None => None,
    }
}

/// Bencode decoder: an owned byte buffer, a cursor, and the
/// dictionary-ordering policy.
pub struct Decoder {
    bytes: Vec<u8>,
    cursor: usize,
    allow_unsorted_dictionaries: bool,
}

impl Decoder {
    /// The input buffer.
    pub closed spec fn buffer(&self) -> Seq<u8> {
        self.bytes@
    }

    /// The current read position.
    pub closed spec fn pos(&self) -> int {
        self.cursor as int
    }

    /// Whether unsorted dictionaries are accepted.
    pub closed spec fn allows_unsorted(&self) -> bool {
        self.allow_unsorted_dictionaries
    }

    /// Constructs a new `Decoder` holding a copy of the given byte buffer,
    /// with the cursor at the start and strict dictionary-order validation.
    pub fn new(bytes: &[u8]) -> (r: Self)
        ensures
            r.buffer() == bytes@,
            r.pos() == 0,
            !r.allows_unsorted(),
    {
        Decoder {
            bytes: vstd::slice::slice_to_vec(bytes),
            cursor: 0,
            allow_unsorted_dictionaries: false,
        }
    }

    /// Applies a setting for the current decoder.
    ///
    /// See the [`Settings`] enum for the full list.
    pub fn setting(self, setting: Settings) -> (r: Self)
        ensures
            r.buffer() == self.buffer(),
            r.pos() == self.pos(),
            r.allows_unsorted() == match setting {
                Settings::SortedDictionaries => false,
                Settings::UnsortedDictionaries => true,
            },
    {
        let mut s = self;
        match setting {
            Settings::SortedDictionaries => s.allow_unsorted_dictionaries = false,
            Settings::UnsortedDictionaries => s.allow_unsorted_dictionaries = true,
        }
        s
    }

    /// Decodes items until the buffer is exhausted, returning the top-level
    /// items in order; the first malformed item aborts the whole decode with
    /// exactly the error that `spec_parse_all` assigns to the buffer.
    pub fn decode(&mut self) -> (r: Result<Vec<Item>, DecodeError>)
        requires
            old(self).pos() <= old(self).buffer().len(),
        ensures
            final(self).buffer() == old(self).buffer(),
            final(self).allows_unsorted() == old(self).allows_unsorted(),
            final(self).pos() <= final(self).buffer().len(),
            match r {
                Ok(items) => spec_parse_all(
                    old(self).buffer(),
                    old(self).pos(),
                    old(self).allows_unsorted(),
                ) == Ok::<Seq<Value>, ErrorKind>(view_items(items@)) && final(self).pos()
                    == final(self).buffer().len(),
                Err(e) => spec_parse_all(
                    old(self).buffer(),
                    old(self).pos(),
                    old(self).allows_unsorted(),
                ) == Err::<Seq<Value>, ErrorKind>(e.kind),
            },
    {
        let ghost s = self.bytes@;
        let ghost p0 = self.cursor as int;
        let ghost allow = self.allow_unsorted_dictionaries;
        let mut items: Vec<Item> = Vec::new();
        loop
            invariant
                self.bytes@ == s,
                self.allow_unsorted_dictionaries == allow,
                s == old(self).buffer(),
                p0 == old(self).pos(),
                allow == old(self).allows_unsorted(),
                p0 <= self.cursor as int <= s.len(),
                (match spec_parse_all(s, self.cursor as int, allow) {
                    Ok(rest) => spec_parse_all(s, p0, allow) == Ok::<Seq<Value>, ErrorKind>(
                        view_items(items@) + rest,
                    ),
                    Err(e) => spec_parse_all(s, p0, allow) == Err::<Seq<Value>, ErrorKind>(e),
                }),
            decreases s.len() - self.cursor,
        {
            if self.cursor >= self.bytes.len() {
                proof {
                    assert(view_items(items@) + Seq::<Value>::empty() =~= view_items(items@));
                }
                return Ok(items);
            }
            let byte = self.bytes[self.cursor];
            let ghost c = self.cursor as int;
            match self.decode_item(byte) {
                Ok(item) => {
                    let ghost items0 = items@;
                    items.push(item);
                    proof {
                        broadcast use lemma_view_items;

                        assert(view_items(items@) =~= view_items(items0).push(item@));
                        match spec_parse_all(s, self.cursor as int, allow) {
                            Ok(rest) => {
                                assert(view_items(items0) + (seq![item@] + rest) =~= view_items(
                                    items@,
                                ) + rest);
                            },
                            Err(_) => {},
                        }
                    }
                },
                Err(e) => {
                    return Err(e);
                },
            }
        }
    }

    /// Decodes a single item, dispatching on its first byte.
    fn decode_item(&mut self, byte: u8) -> (r: Result<Item, DecodeError>)
        requires
            0 <= old(self).pos() < old(self).buffer().len(),
            byte == old(self).buffer()[old(self).pos()],
        ensures
            final(self).buffer() == old(self).buffer(),
            final(self).allows_unsorted() == old(self).allows_unsorted(),
            final(self).pos() <= final(self).buffer().len(),
            match r {
                Ok(item) => spec_parse_item(
                    old(self).buffer(),
                    old(self).pos(),
                    old(self).allows_unsorted(),
                ) == Ok::<(Value, int), ErrorKind>((item@, final(self).pos())) && old(self).pos()
                    < final(self).pos(),
                Err(e) => spec_parse_item(
                    old(self).buffer(),
                    old(self).pos(),
                    old(self).allows_unsorted(),
                ) == Err::<(Value, int), ErrorKind>(e.kind),
            },
        decreases self.buffer().len() - self.pos(), 1int,
    {
        if 48 <= byte && byte <= 57 {
            match self.decode_string() {
                Ok(bs) => Ok(Item::String(bs)),
                Err(e) => Err(e),
            }
        } else if byte == 105 {
            match self.decode_integer() {
                Ok(bi) => Ok(Item::Integer(bi)),
                Err(e) => Err(e),
            }
        } else if byte == 108 {
            match self.decode_list() {
                Ok(bl) => Ok(Item::List(bl)),
                Err(e) => Err(e),
            }
        } else if byte == 100 {
            match self.decode_dictionary() {
                Ok(bd) => Ok(Item::Dictionary(bd)),
                Err(e) => Err(e),
            }
        } else {
            Err(DecodeError { kind: ErrorKind::UnexpectedByte(byte) })
        }
    }

    /// Reads bytes from the buffer until `stop_byte` and returns them; the
    /// cursor ends just past the stop byte.
    fn read_bytes(&mut self, stop_byte: u8) -> (r: Result<Vec<u8>, DecodeError>)
        requires
            0 <= old(self).pos() <= old(self).buffer().len(),
        ensures
            final(self).buffer() == old(self).buffer(),
            final(self).allows_unsorted() == old(self).allows_unsorted(),
            match r {
                Ok(text) => {
                    &&& spec_find(old(self).buffer(), old(self).pos(), stop_byte) == Some(
                        final(self).pos() - 1,
                    )
                    &&& text@ == old(self).buffer().subrange(
                        old(self).pos(),
                        final(self).pos() - 1,
                    )
                    &&& old(self).pos() < final(self).pos() <= old(self).buffer().len()
                },
                Err(e) => {
                    &&& e.kind == ErrorKind::UnexpectedEndOfBuffer
                    &&& spec_find(old(self).buffer(), old(self).pos(), stop_byte) == None::<int>
                    &&& final(self).pos() == old(self).pos()
                },
            },
    {
        let ghost s = self.bytes@;
        let ghost p0 = self.cursor as int;
        let mut i: usize = self.cursor;
        while i < self.bytes.len()
            invariant
                self.bytes@ == s,
                self.cursor as int == p0,
                s == old(self).bytes@,
                p0 == old(self).cursor as int,
                self.allow_unsorted_dictionaries == old(self).allow_unsorted_dictionaries,
                p0 <= i as int <= s.len(),
                0 <= p0,
                forall|k: int| p0 <= k < i as int ==> #[trigger] s[k] != stop_byte,
            decreases s.len() - i,
        {
            if self.bytes[i] == stop_byte {
                proof {
                    lemma_find_found(s, p0, stop_byte, i as int);
                }
                let text = vstd::slice::slice_to_vec(
                    vstd::slice::slice_subrange(self.bytes.as_slice(), self.cursor, i),
                );
                self.cursor = i + 1;
                return Ok(text);
            }
            i = i + 1;
        }
        proof {
            lemma_find_none(s, p0, stop_byte);
        }
        Err(DecodeError { kind: ErrorKind::UnexpectedEndOfBuffer })
    }

    /// Decodes a byte string: a decimal length, `:`, then that many bytes.
    fn decode_string(&mut self) -> (r: Result<BString, DecodeError>)
        requires
            0 <= old(self).pos() < old(self).buffer().len(),
            is_digit(old(self).buffer()[old(self).pos()]),
        ensures
            final(self).buffer() == old(self).buffer(),
            final(self).allows_unsorted() == old(self).allows_unsorted(),
            final(self).pos() <= final(self).buffer().len(),
            match r {
                Ok(bs) => spec_parse_string(old(self).buffer(), old(self).pos()) == Ok::<
                    (Value, int),
                    ErrorKind,
                >((Value::Bytes(bs@), final(self).pos())) && old(self).pos() < final(self).pos(),
                Err(e) => spec_parse_string(old(self).buffer(), old(self).pos()) == Err::<
                    (Value, int),
                    ErrorKind,
                >(e.kind),
            },
    {
        let ghost s = self.bytes@;
        let ghost p0 = self.cursor as int;
        let text = match self.read_bytes(58) {
            Ok(t) => t,
            Err(e) => {
                return Err(e);
            },
        };
        let ghost colon = self.cursor as int - 1;
        let n = match parse_i64(&text) {
            Ok(n) => n,
            Err(e) => {
                return Err(e);
            },
        };
        proof {
            lemma_find_props(s, p0, 58);
            assert(text@[0] == s[p0]);
            assert(int_text_ok(text@));
            lemma_digits_value_nonneg(text@);
            assert(n >= 0);
        }
        let rem = self.bytes.len() - self.cursor;
        if (n as u64) > (rem as u64) {
            return Err(DecodeError { kind: ErrorKind::UnexpectedEndOfBuffer });
        }
        let length = n as usize;
        let content = vstd::slice::slice_to_vec(
            vstd::slice::slice_subrange(self.bytes.as_slice(), self.cursor, self.cursor + length),
        );
        self.cursor = self.cursor + length;
        Ok(BString(content))
    }

    /// Decodes an integer: `i`, signed decimal text, `e`.
    fn decode_integer(&mut self) -> (r: Result<BInteger, DecodeError>)
        requires
            0 <= old(self).pos() < old(self).buffer().len(),
            old(self).buffer()[old(self).pos()] == 105,
        ensures
            final(self).buffer() == old(self).buffer(),
            final(self).allows_unsorted() == old(self).allows_unsorted(),
            final(self).pos() <= final(self).buffer().len(),
            match r {
                Ok(bi) => spec_parse_integer(old(self).buffer(), old(self).pos()) == Ok::<
                    (Value, int),
                    ErrorKind,
                >((Value::Int(bi.0 as int), final(self).pos())) && old(self).pos() < final(self).pos(),
                Err(e) => spec_parse_integer(old(self).buffer(), old(self).pos()) == Err::<
                    (Value, int),
                    ErrorKind,
                >(e.kind),
            },
    {
        // reading the length as a usize bounds the buffer, so the cursor step cannot overflow
        let _limit = self.bytes.len();
        self.cursor = self.cursor + 1;
        let text = match self.read_bytes(101) {
            Ok(t) => t,
            Err(e) => {
                return Err(e);
            },
        };
        match parse_i64(&text) {
            Ok(n) => Ok(BInteger(n)),
            Err(e) => Err(e),
        }
    }

    /// Decodes a list: `l`, items until the closing `e`.
    fn decode_list(&mut self) -> (r: Result<BList, DecodeError>)
        requires
            0 <= old(self).pos() < old(self).buffer().len(),
            old(self).buffer()[old(self).pos()] == 108,
        ensures
            final(self).buffer() == old(self).buffer(),
            final(self).allows_unsorted() == old(self).allows_unsorted(),
            final(self).pos() <= final(self).buffer().len(),
            match r {
                Ok(bl) => spec_parse_list(
                    old(self).buffer(),
                    old(self).pos(),
                    old(self).allows_unsorted(),
                ) == Ok::<(Value, int), ErrorKind>((Value::List(bl@), final(self).pos())) && old(self).pos() < final(self).pos(),
                Err(e) => spec_parse_list(
                    old(self).buffer(),
                    old(self).pos(),
                    old(self).allows_unsorted(),
                ) == Err::<(Value, int), ErrorKind>(e.kind),
            },
        decreases self.buffer().len() - self.pos(), 0int,
    {
        let ghost s = self.bytes@;
        let ghost p0 = self.cursor as int;
        let ghost allow = self.allow_unsorted_dictionaries;
        let ghost c1 = p0 + 1;
        // reading the length as a usize bounds the buffer, so the cursor step cannot overflow
        let _limit = self.bytes.len();
        self.cursor = self.cursor + 1;
        let mut items: Vec<Item> = Vec::new();
        loop
            invariant
                self.bytes@ == s,
                self.allow_unsorted_dictionaries == allow,
                s == old(self).buffer(),
                p0 == old(self).pos(),
                allow == old(self).allows_unsorted(),
                0 <= p0 < s.len(),
                s[p0] == 108,
                c1 == p0 + 1,
                c1 <= self.cursor as int <= s.len(),
                (match spec_parse_list_items(s, self.cursor as int, allow) {
                    Ok(r2) => spec_parse_list_items(s, c1, allow) == Ok::<
                        (Seq<Value>, int),
                        ErrorKind,
                    >((view_items(items@) + r2.0, r2.1)),
                    Err(e) => spec_parse_list_items(s, c1, allow) == Err::<
                        (Seq<Value>, int),
                        ErrorKind,
                    >(e),
                }),
            decreases s.len() - self.cursor,
        {
            if self.cursor >= self.bytes.len() {
                return Err(DecodeError { kind: ErrorKind::UnexpectedEndOfBuffer });
            }
            let byte = self.bytes[self.cursor];
            if byte == 101 {
                self.cursor = self.cursor + 1;
                proof {
                    assert(view_items(items@) + Seq::<Value>::empty() =~= view_items(items@));
                }
                return Ok(BList(items));
            }
            match self.decode_item(byte) {
                Ok(item) => {
                    let ghost items0 = items@;
                    items.push(item);
                    proof {
                        broadcast use lemma_view_items;

                        assert(view_items(items@) =~= view_items(items0).push(item@));
                        match spec_parse_list_items(s, self.cursor as int, allow) {
                            Ok(r2) => {
                                assert(view_items(items0) + (seq![item@] + r2.0) =~= view_items(
                                    items@,
                                ) + r2.0);
                            },
                            Err(_) => {},
                        }
                    }
                },
                Err(e) => {
                    return Err(e);
                },
            }
        }
    }

    /// Decodes a dictionary: `d`, key/value pairs until the closing `e`,
    /// collected into the sorted-map representation.
    fn decode_dictionary(&mut self) -> (r: Result<BDictionary, DecodeError>)
        requires
            0 <= old(self).pos() < old(self).buffer().len(),
            old(self).buffer()[old(self).pos()] == 100,
        ensures
            final(self).buffer() == old(self).buffer(),
            final(self).allows_unsorted() == old(self).allows_unsorted(),
            final(self).pos() <= final(self).buffer().len(),
            match r {
                Ok(bd) => spec_parse_dict(
                    old(self).buffer(),
                    old(self).pos(),
                    old(self).allows_unsorted(),
                ) == Ok::<(Value, int), ErrorKind>((Value::Dict(bd@), final(self).pos())) && old(self).pos() < final(self).pos(),
                Err(e) => spec_parse_dict(
                    old(self).buffer(),
                    old(self).pos(),
                    old(self).allows_unsorted(),
                ) == Err::<(Value, int), ErrorKind>(e.kind),
            },
        decreases self.buffer().len() - self.pos(), 0int,
    {
        let ghost s = self.bytes@;
        let ghost p0 = self.cursor as int;
        let ghost allow = self.allow_unsorted_dictionaries;
        let ghost c1 = p0 + 1;
        // reading the length as a usize bounds the buffer, so the cursor step cannot overflow
        let _limit = self.bytes.len();
        self.cursor = self.cursor + 1;
        let mut map = BDictionary(Vec::new());
        let mut last: Option<BString> = None;
        let ghost mut gpairs: Seq<(Seq<u8>, Value)> = Seq::empty();
        proof {
            broadcast use lemma_view_pairs;

        }
        loop
            invariant
                self.bytes@ == s,
                self.allow_unsorted_dictionaries == allow,
                s == old(self).buffer(),
                p0 == old(self).pos(),
                allow == old(self).allows_unsorted(),
                0 <= p0 < s.len(),
                s[p0] == 100,
                c1 == p0 + 1,
                c1 <= self.cursor as int <= s.len(),
                view_pairs(map.0@) == to_map(gpairs),
                (match spec_parse_dict_pairs(s, self.cursor as int, allow, opt_key_view(last)) {
                    Ok(r2) => spec_parse_dict_pairs(s, c1, allow, None) == Ok::<
                        (Seq<(Seq<u8>, Value)>, int),
                        ErrorKind,
                    >((gpairs + r2.0, r2.1)),
                    Err(e) => spec_parse_dict_pairs(s, c1, allow, None) == Err::<
                        (Seq<(Seq<u8>, Value)>, int),
                        ErrorKind,
                    >(e),
                }),
            decreases s.len() - self.cursor,
        {
            if self.cursor >= self.bytes.len() {
                return Err(DecodeError { kind: ErrorKind::UnexpectedEndOfBuffer });
            }
            let byte = self.bytes[self.cursor];
            if byte == 101 {
                self.cursor = self.cursor + 1;
                proof {
                    assert(gpairs + Seq::<(Seq<u8>, Value)>::empty() =~= gpairs);
                }
                return Ok(map);
            }
            let key = match self.decode_item(byte) {
                Ok(it) => match it.string() {
                    Some(ks) => ks,
                    None => {
                        return Err(DecodeError { kind: ErrorKind::InvalidDictionaryKey });
                    },
                },
                Err(e) => {
                    return Err(e);
                },
            };
            if !self.allow_unsorted_dictionaries {
                match &last {
                    Some(prev) => {
                        if crate::items::bytes_lt(&key.0, &prev.0) {
                            return Err(DecodeError { kind: ErrorKind::UnsortedDictionary });
                        }
                    },
                    None => {},
                }
            }
            if self.cursor >= self.bytes.len() {
                return Err(DecodeError { kind: ErrorKind::UnexpectedEndOfBuffer });
            }
            let byte2 = self.bytes[self.cursor];
            let value = match self.decode_item(byte2) {
                Ok(v) => v,
                Err(e) => {
                    return Err(e);
                },
            };
            let key_copy = BString(vstd::slice::slice_to_vec(key.0.as_slice()));
            let ghost keyv = key@;
            let ghost valv = value@;
            let ghost pairs0 = gpairs;
            map.insert(key, value);
            last = Some(key_copy);
            proof {
                gpairs = pairs0.push((keyv, valv));
                assert(gpairs.drop_last() =~= pairs0);
                match spec_parse_dict_pairs(s, self.cursor as int, allow, opt_key_view(last)) {
                    Ok(r2) => {
                        assert(pairs0 + (seq![(keyv, valv)] + r2.0) =~= gpairs + r2.0);
                    },
                    Err(_) => {},
                }
            }
        }
    }
}

} // verus!
