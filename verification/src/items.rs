use vstd::pervasive::VecAdditionalExecFns;
use vstd::prelude::*;
use vstd::string::StringSliceAdditionalSpecFns;

verus! {

/// The item type: one decoded or directly constructed bencode value.
#[derive(Debug, Eq, PartialEq)]
pub enum Item {
    /// Byte string.
    String(BString),
    /// Integer.
    Integer(BInteger),
    /// List.
    List(BList),
    /// Dictionary.
    Dictionary(BDictionary),
}

/// The byte string type: an owned byte sequence, ordered and compared
/// byte-lexicographically.
#[derive(Default, Ord, PartialOrd, PartialEq, Eq, Debug, Clone)]
pub struct BString(pub Vec<u8>);

/// The integer type: a signed 64-bit value.
#[derive(Default, Debug, Eq, PartialEq, Clone)]
pub struct BInteger(pub i64);

/// The list type: an ordered sequence of items.
#[derive(Default, Debug, Eq, PartialEq)]
pub struct BList(pub Vec<Item>);

/// The dictionary type: key/value pairs held in ascending byte-lexicographic
/// key order. Entries built through [`BDictionary::insert`] or produced by the
/// decoder always satisfy that ordering invariant.
#[derive(Default, Debug, Eq, PartialEq)]
pub struct BDictionary(pub Vec<(BString, Item)>);

/// The mathematical model of an item tree: byte strings are byte sequences,
/// integers are unbounded, and a dictionary is its sequence of key/value
/// pairs in iteration order.
pub enum Value {
    Bytes(Seq<u8>),
    Int(int),
    List(Seq<Value>),
    Dict(Seq<(Seq<u8>, Value)>),
}

impl View for BString {
    type V = Seq<u8>;

    open spec fn view(&self) -> Seq<u8> {
        self.0@
    }
}

impl View for BInteger {
    type V = int;

    open spec fn view(&self) -> int {
        self.0 as int
    }
}

impl View for Item {
    type V = Value;

    open spec fn view(&self) -> Value
        decreases self,
    {
        match self {
            Item::String(s) => Value::Bytes(s.0@),
            Item::Integer(i) => Value::Int(i.0 as int),
            Item::List(l) => Value::List(view_items(l.0@)),
            Item::Dictionary(d) => Value::Dict(view_pairs(d.0@)),
        }
    }
}

/// The models of a sequence of items, in order.
pub open spec fn view_items(s: Seq<Item>) -> Seq<Value>
    decreases s,
{
    if s.len() == 0 {
        Seq::empty()
    } else {
        seq![s[0]@] + view_items(s.skip(1))
    }
}

/// The models of a sequence of key/value pairs, in order.
pub open spec fn view_pairs(s: Seq<(BString, Item)>) -> Seq<(Seq<u8>, Value)>
    decreases s,
{
    if s.len() == 0 {
        Seq::empty()
    } else {
        seq![(s[0].0@, s[0].1@)] + view_pairs(s.skip(1))
    }
}

impl View for BList {
    type V = Seq<Value>;

    open spec fn view(&self) -> Seq<Value> {
        view_items(self.0@)
    }
}

impl View for BDictionary {
    type V = Seq<(Seq<u8>, Value)>;

    open spec fn view(&self) -> Seq<(Seq<u8>, Value)> {
        view_pairs(self.0@)
    }
}

pub broadcast proof fn lemma_view_items(s: Seq<Item>)
    ensures
        (#[trigger] view_items(s)).len() == s.len(),
        forall|i: int| 0 <= i < s.len() ==> view_items(s)[i] == s[i]@,
    decreases s.len(),
{
    if s.len() > 0 {
        lemma_view_items(s.skip(1));
        assert(view_items(s) == seq![s[0]@] + view_items(s.skip(1)));
        assert forall|i: int| 0 <= i < s.len() implies view_items(s)[i] == s[i]@ by {
            if i > 0 {
                assert(view_items(s)[i] == view_items(s.skip(1))[i - 1]);
                assert(s.skip(1)[i - 1] == s[i]);
            }
        }
    }
}

pub broadcast proof fn lemma_view_pairs(s: Seq<(BString, Item)>)
    ensures
        (#[trigger] view_pairs(s)).len() == s.len(),
        forall|i: int|
            0 <= i < s.len() ==> view_pairs(s)[i] == (s[i].0@, s[i].1@),
    decreases s.len(),
{
    if s.len() > 0 {
        lemma_view_pairs(s.skip(1));
        assert(view_pairs(s) == seq![(s[0].0@, s[0].1@)] + view_pairs(s.skip(1)));
        assert forall|i: int|
            0 <= i < s.len() implies view_pairs(s)[i] == (s[i].0@, s[i].1@) by {
            if i > 0 {
                assert(view_pairs(s)[i] == view_pairs(s.skip(1))[i - 1]);
                assert(s.skip(1)[i - 1] == s[i]);
            }
        }
    }
}

/// Strict byte-lexicographic order: a proper prefix comes first, and
/// otherwise the first differing byte decides.
pub open spec fn lex_lt(a: Seq<u8>, b: Seq<u8>) -> bool
    decreases a.len(),
{
    if b.len() == 0 {
        false
    } else if a.len() == 0 {
        true
    } else if a[0] < b[0] {
        true
    } else if a[0] > b[0] {
        false
    } else {
        lex_lt(a.skip(1), b.skip(1))
    }
}

/// Inserts a pair into a key-sorted pair sequence, keeping the order: the
/// new pair lands before the first strictly greater key, and replaces an
/// equal key.
pub open spec fn sorted_insert(m: Seq<(Seq<u8>, Value)>, k: Seq<u8>, v: Value) -> Seq<
    (Seq<u8>, Value),
>
    decreases m.len(),
{
    if m.len() == 0 {
        seq![(k, v)]
    } else if lex_lt(k, m[0].0) {
        seq![(k, v)] + m
    } else if k == m[0].0 {
        seq![(k, v)] + m.skip(1)
    } else {
        seq![m[0]] + sorted_insert(m.skip(1), k, v)
    }
}

/// Collects pairs given in input order into the sorted-map representation:
/// pairs are inserted one after another, so a later duplicate key replaces
/// an earlier one.
pub open spec fn to_map(pairs: Seq<(Seq<u8>, Value)>) -> Seq<(Seq<u8>, Value)>
    decreases pairs.len(),
{
    if pairs.len() == 0 {
        Seq::empty()
    } else {
        sorted_insert(to_map(pairs.drop_last()), pairs.last().0, pairs.last().1)
    }
}

/// Keys strictly ascend, so each key occurs at most once.
pub open spec fn keys_sorted(pairs: Seq<(Seq<u8>, Value)>) -> bool {
    forall|i: int, j: int|
        0 <= i < j < pairs.len() ==> lex_lt(pairs[i].0, pairs[j].0)
}

/// Well-formedness of a model tree: every integer fits in 64 signed bits,
/// every byte string (and dictionary key) is short enough for its length
/// prefix to fit in 64 signed bits, and every dictionary's keys are strictly
/// sorted. Trees built by the decoder, or modeled from items built by the
/// constructors and [`BDictionary::insert`], satisfy this.
pub open spec fn value_wf(v: Value) -> bool
    decreases v,
{
    match v {
        Value::Bytes(s) => s.len() <= i64::MAX,
        Value::Int(i) => i64::MIN <= i <= i64::MAX,
        Value::List(items) => forall|i: int|
            0 <= i < items.len() ==> value_wf(#[trigger] items[i]),
        Value::Dict(pairs) => keys_sorted(pairs) && (forall|i: int|
            0 <= i < pairs.len() ==> value_wf(#[trigger] pairs[i].1)) && (forall|i: int|
            0 <= i < pairs.len() ==> (#[trigger] pairs[i].0).len() <= i64::MAX),
    }
}

pub proof fn lemma_lex_lt_common_prefix(a: Seq<u8>, b: Seq<u8>, i: int)
    requires
        0 <= i <= a.len(),
        i <= b.len(),
        forall|j: int| 0 <= j < i ==> a[j] == b[j],
    ensures
        lex_lt(a, b) == lex_lt(a.skip(i), b.skip(i)),
    decreases i,
{
    if i > 0 {
        assert(a.skip(0) =~= a);
        assert(b.skip(0) =~= b);
        assert(forall|j: int| 0 <= j < i - 1 ==> #[trigger] a.skip(1)[j] == b.skip(1)[j]);
        lemma_lex_lt_common_prefix(a.skip(1), b.skip(1), i - 1);
        assert(a.skip(1).skip(i - 1) =~= a.skip(i));
        assert(b.skip(1).skip(i - 1) =~= b.skip(i));
    } else {
        assert(a.skip(0) =~= a);
        assert(b.skip(0) =~= b);
    }
}

/// Byte-lexicographic order is transitive.
pub proof fn lemma_lex_lt_transitive(a: Seq<u8>, b: Seq<u8>, c: Seq<u8>)
    requires
        lex_lt(a, b),
        lex_lt(b, c),
    ensures
        lex_lt(a, c),
    decreases a.len(),
{
    if a.len() > 0 {
        if a[0] == b[0] && b[0] == c[0] {
            lemma_lex_lt_transitive(a.skip(1), b.skip(1), c.skip(1));
        }
    }
}

/// Byte-lexicographic order is a strict total order: of two byte sequences,
/// exactly one of "less", "equal", "greater" holds.
pub proof fn lemma_lex_lt_trichotomy(a: Seq<u8>, b: Seq<u8>)
    ensures
        lex_lt(a, b) || lex_lt(b, a) || a == b,
        !(lex_lt(a, b) && lex_lt(b, a)),
        lex_lt(a, b) ==> a != b,
        lex_lt(b, a) ==> a != b,
    decreases a.len(),
{
    if a.len() == 0 && b.len() == 0 {
        assert(a =~= b);
    } else if a.len() > 0 && b.len() > 0 && a[0] == b[0] {
        lemma_lex_lt_trichotomy(a.skip(1), b.skip(1));
        if a.skip(1) == b.skip(1) {
            assert(a =~= b) by {
                assert(forall|j: int| 1 <= j < a.len() ==> #[trigger] a[j] == a.skip(1)[j - 1]);
                assert(forall|j: int| 1 <= j < b.len() ==> #[trigger] b[j] == b.skip(1)[j - 1]);
            }
        }
        if a == b {
            assert(a.skip(1) =~= b.skip(1));
        }
    }
}

/// Compares two byte vectors in byte-lexicographic order.
pub(crate) fn bytes_lt(a: &Vec<u8>, b: &Vec<u8>) -> (r: bool)
    ensures
        r == lex_lt(a@, b@),
{
    let limit = if a.len() < b.len() {
        a.len()
    } else {
        b.len()
    };
    let mut i: usize = 0;
    while i < limit
        invariant
            i <= limit,
            limit <= a@.len(),
            limit <= b@.len(),
            limit == a@.len() || limit == b@.len(),
            forall|j: int| 0 <= j < i ==> a@[j] == b@[j],
        decreases limit - i,
    {
        if a[i] < b[i] {
            proof {
                lemma_lex_lt_common_prefix(a@, b@, i as int);
            }
            return true;
        }
        if a[i] > b[i] {
            proof {
                lemma_lex_lt_common_prefix(a@, b@, i as int);
            }
            return false;
        }
        i = i + 1;
    }
    proof {
        lemma_lex_lt_common_prefix(a@, b@, limit as int);
    }
    a.len() < b.len()
}

/// Tests two byte vectors for equality.
fn bytes_eq(a: &Vec<u8>, b: &Vec<u8>) -> (r: bool)
    ensures
        r <==> a@ == b@,
{
    if a.len() != b.len() {
        return false;
    }
    let mut i: usize = 0;
    while i < a.len()
        invariant
            i <= a@.len(),
            a@.len() == b@.len(),
            forall|j: int| 0 <= j < i ==> a@[j] == b@[j],
        decreases a@.len() - i,
    {
        if a[i] != b[i] {
            return false;
        }
        i = i + 1;
    }
    assert(a@ =~= b@);
    true
}

pub proof fn lemma_sorted_insert_split(m: Seq<(Seq<u8>, Value)>, k: Seq<u8>, v: Value, i: int)
    requires
        0 <= i <= m.len(),
        forall|j: int| 0 <= j < i ==> lex_lt(#[trigger] m[j].0, k),
        i < m.len() ==> !lex_lt(m[i].0, k),
    ensures
        sorted_insert(m, k, v) == if i < m.len() && m[i].0 == k {
            m.update(i, (k, v))
        } else {
            m.take(i) + seq![(k, v)] + m.skip(i)
        },
    decreases i,
{
    if i == 0 {
        if m.len() == 0 {
            assert(m.take(0) + seq![(k, v)] + m.skip(0) =~= seq![(k, v)]);
        } else {
            lemma_lex_lt_trichotomy(k, m[0].0);
            if k == m[0].0 {
                assert(seq![(k, v)] + m.skip(1) =~= m.update(0, (k, v)));
            } else {
                assert(lex_lt(k, m[0].0));
                assert(m.take(0) + seq![(k, v)] + m.skip(0) =~= seq![(k, v)] + m);
            }
        }
    } else {
        lemma_lex_lt_trichotomy(k, m[0].0);
        assert(lex_lt(m[0].0, k));
        assert(forall|j: int|
            0 <= j < i - 1 ==> lex_lt(#[trigger] m.skip(1)[j].0, k));
        lemma_sorted_insert_split(m.skip(1), k, v, i - 1);
        if i < m.len() && m[i].0 == k {
            assert(m.skip(1)[i - 1].0 == k);
            assert(seq![m[0]] + m.skip(1).update(i - 1, (k, v)) =~= m.update(i, (k, v)));
        } else {
            if i < m.len() {
                assert(m.skip(1)[i - 1].0 == m[i].0);
            }
            assert(seq![m[0]] + (m.skip(1).take(i - 1) + seq![(k, v)] + m.skip(1).skip(i - 1))
                =~= m.take(i) + seq![(k, v)] + m.skip(i));
        }
    }
}

impl BDictionary {
    /// Inserts a key/value pair, keeping entries in ascending key order: the
    /// pair lands before the first strictly greater key, and replaces an
    /// entry whose key is equal.
    pub fn insert(&mut self, key: BString, value: Item)
        ensures
            view_pairs(final(self).0@) == sorted_insert(view_pairs(old(self).0@), key@, value@),
    {
        proof {
            broadcast use lemma_view_pairs;

        }
        let ghost m0 = self.0@;
        let mut i: usize = 0;
        while i < self.0.len() && bytes_lt(&self.0[i].0 .0, &key.0)
            invariant
                self.0@ == m0,
                i <= m0.len(),
                forall|j: int| 0 <= j < i ==> lex_lt(#[trigger] m0[j].0@, key@),
            decreases m0.len() - i,
        {
            i = i + 1;
        }
        proof {
            broadcast use lemma_view_pairs;

            lemma_sorted_insert_split(view_pairs(m0), key@, value@, i as int);
        }
        if i < self.0.len() && bytes_eq(&self.0[i].0 .0, &key.0) {
            self.0.set(i, (key, value));
            proof {
                broadcast use lemma_view_pairs;

                assert(view_pairs(self.0@) =~= view_pairs(m0).update(i as int, (key@, value@)));
            }
        } else {
            self.0.insert(i, (key, value));
            proof {
                broadcast use lemma_view_pairs;

                assert(view_pairs(self.0@) =~= view_pairs(m0).take(i as int) + seq![
                    (key@, value@),
                ] + view_pairs(m0).skip(i as int));
            }
        }
    }
}

impl Item {
    /// Returns the byte string if the current variant is a byte string.
    pub fn string(self) -> (r: Option<BString>)
        ensures
            match self {
                Item::String(s) => r == Some(s),
                _ => r == None::<BString>,
            },
    {
        match self {
            Item::String(s) => Some(s),
            _ => None,
        }
    }

    /// Returns the integer if the current variant is an integer.
    pub fn integer(self) -> (r: Option<BInteger>)
        ensures
            match self {
                Item::Integer(i) => r == Some(i),
                _ => r == None::<BInteger>,
            },
    {
        match self {
            Item::Integer(i) => Some(i),
            _ => None,
        }
    }

    /// Returns the list if the current variant is a list.
    pub fn list(self) -> (r: Option<BList>)
        ensures
            match self {
                Item::List(l) => r == Some(l),
                _ => r == None::<BList>,
            },
    {
        match self {
            Item::List(l) => Some(l),
            _ => None,
        }
    }

    /// Returns the dictionary if the current variant is a dictionary.
    pub fn dictionary(self) -> (r: Option<BDictionary>)
        ensures
            match self {
                Item::Dictionary(d) => r == Some(d),
                _ => r == None::<BDictionary>,
            },
    {
        match self {
            Item::Dictionary(d) => Some(d),
            _ => None,
        }
    }
}

impl From<i64> for Item {
    fn from(i: i64) -> (r: Self) {
        Item::Integer(BInteger(i))
    }
}

impl vstd::std_specs::convert::FromSpecImpl<i64> for Item {
    open spec fn obeys_from_spec() -> bool {
        true
    }

    open spec fn from_spec(i: i64) -> Item {
        Item::Integer(BInteger(i))
    }
}

impl From<Vec<Item>> for Item {
    fn from(v: Vec<Item>) -> (r: Self) {
        Item::List(BList(v))
    }
}

impl vstd::std_specs::convert::FromSpecImpl<Vec<Item>> for Item {
    open spec fn obeys_from_spec() -> bool {
        true
    }

    open spec fn from_spec(v: Vec<Item>) -> Item {
        Item::List(BList(v))
    }
}

impl<'a> From<&'a [u8]> for Item {
    fn from(b: &'a [u8]) -> (r: Self)
        ensures
            r@ == Value::Bytes(b@),
    {
        Item::String(BString(vstd::slice::slice_to_vec(b)))
    }
}

/// The conversion allocates, so its result has no name at the spec level;
/// the `From` impl's own `ensures` pins the result's model instead.
impl<'a> vstd::std_specs::convert::FromSpecImpl<&'a [u8]> for Item {
    open spec fn obeys_from_spec() -> bool {
        false
    }

    open spec fn from_spec(b: &'a [u8]) -> Item {
        arbitrary()
    }
}

impl<'a> From<&'a str> for Item {
    fn from(s: &'a str) -> (r: Self)
        ensures
            r@ == Value::Bytes(s.spec_bytes()),
    {
        Item::String(BString(vstd::slice::slice_to_vec(s.as_bytes())))
    }
}

/// The conversion allocates, so its result has no name at the spec level;
/// the `From` impl's own `ensures` pins the result's model instead.
impl<'a> vstd::std_specs::convert::FromSpecImpl<&'a str> for Item {
    open spec fn obeys_from_spec() -> bool {
        false
    }

    open spec fn from_spec(s: &'a str) -> Item {
        arbitrary()
    }
}

impl<'a> From<&'a str> for BString {
    fn from(s: &'a str) -> (r: Self)
        ensures
            r@ == s.spec_bytes(),
    {
        BString(vstd::slice::slice_to_vec(s.as_bytes()))
    }
}

/// The conversion allocates, so its result has no name at the spec level;
/// the `From` impl's own `ensures` pins the result's model instead.
impl<'a> vstd::std_specs::convert::FromSpecImpl<&'a str> for BString {
    open spec fn obeys_from_spec() -> bool {
        false
    }

    open spec fn from_spec(s: &'a str) -> BString {
        arbitrary()
    }
}

} // verus!
