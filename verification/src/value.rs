//! Dynamic JSON value type for BONJSON, with `BigNumber` for lossless numbers.
//!
//! A float is held as the bit pattern of its IEEE 754 binary64 value. An object
//! is a vector of key/value pairs kept sorted by the keys' UTF-8 bytes, with
//! no key twice: the same order and uniqueness as a `BTreeMap<String, _>`.
use crate::encoder::{f64_integer, spec_f64_integer};
use crate::floatbits::{
    f64_exp, f64_frac, f64_is_infinite, f64_is_nan, f64_sign, lemma_f64_whole, spec_f64_is_infinite,
    spec_f64_is_nan, spec_f64_scaled,
};
use crate::types::{pow10, BigNumber};
use vstd::arithmetic::power2::pow2;
use vstd::prelude::*;
use vstd::utf8::{decode_utf8, encode_utf8, encode_utf8_decode_utf8};

verus! {

/// A BONJSON value that can hold any JSON-compatible type.
#[derive(Debug, PartialEq)]
pub enum Value {
    /// JSON null
    Null,
    /// JSON boolean
    Bool(bool),
    /// A signed 64-bit integer
    Int(i64),
    /// An unsigned 64-bit integer
    UInt(u64),
    /// A 64-bit floating point number, as its bit pattern
    Float(u64),
    /// An arbitrary-precision decimal number
    BigNumber(BigNumber),
    /// A UTF-8 string
    String(String),
    /// A JSON array
    Array(Vec<Value>),
    /// A JSON object: pairs sorted by key, no key twice
    Object(Vec<(String, Value)>),
}

impl Default for Value {
    fn default() -> (r: Self)
        ensures
            r == Value::Null,
    {
        Value::Null
    }
}

/// The mathematical model of a value: strings as character sequences.
pub enum SpecValue {
    Null,
    Bool(bool),
    Int(i64),
    UInt(u64),
    Float(u64),
    BigNumber(BigNumber),
    Str(Seq<char>),
    Array(Seq<SpecValue>),
    Object(Seq<(Seq<char>, SpecValue)>),
}

/// The model of a value.
pub open spec fn view_value(v: Value) -> SpecValue
    decreases v,
{
    match v {
        Value::Null => SpecValue::Null,
        Value::Bool(b) => SpecValue::Bool(b),
        Value::Int(n) => SpecValue::Int(n),
        Value::UInt(n) => SpecValue::UInt(n),
        Value::Float(f) => SpecValue::Float(f),
        Value::BigNumber(b) => SpecValue::BigNumber(b),
        Value::String(s) => SpecValue::Str(s@),
        Value::Array(a) => SpecValue::Array(
            Seq::new(
                a@.len(),
                |i: int|
                    if 0 <= i < a@.len() {
                        proof {
                            assert(decreases_to!(a => a@));
                            assert(decreases_to!(a@ => a@[i]));
                        }
                        view_value(a@[i])
                    } else {
                        SpecValue::Null
                    },
            ),
        ),
        Value::Object(m) => SpecValue::Object(
            Seq::new(
                m@.len(),
                |i: int|
                    if 0 <= i < m@.len() {
                        proof {
                            assert(decreases_to!(m => m@));
                            assert(decreases_to!(m@ => m@[i]));
                            assert(decreases_to!(m@[i] => m@[i].1));
                        }
                        (m@[i].0@, view_value(m@[i].1))
                    } else {
                        (Seq::empty(), SpecValue::Null)
                    },
            ),
        ),
    }
}

impl View for Value {
    type V = SpecValue;

    open spec fn view(&self) -> SpecValue {
        view_value(*self)
    }
}

/// A copy of a value, with the same model.
fn clone_value(v: &Value) -> (r: Value)
    ensures
        r@ == v@,
    decreases v,
{
    match v {
        Value::Null => Value::Null,
        Value::Bool(b) => Value::Bool(*b),
        Value::Int(n) => Value::Int(*n),
        Value::UInt(n) => Value::UInt(*n),
        Value::Float(f) => Value::Float(*f),
        Value::BigNumber(bn) => Value::BigNumber(*bn),
        Value::String(s) => Value::String(s.clone()),
        Value::Array(a) => {
            proof {
                lemma_view_array(*a);
            }
            let mut out: Vec<Value> = Vec::new();
            let mut i: usize = 0;
            while i < a.len()
                invariant
                    i <= a@.len(),
                    v@ == SpecValue::Array(view_values(a@)),
                    *v == Value::Array(*a),
                    out@.len() == i,
                    forall|j: int| 0 <= j < i ==> #[trigger] out@[j]@ == a@[j]@,
                decreases a@.len() - i,
            {
                proof {
                    assert(decreases_to!(*v => *a));
                    assert(decreases_to!(*a => a@));
                    assert(decreases_to!(a@ => a@[i as int]));
                }
                let c = clone_value(&a[i]);
                out.push(c);
                i += 1;
            }
            proof {
                lemma_view_array(out);
                assert forall|j: int| 0 <= j < a@.len() implies view_values(out@)[j] == view_values(
                    a@,
                )[j] by {
                    assert(out@[j]@ == a@[j]@);
                }
                assert(view_values(out@) =~= view_values(a@));
            }
            Value::Array(out)
        },
        Value::Object(m) => {
            proof {
                lemma_view_object(*m);
            }
            let mut out: Vec<(String, Value)> = Vec::new();
            let mut i: usize = 0;
            while i < m.len()
                invariant
                    i <= m@.len(),
                    v@ == SpecValue::Object(view_entries(m@)),
                    *v == Value::Object(*m),
                    out@.len() == i,
                    forall|j: int|
                        #![trigger out@[j]]
                        0 <= j < i ==> out@[j].0@ == m@[j].0@ && out@[j].1@ == m@[j].1@,
                decreases m@.len() - i,
            {
                proof {
                    assert(decreases_to!(*v => *m));
                    assert(decreases_to!(*m => m@));
                    assert(decreases_to!(m@ => m@[i as int]));
                    assert(decreases_to!(m@[i as int] => m@[i as int].1));
                }
                let c = clone_value(&m[i].1);
                out.push((m[i].0.clone(), c));
                i += 1;
            }
            proof {
                lemma_view_object(out);
                assert forall|j: int| 0 <= j < m@.len() implies view_entries(out@)[j]
                    == view_entries(m@)[j] by {
                    let o = out@[j];
                    assert(o.0@ == m@[j].0@ && o.1@ == m@[j].1@);
                }
                assert(view_entries(out@) =~= view_entries(m@));
            }
            Value::Object(out)
        },
    }
}

impl Clone for Value {
    fn clone(&self) -> (r: Self)
        ensures
            r@ == self@,
    {
        clone_value(self)
    }
}

/// A boolean value.
impl From<bool> for Value {
    fn from(v: bool) -> (r: Self)
        ensures
            r == Value::Bool(v),
    {
        Value::Bool(v)
    }
}

impl vstd::std_specs::convert::FromSpecImpl<bool> for Value {
    open spec fn obeys_from_spec() -> bool {
        true
    }

    open spec fn from_spec(v: bool) -> Value {
        Value::Bool(v)
    }
}

/// A signed integer value holding the `i8`.
impl From<i8> for Value {
    fn from(v: i8) -> (r: Self)
        ensures
            r matches Value::Int(x) && x as int == v as int,
    {
        Value::Int(v as i64)
    }
}

impl vstd::std_specs::convert::FromSpecImpl<i8> for Value {
    open spec fn obeys_from_spec() -> bool {
        true
    }

    open spec fn from_spec(v: i8) -> Value {
        Value::Int(v as i64)
    }
}

/// A signed integer value holding the `i16`.
impl From<i16> for Value {
    fn from(v: i16) -> (r: Self)
        ensures
            r matches Value::Int(x) && x as int == v as int,
    {
        Value::Int(v as i64)
    }
}

impl vstd::std_specs::convert::FromSpecImpl<i16> for Value {
    open spec fn obeys_from_spec() -> bool {
        true
    }

    open spec fn from_spec(v: i16) -> Value {
        Value::Int(v as i64)
    }
}

/// A signed integer value holding the `i32`.
impl From<i32> for Value {
    fn from(v: i32) -> (r: Self)
        ensures
            r matches Value::Int(x) && x as int == v as int,
    {
        Value::Int(v as i64)
    }
}

impl vstd::std_specs::convert::FromSpecImpl<i32> for Value {
    open spec fn obeys_from_spec() -> bool {
        true
    }

    open spec fn from_spec(v: i32) -> Value {
        Value::Int(v as i64)
    }
}

/// A signed integer value holding the `u8`.
impl From<u8> for Value {
    fn from(v: u8) -> (r: Self)
        ensures
            r matches Value::Int(x) && x as int == v as int,
    {
        Value::Int(v as i64)
    }
}

impl vstd::std_specs::convert::FromSpecImpl<u8> for Value {
    open spec fn obeys_from_spec() -> bool {
        true
    }

    open spec fn from_spec(v: u8) -> Value {
        Value::Int(v as i64)
    }
}

/// A signed integer value holding the `u16`.
impl From<u16> for Value {
    fn from(v: u16) -> (r: Self)
        ensures
            r matches Value::Int(x) && x as int == v as int,
    {
        Value::Int(v as i64)
    }
}

impl vstd::std_specs::convert::FromSpecImpl<u16> for Value {
    open spec fn obeys_from_spec() -> bool {
        true
    }

    open spec fn from_spec(v: u16) -> Value {
        Value::Int(v as i64)
    }
}

/// A signed integer value holding the `u32`.
impl From<u32> for Value {
    fn from(v: u32) -> (r: Self)
        ensures
            r matches Value::Int(x) && x as int == v as int,
    {
        Value::Int(v as i64)
    }
}

impl vstd::std_specs::convert::FromSpecImpl<u32> for Value {
    open spec fn obeys_from_spec() -> bool {
        true
    }

    open spec fn from_spec(v: u32) -> Value {
        Value::Int(v as i64)
    }
}

/// A signed integer value.
impl From<i64> for Value {
    fn from(v: i64) -> (r: Self)
        ensures
            r matches Value::Int(x) && x as int == v as int,
    {
        Value::Int(v)
    }
}

impl vstd::std_specs::convert::FromSpecImpl<i64> for Value {
    open spec fn obeys_from_spec() -> bool {
        true
    }

    open spec fn from_spec(v: i64) -> Value {
        Value::Int(v)
    }
}

/// A signed integer value when the `u64` fits in an `i64`, else an unsigned one.
impl From<u64> for Value {
    fn from(v: u64) -> (r: Self)
        ensures
            r matches Value::Int(x) ==> x as int == v as int,
            r matches Value::UInt(x) ==> x == v,
            r is Int <==> v <= i64::MAX,
            r is Int || r is UInt,
    {
        if v <= i64::MAX as u64 {
            Value::Int(v as i64)
        } else {
            Value::UInt(v)
        }
    }
}

impl vstd::std_specs::convert::FromSpecImpl<u64> for Value {
    open spec fn obeys_from_spec() -> bool {
        true
    }

    open spec fn from_spec(v: u64) -> Value {
        if v <= i64::MAX as u64 {
            Value::Int(v as i64)
        } else {
            Value::UInt(v)
        }
    }
}

/// A string value.
impl From<String> for Value {
    fn from(v: String) -> (r: Self)
        ensures
            r == Value::String(v),
    {
        Value::String(v)
    }
}

impl vstd::std_specs::convert::FromSpecImpl<String> for Value {
    open spec fn obeys_from_spec() -> bool {
        true
    }

    open spec fn from_spec(v: String) -> Value {
        Value::String(v)
    }
}

/// A big number value.
impl From<BigNumber> for Value {
    fn from(v: BigNumber) -> (r: Self)
        ensures
            r == Value::BigNumber(v),
    {
        Value::BigNumber(v)
    }
}

impl vstd::std_specs::convert::FromSpecImpl<BigNumber> for Value {
    open spec fn obeys_from_spec() -> bool {
        true
    }

    open spec fn from_spec(v: BigNumber) -> Value {
        Value::BigNumber(v)
    }
}

/// Each conversion into a value keeps the number, the flag, the string or
/// the big number it is given: an integer becomes a signed integer equal to
/// it (a `u64` past `i64::MAX` an unsigned one equal to it).
pub proof fn lemma_from_keeps_value(
    a: bool,
    b: i8,
    c: i16,
    d: i32,
    e: i64,
    f: u8,
    g: u16,
    h: u32,
    k: u64,
    s: String,
    n: BigNumber,
)
    ensures
        <Value as vstd::std_specs::convert::FromSpec<bool>>::from_spec(a) == Value::Bool(a),
        <Value as vstd::std_specs::convert::FromSpec<i8>>::from_spec(b) matches Value::Int(x)
            && x as int == b as int,
        <Value as vstd::std_specs::convert::FromSpec<i16>>::from_spec(c) matches Value::Int(x)
            && x as int == c as int,
        <Value as vstd::std_specs::convert::FromSpec<i32>>::from_spec(d) matches Value::Int(x)
            && x as int == d as int,
        <Value as vstd::std_specs::convert::FromSpec<i64>>::from_spec(e) matches Value::Int(x)
            && x as int == e as int,
        <Value as vstd::std_specs::convert::FromSpec<u8>>::from_spec(f) matches Value::Int(x)
            && x as int == f as int,
        <Value as vstd::std_specs::convert::FromSpec<u16>>::from_spec(g) matches Value::Int(x)
            && x as int == g as int,
        <Value as vstd::std_specs::convert::FromSpec<u32>>::from_spec(h) matches Value::Int(x)
            && x as int == h as int,
        k <= i64::MAX ==> (<Value as vstd::std_specs::convert::FromSpec<u64>>::from_spec(k) matches Value::Int(x)
            && x as int == k as int),
        k > i64::MAX ==> <Value as vstd::std_specs::convert::FromSpec<u64>>::from_spec(k) == Value::UInt(k),
        <Value as vstd::std_specs::convert::FromSpec<String>>::from_spec(s) == Value::String(s),
        <Value as vstd::std_specs::convert::FromSpec<BigNumber>>::from_spec(n) == Value::BigNumber(n),
{
}

/// The model of a vector of values.
pub open spec fn view_values(a: Seq<Value>) -> Seq<SpecValue> {
    Seq::new(a.len(), |i: int| view_value(a[i]))
}

/// The model of object pairs.
pub open spec fn view_entries(m: Seq<(String, Value)>) -> Seq<(Seq<char>, SpecValue)> {
    Seq::new(m.len(), |i: int| (m[i].0@, view_value(m[i].1)))
}

/// The model of an array is the models of its elements.
pub proof fn lemma_view_array(a: Vec<Value>)
    ensures
        view_value(Value::Array(a)) == SpecValue::Array(view_values(a@)),
{
    let v = view_value(Value::Array(a));
    if let SpecValue::Array(s) = v {
        assert(s =~= view_values(a@));
    }
}

/// The model of an object is the models of its pairs.
pub proof fn lemma_view_object(m: Vec<(String, Value)>)
    ensures
        view_value(Value::Object(m)) == SpecValue::Object(view_entries(m@)),
{
    let v = view_value(Value::Object(m));
    if let SpecValue::Object(s) = v {
        assert(s =~= view_entries(m@));
    }
}

// ---------------------------------------------------------------------------
// Key order: the byte order of the keys' UTF-8 encodings.
// ---------------------------------------------------------------------------

/// Lexicographic order of byte sequences.
pub open spec fn bytes_lt(a: Seq<u8>, b: Seq<u8>) -> bool
    decreases a.len(),
{
    if b.len() == 0 {
        false
    } else if a.len() == 0 {
        true
    } else if a[0] != b[0] {
        a[0] < b[0]
    } else {
        bytes_lt(a.drop_first(), b.drop_first())
    }
}

/// Key order: by the UTF-8 bytes of the keys.
pub open spec fn key_lt(a: Seq<char>, b: Seq<char>) -> bool {
    bytes_lt(encode_utf8(a), encode_utf8(b))
}

/// The keys are strictly increasing, so no key occurs twice.
pub open spec fn keys_sorted(m: Seq<(Seq<char>, SpecValue)>) -> bool {
    forall|i: int, j: int| 0 <= i < j < m.len() ==> key_lt(#[trigger] m[i].0, #[trigger] m[j].0)
}

/// Every object in the value, at any depth, has sorted keys.
pub open spec fn spec_wf(v: SpecValue) -> bool
    decreases v,
{
    match v {
        SpecValue::Array(a) => forall|i: int| 0 <= i < a.len() ==> spec_wf(#[trigger] a[i]),
        SpecValue::Object(m) => keys_sorted(m) && forall|i: int|
            0 <= i < m.len() ==> spec_wf(#[trigger] m[i].1),
        _ => true,
    }
}

proof fn lemma_bytes_lt_irreflexive(a: Seq<u8>)
    ensures
        !bytes_lt(a, a),
    decreases a.len(),
{
    if a.len() > 0 {
        lemma_bytes_lt_irreflexive(a.drop_first());
    }
}

proof fn lemma_bytes_lt_transitive(a: Seq<u8>, b: Seq<u8>, c: Seq<u8>)
    requires
        bytes_lt(a, b),
        bytes_lt(b, c),
    ensures
        bytes_lt(a, c),
    decreases a.len(),
{
    if a.len() > 0 && b.len() > 0 && c.len() > 0 && a[0] == b[0] && b[0] == c[0] {
        lemma_bytes_lt_transitive(a.drop_first(), b.drop_first(), c.drop_first());
    }
}

proof fn lemma_bytes_lt_total(a: Seq<u8>, b: Seq<u8>)
    ensures
        a == b || bytes_lt(a, b) || bytes_lt(b, a),
    decreases a.len(),
{
    if a.len() > 0 && b.len() > 0 && a[0] == b[0] {
        lemma_bytes_lt_total(a.drop_first(), b.drop_first());
        if a.drop_first() == b.drop_first() {
            assert(a =~= seq![a[0]] + a.drop_first());
            assert(b =~= seq![b[0]] + b.drop_first());
        }
    } else if a.len() == 0 && b.len() == 0 {
        assert(a =~= b);
    }
}

proof fn lemma_bytes_lt_asymmetric(a: Seq<u8>, b: Seq<u8>)
    requires
        bytes_lt(a, b),
    ensures
        !bytes_lt(b, a),
    decreases a.len(),
{
    if a.len() > 0 && b.len() > 0 && a[0] == b[0] {
        lemma_bytes_lt_asymmetric(a.drop_first(), b.drop_first());
    }
}

/// Key order is a strict total order on character sequences.
pub proof fn lemma_key_order(a: Seq<char>, b: Seq<char>, c: Seq<char>)
    ensures
        !key_lt(a, a),
        key_lt(a, b) ==> !key_lt(b, a),
        key_lt(a, b) && key_lt(b, c) ==> key_lt(a, c),
        a == b || key_lt(a, b) || key_lt(b, a),
{
    lemma_bytes_lt_irreflexive(encode_utf8(a));
    if key_lt(a, b) {
        lemma_bytes_lt_asymmetric(encode_utf8(a), encode_utf8(b));
    }
    if key_lt(a, b) && key_lt(b, c) {
        lemma_bytes_lt_transitive(encode_utf8(a), encode_utf8(b), encode_utf8(c));
    }
    lemma_bytes_lt_total(encode_utf8(a), encode_utf8(b));
    if encode_utf8(a) == encode_utf8(b) {
        encode_utf8_decode_utf8(a);
        encode_utf8_decode_utf8(b);
    }
}

/// Compare two byte strings in lexicographic order: negative, zero or positive.
fn compare_bytes(a: &[u8], b: &[u8]) -> (r: i8)
    ensures
        r < 0 <==> bytes_lt(a@, b@),
        r == 0 <==> a@ == b@,
        r > 0 <==> bytes_lt(b@, a@),
{
    let mut i: usize = 0;
    while i < a.len() && i < b.len()
        invariant
            i <= a@.len(),
            i <= b@.len(),
            a@.take(i as int) == b@.take(i as int),
        decreases a@.len() - i,
    {
        if a[i] != b[i] {
            proof {
                lemma_bytes_lt_at(a@, b@, i as nat);
                lemma_bytes_lt_at(b@, a@, i as nat);
                assert(a@[i as int] != b@[i as int]);
            }
            if a[i] < b[i] {
                return -1;
            } else {
                return 1;
            }
        }
        proof {
            assert(a@.take(i + 1) =~= a@.take(i as int).push(a@[i as int]));
            assert(b@.take(i + 1) =~= b@.take(i as int).push(b@[i as int]));
        }
        i += 1;
    }
    proof {
        lemma_bytes_lt_at(a@, b@, i as nat);
        lemma_bytes_lt_at(b@, a@, i as nat);
        if a@.len() == b@.len() {
            assert(a@ =~= a@.take(i as int));
            assert(b@ =~= b@.take(i as int));
        }
    }
    if a.len() < b.len() {
        -1
    } else if a.len() > b.len() {
        1
    } else {
        0
    }
}

/// Lexicographic order is decided at the first place where the sequences differ.
proof fn lemma_bytes_lt_at(a: Seq<u8>, b: Seq<u8>, i: nat)
    requires
        i <= a.len(),
        i <= b.len(),
        a.take(i as int) == b.take(i as int),
    ensures
        i < a.len() && i < b.len() && a[i as int] != b[i as int] ==> (bytes_lt(a, b) <==> a[i as int]
            < b[i as int]),
        i == a.len() || i == b.len() ==> (bytes_lt(a, b) <==> a.len() < b.len()),
    decreases i,
{
    if i > 0 {
        assert(a[0] == a.take(i as int)[0]);
        assert(b[0] == b.take(i as int)[0]);
        assert(a.drop_first().take(i - 1) =~= a.take(i as int).drop_first());
        assert(b.drop_first().take(i - 1) =~= b.take(i as int).drop_first());
        lemma_bytes_lt_at(a.drop_first(), b.drop_first(), (i - 1) as nat);
        if i < a.len() && i < b.len() {
            assert(a[i as int] == a.drop_first()[i - 1]);
            assert(b[i as int] == b.drop_first()[i - 1]);
        }
    }
}

/// Compare two keys in key order: negative, zero or positive.
pub fn compare_keys(a: &str, b: &str) -> (r: i8)
    ensures
        r < 0 <==> key_lt(a@, b@),
        r == 0 <==> a@ == b@,
        r > 0 <==> key_lt(b@, a@),
{
    let r = compare_bytes(a.as_bytes(), b.as_bytes());
    proof {
        lemma_key_order(a@, b@, b@);
        if a@ == b@ {
            lemma_bytes_lt_irreflexive(encode_utf8(a@));
        }
        if encode_utf8(a@) == encode_utf8(b@) {
            encode_utf8_decode_utf8(a@);
            encode_utf8_decode_utf8(b@);
        }
    }
    r
}

// ---------------------------------------------------------------------------
// Objects: sorted pairs.
// ---------------------------------------------------------------------------

/// Number of leading pairs whose keys come before `k`.
pub open spec fn lower_bound(m: Seq<(Seq<char>, SpecValue)>, k: Seq<char>) -> nat
    decreases m.len(),
{
    if m.len() == 0 {
        0
    } else if key_lt(m[0].0, k) {
        1 + lower_bound(m.drop_first(), k)
    } else {
        0
    }
}

/// The pairs after inserting `k` with `v`: the value of an existing key `k`
/// is replaced, else the pair goes where the order puts it.
pub open spec fn spec_insert(m: Seq<(Seq<char>, SpecValue)>, k: Seq<char>, v: SpecValue) -> Seq<
    (Seq<char>, SpecValue),
> {
    let i = lower_bound(m, k) as int;
    if i < m.len() && m[i].0 == k {
        m.update(i, (k, v))
    } else {
        m.insert(i, (k, v))
    }
}

/// The value stored under `k`, if any.
pub open spec fn spec_get(m: Seq<(Seq<char>, SpecValue)>, k: Seq<char>) -> Option<SpecValue>
    decreases m.len(),
{
    if m.len() == 0 {
        None
    } else if m[0].0 == k {
        Some(m[0].1)
    } else {
        spec_get(m.drop_first(), k)
    }
}

proof fn lemma_lower_bound_is(m: Seq<(Seq<char>, SpecValue)>, k: Seq<char>, i: nat)
    requires
        i <= m.len(),
        forall|j: int| 0 <= j < i ==> key_lt(#[trigger] m[j].0, k),
        i < m.len() ==> !key_lt(m[i as int].0, k),
    ensures
        lower_bound(m, k) == i,
    decreases i,
{
    if i > 0 {
        assert(key_lt(m[0].0, k));
        lemma_lower_bound_is(m.drop_first(), k, (i - 1) as nat);
    } else if m.len() > 0 {
        assert(!key_lt(m[0].0, k));
    }
}

/// Where `lower_bound` points in sorted pairs: keys before it are smaller
/// than `k`, keys from it on are not.
pub proof fn lemma_lower_bound_sorted(m: Seq<(Seq<char>, SpecValue)>, k: Seq<char>)
    requires
        keys_sorted(m),
    ensures
        lower_bound(m, k) <= m.len(),
        forall|j: int| 0 <= j < lower_bound(m, k) ==> key_lt(#[trigger] m[j].0, k),
        forall|j: int| lower_bound(m, k) <= j < m.len() ==> !key_lt(#[trigger] m[j].0, k),
        forall|j: int| lower_bound(m, k) < j < m.len() ==> key_lt(k, #[trigger] m[j].0),
    decreases m.len(),
{
    if m.len() > 0 {
        let t = m.drop_first();
        assert(keys_sorted(t)) by {
            assert forall|i: int, j: int| 0 <= i < j < t.len() implies key_lt(
                #[trigger] t[i].0,
                #[trigger] t[j].0,
            ) by {
                assert(m[i + 1].0 == t[i].0 && m[j + 1].0 == t[j].0);
            }
        }
        lemma_lower_bound_sorted(t, k);
        let lb = lower_bound(m, k);
        if key_lt(m[0].0, k) {
            assert forall|j: int| 0 <= j < lb implies key_lt(#[trigger] m[j].0, k) by {
                if j > 0 {
                    assert(m[j].0 == t[j - 1].0);
                }
            }
            assert forall|j: int| lb <= j < m.len() implies !key_lt(#[trigger] m[j].0, k) by {
                assert(m[j].0 == t[j - 1].0);
            }
            assert forall|j: int| lb < j < m.len() implies key_lt(k, #[trigger] m[j].0) by {
                assert(m[j].0 == t[j - 1].0);
            }
        } else {
            assert forall|j: int| 0 <= j < m.len() implies !key_lt(#[trigger] m[j].0, k) by {
                if j > 0 {
                    assert(key_lt(m[0].0, m[j].0));
                    lemma_key_order(k, m[0].0, m[j].0);
                    lemma_key_order(m[0].0, k, m[j].0);
                    lemma_key_order(m[j].0, k, k);
                    if key_lt(m[j].0, k) {
                        lemma_key_order(m[0].0, m[j].0, k);
                    }
                }
            }
            assert forall|j: int| 0 < j < m.len() implies key_lt(k, #[trigger] m[j].0) by {
                assert(key_lt(m[0].0, m[j].0));
                lemma_key_order(k, m[0].0, m[j].0);
                lemma_key_order(m[0].0, k, k);
                if k != m[0].0 {
                    assert(key_lt(k, m[0].0));
                }
            }
        }
    }
}

/// Inserting into sorted pairs keeps them sorted and stores the value.
pub proof fn lemma_insert_sorted(m: Seq<(Seq<char>, SpecValue)>, k: Seq<char>, v: SpecValue)
    requires
        keys_sorted(m),
    ensures
        keys_sorted(spec_insert(m, k, v)),
        spec_get(spec_insert(m, k, v), k) == Some(v),
{
    lemma_lower_bound_sorted(m, k);
    let i = lower_bound(m, k) as int;
    let r = spec_insert(m, k, v);
    if i < m.len() && m[i].0 == k {
        assert forall|a: int, b: int| 0 <= a < b < r.len() implies key_lt(
            #[trigger] r[a].0,
            #[trigger] r[b].0,
        ) by {
            assert(r[a].0 == m[a].0 && r[b].0 == m[b].0);
        }
    } else {
        assert forall|a: int, b: int| 0 <= a < b < r.len() implies key_lt(
            #[trigger] r[a].0,
            #[trigger] r[b].0,
        ) by {
            if a < i && b == i {
                assert(r[b].0 == k);
            } else if a < i && b > i {
                assert(r[b].0 == m[b - 1].0);
                assert(key_lt(m[a].0, k));
                if b - 1 == i {
                    lemma_key_order(k, m[i].0, m[i].0);
                    assert(key_lt(k, m[i].0));
                }
                lemma_key_order(m[a].0, k, m[b - 1].0);
            } else if a == i {
                assert(r[b].0 == m[b - 1].0);
                if b - 1 == i {
                    lemma_key_order(k, m[i].0, m[i].0);
                }
            } else if a > i {
                assert(r[a].0 == m[a - 1].0 && r[b].0 == m[b - 1].0);
            }
        }
    }
    lemma_get_sorted(r, k, i);
}

/// In sorted pairs, the value stored under the key at `i` is the one at `i`.
pub proof fn lemma_get_sorted(m: Seq<(Seq<char>, SpecValue)>, k: Seq<char>, i: int)
    requires
        keys_sorted(m),
        0 <= i < m.len(),
        m[i].0 == k,
    ensures
        spec_get(m, k) == Some(m[i].1),
    decreases i,
{
    if i > 0 {
        assert(key_lt(m[0].0, m[i].0));
        lemma_key_order(k, k, k);
        let t = m.drop_first();
        assert forall|a: int, b: int| 0 <= a < b < t.len() implies key_lt(
            #[trigger] t[a].0,
            #[trigger] t[b].0,
        ) by {
            assert(m[a + 1].0 == t[a].0 && m[b + 1].0 == t[b].0);
        }
        lemma_get_sorted(t, k, i - 1);
    }
}

/// A key in none of the pairs has no value.
pub proof fn lemma_get_absent(m: Seq<(Seq<char>, SpecValue)>, k: Seq<char>)
    requires
        forall|j: int| 0 <= j < m.len() ==> #[trigger] m[j].0 != k,
    ensures
        spec_get(m, k) is None,
    decreases m.len(),
{
    if m.len() > 0 {
        assert(m[0].0 != k);
        let t = m.drop_first();
        assert forall|j: int| 0 <= j < t.len() implies #[trigger] t[j].0 != k by {
            assert(t[j].0 == m[j + 1].0);
        }
        lemma_get_absent(t, k);
    }
}

/// Inserting under one key leaves the value stored under every other key as it was.
pub proof fn lemma_insert_other(
    m: Seq<(Seq<char>, SpecValue)>,
    k: Seq<char>,
    v: SpecValue,
    other: Seq<char>,
)
    requires
        keys_sorted(m),
        other != k,
    ensures
        spec_get(spec_insert(m, k, v), other) == spec_get(m, other),
{
    lemma_lower_bound_sorted(m, k);
    lemma_insert_sorted(m, k, v);
    let r = spec_insert(m, k, v);
    let b = lower_bound(m, k) as int;
    let replaced = b < m.len() && m[b].0 == k;
    if exists|j: int| 0 <= j < m.len() && m[j].0 == other {
        let j = choose|j: int| 0 <= j < m.len() && m[j].0 == other;
        lemma_get_sorted(m, other, j);
        let jr = if replaced || j < b {
            j
        } else {
            j + 1
        };
        assert(r[jr] == m[j]);
        lemma_get_sorted(r, other, jr);
    } else {
        assert forall|j: int| 0 <= j < r.len() implies #[trigger] r[j].0 != other by {
            if replaced {
                if j != b {
                    assert(r[j] == m[j]);
                }
            } else if j < b {
                assert(r[j] == m[j]);
            } else if j > b {
                assert(r[j] == m[j - 1]);
            }
        }
        lemma_get_absent(r, other);
        lemma_get_absent(m, other);
    }
}

/// Looking a key up finds exactly what the pairs store under it: a value is
/// found only when a pair holds the key with that value, and in sorted pairs
/// every pair's value is what its key finds; a key that no pair holds finds
/// nothing.
pub proof fn lemma_get_exact(m: Seq<(Seq<char>, SpecValue)>, k: Seq<char>)
    ensures
        spec_get(m, k) matches Some(v) ==> exists|i: int| 0 <= i < m.len() && m[i] == (k, v),
        (forall|i: int| 0 <= i < m.len() ==> #[trigger] m[i].0 != k) ==> spec_get(m, k) is None,
        keys_sorted(m) ==> forall|i: int|
            0 <= i < m.len() && #[trigger] m[i].0 == k ==> spec_get(m, k) == Some(m[i].1),
    decreases m.len(),
{
    if m.len() > 0 {
        lemma_get_exact(m.drop_first(), k);
        if m[0].0 != k {
            if let Some(v) = spec_get(m, k) {
                let j = choose|j: int| 0 <= j < m.drop_first().len() && m.drop_first()[j] == (k, v);
                assert(m[j + 1] == (k, v));
            }
        } else {
            assert(m[0] == (k, m[0].1));
        }
        if forall|i: int| 0 <= i < m.len() ==> #[trigger] m[i].0 != k {
            lemma_get_absent(m, k);
        }
        if keys_sorted(m) {
            assert forall|i: int| 0 <= i < m.len() && #[trigger] m[i].0 == k implies spec_get(m, k)
                == Some(m[i].1) by {
                lemma_get_sorted(m, k, i);
            }
        }
    }
}

/// Find where `key` is, or goes, in sorted pairs: its index and whether it is there.
fn object_position(m: &Vec<(String, Value)>, key: &str) -> (r: (usize, bool))
    requires
        keys_sorted(view_entries(m@)),
    ensures
        r.0 as nat == lower_bound(view_entries(m@), key@),
        r.1 <==> r.0 < m@.len() && m@[r.0 as int].0@ == key@,
{
    let ghost e = view_entries(m@);
    let mut i: usize = 0;
    while i < m.len()
        invariant
            i <= m@.len(),
            e == view_entries(m@),
            forall|j: int| 0 <= j < i ==> key_lt(#[trigger] e[j].0, key@),
        decreases m@.len() - i,
    {
        let c = compare_keys(m[i].0.as_str(), key);
        assert(e[i as int].0 == m@[i as int].0@);
        if c >= 0 {
            proof {
                lemma_lower_bound_is(e, key@, i as nat);
            }
            return (i, c == 0);
        }
        i += 1;
    }
    proof {
        lemma_lower_bound_is(e, key@, i as nat);
    }
    (i, false)
}

/// Insert a key-value pair into an object, keeping the keys sorted; returns
/// the value that the key had before, if any.
pub fn object_insert(m: &mut Vec<(String, Value)>, key: String, value: Value) -> (r: Option<Value>)
    requires
        keys_sorted(view_entries(old(m)@)),
    ensures
        view_entries(final(m)@) == spec_insert(view_entries(old(m)@), key@, value@),
        keys_sorted(view_entries(final(m)@)),
        r matches Some(v) ==> spec_get(view_entries(old(m)@), key@) == Some(v@),
        r is None ==> spec_get(view_entries(old(m)@), key@) is None,
{
    let ghost e = view_entries(m@);
    let (i, found) = object_position(m, key.as_str());
    proof {
        lemma_lower_bound_sorted(e, key@);
        lemma_insert_sorted(e, key@, value@);
    }
    if found {
        proof {
            lemma_get_sorted(e, key@, i as int);
        }
        let ghost kv = key@;
        let ghost vv = value@;
        let old_pair = m.remove(i);
        m.insert(i, (key, value));
        assert(view_entries(m@) =~= e.update(i as int, (kv, vv)));
        Some(old_pair.1)
    } else {
        proof {
            assert forall|j: int| 0 <= j < e.len() implies #[trigger] e[j].0 != key@ by {
                if j < i {
                    lemma_key_order(e[j].0, key@, key@);
                } else if j > i {
                    lemma_key_order(key@, e[j].0, e[j].0);
                }
            }
            lemma_get_absent(e, key@);
        }
        let ghost kv = key@;
        let ghost vv = value@;
        m.insert(i, (key, value));
        assert(view_entries(m@) =~= e.insert(i as int, (kv, vv)));
        None
    }
}

/// The value stored under `key` in an object's pairs, if any.
pub fn object_get<'a>(m: &'a Vec<(String, Value)>, key: &str) -> (r: Option<&'a Value>)
    ensures
        match r {
            Some(v) => spec_get(view_entries(m@), key@) == Some(v@),
            None => spec_get(view_entries(m@), key@) is None,
        },
{
    let ghost e = view_entries(m@);
    let mut i: usize = 0;
    assert(e.skip(0) =~= e);
    while i < m.len()
        invariant
            i <= m@.len(),
            e == view_entries(m@),
            spec_get(e, key@) == spec_get(e.skip(i as int), key@),
        decreases m@.len() - i,
    {
        let c = compare_keys(m[i].0.as_str(), key);
        assert(e.skip(i as int)[0] == e[i as int]);
        if c == 0 {
            return Some(&m[i].1);
        }
        assert(e.skip(i as int).drop_first() =~= e.skip(i + 1));
        i += 1;
    }
    proof {
        assert(e.skip(i as int).len() == 0);
    }
    None
}

/// Whether an object's pairs hold `key`.
pub fn object_contains_key(m: &Vec<(String, Value)>, key: &str) -> (r: bool)
    ensures
        r == spec_get(view_entries(m@), key@) is Some,
{
    match object_get(m, key) {
        Some(_) => true,
        None => false,
    }
}

// ---------------------------------------------------------------------------
// Accessors.
// ---------------------------------------------------------------------------

impl Value {
    /// Returns true if this value is null.
    pub fn is_null(&self) -> (r: bool)
        ensures
            r == (self@ is Null),
    {
        matches!(self, Value::Null)
    }

    /// Returns true if this value is a boolean.
    pub fn is_bool(&self) -> (r: bool)
        ensures
            r == (self@ is Bool),
    {
        matches!(self, Value::Bool(_))
    }

    /// Returns true if this value is any numeric type.
    pub fn is_number(&self) -> (r: bool)
        ensures
            r == (self@ is Int || self@ is UInt || self@ is Float || self@ is BigNumber),
    {
        matches!(self, Value::Int(_) | Value::UInt(_) | Value::Float(_) | Value::BigNumber(_))
    }

    /// Returns true if this value is a string.
    pub fn is_string(&self) -> (r: bool)
        ensures
            r == (self@ is Str),
    {
        matches!(self, Value::String(_))
    }

    /// Returns true if this value is an array.
    pub fn is_array(&self) -> (r: bool)
        ensures
            r == (self@ is Array),
    {
        matches!(self, Value::Array(_))
    }

    /// Returns true if this value is an object.
    pub fn is_object(&self) -> (r: bool)
        ensures
            r == (self@ is Object),
    {
        matches!(self, Value::Object(_))
    }

    /// If this is a boolean, returns the value.
    pub fn as_bool(&self) -> (r: Option<bool>)
        ensures
            r == (match self@ {
                SpecValue::Bool(b) => Some(b),
                _ => None,
            }),
    {
        match self {
            Value::Bool(b) => Some(*b),
            _ => None,
        }
    }

    /// If this is a string, returns a reference to it.
    pub fn as_str(&self) -> (r: Option<&str>)
        ensures
            match self@ {
                SpecValue::Str(s) => r matches Some(x) && x@ == s,
                _ => r is None,
            },
    {
        match self {
            Value::String(s) => Some(s.as_str()),
            _ => None,
        }
    }

    /// If this is an array, returns a reference to it.
    pub fn as_array(&self) -> (r: Option<&Vec<Value>>)
        ensures
            match *self {
                Value::Array(a) => r == Some(&a),
                _ => r is None,
            },
    {
        match self {
            Value::Array(a) => Some(a),
            _ => None,
        }
    }

    /// If this is an array, returns a mutable reference to it.
    pub fn as_array_mut(&mut self) -> (r: Option<&mut Vec<Value>>)
        ensures
            match *old(self) {
                Value::Array(a) => r matches Some(x) && *x == a && *final(self) == Value::Array(
                    *final(x),
                ),
                _ => r is None && *final(self) == *old(self),
            },
    {
        match self {
            Value::Array(a) => Some(a),
            _ => None,
        }
    }

    /// If this is an object, returns a reference to its pairs.
    pub fn as_object(&self) -> (r: Option<&Vec<(String, Value)>>)
        ensures
            match *self {
                Value::Object(m) => r == Some(&m),
                _ => r is None,
            },
    {
        match self {
            Value::Object(m) => Some(m),
            _ => None,
        }
    }

    /// If this is an object, returns a mutable reference to its pairs.
    pub fn as_object_mut(&mut self) -> (r: Option<&mut Vec<(String, Value)>>)
        ensures
            match *old(self) {
                Value::Object(m) => r matches Some(x) && *x == m && *final(self) == Value::Object(
                    *final(x),
                ),
                _ => r is None && *final(self) == *old(self),
            },
    {
        match self {
            Value::Object(m) => Some(m),
            _ => None,
        }
    }

    /// Index into an array. Returns None if not an array or index out of bounds.
    pub fn get(&self, index: usize) -> (r: Option<&Value>)
        ensures
            match *self {
                Value::Array(a) => if index < a@.len() {
                    r == Some(&a@[index as int])
                } else {
                    r is None
                },
                _ => r is None,
            },
    {
        match self {
            Value::Array(a) => if index < a.len() {
                Some(&a[index])
            } else {
                None
            },
            _ => None,
        }
    }

    /// Index into an object by key. Returns None if not an object or key not found.
    pub fn get_key(&self, key: &str) -> (r: Option<&Value>)
        ensures
            match *self {
                Value::Object(m) => match r {
                    Some(v) => spec_get(view_entries(m@), key@) == Some(v@),
                    None => spec_get(view_entries(m@), key@) is None,
                },
                _ => r is None,
            },
    {
        match self {
            Value::Object(m) => object_get(m, key),
            _ => None,
        }
    }
}

// ---------------------------------------------------------------------------
// Whole floats as integers.
// ---------------------------------------------------------------------------

/// The unsigned integer that a binary64 pattern stands for, when it is a
/// whole number in the `u64` range (negative zero counts as zero).
pub open spec fn spec_f64_to_u64(b: u64) -> Option<u64> {
    let e = f64_exp(b);
    let f = f64_frac(b);
    let full: nat = (f + pow2(52)) as nat;
    if e == 0 {
        if f == 0 {
            Some(0)
        } else {
            None
        }
    } else if f64_sign(b) == 1 {
        None
    } else if e >= 1075 {
        let m = full * pow2((e - 1075) as nat);
        if m < pow2(64) {
            Some(m as u64)
        } else {
            None
        }
    } else {
        let k = (1075 - e) as nat;
        if full % pow2(k) == 0 {
            Some((full / pow2(k)) as u64)
        } else {
            None
        }
    }
}

/// Whole binary64 values read as `u64` exactly: for every finite binary64
/// pattern, the unsigned integer it reads as is the float's own value (with
/// `s` the value times 2^1074, the integer is `s / 2^1074`), and there is one
/// exactly when that value is a whole number from 0 to `u64::MAX`. A NaN or an
/// infinity has none.
pub proof fn lemma_f64_to_u64_exact(b: u64)
    ensures
        !spec_f64_is_nan(b) && !spec_f64_is_infinite(b) ==> spec_f64_to_u64(b) == (if spec_f64_scaled(
            b,
        ) % pow2(1074) as int == 0 && 0 <= spec_f64_scaled(b) / pow2(1074) as int <= u64::MAX {
            Some((spec_f64_scaled(b) / pow2(1074) as int) as u64)
        } else {
            None
        }),
        spec_f64_is_nan(b) || spec_f64_is_infinite(b) ==> spec_f64_to_u64(b) is None,
{
    vstd::arithmetic::power2::lemma2_to64();
    vstd::arithmetic::power2::lemma2_to64_rest();
    let e = f64_exp(b);
    let f = f64_frac(b);
    let full: int = f + pow2(52);
    crate::floatbits::lemma_f64_fields(b);
    if e >= 1075 {
        let k = (e - 1075) as nat;
        vstd::arithmetic::power2::lemma_pow2_pos(k);
        assert(full * pow2(k) >= full) by (nonlinear_arith)
            requires
                full >= 0,
                pow2(k) >= 1,
        ;
        if e == 0x7ff {
            vstd::arithmetic::power2::lemma_pow2_strictly_increases(64, 972);
            assert(full * pow2(k) > pow2(64)) by (nonlinear_arith)
                requires
                    full >= pow2(52),
                    pow2(k) > pow2(64),
                    k == 972,
                    pow2(52) >= 1,
            ;
        }
    }
    if !spec_f64_is_nan(b) && !spec_f64_is_infinite(b) {
        lemma_f64_whole(b);
        if 1 <= e < 1075 {
            let k = (1075 - e) as nat;
            let p = pow2(k) as int;
            vstd::arithmetic::power2::lemma_pow2_pos(k);
            vstd::arithmetic::div_mod::lemma_div_is_ordered_by_denominator(full, 1, p);
            assert(full / 1 == full);
            vstd::arithmetic::div_mod::lemma_fundamental_div_mod(full, p);
            if full % p == 0 && full / p == 0 {
                assert(full == p * (full / p) + full % p);
                assert(p * 0 == 0);
            }
        }
    }
}

proof fn lemma_pow2_le(e1: nat, e2: nat)
    requires
        e1 <= e2,
    ensures
        pow2(e1) <= pow2(e2),
{
    if e1 < e2 {
        vstd::arithmetic::power2::lemma_pow2_strictly_increases(e1, e2);
    }
}

/// The unsigned integer a binary64 pattern stands for (see `spec_f64_to_u64`).
fn f64_to_u64(b: u64) -> (r: Option<u64>)
    ensures
        r == spec_f64_to_u64(b),
{
    let e = (b >> 52u64) & 0x7ff;
    let f = b & 0xf_ffff_ffff_ffff;
    let neg = (b >> 63u64) == 1;
    assert(e <= 0x7ff && f <= 0xf_ffff_ffff_ffff) by (bit_vector)
        requires
            e == (b >> 52u64) & 0x7ff,
            f == b & 0xf_ffff_ffff_ffff,
    ;
    proof {
        vstd::arithmetic::power2::lemma2_to64();
        vstd::arithmetic::power2::lemma2_to64_rest();
    }
    if e == 0 {
        return if f == 0 {
            Some(0)
        } else {
            None
        };
    }
    if neg {
        return None;
    }
    let full: u64 = f + 0x10_0000_0000_0000;
    if e >= 1075 {
        let k = e - 1075;
        if k <= 11 {
            let p: u64 = 1u64 << k;
            proof {
                vstd::bits::lemma_u64_shl_is_mul(1, k);
                lemma_pow2_le(k as nat, 11);
                vstd::arithmetic::power2::lemma_pow2_adds(53, k as nat);
                lemma_pow2_le(53 + k as nat, 64);
                assert(full * p < pow2(53) * p) by (nonlinear_arith)
                    requires
                        full < pow2(53),
                        p > 0,
                ;
            }
            return Some(full * p);
        }
        proof {
            vstd::arithmetic::power2::lemma_pow2_adds(12, (k - 12) as nat);
            vstd::arithmetic::power2::lemma_pow2_adds(64, (k - 12) as nat);
            vstd::arithmetic::power2::lemma_pow2_adds(52, 12);
            vstd::arithmetic::power2::lemma_pow2_pos((k - 12) as nat);
            let pk = pow2(k as nat);
            let q = pow2((k - 12) as nat);
            assert(pk == pow2(12) * q);
            assert(full * pk >= pow2(52) * pk) by (nonlinear_arith)
                requires
                    full >= pow2(52),
                    pk > 0,
            ;
            assert(pow2(52) * pk == pow2(64) * q) by (nonlinear_arith)
                requires
                    pk == pow2(12) * q,
                    pow2(64) == pow2(52) * pow2(12),
            ;
            if k > 12 {
                vstd::arithmetic::power2::lemma_pow2_strictly_increases(0, (k - 12) as nat);
                assert(pow2(64) * q > pow2(64)) by (nonlinear_arith)
                    requires
                        q > 1,
                        pow2(64) > 0,
                ;
            }
            if f > 0 {
                assert(full * pk > pow2(52) * pk) by (nonlinear_arith)
                    requires
                        full > pow2(52),
                        pk > 0,
                ;
                assert(pow2(64) * q >= pow2(64)) by (nonlinear_arith)
                    requires
                        q >= 1,
                        pow2(64) > 0,
                ;
            }
        }
        None
    } else {
        let k = 1075 - e;
        if k > 52 {
            proof {
                lemma_pow2_le(53, k as nat);
                vstd::arithmetic::div_mod::lemma_small_mod(full as nat, pow2(k as nat));
            }
            return None;
        }
        let p: u64 = 1u64 << k;
        proof {
            vstd::bits::lemma_u64_shl_is_mul(1, k);
            lemma_pow2_le(k as nat, 52);
        }
        if full % p != 0 {
            return None;
        }
        proof {
            vstd::arithmetic::power2::lemma_pow2_pos(k as nat);
        }
        Some(full / p)
    }
}

/// What `as_i64` gives for a value.
pub open spec fn spec_as_i64(v: SpecValue) -> Option<i64> {
    match v {
        SpecValue::Int(n) => Some(n),
        SpecValue::UInt(n) => if n <= i64::MAX {
            Some(n as i64)
        } else {
            None
        },
        SpecValue::Float(b) => if spec_f64_is_nan(b) || spec_f64_is_infinite(b) {
            None
        } else {
            spec_f64_integer(b)
        },
        SpecValue::BigNumber(bn) => bn.spec_to_i64(),
        _ => None,
    }
}

/// What `as_u64` gives for a value.
pub open spec fn spec_as_u64(v: SpecValue) -> Option<u64> {
    match v {
        SpecValue::UInt(n) => Some(n),
        SpecValue::Int(n) => if n >= 0 {
            Some(n as u64)
        } else {
            None
        },
        SpecValue::Float(b) => spec_f64_to_u64(b),
        SpecValue::BigNumber(bn) => bn.spec_to_u64(),
        _ => None,
    }
}

/// The value is a number equal to the integer `x`: an integer equal to it, a
/// finite float whose value times 2^1074 is `x` times 2^1074, or a big number
/// `sign × significand × 10^exponent` equal to `x`.
pub open spec fn number_equals(v: SpecValue, x: int) -> bool {
    match v {
        SpecValue::Int(n) => n == x,
        SpecValue::UInt(n) => n == x,
        SpecValue::Float(b) => !spec_f64_is_nan(b) && !spec_f64_is_infinite(b) && x * pow2(1074)
            == spec_f64_scaled(b),
        SpecValue::BigNumber(bn) => if bn.exponent >= 0 {
            x == bn.spec_signed_significand() * pow10(bn.exponent as nat)
        } else {
            x * pow10((-bn.exponent) as nat) == bn.spec_signed_significand()
        },
        _ => false,
    }
}

/// `as_i64` and `as_u64` give the value's own number: whatever they return
/// is a number equal to the value, and every integer of their type that the
/// value equals is what they return. Strings, booleans, null and containers
/// give nothing.
pub proof fn lemma_as_integers_exact(v: SpecValue, x: i64, y: u64)
    ensures
        spec_as_i64(v) matches Some(r) ==> number_equals(v, r as int),
        number_equals(v, x as int) ==> spec_as_i64(v) == Some(x),
        spec_as_u64(v) matches Some(r) ==> number_equals(v, r as int),
        number_equals(v, y as int) ==> spec_as_u64(v) == Some(y),
{
    match v {
        SpecValue::Float(b) => {
            crate::encoder::lemma_f64_integer_exact(b);
            lemma_f64_to_u64_exact(b);
            let d = pow2(1074) as int;
            vstd::arithmetic::power2::lemma_pow2_pos(1074);
            let sc = spec_f64_scaled(b);
            if !spec_f64_is_nan(b) && !spec_f64_is_infinite(b) {
                vstd::arithmetic::div_mod::lemma_fundamental_div_mod(sc, d);
                if sc % d == 0 {
                    assert((sc / d) * d == sc) by (nonlinear_arith)
                        requires
                            sc == d * (sc / d) + 0,
                    ;
                }
                if x * d == sc {
                    vstd::arithmetic::div_mod::lemma_fundamental_div_mod_converse(sc, d, x as int, 0);
                }
                if y * d == sc {
                    vstd::arithmetic::div_mod::lemma_fundamental_div_mod_converse(sc, d, y as int, 0);
                }
            }
        },
        SpecValue::BigNumber(bn) => {
            crate::types::lemma_bignumber_conversions_exact(bn, x, y);
        },
        _ => {},
    }
}

impl Value {
    /// If this is a number with an integer value in the `i64` range, returns it:
    /// an unsigned value up to `i64::MAX`, a whole float in the `i64` range,
    /// a big number that `to_i64` converts.
    pub fn as_i64(&self) -> (r: Option<i64>)
        ensures
            r == spec_as_i64(self@),
    {
        match self {
            Value::Int(n) => Some(*n),
            Value::UInt(n) => if *n <= i64::MAX as u64 {
                Some(*n as i64)
            } else {
                None
            },
            Value::Float(b) => if f64_is_nan(*b) || f64_is_infinite(*b) {
                None
            } else {
                f64_integer(*b)
            },
            Value::BigNumber(bn) => bn.to_i64(),
            _ => None,
        }
    }

    /// If this is a number with an integer value in the `u64` range, returns it:
    /// a signed value that is not negative, a whole float in the `u64` range,
    /// a big number that `to_u64` converts.
    pub fn as_u64(&self) -> (r: Option<u64>)
        ensures
            r == spec_as_u64(self@),
    {
        match self {
            Value::UInt(n) => Some(*n),
            Value::Int(n) => if *n >= 0 {
                Some(*n as u64)
            } else {
                None
            },
            Value::Float(b) => f64_to_u64(*b),
            Value::BigNumber(bn) => bn.to_u64(),
            _ => None,
        }
    }
}

} // verus!
