//! Cell values of a flat table and their partial order.

use std::cmp::Ordering;
use vstd::prelude::*;
use vstd::utf8::encode_utf8;

verus! {

/// Sign bit of an IEEE-754 binary64 bit pattern.
pub const SIGN_BIT: u64 = 0x8000_0000_0000_0000;

/// Bit pattern of positive infinity; every larger magnitude is a NaN.
pub const INFINITY_BITS: u64 = 0x7FF0_0000_0000_0000;

/// A single cell parsed from the flat file.
///
/// A number is held as the bit pattern of an IEEE-754 binary64 value (`f64::to_bits`).
#[derive(Debug)]
pub enum Value {
    Text(String),
    Number(u64),
}

/// The magnitude bits (all but the sign) of a binary64 bit pattern.
pub open spec fn magnitude(bits: u64) -> int {
    (bits % SIGN_BIT) as int
}

/// Whether a binary64 bit pattern is a NaN.
pub open spec fn is_nan(bits: u64) -> bool {
    magnitude(bits) > INFINITY_BITS
}

/// The position of a non-NaN binary64 value on the number line: sign and magnitude as one
/// integer. Both zeros sit at 0, and the order of these integers is the order of the reals.
pub open spec fn number_key(bits: u64) -> int {
    if bits < SIGN_BIT {
        magnitude(bits)
    } else {
        -magnitude(bits)
    }
}

pub open spec fn int_cmp(a: int, b: int) -> Ordering {
    if a < b {
        Ordering::Less
    } else if a == b {
        Ordering::Equal
    } else {
        Ordering::Greater
    }
}

/// The order of two binary64 values: none when either is a NaN.
pub open spec fn number_cmp(a: u64, b: u64) -> Option<Ordering> {
    if is_nan(a) || is_nan(b) {
        None
    } else {
        Some(int_cmp(number_key(a), number_key(b)))
    }
}

/// Lexicographic order of two byte strings, from position `i` on.
pub open spec fn bytes_cmp_from(a: Seq<u8>, b: Seq<u8>, i: int) -> Ordering
    decreases a.len() - i,
{
    if i >= a.len() && i >= b.len() {
        Ordering::Equal
    } else if i >= a.len() {
        Ordering::Less
    } else if i >= b.len() {
        Ordering::Greater
    } else if a[i] < b[i] {
        Ordering::Less
    } else if a[i] > b[i] {
        Ordering::Greater
    } else {
        bytes_cmp_from(a, b, i + 1)
    }
}

/// Order of two texts: lexicographic over their UTF-8 bytes.
pub open spec fn text_cmp(a: Seq<char>, b: Seq<char>) -> Ordering {
    bytes_cmp_from(encode_utf8(a), encode_utf8(b), 0)
}

/// The partial order of values: numbers by value, texts lexicographically, and a text and a
/// number not at all.
pub open spec fn value_cmp(a: Value, b: Value) -> Option<Ordering> {
    match (a, b) {
        (Value::Text(x), Value::Text(y)) => Some(text_cmp(x@, y@)),
        (Value::Number(x), Value::Number(y)) => number_cmp(x, y),
        _ => None,
    }
}

/// Equality of values: equal texts, or numbers that compare equal (a NaN equals nothing).
pub open spec fn value_eq(a: Value, b: Value) -> bool {
    match (a, b) {
        (Value::Text(x), Value::Text(y)) => x@ == y@,
        (Value::Number(x), Value::Number(y)) => number_cmp(x, y) == Some(Ordering::Equal),
        _ => false,
    }
}

fn signed_key(bits: u64) -> (r: i128)
    requires
        !is_nan(bits),
    ensures
        r as int == number_key(bits),
{
    let m = bits % SIGN_BIT;
    if bits < SIGN_BIT {
        m as i128
    } else {
        -(m as i128)
    }
}

fn compare_numbers(a: u64, b: u64) -> (r: Option<Ordering>)
    ensures
        r == number_cmp(a, b),
{
    if a % SIGN_BIT > INFINITY_BITS || b % SIGN_BIT > INFINITY_BITS {
        return None;
    }
    let ka = signed_key(a);
    let kb = signed_key(b);
    if ka < kb {
        Some(Ordering::Less)
    } else if ka == kb {
        Some(Ordering::Equal)
    } else {
        Some(Ordering::Greater)
    }
}

fn compare_bytes(a: &[u8], b: &[u8]) -> (r: Ordering)
    ensures
        r == bytes_cmp_from(a@, b@, 0),
{
    let mut i: usize = 0;
    while i < a.len() && i < b.len()
        invariant
            i <= a@.len(),
            i <= b@.len(),
            bytes_cmp_from(a@, b@, 0) == bytes_cmp_from(a@, b@, i as int),
        decreases a@.len() - i,
    {
        if a[i] < b[i] {
            return Ordering::Less;
        }
        if a[i] > b[i] {
            return Ordering::Greater;
        }
        i = i + 1;
    }
    if i < a.len() {
        Ordering::Greater
    } else if i < b.len() {
        Ordering::Less
    } else {
        Ordering::Equal
    }
}

impl Value {
    /// Constructs a text value.
    pub fn text(text: &str) -> (r: Value)
        ensures
            r matches Value::Text(s) && s@ == text@,
    {
        Value::Text(text.to_string())
    }

    /// Constructs a text value from anything that renders as a string.
    pub fn text_owned<S: std::fmt::Display>(text: S) -> (r: Value)
        ensures
            r matches Value::Text(s) && vstd::string::to_string_from_display_ensures::<S>(&text, s),
    {
        Value::Text(text.to_string())
    }

    /// Compares two values in their partial order.
    pub fn compare(&self, other: &Value) -> (r: Option<Ordering>)
        ensures
            r == value_cmp(*self, *other),
    {
        match (self, other) {
            (Value::Text(x), Value::Text(y)) => Some(compare_bytes(x.as_str().as_bytes(), y.as_str().as_bytes())),
            (Value::Number(x), Value::Number(y)) => compare_numbers(*x, *y),
            _ => None,
        }
    }

    /// Whether two values are equal.
    pub fn equals(&self, other: &Value) -> (r: bool)
        ensures
            r == value_eq(*self, *other),
    {
        match (self, other) {
            (Value::Text(x), Value::Text(y)) => x.eq(y),
            (Value::Number(x), Value::Number(y)) => match compare_numbers(*x, *y) {
                Some(Ordering::Equal) => true,
                _ => false,
            },
            _ => false,
        }
    }
}

impl Clone for Value {
    fn clone(&self) -> (r: Value)
        ensures
            r == *self,
    {
        match self {
            Value::Text(s) => Value::Text(s.clone()),
            Value::Number(n) => Value::Number(*n),
        }
    }
}

impl PartialEq for Value {
    fn eq(&self, other: &Value) -> (r: bool) {
        self.equals(other)
    }
}

impl vstd::std_specs::cmp::PartialEqSpecImpl for Value {
    open spec fn obeys_eq_spec() -> bool {
        false
    }

    open spec fn eq_spec(&self, other: &Value) -> bool {
        value_eq(*self, *other)
    }
}

proof fn lemma_bytes_cmp_antisymmetric(a: Seq<u8>, b: Seq<u8>, i: int)
    requires
        0 <= i,
    ensures
        (bytes_cmp_from(a, b, i) == Ordering::Less) == (bytes_cmp_from(b, a, i) == Ordering::Greater),
        (bytes_cmp_from(a, b, i) == Ordering::Equal) == (bytes_cmp_from(b, a, i) == Ordering::Equal),
    decreases a.len() - i,
{
    if i < a.len() && i < b.len() && a[i] == b[i] {
        lemma_bytes_cmp_antisymmetric(a, b, i + 1);
    }
}

proof fn lemma_bytes_cmp_equal(a: Seq<u8>, b: Seq<u8>, i: int)
    requires
        0 <= i <= a.len(),
        i <= b.len(),
    ensures
        (bytes_cmp_from(a, b, i) == Ordering::Equal) == (a.subrange(i, a.len() as int) == b.subrange(
            i,
            b.len() as int,
        )),
    decreases a.len() - i,
{
    if i < a.len() && i < b.len() {
        lemma_bytes_cmp_equal(a, b, i + 1);
        if a[i] == b[i] && a.subrange(i + 1, a.len() as int) == b.subrange(i + 1, b.len() as int) {
            assert(a.subrange(i, a.len() as int) =~= seq![a[i]] + a.subrange(i + 1, a.len() as int));
            assert(b.subrange(i, b.len() as int) =~= seq![b[i]] + b.subrange(i + 1, b.len() as int));
        }
        if a.subrange(i, a.len() as int) == b.subrange(i, b.len() as int) {
            assert(a.subrange(i, a.len() as int)[0] == b.subrange(i, b.len() as int)[0]);
            assert(a.subrange(i + 1, a.len() as int) =~= a.subrange(i, a.len() as int).drop_first());
            assert(b.subrange(i + 1, b.len() as int) =~= b.subrange(i, b.len() as int).drop_first());
        }
    } else if i < a.len() {
        assert(a.subrange(i, a.len() as int).len() != b.subrange(i, b.len() as int).len());
    } else if i < b.len() {
        assert(a.subrange(i, a.len() as int).len() != b.subrange(i, b.len() as int).len());
    } else {
        assert(a.subrange(i, a.len() as int) =~= b.subrange(i, b.len() as int));
    }
}

proof fn lemma_bytes_cmp_transitive(a: Seq<u8>, b: Seq<u8>, c: Seq<u8>, i: int)
    requires
        0 <= i,
        bytes_cmp_from(a, b, i) != Ordering::Greater,
        bytes_cmp_from(b, c, i) != Ordering::Greater,
    ensures
        bytes_cmp_from(a, c, i) != Ordering::Greater,
    decreases a.len() - i,
{
    if i < a.len() && i < c.len() && a[i] == c[i] {
        lemma_bytes_cmp_transitive(a, b, c, i + 1);
    }
}

/// Whether a value is of one totally ordered kind: text when `text` holds, a number other
/// than a NaN otherwise.
pub open spec fn of_kind(v: Value, text: bool) -> bool {
    if text {
        v is Text
    } else {
        v matches Value::Number(n) && !is_nan(n)
    }
}

/// Values of one kind are totally ordered: the order is antisymmetric, equal values are exactly
/// those that compare equal, and "not greater" is transitive.
pub proof fn lemma_total_order(a: Value, b: Value, c: Value, text: bool)
    requires
        of_kind(a, text),
        of_kind(b, text),
        of_kind(c, text),
    ensures
        (value_cmp(a, b) == Some(Ordering::Less)) == (value_cmp(b, a) == Some(Ordering::Greater)),
        value_cmp(a, b) is Some,
        (value_cmp(a, b) == Some(Ordering::Equal)) == value_eq(a, b),
        value_eq(a, a),
        value_eq(a, b) ==> value_eq(b, a) && value_cmp(a, c) == value_cmp(b, c) && value_cmp(c, a)
            == value_cmp(c, b),
        value_cmp(a, b) != Some(Ordering::Greater) && value_cmp(b, c) != Some(Ordering::Greater)
            ==> value_cmp(a, c) != Some(Ordering::Greater),
{
    if text {
        let x = encode_utf8(a->Text_0@);
        let y = encode_utf8(b->Text_0@);
        let z = encode_utf8(c->Text_0@);
        lemma_bytes_cmp_antisymmetric(x, y, 0);
        lemma_bytes_cmp_equal(x, y, 0);
        assert(x.subrange(0, x.len() as int) =~= x);
        assert(y.subrange(0, y.len() as int) =~= y);
        vstd::utf8::encode_utf8_decode_utf8(a->Text_0@);
        vstd::utf8::encode_utf8_decode_utf8(b->Text_0@);
        if value_cmp(a, b) != Some(Ordering::Greater) && value_cmp(b, c) != Some(Ordering::Greater) {
            lemma_bytes_cmp_transitive(x, y, z, 0);
        }
    }
}

/// Values that compare equal compare alike with every value.
pub proof fn lemma_equal_substitution(a: Value, b: Value, c: Value)
    requires
        value_cmp(a, b) == Some(Ordering::Equal),
    ensures
        value_cmp(c, a) == value_cmp(c, b),
{
    if of_kind(a, true) && of_kind(b, true) && of_kind(c, true) {
        lemma_total_order(a, b, c, true);
        lemma_total_order(c, a, b, true);
    }
}

/// The order of values is antisymmetric: `a` is below `b` exactly when `b` is above `a`.
pub proof fn lemma_antisymmetric(a: Value, b: Value)
    ensures
        (value_cmp(a, b) == Some(Ordering::Less)) == (value_cmp(b, a) == Some(Ordering::Greater)),
{
    if of_kind(a, true) && of_kind(b, true) {
        lemma_total_order(a, b, a, true);
    }
}

} // verus!
