//! Tagged runtime values and their schema-level type tags: parsing raw text
//! under fixed per-type rules, cross-type numeric coercion, equality, ordering
//! and rendering back to text.

use vstd::prelude::*;
use vstd::string::{StrSliceExecFns, StringExecFns};
use crate::errors::{ErrModel, MyDatabaseError};
use crate::float_bits::{
    f64_cmp, f64_cmp_code, f64_from_i64, f64_from_text, f64_of_i64, f64_text, f64_to_text,
    parse_f64_bits,
};
use crate::tokenizer::{is_space_char, trim_model, trim_str};

verus! {

/// Mathematical shape of a [`Value`]: the same variants with the string
/// payload abstracted to a character sequence.
pub enum ValueModel {
    Bool(bool),
    String(Seq<char>),
    Int(i64),
    Float(u64),
}

/// A tagged runtime value. A `Float` carries the IEEE-754 bit pattern of the
/// 64-bit double it stands for.
#[derive(Debug)]
pub enum Value {
    Bool(bool),
    String(String),
    Int(i64),
    Float(u64),
}

impl View for Value {
    type V = ValueModel;

    open spec fn view(&self) -> ValueModel {
        match self {
            Value::Bool(b) => ValueModel::Bool(*b),
            Value::String(s) => ValueModel::String(s@),
            Value::Int(i) => ValueModel::Int(*i),
            Value::Float(bits) => ValueModel::Float(*bits),
        }
    }
}

/// Structural equality of two value shapes: same variant, same content, with
/// floats compared by their bit patterns.
pub open spec fn value_eq_model(a: ValueModel, b: ValueModel) -> bool {
    match (a, b) {
        (ValueModel::Bool(x), ValueModel::Bool(y)) => x == y,
        (ValueModel::String(x), ValueModel::String(y)) => x == y,
        (ValueModel::Int(x), ValueModel::Int(y)) => x == y,
        (ValueModel::Float(x), ValueModel::Float(y)) => x == y,
        _ => false,
    }
}

impl PartialEq for Value {
    fn eq(&self, other: &Value) -> (r: bool) {
        match (self, other) {
            (Value::Bool(x), Value::Bool(y)) => *x == *y,
            (Value::String(x), Value::String(y)) => crate::tokenizer::str_eq(
                x.as_str(),
                y.as_str(),
            ),
            (Value::Int(x), Value::Int(y)) => *x == *y,
            (Value::Float(x), Value::Float(y)) => *x == *y,
            _ => false,
        }
    }
}

impl vstd::std_specs::cmp::PartialEqSpecImpl for Value {
    open spec fn obeys_eq_spec() -> bool {
        true
    }

    open spec fn eq_spec(&self, other: &Value) -> bool {
        value_eq_model(self@, other@)
    }
}

impl Value {
    /// An owned copy of the value.
    pub fn dup(&self) -> (r: Value)
        ensures
            r == *self,
    {
        match self {
            Value::Bool(b) => Value::Bool(*b),
            Value::String(s) => Value::String(s.clone()),
            Value::Int(i) => Value::Int(*i),
            Value::Float(bits) => Value::Float(*bits),
        }
    }
}

/// Lexicographic order on character sequences by code point, the order Rust
/// gives strings.
pub open spec fn lex_lt(a: Seq<char>, b: Seq<char>) -> bool
    decreases a.len(),
{
    if b.len() == 0 {
        false
    } else if a.len() == 0 {
        true
    } else if a[0] < b[0] {
        true
    } else if a[0] != b[0] {
        false
    } else {
        lex_lt(a.drop_first(), b.drop_first())
    }
}

/// The lexicographic order is transitive.
pub proof fn lemma_lex_lt_trans(a: Seq<char>, b: Seq<char>, c: Seq<char>)
    requires
        lex_lt(a, b),
        lex_lt(b, c),
    ensures
        lex_lt(a, c),
    decreases a.len(),
{
    if b.len() > 0 && c.len() > 0 && a.len() > 0 {
        if a[0] == b[0] && b[0] == c[0] {
            lemma_lex_lt_trans(a.drop_first(), b.drop_first(), c.drop_first());
        }
    }
}

/// Two sequences that each fail to precede the other are equal.
pub proof fn lemma_lex_lt_connected(a: Seq<char>, b: Seq<char>)
    requires
        !lex_lt(a, b),
        !lex_lt(b, a),
    ensures
        a == b,
    decreases a.len(),
{
    if a.len() == 0 && b.len() == 0 {
        assert(a =~= b);
    } else if a.len() > 0 && b.len() > 0 {
        assert(a[0] == b[0]);
        lemma_lex_lt_connected(a.drop_first(), b.drop_first());
        assert(a.len() == b.len());
        assert forall|i: int| 0 <= i < a.len() implies a[i] == b[i] by {
            if i > 0 {
                assert(a[i] == a.drop_first()[i - 1]);
                assert(b[i] == b.drop_first()[i - 1]);
            }
        }
        assert(a =~= b);
    }
}

/// The lexicographic order is irreflexive.
pub proof fn lemma_lex_lt_irrefl(a: Seq<char>)
    ensures
        !lex_lt(a, a),
    decreases a.len(),
{
    if a.len() > 0 {
        lemma_lex_lt_irrefl(a.drop_first());
    }
}

/// Any two sequences are ordered one way or the other, or equal.
pub proof fn lemma_lex_lt_total(a: Seq<char>, b: Seq<char>)
    ensures
        lex_lt(a, b) || lex_lt(b, a) || a == b,
{
    if !lex_lt(a, b) && !lex_lt(b, a) {
        lemma_lex_lt_connected(a, b);
    }
}

/// The mathematical shape of a table key: one of the two key kinds the store
/// supports.
pub enum KeyModel {
    Int(i64),
    Text(Seq<char>),
}

/// The ascending order on keys: numeric for integer keys, lexicographic for
/// text keys; keys of different kinds are never compared.
pub open spec fn key_lt(a: KeyModel, b: KeyModel) -> bool {
    match (a, b) {
        (KeyModel::Int(x), KeyModel::Int(y)) => x < y,
        (KeyModel::Text(x), KeyModel::Text(y)) => lex_lt(x, y),
        _ => false,
    }
}

pub proof fn lemma_key_lt_trans(a: KeyModel, b: KeyModel, c: KeyModel)
    requires
        key_lt(a, b),
        key_lt(b, c),
    ensures
        key_lt(a, c),
{
    match (a, b, c) {
        (KeyModel::Text(x), KeyModel::Text(y), KeyModel::Text(z)) => {
            lemma_lex_lt_trans(x, y, z);
        },
        _ => {},
    }
}

pub proof fn lemma_key_lt_irrefl(a: KeyModel)
    ensures
        !key_lt(a, a),
{
    match a {
        KeyModel::Text(x) => {
            lemma_lex_lt_irrefl(x);
        },
        _ => {},
    }
}

/// Compare two string slices lexicographically by code point.
pub fn str_lt(a: &str, b: &str) -> (r: bool)
    ensures
        r == lex_lt(a@, b@),
{
    let n = a.unicode_len();
    let m = b.unicode_len();
    let mut i: usize = 0;
    proof {
        assert(a@.skip(0) =~= a@);
        assert(b@.skip(0) =~= b@);
    }
    loop
        invariant
            0 <= i <= n,
            i <= m,
            n == a@.len(),
            m == b@.len(),
            lex_lt(a@, b@) == lex_lt(a@.skip(i as int), b@.skip(i as int)),
        decreases n - i,
    {
        if i >= n || i >= m {
            proof {
                assert(a@.skip(i as int).len() == n - i);
                assert(b@.skip(i as int).len() == m - i);
            }
            return n < m;
        }
        let ca = a.get_char(i);
        let cb = b.get_char(i);
        if ca < cb {
            return true;
        }
        if ca != cb {
            return false;
        }
        proof {
            assert(a@.skip(i as int).drop_first() =~= a@.skip(i + 1));
            assert(b@.skip(i as int).drop_first() =~= b@.skip(i + 1));
        }
        i += 1;
    }
}

/// Equality under Int-to-Float coercion: Int/Float pairs (either order) are
/// compared as doubles, Float/Float as doubles (so NaN equals nothing), and
/// everything else structurally; a cross-variant pair is simply unequal.
pub open spec fn coerced_eq_model(a: ValueModel, b: ValueModel) -> bool {
    match (a, b) {
        (ValueModel::Int(i), ValueModel::Float(f)) => f64_cmp_code(f64_of_i64(i), f) == 1,
        (ValueModel::Float(f), ValueModel::Int(i)) => f64_cmp_code(f, f64_of_i64(i)) == 1,
        (ValueModel::Float(x), ValueModel::Float(y)) => f64_cmp_code(x, y) == 1,
        _ => value_eq_model(a, b),
    }
}

/// Strict order under numeric coercion: defined for Int/Int, Float/Float,
/// mixed Int/Float and String/String; every other pairing has no order.
pub open spec fn bigger_than_model(a: ValueModel, b: ValueModel) -> Option<bool> {
    match (a, b) {
        (ValueModel::Int(x), ValueModel::Int(y)) => Some(x > y),
        (ValueModel::Float(x), ValueModel::Float(y)) => Some(f64_cmp_code(x, y) == 2),
        (ValueModel::Int(x), ValueModel::Float(y)) => Some(f64_cmp_code(f64_of_i64(x), y) == 2),
        (ValueModel::Float(x), ValueModel::Int(y)) => Some(f64_cmp_code(x, f64_of_i64(y)) == 2),
        (ValueModel::String(x), ValueModel::String(y)) => Some(lex_lt(y, x)),
        _ => None,
    }
}

impl Value {
    /// Whether `self` is strictly bigger than `other`, coercing Int against
    /// Float; fails on pairings that have no order.
    pub fn is_bigger_than(&self, other: &Value) -> (r: Result<bool, MyDatabaseError>)
        ensures
            match r {
                Ok(b) => bigger_than_model(self@, other@) == Some(b),
                Err(e) => bigger_than_model(self@, other@) is None && e@
                    == ErrModel::CannotCompareValues,
            },
    {
        match (self, other) {
            (Value::Int(i1), Value::Int(i2)) => Ok(*i1 > *i2),
            (Value::Float(f1), Value::Float(f2)) => Ok(f64_cmp(*f1, *f2) == 2),
            (Value::Int(i1), Value::Float(f2)) => Ok(f64_cmp(f64_from_i64(*i1), *f2) == 2),
            (Value::Float(f1), Value::Int(i2)) => Ok(f64_cmp(*f1, f64_from_i64(*i2)) == 2),
            (Value::String(s1), Value::String(s2)) => Ok(str_lt(s2.as_str(), s1.as_str())),
            _ => Err(MyDatabaseError::CannotCompareValues),
        }
    }

    /// Whether `self` equals `other`, coercing Int against Float; this
    /// comparison never fails, a cross-variant pair is simply unequal.
    pub fn is_equal_to(&self, other: &Value) -> (r: bool)
        ensures
            r == coerced_eq_model(self@, other@),
    {
        match (self, other) {
            (Value::Int(i1), Value::Float(f2)) => f64_cmp(f64_from_i64(*i1), *f2) == 1,
            (Value::Float(f1), Value::Int(i2)) => f64_cmp(*f1, f64_from_i64(*i2)) == 1,
            (Value::Float(f1), Value::Float(f2)) => f64_cmp(*f1, *f2) == 1,
            (Value::Bool(b1), Value::Bool(b2)) => *b1 == *b2,
            (Value::String(s1), Value::String(s2)) => crate::tokenizer::str_eq(
                s1.as_str(),
                s2.as_str(),
            ),
            (Value::Int(i1), Value::Int(i2)) => *i1 == *i2,
            _ => false,
        }
    }
}

/// The schema-level type tag of a column.
#[derive(Debug, Clone, Copy, PartialEq, Eq, Structural)]
pub enum ValueType {
    Bool,
    String,
    Int,
    Float,
}

impl View for ValueType {
    type V = ValueType;

    open spec fn view(&self) -> ValueType {
        *self
    }
}

/// The value shape carries the given type tag.
pub open spec fn has_type(m: ValueModel, t: ValueType) -> bool {
    match (m, t) {
        (ValueModel::Bool(_), ValueType::Bool) => true,
        (ValueModel::String(_), ValueType::String) => true,
        (ValueModel::Int(_), ValueType::Int) => true,
        (ValueModel::Float(_), ValueType::Float) => true,
        _ => false,
    }
}

/// Whether the value's variant is the one the type tag names.
pub fn value_matches_type(v: &Value, t: &ValueType) -> (r: bool)
    ensures
        r == has_type(v@, *t),
{
    match (v, t) {
        (Value::Bool(_), ValueType::Bool) => true,
        (Value::String(_), ValueType::String) => true,
        (Value::Int(_), ValueType::Int) => true,
        (Value::Float(_), ValueType::Float) => true,
        _ => false,
    }
}

pub open spec fn is_digit_char(c: char) -> bool {
    48 <= c as u32 && c as u32 <= 57
}

pub open spec fn digit_val(c: char) -> int {
    c as u32 - 48
}

pub open spec fn all_digits(s: Seq<char>) -> bool {
    forall|i: int| 0 <= i < s.len() ==> is_digit_char(#[trigger] s[i])
}

/// The number a string of decimal digits denotes.
pub open spec fn dec_val(s: Seq<char>) -> int
    decreases s.len(),
{
    if s.len() == 0 {
        0
    } else {
        dec_val(s.drop_last()) * 10 + digit_val(s.last())
    }
}

pub open spec fn int_digits_of(s: Seq<char>) -> Seq<char> {
    if s.len() > 0 && (s[0] == '-' || s[0] == '+') {
        s.drop_first()
    } else {
        s
    }
}

pub open spec fn int_is_negative(s: Seq<char>) -> bool {
    s.len() > 0 && s[0] == '-'
}

/// The signed number the text denotes, before any range check.
pub open spec fn int_value_of(s: Seq<char>) -> int {
    if int_is_negative(s) {
        -dec_val(int_digits_of(s))
    } else {
        dec_val(int_digits_of(s))
    }
}

/// The 64-bit integer the text denotes: an optional sign followed by at least
/// one decimal digit, with nothing else, and a value that fits in an `i64`.
pub open spec fn i64_from_text(s: Seq<char>) -> Option<i64> {
    if int_digits_of(s).len() == 0 || !all_digits(int_digits_of(s)) {
        None
    } else if int_value_of(s) < -0x8000_0000_0000_0000 || int_value_of(s)
        > 0x7fff_ffff_ffff_ffff {
        None
    } else {
        Some(int_value_of(s) as i64)
    }
}

proof fn lemma_dec_val_nonneg(s: Seq<char>)
    requires
        all_digits(s),
    ensures
        dec_val(s) >= 0,
    decreases s.len(),
{
    if s.len() > 0 {
        assert(all_digits(s.drop_last()));
        lemma_dec_val_nonneg(s.drop_last());
    }
}

proof fn lemma_dec_val_step(s: Seq<char>, k: int)
    requires
        0 <= k < s.len(),
    ensures
        dec_val(s.take(k + 1)) == dec_val(s.take(k)) * 10 + digit_val(s[k]),
{
    assert(s.take(k + 1).drop_last() =~= s.take(k));
    assert(s.take(k + 1).last() == s[k]);
}

proof fn lemma_dec_val_grows(s: Seq<char>, k: int)
    requires
        0 <= k <= s.len(),
        all_digits(s),
    ensures
        dec_val(s) >= dec_val(s.take(k)),
        dec_val(s.take(k)) >= 0,
    decreases s.len() - k,
{
    assert(all_digits(s.take(k))) by {
        assert(forall|i: int|
            0 <= i < s.take(k).len() ==> #[trigger] s.take(k)[i] == s[i] && is_digit_char(s[i]));
    }
    lemma_dec_val_nonneg(s.take(k));
    if k < s.len() {
        lemma_dec_val_step(s, k);
        lemma_dec_val_grows(s, k + 1);
    } else {
        assert(s.take(k) =~= s);
    }
}

/// Parse a 64-bit integer: optional sign, then decimal digits only.
pub fn parse_i64(s: &str) -> (r: Option<i64>)
    ensures
        r == i64_from_text(s@),
{
    let n = s.unicode_len();
    let mut start: usize = 0;
    let mut neg = false;
    if n > 0 {
        let c = s.get_char(0);
        if c == '-' {
            neg = true;
            start = 1;
        } else if c == '+' {
            start = 1;
        }
    }
    let ghost ds = int_digits_of(s@);
    proof {
        assert(ds =~= s@.skip(start as int));
    }
    if start >= n {
        return None;
    }
    let mut acc: u64 = 0;
    let mut j: usize = start;
    while j < n
        invariant
            start <= j <= n,
            n == s@.len(),
            start <= 1,
            ds == s@.skip(start as int),
            ds == int_digits_of(s@),
            neg == int_is_negative(s@),
            forall|k: int| 0 <= k < j - start ==> is_digit_char(#[trigger] ds[k]),
            acc == dec_val(ds.take(j - start)),
            acc <= 0x8000_0000_0000_0000,
        decreases n - j,
    {
        let c = s.get_char(j);
        let u = c as u32;
        proof {
            assert(ds[j - start] == s@[j as int]);
        }
        if !(48 <= u && u <= 57) {
            proof {
                assert(!is_digit_char(ds[j - start]));
                assert(!all_digits(ds));
            }
            return None;
        }
        let d = (u - 48) as u64;
        proof {
            lemma_dec_val_step(ds, j - start);
        }
        if acc > 1_844_674_407_370_955_160u64 || acc * 10 > u64::MAX - d {
            proof {
                assert(digit_val(ds[j - start]) == d as int);
                assert(dec_val(ds.take(j - start + 1)) == acc * 10 + d as int);
                if all_digits(ds) {
                    lemma_dec_val_grows(ds, j - start + 1);
                    assert(dec_val(ds) > 0x8000_0000_0000_0000);
                    assert(i64_from_text(s@) is None);
                } else {
                    assert(i64_from_text(s@) is None);
                }
            }
            return None;
        }
        acc = acc * 10 + d;
        if acc > 0x8000_0000_0000_0000u64 {
            proof {
                assert(digit_val(ds[j - start]) == d as int);
                assert(dec_val(ds.take(j - start + 1)) == acc as int);
                if all_digits(ds) {
                    lemma_dec_val_grows(ds, j - start + 1);
                    assert(dec_val(ds) > 0x8000_0000_0000_0000);
                    assert(i64_from_text(s@) is None);
                } else {
                    assert(i64_from_text(s@) is None);
                }
            }
            return None;
        }
        j += 1;
    }
    proof {
        assert(ds.take(n - start) =~= ds);
        assert(all_digits(ds));
        lemma_dec_val_nonneg(ds);
    }
    if neg {
        if acc == 0x8000_0000_0000_0000u64 {
            Some(i64::MIN)
        } else {
            Some(-(acc as i64))
        }
    } else {
        if acc <= 0x7fff_ffff_ffff_ffffu64 {
            Some(acc as i64)
        } else {
            None
        }
    }
}

/// The decimal digit character for a value between 0 and 9.
pub open spec fn digit_char(d: int) -> char {
    if d == 0 {
        '0'
    } else if d == 1 {
        '1'
    } else if d == 2 {
        '2'
    } else if d == 3 {
        '3'
    } else if d == 4 {
        '4'
    } else if d == 5 {
        '5'
    } else if d == 6 {
        '6'
    } else if d == 7 {
        '7'
    } else if d == 8 {
        '8'
    } else {
        '9'
    }
}

/// The decimal rendering of a non-negative number.
pub open spec fn nat_text(n: int) -> Seq<char>
    decreases n,
{
    if n < 10 {
        seq![digit_char(n)]
    } else {
        nat_text(n / 10).push(digit_char(n % 10))
    }
}

/// The decimal rendering of an integer, with a leading minus when negative.
pub open spec fn int_text(i: int) -> Seq<char> {
    if i < 0 {
        seq!['-'] + nat_text(-i)
    } else {
        nat_text(i)
    }
}

fn push_digit(out: &mut String, d: u64)
    requires
        d <= 9,
    ensures
        final(out)@ == old(out)@.push(digit_char(d as int)),
{
    if d == 0 {
        out.push('0')
    } else if d == 1 {
        out.push('1')
    } else if d == 2 {
        out.push('2')
    } else if d == 3 {
        out.push('3')
    } else if d == 4 {
        out.push('4')
    } else if d == 5 {
        out.push('5')
    } else if d == 6 {
        out.push('6')
    } else if d == 7 {
        out.push('7')
    } else if d == 8 {
        out.push('8')
    } else {
        out.push('9')
    }
}

fn push_nat_text(out: &mut String, n: u64)
    ensures
        final(out)@ == old(out)@ + nat_text(n as int),
    decreases n,
{
    if n >= 10 {
        push_nat_text(out, n / 10);
        push_digit(out, n % 10);
        proof {
            assert(out@ =~= old(out)@ + nat_text(n as int));
        }
    } else {
        push_digit(out, n);
        proof {
            assert(out@ =~= old(out)@ + nat_text(n as int));
        }
    }
}

/// Render a 64-bit integer in decimal.
pub fn render_i64(i: i64) -> (r: String)
    ensures
        r@ == int_text(i as int),
{
    let mut out = String::new();
    if i < 0 {
        out.push('-');
        let mag = (-(i as i128)) as u64;
        push_nat_text(&mut out, mag);
        proof {
            assert(out@ =~= int_text(i as int));
        }
    } else {
        push_nat_text(&mut out, i as u64);
        proof {
            assert(out@ =~= int_text(i as int));
        }
    }
    out
}

/// Case-insensitive match against `true`.
pub open spec fn is_true_ci(s: Seq<char>) -> bool {
    s.len() == 4 && (s[0] == 't' || s[0] == 'T') && (s[1] == 'r' || s[1] == 'R') && (s[2] == 'u'
        || s[2] == 'U') && (s[3] == 'e' || s[3] == 'E')
}

/// Case-insensitive match against `false`.
pub open spec fn is_false_ci(s: Seq<char>) -> bool {
    s.len() == 5 && (s[0] == 'f' || s[0] == 'F') && (s[1] == 'a' || s[1] == 'A') && (s[2] == 'l'
        || s[2] == 'L') && (s[3] == 's' || s[3] == 'S') && (s[4] == 'e' || s[4] == 'E')
}

pub fn is_true_token(s: &str) -> (r: bool)
    ensures
        r == is_true_ci(s@),
{
    let n = s.unicode_len();
    n == 4 && {
        let c0 = s.get_char(0);
        let c1 = s.get_char(1);
        let c2 = s.get_char(2);
        let c3 = s.get_char(3);
        (c0 == 't' || c0 == 'T') && (c1 == 'r' || c1 == 'R') && (c2 == 'u' || c2 == 'U') && (c3
            == 'e' || c3 == 'E')
    }
}

pub fn is_false_token(s: &str) -> (r: bool)
    ensures
        r == is_false_ci(s@),
{
    let n = s.unicode_len();
    n == 5 && {
        let c0 = s.get_char(0);
        let c1 = s.get_char(1);
        let c2 = s.get_char(2);
        let c3 = s.get_char(3);
        let c4 = s.get_char(4);
        (c0 == 'f' || c0 == 'F') && (c1 == 'a' || c1 == 'A') && (c2 == 'l' || c2 == 'L') && (c3
            == 's' || c3 == 'S') && (c4 == 'e' || c4 == 'E')
    }
}

/// What `ValueType::get_value` produces from raw text, when anything: Bool
/// accepts case-insensitive `true`/`false` only; Int and Float need a strict
/// numeric parse of the trimmed text; String always succeeds with the trimmed
/// text.
pub open spec fn get_value_model(t: ValueType, s: Seq<char>) -> Option<ValueModel> {
    let tr = trim_model(s);
    match t {
        ValueType::Bool => if is_true_ci(tr) {
            Some(ValueModel::Bool(true))
        } else if is_false_ci(tr) {
            Some(ValueModel::Bool(false))
        } else {
            None
        },
        ValueType::Int => match i64_from_text(tr) {
            Some(i) => Some(ValueModel::Int(i)),
            None => None,
        },
        ValueType::Float => match f64_from_text(tr) {
            Some(bits) => Some(ValueModel::Float(bits)),
            None => None,
        },
        ValueType::String => Some(ValueModel::String(tr)),
    }
}

impl ValueType {
    /// Convert raw text into a value of this type, or fail with
    /// `InvalidFieldValue`.
    pub fn get_value(&self, s: &str) -> (r: Result<Value, MyDatabaseError>)
        ensures
            match r {
                Ok(v) => get_value_model(*self, s@) == Some(v@),
                Err(e) => get_value_model(*self, s@) is None && e@ == ErrModel::InvalidFieldValue,
            },
    {
        let t = trim_str(s);
        match self {
            ValueType::Bool => {
                if is_true_token(t) {
                    Ok(Value::Bool(true))
                } else if is_false_token(t) {
                    Ok(Value::Bool(false))
                } else {
                    Err(MyDatabaseError::InvalidFieldValue)
                }
            },
            ValueType::Int => {
                match parse_i64(t) {
                    Some(i) => Ok(Value::Int(i)),
                    None => Err(MyDatabaseError::InvalidFieldValue),
                }
            },
            ValueType::Float => {
                match parse_f64_bits(t) {
                    Some(bits) => Ok(Value::Float(bits)),
                    None => Err(MyDatabaseError::InvalidFieldValue),
                }
            },
            ValueType::String => Ok(Value::String(t.to_owned())),
        }
    }
}

/// The canonical text of a value: `true`/`false` for booleans, decimal for
/// integers, the decimal rendering of the double for floats, and the string
/// itself.
pub open spec fn value_text_model(m: ValueModel) -> Seq<char> {
    match m {
        ValueModel::Bool(b) => if b {
            "true"@
        } else {
            "false"@
        },
        ValueModel::Int(i) => int_text(i as int),
        ValueModel::Float(bits) => f64_text(bits),
        ValueModel::String(s) => s,
    }
}

impl Value {
    /// Render the value as text.
    pub fn to_text(&self) -> (r: String)
        ensures
            r@ == value_text_model(self@),
    {
        match self {
            Value::Bool(b) => {
                if *b {
                    String::from_str("true")
                } else {
                    String::from_str("false")
                }
            },
            Value::Int(i) => render_i64(*i),
            Value::Float(bits) => f64_to_text(*bits),
            Value::String(s) => s.clone(),
        }
    }
}

proof fn lemma_digit_char_val(d: int)
    requires
        0 <= d <= 9,
    ensures
        digit_val(digit_char(d)) == d,
        is_digit_char(digit_char(d)),
{
    if d == 0 {
        assert('0' as u32 == 48);
    } else if d == 1 {
        assert('1' as u32 == 49);
    } else if d == 2 {
        assert('2' as u32 == 50);
    } else if d == 3 {
        assert('3' as u32 == 51);
    } else if d == 4 {
        assert('4' as u32 == 52);
    } else if d == 5 {
        assert('5' as u32 == 53);
    } else if d == 6 {
        assert('6' as u32 == 54);
    } else if d == 7 {
        assert('7' as u32 == 55);
    } else if d == 8 {
        assert('8' as u32 == 56);
    } else {
        assert('9' as u32 == 57);
    }
}

proof fn lemma_nat_text_digits(n: int)
    requires
        n >= 0,
    ensures
        all_digits(nat_text(n)),
        nat_text(n).len() > 0,
        dec_val(nat_text(n)) == n,
    decreases n,
{
    if n < 10 {
        lemma_digit_char_val(n);
        let s = nat_text(n);
        assert(s.len() == 1);
        assert(s.drop_last() =~= Seq::<char>::empty());
        assert(dec_val(s) == dec_val(s.drop_last()) * 10 + digit_val(s.last()));
    } else {
        lemma_nat_text_digits(n / 10);
        let p = nat_text(n / 10);
        let s = nat_text(n);
        assert(s == p.push(digit_char(n % 10)));
        assert(s.drop_last() =~= p);
        assert(s.last() == digit_char(n % 10));
        lemma_digit_char_val(n % 10);
        assert(forall|i: int| 0 <= i < p.len() ==> s[i] == p[i]);
        assert(all_digits(s));
        assert(dec_val(s) == dec_val(p) * 10 + n % 10);
    }
}

/// Law: converting a produced value back from its own text yields the value
/// again. It holds for every Bool and Int value and for every String value
/// that carries trimmed text (the only kind `get_value` produces); the text
/// of a Float is opaque to the library, so Float is left out here and covered
/// by tests.
pub proof fn lemma_get_value_round_trip(t: ValueType, m: ValueModel)
    requires
        has_type(m, t),
        !(m is Float),
        m matches ValueModel::String(s) ==> trim_model(s) == s,
    ensures
        get_value_model(t, value_text_model(m)) == Some(m),
{
    match m {
        ValueModel::Bool(b) => {
            if b {
                reveal_strlit("true");
                let s = "true"@;
                assert(s.len() == 4 && s[0] == 't' && s[1] == 'r' && s[2] == 'u' && s[3] == 'e');
                assert(trim_model(s) == s) by {
                    assert(!is_space_char(s[0]));
                    assert(!is_space_char(s.last()));
                }
                assert(is_true_ci(trim_model(s)));
            } else {
                reveal_strlit("false");
                let s = "false"@;
                assert(s.len() == 5 && s[0] == 'f' && s[1] == 'a' && s[2] == 'l' && s[3] == 's'
                    && s[4] == 'e');
                assert(trim_model(s) == s) by {
                    assert(!is_space_char(s[0]));
                    assert(!is_space_char(s.last()));
                }
                assert(!is_true_ci(trim_model(s)));
                assert(is_false_ci(trim_model(s)));
            }
        },
        ValueModel::Int(i) => {
            let s = int_text(i as int);
            if i < 0 {
                lemma_nat_text_digits(-(i as int));
                let ds = nat_text(-(i as int));
                assert(s == seq!['-'] + ds);
                assert(s.len() == 1 + ds.len());
                assert(s[0] == '-');
                assert(!is_space_char(s[0]));
                assert(s.last() == ds.last());
                assert(is_digit_char(s.last()));
                assert(!is_space_char(s.last()));
                assert(trim_model(s) == s);
                assert(int_digits_of(s) =~= ds);
                assert(int_is_negative(s));
                assert(i64_from_text(s) == Some(i));
            } else {
                lemma_nat_text_digits(i as int);
                let ds = nat_text(i as int);
                assert(s == ds);
                assert(is_digit_char(s[0]));
                assert(!is_space_char(s[0]));
                assert(is_digit_char(s.last()));
                assert(!is_space_char(s.last()));
                assert(trim_model(s) == s);
                assert(s[0] != '-' && s[0] != '+');
                assert(int_digits_of(s) == s);
                assert(i64_from_text(s) == Some(i));
            }
        },
        ValueModel::String(s) => {
            assert(get_value_model(ValueType::String, s) == Some(ValueModel::String(s)));
        },
        ValueModel::Float(_) => {
            assert(false);
        },
    }
}

} // verus!
