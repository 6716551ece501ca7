//! The value inference engine: classifies the raw value substring of a
//! header card into a typed variant.  Attempts are made in a fixed order —
//! boolean literal, integer literal, real literal, quoted text — and
//! anything else is kept verbatim as text, so that an unrecognized value
//! shape never fails a whole header.

use vstd::prelude::*;

use crate::text::is_ws;
use crate::text::trim;
use crate::text::trim_bytes;

verus! {

/// Mathematical model of a card value.
pub enum ValueModel {
    Boolean(bool),
    Integer(int),
    Real(Seq<u8>),
    Text(Seq<u8>),
    Undefined,
}

/// The lexical type of one header card's value.
///
/// Numeric literals with a fractional part or an exponent are kept as their
/// trimmed literal text: their machine floating reading is no part of this
/// crate's model, and callers that need one can convert the literal.
#[derive(Debug)]
pub enum HeaderValueType {
    /// A logical constant, written `T` or `F`.
    Boolean(bool),
    /// A signed decimal integer with no fractional part or exponent.
    Integer(i64),
    /// A decimal literal with a fractional part or an exponent, kept as its
    /// trimmed literal text.
    Real(Vec<u8>),
    /// A quoted string with the quotes stripped and doubled quotes
    /// collapsed to one, or an unrecognized literal kept verbatim.
    Text(Vec<u8>),
    /// The card carried no value field.
    Undefined,
}

impl View for HeaderValueType {
    type V = ValueModel;

    open spec fn view(&self) -> ValueModel {
        match self {
            HeaderValueType::Boolean(b) => ValueModel::Boolean(*b),
            HeaderValueType::Integer(n) => ValueModel::Integer(*n as int),
            HeaderValueType::Real(s) => ValueModel::Real(s@),
            HeaderValueType::Text(s) => ValueModel::Text(s@),
            HeaderValueType::Undefined => ValueModel::Undefined,
        }
    }
}

pub open spec fn is_digit(b: u8) -> bool {
    48 <= b <= 57
}

pub open spec fn is_sign(b: u8) -> bool {
    b == 43 || b == 45
}

/// `t` without its optional leading sign.
pub open spec fn strip_sign(t: Seq<u8>) -> Seq<u8> {
    if t.len() > 0 && is_sign(t[0]) {
        t.drop_first()
    } else {
        t
    }
}

pub open spec fn all_digits(s: Seq<u8>) -> bool {
    forall|i: int| 0 <= i < s.len() ==> is_digit(s[i])
}

/// An optionally signed, non-empty run of decimal digits.
pub open spec fn is_int_literal(t: Seq<u8>) -> bool {
    strip_sign(t).len() > 0 && all_digits(strip_sign(t))
}

/// The number denoted by a run of decimal digits.
pub open spec fn digits_value(s: Seq<u8>) -> int
    decreases s.len(),
{
    if s.len() == 0 {
        0
    } else {
        digits_value(s.drop_last()) * 10 + (s.last() - 48)
    }
}

/// The number denoted by an integer literal, sign included.
pub open spec fn int_literal_value(t: Seq<u8>) -> int {
    if t.len() > 0 && t[0] == 45 {
        -digits_value(t.drop_first())
    } else {
        digits_value(strip_sign(t))
    }
}

pub open spec fn fits_i64(v: int) -> bool {
    i64::MIN <= v <= i64::MAX
}

pub open spec fn count_dots(s: Seq<u8>) -> int
    decreases s.len(),
{
    if s.len() == 0 {
        0
    } else {
        count_dots(s.drop_last()) + if s.last() == 46 {
            1int
        } else {
            0int
        }
    }
}

/// Digits with at most one decimal point and at least one digit.
pub open spec fn is_mantissa(m: Seq<u8>) -> bool {
    &&& forall|i: int| 0 <= i < m.len() ==> is_digit(m[i]) || m[i] == 46
    &&& count_dots(m) <= 1
    &&& m.len() >= count_dots(m) + 1
}

/// Position of the first exponent marker (`e` or `E`) at or after `i`.
pub open spec fn find_exp_marker(s: Seq<u8>, i: int) -> Option<int>
    decreases s.len() - i,
{
    if i < 0 || i >= s.len() {
        None
    } else if s[i] == 101 || s[i] == 69 {
        Some(i)
    } else {
        find_exp_marker(s, i + 1)
    }
}

/// An optionally signed, non-empty run of digits after the marker.
pub open spec fn is_exponent(x: Seq<u8>) -> bool {
    strip_sign(x).len() > 0 && all_digits(strip_sign(x))
}

/// An optionally signed decimal literal, with an optional fractional part
/// and an optional exponent.
pub open spec fn is_real_literal(t: Seq<u8>) -> bool {
    let b = strip_sign(t);
    match find_exp_marker(b, 0) {
        Some(p) => is_mantissa(b.take(p)) && is_exponent(b.skip(p + 1)),
        None => is_mantissa(b),
    }
}

/// First and last byte are the quote character.
pub open spec fn is_quoted(t: Seq<u8>) -> bool {
    t.len() >= 2 && t[0] == 39 && t[t.len() - 1] == 39
}

/// Doubled quote characters collapsed to one.
pub open spec fn unescape_quotes(s: Seq<u8>) -> Seq<u8>
    decreases s.len(),
{
    if s.len() == 0 {
        Seq::empty()
    } else if s.len() >= 2 && s[0] == 39 && s[1] == 39 {
        seq![39u8] + unescape_quotes(s.skip(2))
    } else {
        seq![s[0]] + unescape_quotes(s.skip(1))
    }
}

pub open spec fn bool_literal(t: Seq<u8>) -> Option<bool> {
    if t == seq![84u8] {
        Some(true)
    } else if t == seq![70u8] {
        Some(false)
    } else {
        None
    }
}

/// What `infer` returns for a raw value substring: the attempts are made
/// in a fixed priority order and the first match wins.
pub open spec fn infer_model(raw: Seq<u8>) -> ValueModel {
    let t = trim(raw);
    match bool_literal(t) {
        Some(b) => ValueModel::Boolean(b),
        None => if is_int_literal(t) && fits_i64(int_literal_value(t)) {
            ValueModel::Integer(int_literal_value(t))
        } else if is_real_literal(t) {
            ValueModel::Real(t)
        } else if is_quoted(t) {
            ValueModel::Text(unescape_quotes(t.subrange(1, t.len() - 1)))
        } else {
            ValueModel::Text(t)
        },
    }
}

proof fn lemma_digits_value_nonneg(s: Seq<u8>)
    requires
        all_digits(s),
    ensures
        digits_value(s) >= 0,
    decreases s.len(),
{
    if s.len() > 0 {
        assert(all_digits(s.drop_last()));
        lemma_digits_value_nonneg(s.drop_last());
    }
}

proof fn lemma_digits_prefix_le(s: Seq<u8>, k: int)
    requires
        all_digits(s),
        0 <= k <= s.len(),
    ensures
        digits_value(s.take(k)) <= digits_value(s),
    decreases s.len(),
{
    if k < s.len() {
        assert(all_digits(s.drop_last()));
        assert(s.take(k) =~= s.drop_last().take(k));
        lemma_digits_prefix_le(s.drop_last(), k);
        lemma_digits_value_nonneg(s.drop_last());
    } else {
        assert(s.take(k) =~= s);
    }
}

/// Decimal decoding of an integer literal, rejecting any other shape and
/// any value outside the `i64` range.
pub fn parse_i64(t: &[u8]) -> (r: Option<i64>)
    ensures
        match r {
            Some(v) => is_int_literal(t@) && fits_i64(int_literal_value(t@)) && v
                == int_literal_value(t@),
            None => !(is_int_literal(t@) && fits_i64(int_literal_value(t@))),
        },
{
    let n = t.len();
    let neg = n > 0 && t[0] == 45;
    let start: usize = if n > 0 && (t[0] == 43 || t[0] == 45) {
        1
    } else {
        0
    };
    let ghost b = strip_sign(t@);
    proof {
        assert(b =~= t@.skip(start as int));
    }
    if n == start {
        proof {
            assert(b.len() == 0);
        }
        return None;
    }
    let lim: u64 = 0x8000_0000_0000_0000;
    let mut m: u64 = 0;
    let mut i: usize = start;
    while i < n
        invariant
            start <= i <= n == t@.len(),
            b == t@.skip(start as int),
            b == strip_sign(t@),
            b.len() == n - start,
            lim == 0x8000_0000_0000_0000u64,
            forall|k: int| 0 <= k < i - start ==> is_digit(b[k]),
            m == digits_value(b.take(i - start)),
            m <= lim,
        decreases n - i,
    {
        let d = t[i];
        if !(48 <= d && d <= 57) {
            proof {
                assert(b[i - start] == t@[i as int]);
                assert(!all_digits(b));
            }
            return None;
        }
        proof {
            assert(b.take(i - start + 1).drop_last() =~= b.take(i - start));
            assert(b.take(i - start + 1).last() == t@[i as int]);
        }
        let dv = (d - 48) as u64;
        if m > lim / 10 || m * 10 > lim - dv {
            proof {
                let grown = b.take(i - start + 1);
                assert(digits_value(grown) == m * 10 + dv);
                assert(digits_value(grown) > lim);
                if is_int_literal(t@) {
                    assert(forall|k: int| 0 <= k < b.len() ==> is_digit(#[trigger] b[k]));
                    lemma_digits_prefix_le(b, i - start + 1);
                    assert(digits_value(b) > lim);
                    if t@[0] == 45 {
                        assert(t@.drop_first() =~= b);
                        assert(int_literal_value(t@) == -digits_value(b));
                        assert(!fits_i64(int_literal_value(t@)));
                    } else {
                        assert(int_literal_value(t@) == digits_value(b));
                        assert(!fits_i64(int_literal_value(t@)));
                    }
                }
            }
            return None;
        }
        m = m * 10 + dv;
        i += 1;
    }
    proof {
        assert(b.take(n - start) =~= b);
        assert(m == digits_value(b));
        assert(is_int_literal(t@));
        lemma_digits_value_nonneg(b);
        if t@[0] == 45 {
            assert(t@.drop_first() =~= b);
            assert(int_literal_value(t@) == -digits_value(b));
        } else {
            assert(int_literal_value(t@) == digits_value(b));
        }
    }
    if neg {
        if m == lim {
            return Some(i64::MIN);
        }
        Some(-(m as i64))
    } else {
        if m == lim {
            proof {
                assert(int_literal_value(t@) > i64::MAX);
            }
            return None;
        }
        Some(m as i64)
    }
}

/// Whether `t` is a real literal, by one left-to-right scan.
#[verifier::rlimit(30)]
pub fn check_real(t: &[u8]) -> (r: bool)
    ensures
        r == is_real_literal(t@),
{
    let n = t.len();
    let start: usize = if n > 0 && (t[0] == 43 || t[0] == 45) {
        1
    } else {
        0
    };
    let ghost b = strip_sign(t@);
    proof {
        assert(b =~= t@.skip(start as int));
    }
    // Find the exponent marker, if any.
    let mut p: usize = start;
    while p < n && !(t[p] == 101 || t[p] == 69)
        invariant
            start <= p <= n == t@.len(),
            b == t@.skip(start as int),
            b == strip_sign(t@),
            find_exp_marker(b, 0) == find_exp_marker(b, p - start),
            forall|k: int| 0 <= k < p - start ==> !(b[k] == 101 || b[k] == 69),
        decreases n - p,
    {
        proof {
            assert(b[p - start] == t@[p as int]);
        }
        p += 1;
    }
    let ghost man = b.take(p - start);
    proof {
        if p < n {
            assert(b[p - start] == t@[p as int]);
            assert(find_exp_marker(b, 0) == Some(p - start));
        } else {
            assert(find_exp_marker(b, 0).is_none());
            assert(man =~= b);
        }
    }
    // Check the mantissa: digits with at most one decimal point.
    if p == start {
        proof {
            assert(man.len() == 0);
            assert(!is_mantissa(man));
        }
        return false;
    }
    let mut dots: usize = 0;
    let mut i: usize = start;
    while i < p
        invariant
            start <= i <= p <= n == t@.len(),
            b == t@.skip(start as int),
            b == strip_sign(t@),
            man == b.take(p - start),
            p < n ==> find_exp_marker(b, 0) == Some(p - start as int),
            p == n ==> find_exp_marker(b, 0).is_none() && man == b,
            forall|k: int| 0 <= k < i - start ==> is_digit(man[k]) || man[k] == 46,
            dots == count_dots(man.take(i - start)),
            dots <= i - start,
        decreases p - i,
    {
        let d = t[i];
        proof {
            assert(man[i - start] == t@[i as int]);
            assert(man.take(i - start + 1).drop_last() =~= man.take(i - start));
            assert(man.take(i - start + 1).last() == t@[i as int]);
        }
        if d == 46 {
            dots += 1;
        } else if 48 <= d && d <= 57 {
        } else {
            proof {
                assert(!(is_digit(man[i - start]) || man[i - start] == 46));
                assert(!is_mantissa(man));
            }
            return false;
        }
        i += 1;
    }
    proof {
        assert(man.take(p - start) =~= man);
        assert(dots == count_dots(man));
    }
    if dots > 1 {
        proof {
            assert(!is_mantissa(man));
        }
        return false;
    }
    if p - start < dots + 1 {
        proof {
            assert(!is_mantissa(man));
        }
        return false;
    }
    proof {
        assert(is_mantissa(man));
    }
    if p == n {
        return true;
    }
    // Check the exponent: an optionally signed, non-empty run of digits.
    let ghost ex = b.skip(p - start + 1);
    proof {
        assert(ex =~= t@.skip(p + 1));
    }
    let estart: usize = if p + 1 < n && (t[p + 1] == 43 || t[p + 1] == 45) {
        p + 2
    } else {
        p + 1
    };
    let ghost ed = strip_sign(ex);
    proof {
        assert(ed =~= t@.skip(estart as int));
    }
    if estart == n {
        proof {
            assert(ed.len() == 0);
            assert(!is_exponent(ex));
            assert(find_exp_marker(b, 0) == Some(p - start as int));
            assert(ex == b.skip(p - start + 1));
            assert(!is_real_literal(t@));
        }
        return false;
    }
    let mut j: usize = estart;
    while j < n
        invariant
            estart <= j <= n == t@.len(),
            ed == t@.skip(estart as int),
            ed == strip_sign(ex),
            ex == b.skip(p - start + 1),
            b == strip_sign(t@),
            start <= p < n,
            find_exp_marker(b, 0) == Some(p - start as int),
            forall|k: int| 0 <= k < j - estart ==> is_digit(ed[k]),
        decreases n - j,
    {
        let d = t[j];
        if !(48 <= d && d <= 57) {
            proof {
                assert(ed[j - estart] == t@[j as int]);
                assert(!all_digits(ed));
            }
            return false;
        }
        proof {
            assert(ed[j - estart] == t@[j as int]);
        }
        j += 1;
    }
    proof {
        assert(forall|k: int| 0 <= k < ed.len() ==> is_digit(#[trigger] ed[k]));
        assert(is_exponent(ex));
    }
    true
}

/// Doubled quotes collapsed to one, as a copy.
pub fn collapse_quotes(s: &[u8]) -> (r: Vec<u8>)
    ensures
        r@ == unescape_quotes(s@),
{
    let n = s.len();
    let mut out: Vec<u8> = Vec::new();
    let mut i: usize = 0;
    proof {
        assert(s@.skip(0) =~= s@);
        assert(out@ + unescape_quotes(s@.skip(0)) =~= unescape_quotes(s@));
    }
    while i < n
        invariant
            0 <= i <= n == s@.len(),
            out@ + unescape_quotes(s@.skip(i as int)) == unescape_quotes(s@),
        decreases n - i,
    {
        let ghost rest = s@.skip(i as int);
        if s[i] == 39 && i + 1 < n && s[i + 1] == 39 {
            proof {
                assert(rest[0] == 39 && rest[1] == 39);
                assert(rest.skip(2) =~= s@.skip(i + 2));
                assert(unescape_quotes(rest) == seq![39u8] + unescape_quotes(s@.skip(i + 2)));
            }
            out.push(39);
            proof {
                assert(out@ + unescape_quotes(s@.skip(i + 2)) =~= unescape_quotes(s@));
            }
            i += 2;
        } else {
            proof {
                assert(rest[0] == s@[i as int]);
                assert(rest.skip(1) =~= s@.skip(i + 1));
                assert(unescape_quotes(rest) == seq![s@[i as int]] + unescape_quotes(
                    s@.skip(i + 1),
                ));
            }
            let c = s[i];
            out.push(c);
            proof {
                assert(out@ + unescape_quotes(s@.skip(i + 1)) =~= unescape_quotes(s@));
            }
            i += 1;
        }
    }
    proof {
        assert(s@.skip(n as int).len() == 0);
        assert(out@ =~= unescape_quotes(s@));
    }
    out
}

/// Classifies a raw value substring, first match in a fixed order:
/// boolean literal, integer, real, quoted text, and verbatim text last.
pub fn infer(raw: &[u8]) -> (v: HeaderValueType)
    ensures
        v@ == infer_model(raw@),
{
    let t = trim_bytes(raw);
    if t.len() == 1 && t[0] == 84 {
        proof {
            assert(t@ =~= seq![84u8]);
        }
        return HeaderValueType::Boolean(true);
    }
    if t.len() == 1 && t[0] == 70 {
        proof {
            assert(t@ =~= seq![70u8]);
        }
        return HeaderValueType::Boolean(false);
    }
    proof {
        if t@ == seq![84u8] {
            assert(t@.len() == 1 && t@[0] == 84);
        }
        if t@ == seq![70u8] {
            assert(t@.len() == 1 && t@[0] == 70);
        }
        assert(bool_literal(t@).is_none());
    }
    match parse_i64(t.as_slice()) {
        Some(v) => {
            return HeaderValueType::Integer(v);
        },
        None => {},
    }
    if check_real(t.as_slice()) {
        return HeaderValueType::Real(t);
    }
    if t.len() >= 2 && t[0] == 39 && t[t.len() - 1] == 39 {
        let inner = vstd::slice::slice_subrange(t.as_slice(), 1, t.len() - 1);
        let out = collapse_quotes(inner);
        return HeaderValueType::Text(out);
    }
    proof {
        assert(!is_quoted(t@));
    }
    HeaderValueType::Text(t)
}

proof fn lemma_no_marker_in_digits(s: Seq<u8>, i: int)
    requires
        all_digits(s),
        0 <= i,
    ensures
        find_exp_marker(s, i).is_none(),
    decreases s.len() - i,
{
    if i < s.len() {
        assert(is_digit(s[i]));
        lemma_no_marker_in_digits(s, i + 1);
    }
}

proof fn lemma_digits_count_dots(s: Seq<u8>)
    requires
        all_digits(s),
    ensures
        count_dots(s) == 0,
    decreases s.len(),
{
    if s.len() > 0 {
        assert(is_digit(s.last()));
        assert(all_digits(s.drop_last()));
        lemma_digits_count_dots(s.drop_last());
    }
}

/// Every integer literal also has the shape of a real literal; `infer`
/// classifies it as Integer only because the integer attempt comes first.
pub proof fn lemma_int_literal_is_real(t: Seq<u8>)
    requires
        is_int_literal(t),
    ensures
        is_real_literal(t),
{
    let b = strip_sign(t);
    lemma_no_marker_in_digits(b, 0);
    lemma_digits_count_dots(b);
}

/// Law: a value substring whose trimmed form is a boolean literal is
/// classified Boolean — never Integer, Real or Text.
pub proof fn lemma_infer_boolean(raw: Seq<u8>)
    requires
        trim(raw) == seq![84u8] || trim(raw) == seq![70u8],
    ensures
        infer_model(raw) == ValueModel::Boolean(trim(raw) == seq![84u8]),
{
    assert(seq![84u8][0] == 84);
    assert(seq![70u8][0] == 70);
}

/// Law: a purely numeric integer literal whose value fits `i64` is
/// classified Integer with the exact decoded value.
pub proof fn lemma_infer_integer(raw: Seq<u8>)
    requires
        is_int_literal(trim(raw)),
        fits_i64(int_literal_value(trim(raw))),
    ensures
        infer_model(raw) == ValueModel::Integer(int_literal_value(trim(raw))),
{
    let t = trim(raw);
    if t == seq![84u8] || t == seq![70u8] {
        assert(strip_sign(t) == t);
        assert(is_digit(strip_sign(t)[0]));
        assert(false);
    }
}

/// Law: a literal with a decimal point or an exponent marker (and any
/// integer literal too large for `i64`) is classified Real, keeping the
/// trimmed literal unchanged.
pub proof fn lemma_infer_real(raw: Seq<u8>)
    requires
        is_real_literal(trim(raw)),
        !(is_int_literal(trim(raw)) && fits_i64(int_literal_value(trim(raw)))),
    ensures
        infer_model(raw) == ValueModel::Real(trim(raw)),
{
    let t = trim(raw);
    if t == seq![84u8] || t == seq![70u8] {
        let b = strip_sign(t);
        assert(b == t);
        assert(!(b[0] == 101 || b[0] == 69));
        assert(find_exp_marker(b, 0) == find_exp_marker(b, 1));
        assert(find_exp_marker(b, 1).is_none());
        assert(is_mantissa(b));
        assert(is_digit(b[0]) || b[0] == 46);
        assert(false);
    }
}

/// Law: a malformed numeric-looking string — not a boolean, integer or
/// real literal and not quoted — falls through to Text holding the
/// original trimmed substring unchanged.
pub proof fn lemma_infer_malformed(raw: Seq<u8>)
    requires
        bool_literal(trim(raw)).is_none(),
        !is_real_literal(trim(raw)),
        !is_quoted(trim(raw)),
    ensures
        infer_model(raw) == ValueModel::Text(trim(raw)),
{
    let t = trim(raw);
    if is_int_literal(t) {
        lemma_int_literal_is_real(t);
        assert(false);
    }
}

} // verus!
