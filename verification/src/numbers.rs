//! Numeric literals: the decimal grammar of integers and floats, a verified
//! integer reader and writer, and a verified float-grammar check.
//!
//! An integer numeral is an optional sign followed by decimal digits, and
//! its value must fit in a 64-bit signed integer. A float numeral keeps its
//! raw text; this module only decides whether that text is a well-formed
//! decimal float (optional minus, digits with at most one point, optional
//! exponent).

use vstd::prelude::*;

verus! {

use vstd::string::StringExecFns;

// ---------------------------------------------------------------------------
// Digits
// ---------------------------------------------------------------------------
/// A decimal digit character.
pub open spec fn is_digit(c: char) -> bool {
    ('0' as u32) <= (c as u32) && (c as u32) <= ('9' as u32)
}

/// The numeric value of a digit character.
pub open spec fn digit_val(c: char) -> int {
    (c as u32) - ('0' as u32)
}

/// Every character of `s` is a decimal digit.
pub open spec fn all_digits(s: Seq<char>) -> bool {
    forall|i: int| 0 <= i < s.len() ==> is_digit(#[trigger] s[i])
}

/// The value of a digit string, most significant digit first.
pub open spec fn digits_val(s: Seq<char>) -> int
    decreases s.len(),
{
    if s.len() == 0 {
        0
    } else {
        digits_val(s.drop_last()) * 10 + digit_val(s.last())
    }
}

/// A digit string's value is never negative.
pub proof fn lemma_digits_val_nonneg(s: Seq<char>)
    requires
        all_digits(s),
    ensures
        digits_val(s) >= 0,
    decreases s.len(),
{
    if s.len() > 0 {
        assert(all_digits(s.drop_last()));
        lemma_digits_val_nonneg(s.drop_last());
    }
}

/// Dropping trailing digits never increases a digit string's value.
pub proof fn lemma_digits_val_take_le(s: Seq<char>, i: int)
    requires
        all_digits(s),
        0 <= i <= s.len(),
    ensures
        digits_val(s.take(i)) <= digits_val(s),
    decreases s.len(),
{
    if i < s.len() {
        assert(all_digits(s.drop_last()));
        assert(s.take(i) =~= s.drop_last().take(i));
        lemma_digits_val_take_le(s.drop_last(), i);
        lemma_digits_val_nonneg(s.drop_last());
    } else {
        assert(s.take(i) =~= s);
    }
}

// ---------------------------------------------------------------------------
// Integer text
// ---------------------------------------------------------------------------
/// A well-formed integer numeral: an optional sign, then one or more digits.
pub open spec fn is_int_text(s: Seq<char>) -> bool {
    if s.len() == 0 {
        false
    } else if s[0] == '-' || s[0] == '+' {
        s.len() > 1 && all_digits(s.skip(1))
    } else {
        all_digits(s)
    }
}

/// The value of an integer numeral.
pub open spec fn int_text_val(s: Seq<char>) -> int {
    if s.len() > 0 && s[0] == '-' {
        -digits_val(s.skip(1))
    } else if s.len() > 0 && s[0] == '+' {
        digits_val(s.skip(1))
    } else {
        digits_val(s)
    }
}

/// Whether `c` is a decimal digit.
pub fn digit_check(c: char) -> (r: bool)
    ensures
        r == is_digit(c),
{
    let u = c as u32;
    48 <= u && u <= 57
}

/// The first position at or after `from` whose character is not a digit.
fn scan_digits(w: &Vec<char>, from: usize) -> (r: usize)
    requires
        from <= w@.len(),
    ensures
        from <= r <= w@.len(),
        forall|k: int| from <= k < r ==> is_digit(#[trigger] w@[k]),
        r < w@.len() ==> !is_digit(w@[r as int]),
    decreases w@.len() - from,
{
    if from == w.len() {
        from
    } else if digit_check(w[from]) {
        scan_digits(w, from + 1)
    } else {
        from
    }
}

/// Read an integer numeral. Returns the value exactly when the text is a
/// well-formed integer numeral whose value fits in an `i64`.
pub fn parse_i64(w: &Vec<char>) -> (r: Option<i64>)
    ensures
        match r {
            Some(v) => {
                &&& is_int_text(w@)
                &&& i64::MIN <= int_text_val(w@) <= i64::MAX
                &&& v == int_text_val(w@)
            },
            None => !(is_int_text(w@) && i64::MIN <= int_text_val(w@) <= i64::MAX),
        },
{
    if w.len() == 0 {
        return None;
    }
    let neg = w[0] == '-';
    let start: usize = if neg || w[0] == '+' {
        1
    } else {
        0
    };
    if start == w.len() {
        // a sign alone is not a numeral
        return None;
    }
    let ghost digits = w@.skip(start as int);
    proof {
        if start == 0 {
            assert(digits =~= w@);
        }
        assert(is_int_text(w@) == all_digits(digits));
    }
    let mut i: usize = start;
    let mut mag: u64 = 0;
    while i < w.len()
        invariant
            start <= i <= w@.len(),
            start < w@.len(),
            digits == w@.skip(start as int),
            neg == (w@[0] == '-'),
            is_int_text(w@) == all_digits(digits),
            int_text_val(w@) == if neg {
                -digits_val(digits)
            } else {
                digits_val(digits)
            },
            forall|k: int| start <= k < i ==> is_digit(#[trigger] w@[k]),
            mag == digits_val(w@.subrange(start as int, i as int)),
            mag <= 0x8000_0000_0000_0000u64,
        decreases w@.len() - i,
    {
        let c = w[i];
        if !digit_check(c) {
            proof {
                assert(digits[i - start] == w@[i as int]);
                assert(!all_digits(digits));
            }
            return None;
        }
        let d: u64 = ((c as u32) - 48) as u64;
        assert(d == digit_val(c) && d <= 9);
        if mag > 922_337_203_685_477_580u64 || (mag == 922_337_203_685_477_580u64 && d > 8) {
            // the magnitude already exceeds 2^63, so the value cannot fit
            proof {
                let pre = w@.subrange(start as int, i + 1);
                assert(pre.drop_last() =~= w@.subrange(start as int, i as int));
                assert(digits_val(pre) == mag * 10 + d);
                assert(digits_val(pre) > 0x8000_0000_0000_0000);
                if is_int_text(w@) {
                    assert(pre =~= digits.take(i + 1 - start));
                    lemma_digits_val_take_le(digits, i + 1 - start);
                    assert(digits_val(digits) > 0x8000_0000_0000_0000);
                    assert(int_text_val(w@) > i64::MAX || int_text_val(w@) < i64::MIN);
                }
            }
            return None;
        }
        mag = mag * 10 + d;
        proof {
            let pre = w@.subrange(start as int, i + 1);
            assert(pre.drop_last() =~= w@.subrange(start as int, i as int));
            assert(digits_val(pre) == mag);
        }
        i = i + 1;
    }
    proof {
        assert(w@.subrange(start as int, i as int) =~= digits);
        assert(all_digits(digits));
        lemma_digits_val_nonneg(digits);
    }
    if neg {
        assert(int_text_val(w@) == -(mag as int));
        if mag == 0x8000_0000_0000_0000u64 {
            Some(i64::MIN)
        } else {
            Some(-(mag as i64))
        }
    } else {
        assert(int_text_val(w@) == mag as int);
        if mag >= 0x8000_0000_0000_0000u64 {
            None
        } else {
            Some(mag as i64)
        }
    }
}

// ---------------------------------------------------------------------------
// Float text
// ---------------------------------------------------------------------------
/// Whether `s` holds a decimal point.
pub open spec fn has_dot(s: Seq<char>) -> bool {
    exists|i: int| 0 <= i < s.len() && s[i] == '.'
}

/// A float numeral's mantissa: digits with at most one decimal point and
/// at least one digit.
pub open spec fn is_mantissa(s: Seq<char>) -> bool {
    ||| (s.len() >= 1 && all_digits(s))
    ||| (exists|d: int|
        {
            &&& 0 <= d < s.len()
            &&& #[trigger] s[d] == '.'
            &&& all_digits(s.subrange(0, d))
            &&& all_digits(s.subrange(d + 1, s.len() as int))
            &&& (d > 0 || s.len() > d + 1)
        })
}

/// A float numeral's exponent part: empty, or `e`/`E`, an optional sign,
/// and one or more digits.
pub open spec fn is_exponent(s: Seq<char>) -> bool {
    if s.len() == 0 {
        true
    } else {
        &&& (s[0] == 'e' || s[0] == 'E')
        &&& {
            let t = if s.len() > 1 && (s[1] == '+' || s[1] == '-') {
                s.subrange(2, s.len() as int)
            } else {
                s.subrange(1, s.len() as int)
            };
            t.len() >= 1 && all_digits(t)
        }
    }
}

/// One way of splitting the unsigned part of a float numeral at position
/// `m`: a mantissa before, an exponent part after.
pub open spec fn float_split_at(b: Seq<char>, m: int) -> bool {
    &&& 0 <= m <= b.len()
    &&& is_mantissa(b.subrange(0, m))
    &&& is_exponent(b.subrange(m, b.len() as int))
}

/// A float numeral's unsigned part: the text past an optional minus sign.
pub open spec fn float_body(s: Seq<char>) -> Seq<char> {
    if s.len() > 0 && s[0] == '-' {
        s.subrange(1, s.len() as int)
    } else {
        s
    }
}

/// A well-formed float numeral: an optional minus sign, a mantissa, and an
/// optional exponent.
pub open spec fn is_float_text(s: Seq<char>) -> bool {
    exists|m: int| #[trigger] float_split_at(float_body(s), m)
}

/// Whether the word holds a decimal point.
pub fn dot_check(w: &Vec<char>) -> (r: bool)
    ensures
        r == has_dot(w@),
{
    let mut i: usize = 0;
    while i < w.len()
        invariant
            0 <= i <= w@.len(),
            forall|k: int| 0 <= k < i ==> w@[k] != '.',
        decreases w@.len() - i,
    {
        if w[i] == '.' {
            return true;
        }
        i = i + 1;
    }
    false
}

/// Decide whether the word is a well-formed float numeral.
#[verifier::rlimit(50)]
pub fn float_check(w: &Vec<char>) -> (r: bool)
    ensures
        r == is_float_text(w@),
{
    let ghost s = w@;
    if w.len() == 0 {
        proof {
            assert(float_body(s) == s);
            assert forall|m: int| !(#[trigger] float_split_at(s, m)) by {
                if 0 <= m <= s.len() {
                    assert(s.subrange(0, m).len() == 0);
                }
            }
        }
        return false;
    }
    let bs: usize = if w[0] == '-' {
        1
    } else {
        0
    };
    let ghost b = float_body(s);
    proof {
        assert(b =~= s.subrange(bs as int, s.len() as int));
    }
    // scan the digits before a possible decimal point
    let p1 = scan_digits(w, bs);
    let mut m_end: usize = p1;
    let mut dot = false;
    if p1 < w.len() && w[p1] == '.' {
        dot = true;
        m_end = scan_digits(w, p1 + 1);
    }
    let mant_ok = if dot {
        p1 > bs || m_end > p1 + 1
    } else {
        p1 > bs
    };
    let ghost me = m_end - bs;
    proof {
        lemma_mantissa_at(s, bs as int, p1 as int, m_end as int, dot);
        assert(b.subrange(0, me) =~= s.subrange(bs as int, m_end as int));
        assert(is_mantissa(b.subrange(0, me)) == mant_ok);
        assert forall|m: int| #[trigger] float_split_at(b, m) implies m == me by {
            assert(b.subrange(0, m) =~= s.subrange(bs as int, s.len() as int).subrange(0, m));
            assert(b.subrange(m, b.len() as int) =~= s.subrange(bs as int, s.len() as int)
                .subrange(m, s.len() - bs));
            lemma_split_forced(s, bs as int, p1 as int, m_end as int, dot, m);
        }
    }
    if !mant_ok {
        proof {
            if is_float_text(s) {
                let m = choose|m: int| #[trigger] float_split_at(b, m);
                assert(m == me);
                assert(false);
            }
        }
        return false;
    }
    if m_end == w.len() {
        proof {
            assert(b.subrange(me, b.len() as int).len() == 0);
            assert(float_split_at(b, me));
        }
        return true;
    }
    let ghost e = b.subrange(me, b.len() as int);
    proof {
        assert(e =~= s.subrange(m_end as int, s.len() as int));
        assert(e[0] == s[m_end as int]);
    }
    let c = w[m_end];
    if !(c == 'e' || c == 'E') {
        proof {
            assert(!is_exponent(e));
            if is_float_text(s) {
                let m = choose|m: int| #[trigger] float_split_at(b, m);
                assert(m == me);
                assert(false);
            }
        }
        return false;
    }
    // the exponent's digits, past an optional sign
    let eds: usize = if m_end + 1 < w.len() && (w[m_end + 1] == '+' || w[m_end + 1] == '-') {
        m_end + 2
    } else {
        m_end + 1
    };
    let ghost t = if e.len() > 1 && (e[1] == '+' || e[1] == '-') {
        e.subrange(2, e.len() as int)
    } else {
        e.subrange(1, e.len() as int)
    };
    proof {
        assert(t =~= s.subrange(eds as int, s.len() as int));
    }
    if eds == w.len() {
        proof {
            assert(t.len() == 0);
            assert(!is_exponent(e));
            if is_float_text(s) {
                let m = choose|m: int| #[trigger] float_split_at(b, m);
                assert(m == me);
                assert(false);
            }
        }
        return false;
    }
    let p3 = scan_digits(w, eds);
    if p3 == w.len() {
        proof {
            assert forall|k: int| 0 <= k < t.len() implies is_digit(#[trigger] t[k]) by {
                assert(t[k] == s[eds + k]);
            }
            assert(is_exponent(e));
            assert(float_split_at(b, me));
        }
        true
    } else {
        proof {
            assert(t[p3 - eds] == s[p3 as int]);
            assert(!all_digits(t));
            assert(!is_exponent(e));
            if is_float_text(s) {
                let m = choose|m: int| #[trigger] float_split_at(b, m);
                assert(m == me);
                assert(false);
            }
        }
        false
    }
}

/// The scan facts pin the mantissa's shape down: the region the scan found
/// is a mantissa exactly when it has at least one digit.
proof fn lemma_mantissa_at(s: Seq<char>, bs: int, p1: int, m_end: int, dot: bool)
    requires
        0 <= bs <= p1 <= m_end <= s.len(),
        forall|k: int| bs <= k < p1 ==> is_digit(#[trigger] s[k]),
        dot ==> p1 < s.len() && s[p1] == '.' && m_end >= p1 + 1 && (forall|k: int|
            p1 + 1 <= k < m_end ==> is_digit(#[trigger] s[k])),
        !dot ==> m_end == p1,
    ensures
        is_mantissa(s.subrange(bs, m_end)) == if dot {
            p1 > bs || m_end > p1 + 1
        } else {
            p1 > bs
        },
{
    let t = s.subrange(bs, m_end);
    if !dot {
        if p1 > bs {
            assert(t.len() >= 1 && all_digits(t));
        } else {
            assert(t.len() == 0);
            assert(!is_mantissa(t));
        }
    } else {
        let d = p1 - bs;
        assert(t[d] == '.');
        assert(!is_digit('.'));
        assert(!all_digits(t));
        if p1 > bs || m_end > p1 + 1 {
            assert(all_digits(t.subrange(0, d))) by {
                assert forall|k: int| 0 <= k < d implies is_digit(
                    #[trigger] t.subrange(0, d)[k],
                ) by {
                    assert(t.subrange(0, d)[k] == s[bs + k]);
                }
            }
            assert(all_digits(t.subrange(d + 1, t.len() as int))) by {
                assert forall|k: int| 0 <= k < t.len() - d - 1 implies is_digit(
                    #[trigger] t.subrange(d + 1, t.len() as int)[k],
                ) by {
                    assert(t.subrange(d + 1, t.len() as int)[k] == s[bs + d + 1 + k]);
                }
            }
            assert(is_mantissa(t));
        } else {
            // the point stands alone: no digit on either side
            assert(bs == p1 && m_end == p1 + 1);
            assert(t.len() == 1);
            assert forall|e: int| !(0 <= e < t.len() && #[trigger] t[e] == '.' && all_digits(
                t.subrange(0, e),
            ) && all_digits(t.subrange(e + 1, t.len() as int)) && (e > 0 || t.len() > e
                + 1)) by {}
            assert(!is_mantissa(t));
        }
    }
}

/// Any split of the scanned word into a mantissa and an exponent must put
/// the boundary exactly where the scan stopped.
proof fn lemma_split_forced(s: Seq<char>, bs: int, p1: int, m_end: int, dot: bool, m: int)
    requires
        0 <= bs <= p1 <= m_end <= s.len(),
        forall|k: int| bs <= k < p1 ==> is_digit(#[trigger] s[k]),
        dot ==> p1 < s.len() && s[p1] == '.' && m_end >= p1 + 1 && (forall|k: int|
            p1 + 1 <= k < m_end ==> is_digit(#[trigger] s[k])),
        dot ==> (m_end == s.len() || !is_digit(s[m_end])),
        !dot ==> m_end == p1,
        !dot ==> (p1 == s.len() || (s[p1] != '.' && !is_digit(s[p1]))),
        0 <= m <= s.len() - bs,
        is_mantissa(s.subrange(bs, s.len() as int).subrange(0, m)),
        is_exponent(s.subrange(bs, s.len() as int).subrange(m, s.len() - bs)),
    ensures
        m == m_end - bs,
{
    let b = s.subrange(bs, s.len() as int);
    let me = m_end - bs;
    assert(!is_digit('e') && !is_digit('E') && !is_digit('.'));
    if m < me {
        // the exponent part would begin with a mantissa character
        let e = b.subrange(m, s.len() - bs as int);
        assert(e.len() > 0);
        assert(e[0] == s[bs + m]);
        if bs + m < p1 {
            assert(is_digit(s[bs + m]));
        } else if bs + m == p1 {
            assert(dot);
            assert(s[bs + m] == '.');
        } else {
            assert(dot && p1 < bs + m < m_end);
            assert(is_digit(s[bs + m]));
        }
        assert(!(e[0] == 'e' || e[0] == 'E'));
        assert(false);
    } else if m > me {
        // the mantissa would reach past the character the scan stopped at
        let t = b.subrange(0, m);
        assert(m_end < s.len());
        assert(t[me] == s[m_end]);
        assert(!is_digit(s[m_end]));
        if all_digits(t) {
            assert(is_digit(t[me]));
            assert(false);
        } else {
            let d = choose|d: int|
                {
                    &&& 0 <= d < t.len()
                    &&& #[trigger] t[d] == '.'
                    &&& all_digits(t.subrange(0, d))
                    &&& all_digits(t.subrange(d + 1, t.len() as int))
                    &&& (d > 0 || t.len() > d + 1)
                };
            if me < d {
                assert(t.subrange(0, d)[me] == t[me]);
                assert(is_digit(t[me]));
                assert(false);
            } else if me > d {
                assert(t.subrange(d + 1, t.len() as int)[me - d - 1] == t[me]);
                assert(is_digit(t[me]));
                assert(false);
            } else {
                // the stop character is a second decimal point
                assert(s[m_end] == '.');
                assert(dot);
                assert(p1 - bs < d);
                assert(t.subrange(0, d)[p1 - bs] == s[p1 as int]);
                assert(is_digit('.'));
                assert(false);
            }
        }
    }
}

// ---------------------------------------------------------------------------
// Canonical integer rendering
// ---------------------------------------------------------------------------
/// The character of a single digit value.
pub open spec fn digit_char(d: int) -> char {
    if d == 0 {
        '0'
    } else if d == 1 {
        '1'
    } else if d == 2 {
        '2'
    } else if d == 3 {
        '3'
    } else if d == 4 {
        '4'
    } else if d == 5 {
        '5'
    } else if d == 6 {
        '6'
    } else if d == 7 {
        '7'
    } else if d == 8 {
        '8'
    } else {
        '9'
    }
}

/// The canonical decimal text of a non-negative number: no sign, no
/// leading zeros (except for zero itself).
pub open spec fn nat_text(n: int) -> Seq<char>
    decreases n,
{
    if n < 10 {
        seq![digit_char(n)]
    } else {
        nat_text(n / 10).push(digit_char(n % 10))
    }
}

/// The canonical decimal text of an integer: a minus sign for negative
/// numbers, then the magnitude's digits.
pub open spec fn int_text(v: int) -> Seq<char> {
    if v < 0 {
        seq!['-'] + nat_text(-v)
    } else {
        nat_text(v)
    }
}

/// The character of a digit.
fn digit_to_char(d: u64) -> (c: char)
    requires
        d < 10,
    ensures
        c == digit_char(d as int),
{
    if d == 0 {
        '0'
    } else if d == 1 {
        '1'
    } else if d == 2 {
        '2'
    } else if d == 3 {
        '3'
    } else if d == 4 {
        '4'
    } else if d == 5 {
        '5'
    } else if d == 6 {
        '6'
    } else if d == 7 {
        '7'
    } else if d == 8 {
        '8'
    } else {
        '9'
    }
}

/// The canonical decimal text of a non-negative number.
fn render_nat(n: u64) -> (r: String)
    ensures
        r@ == nat_text(n as int),
    decreases n,
{
    if n < 10 {
        let mut s = String::new();
        s.push(digit_to_char(n));
        assert(s@ =~= nat_text(n as int));
        s
    } else {
        let mut s = render_nat(n / 10);
        s.push(digit_to_char(n % 10));
        assert(s@ =~= nat_text(n as int));
        s
    }
}

/// The canonical text of a non-negative number is one or more digits whose
/// value is the number itself.
pub proof fn lemma_nat_text_digits(n: int)
    requires
        n >= 0,
    ensures
        nat_text(n).len() >= 1,
        all_digits(nat_text(n)),
        digits_val(nat_text(n)) == n,
    decreases n,
{
    if n < 10 {
        assert(nat_text(n) == seq![digit_char(n)]);
        assert(nat_text(n).drop_last() =~= Seq::<char>::empty());
        assert(digit_val(digit_char(n)) == n);
        assert(is_digit(digit_char(n)));
        assert(all_digits(nat_text(n)));
        assert(digits_val(Seq::<char>::empty()) == 0);
        assert(digits_val(nat_text(n)) == digits_val(nat_text(n).drop_last()) * 10 + digit_val(
            nat_text(n).last(),
        ));
        assert(digits_val(nat_text(n)) == n);
    } else {
        lemma_nat_text_digits(n / 10);
        let t = nat_text(n);
        assert(t == nat_text(n / 10).push(digit_char(n % 10)));
        assert(t.drop_last() =~= nat_text(n / 10));
        assert(t.last() == digit_char(n % 10));
        assert(digit_val(digit_char(n % 10)) == n % 10);
        assert(digits_val(t) == (n / 10) * 10 + n % 10);
        assert((n / 10) * 10 + n % 10 == n) by (nonlinear_arith);
        assert(digits_val(nat_text(n)) == n);
        assert(all_digits(t)) by {
            assert forall|i: int| 0 <= i < t.len() implies is_digit(#[trigger] t[i]) by {
                if i < t.len() - 1 {
                    assert(t[i] == nat_text(n / 10)[i]);
                } else {
                    assert(is_digit(digit_char(n % 10)));
                }
            }
        }
    }
}

/// The canonical text of an integer is a well-formed integer numeral: its
/// value is the integer itself, it holds no decimal point, and it starts
/// with a digit or a minus sign.
pub proof fn lemma_int_text_props(v: int)
    ensures
        int_text(v).len() >= 1,
        is_int_text(int_text(v)),
        int_text_val(int_text(v)) == v,
        forall|i: int|
            0 <= i < int_text(v).len() ==> is_digit(#[trigger] int_text(v)[i]) || int_text(v)[i]
                == '-',
        !has_dot(int_text(v)),
        is_digit(int_text(v)[0]) || int_text(v)[0] == '-',
{
    let t = int_text(v);
    if v < 0 {
        lemma_nat_text_digits(-v);
        assert(t == seq!['-'] + nat_text(-v));
        assert(t[0] == '-');
        assert(t.skip(1) =~= nat_text(-v));
        assert(is_int_text(t));
        assert(int_text_val(t) == -digits_val(nat_text(-v)));
        assert forall|i: int| 0 <= i < t.len() implies is_digit(#[trigger] t[i]) || t[i]
            == '-' by {
            if i >= 1 {
                assert(t[i] == nat_text(-v)[i - 1]);
            }
        }
    } else {
        lemma_nat_text_digits(v);
        assert(!(t[0] == '-' || t[0] == '+'));
        assert(is_int_text(t));
    }
    assert(!has_dot(t)) by {
        assert forall|i: int| 0 <= i < t.len() implies #[trigger] t[i] != '.' by {
            assert(is_digit(t[i]) || t[i] == '-');
        }
    }
}

/// The canonical decimal text of a 64-bit signed integer.
pub fn render_i64(v: i64) -> (r: String)
    ensures
        r@ == int_text(v as int),
{
    if v >= 0 {
        render_nat(v as u64)
    } else {
        let mag: u64 = ((-(v + 1)) as u64) + 1;
        assert(mag as int == -(v as int));
        let mut s = String::new();
        s.push('-');
        let t = render_nat(mag);
        s.append(t.as_str());
        assert(s@ =~= int_text(v as int));
        s
    }
}

} // verus!
