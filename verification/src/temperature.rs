//! Exact decimal temperatures.
//!
//! Bus payloads carry temperatures as plain decimal literals such as `"21.5"`.
//! The controller only ever parses such literals, compares two temperatures,
//! and prints them back as decimal strings, so a temperature is kept exactly
//! as it appeared on the wire: an integer mantissa together with a decimal
//! scale, denoting the rational number `mantissa / 10^scale`.

use vstd::prelude::*;

verus! {

/// Largest mantissa magnitude accepted by the parser. Any practical reading
/// fits well below it; the bound keeps cross-multiplied comparisons inside
/// `i128`.
pub const MANTISSA_LIMIT: u64 = 1_000_000_000_000_000_000;

/// Largest decimal scale accepted by the parser.
pub const SCALE_LIMIT: u32 = 19;

/// A temperature as an exact decimal number: `mantissa / 10^scale`.
#[derive(Clone, Copy, PartialEq, Eq, Structural, Debug)]
pub struct Temperature {
    pub mantissa: i64,
    pub scale: u32,
}

/// `10^e`.
pub open spec fn pow10(e: nat) -> nat
    decreases e,
{
    if e == 0 {
        1
    } else {
        10 * pow10((e - 1) as nat)
    }
}

impl Temperature {
    /// Bounds established by the parser and preserved everywhere: they keep
    /// every cross-multiplication of two temperatures inside `i128`.
    pub open spec fn wf(self) -> bool {
        &&& -(MANTISSA_LIMIT as int) <= self.mantissa <= MANTISSA_LIMIT as int
        &&& self.scale <= SCALE_LIMIT
    }

    /// The denoted rational, scaled up to the common denominator
    /// `10^(self.scale + other_scale)` so that it can be compared as an
    /// integer.
    pub open spec fn scaled(self, other_scale: nat) -> int {
        self.mantissa * pow10(other_scale)
    }
}

/// `a < b` as rationals: cross-multiply with the (positive) powers of ten.
pub open spec fn temp_lt(a: Temperature, b: Temperature) -> bool {
    a.scaled(b.scale as nat) < b.scaled(a.scale as nat)
}

proof fn lemma_pow10_values()
    ensures
        pow10(19) == 10_000_000_000_000_000_000,
        pow10(37) < 0x8000_0000_0000_0000_0000_0000_0000_0000,
{
    reveal_with_fuel(pow10, 38);
}

proof fn lemma_pow10_monotone(a: nat, b: nat)
    requires
        a <= b,
    ensures
        pow10(a) <= pow10(b),
        pow10(a) >= 1,
    decreases b,
{
    if a < b {
        lemma_pow10_monotone(a, (b - 1) as nat);
    } else if b > 0 {
        lemma_pow10_monotone((a - 1) as nat, (b - 1) as nat);
    }
}

/// `10^e` as a machine integer, for scales the parser accepts.
fn pow10_u64(e: u32) -> (r: u64)
    requires
        e <= SCALE_LIMIT,
    ensures
        r == pow10(e as nat),
{
    proof {
        lemma_pow10_values();
    }
    let mut r: u64 = 1;
    let mut i: u32 = 0;
    while i < e
        invariant
            i <= e <= SCALE_LIMIT,
            r == pow10(i as nat),
        decreases e - i,
    {
        proof {
            lemma_pow10_values();
            lemma_pow10_monotone((i + 1) as nat, 19);
        }
        r = r * 10;
        i = i + 1;
    }
    r
}

/// `c` is a decimal digit (codepoints 48 through 57).
pub open spec fn is_digit(c: char) -> bool {
    48 <= c as u32 <= 57
}

/// Numeric value of a digit character; 0 on anything else.
pub open spec fn digit_val(c: char) -> int {
    if is_digit(c) {
        c as u32 - 48
    } else {
        0
    }
}

/// The number denoted by a sequence of digit characters, most significant
/// first.
pub open spec fn digits_val(s: Seq<char>) -> int
    decreases s.len(),
{
    if s.len() == 0 {
        0
    } else {
        10 * digits_val(s.drop_last()) + digit_val(s.last())
    }
}

/// `s` with every `'.'` removed.
pub open spec fn strip_dots(s: Seq<char>) -> Seq<char>
    decreases s.len(),
{
    if s.len() == 0 {
        Seq::empty()
    } else if s.last() == '.' {
        strip_dots(s.drop_last())
    } else {
        strip_dots(s.drop_last()).push(s.last())
    }
}

/// `s` contains a `'.'`.
pub open spec fn has_dot(s: Seq<char>) -> bool
    decreases s.len(),
{
    s.len() > 0 && (s.last() == '.' || has_dot(s.drop_last()))
}

/// Number of characters after the last `'.'` of `s`; 0 when there is none.
pub open spec fn frac_len(s: Seq<char>) -> nat
    decreases s.len(),
{
    if s.len() == 0 {
        0
    } else if s.last() == '.' {
        0
    } else if has_dot(s.drop_last()) {
        frac_len(s.drop_last()) + 1
    } else {
        0
    }
}

/// The literal with a leading sign removed.
pub open spec fn lit_body(s: Seq<char>) -> Seq<char> {
    if s.len() > 0 && (s[0] == '-' || s[0] == '+') {
        s.drop_first()
    } else {
        s
    }
}

/// The literal carries a leading minus sign.
pub open spec fn lit_neg(s: Seq<char>) -> bool {
    s.len() > 0 && s[0] == '-'
}

/// `s` is a plain decimal literal: an optional sign, then digits with at
/// most one decimal point among them, and at least one digit.
pub open spec fn is_decimal_lit(s: Seq<char>) -> bool {
    let body = lit_body(s);
    &&& forall|i: int| 0 <= i < body.len() ==> is_digit(#[trigger] body[i]) || body[i] == '.'
    &&& body.len() - strip_dots(body).len() <= 1
    &&& strip_dots(body).len() > 0
}

/// The signed integer formed by the literal's digits (ignoring the point).
pub open spec fn lit_mantissa(s: Seq<char>) -> int {
    if lit_neg(s) {
        -digits_val(strip_dots(lit_body(s)))
    } else {
        digits_val(strip_dots(lit_body(s)))
    }
}

/// The number of digits after the literal's decimal point.
pub open spec fn lit_scale(s: Seq<char>) -> nat {
    frac_len(lit_body(s))
}

/// The literal's digits and scale fit the parser's bounds.
pub open spec fn lit_in_range(s: Seq<char>) -> bool {
    &&& digits_val(strip_dots(lit_body(s))) <= MANTISSA_LIMIT
    &&& frac_len(lit_body(s)) <= SCALE_LIMIT
}

/// The digit character for a value 0 through 9.
pub open spec fn digit_char(d: int) -> char {
    if d == 0 {
        '0'
    } else if d == 1 {
        '1'
    } else if d == 2 {
        '2'
    } else if d == 3 {
        '3'
    } else if d == 4 {
        '4'
    } else if d == 5 {
        '5'
    } else if d == 6 {
        '6'
    } else if d == 7 {
        '7'
    } else if d == 8 {
        '8'
    } else {
        '9'
    }
}

/// Decimal text of `n`, most significant digit first, no leading zeros.
pub open spec fn dec_str(n: nat) -> Seq<char>
    decreases n,
{
    if n < 10 {
        seq![digit_char(n as int)]
    } else {
        dec_str(n / 10).push(digit_char((n % 10) as int))
    }
}

/// The low `w` decimal digits of `n`, zero-padded to exactly `w` characters.
pub open spec fn dec_str_pad(n: nat, w: nat) -> Seq<char>
    decreases w,
{
    if w == 0 {
        Seq::empty()
    } else {
        dec_str_pad(n / 10, (w - 1) as nat).push(digit_char((n % 10) as int))
    }
}

/// Magnitude of the mantissa.
pub open spec fn temp_mag(t: Temperature) -> nat {
    if t.mantissa < 0 {
        (-t.mantissa) as nat
    } else {
        t.mantissa as nat
    }
}

/// Canonical decimal text of a temperature: optional minus sign, integer
/// part without leading zeros, and, for a positive scale, a point followed
/// by exactly `scale` fraction digits.
pub open spec fn temp_str(t: Temperature) -> Seq<char> {
    let sign: Seq<char> = if t.mantissa < 0 {
        seq!['-']
    } else {
        Seq::empty()
    };
    if t.scale == 0 {
        sign + dec_str(temp_mag(t))
    } else {
        sign + dec_str(temp_mag(t) / pow10(t.scale as nat)) + seq!['.'] + dec_str_pad(
            temp_mag(t) % pow10(t.scale as nat),
            t.scale as nat,
        )
    }
}

impl Temperature {
    /// Parse a plain decimal literal such as `"21.5"`, `"-0.25"` or `"+7"`.
    /// Returns `None` on any other shape, and on literals beyond the
    /// mantissa or scale bounds.
    pub fn parse(s: &str) -> (r: Option<Temperature>)
        ensures
            r is Some <==> is_decimal_lit(s@) && lit_in_range(s@),
            r matches Some(t) ==> t.wf() && t.mantissa == lit_mantissa(s@) && t.scale == lit_scale(
                s@,
            ),
    {
        let len: usize = s.unicode_len();
        let mut i: usize = 0;
        let mut neg: bool = false;
        if len > 0 {
            let c0: char = s.get_char(0);
            if c0 == '-' {
                neg = true;
                i = 1;
            } else if c0 == '+' {
                i = 1;
            }
        }
        let start: usize = i;
        let ghost body = lit_body(s@);
        proof {
            assert(body =~= s@.skip(start as int));
        }
        let mut m: u64 = 0;
        let mut scale: u32 = 0;
        let mut saw_dot: bool = false;
        let mut saw_digit: bool = false;
        while i < len
            invariant
                len == s@.len(),
                start <= i <= len,
                body == lit_body(s@),
                body =~= s@.skip(start as int),
                neg == lit_neg(s@),
                m <= MANTISSA_LIMIT,
                m == digits_val(strip_dots(body.take(i - start))),
                saw_dot == has_dot(body.take(i - start)),
                saw_digit == (strip_dots(body.take(i - start)).len() > 0),
                scale == frac_len(body.take(i - start)),
                scale <= SCALE_LIMIT,
                forall|k: int|
                    0 <= k < i - start ==> is_digit(#[trigger] body[k]) || body[k] == '.',
                (i - start) - strip_dots(body.take(i - start)).len() == if saw_dot {
                    1int
                } else {
                    0int
                },
            decreases len - i,
        {
            let ghost j = i - start;
            let ghost pref = body.take(j);
            let ghost prefx = body.take(j + 1);
            proof {
                assert(prefx.drop_last() =~= pref);
                assert(prefx.last() == body[j]);
                assert(body[j] == s@[i as int]);
            }
            let c: char = s.get_char(i);
            let u: u32 = c as u32;
            if 48 <= u && u <= 57 {
                let d: u64 = (u - 48) as u64;
                let nm: u64 = m * 10 + d;
                proof {
                    assert(c != '.');
                    assert(strip_dots(prefx) =~= strip_dots(pref).push(c));
                    assert(strip_dots(prefx).drop_last() =~= strip_dots(pref));
                    assert(digits_val(strip_dots(prefx)) == 10 * m + d);
                }
                if nm > MANTISSA_LIMIT {
                    proof {
                        lemma_digits_val_take_le(body, j + 1);
                    }
                    return None;
                }
                if saw_dot {
                    if scale >= SCALE_LIMIT {
                        proof {
                            if is_decimal_lit(s@) {
                                lemma_has_dot_index(pref);
                                let d0 = choose|d0: int|
                                    0 <= d0 < pref.len() && pref[d0] == '.';
                                assert(body[d0] == '.');
                                assert forall|k: int|
                                    0 <= k < body.len() && k != d0 implies body[k] != '.' by {
                                    if body[k] == '.' {
                                        if k < d0 {
                                            lemma_two_dots(body, k, d0);
                                        } else {
                                            lemma_two_dots(body, d0, k);
                                        }
                                    }
                                }
                                lemma_frac_len_single_dot(body, d0);
                                lemma_frac_len_single_dot(pref, d0);
                            }
                        }
                        return None;
                    }
                    scale = scale + 1;
                    proof {
                        assert(has_dot(prefx.drop_last()));
                        assert(frac_len(prefx) == frac_len(pref) + 1);
                    }
                } else {
                    proof {
                        assert(!has_dot(prefx));
                        assert(frac_len(pref) == 0);
                        assert(frac_len(prefx) == 0);
                    }
                }
                m = nm;
                saw_digit = true;
            } else if c == '.' {
                if saw_dot {
                    proof {
                        assert(body =~= body.take(j) + body.skip(j));
                        lemma_strip_dots_concat(body.take(j), body.skip(j));
                        assert(body.skip(j)[0] == '.');
                        lemma_has_dot_witness(body.skip(j), 0);
                        lemma_strip_dots_len_le(body.skip(j));
                    }
                    return None;
                }
                saw_dot = true;
                proof {
                    assert(strip_dots(prefx) =~= strip_dots(pref));
                    assert(frac_len(pref) == 0);
                    assert(frac_len(prefx) == 0);
                }
            } else {
                proof {
                    assert(!is_digit(body[j]) && body[j] != '.');
                }
                return None;
            }
            i = i + 1;
            proof {
                assert(body.take(i - start) =~= prefx);
            }
        }
        proof {
            assert(body.take(i - start) =~= body);
        }
        if !saw_digit {
            return None;
        }
        let mantissa: i64 = if neg {
            -(m as i64)
        } else {
            m as i64
        };
        Some(Temperature { mantissa, scale })
    }

    /// Canonical decimal text, e.g. `"22.5"`, `"-0.25"`, `"7"`.
    pub fn to_string(&self) -> (r: String)
        requires
            self.wf(),
        ensures
            r@ == temp_str(*self),
    {
        let neg: bool = self.mantissa < 0;
        let mag: u64 = if neg {
            (-self.mantissa) as u64
        } else {
            self.mantissa as u64
        };
        proof {
            assert(mag == temp_mag(*self));
            reveal_strlit("-");
            reveal_strlit(".");
        }
        let mut out = if neg {
            String::from_str("-")
        } else {
            String::new()
        };
        let ghost sign: Seq<char> = if neg {
            seq!['-']
        } else {
            Seq::empty()
        };
        proof {
            assert(out@ =~= sign);
        }
        if self.scale == 0 {
            let digits = fmt_digits(mag);
            out.append(digits.as_str());
            proof {
                assert(out@ =~= sign + dec_str(mag as nat));
            }
            out
        } else {
            let p: u64 = pow10_u64(self.scale);
            proof {
                lemma_pow10_monotone(0, self.scale as nat);
            }
            let whole = fmt_digits(mag / p);
            let frac = fmt_digits_pad(mag % p, self.scale);
            out.append(whole.as_str());
            out.append(".");
            out.append(frac.as_str());
            proof {
                assert(out@ =~= sign + dec_str((mag / p) as nat) + seq!['.'] + dec_str_pad(
                    (mag % p) as nat,
                    self.scale as nat,
                ));
            }
            out
        }
    }

    /// Exact rational comparison `self < other`.
    pub fn lt(&self, other: &Temperature) -> (r: bool)
        requires
            self.wf(),
            other.wf(),
        ensures
            r == temp_lt(*self, *other),
    {
        proof {
            lemma_pow10_values();
            lemma_pow10_monotone(other.scale as nat, 19);
            lemma_pow10_monotone(self.scale as nat, 19);
            lemma_scaled_in_range(*self, other.scale as nat);
            lemma_scaled_in_range(*other, self.scale as nat);
        }
        let lhs: i128 = (self.mantissa as i128) * (pow10_u64(other.scale) as i128);
        let rhs: i128 = (other.mantissa as i128) * (pow10_u64(self.scale) as i128);
        lhs < rhs
    }
}

proof fn lemma_digits_val_nonneg(s: Seq<char>)
    ensures
        digits_val(s) >= 0,
    decreases s.len(),
{
    if s.len() > 0 {
        lemma_digits_val_nonneg(s.drop_last());
    }
}

proof fn lemma_strip_dots_concat(a: Seq<char>, b: Seq<char>)
    ensures
        strip_dots(a + b) == strip_dots(a) + strip_dots(b),
    decreases b.len(),
{
    if b.len() == 0 {
        assert(a + b =~= a);
        assert(strip_dots(a) + strip_dots(b) =~= strip_dots(a));
    } else {
        lemma_strip_dots_concat(a, b.drop_last());
        assert((a + b).drop_last() =~= a + b.drop_last());
        assert((a + b).last() == b.last());
        if b.last() == '.' {
            assert(strip_dots(a) + strip_dots(b) =~= strip_dots(a) + strip_dots(b.drop_last()));
        } else {
            assert(strip_dots(a) + strip_dots(b) =~= (strip_dots(a) + strip_dots(
                b.drop_last(),
            )).push(b.last()));
        }
    }
}

proof fn lemma_digits_val_concat(a: Seq<char>, b: Seq<char>)
    ensures
        digits_val(a + b) == digits_val(a) * pow10(b.len()) + digits_val(b),
    decreases b.len(),
{
    if b.len() == 0 {
        assert(a + b =~= a);
        assert(pow10(b.len()) == 1);
        vstd::arithmetic::mul::lemma_mul_basics(digits_val(a));
    } else {
        lemma_digits_val_concat(a, b.drop_last());
        assert((a + b).drop_last() =~= a + b.drop_last());
        assert((a + b).last() == b.last());
        assert(digits_val(a + b) == 10 * digits_val(a + b.drop_last()) + digit_val(b.last()));
        assert(pow10(b.len()) == 10 * pow10((b.len() - 1) as nat));
        assert(10 * (digits_val(a) * pow10((b.len() - 1) as nat)) == digits_val(a) * pow10(
            b.len(),
        )) by {
            vstd::arithmetic::mul::lemma_mul_is_associative(
                10,
                digits_val(a),
                pow10((b.len() - 1) as nat) as int,
            );
            vstd::arithmetic::mul::lemma_mul_is_commutative(10, digits_val(a));
            vstd::arithmetic::mul::lemma_mul_is_associative(
                digits_val(a),
                10,
                pow10((b.len() - 1) as nat) as int,
            );
        }
        assert(digits_val(b) == 10 * digits_val(b.drop_last()) + digit_val(b.last()));
        assert(10 * digits_val(a + b.drop_last()) == 10 * (digits_val(a) * pow10(
            (b.len() - 1) as nat,
        )) + 10 * digits_val(b.drop_last()));
        assert(digits_val(a + b) == digits_val(a) * pow10(b.len()) + digits_val(b));
    }
}

/// The digits of a prefix never denote more than the digits of the whole.
proof fn lemma_digits_val_take_le(s: Seq<char>, i: int)
    requires
        0 <= i <= s.len(),
    ensures
        digits_val(strip_dots(s.take(i))) <= digits_val(strip_dots(s)),
{
    assert(s =~= s.take(i) + s.skip(i));
    lemma_strip_dots_concat(s.take(i), s.skip(i));
    lemma_digits_val_concat(strip_dots(s.take(i)), strip_dots(s.skip(i)));
    lemma_digits_val_nonneg(strip_dots(s.take(i)));
    lemma_digits_val_nonneg(strip_dots(s.skip(i)));
    lemma_pow10_monotone(0, strip_dots(s.skip(i)).len());
    vstd::arithmetic::mul::lemma_mul_inequality(
        1,
        pow10(strip_dots(s.skip(i)).len()) as int,
        digits_val(strip_dots(s.take(i))),
    );
}

proof fn lemma_strip_dots_len_le(s: Seq<char>)
    ensures
        strip_dots(s).len() <= s.len(),
        has_dot(s) ==> strip_dots(s).len() < s.len(),
    decreases s.len(),
{
    if s.len() > 0 {
        lemma_strip_dots_len_le(s.drop_last());
    }
}

/// With exactly one dot, at index `d`, the fractional part is everything
/// after it.
proof fn lemma_frac_len_single_dot(s: Seq<char>, d: int)
    requires
        0 <= d < s.len(),
        s[d] == '.',
        forall|j: int| 0 <= j < s.len() && j != d ==> s[j] != '.',
    ensures
        frac_len(s) == s.len() - 1 - d,
    decreases s.len(),
{
    if d == s.len() - 1 {
        assert(s.last() == '.');
    } else {
        lemma_frac_len_single_dot(s.drop_last(), d);
        lemma_has_dot_witness(s.drop_last(), d);
        assert(s.last() != '.');
    }
}

proof fn lemma_has_dot_witness(s: Seq<char>, d: int)
    requires
        0 <= d < s.len(),
        s[d] == '.',
    ensures
        has_dot(s),
    decreases s.len(),
{
    if d < s.len() - 1 {
        lemma_has_dot_witness(s.drop_last(), d);
    }
}

proof fn lemma_has_dot_index(s: Seq<char>)
    requires
        has_dot(s),
    ensures
        exists|d: int| 0 <= d < s.len() && s[d] == '.',
    decreases s.len(),
{
    if s.last() == '.' {
        assert(s[s.len() - 1] == '.');
    } else {
        lemma_has_dot_index(s.drop_last());
        let d = choose|d: int| 0 <= d < s.drop_last().len() && s.drop_last()[d] == '.';
        assert(s[d] == '.');
    }
}

fn digit_to_str(d: u64) -> (r: &'static str)
    requires
        d < 10,
    ensures
        r@ =~= seq![digit_char(d as int)],
{
    proof {
        reveal_strlit("0");
        reveal_strlit("1");
        reveal_strlit("2");
        reveal_strlit("3");
        reveal_strlit("4");
        reveal_strlit("5");
        reveal_strlit("6");
        reveal_strlit("7");
        reveal_strlit("8");
        reveal_strlit("9");
    }
    if d == 0 {
        "0"
    } else if d == 1 {
        "1"
    } else if d == 2 {
        "2"
    } else if d == 3 {
        "3"
    } else if d == 4 {
        "4"
    } else if d == 5 {
        "5"
    } else if d == 6 {
        "6"
    } else if d == 7 {
        "7"
    } else if d == 8 {
        "8"
    } else {
        "9"
    }
}

fn fmt_digits(n: u64) -> (r: String)
    ensures
        r@ == dec_str(n as nat),
    decreases n,
{
    if n < 10 {
        String::from_str(digit_to_str(n))
    } else {
        let mut s = fmt_digits(n / 10);
        s.append(digit_to_str(n % 10));
        proof {
            assert(s@ =~= dec_str((n / 10) as nat).push(digit_char((n % 10) as int)));
        }
        s
    }
}

fn fmt_digits_pad(n: u64, w: u32) -> (r: String)
    ensures
        r@ == dec_str_pad(n as nat, w as nat),
    decreases w,
{
    if w == 0 {
        let s = String::new();
        proof {
            assert(s@ =~= dec_str_pad(n as nat, 0));
        }
        s
    } else {
        let mut s = fmt_digits_pad(n / 10, w - 1);
        s.append(digit_to_str(n % 10));
        proof {
            assert(s@ =~= dec_str_pad((n / 10) as nat, (w - 1) as nat).push(
                digit_char((n % 10) as int),
            ));
        }
        s
    }
}

proof fn lemma_dec_str_digits(n: nat)
    ensures
        dec_str(n).len() >= 1,
        forall|i: int| 0 <= i < dec_str(n).len() ==> is_digit(#[trigger] dec_str(n)[i]),
        digits_val(dec_str(n)) == n,
    decreases n,
{
    if n < 10 {
        let s = dec_str(n);
        assert(s == seq![digit_char(n as int)]);
        assert(s.drop_last() =~= Seq::<char>::empty());
        assert(is_digit(digit_char(n as int)));
        assert(digit_val(digit_char(n as int)) == n);
        assert(digits_val(s) == 10 * digits_val(Seq::<char>::empty()) + digit_val(s.last()));
    } else {
        lemma_dec_str_digits(n / 10);
        let s = dec_str(n);
        assert(s == dec_str(n / 10).push(digit_char((n % 10) as int)));
        assert(s.drop_last() =~= dec_str(n / 10));
        assert(is_digit(digit_char((n % 10) as int)));
        assert(digit_val(digit_char((n % 10) as int)) == n % 10);
        vstd::arithmetic::div_mod::lemma_fundamental_div_mod(n as int, 10);
        assert(digits_val(s) == 10 * (n / 10) + n % 10);
    }
}

proof fn lemma_dec_str_pad_digits(n: nat, w: nat)
    requires
        n < pow10(w),
    ensures
        dec_str_pad(n, w).len() == w,
        forall|i: int| 0 <= i < w ==> is_digit(#[trigger] dec_str_pad(n, w)[i]),
        digits_val(dec_str_pad(n, w)) == n,
    decreases w,
{
    if w == 0 {
    } else {
        assert(pow10(w) == 10 * pow10((w - 1) as nat));
        lemma_dec_str_pad_digits(n / 10, (w - 1) as nat);
        let s = dec_str_pad(n, w);
        assert(s == dec_str_pad(n / 10, (w - 1) as nat).push(digit_char((n % 10) as int)));
        assert(s.drop_last() =~= dec_str_pad(n / 10, (w - 1) as nat));
        assert(is_digit(digit_char((n % 10) as int)));
        assert(digit_val(digit_char((n % 10) as int)) == n % 10);
        assert(digits_val(s) == 10 * (n / 10) + n % 10);
    }
}

proof fn lemma_no_dot_strip_identity(s: Seq<char>)
    requires
        forall|i: int| 0 <= i < s.len() ==> (#[trigger] s[i]) != '.',
    ensures
        strip_dots(s) == s,
        !has_dot(s),
        frac_len(s) == 0,
    decreases s.len(),
{
    if s.len() > 0 {
        lemma_no_dot_strip_identity(s.drop_last());
        assert(strip_dots(s) =~= s);
    }
}

/// Law: the canonical text of a well-formed temperature is itself a plain
/// decimal literal, in range, whose mantissa and scale are the original
/// ones. Together with the parser's contract: printing a temperature and
/// parsing the text back returns the very same value.
pub proof fn lemma_text_round_trip(t: Temperature)
    requires
        t.wf(),
    ensures
        is_decimal_lit(temp_str(t)),
        lit_in_range(temp_str(t)),
        lit_neg(temp_str(t)) == (t.mantissa < 0),
        lit_mantissa(temp_str(t)) == t.mantissa,
        lit_scale(temp_str(t)) == t.scale,
{
    let s = temp_str(t);
    let m = temp_mag(t);
    let sign: Seq<char> = if t.mantissa < 0 {
        seq!['-']
    } else {
        Seq::empty()
    };
    lemma_pow10_values();
    if t.scale == 0 {
        lemma_dec_str_digits(m);
        assert(s =~= sign + dec_str(m));
        let body = lit_body(s);
        if t.mantissa < 0 {
            assert(s[0] == '-');
            assert(body =~= dec_str(m));
        } else {
            assert(s[0] == dec_str(m)[0]);
            assert(is_digit(s[0]));
            assert(body =~= dec_str(m));
        }
        lemma_no_dot_strip_identity(body);
    } else {
        let w = t.scale as nat;
        let p = pow10(w);
        lemma_pow10_monotone(0, w);
        let q = m / p;
        let r = m % p;
        vstd::arithmetic::div_mod::lemma_mod_bound(m as int, p as int);
        vstd::arithmetic::div_mod::lemma_fundamental_div_mod(m as int, p as int);
        lemma_dec_str_digits(q);
        lemma_dec_str_pad_digits(r, w);
        let whole = dec_str(q);
        let frac = dec_str_pad(r, w);
        assert(s =~= sign + whole + seq!['.'] + frac);
        let body = lit_body(s);
        if t.mantissa < 0 {
            assert(s[0] == '-');
            assert(body =~= whole + seq!['.'] + frac);
        } else {
            assert(s[0] == whole[0]);
            assert(is_digit(s[0]));
            assert(body =~= whole + seq!['.'] + frac);
        }
        let d = whole.len() as int;
        assert(body[d] == '.');
        assert(forall|i: int| 0 <= i < d ==> is_digit(#[trigger] body[i]));
        assert(forall|i: int| d < i < body.len() ==> is_digit(#[trigger] body[i]));
        assert forall|i: int| 0 <= i < body.len() && i != d implies (#[trigger] body[i])
            != '.' by {
            assert(is_digit(body[i]));
        }
        // strip the single dot
        lemma_strip_dots_concat(whole + seq!['.'], frac);
        lemma_strip_dots_concat(whole, seq!['.']);
        lemma_no_dot_strip_identity(whole);
        lemma_no_dot_strip_identity(frac);
        let dot = seq!['.'];
        assert(dot.len() == 1);
        assert(dot.last() == '.');
        assert(dot.drop_last() =~= Seq::<char>::empty());
        assert(strip_dots(dot) == strip_dots(dot.drop_last()));
        assert(strip_dots(dot) =~= Seq::<char>::empty());
        assert(body =~= (whole + seq!['.']) + frac);
        assert(strip_dots(body) =~= whole + frac);
        // its digits denote the mantissa magnitude
        lemma_digits_val_concat(whole, frac);
        assert(pow10(frac.len()) == p);
        assert(digits_val(strip_dots(body)) == q * p + r);
        // the fraction length is the scale
        lemma_frac_len_single_dot(body, d);
        // the digit count is positive
        assert(strip_dots(body).len() >= 1);
    }
}

proof fn lemma_two_dots(s: Seq<char>, d1: int, d2: int)
    requires
        0 <= d1 < d2 < s.len(),
        s[d1] == '.',
        s[d2] == '.',
    ensures
        s.len() - strip_dots(s).len() >= 2,
{
    assert(s =~= s.take(d2) + s.skip(d2));
    lemma_strip_dots_concat(s.take(d2), s.skip(d2));
    assert(s.take(d2)[d1] == '.');
    lemma_has_dot_witness(s.take(d2), d1);
    lemma_strip_dots_len_le(s.take(d2));
    assert(s.skip(d2)[0] == '.');
    lemma_has_dot_witness(s.skip(d2), 0);
    lemma_strip_dots_len_le(s.skip(d2));
}

proof fn lemma_scaled_in_range(t: Temperature, other_scale: nat)
    requires
        t.wf(),
        other_scale <= SCALE_LIMIT,
    ensures
        -0x8000_0000_0000_0000_0000_0000_0000_0000 <= t.scaled(other_scale)
            < 0x8000_0000_0000_0000_0000_0000_0000_0000,
{
    lemma_pow10_values();
    lemma_pow10_monotone(other_scale, 19);
    vstd::arithmetic::mul::lemma_mul_inequality(t.mantissa as int, MANTISSA_LIMIT as int, pow10(
        other_scale,
    ) as int);
    vstd::arithmetic::mul::lemma_mul_inequality(-(MANTISSA_LIMIT as int), t.mantissa as int, pow10(
        other_scale,
    ) as int);
    vstd::arithmetic::mul::lemma_mul_inequality(pow10(other_scale) as int, pow10(19) as int,
        MANTISSA_LIMIT as int);
}

} // verus!

