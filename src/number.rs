//! Decimal numerals: integers, exact decimal fractions and integer flags.
use vstd::prelude::*;
use crate::text::{split, split_chars, views};

verus! {

/// The largest number of fractional digits that a decimal keeps.
pub const MAX_SCALE: u32 = 18;

/// An exact decimal number `mantissa / 10^scale`, as written in a document.
#[derive(Clone, Copy, Debug, PartialEq, Eq, Structural)]
pub struct Decimal {
    pub mantissa: i64,
    pub scale: u32,
}

impl Decimal {
    /// The values that a numeral can denote.
    pub open spec fn wf(self) -> bool {
        self.scale <= MAX_SCALE && self.mantissa > i64::MIN
    }

    /// The whole number `v`.
    pub fn whole(v: i64) -> (r: Decimal)
        ensures
            r.mantissa == v,
            r.scale == 0,
    {
        Decimal { mantissa: v, scale: 0 }
    }

    /// Whether the number is above zero.
    pub fn is_positive(&self) -> (r: bool)
        ensures
            r == (self.mantissa > 0),
    {
        self.mantissa > 0
    }
}

pub open spec fn is_digit(c: char) -> bool {
    '0' <= c && c <= '9'
}

pub open spec fn digit_value(c: char) -> int {
    (c as int) - ('0' as int)
}

pub open spec fn all_digits(s: Seq<char>) -> bool {
    forall|i: int| 0 <= i < s.len() ==> is_digit(#[trigger] s[i])
}

/// The number that the decimal digits `s` denote (most significant first).
pub open spec fn digits_value(s: Seq<char>) -> int
    decreases s.len(),
{
    if s.len() == 0 {
        0
    } else {
        digits_value(s.drop_last()) * 10 + digit_value(s.last())
    }
}

/// Whether `s` starts with a sign character.
pub open spec fn has_sign(s: Seq<char>) -> bool {
    s.len() > 0 && (s[0] == '-' || s[0] == '+')
}

/// `s` without its sign character.
pub open spec fn unsigned_part(s: Seq<char>) -> Seq<char> {
    if has_sign(s) {
        s.drop_first()
    } else {
        s
    }
}

pub open spec fn is_negative_text(s: Seq<char>) -> bool {
    s.len() > 0 && s[0] == '-'
}

/// The 32-bit integer that `s` denotes: an optional sign, then one or more decimal digits,
/// with a value that fits.
pub open spec fn int_text_value(s: Seq<char>) -> Option<i32> {
    let body = unsigned_part(s);
    let v = if is_negative_text(s) {
        -digits_value(body)
    } else {
        digits_value(body)
    };
    if body.len() > 0 && all_digits(body) && i32::MIN <= v <= i32::MAX {
        Some(v as i32)
    } else {
        None
    }
}

/// The decimal that `s` denotes without an exponent: an optional sign, digits, then
/// optionally a point and more digits, with at least one digit in all, at most `MAX_SCALE` of
/// them after the point, and a mantissa that fits in 63 bits.
pub open spec fn plain_decimal_value(s: Seq<char>) -> Option<Decimal> {
    let parts = split(unsigned_part(s), '.');
    let whole = parts[0];
    let frac = if parts.len() == 2 {
        parts[1]
    } else {
        Seq::<char>::empty()
    };
    let m = digits_value(whole + frac);
    if parts.len() <= 2 && all_digits(whole) && all_digits(frac) && whole.len() + frac.len() > 0
        && frac.len() <= MAX_SCALE && m <= i64::MAX {
        Some(
            Decimal {
                mantissa: (if is_negative_text(s) {
                    -m
                } else {
                    m
                }) as i64,
                scale: frac.len() as u32,
            },
        )
    } else {
        None
    }
}

pub open spec fn pow10(n: nat) -> int
    decreases n,
{
    if n == 0 {
        1
    } else {
        10 * pow10((n - 1) as nat)
    }
}

/// The first index at or after `i` that holds an exponent mark `e` or `E` (or the length).
pub open spec fn exp_mark_from(s: Seq<char>, i: int) -> int
    decreases s.len() - i,
{
    if i < 0 || i >= s.len() {
        s.len() as int
    } else if s[i] == 'e' || s[i] == 'E' {
        i
    } else {
        exp_mark_from(s, i + 1)
    }
}

/// `d` times `10^x`, when the result keeps at most `MAX_SCALE` fractional digits and its
/// mantissa fits in 63 bits.
pub open spec fn scaled(d: Decimal, x: int) -> Option<Decimal> {
    let k = d.scale as int - x;
    if 0 <= k <= MAX_SCALE {
        Some(Decimal { mantissa: d.mantissa, scale: k as u32 })
    } else if k > MAX_SCALE {
        None
    } else {
        let m = d.mantissa * pow10((-k) as nat);
        if -i64::MAX <= m <= i64::MAX {
            Some(Decimal { mantissa: m as i64, scale: 0 })
        } else {
            None
        }
    }
}

/// The decimal that `s` denotes: a plain decimal, optionally followed by an exponent, `e` or
/// `E` and a signed integer, that scales it by that power of ten.
pub open spec fn decimal_text_value(s: Seq<char>) -> Option<Decimal> {
    let e = exp_mark_from(s, 0);
    if e >= s.len() {
        plain_decimal_value(s)
    } else {
        match (
            plain_decimal_value(s.subrange(0, e)),
            int_text_value(s.subrange(e + 1, s.len() as int)),
        ) {
            (Some(d), Some(x)) => scaled(d, x as int),
            _ => None,
        }
    }
}

/// The flag that `s` denotes: an integer, true unless it is zero.
pub open spec fn bool_text_value(s: Seq<char>) -> Option<bool> {
    match int_text_value(s) {
        Some(n) => Some(n != 0),
        None => None,
    }
}

pub proof fn lemma_digits_value_nonneg(s: Seq<char>)
    requires
        all_digits(s),
    ensures
        digits_value(s) >= 0,
    decreases s.len(),
{
    if s.len() > 0 {
        lemma_digits_value_nonneg(s.drop_last());
    }
}

fn digit_of(c: char) -> (r: u64)
    requires
        is_digit(c),
    ensures
        r == digit_value(c),
{
    (c as u32 - '0' as u32) as u64
}

/// The value of the digits `s` when they are all decimal digits and it is at most `limit`.
pub fn digits_up_to(s: &[char], limit: u64) -> (r: Option<u64>)
    ensures
        r matches Some(v) ==> all_digits(s@) && v == digits_value(s@) && v <= limit,
        r is None ==> !all_digits(s@) || digits_value(s@) > limit,
{
    let n = s.len();
    let mut acc: u64 = 0;
    let mut over = false;
    let mut i: usize = 0;
    while i < n
        invariant
            i <= n == s@.len(),
            all_digits(s@.subrange(0, i as int)),
            !over ==> acc == digits_value(s@.subrange(0, i as int)) && acc <= limit,
            over ==> digits_value(s@.subrange(0, i as int)) > limit,
        decreases n - i,
    {
        let c = s[i];
        if !('0' <= c && c <= '9') {
            proof {
                assert(!is_digit(s@[i as int]));
            }
            return None;
        }
        let d = digit_of(c);
        let ghost p = s@.subrange(0, i as int);
        let ghost q = s@.subrange(0, i as int + 1);
        proof {
            assert(q.drop_last() =~= p);
            assert(q.last() == c);
            assert(digits_value(q) == digits_value(p) * 10 + d);
            lemma_digits_value_nonneg(p);
        }
        if !over {
            if d > limit || acc > (limit - d) / 10 {
                proof {
                    assert(acc * 10 + d > limit) by (nonlinear_arith)
                        requires
                            d > limit || acc > (limit - d) / 10,
                            acc >= 0,
                            d >= 0,
                    ;
                }
                over = true;
            } else {
                proof {
                    assert(acc * 10 + d <= limit) by (nonlinear_arith)
                        requires
                            d <= limit,
                            acc <= (limit - d) / 10,
                            acc >= 0,
                    ;
                }
                acc = acc * 10 + d;
            }
        }
        i += 1;
        assert(all_digits(s@.subrange(0, i as int))) by {
            assert forall|k: int| 0 <= k < i implies is_digit(#[trigger] s@.subrange(0, i as int)[k]) by {
                if k < i - 1 {
                    assert(s@.subrange(0, i as int)[k] == p[k]);
                }
            }
        }
    }
    assert(s@.subrange(0, n as int) =~= s@);
    if over {
        None
    } else {
        Some(acc)
    }
}

/// Reads a 32-bit integer: an optional sign followed by decimal digits.
pub fn int_of_chars(s: &[char]) -> (r: Option<i32>)
    ensures
        r == int_text_value(s@),
{
    let n = s.len();
    let signed = n > 0 && (s[0] == '-' || s[0] == '+');
    let negative = n > 0 && s[0] == '-';
    let start: usize = if signed {
        1
    } else {
        0
    };
    let body = crate::text::slice_of(s, start, n);
    proof {
        if signed {
            assert(s@.drop_first() =~= s@.subrange(1, n as int));
        } else {
            assert(s@ =~= s@.subrange(0, n as int));
        }
        assert(body@ == unsigned_part(s@));
    }
    if body.len() == 0 {
        return None;
    }
    match digits_up_to(body.as_slice(), 2147483648) {
        None => None,
        Some(v) => {
            if negative {
                Some((0 - (v as i64)) as i32)
            } else if v <= 2147483647 {
                Some(v as i32)
            } else {
                None
            }
        },
    }
}

/// Reads a decimal number without an exponent: an optional sign, digits, and optionally a point
/// and more digits.
fn plain_decimal_of_chars(s: &[char]) -> (r: Option<Decimal>)
    ensures
        r == plain_decimal_value(s@),
        r matches Some(d) ==> d.wf(),
{
    let n = s.len();
    let signed = n > 0 && (s[0] == '-' || s[0] == '+');
    let negative = n > 0 && s[0] == '-';
    let start: usize = if signed {
        1
    } else {
        0
    };
    let body = crate::text::slice_of(s, start, n);
    proof {
        if signed {
            assert(s@.drop_first() =~= s@.subrange(1, n as int));
        } else {
            assert(s@ =~= s@.subrange(0, n as int));
        }
        assert(body@ == unsigned_part(s@));
    }
    let parts = split_chars(body.as_slice(), '.');
    proof {
        crate::text::lemma_split_nonempty(body@, '.');
    }
    if parts.len() > 2 {
        return None;
    }
    let mut digits: Vec<char> = parts[0].clone();
    assert(digits@ == views(parts@)[0]);
    let mut scale: usize = 0;
    if parts.len() == 2 {
        let frac = &parts[1];
        assert(frac@ == views(parts@)[1]);
        if frac.len() > 18 {
            return None;
        }
        let mut j: usize = 0;
        let ghost w = digits@;
        while j < frac.len()
            invariant
                j <= frac@.len() <= 18,
                digits@ == w + frac@.subrange(0, j as int),
            decreases frac@.len() - j,
        {
            digits.push(frac[j]);
            j += 1;
            assert(digits@ =~= w + frac@.subrange(0, j as int));
        }
        assert(frac@.subrange(0, j as int) =~= frac@);
        scale = frac.len();
    } else {
        assert(digits@ =~= digits@ + Seq::<char>::empty());
    }
    if digits.len() == 0 {
        return None;
    }
    proof {
        let parts_v = split(unsigned_part(s@), '.');
        let whole = parts_v[0];
        let frac = if parts_v.len() == 2 {
            parts_v[1]
        } else {
            Seq::<char>::empty()
        };
        assert(digits@ == whole + frac);
        assert(all_digits(whole + frac) ==> all_digits(whole) && all_digits(frac)) by {
            if all_digits(whole + frac) {
                assert forall|k: int| 0 <= k < whole.len() implies is_digit(#[trigger] whole[k]) by {
                    assert((whole + frac)[k] == whole[k]);
                }
                assert forall|k: int| 0 <= k < frac.len() implies is_digit(#[trigger] frac[k]) by {
                    assert((whole + frac)[k + whole.len()] == frac[k]);
                }
            }
        }
        assert(all_digits(whole) && all_digits(frac) ==> all_digits(whole + frac)) by {
            if all_digits(whole) && all_digits(frac) {
                assert forall|k: int| 0 <= k < (whole + frac).len() implies is_digit(
                    #[trigger] (whole + frac)[k],
                ) by {
                    if k < whole.len() {
                        assert((whole + frac)[k] == whole[k]);
                    } else {
                        assert((whole + frac)[k] == frac[k - whole.len()]);
                    }
                }
            }
        }
    }
    match digits_up_to(digits.as_slice(), 9223372036854775807) {
        None => None,
        Some(v) => {
            let m: i64 = if negative {
                0 - (v as i64)
            } else {
                v as i64
            };
            Some(Decimal { mantissa: m, scale: scale as u32 })
        },
    }
}

proof fn lemma_pow10_step(n: nat)
    ensures
        pow10(n + 1) == 10 * pow10(n),
        pow10(n) >= 1,
    decreases n,
{
    if n > 0 {
        lemma_pow10_step((n - 1) as nat);
    }
}

proof fn lemma_pow10_grows(a: nat, b: nat)
    requires
        a <= b,
    ensures
        pow10(a) <= pow10(b),
    decreases b - a,
{
    lemma_pow10_step(a);
    if a < b {
        lemma_pow10_step((b - 1) as nat);
        lemma_pow10_grows(a, (b - 1) as nat);
    }
}

/// `d` times `10^x`, exactly, when it fits.
fn scaled_exec(d: Decimal, x: i32) -> (r: Option<Decimal>)
    requires
        d.wf(),
    ensures
        r == scaled(d, x as int),
        r matches Some(v) ==> v.wf(),
{
    let k: i64 = d.scale as i64 - x as i64;
    if 0 <= k && k <= 18 {
        return Some(Decimal { mantissa: d.mantissa, scale: k as u32 });
    }
    if k > 18 {
        return None;
    }
    let n: i64 = -k;
    if d.mantissa == 0 {
        return Some(Decimal { mantissa: 0, scale: 0 });
    }
    let neg = d.mantissa < 0;
    let a0: i128 = if neg {
        -(d.mantissa as i128)
    } else {
        d.mantissa as i128
    };
    let mut a: i128 = a0;
    let mut j: i64 = 0;
    proof {
        lemma_pow10_step(0);
        assert(pow10(0) == 1);
        assert(a0 * pow10(0) == a0);
    }
    while j < n
        invariant
            0 <= j <= n,
            n == x as int - d.scale as int,
            d.wf(),
            neg == (d.mantissa < 0),
            a0 == (if neg {
                -d.mantissa
            } else {
                d.mantissa as int
            }),
            0 <= a0 <= i64::MAX,
            a == a0 * pow10(j as nat),
            0 <= a <= i64::MAX,
        decreases n - j,
    {
        proof {
            lemma_pow10_step(j as nat);
            assert(a0 * pow10((j + 1) as nat) == 10 * a) by (nonlinear_arith)
                requires
                    pow10((j + 1) as nat) == 10 * pow10(j as nat),
                    a == a0 * pow10(j as nat),
            ;
        }
        if a > 922337203685477580 {
            proof {
                lemma_pow10_grows((j + 1) as nat, n as nat);
                assert(a0 * pow10((j + 1) as nat) > i64::MAX);
                assert(a0 * pow10(n as nat) >= a0 * pow10((j + 1) as nat)) by (nonlinear_arith)
                    requires
                        pow10(n as nat) >= pow10((j + 1) as nat),
                        a0 >= 0,
                ;
                if neg {
                    assert(d.mantissa * pow10(n as nat) == -(a0 * pow10(n as nat))) by (nonlinear_arith)
                        requires
                            d.mantissa == -a0,
                    ;
                } else {
                    assert(d.mantissa * pow10(n as nat) == a0 * pow10(n as nat));
                }
                let kk = d.scale as int - x as int;
                assert(kk < 0);
                assert((-kk) as nat == n as nat);
                let m = d.mantissa * pow10((-kk) as nat);
                assert(m > i64::MAX || m < -i64::MAX);
            }
            return None;
        }
        a = a * 10;
        j += 1;
    }
    proof {
        if neg {
            assert(d.mantissa * pow10(n as nat) == -(a0 * pow10(n as nat))) by (nonlinear_arith)
                requires
                    d.mantissa == -a0,
            ;
        } else {
            assert(d.mantissa * pow10(n as nat) == a0 * pow10(n as nat));
        }
    }
    let m: i64 = if neg {
        -(a as i64)
    } else {
        a as i64
    };
    Some(Decimal { mantissa: m, scale: 0 })
}

/// Reads a decimal number: an optional sign, digits, optionally a point and more digits, and
/// optionally an exponent.
pub fn decimal_of_chars(s: &[char]) -> (r: Option<Decimal>)
    ensures
        r == decimal_text_value(s@),
        r matches Some(d) ==> d.wf(),
{
    let mut e: usize = 0;
    while e < s.len() && s[e] != 'e' && s[e] != 'E'
        invariant
            e <= s@.len(),
            exp_mark_from(s@, 0) == exp_mark_from(s@, e as int),
        decreases s@.len() - e,
    {
        e += 1;
    }
    if e >= s.len() {
        return plain_decimal_of_chars(s);
    }
    let body = crate::text::slice_of(s, 0, e);
    let rest = crate::text::slice_of(s, e + 1, s.len());
    match (plain_decimal_of_chars(body.as_slice()), int_of_chars(rest.as_slice())) {
        (Some(d), Some(x)) => scaled_exec(d, x),
        _ => None,
    }
}

/// Reads a flag written as an integer: zero is false, any other integer true.
pub fn bool_of_chars(s: &[char]) -> (r: Option<bool>)
    ensures
        r == bool_text_value(s@),
{
    match int_of_chars(s) {
        Some(n) => Some(n != 0),
        None => None,
    }
}

} // verus!
