//! Laws over the decoders: writing a decoded pair back out as text decodes to the same value.
use vstd::prelude::*;
use crate::fields::mode_value;
use crate::number::{
    all_digits, bool_text_value, decimal_text_value, digit_value, digits_value, exp_mark_from,
    int_text_value, is_digit, plain_decimal_value, unsigned_part, Decimal, MAX_SCALE,
};
use crate::scanner::{first_nonspace_from, first_space_from, kv_split, last_colon_below, none_text};
use crate::sections::{decodes, key_index, keys_of, value_kind, Table, ValueKind};
use crate::text::{is_space, prepend, split};
use crate::beatmap::GameMode;

verus! {

/// The digit character for `k` in `0..10`.
pub open spec fn digit_char(k: int) -> char {
    if k <= 0 {
        '0'
    } else if k == 1 {
        '1'
    } else if k == 2 {
        '2'
    } else if k == 3 {
        '3'
    } else if k == 4 {
        '4'
    } else if k == 5 {
        '5'
    } else if k == 6 {
        '6'
    } else if k == 7 {
        '7'
    } else if k == 8 {
        '8'
    } else {
        '9'
    }
}

/// The decimal digits of `n`, most significant first, without leading zeros.
pub open spec fn digits_of(n: nat) -> Seq<char>
    decreases n,
{
    if n < 10 {
        seq![digit_char(n as int)]
    } else {
        digits_of(n / 10).push(digit_char((n % 10) as int))
    }
}

/// `s` with zeros put in front until it has at least `len` characters.
pub open spec fn zero_pad(s: Seq<char>, len: nat) -> Seq<char>
    decreases len - s.len(),
{
    if s.len() >= len {
        s
    } else {
        zero_pad(seq!['0'] + s, len)
    }
}

/// The text of an integer: a minus sign when it is negative, then its digits.
pub open spec fn int_text(v: int) -> Seq<char> {
    if v < 0 {
        seq!['-'] + digits_of((-v) as nat)
    } else {
        digits_of(v as nat)
    }
}

/// The text of a decimal: its sign, then its digits with a point before the last `scale` of
/// them.
pub open spec fn decimal_text(d: Decimal) -> Seq<char> {
    let a = if d.mantissa < 0 {
        -d.mantissa
    } else {
        d.mantissa as int
    };
    let p = zero_pad(digits_of(a as nat), (d.scale + 1) as nat);
    let whole = p.subrange(0, p.len() - d.scale);
    let frac = p.subrange(p.len() - d.scale, p.len() as int);
    let body = if d.scale == 0 {
        p
    } else {
        whole + seq!['.'] + frac
    };
    if d.mantissa < 0 {
        seq!['-'] + body
    } else {
        body
    }
}

pub open spec fn mode_text(m: GameMode) -> Seq<char> {
    match m {
        GameMode::Osu => seq!['0'],
        GameMode::Taiko => seq!['1'],
        GameMode::CTB => seq!['2'],
        GameMode::Mania => seq!['3'],
    }
}

/// The key of a `key: value` line.
pub open spec fn line_key(line: Seq<char>) -> Seq<char> {
    match kv_split(line) {
        Some((k, _)) => k,
        None => Seq::empty(),
    }
}

/// The value of a `key: value` line.
pub open spec fn line_value(line: Seq<char>) -> Seq<char> {
    match kv_split(line) {
        Some((_, v)) => v,
        None => Seq::empty(),
    }
}

/// The line `key : value`.
pub open spec fn pair_text(k: Seq<char>, v: Seq<char>) -> Seq<char> {
    k + seq![' ', ':', ' '] + v
}

/// A value written back out in the plain form of its kind.
pub open spec fn scalar_text(kind: ValueKind, v: Seq<char>) -> Seq<char> {
    match kind {
        ValueKind::Int => int_text(int_text_value(v)->0 as int),
        ValueKind::Dec => decimal_text(decimal_text_value(v)->0),
        ValueKind::Flag => if bool_text_value(v)->0 {
            seq!['1']
        } else {
            seq!['0']
        },
        ValueKind::Mode => mode_text(mode_value(v)->0),
        _ => v,
    }
}

/// Whether two texts decode to the same value of the given kind.
pub open spec fn same_value(kind: ValueKind, a: Seq<char>, b: Seq<char>) -> bool {
    match kind {
        ValueKind::Int => int_text_value(a) == int_text_value(b),
        ValueKind::Dec => decimal_text_value(a) == decimal_text_value(b),
        ValueKind::Flag => bool_text_value(a) == bool_text_value(b),
        ValueKind::Mode => mode_value(a) == mode_value(b),
        _ => a == b,
    }
}

pub open spec fn is_scalar(kind: ValueKind) -> bool {
    kind != ValueKind::IntList && kind != ValueKind::Words
}

proof fn lemma_digit_char(k: int)
    requires
        0 <= k < 10,
    ensures
        is_digit(digit_char(k)),
        digit_value(digit_char(k)) == k,
{
}

proof fn lemma_digits_of(n: nat)
    ensures
        digits_of(n).len() >= 1,
        all_digits(digits_of(n)),
        digits_value(digits_of(n)) == n,
    decreases n,
{
    if n < 10 {
        lemma_digit_char(n as int);
        let s = seq![digit_char(n as int)];
        assert(s.drop_last() =~= Seq::<char>::empty());
        assert(digits_value(Seq::<char>::empty()) == 0);
        assert(digits_value(s) == digits_value(s.drop_last()) * 10 + digit_value(s.last()));
    } else {
        lemma_digits_of(n / 10);
        lemma_digit_char((n % 10) as int);
        let d = digits_of(n / 10);
        let s = d.push(digit_char((n % 10) as int));
        assert(s.drop_last() =~= d);
        assert(s.last() == digit_char((n % 10) as int));
        assert(digits_value(s) == digits_value(d) * 10 + digit_value(s.last()));
        assert(n == (n / 10) * 10 + n % 10);
        assert forall|i: int| 0 <= i < s.len() implies is_digit(#[trigger] s[i]) by {
            if i < d.len() {
                assert(s[i] == d[i]);
            }
        }
    }
}

proof fn lemma_leading_zero(s: Seq<char>)
    ensures
        digits_value(seq!['0'] + s) == digits_value(s),
    decreases s.len(),
{
    let t = seq!['0'] + s;
    if s.len() == 0 {
        assert(t.drop_last() =~= Seq::<char>::empty());
        assert(digits_value(Seq::<char>::empty()) == 0);
        assert(t.last() == '0');
        assert(digits_value(t) == digits_value(t.drop_last()) * 10 + digit_value(t.last()));
    } else {
        lemma_leading_zero(s.drop_last());
        assert(t.drop_last() =~= seq!['0'] + s.drop_last());
        assert(t.last() == s.last());
        assert(digits_value(t) == digits_value(t.drop_last()) * 10 + digit_value(t.last()));
        assert(digits_value(s) == digits_value(s.drop_last()) * 10 + digit_value(s.last()));
    }
}

proof fn lemma_zero_pad(s: Seq<char>, len: nat)
    requires
        all_digits(s),
        s.len() >= 1,
    ensures
        all_digits(zero_pad(s, len)),
        digits_value(zero_pad(s, len)) == digits_value(s),
        zero_pad(s, len).len() >= len,
        zero_pad(s, len).len() >= 1,
    decreases len - s.len(),
{
    if s.len() < len {
        let t = seq!['0'] + s;
        assert forall|i: int| 0 <= i < t.len() implies is_digit(#[trigger] t[i]) by {
            if i > 0 {
                assert(t[i] == s[i - 1]);
            }
        }
        lemma_leading_zero(s);
        lemma_zero_pad(t, len);
    }
}

/// A piece without the separator in front of the rest joins the first piece of the rest.
proof fn lemma_split_join(a: Seq<char>, rest: Seq<char>, sep: char)
    requires
        forall|i: int| 0 <= i < a.len() ==> a[i] != sep,
    ensures
        split(a + rest, sep) == prepend(a, split(rest, sep)),
    decreases a.len(),
{
    crate::text::lemma_split_nonempty(rest, sep);
    if a.len() == 0 {
        assert(a + rest =~= rest);
        assert(prepend(a, split(rest, sep)) =~= split(rest, sep));
    } else {
        let t = a.drop_first();
        lemma_split_join(t, rest, sep);
        assert((a + rest).drop_first() =~= t + rest);
        crate::text::lemma_split_nonempty(t + rest, sep);
        assert(seq![a[0]] + (t + split(rest, sep)[0]) =~= a + split(rest, sep)[0]);
        assert(split(t + rest, sep).update(0, seq![a[0]] + split(t + rest, sep)[0]) =~= prepend(
            a,
            split(rest, sep),
        ));
    }
}

proof fn lemma_split_single(a: Seq<char>, sep: char)
    requires
        forall|i: int| 0 <= i < a.len() ==> a[i] != sep,
    ensures
        split(a, sep) == seq![a],
{
    lemma_split_join(a, Seq::empty(), sep);
    assert(a + Seq::<char>::empty() =~= a);
    assert(prepend(a, seq![Seq::<char>::empty()]) =~= seq![a]);
}

proof fn lemma_split_two(a: Seq<char>, b: Seq<char>, sep: char)
    requires
        forall|i: int| 0 <= i < a.len() ==> a[i] != sep,
        forall|i: int| 0 <= i < b.len() ==> b[i] != sep,
    ensures
        split(a + seq![sep] + b, sep) == seq![a, b],
{
    lemma_split_join(a, seq![sep] + b, sep);
    assert(a + seq![sep] + b =~= a + (seq![sep] + b));
    lemma_split_single(b, sep);
    let t = seq![sep] + b;
    assert(t.drop_first() =~= b);
    assert(split(t, sep) == seq![Seq::<char>::empty()] + seq![b]);
    assert(prepend(a, seq![Seq::<char>::empty()] + seq![b]) =~= seq![a, b]);
}

/// Writing an integer out and reading it back gives the integer.
pub proof fn lemma_int_round_trip(v: i32)
    ensures
        int_text_value(int_text(v as int)) == Some(v),
{
    let s = int_text(v as int);
    if v < 0 {
        let a = (-(v as int)) as nat;
        lemma_digits_of(a);
        assert(s.drop_first() =~= digits_of(a));
    } else {
        lemma_digits_of(v as nat);
        assert(is_digit(s[0]));
    }
}

/// Writing a decoded decimal out and reading it back gives the decimal.
pub proof fn lemma_decimal_round_trip(d: Decimal)
    requires
        d.wf(),
    ensures
        decimal_text_value(decimal_text(d)) == Some(d),
{
    lemma_plain_round_trip(d);
}

proof fn lemma_no_exp_mark(s: Seq<char>, i: int)
    requires
        0 <= i <= s.len(),
        forall|q: int| 0 <= q < s.len() ==> #[trigger] s[q] != 'e' && s[q] != 'E',
    ensures
        exp_mark_from(s, i) == s.len(),
    decreases s.len() - i,
{
    if i < s.len() {
        lemma_no_exp_mark(s, i + 1);
    }
}

proof fn lemma_plain_round_trip(d: Decimal)
    requires
        d.wf(),
    ensures
        plain_decimal_value(decimal_text(d)) == Some(d),
        decimal_text_value(decimal_text(d)) == Some(d),
{
    let a: int = if d.mantissa < 0 {
        -d.mantissa
    } else {
        d.mantissa as int
    };
    lemma_digits_of(a as nat);
    lemma_zero_pad(digits_of(a as nat), (d.scale + 1) as nat);
    let p = zero_pad(digits_of(a as nat), (d.scale + 1) as nat);
    let whole = p.subrange(0, p.len() - d.scale);
    let frac = p.subrange(p.len() - d.scale, p.len() as int);
    assert(whole + frac =~= p);
    assert forall|i: int| 0 <= i < whole.len() implies whole[i] != '.' && is_digit(#[trigger] whole[i]) by {
        assert(whole[i] == p[i]);
    }
    assert forall|i: int| 0 <= i < frac.len() implies frac[i] != '.' && is_digit(#[trigger] frac[i]) by {
        assert(frac[i] == p[i + p.len() - d.scale]);
    }
    let body = if d.scale == 0 {
        p
    } else {
        whole + seq!['.'] + frac
    };
    let s = decimal_text(d);
    assert(unsigned_part(s) == body) by {
        if d.mantissa < 0 {
            assert(s.drop_first() =~= body);
        } else {
            if d.scale == 0 {
                assert(is_digit(p[0]));
            } else {
                assert(body[0] == whole[0]);
                assert(is_digit(whole[0]));
            }
        }
    }
    if d.scale == 0 {
        assert forall|i: int| 0 <= i < p.len() implies p[i] != '.' by {
            assert(is_digit(p[i]));
        }
        lemma_split_single(p, '.');
        assert(p + Seq::<char>::empty() =~= p);
    } else {
        lemma_split_two(whole, frac, '.');
    }
    assert forall|q: int| 0 <= q < body.len() implies #[trigger] body[q] != 'e' && body[q] != 'E' by {
        if d.scale == 0 {
            assert(is_digit(p[q]));
        } else if q < whole.len() {
            assert(body[q] == whole[q]);
        } else if q > whole.len() {
            assert(body[q] == frac[q - whole.len() - 1]);
        }
    }
    assert forall|q: int| 0 <= q < s.len() implies #[trigger] s[q] != 'e' && s[q] != 'E' by {
        if d.mantissa < 0 && q > 0 {
            assert(s[q] == body[q - 1]);
        }
    }
    lemma_no_exp_mark(s, 0);
}

proof fn lemma_first_space(s: Seq<char>, i: int, n: int)
    requires
        0 <= i <= n < s.len(),
        forall|q: int| i <= q < n ==> !is_space(#[trigger] s[q]),
        is_space(s[n]),
    ensures
        first_space_from(s, i) == n,
    decreases n - i,
{
    if i < n {
        lemma_first_space(s, i + 1, n);
    }
}

proof fn lemma_first_space_prefix(s: Seq<char>, i: int)
    requires
        0 <= i,
    ensures
        i <= first_space_from(s, i) || i > s.len(),
        first_space_from(s, i) <= s.len(),
        forall|q: int| i <= q < first_space_from(s, i) ==> !is_space(#[trigger] s[q]),
    decreases s.len() - i,
{
    if i < s.len() && !is_space(s[i]) {
        lemma_first_space_prefix(s, i + 1);
    }
}

proof fn lemma_first_nonspace(s: Seq<char>, i: int)
    requires
        0 <= i,
    ensures
        i <= s.len() ==> i <= first_nonspace_from(s, i) <= s.len(),
        first_nonspace_from(s, i) < s.len() ==> !is_space(s[first_nonspace_from(s, i)]),
    decreases s.len() - i,
{
    if i < s.len() && is_space(s[i]) {
        lemma_first_nonspace(s, i + 1);
    }
}

proof fn lemma_last_colon(s: Seq<char>, r: int)
    ensures
        last_colon_below(s, r) == 0 || (1 <= last_colon_below(s, r) < r),
    decreases r,
{
    if r > 1 && r <= s.len() && s[r - 1] != ':' {
        lemma_last_colon(s, r - 1);
    }
}

/// A pair that a line decodes to has a key without white space and a value that starts with
/// a non-space character.
pub proof fn lemma_pair_shape(s: Seq<char>)
    requires
        kv_split(s) is Some,
    ensures
        ({
            let (k, v) = kv_split(s)->0;
            &&& k.len() >= 1
            &&& forall|i: int| 0 <= i < k.len() ==> !is_space(#[trigger] k[i])
            &&& v.len() >= 1
            &&& !is_space(v[0])
        }),
{
    let r = first_space_from(s, 0);
    lemma_first_space_prefix(s, 0);
    lemma_last_colon(s, r);
    lemma_first_nonspace(s, r);
    let j = first_nonspace_from(s, r);
    let cp = if j < s.len() && s[j] == ':' {
        j
    } else {
        last_colon_below(s, r)
    };
    lemma_first_nonspace(s, cp + 1);
    let (k, v) = kv_split(s)->0;
    assert forall|i: int| 0 <= i < k.len() implies !is_space(#[trigger] k[i]) by {
        assert(k[i] == s[i]);
    }
    let v0 = first_nonspace_from(s, cp + 1);
    if v0 < s.len() {
        assert(v[0] == s[v0]);
    } else {
        assert(v == none_text());
    }
}

/// The line `key : value` decodes to that key and value, for a key without white space and a
/// value that starts with a non-space character.
pub proof fn lemma_pair_round_trip(k: Seq<char>, v: Seq<char>)
    requires
        k.len() >= 1,
        forall|i: int| 0 <= i < k.len() ==> !is_space(#[trigger] k[i]),
        v.len() >= 1,
        !is_space(v[0]),
    ensures
        kv_split(pair_text(k, v)) == Some((k, v)),
{
    let s = pair_text(k, v);
    let n = k.len() as int;
    assert(s[n] == ' ');
    assert(s[n + 1] == ':');
    assert(s[n + 2] == ' ');
    assert(s[n + 3] == v[0]);
    assert forall|q: int| 0 <= q < n implies !is_space(#[trigger] s[q]) by {
        assert(s[q] == k[q]);
    }
    lemma_first_space(s, 0, n);
    assert(first_nonspace_from(s, n) == first_nonspace_from(s, n + 1));
    assert(first_nonspace_from(s, n + 1) == n + 1);
    assert(first_nonspace_from(s, n + 2) == first_nonspace_from(s, n + 3));
    assert(first_nonspace_from(s, n + 3) == n + 3);
    assert(s.subrange(0, n) =~= k);
    assert(s.subrange(n + 3, s.len() as int) =~= v);
}

proof fn lemma_int_text(v: Seq<char>)
    requires
        int_text_value(v) is Some,
    ensures
        ({
            let w = scalar_text(ValueKind::Int, v);
            w.len() >= 1 && !is_space(w[0]) && w[0] != ':' && same_value(ValueKind::Int, w, v)
        }),
{
    let x = int_text_value(v)->0;
    lemma_int_round_trip(x);
    let w = int_text(x as int);
    if x < 0 {
        assert(w[0] == '-');
    } else {
        lemma_digits_of(x as nat);
        assert(is_digit(w[0]));
    }
}

proof fn lemma_dec_text(v: Seq<char>)
    requires
        decimal_text_value(v) is Some,
    ensures
        ({
            let w = scalar_text(ValueKind::Dec, v);
            w.len() >= 1 && !is_space(w[0]) && same_value(ValueKind::Dec, w, v)
        }),
{
    let d = decimal_text_value(v)->0;
    lemma_decimal_value_wf(v);
    lemma_decimal_round_trip(d);
    let a: int = if d.mantissa < 0 {
        -d.mantissa
    } else {
        d.mantissa as int
    };
    lemma_digits_of(a as nat);
    lemma_zero_pad(digits_of(a as nat), (d.scale + 1) as nat);
    let p = zero_pad(digits_of(a as nat), (d.scale + 1) as nat);
    let w = decimal_text(d);
    assert(is_digit(p[0]));
    if d.mantissa < 0 {
        assert(w[0] == '-');
    } else if d.scale == 0 {
        assert(w[0] == p[0]);
    } else {
        assert(w[0] == p[0]);
    }
}

proof fn lemma_flag_text(v: Seq<char>)
    requires
        bool_text_value(v) is Some,
    ensures
        ({
            let w = scalar_text(ValueKind::Flag, v);
            w.len() >= 1 && !is_space(w[0]) && same_value(ValueKind::Flag, w, v)
        }),
{
    let one = seq!['1'];
    let zero = seq!['0'];
    assert(one.drop_last() =~= Seq::<char>::empty());
    assert(zero.drop_last() =~= Seq::<char>::empty());
    assert(digits_value(Seq::<char>::empty()) == 0);
    assert(digits_value(one) == 1);
    assert(digits_value(zero) == 0);
    assert(unsigned_part(one) == one);
    assert(unsigned_part(zero) == zero);
    assert(all_digits(one));
    assert(all_digits(zero));
}

proof fn lemma_plain_value_wf(s: Seq<char>)
    requires
        plain_decimal_value(s) is Some,
    ensures
        (plain_decimal_value(s) matches Some(d) && d.wf()),
{
    let parts = split(unsigned_part(s), '.');
    let whole = parts[0];
    let frac = if parts.len() == 2 {
        parts[1]
    } else {
        Seq::<char>::empty()
    };
    let w = whole + frac;
    assert forall|i: int| 0 <= i < w.len() implies is_digit(#[trigger] w[i]) by {
        if i < whole.len() {
            assert(w[i] == whole[i]);
        } else {
            assert(w[i] == frac[i - whole.len()]);
        }
    }
    crate::number::lemma_digits_value_nonneg(w);
}

/// A decoded decimal is one that the decimal type can denote.
pub proof fn lemma_decimal_value_wf(s: Seq<char>)
    requires
        decimal_text_value(s) is Some,
    ensures
        (decimal_text_value(s) matches Some(d) && d.wf()),
{
    let e = exp_mark_from(s, 0);
    if e >= s.len() {
        lemma_plain_value_wf(s);
    } else {
        lemma_plain_value_wf(s.subrange(0, e));
    }
}

/// Decoding a `key: value` line of a known key and writing the value back out as
/// `key : value`, in the plain form of its kind, gives a line that decodes to the same key
/// and the same value.
pub proof fn lemma_line_round_trip(line: Seq<char>, t: Table)
    requires
        kv_split(line) is Some,
        key_index(line_key(line), keys_of(t)) is Some,
        is_scalar(value_kind(t, key_index(line_key(line), keys_of(t))->0)),
        decodes(value_kind(t, key_index(line_key(line), keys_of(t))->0), line_value(line)),
    ensures
        ({
            let (k, v) = kv_split(line)->0;
            let kind = value_kind(t, key_index(k, keys_of(t))->0);
            let w = scalar_text(kind, v);
            kv_split(pair_text(k, w)) == Some((k, w)) && same_value(kind, w, v)
        }),
{
    let (k, v) = kv_split(line)->0;
    let kind = value_kind(t, key_index(k, keys_of(t))->0);
    let w = scalar_text(kind, v);
    lemma_pair_shape(line);
    match kind {
        ValueKind::Int => lemma_int_text(v),
        ValueKind::Dec => lemma_dec_text(v),
        ValueKind::Flag => lemma_flag_text(v),
        _ => {},
    }
    lemma_pair_round_trip(k, w);
}

proof fn lemma_first_nonspace_at(s: Seq<char>, i: int, n: int)
    requires
        0 <= i <= n < s.len(),
        forall|q: int| i <= q < n ==> is_space(#[trigger] s[q]),
        !is_space(s[n]),
    ensures
        first_nonspace_from(s, i) == n,
    decreases n - i,
{
    if i < n {
        lemma_first_nonspace_at(s, i + 1, n);
    }
}

proof fn lemma_first_space_at_least(s: Seq<char>, i: int, b: int)
    requires
        0 <= i <= b <= s.len(),
        forall|q: int| i <= q < b ==> !is_space(#[trigger] s[q]),
    ensures
        first_space_from(s, i) >= b,
    decreases b - i,
{
    if i < b {
        lemma_first_space_at_least(s, i + 1, b);
    } else {
        lemma_first_space_prefix(s, i);
    }
}

proof fn lemma_last_colon_at(s: Seq<char>, r: int, c: int)
    requires
        1 <= c < r <= s.len(),
        s[c] == ':',
        forall|q: int| c < q < r ==> #[trigger] s[q] != ':',
    ensures
        last_colon_below(s, r) == c,
    decreases r,
{
    if r - 1 > c {
        lemma_last_colon_at(s, r - 1, c);
    }
}

/// The line `key`, white space, `:`, white space, `value` decodes to exactly that key and
/// value, for a key of non-space characters without a colon and a value that starts with a
/// non-space character and holds no colon.
pub proof fn lemma_pair_line(k: Seq<char>, w1: Seq<char>, w2: Seq<char>, v: Seq<char>)
    requires
        k.len() >= 1,
        forall|i: int| 0 <= i < k.len() ==> !is_space(#[trigger] k[i]) && k[i] != ':',
        forall|i: int| 0 <= i < w1.len() ==> is_space(#[trigger] w1[i]),
        forall|i: int| 0 <= i < w2.len() ==> is_space(#[trigger] w2[i]),
        v.len() >= 1,
        !is_space(v[0]),
        forall|i: int| 0 <= i < v.len() ==> #[trigger] v[i] != ':',
    ensures
        kv_split(k + w1 + seq![':'] + w2 + v) == Some((k, v)),
{
    let s = k + w1 + seq![':'] + w2 + v;
    let n = k.len() as int;
    let c = n + w1.len();
    let b = c + 1 + w2.len();
    assert(s.len() == b + v.len());
    assert forall|q: int| 0 <= q < n implies #[trigger] s[q] == k[q] by {}
    assert forall|q: int| n <= q < c implies #[trigger] s[q] == w1[q - n] by {}
    assert(s[c] == ':');
    assert forall|q: int| c < q < b implies #[trigger] s[q] == w2[q - c - 1] by {}
    assert forall|q: int| b <= q < s.len() implies #[trigger] s[q] == v[q - b] by {}
    lemma_first_nonspace_at(s, c + 1, b);
    assert(s.subrange(0, n) =~= k);
    assert(s.subrange(b, s.len() as int) =~= v);
    let r = first_space_from(s, 0);
    if w1.len() > 0 {
        lemma_first_space(s, 0, n);
        lemma_first_nonspace_at(s, n, c);
    } else if w2.len() > 0 {
        lemma_first_space(s, 0, c + 1);
        lemma_first_nonspace_at(s, c + 1, b);
        lemma_last_colon_at(s, c + 1, c);
    } else {
        lemma_first_space_at_least(s, 0, b + 1);
        lemma_first_space_prefix(s, 0);
        lemma_first_nonspace(s, r);
        lemma_last_colon_at(s, r, c);
        let j = first_nonspace_from(s, r);
        if j < s.len() {
            assert(s[j] == v[j - b]);
        }
    }
}

/// Once its five leading fields decode, a chart-element record is rejected as of an invalid
/// type exactly by its type code's variant bits: a code whose bits `code & 139` are not 1, 2, 8
/// or 128 gives that error, and a record that decodes has one of those four.
pub proof fn lemma_kind_dispatch(t: Seq<char>)
    requires
        crate::fields::header_fault(split(t, ',')) is None,
    ensures
        ({
            let k = crate::fields::kind_of(crate::fields::int_field(split(t, ','), 3)->Ok_0);
            &&& (k != 1 && k != 2 && k != 8 && k != 128) ==> crate::fields::hit_object_fault(t)
                == Some(crate::fields::Fault::Invalid(crate::fields::object_kind_reason()))
            &&& crate::fields::hit_object_fault(t) is None ==> (k == 1 || k == 2 || k == 8 || k
                == 128)
        }),
{
}

} // verus!
