//! Numbers as they are written in a duration: a sign, digits with a decimal
//! point, an exponent. Each is taken at its exact value, and hours and
//! minutes are added up to whole seconds without losing a digit.

use vstd::prelude::*;
use vstd::arithmetic::div_mod::{
    lemma_basic_div, lemma_div_plus_one, lemma_fundamental_div_mod,
    lemma_fundamental_div_mod_converse_div, lemma_hoist_over_denominator, lemma_mod_bound,
};
use crate::decimal::{
    all_digits, decimal, digit_value, digits_value, is_digit, lemma_decimal, lemma_digits_front,
    lemma_pow10_positive, only_digits, pow10, value_of_digit,
};
use crate::text::{find, find_char, lemma_find_absent, slice_of};

verus! {

/// The largest size of an exponent. One written larger counts as this.
pub const EXPONENT_CAP: u64 = 1_000_000_000_000_000_000;

/// A decimal number: plus or minus the number that `digits` spell, times
/// ten to the power `shift`.
pub struct Number {
    pub negative: bool,
    pub digits: Seq<char>,
    pub shift: int,
}

impl Number {
    /// The number that the digits spell, with the sign.
    pub open spec fn signed(self) -> int {
        if self.negative {
            -(digits_value(self.digits) as int)
        } else {
            digits_value(self.digits) as int
        }
    }
}

/// The whole number `n`.
pub open spec fn whole_number(n: nat) -> Number {
    Number { negative: false, digits: decimal(n), shift: 0 }
}

/// Whether `s` begins with a minus sign.
pub open spec fn is_negative(s: Seq<char>) -> bool {
    s.len() > 0 && s[0] == '-'
}

/// `s` without the sign that it may begin with.
pub open spec fn unsigned_part(s: Seq<char>) -> Seq<char> {
    if s.len() > 0 && (s[0] == '+' || s[0] == '-') {
        s.skip(1)
    } else {
        s
    }
}

/// The index of the first `e` or `E` in `s`, or `s.len()` where there is
/// none.
pub open spec fn exponent_mark(s: Seq<char>) -> int {
    if find(s, 'e') <= find(s, 'E') {
        find(s, 'e')
    } else {
        find(s, 'E')
    }
}

/// `n`, or the cap where `n` is beyond it.
pub open spec fn capped(n: nat) -> nat {
    if n <= EXPONENT_CAP {
        n
    } else {
        EXPONENT_CAP as nat
    }
}

/// The exponent that `s` spells: an optional sign and at least one digit.
pub open spec fn exponent(s: Seq<char>) -> Option<int> {
    let d = unsigned_part(s);
    if d.len() > 0 && all_digits(d) {
        if is_negative(s) {
            Some(-(capped(digits_value(d)) as int))
        } else {
            Some(capped(digits_value(d)) as int)
        }
    } else {
        None
    }
}

/// The number that the numeral `s` stands for. A numeral is an optional
/// sign; then digits with at most one decimal point before, between or
/// behind them, and at least one digit; then, optionally, `e` or `E` and an
/// exponent: `7`, `-7.`, `.5`, `+1.25`, `1e3`, `2.5E-1`.
pub open spec fn number(s: Seq<char>) -> Option<Number> {
    let body = unsigned_part(s);
    let mark = exponent_mark(body);
    let mantissa = body.take(mark);
    let point = find(mantissa, '.');
    let whole = mantissa.take(point);
    let frac = if point < mantissa.len() {
        mantissa.skip(point + 1)
    } else {
        Seq::<char>::empty()
    };
    let exp = if mark < body.len() {
        exponent(body.skip(mark + 1))
    } else {
        Some(0int)
    };
    if all_digits(whole) && all_digits(frac) && whole.len() + frac.len() > 0 && exp is Some {
        Some(Number { negative: is_negative(s), digits: whole + frac, shift: exp->0 - frac.len() })
    } else {
        None
    }
}

/// The lowest power of ten that counts in `hours`, in `minutes` or in a
/// whole second.
pub open spec fn base(hours: Number, minutes: Number) -> int {
    let low = if hours.shift <= minutes.shift {
        hours.shift
    } else {
        minutes.shift
    };
    if low <= 0 {
        low
    } else {
        0
    }
}

/// `hours` hours and `minutes` minutes in seconds, as a multiple of ten to
/// the power `base(hours, minutes)`.
pub open spec fn total(hours: Number, minutes: Number) -> int {
    let c = base(hours, minutes);
    3600 * (hours.signed() * pow10((hours.shift - c) as nat)) + 60 * (minutes.signed() * pow10(
        (minutes.shift - c) as nat,
    ))
}

/// `hours` hours and `minutes` minutes in seconds, rounded to the nearest
/// whole second, a half rounding up. Nothing where the time is negative.
pub open spec fn seconds(hours: Number, minutes: Number) -> Option<nat> {
    let d = pow10((-base(hours, minutes)) as nat) as int;
    let u = total(hours, minutes);
    if u < 0 {
        None
    } else {
        Some(((2 * u + d) / (2 * d)) as nat)
    }
}

/// The digit of `x` that counts for ten to the power `j`.
pub open spec fn place(x: Number, j: int) -> int {
    let k = j - x.shift;
    if 0 <= k < x.digits.len() {
        digit_value(x.digits[x.digits.len() - 1 - k]) as int
    } else {
        0
    }
}

/// What the digits of `x` below ten to the power `j` are worth, in units of
/// ten to the power `c`.
pub open spec fn below(x: Number, c: int, j: int) -> int
    decreases j - c,
{
    if j <= c {
        0
    } else {
        below(x, c, j - 1) + place(x, j - 1) * pow10((j - 1 - c) as nat)
    }
}

/// One for a positive number, minus one for a negative one.
pub open spec fn sign(x: Number) -> int {
    if x.negative {
        -1
    } else {
        1
    }
}

/// What the digits below ten to the power `j` contribute to twice the time
/// in seconds, in units of ten to the power `c`.
pub open spec fn twice_below(h: Number, m: Number, c: int, j: int) -> int {
    7200 * (sign(h) * below(h, c, j)) + 120 * (sign(m) * below(m, c, j))
}

/// What the digits at ten to the power `j` contribute to twice the time in
/// seconds.
pub open spec fn weight(h: Number, m: Number, j: int) -> int {
    7200 * (sign(h) * place(h, j)) + 120 * (sign(m) * place(m, j))
}

pub proof fn lemma_pow10_add(a: nat, b: nat)
    ensures
        pow10(a + b) == pow10(a) * pow10(b),
    decreases a,
{
    if a == 0 {
        assert(pow10(0) == 1);
        assert(pow10(b) == 1 * pow10(b)) by (nonlinear_arith);
    } else {
        lemma_pow10_add((a - 1) as nat, b);
        assert(pow10(a + b) == 10 * pow10((a - 1 + b) as nat));
        assert(10 * (pow10((a - 1) as nat) * pow10(b)) == (10 * pow10((a - 1) as nat)) * pow10(b))
            by (nonlinear_arith);
    }
}

pub proof fn lemma_pow10_increases(a: nat, b: nat)
    requires
        a <= b,
    ensures
        pow10(a) <= pow10(b),
        a < b ==> 10 * pow10(a) <= pow10(b),
    decreases b,
{
    lemma_pow10_positive(a);
    if a < b {
        lemma_pow10_increases(a, (b - 1) as nat);
    }
}

/// The digits of a number below a power of ten, in closed form: nothing
/// below the lowest digit, all of the number above the highest, and in
/// between what the lower digits spell.
pub proof fn lemma_below(x: Number, c: int, j: int)
    requires
        c <= x.shift,
    ensures
        j <= x.shift ==> below(x, c, j) == 0,
        x.shift <= j <= x.shift + x.digits.len() ==> below(x, c, j) == digits_value(
            x.digits.skip(x.digits.len() - (j - x.shift)),
        ) * pow10((x.shift - c) as nat),
        j >= x.shift + x.digits.len() ==> below(x, c, j) == digits_value(x.digits) * pow10(
            (x.shift - c) as nat,
        ),
    decreases j - c,
{
    let a = x.shift;
    let n = x.digits.len() as int;
    let p = pow10((a - c) as nat) as int;
    assert(x.digits.skip(0) =~= x.digits);
    assert(x.digits.skip(n) =~= Seq::<char>::empty());
    assert(digits_value(x.digits.skip(n)) == 0);
    if j <= c {
        assert(0 * p == 0) by (nonlinear_arith);
    } else {
        lemma_below(x, c, j - 1);
        let k = j - 1 - a;
        if 0 <= k < n {
            let idx = n - 1 - k;
            lemma_digits_front(x.digits, idx);
            lemma_pow10_add(k as nat, (a - c) as nat);
            let dv = digit_value(x.digits[idx]) as int;
            let rest = digits_value(x.digits.skip(idx + 1)) as int;
            let pk = pow10(k as nat) as int;
            assert(below(x, c, j) == rest * p + dv * (pk * p));
            assert(rest * p + dv * (pk * p) == (dv * pk + rest) * p) by (nonlinear_arith);
        } else {
            assert(place(x, j - 1) == 0);
            assert(0 * pow10((j - 1 - c) as nat) == 0) by (nonlinear_arith);
        }
    }
}

/// Across a stretch without digits the worth of the lower digits stays.
pub proof fn lemma_below_gap(x: Number, c: int, j: int, k: int)
    requires
        c <= x.shift,
        j <= k,
        k <= x.shift || j >= x.shift + x.digits.len(),
    ensures
        below(x, c, j) == below(x, c, k),
{
    lemma_below(x, c, j);
    lemma_below(x, c, k);
}

/// Dividing twice, rounding down each time, is dividing by the product.
pub proof fn lemma_div_div(x: int, c: int, d: int)
    requires
        0 < c,
        0 < d,
    ensures
        0 < c * d,
        (x / c) / d == x / (c * d),
{
    assert(0 < c * d) by (nonlinear_arith)
        requires
            0 < c,
            0 < d,
    ;
    let q1 = x / c;
    let r1 = x % c;
    let q2 = q1 / d;
    let r2 = q1 % d;
    lemma_fundamental_div_mod(x, c);
    lemma_fundamental_div_mod(q1, d);
    lemma_mod_bound(x, c);
    lemma_mod_bound(q1, d);
    let r = c * r2 + r1;
    assert(0 <= r < c * d) by (nonlinear_arith)
        requires
            0 <= r1 < c,
            0 <= r2 < d,
            r == c * r2 + r1,
    ;
    assert(x == q2 * (c * d) + r) by (nonlinear_arith)
        requires
            x == c * q1 + r1,
            q1 == d * q2 + r2,
            r == c * r2 + r1,
    ;
    lemma_fundamental_div_mod_converse_div(x, c * d, q2, r);
}

/// One step of a division by a power of ten, taken a digit at a time.
pub proof fn lemma_carry_step(a: int, t: int, p: int)
    requires
        0 < p,
    ensures
        (a + t / p) / 10 == (a * p + t) / (p * 10),
{
    lemma_hoist_over_denominator(t, a, p as nat);
    lemma_div_div(t + a * p, p, 10);
}

/// A quotient that is zero or minus one stays what it is under a larger
/// divisor.
pub proof fn lemma_settled(t: int, p: int, r: int)
    requires
        0 < p <= r,
        t / p == 0 || t / p == -1,
    ensures
        t / r == t / p,
{
    lemma_fundamental_div_mod(t, p);
    lemma_mod_bound(t, p);
    if t / p == 0 {
        assert(p * 0 == 0);
        lemma_basic_div(t, r);
    } else {
        assert(p * (-1) == -p);
        assert(t == (-1) * r + (t + r));
        lemma_fundamental_div_mod_converse_div(t, r, -1, t + r);
    }
}

/// Rounding to the nearest whole number only looks at the number of halves.
pub proof fn lemma_round(u: int, d: int)
    requires
        0 <= u,
        0 < d,
    ensures
        (2 * u + d) / (2 * d) == ((2 * u) / d + 1) / 2,
{
    lemma_div_div(2 * u + d, d, 2);
    assert(d * 2 == 2 * d);
    lemma_div_plus_one(2 * u, d);
}

/// A negative number divided by a positive one is negative.
proof fn lemma_div_negative(x: int, d: int)
    requires
        x < 0,
        0 < d,
    ensures
        x / d < 0,
{
    lemma_fundamental_div_mod(x, d);
    lemma_mod_bound(x, d);
    if x / d >= 0 {
        assert(d * (x / d) >= 0) by (nonlinear_arith)
            requires
                d > 0,
                x / d >= 0,
        ;
    }
}

/// A number that is not negative, divided by a positive one, is not
/// negative.
proof fn lemma_div_not_negative(x: int, d: int)
    requires
        0 <= x,
        0 < d,
    ensures
        0 <= x / d,
{
    lemma_fundamental_div_mod(x, d);
    lemma_mod_bound(x, d);
    if x / d < 0 {
        assert(d * (x / d) <= -d) by (nonlinear_arith)
            requires
                d > 0,
                x / d <= -1,
        ;
    }
}

/// Above all digits, the digits below are worth twice the time.
proof fn lemma_twice_below_all(h: Number, m: Number, j: int)
    requires
        j >= h.shift + h.digits.len(),
        j >= m.shift + m.digits.len(),
    ensures
        twice_below(h, m, base(h, m), j) == 2 * total(h, m),
{
    let c = base(h, m);
    lemma_below(h, c, j);
    lemma_below(m, c, j);
    let ph = pow10((h.shift - c) as nat) as int;
    let pm = pow10((m.shift - c) as nat) as int;
    let vh = digits_value(h.digits) as int;
    let vm = digits_value(m.digits) as int;
    assert(h.signed() == sign(h) * vh) by (nonlinear_arith)
        requires
            h.signed() == vh && sign(h) == 1 || h.signed() == -vh && sign(h) == -1,
    ;
    assert(m.signed() == sign(m) * vm) by (nonlinear_arith)
        requires
            m.signed() == vm && sign(m) == 1 || m.signed() == -vm && sign(m) == -1,
    ;
    assert(sign(h) * (vh * ph) == h.signed() * ph) by (nonlinear_arith)
        requires
            h.signed() == sign(h) * vh,
    ;
    assert(sign(m) * (vm * pm) == m.signed() * pm) by (nonlinear_arith)
        requires
            m.signed() == sign(m) * vm,
    ;
}

/// The digits below the next power of ten are those below this one and the
/// digits at this one.
proof fn lemma_twice_below_step(h: Number, m: Number, c: int, j: int)
    requires
        c <= j,
    ensures
        twice_below(h, m, c, j + 1) == twice_below(h, m, c, j) + weight(h, m, j) * pow10(
            (j - c) as nat,
        ),
{
    let p = pow10((j - c) as nat) as int;
    let bh = below(h, c, j);
    let bm = below(m, c, j);
    let dh = place(h, j);
    let dm = place(m, j);
    assert(below(h, c, j + 1) == bh + dh * p);
    assert(below(m, c, j + 1) == bm + dm * p);
    assert(7200 * (sign(h) * (bh + dh * p)) + 120 * (sign(m) * (bm + dm * p)) == 7200 * (sign(h)
        * bh) + 120 * (sign(m) * bm) + (7200 * (sign(h) * dh) + 120 * (sign(m) * dm)) * p)
        by (nonlinear_arith);
}

/// Digits alone are a numeral: no sign, no point, no exponent.
pub proof fn lemma_number_plain(s: Seq<char>)
    requires
        s.len() > 0,
        all_digits(s),
    ensures
        number(s) == Some(Number { negative: false, digits: s, shift: 0 }),
{
    assert forall|j: int| 0 <= j < s.len() implies s[j] != 'e' && s[j] != 'E' && s[j] != '.' by {
        assert(is_digit(s[j]));
    }
    assert(is_digit(s[0]));
    lemma_find_absent(s, 'e');
    lemma_find_absent(s, 'E');
    lemma_find_absent(s, '.');
    assert(s.take(s.len() as int) =~= s);
    assert(s + Seq::<char>::empty() =~= s);
}

/// The numeral that `decimal` writes reads back as the number written.
pub proof fn lemma_number_decimal(n: nat)
    ensures
        number(decimal(n)) == Some(whole_number(n)),
{
    lemma_decimal(n);
    lemma_number_plain(decimal(n));
}

/// Whole hours and whole minutes make whole seconds: nothing is rounded.
pub proof fn lemma_seconds_whole(h: Number, m: Number)
    requires
        !h.negative,
        !m.negative,
        h.shift == 0,
        m.shift == 0,
    ensures
        seconds(h, m) == Some(3600 * digits_value(h.digits) + 60 * digits_value(m.digits)),
{
    assert(pow10(0) == 1);
    let vh = digits_value(h.digits) as int;
    let vm = digits_value(m.digits) as int;
    assert(vh * 1 == vh && vm * 1 == vm) by (nonlinear_arith);
    let u = 3600 * vh + 60 * vm;
    assert(total(h, m) == u);
    assert((2 * u + 1) / 2 == u);
}

/// The state of the walk through the digits when it has come to ten to
/// the power `j`: below a whole second only a carry `q` is kept; from there
/// on, twice the time in whole seconds, as far as the digits below `j` give
/// it, is `q` at ten to the power `j` plus what has been put out in `out`.
#[verifier::opaque]
pub open spec fn carried(h: Number, m: Number, j: int, q: int, out: int) -> bool {
    let c = base(h, m);
    &&& c <= j
    &&& j <= 0 ==> out == 0 && q == twice_below(h, m, c, j) / (pow10((j - c) as nat) as int)
    &&& j >= 0 ==> 0 <= out < pow10(j as nat) && twice_below(h, m, c, j) / (pow10(
        (-c) as nat,
    ) as int) == q * pow10(j as nat) + out
}

/// What the state of the walk says about what was put out.
proof fn lemma_carried_bounds(h: Number, m: Number, j: int, q: int, out: int)
    requires
        carried(h, m, j, q, out),
    ensures
        base(h, m) <= j,
        j <= 0 ==> out == 0,
        j >= 0 ==> 0 <= out < pow10(j as nat),
{
    reveal(carried);
    if j == 0 {
        assert(pow10(0) == 1);
    }
}

proof fn lemma_carried_start(h: Number, m: Number)
    ensures
        carried(h, m, base(h, m), 0, 0),
{
    reveal(carried);
    let c = base(h, m);
    assert(twice_below(h, m, c, c) == 0);
    assert(pow10(0) == 1);
    lemma_pow10_positive((-c) as nat);
    lemma_basic_div(0, pow10((-c) as nat) as int);
}

/// One step of the walk: the digits at `j` are added to the carry, the last
/// digit of the sum is put out, and the rest is carried on.
proof fn lemma_carried_step(h: Number, m: Number, j: int, q: int, out: int)
    requires
        carried(h, m, j, q, out),
    ensures
        carried(
            h,
            m,
            j + 1,
            (weight(h, m, j) + q) / 10,
            if j >= 0 {
                out + ((weight(h, m, j) + q) % 10) * pow10(j as nat)
            } else {
                0
            },
        ),
        j >= 0 ==> 0 <= out + ((weight(h, m, j) + q) % 10) * pow10(j as nat),
        j >= 0 && (weight(h, m, j) + q) % 10 != 0 ==> out + ((weight(h, m, j) + q) % 10) * pow10(
            j as nat,
        ) >= pow10(j as nat),
{
    reveal(carried);
    let c = base(h, m);
    let w = weight(h, m, j);
    let t = w + q;
    let q2 = t / 10;
    let r = t % 10;
    lemma_fundamental_div_mod(t, 10);
    lemma_mod_bound(t, 10);
    lemma_twice_below_step(h, m, c, j);
    let p = pow10((j - c) as nat) as int;
    lemma_pow10_positive((j - c) as nat);
    let tb = twice_below(h, m, c, j);
    let d = pow10((-c) as nat) as int;
    lemma_pow10_positive((-c) as nat);
    if j < 0 {
        lemma_carry_step(w, tb, p);
        assert(pow10((j + 1 - c) as nat) == 10 * p);
        assert(p * 10 == 10 * p);
        assert(twice_below(h, m, c, j + 1) == w * p + tb);
        assert(q == tb / p);
        assert(q2 == twice_below(h, m, c, j + 1) / (pow10((j + 1 - c) as nat) as int));
        if j + 1 == 0 {
            assert(pow10(0) == 1);
            assert(q2 * 1 + 0 == q2);
        }
    } else {
        lemma_pow10_add(j as nat, (-c) as nat);
        let pj = pow10(j as nat) as int;
        lemma_pow10_positive(j as nat);
        assert(w * p == (w * pj) * d) by (nonlinear_arith)
            requires
                p == pj * d,
        ;
        lemma_hoist_over_denominator(tb, w * pj, d as nat);
        assert(twice_below(h, m, c, j + 1) == tb + (w * pj) * d);
        assert(twice_below(h, m, c, j + 1) / d == q * pj + out + w * pj);
        assert(pow10((j + 1) as nat) == 10 * pj);
        assert(q * pj + out + w * pj == q2 * (10 * pj) + (out + r * pj)) by (nonlinear_arith)
            requires
                w + q == 10 * q2 + r,
        ;
        assert(0 <= out + r * pj < 10 * pj) by (nonlinear_arith)
            requires
                0 <= out < pj,
                0 <= r <= 9,
        ;
        assert(r != 0 ==> out + r * pj >= pj) by (nonlinear_arith)
            requires
                0 <= out,
                0 <= r,
                pj > 0,
        ;
    }
}

/// What a step of the walk does to the numbers that the machine keeps.
proof fn lemma_walk_step(h: Number, m: Number, j: int, q: int, out: int, t: int)
    requires
        carried(h, m, j, q, out),
        t == weight(h, m, j) + q,
    ensures
        0 <= t % 10 <= 9,
        t == 10 * (t / 10) + t % 10,
        j < 0 ==> out == 0 && carried(h, m, j + 1, t / 10, 0),
        j >= 0 ==> carried(h, m, j + 1, t / 10, out + (t % 10) * pow10(j as nat)),
        j >= 0 ==> 0 <= out < pow10(j as nat),
        j >= 0 ==> out <= out + (t % 10) * pow10(j as nat) < pow10((j + 1) as nat),
        j >= 0 ==> pow10((j + 1) as nat) == 10 * pow10(j as nat),
        j >= 0 && t % 10 == 0 ==> out + (t % 10) * pow10(j as nat) == out,
        j >= 0 && t % 10 != 0 ==> out + (t % 10) * pow10(j as nat) >= pow10(j as nat),
{
    lemma_carried_bounds(h, m, j, q, out);
    lemma_carried_step(h, m, j, q, out);
    lemma_fundamental_div_mod(t, 10);
    lemma_mod_bound(t, 10);
    if j >= 0 {
        let r = t % 10;
        let pj = pow10(j as nat) as int;
        lemma_carried_bounds(h, m, j + 1, t / 10, out + r * pj);
        assert(pow10((j + 1) as nat) == 10 * pj);
        assert(r == 0 ==> r * pj == 0) by (nonlinear_arith);
        assert(r * pj >= 0) by (nonlinear_arith)
            requires
                r >= 0,
                pj >= 0,
        ;
    }
}

/// A leap of the walk over a stretch without digits, once the carry has
/// settled at zero or minus one.
proof fn lemma_carried_leap(h: Number, m: Number, j: int, k: int, q: int, out: int)
    requires
        carried(h, m, j, q, out),
        j <= k,
        q == 0 || q == -1,
        j < 0 ==> k <= 0,
        k <= h.shift || j >= h.shift + h.digits.len(),
        k <= m.shift || j >= m.shift + m.digits.len(),
    ensures
        carried(
            h,
            m,
            k,
            q,
            if j >= 0 && q == -1 {
                out + pow10(k as nat) - pow10(j as nat)
            } else {
                out
            },
        ),
        j >= 0 ==> pow10(j as nat) <= pow10(k as nat),
        j >= 0 && j < k ==> 9 * pow10(j as nat) <= pow10(k as nat) - pow10(j as nat),
{
    reveal(carried);
    let c = base(h, m);
    lemma_below_gap(h, c, j, k);
    lemma_below_gap(m, c, j, k);
    if j < 0 {
        lemma_pow10_positive((j - c) as nat);
        lemma_pow10_increases((j - c) as nat, (k - c) as nat);
        lemma_settled(
            twice_below(h, m, c, j),
            pow10((j - c) as nat) as int,
            pow10((k - c) as nat) as int,
        );
        if k == 0 {
            assert(pow10(0) == 1);
        }
    } else {
        lemma_pow10_increases(j as nat, k as nat);
        lemma_pow10_positive(j as nat);
        let pj = pow10(j as nat) as int;
        let pk = pow10(k as nat) as int;
        if q == -1 {
            assert((-1) * pj + out == (-1) * pk + (out + pk - pj)) by (nonlinear_arith);
        } else {
            assert(0 * pj == 0 && 0 * pk == 0) by (nonlinear_arith);
        }
    }
}

/// The end of the walk: above all digits and with a settled carry, the
/// time is negative if the carry is, and else what was put out is twice the
/// time in whole seconds.
proof fn lemma_carried_end(h: Number, m: Number, j: int, q: int, out: int)
    requires
        carried(h, m, j, q, out),
        j >= 0,
        j >= h.shift + h.digits.len(),
        j >= m.shift + m.digits.len(),
        q == 0 || q == -1,
    ensures
        q == -1 ==> seconds(h, m) is None,
        q == 0 ==> seconds(h, m) == Some(((out + 1) / 2) as nat),
{
    reveal(carried);
    let c = base(h, m);
    let d = pow10((-c) as nat) as int;
    lemma_pow10_positive((-c) as nat);
    lemma_pow10_positive(j as nat);
    lemma_twice_below_all(h, m, j);
    let u = total(h, m);
    let pj = pow10(j as nat) as int;
    if q == -1 {
        assert((-1) * pj + out < 0) by (nonlinear_arith)
            requires
                out < pj,
        ;
        if u >= 0 {
            lemma_div_not_negative(2 * u, d);
        }
    } else {
        assert(0 * pj == 0) by (nonlinear_arith);
        assert((2 * u) / d == out);
        if u < 0 {
            lemma_div_negative(2 * u, d);
        }
        lemma_round(u, d);
    }
}

/// Above all digits the carry shrinks by a digit with each step.
proof fn lemma_carry_shrinks(q: int, n: nat)
    requires
        -pow10(n + 1) <= q < pow10(n + 1),
    ensures
        -pow10(n) <= q / 10 < pow10(n),
{
    lemma_fundamental_div_mod(q, 10);
    lemma_mod_bound(q, 10);
    assert(pow10(n + 1) == 10 * pow10(n));
}

/// A numeral as read.
pub struct Numeral {
    pub negative: bool,
    pub digits: Vec<char>,
    pub shift: i128,
}

impl Numeral {
    /// The digits are digits, and the shift is an exponent within the cap
    /// less a number of digits.
    pub open spec fn wf(&self) -> bool {
        &&& all_digits(self.digits@)
        &&& -(EXPONENT_CAP + usize::MAX) <= self.shift <= EXPONENT_CAP
    }

    /// The numeral of zero.
    pub fn zero() -> (n: Numeral)
        ensures
            n.wf(),
            n@ == whole_number(0),
    {
        let mut digits: Vec<char> = Vec::new();
        digits.push('0');
        assert(digits@ =~= decimal(0));
        Numeral { negative: false, digits, shift: 0 }
    }
}

impl View for Numeral {
    type V = Number;

    open spec fn view(&self) -> Number {
        Number { negative: self.negative, digits: self.digits@, shift: self.shift as int }
    }
}

/// Whether `v` begins with a minus sign, and `v` without the sign that it
/// may begin with.
fn split_sign(v: &Vec<char>) -> (r: (bool, Vec<char>))
    ensures
        r.0 == is_negative(v@),
        r.1@ == unsigned_part(v@),
{
    if v.len() > 0 && (v[0] == '+' || v[0] == '-') {
        let rest = slice_of(v, 1, v.len());
        assert(rest@ =~= v@.skip(1));
        (v[0] == '-', rest)
    } else {
        let rest = slice_of(v, 0, v.len());
        assert(rest@ =~= v@);
        (false, rest)
    }
}

/// `a` with `b` behind it.
fn joined(a: Vec<char>, b: &Vec<char>) -> (r: Vec<char>)
    ensures
        r@ == a@ + b@,
{
    let mut r = a;
    let mut i: usize = 0;
    while i < b.len()
        invariant
            i <= b.len(),
            r@ == a@ + b@.take(i as int),
        decreases b.len() - i,
    {
        r.push(b[i]);
        assert(b@.take(i as int + 1) =~= b@.take(i as int).push(b@[i as int]));
        assert(r@ =~= a@ + b@.take(i as int + 1));
        i += 1;
    }
    assert(b@.take(i as int) =~= b@);
    r
}

/// The number that the digits `v` spell, up to the cap.
fn read_capped(v: &Vec<char>) -> (n: u64)
    requires
        all_digits(v@),
    ensures
        n == capped(digits_value(v@)),
{
    let mut acc: u64 = 0;
    let mut i: usize = 0;
    assert(v@.take(0) =~= Seq::<char>::empty());
    while i < v.len()
        invariant
            i <= v.len(),
            all_digits(v@),
            acc == capped(digits_value(v@.take(i as int))),
        decreases v.len() - i,
    {
        let d = value_of_digit(v[i]);
        proof {
            let next = v@.take(i as int + 1);
            assert(next.drop_last() =~= v@.take(i as int));
            assert(next.last() == v@[i as int]);
        }
        let next = 10 * acc + d;
        acc = if next > EXPONENT_CAP {
            EXPONENT_CAP
        } else {
            next
        };
        i += 1;
    }
    assert(v@.take(i as int) =~= v@);
    acc
}

/// Reads an exponent: an optional sign and at least one digit.
fn read_exponent(v: &Vec<char>) -> (r: Option<i128>)
    ensures
        match r {
            Some(e) => exponent(v@) == Some(e as int) && -EXPONENT_CAP <= e <= EXPONENT_CAP,
            None => exponent(v@) is None,
        },
{
    let (negative, digits) = split_sign(v);
    if digits.len() == 0 || !only_digits(&digits) {
        return None;
    }
    let n = read_capped(&digits) as i128;
    if negative {
        Some(-n)
    } else {
        Some(n)
    }
}

/// Reads a numeral.
pub fn read_numeral(s: &Vec<char>) -> (r: Option<Numeral>)
    ensures
        match r {
            Some(n) => n.wf() && number(s@) == Some(n@),
            None => number(s@) is None,
        },
{
    let (negative, body) = split_sign(s);
    let small = find_char(&body, 'e');
    let large = find_char(&body, 'E');
    let mark = if small <= large {
        small
    } else {
        large
    };
    let mantissa = slice_of(&body, 0, mark);
    assert(mantissa@ =~= body@.take(mark as int));
    let point = find_char(&mantissa, '.');
    let whole = slice_of(&mantissa, 0, point);
    let frac = if point < mantissa.len() {
        slice_of(&mantissa, point + 1, mantissa.len())
    } else {
        Vec::new()
    };
    assert(whole@ =~= mantissa@.take(point as int));
    assert(point < mantissa.len() ==> frac@ =~= mantissa@.skip(point as int + 1));
    if whole.len() == 0 && frac.len() == 0 {
        return None;
    }
    if !only_digits(&whole) || !only_digits(&frac) {
        return None;
    }
    let exp: i128 = if mark < body.len() {
        let behind = slice_of(&body, mark + 1, body.len());
        assert(behind@ =~= body@.skip(mark as int + 1));
        match read_exponent(&behind) {
            Some(e) => e,
            None => {
                return None;
            },
        }
    } else {
        0
    };
    let shift = exp - frac.len() as i128;
    let digits = joined(whole, &frac);
    Some(Numeral { negative, digits, shift })
}

/// The digit of `x` that counts for ten to the power `j`.
fn digit_at(x: &Numeral, j: i128) -> (d: i128)
    requires
        x.wf(),
        -(EXPONENT_CAP + usize::MAX) - 10 <= j <= EXPONENT_CAP + usize::MAX + 10,
    ensures
        d == place(x@, j as int),
        0 <= d <= 9,
{
    let k = j - x.shift;
    let n = x.digits.len();
    if 0 <= k && k < n as i128 {
        value_of_digit(x.digits[n - 1 - (k as usize)]) as i128
    } else {
        0
    }
}

/// `hours` hours and `minutes` minutes in whole seconds, where that is not
/// negative and fits. The digits are gone through once, from the lowest
/// power of ten upwards, with a carry; stretches without digits are leapt
/// over, so that neither a long fraction nor a large exponent costs more
/// than the digits that were written.
pub fn seconds_of(hours: &Numeral, minutes: &Numeral) -> (r: Option<u64>)
    requires
        hours.wf(),
        minutes.wf(),
    ensures
        match r {
            Some(n) => seconds(hours@, minutes@) == Some(n as nat),
            None => seconds(hours@, minutes@) matches Some(n) ==> n > u64::MAX,
        },
{
    let ghost h = hours@;
    let ghost m = minutes@;
    let low = if hours.shift <= minutes.shift {
        hours.shift
    } else {
        minutes.shift
    };
    let c: i128 = if low <= 0 {
        low
    } else {
        0
    };
    let hh: i128 = hours.shift + hours.digits.len() as i128;
    let mh: i128 = minutes.shift + minutes.digits.len() as i128;
    let high = if hh >= mh {
        hh
    } else {
        mh
    };
    let top: i128 = if high >= 0 {
        high
    } else {
        0
    };
    let end: i128 = top + 5;
    let mut j: i128 = c;
    let mut q: i128 = 0;
    let mut val: u128 = 0;
    let mut big = false;
    let mut scale: u128 = 1;
    let ghost mut out: int = 0;
    proof {
        lemma_carried_start(h, m);
        assert(pow10(0) == 1);
        assert(pow10(5) == 100000) by {
            reveal_with_fuel(pow10, 6);
        }
        assert(pow10(22) == 10000000000000000000000) by {
            reveal_with_fuel(pow10, 23);
        }
    }
    while j < end
        invariant
            pow10(5) == 100000,
            pow10(22) == 10000000000000000000000,
            -(EXPONENT_CAP + usize::MAX) <= c,
            end <= EXPONENT_CAP + usize::MAX + 5,
            hours.wf(),
            minutes.wf(),
            h == hours@,
            m == minutes@,
            c == base(h, m),
            hh == h.shift + h.digits.len(),
            mh == m.shift + m.digits.len(),
            top >= hh,
            top >= mh,
            top >= 0,
            end == top + 5,
            c <= j <= end,
            -7320 <= q <= 7320,
            carried(h, m, j as int, q as int, out),
            !big ==> val == out && out < pow10(22),
            big ==> out >= pow10(22),
            j <= 0 ==> scale == 1,
            0 <= j <= 22 ==> scale == pow10(j as nat),
            j >= top ==> -pow10((end - j) as nat) <= q < pow10((end - j) as nat),
        decreases end - j,
    {
        proof {
            lemma_carried_bounds(h, m, j as int, q as int, out);
        }
        let free_h = j < hours.shift || j >= hh;
        let free_m = j < minutes.shift || j >= mh;
        if (q == 0 || q == -1) && free_h && free_m && (j < 0 || j >= 22) {
            let mut next = end;
            if j < hours.shift && hours.shift < next {
                next = hours.shift;
            }
            if j < minutes.shift && minutes.shift < next {
                next = minutes.shift;
            }
            if j < 0 && 0 < next {
                next = 0;
            }
            proof {
                lemma_carried_leap(h, m, j as int, next as int, q as int, out);
                lemma_pow10_positive((end - next) as nat);
                if j >= 0 {
                    lemma_pow10_increases(22, j as nat);
                    if q == -1 {
                        out = out + pow10(next as nat) - pow10(j as nat);
                    }
                }
            }
            if j >= 0 && q == -1 {
                big = true;
            }
            j = next;
        } else {
            let dh = digit_at(hours, j);
            let dm = digit_at(minutes, j);
            let ah: i128 = if hours.negative {
                -dh
            } else {
                dh
            };
            let am: i128 = if minutes.negative {
                -dm
            } else {
                dm
            };
            let w: i128 = 7200 * ah + 120 * am;
            let t: i128 = w + q;
            let q2: i128 = (t + 80000) / 10 - 8000;
            let r: i128 = (t + 80000) % 10;
            proof {
                assert(ah == sign(h) * place(h, j as int)) by (nonlinear_arith)
                    requires
                        ah == dh && sign(h) == 1 || ah == -dh && sign(h) == -1,
                        dh == place(h, j as int),
                ;
                assert(am == sign(m) * place(m, j as int)) by (nonlinear_arith)
                    requires
                        am == dm && sign(m) == 1 || am == -dm && sign(m) == -1,
                        dm == place(m, j as int),
                ;
                assert(w == weight(h, m, j as int));
                lemma_walk_step(h, m, j as int, q as int, out, t as int);
                lemma_fundamental_div_mod(t + 80000, 10);
                assert(q2 == t as int / 10);
                assert(r == t as int % 10);
                if j >= 0 {
                    if j >= 22 {
                        lemma_pow10_increases(22, j as nat);
                    } else {
                        lemma_pow10_increases((j + 1) as nat, 22);
                    }
                }
                if j + 1 > top {
                    assert(w == 0);
                    lemma_carry_shrinks(q as int, (end - j - 1) as nat);
                }
            }
            if j >= 0 {
                if j < 22 {
                    assert(r * scale == r * pow10(j as nat));
                    val = val + (r as u128) * scale;
                    scale = scale * 10;
                } else if r != 0 {
                    big = true;
                }
                proof {
                    out = out + r * pow10(j as nat);
                }
            }
            q = q2;
            j = j + 1;
        }
    }
    proof {
        assert(pow10(0) == 1);
        lemma_carried_end(h, m, j as int, q as int, out);
        assert(pow10(22) == 10000000000000000000000) by {
            reveal_with_fuel(pow10, 23);
        }
    }
    if q == -1 || big {
        None
    } else {
        let n: u128 = (val + 1) / 2;
        if n > u64::MAX as u128 {
            None
        } else {
            Some(n as u64)
        }
    }
}

} // verus!
