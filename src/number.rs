//! Numbers as runners print them, read as `str::parse::<f64>` reads them:
//! an optional sign, digits with at most one decimal point, an optional
//! exponent. A number of milliseconds becomes whole nanoseconds, rounded to
//! nearest with halves up.

use vstd::arithmetic::div_mod::{lemma_basic_div, lemma_hoist_over_denominator};
use vstd::prelude::*;

verus! {

/// Ten to the power `k`.
pub open spec fn pow10(k: nat) -> nat
    decreases k,
{
    if k == 0 {
        1
    } else {
        10 * pow10((k - 1) as nat)
    }
}

pub open spec fn is_digit(b: u8) -> bool {
    48 <= b && b <= 57
}

pub open spec fn all_digits(s: Seq<u8>) -> bool {
    forall|i: int| 0 <= i < s.len() ==> is_digit(#[trigger] s[i])
}

/// The number that a string of ASCII digits denotes.
pub open spec fn digits_value(s: Seq<u8>) -> nat
    decreases s.len(),
{
    if s.len() == 0 {
        0
    } else {
        digits_value(s.drop_last()) * 10 + (s.last() - 48) as nat
    }
}

/// The position of the decimal point that splits `l` into two runs of
/// digits, if there is one.
pub open spec fn is_point_at(l: Seq<u8>, p: int) -> bool {
    &&& 0 <= p < l.len()
    &&& l[p] == 46
    &&& all_digits(l.subrange(0, p))
    &&& all_digits(l.subrange(p + 1, l.len() as int))
}

/// A plain decimal number: digits with at most one decimal point, and at
/// least one digit in all, as in `5`, `5.`, `.5` or `5.25`.
pub open spec fn is_decimal(l: Seq<u8>) -> bool {
    ||| (l.len() > 0 && all_digits(l))
    ||| (l.len() > 1 && exists|p: int| is_point_at(l, p))
}

/// The integral digits of a decimal number.
pub open spec fn integral_part(l: Seq<u8>) -> Seq<u8> {
    if all_digits(l) {
        l
    } else {
        l.subrange(0, choose|p: int| is_point_at(l, p))
    }
}

/// The fractional digits of a decimal number (empty without a point).
pub open spec fn fractional_part(l: Seq<u8>) -> Seq<u8> {
    if all_digits(l) {
        Seq::empty()
    } else {
        l.subrange((choose|p: int| is_point_at(l, p)) + 1, l.len() as int)
    }
}

/// An exponent mark: `e` or `E`.
pub open spec fn is_exponent_mark(b: u8) -> bool {
    b == 101 || b == 69
}

/// The offset of the first exponent mark in `s`, or its length if it has none.
pub open spec fn mark_at(s: Seq<u8>) -> nat
    decreases s.len(),
{
    if s.len() == 0 || is_exponent_mark(s[0]) {
        0
    } else {
        1 + mark_at(s.drop_first())
    }
}

/// The length of a leading sign, `+` or `-`.
pub open spec fn sign_len(s: Seq<u8>) -> int {
    if s.len() > 0 && (s[0] == 43 || s[0] == 45) {
        1
    } else {
        0
    }
}

/// `s` without its leading sign.
pub open spec fn unsigned_part(s: Seq<u8>) -> Seq<u8> {
    s.subrange(sign_len(s), s.len() as int)
}

/// What stands between a number's sign and its exponent mark.
pub open spec fn significand(l: Seq<u8>) -> Seq<u8> {
    let u = unsigned_part(l);
    u.subrange(0, mark_at(u) as int)
}

pub open spec fn has_exponent(l: Seq<u8>) -> bool {
    mark_at(unsigned_part(l)) < unsigned_part(l).len()
}

/// What follows the exponent mark.
pub open spec fn exponent_text(l: Seq<u8>) -> Seq<u8> {
    let u = unsigned_part(l);
    u.subrange(mark_at(u) as int + 1, u.len() as int)
}

/// An exponent: an optional sign, then at least one digit.
pub open spec fn is_exponent(x: Seq<u8>) -> bool {
    unsigned_part(x).len() > 0 && all_digits(unsigned_part(x))
}

pub open spec fn exponent_value(x: Seq<u8>) -> int {
    if x.len() > 0 && x[0] == 45 {
        -(digits_value(unsigned_part(x)) as int)
    } else {
        digits_value(unsigned_part(x)) as int
    }
}

/// A finite number as `str::parse::<f64>` accepts it: an optional sign, a
/// plain decimal number, then optionally `e` or `E` and a signed exponent.
/// (That parser also takes `inf`, `infinity` and `nan`, none of them finite.)
pub open spec fn is_number(l: Seq<u8>) -> bool {
    &&& is_decimal(significand(l))
    &&& has_exponent(l) ==> is_exponent(exponent_text(l))
}

/// The significand's digits, its decimal point left out.
pub open spec fn significand_digits(l: Seq<u8>) -> Seq<u8> {
    integral_part(significand(l)) + fractional_part(significand(l))
}

/// The power of ten that turns the significand's digits, as a whole number,
/// into nanoseconds, the number being milliseconds.
pub open spec fn nanos_shift(l: Seq<u8>) -> int {
    (if has_exponent(l) {
        exponent_value(exponent_text(l))
    } else {
        0
    }) - fractional_part(significand(l)).len() + 6
}

/// `d * 10^k` rounded to a whole number, halves up: `floor(d * 10^k + 1/2)`.
pub open spec fn scaled_round(d: Seq<u8>, k: int) -> nat {
    if k >= 0 {
        digits_value(d) * pow10(k as nat)
    } else {
        let p = pow10((-k) as nat);
        ((2 * digits_value(d) + p) / (2 * p)) as nat
    }
}

/// A number below zero (a minus sign before a zero is no such number).
pub open spec fn is_negative(l: Seq<u8>) -> bool {
    l.len() > 0 && l[0] == 45 && digits_value(significand_digits(l)) > 0
}

/// The whole nanoseconds, rounded to nearest with halves up, of a line that
/// holds a finite number of milliseconds not below zero; `None` for any
/// other line.
pub open spec fn line_nanos(l: Seq<u8>) -> Option<nat> {
    if is_number(l) && !is_negative(l) {
        Some(scaled_round(significand_digits(l), nanos_shift(l)))
    } else {
        None
    }
}

/// A line that holds a duration which fits in 64 bits of nanoseconds.
pub open spec fn line_fits(l: Seq<u8>) -> bool {
    line_nanos(l) is Some && line_nanos(l)->0 <= u64::MAX
}

/// The durations, in nanoseconds, that well-formed output lines hold.
pub open spec fn lines_nanos(ls: Seq<Seq<u8>>) -> Seq<u64> {
    ls.map_values(|l: Seq<u8>| line_nanos(l)->0 as u64)
}

proof fn lemma_digits_prefix_le(s: Seq<u8>, i: int, j: int)
    requires
        0 <= i <= j <= s.len(),
        all_digits(s),
    ensures
        digits_value(s.subrange(0, i)) <= digits_value(s.subrange(0, j)),
    decreases j - i,
{
    if i < j {
        lemma_digits_prefix_le(s, i, j - 1);
        assert(s.subrange(0, j).drop_last() =~= s.subrange(0, j - 1));
        assert(is_digit(s[j - 1]));
    }
}

proof fn lemma_digits_step(s: Seq<u8>, i: int)
    requires
        0 <= i < s.len(),
        is_digit(s[i]),
    ensures
        digits_value(s.subrange(0, i + 1)) == digits_value(s.subrange(0, i)) * 10 + (s[i] - 48),
{
    assert(s.subrange(0, i + 1).drop_last() =~= s.subrange(0, i));
}

/// The value of a run of digits `s[from..to]`, or `None` once it exceeds `limit`.
fn read_digits(s: &Vec<u8>, from: usize, to: usize, limit: u128) -> (r: Option<u128>)
    requires
        from <= to <= s.len(),
        all_digits(s@.subrange(from as int, to as int)),
        limit <= 1_000_000_000_000_000_000_000_000_000_000_000_000,
    ensures
        r is Some <==> digits_value(s@.subrange(from as int, to as int)) <= limit,
        r is Some ==> r->0 == digits_value(s@.subrange(from as int, to as int)),
{
    let ghost d = s@.subrange(from as int, to as int);
    let mut acc: u128 = 0;
    let mut i: usize = from;
    while i < to
        invariant
            from <= i <= to <= s.len(),
            d == s@.subrange(from as int, to as int),
            all_digits(d),
            limit <= 1_000_000_000_000_000_000_000_000_000_000_000_000,
            acc == digits_value(d.subrange(0, i - from)),
            acc <= limit,
        decreases to - i,
    {
        proof {
            assert(d[i - from] == s@[i as int]);
            assert(is_digit(d[i - from]));
            lemma_digits_step(d, i - from);
        }
        acc = acc * 10 + (s[i] - 48) as u128;
        i = i + 1;
        if acc > limit {
            proof {
                lemma_digits_prefix_le(d, i - from, d.len() as int);
                assert(d.subrange(0, d.len() as int) =~= d);
            }
            return None;
        }
    }
    proof {
        assert(d.subrange(0, i - from) =~= d);
    }
    Some(acc)
}

proof fn lemma_pow10_positive(k: nat)
    ensures
        pow10(k) >= 1,
    decreases k,
{
    if k > 0 {
        lemma_pow10_positive((k - 1) as nat);
    }
}

proof fn lemma_pow10_add(a: nat, b: nat)
    ensures
        pow10(a + b) == pow10(a) * pow10(b),
    decreases b,
{
    if b > 0 {
        let c = (b - 1) as nat;
        let ac = (a + c) as nat;
        lemma_pow10_add(a, c);
        assert(pow10(b) == 10 * pow10(c));
        assert(pow10(a + b) == 10 * pow10(ac));
        let x = pow10(a);
        let y = pow10(c);
        assert(pow10(ac) == x * y);
        assert(x * (10 * y) == 10 * (x * y)) by (nonlinear_arith);
        assert(pow10(a + b) == x * pow10(b));
    } else {
        assert(pow10(b) == 1);
        assert(a + b == a);
    }
}

proof fn lemma_digits_concat(a: Seq<u8>, b: Seq<u8>)
    ensures
        digits_value(a + b) == digits_value(a) * pow10(b.len()) + digits_value(b),
    decreases b.len(),
{
    if b.len() == 0 {
        assert(a + b =~= a);
        assert(pow10(0) == 1);
        assert(digits_value(b) == 0);
    } else {
        let c = b.drop_last();
        lemma_digits_concat(a, c);
        assert((a + b).drop_last() =~= a + c);
        assert((a + b).last() == b.last());
        let p = pow10(c.len());
        assert(pow10(b.len()) == 10 * p);
        let x = digits_value(a);
        let y = digits_value(c);
        assert(digits_value(a + c) == x * p + y);
        assert(digits_value(a + b) == digits_value(a + c) * 10 + (b.last() - 48) as nat);
        assert(digits_value(b) == y * 10 + (b.last() - 48) as nat);
        assert((x * p + y) * 10 == x * (10 * p) + y * 10) by (nonlinear_arith);
        assert(digits_value(a + b) == x * pow10(b.len()) + digits_value(b));
    }
}

proof fn lemma_digits_bound(b: Seq<u8>)
    requires
        all_digits(b),
    ensures
        digits_value(b) < pow10(b.len()),
    decreases b.len(),
{
    if b.len() > 0 {
        let c = b.drop_last();
        assert(all_digits(c)) by {
            assert forall|i: int| 0 <= i < c.len() implies is_digit(#[trigger] c[i]) by {
                assert(c[i] == b[i]);
            }
        }
        lemma_digits_bound(c);
        assert(is_digit(b[b.len() - 1]));
        assert(digits_value(c) * 10 + 9 < pow10(c.len()) * 10) by (nonlinear_arith)
            requires
                digits_value(c) < pow10(c.len()),
        ;
    }
}

proof fn lemma_only_point(l: Seq<u8>, p: int)
    requires
        0 <= p < l.len(),
        l[p] == 46,
        forall|j: int| 0 <= j < l.len() && j != p ==> is_digit(#[trigger] l[j]),
    ensures
        is_point_at(l, p),
        forall|q: int| is_point_at(l, q) ==> q == p,
        !all_digits(l),
{
    assert(all_digits(l.subrange(0, p)));
    assert(all_digits(l.subrange(p + 1, l.len() as int)));
    assert forall|q: int| is_point_at(l, q) implies q == p by {
        if q < p {
            assert(l.subrange(q + 1, l.len() as int)[p - q - 1] == l[p]);
        } else if q > p {
            assert(l.subrange(0, q)[p] == l[p]);
        }
    }
    assert(!is_digit(l[p]));
}

proof fn lemma_no_point(l: Seq<u8>, x: int, y: int)
    requires
        0 <= x < l.len(),
        0 <= y < l.len(),
        x != y,
        !is_digit(l[x]),
        !is_digit(l[y]) || l[x] != 46,
    ensures
        !is_decimal(l),
{
    assert(!all_digits(l));
    assert forall|q: int| !is_point_at(l, q) by {
        if is_point_at(l, q) {
            let z = if q == x { y } else { x };
            if z < q {
                assert(l.subrange(0, q)[z] == l[z]);
            } else {
                assert(l.subrange(q + 1, l.len() as int)[z - q - 1] == l[z]);
            }
        }
    }
}

proof fn lemma_pow10_at_least_ten(j: nat)
    requires
        j >= 1,
    ensures
        pow10(j) >= 10,
{
    lemma_pow10_positive((j - 1) as nat);
}

proof fn lemma_pow10_twenty(k: nat)
    requires
        k >= 20,
    ensures
        pow10(k) > u64::MAX,
{
    assert(pow10(20) == 100_000_000_000_000_000_000) by {
        reveal_with_fuel(pow10, 21);
    }
    lemma_pow10_add(20, (k - 20) as nat);
    lemma_pow10_positive((k - 20) as nat);
    assert(pow10(20) * pow10((k - 20) as nat) >= pow10(20)) by (nonlinear_arith)
        requires
            pow10((k - 20) as nat) >= 1,
    ;
}

/// Rounding `d` shifted right by `d.len() - c` places keeps the first `c`
/// digits and adds one when the next is five or more.
proof fn lemma_round_prefix(d: Seq<u8>, c: int)
    requires
        all_digits(d),
        0 <= c < d.len(),
    ensures
        scaled_round(d, c - d.len()) == digits_value(d.subrange(0, c)) + (if d[c] >= 53 { 1nat } else { 0nat }),
{
    let n = d.len() as int;
    let a = d.subrange(0, c);
    let r = d.subrange(c + 1, n);
    let dc = d[c] - 48;
    assert(is_digit(d[c]));
    assert(d =~= (a + seq![d[c]]) + r);
    lemma_digits_concat(a + seq![d[c]], r);
    lemma_digits_concat(a, seq![d[c]]);
    assert(seq![d[c]].drop_last() =~= Seq::<u8>::empty());
    assert(digits_value(seq![d[c]]) == dc) by {
        reveal_with_fuel(digits_value, 2);
    }
    assert(all_digits(r)) by {
        assert forall|k: int| 0 <= k < r.len() implies is_digit(#[trigger] r[k]) by {
            assert(r[k] == d[k + c + 1]);
        }
    }
    lemma_digits_bound(r);
    reveal_with_fuel(pow10, 2);
    let q = pow10(r.len());
    let rv = digits_value(r);
    let v = digits_value(a);
    let dv = digits_value(d);
    assert(dv == (v * 10 + dc) * q + rv);
    lemma_pow10_add(1, r.len());
    let p = pow10((n - c) as nat);
    assert(p == 10 * q);
    let up: int = if dc >= 5 { 1 } else { 0 };
    let rest = 2 * (dc * q + rv) + p - up * (2 * p);
    assert(2 * dv + p == rest + (v + up) * (2 * p)) by (nonlinear_arith)
        requires
            dv == (v * 10 + dc) * q + rv,
            p == 10 * q,
            rest == 2 * (dc * q + rv) + p - up * (2 * p),
    ;
    assert(0 <= rest < 2 * p) by (nonlinear_arith)
        requires
            rest == 2 * (dc * q + rv) + p - up * (2 * p),
            p == 10 * q,
            0 <= rv < q,
            0 <= dc <= 9,
            up == (if dc >= 5 { 1int } else { 0int }),
    ;
    lemma_hoist_over_denominator(rest, v + up, (2 * p) as nat);
    lemma_basic_div(rest, (2 * p) as int);
}

/// Shifted right by more places than it has digits, `d` rounds to zero.
proof fn lemma_round_tiny(d: Seq<u8>, m: int)
    requires
        all_digits(d),
        m > d.len(),
    ensures
        scaled_round(d, -m) == 0,
{
    let n = d.len();
    lemma_digits_bound(d);
    lemma_pow10_add(n, (m - n) as nat);
    lemma_pow10_at_least_ten((m - n) as nat);
    let p = pow10(m as nat);
    let b = pow10(n);
    let v = digits_value(d);
    assert(2 * v + p < 2 * p) by (nonlinear_arith)
        requires
            v < b,
            p == b * pow10((m - n) as nat),
            pow10((m - n) as nat) >= 10,
    ;
    lemma_basic_div((2 * v + p) as int, (2 * p) as int);
}

proof fn lemma_scaled_zero(d: Seq<u8>, k: int)
    requires
        digits_value(d) == 0,
    ensures
        scaled_round(d, k) == 0,
{
    if k < 0 {
        let p = pow10((-k) as nat);
        lemma_pow10_positive((-k) as nat);
        lemma_basic_div(p as int, (2 * p) as int);
    }
}

proof fn lemma_scaled_at_least(d: Seq<u8>, k: int)
    requires
        k >= 0,
    ensures
        scaled_round(d, k) >= digits_value(d),
        k >= 20 && digits_value(d) > 0 ==> scaled_round(d, k) > u64::MAX,
{
    lemma_pow10_positive(k as nat);
    let v = digits_value(d);
    let p = pow10(k as nat);
    assert(v * p >= v) by (nonlinear_arith)
        requires
            p >= 1,
    ;
    if k >= 20 && v > 0 {
        lemma_pow10_twenty(k as nat);
        assert(v * p >= p) by (nonlinear_arith)
            requires
                v >= 1,
                p >= 1,
        ;
    }
}

/// `d * 10^k` rounded half up, or `None` when that exceeds 64 bits.
fn round_scaled(d: &Vec<u8>, k: i128) -> (r: Option<u64>)
    requires
        all_digits(d@),
        k >= -MAX_SHIFT,
    ensures
        r is Some <==> scaled_round(d@, k as int) <= u64::MAX,
        r is Some ==> r->0 == scaled_round(d@, k as int),
{
    let n = d.len();
    assert(d@.subrange(0, n as int) =~= d@);
    if k >= 0 {
        proof {
            lemma_scaled_at_least(d@, k as int);
        }
        let v = match read_digits(d, 0, n, u64::MAX as u128) {
            Some(v) => v,
            None => {
                return None;
            },
        };
        if v == 0 {
            proof {
                lemma_scaled_zero(d@, k as int);
            }
            return Some(0);
        }
        if k > 19 {
            return None;
        }
        let mut p: u128 = 1;
        let mut j: i128 = 0;
        while j < k
            invariant
                0 <= j <= k <= 19,
                p == pow10(j as nat),
            decreases k - j,
        {
            proof {
                lemma_pow10_add(j as nat, (19 - j) as nat);
                lemma_pow10_at_least_ten((19 - j) as nat);
                assert(pow10(19) == 10_000_000_000_000_000_000) by {
                    reveal_with_fuel(pow10, 20);
                }
                assert(p * 10 <= 10_000_000_000_000_000_000) by (nonlinear_arith)
                    requires
                        pow10(19) == p * pow10((19 - j) as nat),
                        pow10((19 - j) as nat) >= 10,
                        pow10(19) == 10_000_000_000_000_000_000,
                ;
            }
            p = p * 10;
            j = j + 1;
        }
        proof {
            lemma_pow10_add(k as nat, (19 - k) as nat);
            lemma_pow10_positive((19 - k) as nat);
            assert(pow10(19) == 10_000_000_000_000_000_000) by {
                reveal_with_fuel(pow10, 20);
            }
            assert(v * p <= 18_446_744_073_709_551_615 * 10_000_000_000_000_000_000) by (nonlinear_arith)
                requires
                    v <= 18_446_744_073_709_551_615,
                    pow10(19) == p * pow10((19 - k) as nat),
                    pow10((19 - k) as nat) >= 1,
                    pow10(19) == 10_000_000_000_000_000_000,
            ;
        }
        let total = v * p;
        if total > u64::MAX as u128 {
            None
        } else {
            Some(total as u64)
        }
    } else {
        let m: u128 = (0 - k) as u128;
        if m > n as u128 {
            proof {
                lemma_round_tiny(d@, m as int);
            }
            return Some(0);
        }
        let c: usize = n - m as usize;
        proof {
            lemma_round_prefix(d@, c as int);
            assert(all_digits(d@.subrange(0, c as int))) by {
                assert forall|i: int| 0 <= i < c implies is_digit(#[trigger] d@.subrange(0, c as int)[i]) by {
                    assert(d@.subrange(0, c as int)[i] == d@[i]);
                }
            }
        }
        let v = match read_digits(d, 0, c, u64::MAX as u128) {
            Some(v) => v,
            None => {
                return None;
            },
        };
        let up: u128 = if d[c] >= 53 {
            1
        } else {
            0
        };
        let total = v + up;
        if total > u64::MAX as u128 {
            None
        } else {
            Some(total as u64)
        }
    }
}

/// Where a plain decimal number `s[from..to]` has its decimal point (`to`
/// without one), or `None` when it is no plain decimal number.
fn decimal_point(s: &Vec<u8>, from: usize, to: usize) -> (r: Option<usize>)
    requires
        from <= to <= s.len(),
    ensures
        r is Some <==> is_decimal(s@.subrange(from as int, to as int)),
        r is Some ==> ({
            let l = s@.subrange(from as int, to as int);
            let point = r->0;
            &&& from <= point <= to
            &&& point == to ==> integral_part(l) == l && fractional_part(l) == Seq::<u8>::empty()
                && all_digits(l)
            &&& point < to ==> integral_part(l) == s@.subrange(from as int, point as int)
                && fractional_part(l) == s@.subrange(point + 1, to as int) && all_digits(integral_part(l))
                && all_digits(fractional_part(l))
        }),
{
    let ghost l = s@.subrange(from as int, to as int);
    if from == to {
        return None;
    }
    let mut point: usize = to;
    let mut i: usize = from;
    while i < to
        invariant
            from <= i <= to <= s.len(),
            l == s@.subrange(from as int, to as int),
            point == to || (from <= point < i && s@[point as int] == 46),
            forall|j: int| from <= j < i && j != point ==> is_digit(#[trigger] s@[j]),
        decreases to - i,
    {
        let b = s[i];
        if b == 46 && point == to {
            point = i;
        } else if b < 48 || b > 57 {
            proof {
                if point == to {
                    assert(l[i - from] == b);
                    assert forall|q: int| !is_point_at(l, q) by {
                        if is_point_at(l, q) {
                            if q < i - from {
                                assert(l[q] == s@[from + q]);
                            } else if q > i - from {
                                assert(l.subrange(0, q)[i - from] == l[i - from]);
                            }
                        }
                    }
                } else {
                    assert(l[i - from] == b);
                    assert(l[point - from] == 46);
                    lemma_no_point(l, i - from, point - from);
                }
            }
            return None;
        }
        i = i + 1;
    }
    assert forall|j: int| 0 <= j < l.len() && j != point - from implies is_digit(#[trigger] l[j]) by {
        assert(l[j] == s@[from + j]);
    }
    assert forall|j: int| 0 <= j < l.len() && j != point - from implies is_digit(#[trigger] l[j]) by {
        assert(l[j] == s@[from + j]);
    }
    if point == to {
        assert(all_digits(l));
        assert(integral_part(l) =~= l);
        Some(to)
    } else {
        let ghost p = point - from;
        proof {
            lemma_only_point(l, p);
        }
        if to - from == 1 {
            return None;
        }
        assert(integral_part(l) =~= s@.subrange(from as int, point as int));
        assert(fractional_part(l) =~= s@.subrange(point + 1, to as int));
        assert(is_point_at(l, p));
        Some(point)
    }
}

proof fn lemma_mark_at(u: Seq<u8>, m: int)
    requires
        0 <= m <= u.len(),
        forall|j: int| 0 <= j < m ==> !is_exponent_mark(#[trigger] u[j]),
        m == u.len() || is_exponent_mark(u[m]),
    ensures
        mark_at(u) == m,
    decreases m,
{
    if m > 0 {
        let t = u.drop_first();
        assert forall|j: int| 0 <= j < m - 1 implies !is_exponent_mark(#[trigger] t[j]) by {
            assert(t[j] == u[j + 1]);
        }
        lemma_mark_at(t, m - 1);
    }
}

/// The largest exponent read exactly; a larger one moves any digits out of
/// 64 bits of nanoseconds, or rounds them to zero.
const MAX_EXPONENT: u128 = 1_000_000_000_000_000_000_000_000_000_000;

/// A bound on the shifts that come of exponents up to `MAX_EXPONENT`.
const MAX_SHIFT: i128 = 10_000_000_000_000_000_000_000_000_000_000;

/// The digits of `s[from..to]` without the decimal point at `point` (`to`
/// when there is none).
fn collect_digits(s: &Vec<u8>, from: usize, point: usize, to: usize) -> (d: Vec<u8>)
    requires
        from <= point <= to <= s.len(),
    ensures
        d@ == s@.subrange(from as int, point as int) + (if point < to {
            s@.subrange(point + 1, to as int)
        } else {
            Seq::<u8>::empty()
        }),
{
    let mut digits: Vec<u8> = Vec::new();
    let mut i: usize = from;
    while i < point
        invariant
            from <= i <= point <= to <= s.len(),
            digits@ == s@.subrange(from as int, i as int),
        decreases point - i,
    {
        digits.push(s[i]);
        assert(s@.subrange(from as int, i + 1) =~= s@.subrange(from as int, i as int).push(s@[i as int]));
        i = i + 1;
    }
    if point < to {
        let ghost head = digits@;
        let mut j: usize = point + 1;
        while j < to
            invariant
                point < j <= to <= s.len(),
                digits@ == head + s@.subrange(point + 1, j as int),
            decreases to - j,
        {
            digits.push(s[j]);
            assert(s@.subrange(point + 1, j + 1) =~= s@.subrange(point + 1, j as int).push(s@[j as int]));
            assert(head + s@.subrange(point + 1, j + 1) =~= (head + s@.subrange(point + 1, j as int)).push(s@[j as int]));
            j = j + 1;
        }
        digits
    } else {
        assert(digits@ =~= digits@ + Seq::<u8>::empty());
        digits
    }
}

/// An exponent `s[from..to]` read: whether it is negative, and its
/// magnitude unless that exceeds `MAX_EXPONENT`; `None` when it is no exponent.
fn read_exponent(s: &Vec<u8>, from: usize, to: usize) -> (r: Option<(bool, Option<u128>)>)
    requires
        from <= to <= s.len(),
    ensures
        r is Some <==> is_exponent(s@.subrange(from as int, to as int)),
        r matches Some((minus, mag)) ==> {
            let x = s@.subrange(from as int, to as int);
            &&& minus == (x.len() > 0 && x[0] == 45)
            &&& (mag is Some <==> digits_value(unsigned_part(x)) <= MAX_EXPONENT)
            &&& (mag is Some ==> mag->0 == digits_value(unsigned_part(x)))
        },
{
    let ghost x = s@.subrange(from as int, to as int);
    let mut q: usize = from;
    let mut minus = false;
    if q < to && (s[q] == 43 || s[q] == 45) {
        minus = s[q] == 45;
        q = q + 1;
    }
    assert(unsigned_part(x) =~= s@.subrange(q as int, to as int));
    if q == to {
        return None;
    }
    let mut j: usize = q;
    while j < to
        invariant
            q <= j <= to <= s.len(),
            x == s@.subrange(from as int, to as int),
            unsigned_part(x) == s@.subrange(q as int, to as int),
            forall|t: int| q <= t < j ==> is_digit(#[trigger] s@[t]),
        decreases to - j,
    {
        if s[j] < 48 || s[j] > 57 {
            proof {
                let ux = s@.subrange(q as int, to as int);
                assert(ux[j - q] == s@[j as int]);
            }
            return None;
        }
        j = j + 1;
    }
    assert(all_digits(unsigned_part(x))) by {
        assert forall|t: int| 0 <= t < unsigned_part(x).len() implies is_digit(#[trigger] unsigned_part(x)[t]) by {
            assert(unsigned_part(x)[t] == s@[q + t]);
        }
    }
    Some((minus, read_digits(s, q, to, MAX_EXPONENT)))
}

/// The parts of a number `s[from..to]`: whether it has a minus sign, the
/// digits of its significand, and the shift that turns them into
/// nanoseconds; when its exponent exceeds `MAX_EXPONENT`, in place of the
/// shift, whether that exponent is negative. `None`
/// when `s[from..to]` is no number.
#[verifier::rlimit(50)]
fn number_parts(s: &Vec<u8>, from: usize, to: usize) -> (r: Option<(bool, Vec<u8>, Result<i128, bool>)>)
    requires
        from <= to <= s.len(),
    ensures
        r is Some <==> is_number(s@.subrange(from as int, to as int)),
        r matches Some((minus, digits, shift)) ==> {
            let l = s@.subrange(from as int, to as int);
            &&& minus == (l.len() > 0 && l[0] == 45)
            &&& digits@ == significand_digits(l)
            &&& all_digits(digits@)
            &&& shift matches Ok(k) ==> k == nanos_shift(l) && k >= -MAX_SHIFT
            &&& shift matches Err(below) ==> if below {
                nanos_shift(l) < -(digits@.len() as int)
            } else {
                nanos_shift(l) >= 20
            }
        },
{
    let ghost l = s@.subrange(from as int, to as int);
    let mut p: usize = from;
    let mut minus = false;
    if p < to && (s[p] == 43 || s[p] == 45) {
        minus = s[p] == 45;
        p = p + 1;
    }
    let ghost u = unsigned_part(l);
    assert(u =~= s@.subrange(p as int, to as int));
    let mut e: usize = p;
    while e < to && s[e] != 101 && s[e] != 69
        invariant
            p <= e <= to <= s.len(),
            forall|j: int| p <= j < e ==> !is_exponent_mark(#[trigger] s@[j]),
        decreases to - e,
    {
        e = e + 1;
    }
    proof {
        assert forall|j: int| 0 <= j < e - p implies !is_exponent_mark(#[trigger] u[j]) by {
            assert(u[j] == s@[p + j]);
        }
        if e < to {
            assert(u[e - p] == s@[e as int]);
        }
        lemma_mark_at(u, e - p);
        assert(significand(l) =~= s@.subrange(p as int, e as int));
    }
    let ghost sig = significand(l);
    let point = match decimal_point(s, p, e) {
        Some(point) => point,
        None => {
            return None;
        },
    };
    let digits = collect_digits(s, p, point, e);
    assert(digits@ =~= significand_digits(l));
    let ghost dd = significand_digits(l);
    assert(all_digits(dd)) by {
        assert forall|k: int| 0 <= k < dd.len() implies is_digit(#[trigger] dd[k]) by {
            let ip = integral_part(sig);
            if k < ip.len() {
                assert(dd[k] == ip[k]);
            } else {
                assert(dd[k] == fractional_part(sig)[k - ip.len()]);
            }
        }
    }
    let frac_len: usize = if point == e {
        0
    } else {
        e - point - 1
    };
    assert(frac_len == fractional_part(sig).len());
    let base: i128 = 6 - frac_len as i128;
    if e == to {
        return Some((minus, digits, Ok(base)));
    }
    assert(exponent_text(l) =~= s@.subrange(e + 1, to as int));
    let (exp_minus, magnitude) = match read_exponent(s, e + 1, to) {
        Some(x) => x,
        None => {
            return None;
        },
    };
    match magnitude {
        Some(mag) => {
            let shift = if exp_minus {
                base - mag as i128
            } else {
                base + mag as i128
            };
            Some((minus, digits, Ok(shift)))
        },
        None => Some((minus, digits, Err(exp_minus))),
    }
}

/// The duration in nanoseconds that the line `s[from..to]` holds, read as
/// milliseconds; `None` when it holds no finite number at least zero, or
/// one too large for 64 bits.
pub fn parse_millis(s: &Vec<u8>, from: usize, to: usize) -> (r: Option<u64>)
    requires
        from <= to <= s.len(),
    ensures
        r is Some <==> line_fits(s@.subrange(from as int, to as int)),
        r is Some ==> r->0 == line_nanos(s@.subrange(from as int, to as int))->0,
{
    let ghost l = s@.subrange(from as int, to as int);
    let (minus, digits, shift) = match number_parts(s, from, to) {
        Some(parts) => parts,
        None => {
            return None;
        },
    };
    let ghost dd = digits@;
    assert(digits@.subrange(0, digits.len() as int) =~= digits@);
    let value = read_digits(&digits, 0, digits.len(), u64::MAX as u128);
    let positive = match value {
        Some(v) => v > 0,
        None => true,
    };
    if minus && positive {
        assert(is_negative(l));
        return None;
    }
    assert(!is_negative(l));
    match shift {
        Ok(k) => round_scaled(&digits, k),
        Err(below) => {
            if below {
                proof {
                    lemma_round_tiny(dd, -nanos_shift(l));
                }
                return Some(0);
            }
            proof {
                lemma_scaled_at_least(dd, nanos_shift(l));
            }
            match value {
                Some(v) => {
                    if v == 0 {
                        proof {
                            lemma_scaled_zero(dd, nanos_shift(l));
                        }
                        return Some(0);
                    }
                },
                None => {},
            }
            None
        },
    }
}

} // verus!
