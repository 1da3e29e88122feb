//! Coordinates written as decimal numbers, read into hundredths of a point.

use vstd::prelude::*;

use vstd::string::StrSliceExecFns;

verus! {

/// Largest magnitude of a parsed coordinate; larger values saturate.
pub const PARSED_COORD_MAX: i64 = 500_000_000;

/// Magnitudes are computed exactly up to this bound, which lies above
/// `PARSED_COORD_MAX`.
const MAGNITUDE_CAP: i64 = 1_000_000_000_000;

pub open spec fn is_digit(c: char) -> bool {
    '0' <= c <= '9'
}

pub open spec fn digit_value(c: char) -> int {
    c as int - '0' as int
}

/// Value of a run of decimal digits.
pub open spec fn digits_value(d: Seq<char>) -> int
    decreases d.len(),
{
    if d.len() == 0 {
        0
    } else {
        digits_value(d.drop_last()) * 10 + digit_value(d.last())
    }
}

pub open spec fn all_digits(d: Seq<char>) -> bool {
    forall|i: int| 0 <= i < d.len() ==> is_digit(#[trigger] d[i])
}

pub open spec fn pow10(k: nat) -> int
    decreases k,
{
    if k == 0 {
        1
    } else {
        10 * pow10((k - 1) as nat)
    }
}

/// `m * 10^k`, rounded down.
pub open spec fn scaled(m: int, k: int) -> int {
    if k >= 0 {
        m * pow10(k as nat)
    } else {
        m / pow10((-k) as nat)
    }
}

/// Position of the first `c` in `s`, or its length.
pub open spec fn index_of(s: Seq<char>, c: char) -> int
    decreases s.len(),
{
    if s.len() == 0 {
        0
    } else if s[0] == c {
        0
    } else {
        1 + index_of(s.drop_first(), c)
    }
}

/// Position of the first exponent marker (`e` or `E`) in `s`, or its length.
pub open spec fn exponent_at(s: Seq<char>) -> int
    decreases s.len(),
{
    if s.len() == 0 {
        0
    } else if s[0] == 'e' || s[0] == 'E' {
        0
    } else {
        1 + exponent_at(s.drop_first())
    }
}

/// `s` without a leading sign, and whether that sign was `-`.
pub open spec fn unsign(s: Seq<char>) -> (bool, Seq<char>) {
    if s.len() > 0 && s[0] == '-' {
        (true, s.drop_first())
    } else if s.len() > 0 && s[0] == '+' {
        (false, s.drop_first())
    } else {
        (false, s)
    }
}

/// An exponent: an optional sign and at least one digit.
pub open spec fn exponent_value(e: Seq<char>) -> Option<int> {
    let (neg, d) = unsign(e);
    if d.len() > 0 && all_digits(d) {
        Some(
            if neg {
                -digits_value(d)
            } else {
                digits_value(d)
            },
        )
    } else {
        None
    }
}

/// Hundredths in an unsigned decimal number `s`, rounded down: digits with
/// at most one point and at least one digit, optionally followed by `e` or
/// `E` and a signed exponent. None when `s` is not such a number.
pub open spec fn unsigned_hundredths(s: Seq<char>) -> Option<int> {
    let x = exponent_at(s);
    let m = s.take(x);
    let p = index_of(m, '.');
    let int_part = m.take(p);
    let frac = if p < m.len() {
        m.skip(p + 1)
    } else {
        Seq::empty()
    };
    let exp = if x < s.len() {
        exponent_value(s.skip(x + 1))
    } else {
        Some(0)
    };
    if all_digits(int_part) && all_digits(frac) && int_part.len() + frac.len() > 0 && exp is Some {
        Some(scaled(digits_value(int_part + frac), exp->0 + 2 - frac.len()))
    } else {
        None
    }
}

/// `s` spells `lo` with any of its letters possibly as in `up`.
pub open spec fn spells(s: Seq<char>, lo: Seq<char>, up: Seq<char>) -> bool {
    &&& s.len() == lo.len()
    &&& up.len() == lo.len()
    &&& forall|i: int| 0 <= i < s.len() ==> #[trigger] s[i] == lo[i] || s[i] == up[i]
}

pub open spec fn saturate(v: int) -> int {
    if v > PARSED_COORD_MAX {
        PARSED_COORD_MAX as int
    } else if v < -PARSED_COORD_MAX {
        -PARSED_COORD_MAX
    } else {
        v
    }
}

/// A coordinate written in document points, in hundredths of a point, as
/// a float literal reads: an optional sign, then an unsigned decimal
/// (truncated towards zero after two decimals), or `inf` / `infinity`
/// (saturating), or `nan`, in any letter case. Magnitudes saturate at
/// `PARSED_COORD_MAX`; `nan`, and text that is no float literal, read as
/// zero.
pub open spec fn coordinate_value(s: Seq<char>) -> int {
    let (neg, body) = unsign(s);
    if spells(body, "inf"@, "INF"@) || spells(body, "infinity"@, "INFINITY"@) {
        if neg {
            -PARSED_COORD_MAX
        } else {
            PARSED_COORD_MAX as int
        }
    } else {
        match unsigned_hundredths(body) {
            Some(v) => saturate(
                if neg {
                    -v
                } else {
                    v
                },
            ),
            None => 0,
        }
    }
}

proof fn lemma_pow10_positive(k: nat)
    ensures
        pow10(k) >= 1,
    decreases k,
{
    if k > 0 {
        lemma_pow10_positive((k - 1) as nat);
    }
}

proof fn lemma_pow10_mono(a: nat, b: nat)
    requires
        a <= b,
    ensures
        pow10(a) <= pow10(b),
    decreases b,
{
    if a < b {
        lemma_pow10_mono(a, (b - 1) as nat);
        lemma_pow10_positive((b - 1) as nat);
    }
}

proof fn lemma_digits_value_bounds(d: Seq<char>)
    requires
        all_digits(d),
    ensures
        0 <= digits_value(d) < pow10(d.len()),
    decreases d.len(),
{
    if d.len() > 0 {
        assert(all_digits(d.drop_last()));
        lemma_digits_value_bounds(d.drop_last());
        assert(is_digit(d[d.len() - 1]));
    }
}

/// Dropping the last `j` digits divides by `10^j`, rounding down.
proof fn lemma_digits_value_div(d: Seq<char>, j: nat)
    requires
        all_digits(d),
        j <= d.len(),
    ensures
        digits_value(d) / pow10(j) == digits_value(d.take(d.len() - j)),
    decreases j,
{
    if j == 0 {
        assert(d.take(d.len() as int) =~= d);
    } else {
        lemma_digits_value_div(d, (j - 1) as nat);
        let e = d.take(d.len() - j + 1);
        assert(e.drop_last() =~= d.take(d.len() - j));
        assert(is_digit(e.last()));
        assert(all_digits(e.drop_last()));
        lemma_digits_value_bounds(e.drop_last());
        lemma_pow10_positive((j - 1) as nat);
        lemma_digits_value_bounds(d);
        vstd::arithmetic::div_mod::lemma_div_denominator(
            digits_value(d),
            pow10((j - 1) as nat),
            10,
        );
        assert(pow10(j) == pow10((j - 1) as nat) * 10);
        vstd::arithmetic::div_mod::lemma_fundamental_div_mod_converse(
            digits_value(e),
            10,
            digits_value(e.drop_last()),
            digit_value(e.last()),
        );
    }
}

/// `min(m * 10^k, cap)` for a digit value `m`, once `k` reaches 13, no
/// longer depends on `k`.
proof fn lemma_large_scale(m: int, k: nat)
    requires
        m >= 0,
        k >= 13,
    ensures
        (m * pow10(k) >= MAGNITUDE_CAP) == (m > 0),
        m == 0 ==> m * pow10(k) == 0,
{
    lemma_pow10_mono(13, k);
    reveal_with_fuel(pow10, 14);
    assert(pow10(13) == 10_000_000_000_000);
    if m > 0 {
        assert(m * pow10(k) >= pow10(k)) by (nonlinear_arith)
            requires m >= 1, pow10(k) >= 1;
    }
}

fn chars_of(s: &str) -> (r: Vec<char>)
    ensures
        r@ == s@,
{
    let n = s.unicode_len();
    let mut r: Vec<char> = Vec::new();
    let mut i: usize = 0;
    while i < n
        invariant
            n == s@.len(),
            i <= n,
            r@ =~= s@.take(i as int),
        decreases n - i,
    {
        r.push(s.get_char(i));
        i = i + 1;
    }
    assert(r@ =~= s@);
    r
}

/// Whether `cs[from..to]` is all digits.
fn all_digits_in(cs: &Vec<char>, from: usize, to: usize) -> (r: bool)
    requires
        from <= to <= cs@.len(),
    ensures
        r == all_digits(cs@.subrange(from as int, to as int)),
{
    let mut i = from;
    while i < to
        invariant
            from <= i <= to <= cs@.len(),
            all_digits(cs@.subrange(from as int, i as int)),
        decreases to - i,
    {
        if !('0' <= cs[i] && cs[i] <= '9') {
            assert(!is_digit(cs@.subrange(from as int, to as int)[i - from]));
            return false;
        }
        i = i + 1;
    }
    true
}

/// `min(digits_value(cs[from..to]), cap)`.
fn capped_digits(cs: &Vec<char>, from: usize, to: usize, cap: i128) -> (r: i128)
    requires
        from <= to <= cs@.len(),
        all_digits(cs@.subrange(from as int, to as int)),
        0 <= cap <= 0x1_0000_0000_0000_0000_0000_0000,
    ensures
        r == if digits_value(cs@.subrange(from as int, to as int)) > cap {
            cap as int
        } else {
            digits_value(cs@.subrange(from as int, to as int))
        },
{
    let mut acc: i128 = 0;
    let mut i = from;
    assert(cs@.subrange(from as int, from as int) =~= Seq::<char>::empty());
    while i < to
        invariant
            from <= i <= to <= cs@.len(),
            all_digits(cs@.subrange(from as int, to as int)),
            0 <= cap <= 0x1_0000_0000_0000_0000_0000_0000,
            acc == if digits_value(cs@.subrange(from as int, i as int)) > cap {
                cap as int
            } else {
                digits_value(cs@.subrange(from as int, i as int))
            },
        decreases to - i,
    {
        let c = cs[i];
        assert(cs@.subrange(from as int, i + 1).drop_last() =~= cs@.subrange(from as int, i as int));
        assert(cs@.subrange(from as int, i + 1).last() == c);
        assert(is_digit(cs@.subrange(from as int, to as int)[i - from]));
        proof {
            assert(all_digits(cs@.subrange(from as int, i as int)));
            lemma_digits_value_bounds(cs@.subrange(from as int, i as int));
        }
        let d = (c as u32 - '0' as u32) as i128;
        let next = acc * 10 + d;
        acc = if next > cap {
            cap
        } else {
            next
        };
        i = i + 1;
    }
    acc
}

/// Whether `cs[from..]` spells `lo`, each letter possibly as in `up`.
fn spells_from(cs: &Vec<char>, from: usize, lo: &str, up: &str) -> (r: bool)
    requires
        from <= cs@.len(),
    ensures
        r == spells(cs@.skip(from as int), lo@, up@),
{
    let n = lo.unicode_len();
    if cs.len() - from != n || up.unicode_len() != n {
        return false;
    }
    let mut idx = from;
    while idx < cs.len()
        invariant
            n == lo@.len(),
            n == up@.len(),
            cs@.len() - from == n,
            from <= idx <= cs@.len(),
            forall|k: int| 0 <= k < idx - from ==> #[trigger] cs@.skip(from as int)[k] == lo@[k] || cs@.skip(
                from as int,
            )[k] == up@[k],
        decreases cs@.len() - idx,
    {
        let c = cs[idx];
        assert(cs@.skip(from as int)[idx - from] == c);
        if c != lo.get_char(idx - from) && c != up.get_char(idx - from) {
            return false;
        }
        idx = idx + 1;
    }
    true
}

/// `min(unsigned_hundredths(cs[start..]), MAGNITUDE_CAP)`, or none when
/// `cs[start..]` is not an unsigned decimal.
fn parse_unsigned(cs: &Vec<char>, start: usize) -> (r: Option<i64>)
    requires
        start <= cs@.len(),
    ensures
        r is None <==> unsigned_hundredths(cs@.skip(start as int)) is None,
        r matches Some(v) ==> {
            let exact = unsigned_hundredths(cs@.skip(start as int))->0;
            &&& exact >= 0
            &&& v == if exact > MAGNITUDE_CAP {
                MAGNITUDE_CAP as int
            } else {
                exact
            }
        },
{
    let ghost body = cs@.skip(start as int);
    let n = cs.len();
    let mut x = start;
    while x < n && cs[x] != 'e' && cs[x] != 'E'
        invariant
            start <= x <= n,
            n == cs@.len(),
            body == cs@.skip(start as int),
            exponent_at(body) == (x - start) + exponent_at(cs@.skip(x as int)),
        decreases n - x,
    {
        assert(cs@.skip(x as int).drop_first() =~= cs@.skip(x + 1));
        x = x + 1;
    }
    assert(exponent_at(body) == x - start);
    assert(body.len() == n - start);
    assert(x < n ==> body.skip(x - start + 1) =~= cs@.skip(x + 1));
    let ghost m = body.take(x - start);
    assert(m =~= cs@.subrange(start as int, x as int));
    let mut p = start;
    while p < x && cs[p] != '.'
        invariant
            start <= p <= x <= n,
            n == cs@.len(),
            m == cs@.subrange(start as int, x as int),
            index_of(m, '.') == (p - start) + index_of(cs@.subrange(p as int, x as int), '.'),
        decreases x - p,
    {
        assert(cs@.subrange(p as int, x as int).drop_first() =~= cs@.subrange(p + 1, x as int));
        p = p + 1;
    }
    assert(index_of(m, '.') == p - start);
    let fs = if p < x {
        p + 1
    } else {
        x
    };
    let ghost int_part = m.take(p - start);
    let ghost frac = if p - start < m.len() {
        m.skip(p - start + 1)
    } else {
        Seq::empty()
    };
    assert(int_part =~= cs@.subrange(start as int, p as int));
    assert(frac =~= cs@.subrange(fs as int, x as int));
    if !all_digits_in(cs, start, p) || !all_digits_in(cs, fs, x) || (p - start) + (x - fs) == 0 {
        return None;
    }
    let lim: i128 = n as i128 + 40;
    let (exp_neg, exp_mag, Ghost(exp_exact)) = if x < n {
        match parse_exponent(cs, x + 1, lim) {
            None => {
                return None;
            },
            Some(e) => e,
        }
    } else {
        (false, 0, Ghost(0))
    };
    let digits = mantissa_digits(cs, start, p, fs, x);
    let ghost dv = digits@;
    assert(dv =~= int_part + frac);
    assert(all_digits(dv)) by {
        assert forall|j: int| 0 <= j < dv.len() implies is_digit(#[trigger] dv[j]) by {
            if j < int_part.len() {
                assert(dv[j] == int_part[j]);
            } else {
                assert(dv[j] == frac[j - int_part.len()]);
            }
        }
    }
    let f = x - fs;
    let signed_exp: i128 = if exp_neg {
        -exp_mag
    } else {
        exp_mag
    };
    let k: i128 = signed_exp + 2 - f as i128;
    let ghost k_exact = exp_exact + 2 - f;
    assert(dv.len() <= n);
    assert(digits@.len() == (p - start) + (x - fs));
    assert(f == frac.len());
    assert(x < n ==> unsigned_hundredths(body) == Some(scaled(digits_value(dv), k_exact)));
    assert(x == n ==> unsigned_hundredths(body) == Some(scaled(digits_value(dv), k_exact)));
    Some(scaled_capped(&digits, k, Ghost(k_exact)))
}

/// Sign, magnitude capped at `lim`, and exact value of the exponent that
/// `cs[from..]` holds.
fn parse_exponent(cs: &Vec<char>, from: usize, lim: i128) -> (r: Option<
    (bool, i128, Ghost<int>),
>)
    requires
        from <= cs@.len(),
        1 <= lim <= 0x1_0000_0000_0000_0000_0000,
    ensures
        r is None <==> exponent_value(cs@.skip(from as int)) is None,
        r matches Some((neg, mag, exact)) ==> {
            &&& exponent_value(cs@.skip(from as int)) == Some(exact@)
            &&& neg == (exact@ < 0)
            &&& 0 <= mag <= lim
            &&& (if neg { -exact@ } else { exact@ }) > lim ==> mag == lim
            &&& (if neg { -exact@ } else { exact@ }) <= lim ==> mag == (if neg { -exact@ } else { exact@ })
        },
{
    let n = cs.len();
    let ghost e = cs@.skip(from as int);
    let mut neg = false;
    let mut ds = from;
    if ds < n && cs[ds] == '-' {
        neg = true;
        ds = ds + 1;
    } else if ds < n && cs[ds] == '+' {
        ds = ds + 1;
    }
    let ghost ed = cs@.subrange(ds as int, n as int);
    assert(unsign(e).1 =~= ed);
    assert(unsign(e).0 == neg);
    if ds >= n || !all_digits_in(cs, ds, n) {
        return None;
    }
    let mag = capped_digits(cs, ds, n, lim);
    proof {
        lemma_digits_value_bounds(ed);
        lemma_pow10_positive(ed.len());
    }
    if neg && mag == 0 {
        // "-0" and its like: the exact value is zero
        return Some((false, 0, Ghost(0)));
    }
    let ghost exact = if neg {
        -digits_value(ed)
    } else {
        digits_value(ed)
    };
    Some((neg, mag, Ghost(exact)))
}

/// The digits of `cs[start..p]` followed by those of `cs[fs..x]`.
fn mantissa_digits(cs: &Vec<char>, start: usize, p: usize, fs: usize, x: usize) -> (r: Vec<char>)
    requires
        start <= p <= fs <= x <= cs@.len(),
    ensures
        r@ == cs@.subrange(start as int, p as int) + cs@.subrange(fs as int, x as int),
{
    let mut digits: Vec<char> = Vec::new();
    let mut i = start;
    while i < p
        invariant
            start <= i <= p <= x <= cs@.len(),
            digits@ =~= cs@.subrange(start as int, i as int),
        decreases p - i,
    {
        digits.push(cs[i]);
        i = i + 1;
    }
    let mut i = fs;
    while i < x
        invariant
            start <= p <= fs <= i <= x <= cs@.len(),
            digits@ =~= cs@.subrange(start as int, p as int) + cs@.subrange(fs as int, i as int),
        decreases x - i,
    {
        digits.push(cs[i]);
        i = i + 1;
    }
    digits
}

/// `min(scaled(digits, k_exact), MAGNITUDE_CAP)`, computed from `k`, which
/// is either `k_exact` or, where `k_exact` is out of reach, a stand-in that
/// gives the same result.
fn scaled_capped(digits: &Vec<char>, k: i128, Ghost(k_exact): Ghost<int>) -> (r: i64)
    requires
        all_digits(digits@),
        k == k_exact || (k >= 13 && k_exact >= k) || (k < 0 && -k >= digits@.len() && -k_exact
            >= digits@.len()),
        -0x1_0000_0000_0000_0000_0000 <= k <= 0x1_0000_0000_0000_0000_0000,
    ensures
        scaled(digits_value(digits@), k_exact) >= 0,
        r == if scaled(digits_value(digits@), k_exact) > MAGNITUDE_CAP {
            MAGNITUDE_CAP as int
        } else {
            scaled(digits_value(digits@), k_exact)
        },
{
    let ghost dv = digits@;
    let ghost mv = digits_value(dv);
    proof {
        lemma_digits_value_bounds(dv);
    }
    let dl = digits.len();
    let ghost exact = scaled(mv, k_exact);
    assert(dv.subrange(0, dl as int) =~= dv);
    let cap = MAGNITUDE_CAP as i128;
    proof {
        if k_exact >= 0 {
            lemma_pow10_positive(k_exact as nat);
            assert(mv * pow10(k_exact as nat) >= 0) by (nonlinear_arith)
                requires mv >= 0, pow10(k_exact as nat) >= 1;
        } else {
            lemma_pow10_positive((-k_exact) as nat);
            vstd::arithmetic::div_mod::lemma_div_pos_is_pos(mv, pow10((-k_exact) as nat));
        }
    }
    if k >= 0 {
        let mut acc = capped_digits(digits, 0, dl, cap);
        let iters: i128 = if k < 13 {
            k
        } else {
            13
        };
        let mut t: i128 = 0;
        assert(mv * pow10(0) == mv);
        while t < iters
            invariant
                0 <= t <= iters <= 13,
                mv >= 0,
                cap == MAGNITUDE_CAP,
                acc == if mv * pow10(t as nat) > cap {
                    cap as int
                } else {
                    mv * pow10(t as nat)
                },
            decreases iters - t,
        {
            proof {
                lemma_pow10_positive(t as nat);
                assert(pow10((t + 1) as nat) == 10 * pow10(t as nat));
                assert(mv * pow10((t + 1) as nat) == (mv * pow10(t as nat)) * 10) by (nonlinear_arith)
                    requires pow10((t + 1) as nat) == 10 * pow10(t as nat);
                assert(mv * pow10(t as nat) >= 0) by (nonlinear_arith)
                    requires mv >= 0, pow10(t as nat) >= 1;
            }
            let next = acc * 10;
            acc = if next > cap {
                cap
            } else {
                next
            };
            t = t + 1;
        }
        proof {
            if k >= 13 {
                lemma_large_scale(mv, 13);
                lemma_large_scale(mv, k_exact as nat);
            }
        }
        acc as i64
    } else {
        let j: i128 = -k;
        if j >= dl as i128 {
            proof {
                lemma_pow10_mono(dl as nat, (-k_exact) as nat);
                vstd::arithmetic::div_mod::lemma_basic_div(mv, pow10((-k_exact) as nat));
            }
            0
        } else {
            proof {
                lemma_digits_value_div(dv, j as nat);
                assert(dv.take(dl - j) =~= digits@.subrange(0, dl - j));
            }
            let v = capped_digits(digits, 0, dl - j as usize, cap);
            v as i64
        }
    }
}

/// Parses a coordinate written in document points into hundredths of a
/// point; see [`coordinate_value`].
pub fn parse_coordinate(s: &str) -> (r: i64)
    ensures
        r == coordinate_value(s@),
        -PARSED_COORD_MAX <= r <= PARSED_COORD_MAX,
{
    let cs = chars_of(s);
    let n = cs.len();
    let mut start: usize = 0;
    let mut neg = false;
    if n > 0 {
        if cs[0] == '-' {
            neg = true;
            start = 1;
        } else if cs[0] == '+' {
            start = 1;
        }
    }
    assert(start == 1 ==> cs@.skip(1) =~= s@.drop_first());
    assert(start == 0 ==> cs@.skip(0) =~= s@);
    if spells_from(&cs, start, "inf", "INF") || spells_from(&cs, start, "infinity", "INFINITY") {
        return if neg {
            -PARSED_COORD_MAX
        } else {
            PARSED_COORD_MAX
        };
    }
    match parse_unsigned(&cs, start) {
        None => 0,
        Some(magnitude) => {
            let v = if neg {
                -magnitude
            } else {
                magnitude
            };
            if v > PARSED_COORD_MAX {
                PARSED_COORD_MAX
            } else if v < -PARSED_COORD_MAX {
                -PARSED_COORD_MAX
            } else {
                v
            }
        },
    }
}

} // verus!
