//! Exact rational numbers in canonical form, and the cell values of a panel.
//!
//! Prices and derived factors are held as exact rationals rather than machine
//! floats, so every transform result is pinned down to the exact cell value.
//! A cell is either a number or the undefined sentinel `Value::Undef`, which
//! stands for "no value here" (missing history, division by zero, or a result
//! that does not fit the canonical `i64 / i64` form).

use vstd::prelude::*;
use vstd::arithmetic::div_mod::{
    lemma_fundamental_div_mod, lemma_mod_multiples_basic, lemma_mod_self_0,
};

verus! {

/// An exact rational number. Well-formed values keep `den >= 1`; the
/// arithmetic below always returns canonical results (`gcd(|num|, den) == 1`).
#[derive(Clone, Copy, Debug, PartialEq, Eq, Structural)]
pub struct Rat {
    pub num: i64,
    pub den: i64,
}

/// One cell of an asset column: a rational number or the undefined sentinel.
#[derive(Clone, Copy, Debug, PartialEq, Eq, Structural)]
pub enum Value {
    Undef,
    Num(Rat),
}

pub open spec fn rat_wf(r: Rat) -> bool {
    r.den >= 1
}

pub open spec fn value_wf(v: Value) -> bool {
    match v {
        Value::Undef => true,
        Value::Num(r) => rat_wf(r),
    }
}

/// Greatest common divisor, by Euclid's algorithm.
pub open spec fn gcd(a: nat, b: nat) -> nat
    decreases b,
{
    if b == 0 {
        a
    } else {
        gcd(b, a % b)
    }
}

/// `gcd(a, b)` with `b >= 1` is at least 1, at most `b`, and divides both.
pub proof fn lemma_gcd_properties(a: nat, b: nat)
    requires
        b >= 1,
    ensures
        gcd(a, b) >= 1,
        gcd(a, b) <= b,
        a % gcd(a, b) == 0,
        b % gcd(a, b) == 0,
    decreases b,
{
    let g = gcd(a, b);
    let r = a % b;
    if r == 0 {
        assert(g == b);
        lemma_mod_self_0(b as int);
        assert(a % b == 0);
    } else {
        lemma_gcd_properties(b, r);
        assert(g == gcd(b, r));
        let qa = a as int / b as int;
        let qb = b as int / g as int;
        let qr = r as int / g as int;
        lemma_fundamental_div_mod(a as int, b as int);
        lemma_fundamental_div_mod(b as int, g as int);
        lemma_fundamental_div_mod(r as int, g as int);
        let k = qb * qa + qr;
        assert(a as int == g as int * k) by (nonlinear_arith)
            requires
                a as int == b as int * qa + r as int,
                b as int == g as int * qb,
                r as int == g as int * qr,
                k == qb * qa + qr,
        {}
        lemma_mod_multiples_basic(k, g as int);
        assert(a % g == 0);
        assert(g <= b) by (nonlinear_arith)
            requires
                b as int == g as int * qb,
                b >= 1,
                g >= 1,
        {}
    }
}

/// Canonical form of the rational `n / d` (`d != 0`), if it fits in `i64`
/// numerator and denominator: sign moved to the numerator, both reduced by
/// their greatest common divisor.
pub open spec fn norm_rat(n: int, d: int) -> Option<Rat>
    recommends
        d != 0,
{
    let n2 = if d < 0 { -n } else { n };
    let d2 = if d < 0 { -d } else { d };
    let m = (if n2 < 0 { -n2 } else { n2 }) as nat;
    let g = gcd(m, d2 as nat);
    let mr = m / g;
    let dr = d2 as nat / g;
    let sv = if n2 < 0 { -(mr as int) } else { mr as int };
    if -0x8000_0000_0000_0000 <= sv && sv <= 0x7fff_ffff_ffff_ffff && dr <= 0x7fff_ffff_ffff_ffff {
        Some(Rat { num: sv as i64, den: dr as i64 })
    } else {
        None
    }
}

/// A canonical result is well-formed: its denominator is at least 1.
pub proof fn lemma_norm_rat_wf(n: int, d: int)
    requires
        d != 0,
    ensures
        norm_rat(n, d) is Some ==> rat_wf(norm_rat(n, d).unwrap()),
{
    let d2 = if d < 0 { -d } else { d };
    let n2 = if d < 0 { -n } else { n };
    let m = (if n2 < 0 { -n2 } else { n2 }) as nat;
    lemma_gcd_properties(m, d2 as nat);
    let g = gcd(m, d2 as nat);
    lemma_fundamental_div_mod(d2, g as int);
    assert(d2 as nat / g >= 1) by (nonlinear_arith)
        requires
            d2 == g as int * (d2 / g as int) + d2 % g as int,
            d2 % g as int == 0,
            g as int <= d2,
            g >= 1,
    {}
}

/// The canonical form represents exactly the rational `n / d`:
/// cross-multiplication agrees.
pub proof fn lemma_norm_rat_exact(n: int, d: int)
    requires
        d != 0,
    ensures
        norm_rat(n, d) is Some ==> {
            let r = norm_rat(n, d).unwrap();
            r.num * d == n * r.den
        },
{
    let n2 = if d < 0 { -n } else { n };
    let d2 = if d < 0 { -d } else { d };
    let m = (if n2 < 0 { -n2 } else { n2 }) as nat;
    lemma_gcd_properties(m, d2 as nat);
    let g = gcd(m, d2 as nat);
    let mr = m / g;
    let dr = d2 as nat / g;
    lemma_fundamental_div_mod(m as int, g as int);
    lemma_fundamental_div_mod(d2, g as int);
    assert(m as int == g as int * mr as int);
    assert(d2 == g as int * dr as int);
    if norm_rat(n, d) is Some {
        let r = norm_rat(n, d).unwrap();
        if n2 < 0 {
            assert(r.num as int == -(mr as int) && r.den as int == dr as int);
            assert(-n2 == g as int * mr as int);
            assert((-(mr as int)) * d == n * dr as int) by (nonlinear_arith)
                requires
                    d != 0,
                    n2 == if d < 0 { -n } else { n },
                    d2 == if d < 0 { -d } else { d },
                    -n2 == g as int * mr as int,
                    d2 == g as int * dr as int,
            {}
        } else {
            assert(r.num as int == mr as int && r.den as int == dr as int);
            assert(n2 == g as int * mr as int);
            assert(mr as int * d == n * dr as int) by (nonlinear_arith)
                requires
                    d != 0,
                    n2 == if d < 0 { -n } else { n },
                    d2 == if d < 0 { -d } else { d },
                    n2 == g as int * mr as int,
                    d2 == g as int * dr as int,
            {}
        }
    }
}

/// Euclid's algorithm, executable.
pub fn gcd_u128(a: u128, b: u128) -> (g: u128)
    ensures
        g as nat == gcd(a as nat, b as nat),
{
    let mut x = a;
    let mut y = b;
    while y != 0
        invariant
            gcd(x as nat, y as nat) == gcd(a as nat, b as nat),
        decreases y,
    {
        let r = x % y;
        x = y;
        y = r;
    }
    x
}

/// Bound on a product of an `i64` numerator and an `i64` denominator
/// (`1 <= den`): it always fits comfortably in `i128`.
proof fn lemma_num_den_product_bound(a: int, b: int)
    by (nonlinear_arith)
    requires
        -0x8000_0000_0000_0000 <= a <= 0x7fff_ffff_ffff_ffff,
        1 <= b <= 0x7fff_ffff_ffff_ffff,
    ensures
        -0x3fff_ffff_ffff_ffff_8000_0000_0000_0000 <= a * b
            <= 0x3fff_ffff_ffff_ffff_8000_0000_0000_0000,
        a != 0 ==> a * b != 0,
        a >= 1 ==> a * b >= 1,
{
}

/// Canonical form of `n / d`, executable twin of `norm_rat`.
fn norm_i128(n: i128, d: i128) -> (v: Option<Rat>)
    requires
        d != 0,
        n != i128::MIN,
        d != i128::MIN,
    ensures
        v == norm_rat(n as int, d as int),
{
    let (n2, d2): (i128, i128) = if d < 0 { (-n, -d) } else { (n, d) };
    let m: u128 = (if n2 < 0 { -n2 } else { n2 }) as u128;
    let dpos: u128 = d2 as u128;
    proof {
        lemma_gcd_properties(m as nat, dpos as nat);
    }
    let g = gcd_u128(m, dpos);
    let mr = m / g;
    let dr = dpos / g;
    let sv: i128 = if n2 < 0 {
        -(mr as i128)
    } else {
        mr as i128
    };
    if -0x8000_0000_0000_0000i128 <= sv && sv <= 0x7fff_ffff_ffff_ffffi128
        && dr <= 0x7fff_ffff_ffff_ffffu128 {
        Some(Rat { num: sv as i64, den: dr as i64 })
    } else {
        None
    }
}

/// Largest magnitude that may still be multiplied by 100 inside `i128`.
pub const MAX_PCT_DIFF: i128 = 1701411834604692317316873037158841057;

/// Exact sum `x + y` in canonical form, or `Value::Undef` when the canonical
/// form does not fit `i64` numerator and denominator.
pub open spec fn spec_rat_add(x: Rat, y: Rat) -> Value {
    let nr = x.num * y.den + y.num * x.den;
    let dr = x.den * y.den;
    match norm_rat(nr, dr) {
        Some(r) => Value::Num(r),
        None => Value::Undef,
    }
}

/// Exact percent change from `prev` to `cur`: `(cur - prev) / prev * 100`,
/// in canonical form. `Value::Undef` when `prev` is zero (division by zero)
/// or the exact result does not fit the canonical form.
pub open spec fn spec_rat_pct(cur: Rat, prev: Rat) -> Value {
    if prev.num == 0 {
        Value::Undef
    } else {
        let diff = cur.num * prev.den - prev.num * cur.den;
        if diff > MAX_PCT_DIFF || diff < -MAX_PCT_DIFF {
            Value::Undef
        } else {
            match norm_rat(diff * 100, cur.den * prev.num) {
                Some(r) => Value::Num(r),
                None => Value::Undef,
            }
        }
    }
}

/// Percent change lifted to cells: undefined operands give `Value::Undef`.
pub open spec fn spec_value_pct(cur: Value, prev: Value) -> Value {
    match (cur, prev) {
        (Value::Num(a), Value::Num(b)) => spec_rat_pct(a, b),
        _ => Value::Undef,
    }
}

pub fn rat_add(x: Rat, y: Rat) -> (v: Value)
    requires
        rat_wf(x),
        rat_wf(y),
    ensures
        v == spec_rat_add(x, y),
        value_wf(v),
{
    proof {
        lemma_num_den_product_bound(x.num as int, y.den as int);
        lemma_num_den_product_bound(y.num as int, x.den as int);
        lemma_num_den_product_bound(x.den as int, y.den as int);
    }
    let nr = (x.num as i128) * (y.den as i128) + (y.num as i128) * (x.den as i128);
    let dr = (x.den as i128) * (y.den as i128);
    proof {
        lemma_norm_rat_wf(nr as int, dr as int);
    }
    match norm_i128(nr, dr) {
        Some(r) => Value::Num(r),
        None => Value::Undef,
    }
}

pub fn rat_pct(cur: Rat, prev: Rat) -> (v: Value)
    requires
        rat_wf(cur),
        rat_wf(prev),
    ensures
        v == spec_rat_pct(cur, prev),
        value_wf(v),
{
    if prev.num == 0 {
        Value::Undef
    } else {
        proof {
            lemma_num_den_product_bound(cur.num as int, prev.den as int);
            lemma_num_den_product_bound(prev.num as int, cur.den as int);
        }
        let ad = (cur.num as i128) * (prev.den as i128);
        let cb = (prev.num as i128) * (cur.den as i128);
        let diff = ad - cb;
        if diff > MAX_PCT_DIFF || diff < -MAX_PCT_DIFF {
            Value::Undef
        } else {
            let nr = diff * 100;
            let dr = (cur.den as i128) * (prev.num as i128);
            proof {
                assert((cur.den as int) * (prev.num as int) == (prev.num as int) * (cur.den as int))
                    by (nonlinear_arith)
                {}
                lemma_norm_rat_wf(nr as int, dr as int);
            }
            match norm_i128(nr, dr) {
                Some(r) => Value::Num(r),
                None => Value::Undef,
            }
        }
    }
}

pub fn value_pct(cur: Value, prev: Value) -> (v: Value)
    requires
        value_wf(cur),
        value_wf(prev),
    ensures
        v == spec_value_pct(cur, prev),
        value_wf(v),
{
    match (cur, prev) {
        (Value::Num(a), Value::Num(b)) => rat_pct(a, b),
        _ => Value::Undef,
    }
}

/// A defined sum is exact: `s == x + y` as rationals, by cross-multiplication
/// against the common denominator.
pub proof fn lemma_rat_add_exact(x: Rat, y: Rat)
    requires
        rat_wf(x),
        rat_wf(y),
    ensures
        spec_rat_add(x, y) is Num ==> {
            let s = spec_rat_add(x, y)->Num_0;
            s.num * (x.den * y.den) == (x.num * y.den + y.num * x.den) * s.den
        },
{
    lemma_num_den_product_bound(x.den as int, y.den as int);
    lemma_norm_rat_exact(
        x.num as int * y.den as int + y.num as int * x.den as int,
        x.den as int * y.den as int,
    );
}

/// A defined percent change is exact:
/// `r == (cur - prev) / prev * 100` as rationals, by cross-multiplication.
pub proof fn lemma_rat_pct_exact(cur: Rat, prev: Rat)
    requires
        rat_wf(cur),
        rat_wf(prev),
    ensures
        spec_rat_pct(cur, prev) is Num ==> {
            let r = spec_rat_pct(cur, prev)->Num_0;
            r.num * (cur.den * prev.num)
                == (cur.num * prev.den - prev.num * cur.den) * 100 * r.den
        },
{
    if prev.num != 0 {
        let diff = cur.num as int * prev.den as int - prev.num as int * cur.den as int;
        if -MAX_PCT_DIFF <= diff <= MAX_PCT_DIFF {
            lemma_num_den_product_bound(prev.num as int, cur.den as int);
            assert(cur.den as int * prev.num as int == prev.num as int * cur.den as int)
                by (nonlinear_arith)
            {}
            lemma_norm_rat_exact(diff * 100, cur.den as int * prev.num as int);
        }
    }
}

/// The percent change of well-formed cells is a well-formed cell.
pub proof fn lemma_spec_value_pct_wf(cur: Value, prev: Value)
    requires
        value_wf(cur),
        value_wf(prev),
    ensures
        value_wf(spec_value_pct(cur, prev)),
{
    match (cur, prev) {
        (Value::Num(a), Value::Num(b)) => {
            if b.num != 0 {
                let diff = a.num as int * b.den as int - b.num as int * a.den as int;
                if -MAX_PCT_DIFF <= diff <= MAX_PCT_DIFF {
                    lemma_num_den_product_bound(b.num as int, a.den as int);
                    assert(a.den as int * b.num as int == b.num as int * a.den as int)
                        by (nonlinear_arith)
                    {}
                    lemma_norm_rat_wf(diff * 100, a.den as int * b.num as int);
                }
            }
        }
        _ => {}
    }
}

/// Percent change of a value against itself is exactly zero: the numerator
/// vanishes and the divisor is nonzero.
pub proof fn lemma_rat_pct_self_zero(r: Rat)
    requires
        rat_wf(r),
        r.num != 0,
    ensures
        spec_rat_pct(r, r) == Value::Num(Rat { num: 0, den: 1 }),
{
    lemma_num_den_product_bound(r.num as int, r.den as int);
    let dr = r.den as int * r.num as int;
    assert(r.den as int * r.num as int == r.num as int * r.den as int) by (nonlinear_arith) {}
    assert(dr != 0);
    let d2 = if dr < 0 { -dr } else { dr };
    assert(norm_rat(0, dr) == Some(Rat { num: 0, den: 1 })) by {
        assert(0nat % d2 as nat == 0);
        assert(gcd(0, d2 as nat) == gcd(d2 as nat, 0));
        assert(gcd(d2 as nat, 0) == d2 as nat);
        vstd::arithmetic::div_mod::lemma_div_by_self(d2);
        assert(0nat / d2 as nat == 0);
    }
}

/// State of a trailing-window summation. Undefined cells are skipped;
/// `Empty` means no defined cell has been seen yet (the window emits
/// `Value::Undef`), and `Fail` poisons the window when a partial sum
/// leaves the representable range.
#[derive(Clone, Copy, Debug, PartialEq, Eq, Structural)]
pub enum WinAcc {
    Empty,
    Sum(Rat),
    Fail,
}

pub open spec fn acc_wf(acc: WinAcc) -> bool {
    match acc {
        WinAcc::Sum(r) => rat_wf(r),
        _ => true,
    }
}

pub open spec fn win_step(acc: WinAcc, v: Value) -> WinAcc {
    match acc {
        WinAcc::Fail => WinAcc::Fail,
        WinAcc::Empty => match v {
            Value::Undef => WinAcc::Empty,
            Value::Num(r) => WinAcc::Sum(r),
        },
        WinAcc::Sum(a) => match v {
            Value::Undef => WinAcc::Sum(a),
            Value::Num(b) => match spec_rat_add(a, b) {
                Value::Num(c) => WinAcc::Sum(c),
                Value::Undef => WinAcc::Fail,
            },
        },
    }
}

/// Accumulator state after folding `vals[lo..hi]`, skipping undefined cells.
pub open spec fn win_acc(vals: Seq<Value>, lo: int, hi: int) -> WinAcc
    decreases hi - lo,
{
    if hi <= lo {
        WinAcc::Empty
    } else {
        win_step(win_acc(vals, lo, hi - 1), vals[hi - 1])
    }
}

pub open spec fn acc_value(acc: WinAcc) -> Value {
    match acc {
        WinAcc::Sum(r) => Value::Num(r),
        _ => Value::Undef,
    }
}

/// Trailing-window sum of `vals[lo..hi]`: the sum of its defined cells, or
/// `Value::Undef` when the window holds no defined cell at all or a partial
/// sum left the representable range.
pub open spec fn spec_win_sum(vals: Seq<Value>, lo: int, hi: int) -> Value {
    acc_value(win_acc(vals, lo, hi))
}

pub fn win_step_exec(acc: WinAcc, v: Value) -> (r: WinAcc)
    requires
        acc_wf(acc),
        value_wf(v),
    ensures
        r == win_step(acc, v),
        acc_wf(r),
{
    match acc {
        WinAcc::Fail => WinAcc::Fail,
        WinAcc::Empty => match v {
            Value::Undef => WinAcc::Empty,
            Value::Num(r) => WinAcc::Sum(r),
        },
        WinAcc::Sum(a) => match v {
            Value::Undef => WinAcc::Sum(a),
            Value::Num(b) => match rat_add(a, b) {
                Value::Num(c) => WinAcc::Sum(c),
                Value::Undef => WinAcc::Fail,
            },
        },
    }
}

} // verus!
