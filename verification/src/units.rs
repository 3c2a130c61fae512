//! Human-readable byte counts ("512 B", "1.5 KB", "3.2 MB", "1.25 GB").
//!
//! Kilobytes and megabytes are shown with one decimal, gigabytes with two.
//! The decimal is the exact quotient rounded to the nearest, ties to even;
//! for gigabytes the byte count is first rounded to the nearest value with
//! 53 significant bits (ties to even), as a conversion to `f64` does.

use vstd::prelude::*;
use vstd::arithmetic::div_mod::{lemma_div_denominator, lemma_div_is_ordered, lemma_fundamental_div_mod};
use crate::text::{decimal, digit_char, exec_digit, push_char, push_decimal};

verus! {

pub const KIB: u64 = 1024;
pub const MIB: u64 = 1048576;
pub const GIB: u64 = 1073741824;

/// `n / d` rounded to the nearest integer, ties to even.
pub open spec fn round_half_even(n: int, d: int) -> int {
    let q = n / d;
    let r = n % d;
    if 2 * r > d || (2 * r == d && q % 2 == 1) {
        q + 1
    } else {
        q
    }
}

/// The spacing of `f64` values around `b`: 1 below 2^53, doubling with
/// every further bit of `b`.
pub open spec fn f64_spacing(b: nat) -> nat
    decreases b,
{
    if b < 0x20000000000000 {
        1
    } else {
        2 * f64_spacing(b / 2)
    }
}

/// The value of `b as f64`: `b` rounded to a multiple of its spacing,
/// ties to even.
pub open spec fn f64_value(b: nat) -> int {
    round_half_even(b as int, f64_spacing(b) as int) * f64_spacing(b)
}

/// `q / 10` with one decimal: "{q / 10}.{q % 10}".
pub open spec fn fixed1(q: nat) -> Seq<char> {
    decimal(q / 10) + seq!['.', digit_char(q % 10)]
}

/// `q / 100` with two decimals.
pub open spec fn fixed2(q: nat) -> Seq<char> {
    decimal(q / 100) + seq!['.', digit_char((q / 10) % 10), digit_char(q % 10)]
}

/// The text shown for a byte count.
pub open spec fn size_text(b: nat) -> Seq<char> {
    if b < 1024 {
        decimal(b) + seq![' ', 'B']
    } else if b < 1048576 {
        fixed1(round_half_even((b * 10) as int, 1024) as nat) + seq![' ', 'K', 'B']
    } else if b < 1073741824 {
        fixed1(round_half_even((b * 10) as int, 1048576) as nat) + seq![' ', 'M', 'B']
    } else {
        fixed2(round_half_even(f64_value(b) * 100, 1073741824) as nat) + seq![' ', 'G', 'B']
    }
}

fn round_u128(n: u128, d: u128) -> (q: u128)
    requires
        1 <= d < 0x10000000000000000,
    ensures
        q == round_half_even(n as int, d as int),
        q <= n,
        q <= n / d + 1,
{
    let q = n / d;
    let r = n % d;
    assert(q <= n) by {
        vstd::arithmetic::div_mod::lemma_div_is_ordered_by_denominator(n as int, 1, d as int);
    }
    if 2 * r > d || (2 * r == d && q % 2 == 1) {
        assert(q < n) by {
            lemma_fundamental_div_mod(n as int, d as int);
            assert(d * q >= 2 * q) by (nonlinear_arith) requires d >= 2;
        }
        q + 1
    } else {
        q
    }
}

/// The spacing of `f64` values around `b`, with the bound it obeys.
fn spacing_of(b: u64) -> (u: u64)
    ensures
        u == f64_spacing(b as nat),
        1 <= u <= 4096,
{
    let mut u: u64 = 1;
    let mut m: u64 = b;
    while m >= 0x20000000000000
        invariant
            1 <= u <= 4096,
            m == b / u,
            u * m <= b,
            f64_spacing(b as nat) == u * f64_spacing(m as nat),
        decreases m,
    {
        proof {
            assert(u < 2048) by (nonlinear_arith)
                requires u * m <= b, m >= 0x20000000000000, b < 0x10000000000000000;
            lemma_div_denominator(b as int, u as int, 2);
            assert(u * f64_spacing(m as nat) == (2 * u) * f64_spacing((m / 2) as nat)) by (nonlinear_arith)
                requires f64_spacing(m as nat) == 2 * f64_spacing((m / 2) as nat);
        }
        m = m / 2;
        u = u * 2;
        assert(m == b / u);
        proof {
            lemma_fundamental_div_mod(b as int, u as int);
        }
    }
    assert(f64_spacing(m as nat) == 1);
    assert(u * f64_spacing(m as nat) == u) by (nonlinear_arith)
        requires f64_spacing(m as nat) == 1;
    u
}

/// Appends `fixed1(q)`.
fn push_fixed1(s: &mut String, q: u64)
    ensures
        final(s)@ == old(s)@ + fixed1(q as nat),
{
    push_decimal(s, q / 10);
    push_char(s, '.');
    push_char(s, exec_digit(q % 10));
    assert(final(s)@ =~= old(s)@ + fixed1(q as nat));
}

/// Appends `fixed2(q)`.
fn push_fixed2(s: &mut String, q: u64)
    ensures
        final(s)@ == old(s)@ + fixed2(q as nat),
{
    push_decimal(s, q / 100);
    push_char(s, '.');
    push_char(s, exec_digit((q / 10) % 10));
    push_char(s, exec_digit(q % 10));
    assert(final(s)@ =~= old(s)@ + fixed2(q as nat));
}

/// Renders a byte count as shown in the log and the status bar.
pub fn fmt_bytes(b: u64) -> (s: String)
    ensures
        s@ == size_text(b as nat),
{
    let mut s = String::new();
    if b < KIB {
        push_decimal(&mut s, b);
        push_char(&mut s, ' ');
        push_char(&mut s, 'B');
    } else if b < MIB {
        let q = round_u128((b as u128) * 10, KIB as u128);
        assert(q <= 10 * 1048576);
        push_fixed1(&mut s, q as u64);
        push_char(&mut s, ' ');
        push_char(&mut s, 'K');
        push_char(&mut s, 'B');
    } else if b < GIB {
        let q = round_u128((b as u128) * 10, MIB as u128);
        assert(q <= 10 * 1073741824);
        push_fixed1(&mut s, q as u64);
        push_char(&mut s, ' ');
        push_char(&mut s, 'M');
        push_char(&mut s, 'B');
    } else {
        let u = spacing_of(b);
        let k = round_u128(b as u128, u as u128);
        assert(k * u <= 0x10000000000000000 * 4096) by (nonlinear_arith)
            requires k <= b, b < 0x10000000000000000, u <= 4096;
        let v: u128 = k * (u as u128);
        let q = round_u128(v * 100, GIB as u128);
        assert(q <= 0x10000000000000000) by {
            assert((v * 100) as int / (GIB as int) <= 0xffffffffffffffff) by (nonlinear_arith)
                requires v * 100 <= 0x10000000000000000 * 4096 * 100;
        }
        push_fixed2(&mut s, q as u64);
        push_char(&mut s, ' ');
        push_char(&mut s, 'G');
        push_char(&mut s, 'B');
    }
    assert(s@ =~= size_text(b as nat));
    s
}

/// The unit a byte count is shown in: 0 for B, 1 for KB, 2 for MB, 3 for GB.
pub open spec fn size_unit(b: nat) -> nat {
    if b < 1024 {
        0
    } else if b < 1048576 {
        1
    } else if b < 1073741824 {
        2
    } else {
        3
    }
}

/// The number shown for a byte count, counted in its last shown digit
/// (bytes; tenths of KB or MB; hundredths of GB).
pub open spec fn size_amount(b: nat) -> nat {
    if b < 1024 {
        b
    } else if b < 1048576 {
        round_half_even((b * 10) as int, 1024) as nat
    } else if b < 1073741824 {
        round_half_even((b * 10) as int, 1048576) as nat
    } else {
        round_half_even(f64_value(b) * 100, 1073741824) as nat
    }
}

/// The text of an amount in a unit, as `size_text` writes it.
pub open spec fn amount_text(unit: nat, amount: nat) -> Seq<char> {
    if unit == 0 {
        decimal(amount) + seq![' ', 'B']
    } else if unit == 1 {
        fixed1(amount) + seq![' ', 'K', 'B']
    } else if unit == 2 {
        fixed1(amount) + seq![' ', 'M', 'B']
    } else {
        fixed2(amount) + seq![' ', 'G', 'B']
    }
}

proof fn lemma_round_monotone(n1: int, n2: int, d: int)
    requires
        0 <= n1 <= n2,
        0 < d,
    ensures
        round_half_even(n1, d) <= round_half_even(n2, d),
{
    lemma_div_is_ordered(n1, n2, d);
    lemma_fundamental_div_mod(n1, d);
    lemma_fundamental_div_mod(n2, d);
    let q1 = n1 / d;
    let q2 = n2 / d;
    if q1 == q2 {
        assert(n1 % d <= n2 % d);
    }
}

proof fn lemma_round_exact(n: int, d: int)
    requires
        0 < d,
        n % d == 0,
    ensures
        round_half_even(n, d) * d == n,
{
    lemma_fundamental_div_mod(n, d);
    assert(d * (n / d) == (n / d) * d) by (nonlinear_arith);
}

proof fn lemma_spacing_bounds(b: nat)
    ensures
        f64_spacing(b) >= 1,
        b < 0x20000000000000 * f64_spacing(b),
        f64_spacing(b) > 1 ==> b >= 0x10000000000000 * f64_spacing(b),
    decreases b,
{
    if b >= 0x20000000000000 {
        lemma_spacing_bounds(b / 2);
    }
}

proof fn lemma_spacing_monotone(b1: nat, b2: nat)
    requires
        b1 <= b2,
    ensures
        f64_spacing(b1) <= f64_spacing(b2),
        f64_spacing(b2) % f64_spacing(b1) == 0,
    decreases b2,
{
    lemma_spacing_bounds(b1);
    lemma_spacing_bounds(b2);
    if b1 >= 0x20000000000000 {
        lemma_spacing_monotone(b1 / 2, b2 / 2);
        let x = f64_spacing(b1 / 2) as int;
        let y = f64_spacing(b2 / 2) as int;
        assert((2 * y) % (2 * x) == 0) by {
            lemma_fundamental_div_mod(y, x);
            assert(2 * y == (2 * x) * (y / x)) by (nonlinear_arith)
                requires y == x * (y / x);
            vstd::arithmetic::div_mod::lemma_mod_multiples_basic(y / x, 2 * x);
            assert((y / x) * (2 * x) == (2 * x) * (y / x)) by (nonlinear_arith);
        }
    } else {
        assert(f64_spacing(b1) == 1);
    }
}

proof fn lemma_f64_value_monotone(b1: nat, b2: nat)
    requires
        b1 <= b2,
    ensures
        f64_value(b1) <= f64_value(b2),
{
    let s1 = f64_spacing(b1) as int;
    let s2 = f64_spacing(b2) as int;
    lemma_spacing_bounds(b1);
    lemma_spacing_bounds(b2);
    lemma_spacing_monotone(b1, b2);
    if s1 == s2 {
        lemma_round_monotone(b1 as int, b2 as int, s1);
        assert(round_half_even(b1 as int, s1) * s1 <= round_half_even(b2 as int, s1) * s1) by (nonlinear_arith)
            requires round_half_even(b1 as int, s1) <= round_half_even(b2 as int, s1), s1 >= 1;
    } else {
        let m = s2 / s1;
        lemma_fundamental_div_mod(s2, s1);
        assert(s2 == s1 * m);
        assert(m >= 2) by (nonlinear_arith)
            requires s2 == s1 * m, s1 < s2, s1 >= 1;
        let big: int = 0x10000000000000 * s2;
        assert(2 * s1 <= s2) by (nonlinear_arith)
            requires s2 == s1 * m, m >= 2, s1 >= 1;
        assert(b1 < big);
        assert(b2 >= big);
        assert(big % s1 == 0) by {
            assert(big == (0x10000000000000 * m) * s1) by (nonlinear_arith)
                requires big == 0x10000000000000 * s2, s2 == s1 * m;
            vstd::arithmetic::div_mod::lemma_mod_multiples_basic(0x10000000000000 * m, s1);
        }
        assert(big % s2 == 0) by {
            vstd::arithmetic::div_mod::lemma_mod_multiples_basic(0x10000000000000, s2);
        }
        lemma_round_exact(big, s1);
        lemma_round_exact(big, s2);
        lemma_round_monotone(b1 as int, big, s1);
        lemma_round_monotone(big, b2 as int, s2);
        assert(round_half_even(b1 as int, s1) * s1 <= round_half_even(big, s1) * s1) by (nonlinear_arith)
            requires round_half_even(b1 as int, s1) <= round_half_even(big, s1), s1 >= 1;
        assert(round_half_even(big, s2) * s2 <= round_half_even(b2 as int, s2) * s2) by (nonlinear_arith)
            requires round_half_even(big, s2) <= round_half_even(b2 as int, s2), s2 >= 1;
    }
}

/// The text of a byte count is its amount in its unit.
pub proof fn lemma_size_text_parts(b: nat)
    ensures
        size_text(b) == amount_text(size_unit(b), size_amount(b)),
{
}

/// More bytes never read as less: a larger byte count is shown in the same
/// unit or a larger one, and in the same unit with the same number or a
/// larger one.
pub proof fn lemma_size_text_monotone(b1: nat, b2: nat)
    requires
        b1 <= b2,
    ensures
        size_unit(b1) <= size_unit(b2),
        size_unit(b1) == size_unit(b2) ==> size_amount(b1) <= size_amount(b2),
{
    if size_unit(b1) == size_unit(b2) {
        if size_unit(b1) == 1 {
            lemma_round_monotone((b1 * 10) as int, (b2 * 10) as int, 1024);
        } else if size_unit(b1) == 2 {
            lemma_round_monotone((b1 * 10) as int, (b2 * 10) as int, 1048576);
        } else if size_unit(b1) == 3 {
            lemma_f64_value_monotone(b1, b2);
            lemma_spacing_bounds(b1);
            assert(f64_value(b1) >= 0) by {
                let s = f64_spacing(b1) as int;
                assert(round_half_even(b1 as int, s) >= 0) by {
                    lemma_round_monotone(0, b1 as int, s);
                }
                assert(round_half_even(b1 as int, s) * s >= 0) by (nonlinear_arith)
                    requires round_half_even(b1 as int, s) >= 0, s >= 1;
            }
            lemma_round_monotone(f64_value(b1) * 100, f64_value(b2) * 100, 1073741824);
        }
    }
}

} // verus!
