//! Rendering of sizes, permission bits and modification times.

use vstd::prelude::*;
use vstd::arithmetic::div_mod::*;
use vstd::arithmetic::mul::*;
use vstd::string::*;

use crate::text::{
    digit_char, digit_str, int_text, nat_text, pad_left, padded_left, push_decimal,
    signed_decimal_text,
};
use crate::types::{TimeFormat, Timestamp};

verus! {

/// The number of bytes in one unit of index `k`: B, KB, MB, GB, TB, PB.
pub open spec fn unit_scale(k: nat) -> nat {
    if k == 0 {
        1
    } else if k == 1 {
        1_000
    } else if k == 2 {
        1_000_000
    } else if k == 3 {
        1_000_000_000
    } else if k == 4 {
        1_000_000_000_000
    } else {
        1_000_000_000_000_000
    }
}

/// The unit a size is shown in: the largest one of which it holds at least one.
pub open spec fn unit_index(n: nat) -> nat {
    if n >= 1_000_000_000_000_000 {
        5
    } else if n >= 1_000_000_000_000 {
        4
    } else if n >= 1_000_000_000 {
        3
    } else if n >= 1_000_000 {
        2
    } else if n >= 1_000 {
        1
    } else {
        0
    }
}

/// The unit's name.
pub open spec fn unit_name(k: nat) -> Seq<char> {
    if k == 0 {
        "B"@
    } else if k == 1 {
        "KB"@
    } else if k == 2 {
        "MB"@
    } else if k == 3 {
        "GB"@
    } else if k == 4 {
        "TB"@
    } else {
        "PB"@
    }
}

/// Decimal places shown: bytes are whole; a scaled value under 10 gets two,
/// under 100 one, and none from 100 up.
pub open spec fn decimals(n: nat) -> nat {
    let s = unit_scale(unit_index(n));
    if unit_index(n) == 0 {
        0
    } else if n < 10 * s {
        2
    } else if n < 100 * s {
        1
    } else {
        0
    }
}

pub open spec fn ten_pow(d: nat) -> nat {
    if d == 0 {
        1
    } else if d == 1 {
        10
    } else {
        100
    }
}

/// The shown number as an integer count of its last decimal place: the
/// scaled value rounded half up.
pub open spec fn shown_digits(n: nat) -> nat {
    let s = unit_scale(unit_index(n));
    (n * ten_pow(decimals(n)) + s / 2) / s
}

/// An integer count of `d`-th decimal places, written with its point.
pub open spec fn number_text(r: nat, d: nat) -> Seq<char> {
    if d == 0 {
        nat_text(r)
    } else if d == 1 {
        nat_text(r / 10) + seq!['.', digit_char((r % 10) as int)]
    } else {
        nat_text(r / 100) + seq!['.', digit_char(((r / 10) % 10) as int), digit_char((r % 10) as int)]
    }
}

/// The text of a size: the number right-aligned in four places, a space,
/// and the unit.
pub open spec fn size_text(n: nat) -> Seq<char> {
    pad_left(number_text(shown_digits(n), decimals(n)), 4) + " "@ + unit_name(unit_index(n))
}

/// The size a size text shows, in hundredths of a byte.
pub open spec fn shown_hundredths(n: nat) -> nat {
    shown_digits(n) * unit_scale(unit_index(n)) * (100nat / ten_pow(decimals(n)))
}

fn unit_str(k: u64) -> (r: &'static str)
    requires
        k <= 5,
    ensures
        r@ == unit_name(k as nat),
{
    match k {
        0 => "B",
        1 => "KB",
        2 => "MB",
        3 => "GB",
        4 => "TB",
        _ => "PB",
    }
}

fn size_unit(n: u64) -> (r: (u64, u64))
    ensures
        r.0 == unit_index(n as nat),
        r.1 == unit_scale(r.0 as nat),
{
    if n >= 1_000_000_000_000_000 {
        (5, 1_000_000_000_000_000)
    } else if n >= 1_000_000_000_000 {
        (4, 1_000_000_000_000)
    } else if n >= 1_000_000_000 {
        (3, 1_000_000_000)
    } else if n >= 1_000_000 {
        (2, 1_000_000)
    } else if n >= 1_000 {
        (1, 1_000)
    } else {
        (0, 1)
    }
}

fn size_decimals(n: u64, k: u64, scale: u64) -> (d: u64)
    requires
        k == unit_index(n as nat),
        scale == unit_scale(k as nat),
    ensures
        d == decimals(n as nat),
{
    if k == 0 {
        0
    } else if n / 10 < scale {
        assert(n < 10 * scale) by {
            lemma_fundamental_div_mod(n as int, 10);
        }
        2
    } else if n / 100 < scale {
        assert(n >= 10 * scale) by {
            lemma_fundamental_div_mod(n as int, 10);
        }
        assert(n < 100 * scale) by {
            lemma_fundamental_div_mod(n as int, 100);
        }
        1
    } else {
        assert(n >= 100 * scale) by {
            lemma_fundamental_div_mod(n as int, 100);
        }
        0
    }
}

fn size_digits(n: u64, k: u64, scale: u64, d: u64) -> (r: u64)
    requires
        k == unit_index(n as nat),
        scale == unit_scale(k as nat),
        d == decimals(n as nat),
    ensures
        r == shown_digits(n as nat),
{
    let wide: u128 = if d == 0 {
        size_scaled(n as u128, 1, scale as u128)
    } else if d == 1 {
        size_scaled(n as u128, 10, scale as u128)
    } else {
        size_scaled(n as u128, 100, scale as u128)
    };
    wide as u64
}

fn size_scaled(n: u128, ten: u128, scale: u128) -> (r: u128)
    requires
        n <= u64::MAX,
        ten == 1 || ten == 10 || ten == 100,
        1 <= scale <= 1_000_000_000_000_000,
        ten == 100 ==> n < 10 * scale,
        ten == 10 ==> n < 100 * scale,
        ten == 1 && scale == 1 ==> n < 1000,
    ensures
        r == (n as int * ten as int + scale as int / 2) / scale as int,
        r <= u64::MAX,
{
    assert(n * ten <= 100_000_000_000_000_000_000) by (nonlinear_arith)
        requires
            n <= u64::MAX,
            ten == 1 || ten == 10 || ten == 100,
            ten == 100 ==> n < 10 * scale,
            ten == 10 ==> n < 100 * scale,
            scale <= 1_000_000_000_000_000,
    ;
    let r = (n * ten + scale / 2) / scale;
    assert(r <= n * ten + scale / 2) by {
        lemma_div_is_ordered_by_denominator((n * ten + scale / 2) as int, 1, scale as int);
    }
    assert(r <= u64::MAX) by (nonlinear_arith)
        requires
            r == (n as int * ten as int + scale as int / 2) / scale as int,
            n <= u64::MAX,
            ten == 1 || ten == 10 || ten == 100,
            1 <= scale <= 1_000_000_000_000_000,
            ten == 100 ==> n < 10 * scale,
            ten == 10 ==> n < 100 * scale,
            ten == 1 && scale == 1 ==> n < 1000,
    ;
    r
}

fn number_string(r: u64, d: u64) -> (s: String)
    requires
        d <= 2,
    ensures
        s@ == number_text(r as nat, d as nat),
{
    let mut num = String::new();
    proof {
        reveal_strlit(".");
    }
    if d == 0 {
        push_decimal(&mut num, r);
    } else if d == 1 {
        push_decimal(&mut num, r / 10);
        num.append(".");
        num.append(digit_str(r % 10));
    } else {
        push_decimal(&mut num, r / 100);
        num.append(".");
        num.append(digit_str((r / 10) % 10));
        num.append(digit_str(r % 10));
    }
    assert(num@ =~= number_text(r as nat, d as nat));
    num
}

/// Renders a byte count in base-1000 units, e.g. `"   0 B"`, `"1.50 KB"`,
/// `" 999 B"`.
pub fn format_size(size: u64) -> (r: String)
    ensures
        r@ == size_text(size as nat),
{
    let (k, scale) = size_unit(size);
    let d = size_decimals(size, k, scale);
    let digits = size_digits(size, k, scale, d);
    let num = number_string(digits, d);
    let mut out = padded_left(num.as_str(), 4);
    proof {
        reveal_strlit(" ");
    }
    out.append(" ");
    out.append(unit_str(k));
    out
}

proof fn lemma_round_mono(a: nat, b: nat, ten: nat, s: nat)
    requires
        a <= b,
        s > 0,
    ensures
        (a * ten + s / 2) / s <= (b * ten + s / 2) / s,
{
    lemma_mul_inequality(a as int, b as int, ten as int);
    lemma_div_is_ordered((a * ten + s / 2) as int, (b * ten + s / 2) as int, s as int);
}

proof fn lemma_round_at(b: nat, ten: nat, s: nat, c: nat)
    requires
        s > 0,
        b >= 1,
        ten >= 1,
        b * ten == c * s,
    ensures
        (((b - 1) as nat) * ten + s / 2) / s <= c,
        (b * ten + s / 2) / s == c,
{
    lemma_fundamental_div_mod_converse((b * ten + s / 2) as int, s as int, c as int, (s / 2) as int);
    assert(((b - 1) as nat) * ten == b * ten - ten) by (nonlinear_arith)
        requires
            b >= 1,
    ;
    lemma_div_is_ordered((((b - 1) as nat) * ten + s / 2) as int, (b * ten + s / 2) as int, s as int);
}

/// One byte more never shows less.
proof fn lemma_shown_step(n: nat)
    ensures
        shown_hundredths(n) <= shown_hundredths(n + 1),
{
    if unit_index(n) == unit_index(n + 1) && decimals(n) == decimals(n + 1) {
        let s = unit_scale(unit_index(n));
        let t = ten_pow(decimals(n));
        lemma_round_mono(n, n + 1, t, s);
        assert(shown_digits(n) == (n * t + s / 2) / s);
        assert(shown_digits(n + 1) == ((n + 1) * t + s / 2) / s);
        assert(shown_digits(n) <= shown_digits(n + 1));
        lemma_mul_inequality(shown_digits(n) as int, shown_digits(n + 1) as int, (s * (100nat / t)) as int);
        lemma_mul_is_associative(shown_digits(n) as int, s as int, (100nat / t) as int);
        lemma_mul_is_associative(shown_digits(n + 1) as int, s as int, (100nat / t) as int);
        assert(shown_hundredths(n) == shown_digits(n) * s * (100nat / t));
        assert(shown_hundredths(n + 1) == shown_digits(n + 1) * s * (100nat / t));
    } else {
        assert(n + 1 == 1_000
            || n + 1 == 10_000
            || n + 1 == 100_000
            || n + 1 == 1_000_000
            || n + 1 == 10_000_000
            || n + 1 == 100_000_000
            || n + 1 == 1_000_000_000
            || n + 1 == 10_000_000_000
            || n + 1 == 100_000_000_000
            || n + 1 == 1_000_000_000_000
            || n + 1 == 10_000_000_000_000
            || n + 1 == 100_000_000_000_000
            || n + 1 == 1_000_000_000_000_000
            || n + 1 == 10_000_000_000_000_000
            || n + 1 == 100_000_000_000_000_000
        );
        if n + 1 == 1_000 {
            lemma_round_at(1_000, 1, 1, 1_000);
            lemma_round_at(1_000, 100, 1_000, 100);
            lemma_mul_inequality(shown_digits(n) as int, 1_000, 100);
            lemma_mul_is_associative(shown_digits(n) as int, 1, 100);
            lemma_mul_is_associative(shown_digits(n + 1) as int, 1_000, 1);
            assert(shown_hundredths(n + 1) == 100 * 1_000);
            assert(shown_hundredths(n) <= 100 * 1_000);
        } else if n + 1 == 10_000 {
            lemma_round_at(10_000, 100, 1_000, 1_000);
            lemma_round_at(10_000, 10, 1_000, 100);
            lemma_mul_inequality(shown_digits(n) as int, 1_000, 1_000);
            lemma_mul_is_associative(shown_digits(n) as int, 1_000, 1);
            lemma_mul_is_associative(shown_digits(n + 1) as int, 1_000, 10);
            assert(shown_hundredths(n + 1) == 100 * 10_000);
            assert(shown_hundredths(n) <= 100 * 10_000);
        } else if n + 1 == 100_000 {
            lemma_round_at(100_000, 10, 1_000, 1_000);
            lemma_round_at(100_000, 1, 1_000, 100);
            lemma_mul_inequality(shown_digits(n) as int, 1_000, 10_000);
            lemma_mul_is_associative(shown_digits(n) as int, 1_000, 10);
            lemma_mul_is_associative(shown_digits(n + 1) as int, 1_000, 100);
            assert(shown_hundredths(n + 1) == 100 * 100_000);
            assert(shown_hundredths(n) <= 100 * 100_000);
        } else if n + 1 == 1_000_000 {
            lemma_round_at(1_000_000, 1, 1_000, 1_000);
            lemma_round_at(1_000_000, 100, 1_000_000, 100);
            lemma_mul_inequality(shown_digits(n) as int, 1_000, 100_000);
            lemma_mul_is_associative(shown_digits(n) as int, 1_000, 100);
            lemma_mul_is_associative(shown_digits(n + 1) as int, 1_000_000, 1);
            assert(shown_hundredths(n + 1) == 100 * 1_000_000);
            assert(shown_hundredths(n) <= 100 * 1_000_000);
        } else if n + 1 == 10_000_000 {
            lemma_round_at(10_000_000, 100, 1_000_000, 1_000);
            lemma_round_at(10_000_000, 10, 1_000_000, 100);
            lemma_mul_inequality(shown_digits(n) as int, 1_000, 1_000_000);
            lemma_mul_is_associative(shown_digits(n) as int, 1_000_000, 1);
            lemma_mul_is_associative(shown_digits(n + 1) as int, 1_000_000, 10);
            assert(shown_hundredths(n + 1) == 100 * 10_000_000);
            assert(shown_hundredths(n) <= 100 * 10_000_000);
        } else if n + 1 == 100_000_000 {
            lemma_round_at(100_000_000, 10, 1_000_000, 1_000);
            lemma_round_at(100_000_000, 1, 1_000_000, 100);
            lemma_mul_inequality(shown_digits(n) as int, 1_000, 10_000_000);
            lemma_mul_is_associative(shown_digits(n) as int, 1_000_000, 10);
            lemma_mul_is_associative(shown_digits(n + 1) as int, 1_000_000, 100);
            assert(shown_hundredths(n + 1) == 100 * 100_000_000);
            assert(shown_hundredths(n) <= 100 * 100_000_000);
        } else if n + 1 == 1_000_000_000 {
            lemma_round_at(1_000_000_000, 1, 1_000_000, 1_000);
            lemma_round_at(1_000_000_000, 100, 1_000_000_000, 100);
            lemma_mul_inequality(shown_digits(n) as int, 1_000, 100_000_000);
            lemma_mul_is_associative(shown_digits(n) as int, 1_000_000, 100);
            lemma_mul_is_associative(shown_digits(n + 1) as int, 1_000_000_000, 1);
            assert(shown_hundredths(n + 1) == 100 * 1_000_000_000);
            assert(shown_hundredths(n) <= 100 * 1_000_000_000);
        } else if n + 1 == 10_000_000_000 {
            lemma_round_at(10_000_000_000, 100, 1_000_000_000, 1_000);
            lemma_round_at(10_000_000_000, 10, 1_000_000_000, 100);
            lemma_mul_inequality(shown_digits(n) as int, 1_000, 1_000_000_000);
            lemma_mul_is_associative(shown_digits(n) as int, 1_000_000_000, 1);
            lemma_mul_is_associative(shown_digits(n + 1) as int, 1_000_000_000, 10);
            assert(shown_hundredths(n + 1) == 100 * 10_000_000_000);
            assert(shown_hundredths(n) <= 100 * 10_000_000_000);
        } else if n + 1 == 100_000_000_000 {
            lemma_round_at(100_000_000_000, 10, 1_000_000_000, 1_000);
            lemma_round_at(100_000_000_000, 1, 1_000_000_000, 100);
            lemma_mul_inequality(shown_digits(n) as int, 1_000, 10_000_000_000);
            lemma_mul_is_associative(shown_digits(n) as int, 1_000_000_000, 10);
            lemma_mul_is_associative(shown_digits(n + 1) as int, 1_000_000_000, 100);
            assert(shown_hundredths(n + 1) == 100 * 100_000_000_000);
            assert(shown_hundredths(n) <= 100 * 100_000_000_000);
        } else if n + 1 == 1_000_000_000_000 {
            lemma_round_at(1_000_000_000_000, 1, 1_000_000_000, 1_000);
            lemma_round_at(1_000_000_000_000, 100, 1_000_000_000_000, 100);
            lemma_mul_inequality(shown_digits(n) as int, 1_000, 100_000_000_000);
            lemma_mul_is_associative(shown_digits(n) as int, 1_000_000_000, 100);
            lemma_mul_is_associative(shown_digits(n + 1) as int, 1_000_000_000_000, 1);
            assert(shown_hundredths(n + 1) == 100 * 1_000_000_000_000);
            assert(shown_hundredths(n) <= 100 * 1_000_000_000_000);
        } else if n + 1 == 10_000_000_000_000 {
            lemma_round_at(10_000_000_000_000, 100, 1_000_000_000_000, 1_000);
            lemma_round_at(10_000_000_000_000, 10, 1_000_000_000_000, 100);
            lemma_mul_inequality(shown_digits(n) as int, 1_000, 1_000_000_000_000);
            lemma_mul_is_associative(shown_digits(n) as int, 1_000_000_000_000, 1);
            lemma_mul_is_associative(shown_digits(n + 1) as int, 1_000_000_000_000, 10);
            assert(shown_hundredths(n + 1) == 100 * 10_000_000_000_000);
            assert(shown_hundredths(n) <= 100 * 10_000_000_000_000);
        } else if n + 1 == 100_000_000_000_000 {
            lemma_round_at(100_000_000_000_000, 10, 1_000_000_000_000, 1_000);
            lemma_round_at(100_000_000_000_000, 1, 1_000_000_000_000, 100);
            lemma_mul_inequality(shown_digits(n) as int, 1_000, 10_000_000_000_000);
            lemma_mul_is_associative(shown_digits(n) as int, 1_000_000_000_000, 10);
            lemma_mul_is_associative(shown_digits(n + 1) as int, 1_000_000_000_000, 100);
            assert(shown_hundredths(n + 1) == 100 * 100_000_000_000_000);
            assert(shown_hundredths(n) <= 100 * 100_000_000_000_000);
        } else if n + 1 == 1_000_000_000_000_000 {
            lemma_round_at(1_000_000_000_000_000, 1, 1_000_000_000_000, 1_000);
            lemma_round_at(1_000_000_000_000_000, 100, 1_000_000_000_000_000, 100);
            lemma_mul_inequality(shown_digits(n) as int, 1_000, 100_000_000_000_000);
            lemma_mul_is_associative(shown_digits(n) as int, 1_000_000_000_000, 100);
            lemma_mul_is_associative(shown_digits(n + 1) as int, 1_000_000_000_000_000, 1);
            assert(shown_hundredths(n + 1) == 100 * 1_000_000_000_000_000);
            assert(shown_hundredths(n) <= 100 * 1_000_000_000_000_000);
        } else if n + 1 == 10_000_000_000_000_000 {
            lemma_round_at(10_000_000_000_000_000, 100, 1_000_000_000_000_000, 1_000);
            lemma_round_at(10_000_000_000_000_000, 10, 1_000_000_000_000_000, 100);
            lemma_mul_inequality(shown_digits(n) as int, 1_000, 1_000_000_000_000_000);
            lemma_mul_is_associative(shown_digits(n) as int, 1_000_000_000_000_000, 1);
            lemma_mul_is_associative(shown_digits(n + 1) as int, 1_000_000_000_000_000, 10);
            assert(shown_hundredths(n + 1) == 100 * 10_000_000_000_000_000);
            assert(shown_hundredths(n) <= 100 * 10_000_000_000_000_000);
        } else if n + 1 == 100_000_000_000_000_000 {
            lemma_round_at(100_000_000_000_000_000, 10, 1_000_000_000_000_000, 1_000);
            lemma_round_at(100_000_000_000_000_000, 1, 1_000_000_000_000_000, 100);
            lemma_mul_inequality(shown_digits(n) as int, 1_000, 10_000_000_000_000_000);
            lemma_mul_is_associative(shown_digits(n) as int, 1_000_000_000_000_000, 10);
            lemma_mul_is_associative(shown_digits(n + 1) as int, 1_000_000_000_000_000, 100);
            assert(shown_hundredths(n + 1) == 100 * 100_000_000_000_000_000);
            assert(shown_hundredths(n) <= 100 * 100_000_000_000_000_000);
        }
    }
}

/// Zero bytes show as `"   0 B"`.
pub proof fn lemma_format_size_zero()
    ensures
        size_text(0) == "   0 B"@,
{
    reveal_strlit("   0 B");
    reveal_strlit(" ");
    reveal_strlit("B");
    reveal_with_fuel(crate::text::spaces, 4);
    assert(nat_text(0) == seq!['0']);
    assert(size_text(0) =~= "   0 B"@);
}

/// A larger byte count never shows a smaller size: the size a text of
/// `format_size` shows grows with the byte count.
pub proof fn lemma_format_size_monotonic(n: u64, m: u64)
    requires
        n <= m,
    ensures
        shown_hundredths(n as nat) <= shown_hundredths(m as nat),
    decreases m - n,
{
    if n < m {
        lemma_shown_step(n as nat);
        lemma_format_size_monotonic((n + 1) as u64, m);
    }
}

/// Permission bit `i` of `mode` (bit 8 is the owner's read bit, bit 0 the
/// others' execute bit).
pub open spec fn perm_bit(mode: u32, i: u32) -> bool {
    (mode >> i) & 1u32 == 1u32
}

/// `c` where a permission is granted, `-` where it is not.
pub open spec fn mark(set: bool, c: char) -> Seq<char> {
    if set {
        seq![c]
    } else {
        seq!['-']
    }
}

/// The `rwx` characters of the three bits starting at bit `sh`.
pub open spec fn rwx_triplet(mode: u32, sh: u32) -> Seq<char> {
    mark(perm_bit(mode, (sh + 2) as u32), 'r') + mark(perm_bit(mode, (sh + 1) as u32), 'w') + mark(
        perm_bit(mode, sh),
        'x',
    )
}

/// The nine `rwx` characters of the low nine bits of `mode`: owner, group,
/// others.
pub open spec fn rwx_text(mode: u32) -> Seq<char> {
    rwx_triplet(mode, 6) + rwx_triplet(mode, 3) + rwx_triplet(mode, 0)
}

/// The octal digit for owner (`t == 0`), group (`1`) or others (`2`).
pub open spec fn octal_digit(mode: u32, t: u32) -> u32 {
    (mode >> (6 - 3 * t) as u32) & 7u32
}

/// The low nine bits of `mode` as three octal digits.
pub open spec fn octal_text(mode: u32) -> Seq<char> {
    seq![
        digit_char(octal_digit(mode, 0) as int),
        digit_char(octal_digit(mode, 1) as int),
        digit_char(octal_digit(mode, 2) as int),
    ]
}

/// The owner's access: whether the owner may write.
pub open spec fn owner_text(mode: u32) -> Seq<char> {
    if perm_bit(mode, 7) {
        "read-write"@
    } else {
        "read-only"@
    }
}

/// The value of an octal digit character.
pub open spec fn octal_value(c: char) -> u32 {
    if c == '1' {
        1
    } else if c == '2' {
        2
    } else if c == '3' {
        3
    } else if c == '4' {
        4
    } else if c == '5' {
        5
    } else if c == '6' {
        6
    } else if c == '7' {
        7
    } else {
        0
    }
}

/// The `rwx` triplet an octal digit value stands for.
pub open spec fn triplet(d: u32) -> Seq<char> {
    mark(d & 4u32 != 0, 'r') + mark(d & 2u32 != 0, 'w') + mark(d & 1u32 != 0, 'x')
}

fn mark_str(set: bool, c: &'static str) -> (r: &'static str)
    ensures
        r@ == (if set {
            c@
        } else {
            seq!['-']
        }),
{
    proof {
        reveal_strlit("-");
    }
    if set {
        c
    } else {
        "-"
    }
}

fn bit(mode: u32, i: u32) -> (r: bool)
    requires
        i < 32,
    ensures
        r == perm_bit(mode, i),
{
    (mode >> i) & 1 == 1
}

fn push_triplet(out: &mut String, mode: u32, sh: u32)
    requires
        sh == 0 || sh == 3 || sh == 6,
    ensures
        final(out)@ == old(out)@ + rwx_triplet(mode, sh),
{
    proof {
        reveal_strlit("r");
        reveal_strlit("w");
        reveal_strlit("x");
    }
    out.append(mark_str(bit(mode, sh + 2), "r"));
    out.append(mark_str(bit(mode, sh + 1), "w"));
    out.append(mark_str(bit(mode, sh), "x"));
    assert(out@ =~= old(out)@ + rwx_triplet(mode, sh));
}

/// The permission bits as nine `rwx` characters, e.g. `"rwxr-xr--"`.
pub fn format_permissions_rwx(mode: u32) -> (r: String)
    ensures
        r@ == rwx_text(mode),
{
    let mut out = String::new();
    push_triplet(&mut out, mode, 6);
    push_triplet(&mut out, mode, 3);
    push_triplet(&mut out, mode, 0);
    assert(out@ =~= rwx_text(mode));
    out
}

/// The permission bits as three octal digits, e.g. `"754"`.
pub fn format_permissions_octal(mode: u32) -> (r: String)
    ensures
        r@ == octal_text(mode),
{
    let owner = (mode >> 6u32) & 7;
    let group = (mode >> 3u32) & 7;
    let other = mode & 7;
    assert(owner < 8 && group < 8 && other < 8) by (bit_vector)
        requires
            owner == (mode >> 6u32) & 7,
            group == (mode >> 3u32) & 7,
            other == mode & 7,
    ;
    assert(other == (mode >> 0u32) & 7) by (bit_vector)
        requires
            other == mode & 7,
    ;
    let mut out = String::new();
    out.append(digit_str(owner as u64));
    out.append(digit_str(group as u64));
    out.append(digit_str(other as u64));
    assert(out@ =~= octal_text(mode));
    out
}

/// `"read-write"` where the owner may write, else `"read-only"`.
pub fn format_permissions_owner(mode: u32) -> (r: String)
    ensures
        r@ == owner_text(mode),
{
    if bit(mode, 7) {
        String::from_str("read-write")
    } else {
        String::from_str("read-only")
    }
}

proof fn lemma_octal_value(d: u32)
    requires
        d < 8,
    ensures
        octal_value(digit_char(d as int)) == d,
{
}

proof fn lemma_triplet_bits(mode: u32, sh: u32)
    requires
        sh == 0 || sh == 3 || sh == 6,
    ensures
        triplet((mode >> sh) & 7u32) == rwx_triplet(mode, sh),
        (mode >> sh) & 7u32 < 8,
{
    let d = (mode >> sh) & 7u32;
    let s2 = (sh + 2) as u32;
    let s1 = (sh + 1) as u32;
    assert(d < 8 && (d & 4u32 != 0) == ((mode >> s2) & 1u32 == 1u32) && (d & 2u32 != 0) == ((mode
        >> s1) & 1u32 == 1u32) && (d & 1u32 != 0) == ((mode >> sh) & 1u32 == 1u32))
        by (bit_vector)
        requires
            d == (mode >> sh) & 7u32,
            s2 == sh + 2,
            s1 == sh + 1,
            sh <= 6,
    ;
}

/// The two renderings of permission bits agree: each octal digit decodes to
/// exactly the `rwx` triplet shown for owner, group and others.
pub proof fn lemma_octal_matches_rwx(mode: u32)
    ensures
        rwx_text(mode) == triplet(octal_value(octal_text(mode)[0])) + triplet(
            octal_value(octal_text(mode)[1]),
        ) + triplet(octal_value(octal_text(mode)[2])),
{
    lemma_triplet_bits(mode, 6);
    lemma_triplet_bits(mode, 3);
    lemma_triplet_bits(mode, 0);
    assert(octal_digit(mode, 0) == (mode >> 6u32) & 7u32);
    assert(octal_digit(mode, 1) == (mode >> 3u32) & 7u32);
    assert(octal_digit(mode, 2) == (mode >> 0u32) & 7u32);
    lemma_octal_value(octal_digit(mode, 0));
    lemma_octal_value(octal_digit(mode, 1));
    lemma_octal_value(octal_digit(mode, 2));
}

/// Whether chrono-tz knows `s` as a time zone name.
pub uninterp spec fn is_zone_name(s: Seq<char>) -> bool;

/// What chrono renders of an instant, given as seconds and nanoseconds since
/// the epoch, in UTC with a strftime pattern; `None` where the instant is out
/// of chrono's range or the pattern is not valid.
pub uninterp spec fn utc_rendering(secs: int, nanos: int, pattern: Seq<char>) -> Option<Seq<char>>;

/// As `utc_rendering`, in the named time zone; `None` also where the name is
/// not a zone.
pub uninterp spec fn zone_rendering(
    secs: int,
    nanos: int,
    zone: Seq<char>,
    pattern: Seq<char>,
) -> Option<Seq<char>>;

/// What chrono renders of an instant as an RFC 3339 date and time in UTC;
/// `None` where the instant is out of chrono's range.
pub uninterp spec fn rfc3339_rendering(secs: int, nanos: int) -> Option<Seq<char>>;

/// The characters of an optional string.
pub open spec fn text_of(o: Option<String>) -> Option<Seq<char>> {
    match o {
        Some(s) => Some(s@),
        None => None,
    }
}

/// Relies on `chrono_tz::Tz`'s `FromStr`, a lookup of the exact name in the
/// compiled time zone table.
#[verifier::external_body]
fn known_zone(s: &str) -> (r: bool)
    ensures
        r == is_zone_name(s@),
{
    s.parse::<chrono_tz::Tz>().is_ok()
}

/// Relies on `chrono::DateTime::from_timestamp` (`None` out of range) and
/// `DelayedFormat::write_to` of `DateTime::format` (an error for a pattern
/// chrono cannot render); the text depends on its arguments alone.
#[verifier::external_body]
fn utc_format(secs: i64, nanos: u32, pattern: &str) -> (r: Option<String>)
    ensures
        text_of(r) == utc_rendering(secs as int, nanos as int, pattern@),
{
    let instant = chrono::DateTime::from_timestamp(secs, nanos)?;
    let mut out = String::new();
    instant.format(pattern).write_to(&mut out).ok()?;
    Some(out)
}

/// Relies on `chrono::DateTime::with_timezone` into the `chrono_tz::Tz` that
/// `zone` names (looked up as in `known_zone`), then on the same calls as
/// `utc_format`; the text depends on its arguments alone.
#[verifier::external_body]
fn zone_format(secs: i64, nanos: u32, zone: &str, pattern: &str) -> (r: Option<String>)
    ensures
        text_of(r) == zone_rendering(secs as int, nanos as int, zone@, pattern@),
{
    let tz: chrono_tz::Tz = zone.parse().ok()?;
    let instant = chrono::DateTime::from_timestamp(secs, nanos)?.with_timezone(&tz);
    let mut out = String::new();
    instant.format(pattern).write_to(&mut out).ok()?;
    Some(out)
}

/// Relies on `chrono::DateTime::to_rfc3339` of the UTC instant that
/// `DateTime::from_timestamp` builds (`None` out of range).
#[verifier::external_body]
fn rfc3339_format(secs: i64, nanos: u32) -> (r: Option<String>)
    ensures
        text_of(r) == rfc3339_rendering(secs as int, nanos as int),
{
    let instant = chrono::DateTime::from_timestamp(secs, nanos)?;
    Some(instant.to_rfc3339())
}

/// A time zone setting after validation.
#[derive(Clone, Debug)]
pub struct ZoneChoice {
    /// The zone to use.
    pub name: String,
    /// The requested name was not a zone, so UTC stands in for it.
    pub fell_back: bool,
}

/// Validates a time zone name; an unknown one is replaced by `"UTC"`.
pub fn parse_timezone(timezone_str: &str) -> (r: ZoneChoice)
    ensures
        r.fell_back == !is_zone_name(timezone_str@),
        r.name@ == (if r.fell_back {
            "UTC"@
        } else {
            timezone_str@
        }),
{
    if known_zone(timezone_str) {
        ZoneChoice { name: String::from_str(timezone_str), fell_back: false }
    } else {
        ZoneChoice { name: String::from_str("UTC"), fell_back: true }
    }
}

/// A Unix timestamp followed by its UTC rendering in parentheses.
pub open spec fn unix_clock(secs: int, utc: Seq<char>) -> Seq<char> {
    int_text(secs) + " ("@ + utc + ")"@
}

/// The Unix timestamp `secs` followed by `utc_text` in parentheses.
pub fn unix_clock_text(secs: i64, utc_text: &str) -> (r: String)
    ensures
        r@ == unix_clock(secs as int, utc_text@),
{
    let mut out = signed_decimal_text(secs);
    out.append(" (");
    out.append(utc_text);
    out.append(")");
    out
}

/// The rendering of an instant for a time format, zone, custom pattern and
/// clock setting; `None` where chrono cannot render it.
pub open spec fn datetime_text(
    t: Timestamp,
    format: TimeFormat,
    zone: Seq<char>,
    custom: Seq<char>,
    clock: bool,
) -> Option<Seq<char>> {
    let s = t.secs as int;
    let n = t.nanos as int;
    match format {
        TimeFormat::Utc => utc_rendering(
            s,
            n,
            if clock {
                "%a %b %e %Y %H:%M:%S UTC"@
            } else {
                "%a %b %e %Y"@
            },
        ),
        TimeFormat::Unix => if clock {
            match utc_rendering(s, n, "%a %b %e %Y %H:%M:%S UTC"@) {
                Some(u) => Some(unix_clock(s, u)),
                None => None,
            }
        } else {
            Some(int_text(s))
        },
        TimeFormat::Iso8601 => utc_rendering(
            s,
            n,
            if clock {
                "%Y-%m-%dT%H:%M:%SZ"@
            } else {
                "%Y-%m-%d"@
            },
        ),
        TimeFormat::Rfc3339 => if clock {
            rfc3339_rendering(s, n)
        } else {
            utc_rendering(s, n, "%Y-%m-%d"@)
        },
        TimeFormat::Custom => zone_rendering(s, n, zone, custom),
        TimeFormat::Utf | TimeFormat::Local => zone_rendering(
            s,
            n,
            zone,
            if clock {
                "%a %b %e %Y %H:%M:%S %Z"@
            } else {
                "%a %b %e %Y"@
            },
        ),
    }
}

/// Renders a modification time. UTC, Unix, ISO 8601 and RFC 3339 render in
/// UTC; the zone-aware formats and the custom pattern render in `timezone`.
/// The custom pattern ignores the clock setting.
pub fn format_datetime(
    system_time: Timestamp,
    time_format: &TimeFormat,
    timezone: &str,
    custom_format: &str,
    toggle_clock: bool,
) -> (r: Option<String>)
    ensures
        text_of(r) == datetime_text(
            system_time,
            *time_format,
            timezone@,
            custom_format@,
            toggle_clock,
        ),
{
    let s = system_time.secs;
    let n = system_time.nanos;
    match time_format {
        TimeFormat::Utc => utc_format(
            s,
            n,
            if toggle_clock {
                "%a %b %e %Y %H:%M:%S UTC"
            } else {
                "%a %b %e %Y"
            },
        ),
        TimeFormat::Unix => {
            if toggle_clock {
                match utc_format(s, n, "%a %b %e %Y %H:%M:%S UTC") {
                    Some(u) => Some(unix_clock_text(s, u.as_str())),
                    None => None,
                }
            } else {
                Some(signed_decimal_text(s))
            }
        },
        TimeFormat::Iso8601 => utc_format(
            s,
            n,
            if toggle_clock {
                "%Y-%m-%dT%H:%M:%SZ"
            } else {
                "%Y-%m-%d"
            },
        ),
        TimeFormat::Rfc3339 => {
            if toggle_clock {
                rfc3339_format(s, n)
            } else {
                utc_format(s, n, "%Y-%m-%d")
            }
        },
        TimeFormat::Custom => zone_format(s, n, timezone, custom_format),
        TimeFormat::Utf | TimeFormat::Local => zone_format(
            s,
            n,
            timezone,
            if toggle_clock {
                "%a %b %e %Y %H:%M:%S %Z"
            } else {
                "%a %b %e %Y"
            },
        ),
    }
}

} // verus!
