//! Sizes as they are shown to the user.

use crate::text::{decimal_digits, digit_char, push_decimal_digits};
use vstd::prelude::*;
use vstd::string::StringExecFns;

verus! {

/// Which unit a number of bytes is shown in: 0 for bytes, 1 for KB, 2 for MB
/// and 3 for GB. Each unit is 1024 of the one before, and a number is shown
/// in the largest unit of which it has at least one.
pub open spec fn unit_index(size: nat) -> nat {
    if size < 1024 {
        0
    } else if size < 1024 * 1024 {
        1
    } else if size < 1024 * 1024 * 1024 {
        2
    } else {
        3
    }
}

/// Number of bytes in a unit.
pub open spec fn unit_bytes(index: nat) -> nat {
    if index == 0 {
        1
    } else if index == 1 {
        1024
    } else if index == 2 {
        1024 * 1024
    } else {
        1024 * 1024 * 1024
    }
}

/// Name of a unit.
pub open spec fn unit_name(index: nat) -> Seq<char> {
    if index == 0 {
        "B"@
    } else if index == 1 {
        "KB"@
    } else if index == 2 {
        "MB"@
    } else {
        "GB"@
    }
}

/// `n / d` rounded to the nearest integer, and to the even one of two that
/// are equally near.
pub open spec fn div_round_half_even(n: nat, d: nat) -> nat
    recommends
        d > 0,
{
    let q = n / d;
    let r = n % d;
    if 2 * r > d || (2 * r == d && q % 2 == 1) {
        q + 1
    } else {
        q
    }
}

/// The first number that is not shown exactly: sizes are shown with 53
/// binary digits.
pub open spec fn exact_below() -> nat {
    0x20_0000_0000_0000
}

/// The distance between the numbers that 53 binary digits can give, at `m`
/// times `step`: `step` below 2^53, and twice as much with each further
/// binary digit.
pub open spec fn spacing_from(m: nat, step: nat) -> nat
    decreases m,
{
    if m < exact_below() {
        step
    } else {
        spacing_from(m / 2, step * 2)
    }
}

/// The distance between the numbers that 53 binary digits can give, at `n`.
pub open spec fn spacing(n: nat) -> nat {
    spacing_from(n, 1)
}

/// A size as it is shown: the size itself below 2^53, and above that the
/// nearest number that 53 binary digits can give, the even one of two that
/// are equally near.
pub open spec fn shown_size(size: nat) -> nat {
    div_round_half_even(size, spacing(size)) * spacing(size)
}

/// A size in tenths of its unit, rounded. Rounding may take a size just
/// below the next unit to 1024.0 of its own.
pub open spec fn tenths(size: nat) -> nat {
    div_round_half_even(shown_size(size) * 10, unit_bytes(unit_index(shown_size(size))))
}

/// Small sizes are exact. Below 2^53 a size is shown as it is.
pub proof fn law_small_sizes_are_exact(size: nat)
    requires
        size < exact_below(),
    ensures
        shown_size(size) == size,
{
    assert(spacing(size) == 1);
    assert(size / 1 == size && size % 1 == 0);
}

/// Rounds a size to 53 binary digits.
fn round_to_shown(size: u64) -> (shown: u128)
    ensures
        shown == shown_size(size as nat),
        shown <= 0x1_0000_0000_0000_1000,
{
    let n: u128 = size as u128;
    let mut m: u128 = n;
    let mut step: u128 = 1;
    while m >= 0x20_0000_0000_0000
        invariant
            n == size,
            1 <= step,
            m * step <= n,
            step == 1 || step * 0x10_0000_0000_0000 <= n,
            spacing_from(m as nat, step as nat) == spacing(n as nat),
        decreases m,
    {
        assert((m / 2) * (step * 2) <= m * step) by (nonlinear_arith)
            requires
                m >= 0,
                step >= 1,
        ;
        assert(step * 0x20_0000_0000_0000 <= m * step) by (nonlinear_arith)
            requires
                m >= 0x20_0000_0000_0000,
                step >= 1,
        ;
        m = m / 2;
        step = step * 2;
    }
    assert(step < 0x1000);
    let q: u128 = n / step;
    let r: u128 = n % step;
    let rounded: u128 = if 2 * r > step || (2 * r == step && q % 2 == 1) {
        q + 1
    } else {
        q
    };
    assert(rounded * step <= n + step) by (nonlinear_arith)
        requires
            rounded <= q + 1,
            q == n / step,
            step >= 1,
            n >= 0,
    {
        assert(q * step <= n);
    }
    rounded * step
}

/// How a size is shown. A number of tokens as `12 tokens`. A number of bytes
/// in its unit with one decimal, as `1.5 KB`.
pub open spec fn size_text(size: nat, is_tokens: bool) -> Seq<char> {
    if is_tokens {
        decimal_digits(size) + " tokens"@
    } else {
        decimal_digits(tenths(size) / 10) + "."@ + seq![digit_char((tenths(size) % 10) as int)]
            + " "@ + unit_name(unit_index(shown_size(size)))
    }
}

/// Shows a size: a number of tokens, or a number of bytes in B, KB, MB or GB
/// with one decimal.
pub fn format_size(size: usize, is_tokens: bool) -> (text: String)
    ensures
        text@ == size_text(size as nat, is_tokens),
{
    let mut text = String::new();
    if is_tokens {
        push_decimal_digits(&mut text, size as u128);
        text.append(" tokens");
        assert(text@ =~= size_text(size as nat, is_tokens));
        return text;
    }
    let n: u128 = round_to_shown(size as u64);
    let index: u8 = if n < 1024 {
        0
    } else if n < 1024 * 1024 {
        1
    } else if n < 1024 * 1024 * 1024 {
        2
    } else {
        3
    };
    let unit: u128 = if index == 0 {
        1
    } else if index == 1 {
        1024
    } else if index == 2 {
        1024 * 1024
    } else {
        1024 * 1024 * 1024
    };
    let name: &str = if index == 0 {
        "B"
    } else if index == 1 {
        "KB"
    } else if index == 2 {
        "MB"
    } else {
        "GB"
    };
    let scaled: u128 = n * 10;
    let q: u128 = scaled / unit;
    let r: u128 = scaled % unit;
    let t: u128 = if 2 * r > unit || (2 * r == unit && q % 2 == 1) {
        q + 1
    } else {
        q
    };
    assert(t == tenths(size as nat));
    push_decimal_digits(&mut text, t / 10);
    text.append(".");
    push_decimal_digits(&mut text, t % 10);
    text.append(" ");
    text.append(name);
    assert(decimal_digits((t % 10) as nat) =~= seq![digit_char((t % 10) as int)]);
    assert(text@ =~= size_text(size as nat, is_tokens));
    text
}

} // verus!
