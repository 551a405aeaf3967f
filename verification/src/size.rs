//! File sizes for people: kilobytes, megabytes or gigabytes with two decimals.
//!
//! A size is first taken as a double-precision number, which is exact below 2^53 bytes, then
//! divided by the unit, and then rounded to two decimals. Both roundings go to the nearest, and
//! from halfway to the even neighbour.

use vstd::prelude::*;
use crate::text::{decimal, digit_char, digit_of, push_decimal};

verus! {

pub const KILOBYTE: u64 = 1_024;

pub const MEGABYTE: u64 = 1_048_576;

pub const GIGABYTE: u64 = 1_073_741_824;

/// `a / d` rounded to the nearest whole number, from halfway to the even one.
pub open spec fn nearest(a: nat, d: nat) -> nat
    recommends
        d > 0,
{
    if 2 * (a % d) < d {
        a / d
    } else if 2 * (a % d) > d {
        a / d + 1
    } else {
        a / d + (a / d) % 2
    }
}

/// The distance between neighbouring double-precision numbers around `n`, found by doubling `u`
/// until `n` is below 2^53 times it.
pub open spec fn double_spacing(n: nat, u: nat) -> nat
    decreases n - u,
{
    if n < 0x20_0000_0000_0000 * u || u == 0 {
        u
    } else {
        double_spacing(n, 2 * u)
    }
}

/// The double-precision number nearest to a whole number.
pub open spec fn as_double(n: nat) -> nat {
    nearest(n, double_spacing(n, 1)) * double_spacing(n, 1)
}

/// The unit that a size is given in.
pub open spec fn size_unit(bytes: u64) -> u64 {
    if bytes >= GIGABYTE {
        GIGABYTE
    } else if bytes >= MEGABYTE {
        MEGABYTE
    } else {
        KILOBYTE
    }
}

/// The sign of a unit, with the space before it.
pub open spec fn unit_sign(unit: u64) -> Seq<char> {
    if unit == GIGABYTE {
        " GB"@
    } else if unit == MEGABYTE {
        " MB"@
    } else {
        " KB"@
    }
}

/// A size in hundredths of its unit.
pub open spec fn size_hundredths(bytes: u64) -> nat {
    nearest(as_double(bytes as nat) * 100, size_unit(bytes) as nat)
}

/// A size for people.
pub open spec fn size_text(bytes: u64) -> Seq<char> {
    let h = size_hundredths(bytes);
    decimal(h / 100) + seq!['.', digit_char(h / 10 % 10), digit_char(h % 10)] + unit_sign(
        size_unit(bytes),
    )
}

fn nearest_of(a: u128, d: u128) -> (r: u128)
    requires
        0 < d,
        a < 0x1_0000_0000_0000_0000_0000_0000,
        d < 0x1_0000_0000_0000_0000_0000_0000,
    ensures
        r == nearest(a as nat, d as nat),
        r <= a / d + 1,
{
    let q = a / d;
    let rest = a % d;
    assert(q <= a) by (nonlinear_arith)
        requires
            q == a / d,
            0 < d,
    ;
    if 2 * rest < d {
        q
    } else if 2 * rest > d {
        q + 1
    } else {
        q + q % 2
    }
}

fn double_of(bytes: u64) -> (r: u128)
    ensures
        r == as_double(bytes as nat),
        r <= 0x1_0000_0000_0000_0000,
{
    let n: u128 = bytes as u128;
    let mut u: u128 = 1;
    while n >= 0x20_0000_0000_0000 * u
        invariant
            n == bytes,
            1 <= u <= 0x800,
            u == 1 || n >= 0x10_0000_0000_0000 * u,
            u == 1 || u == 2 || u == 4 || u == 8 || u == 16 || u == 32 || u == 64 || u == 128 || u
                == 256 || u == 512 || u == 1024 || u == 2048,
            double_spacing(n as nat, 1) == double_spacing(n as nat, u as nat),
        decreases n - u,
    {
        u = 2 * u;
    }
    let q = nearest_of(n, u);
    proof {
        lemma_double_bound(n as nat, u as nat);
    }
    q * u
}

proof fn lemma_double_bound(n: nat, u: nat)
    requires
        n < 0x20_0000_0000_0000 * u,
        1 <= u <= 0x800,
    ensures
        nearest(n, u) <= 0x20_0000_0000_0000,
        nearest(n, u) * u <= 0x1_0000_0000_0000_0000,
{
    assert(n / u < 0x20_0000_0000_0000) by (nonlinear_arith)
        requires
            n < 0x20_0000_0000_0000 * u,
            1 <= u,
    ;
    let q = nearest(n, u);
    assert(q <= 0x20_0000_0000_0000);
    assert(q * u <= 0x20_0000_0000_0000 * 0x800) by (nonlinear_arith)
        requires
            q <= 0x20_0000_0000_0000,
            u <= 0x800,
    ;
}

/// A size for people: in gigabytes from 2^30 bytes on, in megabytes from 2^20 on, and in kilobytes
/// below, with two decimals.
pub fn format_size(bytes: u64) -> (text: String)
    ensures
        text@ == size_text(bytes),
{
    let (unit, sign) = if bytes >= GIGABYTE {
        (GIGABYTE, " GB")
    } else if bytes >= MEGABYTE {
        (MEGABYTE, " MB")
    } else {
        (KILOBYTE, " KB")
    };
    let scaled: u128 = double_of(bytes) * 100;
    let h: u128 = nearest_of(scaled, unit as u128);
    assert(h <= 1_801_439_850_948_198_401) by (nonlinear_arith)
        requires
            h <= scaled / (unit as u128) + 1,
            scaled <= 0x64_0000_0000_0000_0000,
            unit >= 1024,
    ;
    let h: u64 = h as u64;
    let mut text = String::new();
    push_decimal(&mut text, h / 100);
    text.push('.');
    text.push(digit_of(h / 10 % 10));
    text.push(digit_of(h % 10));
    text.append(sign);
    assert(text@ =~= size_text(bytes));
    text
}

/// Below 2^53 bytes the size shown is off by no more than half of its last decimal.
pub proof fn law_size_is_off_by_half_a_hundredth_at_most(bytes: u64)
    requires
        bytes < 0x20_0000_0000_0000,
    ensures
        2 * (size_hundredths(bytes) * size_unit(bytes) - bytes * 100) <= size_unit(bytes),
        2 * (bytes * 100 - size_hundredths(bytes) * size_unit(bytes)) <= size_unit(bytes),
{
    let n = bytes as nat;
    assert(double_spacing(n, 1) == 1);
    assert(as_double(n) == n);
    let a = n * 100;
    let d = size_unit(bytes) as nat;
    let q = a / d;
    vstd::arithmetic::div_mod::lemma_fundamental_div_mod(a as int, d as int);
    assert((q + 1) * d == q * d + d) by (nonlinear_arith);
    assert(d * q == q * d) by (nonlinear_arith);
}

/// A size is shown in gigabytes from 2^30 bytes on, in megabytes from 2^20 bytes on, and in kilobytes
/// below. Below 2^53 bytes the number shown, with its two decimals, is off by no more than half of its
/// last decimal.
pub proof fn law_size_is_shown_in_its_unit(bytes: u64) -> (r: (nat, nat, nat))
    requires
        bytes < 0x20_0000_0000_0000,
    ensures
        r.1 < 10,
        r.2 < 10,
        size_text(bytes) == decimal(r.0) + "."@ + decimal(r.1) + decimal(r.2) + if bytes
            >= 1_073_741_824 {
            " GB"@
        } else if bytes >= 1_048_576 {
            " MB"@
        } else {
            " KB"@
        },
        ({
            let unit: int = if bytes >= 1_073_741_824 {
                1_073_741_824
            } else if bytes >= 1_048_576 {
                1_048_576
            } else {
                1_024
            };
            let shown = 100 * r.0 + 10 * r.1 + r.2;
            -unit <= 2 * (shown * unit - 100 * bytes) <= unit
        }),
{
    law_size_is_off_by_half_a_hundredth_at_most(bytes);
    reveal_strlit(".");
    let h = size_hundredths(bytes);
    let r = (h / 100, h / 10 % 10, h % 10);
    assert(h == 100 * (h / 100) + 10 * (h / 10 % 10) + h % 10);
    assert(size_text(bytes) =~= decimal(r.0) + "."@ + decimal(r.1) + decimal(r.2) + unit_sign(
        size_unit(bytes),
    ));
    assert(bytes * 100 == 100 * bytes);
    r
}

} // verus!
