//! Byte counts in words.
//!
//! A count below 1024 is given in bytes. A larger one is given in the
//! largest of the units KB, MB and GB that it reaches, with two decimals. The
//! decimals are those of the quotient as a binary double would hold it: the
//! count is first brought to 53 significant bits, and the quotient is then
//! rounded to hundredths, in both cases to the nearest value and, half way
//! between two, to the even one.

use vstd::prelude::*;
use vstd::string::StringExecFns;

verus! {

pub const KB: usize = 1024;

pub const MB: usize = 1048576;

pub const GB: usize = 1073741824;

/// Counts below this bound have at most 53 significant bits.
pub const PRECISE: u128 = 0x20_0000_0000_0000;

/// The character of a decimal digit.
pub open spec fn digit_char(d: nat) -> char {
    if d == 0 {
        '0'
    } else if d == 1 {
        '1'
    } else if d == 2 {
        '2'
    } else if d == 3 {
        '3'
    } else if d == 4 {
        '4'
    } else if d == 5 {
        '5'
    } else if d == 6 {
        '6'
    } else if d == 7 {
        '7'
    } else if d == 8 {
        '8'
    } else {
        '9'
    }
}

/// The decimal numeral of `n`, without leading zeros.
pub open spec fn decimal(n: nat) -> Seq<char>
    decreases n,
{
    if n < 10 {
        seq![digit_char(n)]
    } else {
        decimal(n / 10).push(digit_char(n % 10))
    }
}

/// The two-digit numeral of `n`, which is below 100.
pub open spec fn two_digits(n: nat) -> Seq<char> {
    seq![digit_char(n / 10), digit_char(n % 10)]
}

/// The quotient `num / den` rounded to the nearest whole number; a quotient
/// half way between two whole numbers goes to the even one.
pub open spec fn round_half_even(num: nat, den: nat) -> nat {
    let q = num / den;
    let r = num % den;
    if 2 * r > den || (2 * r == den && q % 2 == 1) {
        q + 1
    } else {
        q
    }
}

/// Distance between neighbouring numbers of 53 significant bits near `n`.
pub open spec fn spacing(n: nat) -> nat
    decreases n,
{
    if n < PRECISE {
        1
    } else {
        2 * spacing(n / 2)
    }
}

/// `n` brought to 53 significant bits.
pub open spec fn to_53_bits(n: nat) -> nat {
    round_half_even(n, spacing(n)) * spacing(n)
}

/// `bytes / unit` in hundredths.
pub open spec fn hundredths(bytes: nat, unit: nat) -> nat {
    round_half_even(to_53_bits(bytes) * 100, unit)
}

/// `bytes / unit` with two decimals.
pub open spec fn scaled_text(bytes: nat, unit: nat) -> Seq<char> {
    let h = hundredths(bytes, unit);
    decimal(h / 100) + seq!['.'] + two_digits(h % 100)
}

/// A byte count in words.
pub open spec fn format_bytes_text(bytes: nat) -> Seq<char> {
    if bytes >= GB {
        scaled_text(bytes, GB as nat) + " GB"@
    } else if bytes >= MB {
        scaled_text(bytes, MB as nat) + " MB"@
    } else if bytes >= KB {
        scaled_text(bytes, KB as nat) + " KB"@
    } else {
        decimal(bytes) + " bytes"@
    }
}

/// The numeral of one decimal digit.
fn digit_text(d: u128) -> (text: &'static str)
    requires
        d < 10,
    ensures
        text@ == seq![digit_char(d as nat)],
{
    proof {
        reveal_strlit("0");
        reveal_strlit("1");
        reveal_strlit("2");
        reveal_strlit("3");
        reveal_strlit("4");
        reveal_strlit("5");
        reveal_strlit("6");
        reveal_strlit("7");
        reveal_strlit("8");
        reveal_strlit("9");
    }
    let text = if d == 0 {
        "0"
    } else if d == 1 {
        "1"
    } else if d == 2 {
        "2"
    } else if d == 3 {
        "3"
    } else if d == 4 {
        "4"
    } else if d == 5 {
        "5"
    } else if d == 6 {
        "6"
    } else if d == 7 {
        "7"
    } else if d == 8 {
        "8"
    } else {
        "9"
    };
    assert(text@ =~= seq![digit_char(d as nat)]);
    text
}

/// Appends the decimal numeral of `n` to `out`.
fn append_decimal(out: &mut String, n: u128)
    ensures
        final(out)@ == old(out)@ + decimal(n as nat),
    decreases n,
{
    if n >= 10 {
        append_decimal(out, n / 10);
    }
    out.append(digit_text(n % 10));
    proof {
        if n >= 10 {
            assert(out@ =~= old(out)@ + decimal(n as nat));
        } else {
            assert(out@ =~= old(out)@ + decimal(n as nat));
        }
    }
}

/// Rounds `num / den` to the nearest whole number, half way to the even one.
fn rounded_quotient(num: u128, den: u128) -> (q: u128)
    requires
        den > 0,
        num < 0x1_0000_0000_0000_0000_0000_0000,
    ensures
        q == round_half_even(num as nat, den as nat),
        q <= num + 1,
{
    let q = num / den;
    let r = num % den;
    assert(q <= num) by (nonlinear_arith)
        requires
            q == num / den,
            den > 0,
    ;
    if r > den - r || (r == den - r && q % 2 == 1) {
        q + 1
    } else {
        q
    }
}

/// Brings `n` to 53 significant bits.
fn round_to_53_bits(n: u128) -> (r: u128)
    requires
        n <= u64::MAX,
    ensures
        r == to_53_bits(n as nat),
        r <= 2 * n + 1,
{
    let mut unit: u128 = 1;
    let mut top: u128 = n;
    while top >= PRECISE
        invariant
            1 <= unit,
            unit * top <= n,
            n <= u64::MAX,
            spacing(n as nat) == unit * spacing(top as nat),
            unit > 1 ==> top >= 1,
        decreases top,
    {
        proof {
            assert(unit < 4096) by (nonlinear_arith)
                requires
                    unit * top <= n,
                    n <= u64::MAX,
                    top >= PRECISE,
                    unit >= 1,
            ;
            assert((2 * unit) * (top / 2) <= unit * top) by (nonlinear_arith)
                requires
                    unit >= 1,
                    top >= 0,
            ;
            assert(unit * (2 * spacing((top / 2) as nat)) == (2 * unit) * spacing(
                (top / 2) as nat,
            )) by (nonlinear_arith);
        }
        unit = unit * 2;
        top = top / 2;
    }
    proof {
        assert(unit * 1 == unit) by (nonlinear_arith);
        if unit > 1 {
            assert(unit <= n) by (nonlinear_arith)
                requires
                    unit * top <= n,
                    top >= 1,
                    unit >= 1,
            ;
        }
    }
    if unit == 1 {
        assert(round_half_even(n as nat, 1) == n);
        return n;
    }
    let q = rounded_quotient(n, unit);
    assert(q * unit <= 2 * n + 1 && q * unit <= u128::MAX) by (nonlinear_arith)
        requires
            q == round_half_even(n as nat, unit as nat),
            1 < unit <= n,
            n <= u64::MAX,
    ;
    q * unit
}

/// Appends `bytes / unit` with two decimals to `out`.
fn append_scaled(out: &mut String, bytes: usize, unit: usize)
    requires
        unit > 0,
    ensures
        final(out)@ == old(out)@ + scaled_text(bytes as nat, unit as nat),
{
    let exact = round_to_53_bits(bytes as u128);
    let h = rounded_quotient(exact * 100, unit as u128);
    append_decimal(out, h / 100);
    out.append(".");
    let low = h % 100;
    out.append(digit_text(low / 10));
    out.append(digit_text(low % 10));
    proof {
        reveal_strlit(".");
        assert("."@ =~= seq!['.']);
        assert(out@ =~= old(out)@ + scaled_text(bytes as nat, unit as nat));
    }
}

/// Renders a byte count in words: `"512 bytes"`, `"1.50 KB"`, `"2.00 GB"`.
pub fn format_bytes(bytes: usize) -> (text: String)
    ensures
        text@ == format_bytes_text(bytes as nat),
{
    let mut text = String::new();
    if bytes >= GB {
        append_scaled(&mut text, bytes, GB);
        text.append(" GB");
    } else if bytes >= MB {
        append_scaled(&mut text, bytes, MB);
        text.append(" MB");
    } else if bytes >= KB {
        append_scaled(&mut text, bytes, KB);
        text.append(" KB");
    } else {
        append_decimal(&mut text, bytes as u128);
        text.append(" bytes");
    }
    assert(text@ =~= format_bytes_text(bytes as nat));
    text
}

} // verus!
