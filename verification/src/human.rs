//! Sizes as people read them: in bytes up to 1023, above that in binary
//! units with two decimals.

use vstd::prelude::*;

verus! {

/// Bytes in a KiB.
pub const KIB: u64 = 1024;

/// Bytes in a MiB.
pub const MIB: u64 = 1_048_576;

/// Bytes in a GiB.
pub const GIB: u64 = 1_073_741_824;

/// Bytes in a TiB.
pub const TIB: u64 = 1_099_511_627_776;

/// The character for a digit.
pub open spec fn digit_char(d: nat) -> char {
    if d == 0 {
        '0'
    } else if d == 1 {
        '1'
    } else if d == 2 {
        '2'
    } else if d == 3 {
        '3'
    } else if d == 4 {
        '4'
    } else if d == 5 {
        '5'
    } else if d == 6 {
        '6'
    } else if d == 7 {
        '7'
    } else if d == 8 {
        '8'
    } else {
        '9'
    }
}

/// The decimal digits of a number, without leading zeros.
pub open spec fn decimal(n: nat) -> Seq<char>
    decreases n,
{
    if n < 10 {
        seq![digit_char(n)]
    } else {
        decimal(n / 10).push(digit_char(n % 10))
    }
}

/// `amount` in hundredths of `unit`, rounded to the nearest hundredth, a
/// half to the even one.
pub open spec fn hundredths(amount: nat, unit: nat) -> nat {
    let scaled = amount * 100;
    let whole = scaled / unit;
    let rest = scaled % unit;
    if rest * 2 > unit || (rest * 2 == unit && whole % 2 == 1) {
        whole + 1
    } else {
        whole
    }
}

/// A number of hundredths with its two decimals.
pub open spec fn two_decimals(h: nat) -> Seq<char> {
    decimal(h / 100) + seq!['.', digit_char(h % 100 / 10), digit_char(h % 10)]
}

/// A size as text: from a TiB on in TiB, from a GiB on in GiB, from a MiB
/// on in MiB, from a KiB on in KiB, each with two decimals; below that in
/// bytes.
pub open spec fn size_text(b: u64) -> Seq<char> {
    if b >= TIB {
        two_decimals(hundredths(b as nat, TIB as nat)) + seq!['T', 'i', 'B']
    } else if b >= GIB {
        two_decimals(hundredths(b as nat, GIB as nat)) + seq!['G', 'i', 'B']
    } else if b >= MIB {
        two_decimals(hundredths(b as nat, MIB as nat)) + seq!['M', 'i', 'B']
    } else if b >= KIB {
        two_decimals(hundredths(b as nat, KIB as nat)) + seq!['K', 'i', 'B']
    } else {
        decimal(b as nat) + seq!['B']
    }
}

/// The text of one digit.
fn digit_text(d: u128) -> (text: &'static str)
    requires
        d < 10,
    ensures
        text@ == seq![digit_char(d as nat)],
{
    proof {
        reveal_strlit("0");
        reveal_strlit("1");
        reveal_strlit("2");
        reveal_strlit("3");
        reveal_strlit("4");
        reveal_strlit("5");
        reveal_strlit("6");
        reveal_strlit("7");
        reveal_strlit("8");
        reveal_strlit("9");
    }
    let text = if d == 0 {
        "0"
    } else if d == 1 {
        "1"
    } else if d == 2 {
        "2"
    } else if d == 3 {
        "3"
    } else if d == 4 {
        "4"
    } else if d == 5 {
        "5"
    } else if d == 6 {
        "6"
    } else if d == 7 {
        "7"
    } else if d == 8 {
        "8"
    } else {
        "9"
    };
    assert(text@ =~= seq![digit_char(d as nat)]);
    text
}

/// Adds the decimal digits of `n` to `out`.
fn append_decimal(out: &mut String, n: u128)
    ensures
        final(out)@ == old(out)@ + decimal(n as nat),
    decreases n,
{
    if n >= 10 {
        append_decimal(out, n / 10);
    }
    out.append(digit_text(n % 10));
    assert(out@ =~= old(out)@ + decimal(n as nat));
}

/// `amount` in hundredths of `unit`.
fn to_hundredths(amount: u64, unit: u64) -> (h: u128)
    requires
        unit > 0,
    ensures
        h == hundredths(amount as nat, unit as nat),
{
    let scaled: u128 = (amount as u128) * 100;
    let whole: u128 = scaled / (unit as u128);
    let rest: u128 = scaled % (unit as u128);
    assert(whole <= scaled) by (nonlinear_arith)
        requires
            whole == scaled / (unit as u128),
            unit > 0,
    ;
    if rest * 2 > unit as u128 || (rest * 2 == unit as u128 && whole % 2 == 1) {
        whole + 1
    } else {
        whole
    }
}

/// Adds a number of hundredths with its two decimals to `out`.
fn append_two_decimals(out: &mut String, h: u128)
    ensures
        final(out)@ == old(out)@ + two_decimals(h as nat),
{
    proof {
        reveal_strlit(".");
    }
    append_decimal(out, h / 100);
    out.append(".");
    out.append(digit_text(h % 100 / 10));
    out.append(digit_text(h % 10));
    assert(out@ =~= old(out)@ + two_decimals(h as nat));
}

/// A size as text: `1536` reads `1.50KiB`, `1023` reads `1023B`.
pub fn format_bytes(b: u64) -> (text: String)
    ensures
        text@ == size_text(b),
{
    proof {
        reveal_strlit("TiB");
        reveal_strlit("GiB");
        reveal_strlit("MiB");
        reveal_strlit("KiB");
        reveal_strlit("B");
    }
    let mut text = String::new();
    if b >= TIB {
        append_two_decimals(&mut text, to_hundredths(b, TIB));
        text.append("TiB");
    } else if b >= GIB {
        append_two_decimals(&mut text, to_hundredths(b, GIB));
        text.append("GiB");
    } else if b >= MIB {
        append_two_decimals(&mut text, to_hundredths(b, MIB));
        text.append("MiB");
    } else if b >= KIB {
        append_two_decimals(&mut text, to_hundredths(b, KIB));
        text.append("KiB");
    } else {
        append_decimal(&mut text, b as u128);
        text.append("B");
    }
    assert(text@ =~= size_text(b));
    text
}

/// Sizes that can write themselves as text.
pub trait WithFormatBytes {
    /// The size as text, as [`format_bytes`] writes it.
    fn format_bytes(self) -> (text: String);
}

impl WithFormatBytes for u64 {
    fn format_bytes(self) -> (text: String)
        ensures
            text@ == size_text(self),
    {
        crate::human::format_bytes(self)
    }
}

/// A share in hundredths of a percent as text: `6667` reads `66.67%`.
pub fn format_share(share: u64) -> (text: String)
    ensures
        text@ == two_decimals(share as nat) + seq!['%'],
{
    proof {
        reveal_strlit("%");
    }
    let mut text = String::new();
    append_two_decimals(&mut text, share as u128);
    text.append("%");
    assert(text@ =~= two_decimals(share as nat) + seq!['%']);
    text
}

} // verus!
