//! Human-readable rendering of byte counts, in binary megabytes or gigabytes
//! with exactly two fractional digits.
use vstd::prelude::*;
use vstd::string::*;

verus! {

/// Bytes in one binary megabyte (MiB).
pub const MIB: u64 = 1048576;

/// Bytes in one binary gigabyte (GiB).
pub const GIB: u64 = 1073741824;

/// The decimal digit character for `d` (`d < 10`).
pub open spec fn digit_char(d: nat) -> char {
    if d == 0 {
        '0'
    } else if d == 1 {
        '1'
    } else if d == 2 {
        '2'
    } else if d == 3 {
        '3'
    } else if d == 4 {
        '4'
    } else if d == 5 {
        '5'
    } else if d == 6 {
        '6'
    } else if d == 7 {
        '7'
    } else if d == 8 {
        '8'
    } else {
        '9'
    }
}

/// The decimal notation of `n`, without leading zeros ("0" for zero).
pub open spec fn decimal(n: nat) -> Seq<char>
    decreases n,
{
    if n < 10 {
        seq![digit_char(n)]
    } else {
        decimal(n / 10) + seq![digit_char(n % 10)]
    }
}

/// `a / d` rounded to the nearest integer, ties going to the even neighbour.
pub open spec fn div_round_half_even(a: nat, d: nat) -> nat
    recommends
        d > 0,
{
    let q = a / d;
    let r = a % d;
    if 2 * r > d || (2 * r == d && q % 2 == 1) {
        q + 1
    } else {
        q
    }
}

/// The number of hundredths of `unit` that `bytes` rounds to.
pub open spec fn hundredths(bytes: nat, unit: nat) -> nat {
    div_round_half_even(bytes * 100, unit)
}

/// A count of hundredths written as a decimal with two fractional digits.
pub open spec fn fixed_two(h: nat) -> Seq<char> {
    decimal(h / 100) + seq!['.', digit_char((h % 100) / 10), digit_char(h % 10)]
}

/// The display text of a byte count: gigabytes above one GiB, megabytes
/// otherwise.
pub open spec fn size_text(bytes: nat) -> Seq<char> {
    if bytes > GIB as nat {
        fixed_two(hundredths(bytes, GIB as nat)) + seq![' ', 'G', 'B']
    } else {
        fixed_two(hundredths(bytes, MIB as nat)) + seq![' ', 'M', 'B']
    }
}

/// The display unit chosen for a byte count.
pub open spec fn size_unit(bytes: nat) -> nat {
    if bytes > GIB as nat {
        GIB as nat
    } else {
        MIB as nat
    }
}

fn digit_str(d: u64) -> (r: &'static str)
    requires
        d < 10,
    ensures
        r@ == seq![digit_char(d as nat)],
{
    if d == 0 {
        proof { reveal_strlit("0"); }
        "0"
    } else if d == 1 {
        proof { reveal_strlit("1"); }
        "1"
    } else if d == 2 {
        proof { reveal_strlit("2"); }
        "2"
    } else if d == 3 {
        proof { reveal_strlit("3"); }
        "3"
    } else if d == 4 {
        proof { reveal_strlit("4"); }
        "4"
    } else if d == 5 {
        proof { reveal_strlit("5"); }
        "5"
    } else if d == 6 {
        proof { reveal_strlit("6"); }
        "6"
    } else if d == 7 {
        proof { reveal_strlit("7"); }
        "7"
    } else if d == 8 {
        proof { reveal_strlit("8"); }
        "8"
    } else {
        proof { reveal_strlit("9"); }
        "9"
    }
}

/// Appends the decimal notation of `n` to `s`.
pub fn push_decimal(s: &mut String, n: u64)
    ensures
        final(s)@ == old(s)@ + decimal(n as nat),
    decreases n,
{
    if n >= 10 {
        push_decimal(s, n / 10);
    }
    s.append(digit_str(n % 10));
    proof {
        if n >= 10 {
            assert(old(s)@ + decimal(n as nat) =~= old(s)@ + decimal((n / 10) as nat) + seq![
                digit_char((n % 10) as nat),
            ]);
        }
    }
}

/// Renders a byte count for display: `"{value:.2} GB"` with value in GiB when
/// the count exceeds one GiB, else `"{value:.2} MB"` with value in MiB. The
/// value is rounded to two decimals, ties to even.
pub fn get_size_as_string(size_in_bytes: u64) -> (r: String)
    ensures
        r@ == size_text(size_in_bytes as nat),
{
    let gb = size_in_bytes > GIB;
    let unit: u128 = if gb { GIB as u128 } else { MIB as u128 };
    let scaled: u128 = size_in_bytes as u128 * 100;
    let q: u128 = scaled / unit;
    let rem: u128 = scaled % unit;
    let h: u128 = if 2 * rem > unit || (2 * rem == unit && q % 2 == 1) {
        q + 1
    } else {
        q
    };
    proof {
        assert(h == hundredths(size_in_bytes as nat, unit as nat));
        assert(q <= scaled) by (nonlinear_arith)
            requires q == scaled / unit, unit > 0;
    }
    let whole: u64 = (h / 100) as u64;
    let tenths: u64 = ((h % 100) / 10) as u64;
    let last: u64 = (h % 10) as u64;
    let mut s = String::new();
    push_decimal(&mut s, whole);
    proof { reveal_strlit("."); }
    s.append(".");
    s.append(digit_str(tenths));
    s.append(digit_str(last));
    if gb {
        proof { reveal_strlit(" GB"); }
        s.append(" GB");
    } else {
        proof { reveal_strlit(" MB"); }
        s.append(" MB");
    }
    proof {
        assert(s@ =~= size_text(size_in_bytes as nat));
    }
    s
}

/// The hundredths that a byte count is displayed with lie within half a
/// hundredth of the exact value: `|h * unit - bytes * 100| * 2 <= unit`.
pub proof fn lemma_size_text_rounding(bytes: nat)
    ensures
        ({
            let unit = size_unit(bytes);
            let h = hundredths(bytes, unit);
            &&& size_text(bytes) == fixed_two(h) + (if bytes > GIB as nat {
                seq![' ', 'G', 'B']
            } else {
                seq![' ', 'M', 'B']
            })
            &&& 2 * (h * unit - bytes * 100) <= unit
            &&& 2 * (bytes * 100 - h * unit) <= unit
        }),
{
    let unit = size_unit(bytes);
    let a = bytes * 100;
    let q = a / unit;
    let r = a % unit;
    assert(a == q * unit + r && r < unit) by (nonlinear_arith)
        requires unit > 0, q == a / unit, r == a % unit;
    assert((q + 1) * unit == q * unit + unit) by (nonlinear_arith);
}

} // verus!
