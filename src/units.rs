use vstd::prelude::*;
use vstd::string::StringExecFns;

verus! {

pub open spec fn digit_char(d: int) -> char {
    seq!['0', '1', '2', '3', '4', '5', '6', '7', '8', '9'][d]
}

/// The decimal digits of `n`.
pub open spec fn decimal_text(n: nat) -> Seq<char>
    decreases n,
{
    if n < 10 {
        seq![digit_char(n as int)]
    } else {
        decimal_text(n / 10).push(digit_char((n % 10) as int))
    }
}

/// The last `k` decimal digits of `n`, with leading zeros.
pub open spec fn padded_digits(n: nat, k: nat) -> Seq<char>
    decreases k,
{
    if k == 0 {
        Seq::empty()
    } else {
        padded_digits(n / 10, (k - 1) as nat).push(digit_char((n % 10) as int))
    }
}

/// `s` without its trailing `0`s.
pub open spec fn strip_zeros(s: Seq<char>) -> Seq<char>
    decreases s.len(),
{
    if s.len() > 0 && s.last() == '0' {
        strip_zeros(s.drop_last())
    } else {
        s
    }
}

pub open spec fn pow10(k: nat) -> nat
    decreases k,
{
    if k == 0 {
        1
    } else {
        10 * pow10((k - 1) as nat)
    }
}

/// `n / 10^k` written out exactly: the whole part, then, when the rest is
/// not zero, a point and the rest's `k` digits without trailing zeros.
pub open spec fn scaled_text(n: nat, k: nat) -> Seq<char> {
    decimal_text(n / pow10(k)) + if n % pow10(k) == 0 {
        Seq::empty()
    } else {
        seq!['.'] + strip_zeros(padded_digits(n % pow10(k), k))
    }
}

/// A byte count for people: in GB from two billion bytes on, else in MB
/// from two million, else in KB from two thousand, else in bytes.
pub open spec fn byte_count_text(n: nat) -> Seq<char> {
    if n / 1_000_000_000 > 1 {
        scaled_text(n, 9) + " GB"@
    } else if n / 1_000_000 > 1 {
        scaled_text(n, 6) + " MB"@
    } else if n / 1_000 > 1 {
        scaled_text(n, 3) + " KB"@
    } else {
        decimal_text(n) + " B"@
    }
}

fn digit_str(d: u8) -> (r: &'static str)
    requires
        d < 10,
    ensures
        r@ == seq![digit_char(d as int)],
{
    match d {
        0 => {
            proof { reveal_strlit("0"); }
            "0"
        },
        1 => {
            proof { reveal_strlit("1"); }
            "1"
        },
        2 => {
            proof { reveal_strlit("2"); }
            "2"
        },
        3 => {
            proof { reveal_strlit("3"); }
            "3"
        },
        4 => {
            proof { reveal_strlit("4"); }
            "4"
        },
        5 => {
            proof { reveal_strlit("5"); }
            "5"
        },
        6 => {
            proof { reveal_strlit("6"); }
            "6"
        },
        7 => {
            proof { reveal_strlit("7"); }
            "7"
        },
        8 => {
            proof { reveal_strlit("8"); }
            "8"
        },
        _ => {
            proof { reveal_strlit("9"); }
            "9"
        },
    }
}

fn append_decimal(s: &mut String, n: u128)
    ensures
        final(s)@ == old(s)@ + decimal_text(n as nat),
    decreases n,
{
    if n >= 10 {
        append_decimal(s, n / 10);
    }
    s.append(digit_str((n % 10) as u8));
    assert(s@ =~= old(s)@ + decimal_text(n as nat));
}

fn append_padded(s: &mut String, n: u128, k: u32)
    ensures
        final(s)@ == old(s)@ + padded_digits(n as nat, k as nat),
    decreases k,
{
    if k > 0 {
        append_padded(s, n / 10, k - 1);
        s.append(digit_str((n % 10) as u8));
        assert(s@ =~= old(s)@ + padded_digits(n as nat, k as nat));
    } else {
        assert(s@ =~= old(s)@ + padded_digits(n as nat, k as nat));
    }
}

proof fn lemma_pow10_units()
    ensures
        pow10(3) == 1_000,
        pow10(6) == 1_000_000,
        pow10(9) == 1_000_000_000,
{
    assert(pow10(0) == 1);
    assert(pow10(1) == 10);
    assert(pow10(2) == 100);
    assert(pow10(3) == 1_000);
    assert(pow10(4) == 10_000);
    assert(pow10(5) == 100_000);
    assert(pow10(6) == 1_000_000);
    assert(pow10(7) == 10_000_000);
    assert(pow10(8) == 100_000_000);
    assert(pow10(9) == 1_000_000_000);
}

/// Appends the digits of a nonzero rest `r < 10^k` as `k` places, without
/// trailing zeros.
fn append_fraction(s: &mut String, r: u128, k: u32)
    requires
        0 < r < pow10(k as nat),
    ensures
        final(s)@ == old(s)@ + strip_zeros(padded_digits(r as nat, k as nat)),
{
    let mut r = r;
    let mut k = k;
    let ghost (r0, k0) = (r as nat, k as nat);
    while r % 10 == 0
        invariant
            0 < r < pow10(k as nat),
            strip_zeros(padded_digits(r0, k0)) == strip_zeros(padded_digits(r as nat, k as nat)),
        decreases r,
    {
        proof {
            if k == 0 {
                assert(false);
            }
            let p = pow10((k - 1) as nat);
            assert(r < 10 * p);
            assert(r / 10 < p) by (nonlinear_arith)
                requires
                    r < 10 * p,
            ;
            assert(padded_digits(r as nat, k as nat).drop_last() == padded_digits(
                (r / 10) as nat,
                (k - 1) as nat,
            ));
            assert(digit_char(0) == '0');
        }
        r = r / 10;
        k = k - 1;
    }
    proof {
        if k == 0 {
            assert(false);
        }
        let d = (r % 10) as int;
        assert(digit_char(d) != '0');
    }
    append_padded(s, r, k);
}

/// Formats a byte count for people, with its decimal part written exactly
/// (`2500000` → `2.5 MB`, `1500` → `1500 B`).
pub fn format_byte_count(byte_count: u128) -> (r: String)
    ensures
        r@ == byte_count_text(byte_count as nat),
{
    let mut text = String::new();
    let (unit, places, suffix): (u128, u32, &str) = if byte_count / 1_000_000_000 > 1 {
        (1_000_000_000, 9, " GB")
    } else if byte_count / 1_000_000 > 1 {
        (1_000_000, 6, " MB")
    } else if byte_count / 1_000 > 1 {
        (1_000, 3, " KB")
    } else {
        append_decimal(&mut text, byte_count);
        text.append(" B");
        return text;
    };
    proof {
        lemma_pow10_units();
    }
    append_decimal(&mut text, byte_count / unit);
    let rest = byte_count % unit;
    if rest != 0 {
        text.append(".");
        proof { reveal_strlit("."); }
        append_fraction(&mut text, rest, places);
    }
    text.append(suffix);
    assert(text@ =~= byte_count_text(byte_count as nat));
    text
}

} // verus!
