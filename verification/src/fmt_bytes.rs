//! Human-readable size formatting: byte counts below 1024 are printed as-is,
//! larger counts are scaled to KB, MB or GB with one decimal digit, rounding
//! to the nearest tenth with ties going to the even digit.

use vstd::prelude::*;
use vstd::string::*;
use vstd::arithmetic::div_mod::lemma_fundamental_div_mod;

verus! {

/// The decimal digit character for `d`.
pub open spec fn digit_char(d: int) -> char {
    if d == 0 { '0' }
    else if d == 1 { '1' }
    else if d == 2 { '2' }
    else if d == 3 { '3' }
    else if d == 4 { '4' }
    else if d == 5 { '5' }
    else if d == 6 { '6' }
    else if d == 7 { '7' }
    else if d == 8 { '8' }
    else { '9' }
}

/// The decimal rendering of `n`, most significant digit first.
pub open spec fn spec_dec(n: nat) -> Seq<char>
    decreases n,
{
    if n < 10 {
        seq![digit_char(n as int)]
    } else {
        spec_dec(n / 10).push(digit_char((n % 10) as int))
    }
}

/// `bytes / unit` in tenths, rounded to the nearest tenth; a tie goes to the
/// even count of tenths.
pub open spec fn round_tenths(bytes: int, unit: int) -> int {
    let q = (bytes * 10) / unit;
    let r = (bytes * 10) % unit;
    if 2 * r > unit {
        q + 1
    } else if 2 * r < unit {
        q
    } else if q % 2 == 0 {
        q
    } else {
        q + 1
    }
}

/// `bytes` scaled by `unit`, printed with one decimal digit and `suffix`.
pub open spec fn spec_scaled(bytes: int, unit: int, suffix: Seq<char>) -> Seq<char> {
    let t = round_tenths(bytes, unit);
    spec_dec((t / 10) as nat) + seq!['.'] + seq![digit_char(t % 10)] + suffix
}

/// What `format_size` returns for a byte count.
pub open spec fn spec_format_size(bytes: int) -> Seq<char> {
    if bytes < 1024 {
        spec_dec(bytes as nat) + " B"@
    } else if bytes < 1048576 {
        spec_scaled(bytes, 1024, " KB"@)
    } else if bytes < 1073741824 {
        spec_scaled(bytes, 1048576, " MB"@)
    } else {
        spec_scaled(bytes, 1073741824, " GB"@)
    }
}

fn digit_str(d: u64) -> (r: &'static str)
    requires
        d < 10,
    ensures
        r@ == seq![digit_char(d as int)],
{
    let r: &'static str = match d {
        0 => "0",
        1 => "1",
        2 => "2",
        3 => "3",
        4 => "4",
        5 => "5",
        6 => "6",
        7 => "7",
        8 => "8",
        _ => "9",
    };
    proof {
        reveal_strlit("0");
        reveal_strlit("1");
        reveal_strlit("2");
        reveal_strlit("3");
        reveal_strlit("4");
        reveal_strlit("5");
        reveal_strlit("6");
        reveal_strlit("7");
        reveal_strlit("8");
        reveal_strlit("9");
        assert(r@ =~= seq![digit_char(d as int)]);
    }
    r
}

fn push_dec(out: &mut String, n: u64)
    ensures
        final(out)@ == old(out)@ + spec_dec(n as nat),
    decreases n,
{
    if n < 10 {
        out.append(digit_str(n));
        proof {
            assert(out@ =~= old(out)@ + spec_dec(n as nat));
        }
    } else {
        push_dec(out, n / 10);
        out.append(digit_str(n % 10));
        proof {
            assert(spec_dec(n as nat) =~= spec_dec((n / 10) as nat).push(
                digit_char((n % 10) as int),
            ));
            assert(out@ =~= old(out)@ + spec_dec(n as nat));
        }
    }
}

/// The decimal rendering of `n` as a fresh string.
fn dec_string(n: u64) -> (r: String)
    ensures
        r@ == spec_dec(n as nat),
{
    let mut s = String::new();
    push_dec(&mut s, n);
    proof {
        assert(s@ =~= spec_dec(n as nat));
    }
    s
}

fn scaled(bytes: u64, unit: u64, suffix: &str) -> (r: String)
    requires
        1024 <= unit,
        bytes <= i64::MAX,
    ensures
        r@ == spec_scaled(bytes as int, unit as int, suffix@),
{
    let num: u128 = (bytes as u128) * 10;
    let q: u128 = num / (unit as u128);
    let rem: u128 = num % (unit as u128);
    proof {
        lemma_fundamental_div_mod(num as int, unit as int);
        assert(q < 0x4000_0000_0000_0000) by (nonlinear_arith)
            requires
                num == (unit as u128) * q + rem,
                0 <= rem,
                num <= 0x7fff_ffff_ffff_ffff * 10,
                unit >= 1024,
                q >= 0,
        ;
    }
    let t: u128 = if 2 * rem > unit as u128 {
        q + 1
    } else if 2 * rem < unit as u128 {
        q
    } else if q % 2 == 0 {
        q
    } else {
        q + 1
    };
    proof {
        assert(t as int == round_tenths(bytes as int, unit as int));
    }
    let int_part: u64 = (t / 10) as u64;
    let frac: u64 = (t % 10) as u64;
    let mut s = dec_string(int_part);
    s.append(".");
    s.append(digit_str(frac));
    s.append(suffix);
    proof {
        reveal_strlit(".");
        assert(s@ =~= spec_scaled(bytes as int, unit as int, suffix@));
    }
    s
}

/// Renders a byte count for display: `0 B`, `1023 B`, `1.0 KB`, `2.5 MB`,
/// `7.1 GB`. Counts are scaled by powers of 1024 and rounded to one decimal.
pub fn format_size(bytes: i64) -> (r: String)
    requires
        bytes >= 0,
    ensures
        r@ == spec_format_size(bytes as int),
{
    if bytes < 1024 {
        let mut s = dec_string(bytes as u64);
        s.append(" B");
        proof {
            assert(s@ =~= spec_format_size(bytes as int));
        }
        s
    } else if bytes < 1048576 {
        scaled(bytes as u64, 1024, " KB")
    } else if bytes < 1073741824 {
        scaled(bytes as u64, 1048576, " MB")
    } else {
        scaled(bytes as u64, 1073741824, " GB")
    }
}

} // verus!
