//! Decimal parsing and formatting for the plot filename schema.
//!
//! A plot's structural parameters are carried in its file name as
//! `_`-separated decimal numbers, so the descriptor needs an exact account
//! of what parses as a `u64` or an `i64` and of how a number prints.

use vstd::prelude::*;
use vstd::string::StringExecFns;

verus! {

/// `b` is an ASCII decimal digit.
pub open spec fn is_digit(b: u8) -> bool {
    48 <= b <= 57
}

/// Numeric value of the ASCII digit `b`.
pub open spec fn digit_val(b: u8) -> nat
    recommends
        is_digit(b),
{
    (b - 48) as nat
}

/// Every byte of `s` is an ASCII decimal digit.
pub open spec fn all_digits(s: Seq<u8>) -> bool {
    forall|i: int| 0 <= i < s.len() ==> is_digit(#[trigger] s[i])
}

/// Value of a run of ASCII digits, most significant first.
pub open spec fn dec_val(s: Seq<u8>) -> nat
    decreases s.len(),
{
    if s.len() == 0 {
        0
    } else {
        dec_val(s.drop_last()) * 10 + digit_val(s.last())
    }
}

/// A longer digit run never has a smaller value: the value of any prefix
/// is a lower bound for the value of the whole run.
proof fn lemma_dec_val_prefix_le(s: Seq<u8>, i: int)
    requires
        0 <= i <= s.len(),
    ensures
        dec_val(s.take(i)) <= dec_val(s),
    decreases s.len() - i,
{
    if i < s.len() {
        assert(s.take(i + 1).drop_last() =~= s.take(i));
        assert(dec_val(s.take(i + 1)) == dec_val(s.take(i)) * 10 + digit_val(s.take(i + 1).last()));
        lemma_dec_val_prefix_le(s, i + 1);
    } else {
        assert(s.take(i) =~= s);
    }
}

/// The digit part of a decimal `u64` literal: everything after an optional
/// leading `+`.
pub open spec fn u64_digits(s: Seq<u8>) -> Seq<u8> {
    if s.len() > 0 && s[0] == 43 {
        s.drop_first()
    } else {
        s
    }
}

/// `s` is a decimal literal that a `u64` can hold: an optional leading `+`,
/// then at least one digit, with a value of at most `u64::MAX`.
pub open spec fn is_dec_u64(s: Seq<u8>) -> bool {
    let d = u64_digits(s);
    d.len() > 0 && all_digits(d) && dec_val(d) <= u64::MAX
}

/// The digit part of a decimal `i64` literal: everything after an optional
/// leading `+` or `-`.
pub open spec fn i64_digits(s: Seq<u8>) -> Seq<u8> {
    if s.len() > 0 && (s[0] == 43 || s[0] == 45) {
        s.drop_first()
    } else {
        s
    }
}

/// `s` carries a leading minus sign.
pub open spec fn i64_negative(s: Seq<u8>) -> bool {
    s.len() > 0 && s[0] == 45
}

/// `s` is a decimal literal that an `i64` can hold.
pub open spec fn is_dec_i64(s: Seq<u8>) -> bool {
    let d = i64_digits(s);
    &&& d.len() > 0
    &&& all_digits(d)
    &&& if i64_negative(s) {
        dec_val(d) <= 0x8000_0000_0000_0000
    } else {
        dec_val(d) <= i64::MAX
    }
}

/// Signed value of the decimal `i64` literal `s`.
pub open spec fn dec_i64_val(s: Seq<u8>) -> int {
    if i64_negative(s) {
        -(dec_val(i64_digits(s)) as int)
    } else {
        dec_val(i64_digits(s)) as int
    }
}

/// Parses a bare run of ASCII digits as a `u64`; rejects an empty run,
/// a non-digit byte, and a value above `u64::MAX`.
pub fn parse_digits(s: &[u8]) -> (r: Option<u64>)
    ensures
        match r {
            Some(v) => s@.len() > 0 && all_digits(s@) && dec_val(s@) <= u64::MAX && v == dec_val(
                s@,
            ),
            None => s@.len() == 0 || !all_digits(s@) || dec_val(s@) > u64::MAX,
        },
{
    if s.len() == 0 {
        return None;
    }
    let mut val: u64 = 0;
    let mut i: usize = 0;
    while i < s.len()
        invariant
            0 <= i <= s@.len(),
            all_digits(s@.take(i as int)),
            val == dec_val(s@.take(i as int)),
        decreases s@.len() - i,
    {
        let b = s[i];
        proof {
            assert(s@.take(i + 1).drop_last() =~= s@.take(i as int));
            assert(s@.take(i + 1).last() == s@[i as int]);
        }
        if b < 48 || b > 57 {
            assert(!is_digit(s@[i as int]));
            return None;
        }
        let d = (b - 48) as u64;
        let wide = val as u128 * 10 + d as u128;
        if wide > u64::MAX as u128 {
            proof {
                lemma_dec_val_prefix_le(s@, i + 1);
            }
            return None;
        }
        val = wide as u64;
        i = i + 1;
    }
    proof {
        assert(s@.take(i as int) =~= s@);
    }
    Some(val)
}

/// Parses a decimal `u64` literal, as `str::parse::<u64>` accepts it:
/// an optional leading `+`, then at least one digit, in range.
pub fn parse_u64_dec(s: &[u8]) -> (r: Option<u64>)
    ensures
        match r {
            Some(v) => is_dec_u64(s@) && v == dec_val(u64_digits(s@)),
            None => !is_dec_u64(s@),
        },
{
    if s.len() > 0 && s[0] == 43 {
        let (_, rest) = s.split_at(1);
        assert(rest@ =~= u64_digits(s@));
        parse_digits(rest)
    } else {
        parse_digits(s)
    }
}

/// Parses a decimal `i64` literal, as `str::parse::<i64>` accepts it:
/// an optional leading `+` or `-`, then at least one digit, in range.
pub fn parse_i64_dec(s: &[u8]) -> (r: Option<i64>)
    ensures
        match r {
            Some(v) => is_dec_i64(s@) && v == dec_i64_val(s@),
            None => !is_dec_i64(s@),
        },
{
    let negative = s.len() > 0 && s[0] == 45;
    let magnitude = if s.len() > 0 && (s[0] == 43 || s[0] == 45) {
        let (_, rest) = s.split_at(1);
        assert(rest@ =~= i64_digits(s@));
        parse_digits(rest)
    } else {
        assert(s@ =~= i64_digits(s@));
        parse_digits(s)
    };
    match magnitude {
        None => None,
        Some(m) => {
            if negative {
                if m < 0x8000_0000_0000_0000 {
                    Some(-(m as i64))
                } else if m == 0x8000_0000_0000_0000 {
                    Some(i64::MIN)
                } else {
                    None
                }
            } else {
                if m <= i64::MAX as u64 {
                    Some(m as i64)
                } else {
                    None
                }
            }
        },
    }
}

/// The ASCII character for the digit `d`.
pub open spec fn dec_digit_char(d: nat) -> char
    recommends
        d < 10,
{
    if d == 0 {
        '0'
    } else if d == 1 {
        '1'
    } else if d == 2 {
        '2'
    } else if d == 3 {
        '3'
    } else if d == 4 {
        '4'
    } else if d == 5 {
        '5'
    } else if d == 6 {
        '6'
    } else if d == 7 {
        '7'
    } else if d == 8 {
        '8'
    } else {
        '9'
    }
}

/// Decimal rendering of `n`, most significant digit first, no sign and no
/// leading zero (a single `0` for zero itself).
pub open spec fn dec_str(n: nat) -> Seq<char>
    decreases n,
{
    if n < 10 {
        seq![dec_digit_char(n)]
    } else {
        dec_str(n / 10).push(dec_digit_char(n % 10))
    }
}

/// One-character string for the digit `d`.
fn digit_literal(d: u64) -> (s: &'static str)
    requires
        d < 10,
    ensures
        s@ =~= seq![dec_digit_char(d as nat)],
{
    if d == 0 {
        proof {
            reveal_strlit("0");
        }
        "0"
    } else if d == 1 {
        proof {
            reveal_strlit("1");
        }
        "1"
    } else if d == 2 {
        proof {
            reveal_strlit("2");
        }
        "2"
    } else if d == 3 {
        proof {
            reveal_strlit("3");
        }
        "3"
    } else if d == 4 {
        proof {
            reveal_strlit("4");
        }
        "4"
    } else if d == 5 {
        proof {
            reveal_strlit("5");
        }
        "5"
    } else if d == 6 {
        proof {
            reveal_strlit("6");
        }
        "6"
    } else if d == 7 {
        proof {
            reveal_strlit("7");
        }
        "7"
    } else if d == 8 {
        proof {
            reveal_strlit("8");
        }
        "8"
    } else {
        proof {
            reveal_strlit("9");
        }
        "9"
    }
}

/// Appends the decimal rendering of `n` to `out`.
pub fn push_dec_u64(n: u64, out: &mut String)
    ensures
        final(out)@ == old(out)@ + dec_str(n as nat),
    decreases n,
{
    if n >= 10 {
        push_dec_u64(n / 10, out);
    }
    let d = digit_literal(n % 10);
    out.append(d);
    proof {
        if n < 10 {
            assert(old(out)@ + dec_str(n as nat) =~= out@);
        } else {
            assert(old(out)@ + dec_str(n as nat) =~= out@);
        }
    }
}

/// Decimal rendering of `n` as a fresh string.
pub fn u64_to_dec_string(n: u64) -> (r: String)
    ensures
        r@ == dec_str(n as nat),
{
    let mut s = String::new();
    push_dec_u64(n, &mut s);
    proof {
        assert(s@ =~= dec_str(n as nat));
    }
    s
}

} // verus!
