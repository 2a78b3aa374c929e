//! Decimal text: turning integers into their decimal strings (for derived
//! query-id strings, feature-name fallbacks, and error messages) and parsing
//! decimal strings back into indices (for feature lookup by number).

use vstd::prelude::*;

use vstd::string::{StrSliceExecFns, StringExecFns};

verus! {

/// The character of one decimal digit.
pub open spec fn digit_char(d: nat) -> char {
    if d == 0 {
        '0'
    } else if d == 1 {
        '1'
    } else if d == 2 {
        '2'
    } else if d == 3 {
        '3'
    } else if d == 4 {
        '4'
    } else if d == 5 {
        '5'
    } else if d == 6 {
        '6'
    } else if d == 7 {
        '7'
    } else if d == 8 {
        '8'
    } else {
        '9'
    }
}

/// The decimal digits of `n`, most significant first, with no sign and no
/// leading zeros (except for `n == 0` itself).
pub open spec fn dec_digits(n: nat) -> Seq<char>
    decreases n,
{
    if n < 10 {
        seq![digit_char(n)]
    } else {
        dec_digits(n / 10).push(digit_char(n % 10))
    }
}

/// The decimal string of a signed value: a `-` sign ahead of the digits of
/// its magnitude when it is negative.
pub open spec fn dec_string_i64(v: int) -> Seq<char> {
    if v < 0 {
        seq!['-'] + dec_digits((-v) as nat)
    } else {
        dec_digits(v as nat)
    }
}

/// Appends the character of one decimal digit.
fn push_digit_char(d: u64, out: &mut String)
    requires
        d < 10,
    ensures
        final(out)@ == old(out)@.push(digit_char(d as nat)),
{
    proof {
        reveal_strlit("0");
        reveal_strlit("1");
        reveal_strlit("2");
        reveal_strlit("3");
        reveal_strlit("4");
        reveal_strlit("5");
        reveal_strlit("6");
        reveal_strlit("7");
        reveal_strlit("8");
        reveal_strlit("9");
    }
    match d {
        0 => out.append("0"),
        1 => out.append("1"),
        2 => out.append("2"),
        3 => out.append("3"),
        4 => out.append("4"),
        5 => out.append("5"),
        6 => out.append("6"),
        7 => out.append("7"),
        8 => out.append("8"),
        _ => out.append("9"),
    }
    proof {
        assert(final(out)@ =~= old(out)@.push(digit_char(d as nat)));
    }
}

/// Appends the decimal digits of `v`, most significant first.
fn push_decimal(v: u64, out: &mut String)
    ensures
        final(out)@ == old(out)@ + dec_digits(v as nat),
    decreases v,
{
    if v >= 10 {
        push_decimal(v / 10, out);
    }
    push_digit_char(v % 10, out);
    proof {
        assert(final(out)@ =~= old(out)@ + dec_digits(v as nat));
    }
}

/// The decimal string of an unsigned value.
pub fn u64_to_string(v: u64) -> (out: String)
    ensures
        out@ == dec_digits(v as nat),
{
    let mut out = String::new();
    push_decimal(v, &mut out);
    proof {
        assert(out@ =~= dec_digits(v as nat));
    }
    out
}

/// The decimal string of a signed value.
pub fn i64_to_string(v: i64) -> (out: String)
    ensures
        out@ == dec_string_i64(v as int),
{
    if v >= 0 {
        u64_to_string(v as u64)
    } else {
        // The magnitude of `v`, computed without overflowing `i64::MIN`.
        let magnitude: u64 = ((-(v + 1)) as u64) + 1;
        assert(magnitude as nat == (-(v as int)) as nat);
        let mut out = String::new();
        proof {
            reveal_strlit("-");
        }
        out.append("-");
        push_decimal(magnitude, &mut out);
        proof {
            assert(out@ =~= dec_string_i64(v as int));
        }
        out
    }
}

/// Whether a character is a decimal digit.
pub open spec fn is_digit(c: char) -> bool {
    '0' <= c && c <= '9'
}

/// The numeric value of one decimal digit character.
pub open spec fn digit_value(c: char) -> nat {
    ((c as int) - ('0' as int)) as nat
}

/// The value of a sequence of decimal digit characters, most significant
/// first.
pub open spec fn dec_value(s: Seq<char>) -> nat
    decreases s.len(),
{
    if s.len() == 0 {
        0
    } else {
        dec_value(s.drop_last()) * 10 + digit_value(s.last())
    }
}

/// Whether a string is a plain decimal index: nonempty, digits only.
pub open spec fn is_dec_index(s: Seq<char>) -> bool {
    s.len() > 0 && forall|i: int| 0 <= i < s.len() ==> is_digit(#[trigger] s[i])
}

/// Parses a plain decimal index: succeeds exactly on nonempty all-digit
/// strings whose value fits in `usize`, and returns that value.
pub fn parse_index(s: &str) -> (r: Option<usize>)
    ensures
        match r {
            Some(v) => is_dec_index(s@) && v as nat == dec_value(s@) && dec_value(s@)
                <= usize::MAX,
            None => !is_dec_index(s@) || dec_value(s@) > usize::MAX,
        },
{
    let n = s.unicode_len();
    if n == 0 {
        return None;
    }
    let mut value: usize = 0;
    let mut i: usize = 0;
    while i < n
        invariant
            0 < n == s@.len(),
            0 <= i <= n,
            forall|j: int| 0 <= j < i ==> is_digit(#[trigger] s@[j]),
            value as nat == dec_value(s@.take(i as int)),
        decreases n - i,
    {
        let c = s.get_char(i);
        if c < '0' || c > '9' {
            return None;
        }
        let d: usize = (c as u32 as usize) - 48;
        assert(d == digit_value(s@[i as int]));
        if value > (usize::MAX - d) / 10 {
            proof {
                lemma_dec_value_grows(s@, i as int + 1);
                assert(s@.take(i as int + 1).drop_last() =~= s@.take(i as int));
                assert(s@.take(i as int + 1).last() == s@[i as int]);
                assert(dec_value(s@.take(i as int + 1)) == value * 10 + d);
            }
            return None;
        }
        value = value * 10 + d;
        proof {
            assert(s@.take(i as int + 1).drop_last() =~= s@.take(i as int));
        }
        i = i + 1;
    }
    proof {
        assert(s@.take(n as int) =~= s@);
    }
    Some(value)
}

/// The value of a digit string never shrinks as more digits are taken.
proof fn lemma_dec_value_grows(s: Seq<char>, k: int)
    requires
        0 <= k <= s.len(),
    ensures
        dec_value(s.take(k)) <= dec_value(s),
    decreases s.len() - k,
{
    if k < s.len() {
        lemma_dec_value_grows(s, k + 1);
        assert(s.take(k + 1).drop_last() =~= s.take(k));
        assert(dec_value(s.take(k)) <= dec_value(s.take(k + 1)));
    } else {
        assert(s.take(k) =~= s);
    }
}

} // verus!
