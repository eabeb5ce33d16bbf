//! Synthetic match identifiers: `game_<N>` where N is the number of matches
//! already recorded when the match is created.

use vstd::prelude::*;
use vstd::string::StrSliceExecFns;
use vstd::string::StringExecFns;

verus! {

/// The character of a single decimal digit.
pub open spec fn digit_char(d: nat) -> char {
    if d == 0 {
        '0'
    } else if d == 1 {
        '1'
    } else if d == 2 {
        '2'
    } else if d == 3 {
        '3'
    } else if d == 4 {
        '4'
    } else if d == 5 {
        '5'
    } else if d == 6 {
        '6'
    } else if d == 7 {
        '7'
    } else if d == 8 {
        '8'
    } else {
        '9'
    }
}

/// The decimal digits of `n`, most significant first, no leading zeroes
/// (a single zero for `n == 0`).
pub open spec fn spec_digits(n: nat) -> Seq<char>
    decreases n,
{
    if n < 10 {
        seq![digit_char(n)]
    } else {
        spec_digits(n / 10).push(digit_char(n % 10))
    }
}

/// The synthetic id of the match created when `n` matches already exist.
pub open spec fn spec_game_id(n: nat) -> Seq<char> {
    "game_"@ + spec_digits(n)
}

/// Append the decimal digits of `n` to the string.
fn append_digits(s: &mut String, n: u64)
    ensures
        final(s)@ == old(s)@ + spec_digits(n as nat),
    decreases n,
{
    if n >= 10 {
        append_digits(s, n / 10);
    }
    let d = (n % 10) as usize;
    proof {
        reveal_strlit("0123456789");
    }
    let c = "0123456789".substring_char(d, d + 1);
    proof {
        assert(c@ =~= seq![digit_char((n % 10) as nat)]);
    }
    s.append(c);
    proof {
        if n >= 10 {
            assert(old(s)@ + spec_digits((n / 10) as nat) + c@ =~= old(s)@ + spec_digits(
                n as nat,
            ));
        } else {
            assert(old(s)@ + c@ =~= old(s)@ + spec_digits(n as nat));
        }
    }
}

/// The id string `game_<n>`.
pub fn game_id(n: usize) -> (r: String)
    ensures
        r@ == spec_game_id(n as nat),
{
    let mut s = String::from_str("game_");
    append_digits(&mut s, n as u64);
    s
}

} // verus!
