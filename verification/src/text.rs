//! Text building for diagnostic output.
//!
//! The decimal rendering of an integer is pinned down by spec functions
//! and produced by verified digit extraction; only appending one string
//! to another is trusted.

use vstd::prelude::*;

verus! {

/// The character for one decimal digit.
pub open spec fn spec_digit_char(d: nat) -> char {
    if d == 0 {
        '0'
    } else if d == 1 {
        '1'
    } else if d == 2 {
        '2'
    } else if d == 3 {
        '3'
    } else if d == 4 {
        '4'
    } else if d == 5 {
        '5'
    } else if d == 6 {
        '6'
    } else if d == 7 {
        '7'
    } else if d == 8 {
        '8'
    } else {
        '9'
    }
}

/// The decimal rendering of a non-negative integer, most significant
/// digit first.
pub open spec fn spec_decimal_nat(x: nat) -> Seq<char>
    decreases x,
{
    if x < 10 {
        seq![spec_digit_char(x)]
    } else {
        spec_decimal_nat(x / 10).push(spec_digit_char(x % 10))
    }
}

/// The decimal rendering of a signed integer: a leading minus sign for
/// negative values.
pub open spec fn spec_decimal_int(x: int) -> Seq<char> {
    if x < 0 {
        seq!['-'] + spec_decimal_nat((-x) as nat)
    } else {
        spec_decimal_nat(x as nat)
    }
}

/// One decimal digit as a printable slice.
fn digit_str(d: u64) -> (r: &'static str)
    requires
        d < 10,
    ensures
        r@ == seq![spec_digit_char(d as nat)],
{
    proof {
        reveal_strlit("0");
        reveal_strlit("1");
        reveal_strlit("2");
        reveal_strlit("3");
        reveal_strlit("4");
        reveal_strlit("5");
        reveal_strlit("6");
        reveal_strlit("7");
        reveal_strlit("8");
        reveal_strlit("9");
    }
    match d {
        0 => "0",
        1 => "1",
        2 => "2",
        3 => "3",
        4 => "4",
        5 => "5",
        6 => "6",
        7 => "7",
        8 => "8",
        _ => "9",
    }
}

/// Renders a non-negative integer in decimal, least significant digit
/// extracted first.
pub(crate) fn fmt_u64(x: u64) -> (r: String)
    ensures
        r@ == spec_decimal_nat(x as nat),
{
    let mut acc: String = digit_str(x % 10).to_owned();
    let mut cur: u64 = x / 10;
    proof {
        if x < 10 {
            assert(x % 10 == x);
        } else {
            assert(spec_decimal_nat(x as nat) == spec_decimal_nat((x as nat) / 10).push(
                spec_digit_char((x as nat) % 10),
            ));
            assert(spec_decimal_nat((x as nat) / 10).push(spec_digit_char((x as nat) % 10))
                =~= spec_decimal_nat(cur as nat) + acc@);
        }
    }
    while cur > 0
        invariant
            cur == 0 ==> acc@ == spec_decimal_nat(x as nat),
            cur > 0 ==> spec_decimal_nat(x as nat) == spec_decimal_nat(cur as nat) + acc@,
        decreases cur,
    {
        let ghost pre = acc@;
        let ghost pcur = cur;
        acc = strcat(digit_str(cur % 10).to_owned(), acc.as_str());
        cur = cur / 10;
        proof {
            assert(acc@ == seq![spec_digit_char((pcur % 10) as nat)] + pre);
            if pcur < 10 {
                assert(cur == 0);
                assert(spec_decimal_nat(pcur as nat) =~= seq![
                    spec_digit_char((pcur % 10) as nat)
                ]);
                assert(acc@ =~= spec_decimal_nat(pcur as nat) + pre);
                assert(acc@ =~= spec_decimal_nat(x as nat));
            } else {
                assert(cur > 0);
                assert(spec_decimal_nat(pcur as nat) == spec_decimal_nat((pcur as nat)
                    / 10).push(spec_digit_char((pcur as nat) % 10)));
                assert(spec_decimal_nat(pcur as nat) =~= spec_decimal_nat(cur as nat) + seq![
                    spec_digit_char((pcur % 10) as nat)
                ]);
                assert(spec_decimal_nat(x as nat) =~= spec_decimal_nat(cur as nat) + acc@);
            }
        }
    }
    acc
}

/// Renders a signed integer in decimal, with a leading minus sign when
/// negative.
pub(crate) fn fmt_i64(x: i64) -> (r: String)
    ensures
        r@ == spec_decimal_int(x as int),
{
    if x >= 0 {
        fmt_u64(x as u64)
    } else {
        let mag: u64 = if x == i64::MIN {
            9223372036854775808u64
        } else {
            (-x) as u64
        };
        proof {
            assert(mag as int == -(x as int));
        }
        let digits = fmt_u64(mag);
        let r = strcat("-".to_owned(), digits.as_str());
        proof {
            reveal_strlit("-");
            assert("-"@ =~= seq!['-']);
            assert(r@ =~= spec_decimal_int(x as int));
        }
        r
    }
}

/// Relies on the `Add<&str>` impl for `String`: appends `b` to `a`.
#[verifier::external_body]
pub(crate) fn strcat(a: String, b: &str) -> (r: String)
    ensures
        r@ == a@ + b@,
{
    a + b
}

} // verus!
