//! Shares of a total, in thousandths of a percent.

use vstd::arithmetic::div_mod::{lemma_fundamental_div_mod, lemma_mod_bound};
use vstd::prelude::*;

verus! {

/// `part` as a percentage of `total`, in thousandths of a percent, rounded
/// to the nearest integer with halves rounded up; 0 when `total` is 0.
pub open spec fn share_thousandths(part: nat, total: nat) -> nat {
    if total == 0 {
        0
    } else {
        (200000 * part + total) / (2 * total)
    }
}

/// `part` as a percentage of `total`, rounded to three decimals and given
/// in thousandths: 19 of 24 bytes give 79167, that is 79.167 %. An empty
/// total gives 0, not an undefined value.
pub fn percent_thousandths(part: u64, total: u64) -> (r: u128)
    ensures
        r == share_thousandths(part as nat, total as nat),
        total > 0 ==> 2 * r * total <= 200000 * part + total,
        total > 0 ==> 200000 * part + total < 2 * (r + 1) * total,
        total > 0 && part <= total ==> r <= 100000,
{
    if total == 0 {
        0
    } else {
        let p = part as u128;
        let t = total as u128;
        assert(200000 * p + t <= 200001 * 0x1_0000_0000_0000_0000) by (nonlinear_arith)
            requires
                p < 0x1_0000_0000_0000_0000,
                t < 0x1_0000_0000_0000_0000,
        ;
        let r = (200000 * p + t) / (2 * t);
        proof {
            let a: int = 200000 * p + t;
            let b: int = 2 * t;
            lemma_fundamental_div_mod(a, b);
            lemma_mod_bound(a, b);
            assert(2 * r * t <= a && a < 2 * (r + 1) * t) by (nonlinear_arith)
                requires
                    a == b * r + a % b,
                    0 <= a % b < b,
                    b == 2 * t,
            ;
            if p <= t {
                assert(a < 200002 * t);
                assert(r <= 100000) by (nonlinear_arith)
                    requires
                        2 * r * t <= a,
                        a < 200002 * t,
                        t > 0,
                ;
            }
        }
        r
    }
}

/// The character of a decimal digit.
pub open spec fn digit_char(d: nat) -> char {
    if d == 0 {
        '0'
    } else if d == 1 {
        '1'
    } else if d == 2 {
        '2'
    } else if d == 3 {
        '3'
    } else if d == 4 {
        '4'
    } else if d == 5 {
        '5'
    } else if d == 6 {
        '6'
    } else if d == 7 {
        '7'
    } else if d == 8 {
        '8'
    } else {
        '9'
    }
}

/// The decimal digits of `n`, most significant first, without leading zeros.
pub open spec fn decimal(n: nat) -> Seq<char>
    decreases n,
{
    if n < 10 {
        seq![digit_char(n)]
    } else {
        decimal(n / 10).push(digit_char(n % 10))
    }
}

/// A number of thousandths written with three decimals and a percent
/// sign: 79167 is written `79.167 %`, 0 is written `0.000 %`.
pub open spec fn percent_text_of(t: nat) -> Seq<char> {
    let f = t % 1000;
    decimal(t / 1000) + seq!['.', digit_char(f / 100), digit_char((f / 10) % 10), digit_char(f % 10), ' ', '%']
}

fn digit_text(d: u128) -> (r: &'static str)
    requires
        d < 10,
    ensures
        r@ == seq![digit_char(d as nat)],
{
    proof {
        reveal_strlit("0");
        reveal_strlit("1");
        reveal_strlit("2");
        reveal_strlit("3");
        reveal_strlit("4");
        reveal_strlit("5");
        reveal_strlit("6");
        reveal_strlit("7");
        reveal_strlit("8");
        reveal_strlit("9");
    }
    if d == 0 {
        "0"
    } else if d == 1 {
        "1"
    } else if d == 2 {
        "2"
    } else if d == 3 {
        "3"
    } else if d == 4 {
        "4"
    } else if d == 5 {
        "5"
    } else if d == 6 {
        "6"
    } else if d == 7 {
        "7"
    } else if d == 8 {
        "8"
    } else {
        "9"
    }
}

fn push_decimal(s: &mut String, n: u128)
    ensures
        final(s)@ == old(s)@ + decimal(n as nat),
    decreases n,
{
    if n >= 10 {
        push_decimal(s, n / 10);
    }
    s.append(digit_text(n % 10));
    assert(s@ =~= old(s)@ + decimal(n as nat));
}

/// `part` as a percentage of `total`, written with three decimals and a
/// percent sign: 19 of 24 gives `79.167 %`, and an empty total `0.000 %`.
pub fn percent_text(part: u64, total: u64) -> (r: String)
    ensures
        r@ == percent_text_of(share_thousandths(part as nat, total as nat)),
{
    let t = percent_thousandths(part, total);
    let f = t % 1000;
    let mut s = String::new();
    push_decimal(&mut s, t / 1000);
    proof {
        reveal_strlit(".");
        reveal_strlit(" %");
    }
    s.append(".");
    s.append(digit_text(f / 100));
    s.append(digit_text((f / 10) % 10));
    s.append(digit_text(f % 10));
    s.append(" %");
    assert(s@ =~= percent_text_of(t as nat));
    s
}

} // verus!
