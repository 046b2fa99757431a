use crate::rational::{rational_wf, Rational};
use vstd::arithmetic::div_mod::{
    lemma_div_denominator, lemma_fundamental_div_mod, lemma_fundamental_div_mod_converse_div,
    lemma_fundamental_div_mod_converse_mod,
};
use vstd::prelude::*;
use vstd::string::StringExecFns;

verus! {

/// Round-half-even of `n / d` (with `d` positive) to the nearest whole
/// number: the banker's rounding used at currency boundaries.
pub open spec fn spec_round_half_even(n: int, d: int) -> int {
    let q = n / d;
    let r = n % d;
    if 2 * r < d {
        q
    } else if 2 * r > d {
        q + 1
    } else if q % 2 == 0 {
        q
    } else {
        q + 1
    }
}

/// The quantity in whole cents, rounded half-even; `None` exactly when the
/// rounded cent count is negative or does not fit the machine word. This is
/// the output boundary: the engine itself never rounds.
pub fn price_to_cents(quantity: &Rational) -> (r: Option<u64>)
    requires
        rational_wf(*quantity),
    ensures
        (match r {
            Some(c) => c as int == spec_round_half_even(quantity@.n * 100, quantity@.d),
            None => !(0 <= spec_round_half_even(quantity@.n * 100, quantity@.d)
                <= 0xffff_ffff_ffff_ffff),
        }),
{
    let num = quantity.numer();
    let den = quantity.denom();
    if num >= 0 {
        let n = (num as u128) * 100;
        let d = den as u128;
        let q = n / d;
        let rem = n % d;
        proof {
            assert(n as int == quantity@.n * 100);
            assert(d as int == quantity@.d);
        }
        let rounded = if 2 * rem < d {
            q
        } else if 2 * rem > d {
            q + 1
        } else if q % 2 == 0 {
            q
        } else {
            q + 1
        };
        if rounded > 0xffff_ffff_ffff_ffff {
            None
        } else {
            Some(rounded as u64)
        }
    } else {
        // a negative quantity can only round up to zero cents
        let m = ((-(num as i128)) as u128) * 100;
        let d = den as u128;
        proof {
            let mi = m as int;
            let di = d as int;
            assert(-mi == quantity@.n * 100);
            assert(di == quantity@.d);
            assert(mi >= 100);
            lemma_fundamental_div_mod(mi, di);
            let qq = mi / di;
            let rr = mi % di;
            if rr == 0 {
                assert((-qq) * di + 0 == -mi) by (nonlinear_arith)
                    requires
                        mi == qq * di + 0,
                ;
                lemma_fundamental_div_mod_converse_div(-mi, di, -qq, 0);
                lemma_fundamental_div_mod_converse_mod(-mi, di, -qq, 0);
                assert(qq >= 1) by (nonlinear_arith)
                    requires
                        mi == qq * di,
                        mi > 0,
                        di > 0,
                        qq >= 0,
                ;
            } else {
                assert((-qq - 1) * di + (di - rr) == -mi) by (nonlinear_arith)
                    requires
                        mi == qq * di + rr,
                ;
                lemma_fundamental_div_mod_converse_div(-mi, di, -qq - 1, di - rr);
                lemma_fundamental_div_mod_converse_mod(-mi, di, -qq - 1, di - rr);
            }
        }
        if 2 * m <= d {
            proof {
                let mi = m as int;
                let di = d as int;
                // the whole quantity is at most half a cent below zero
                assert(0 * di + mi == mi);
                lemma_fundamental_div_mod_converse_div(mi, di, 0, mi);
                lemma_fundamental_div_mod_converse_mod(mi, di, 0, mi);
                assert(spec_round_half_even(quantity@.n * 100, quantity@.d) == 0);
            }
            Some(0)
        } else {
            proof {
                assert(spec_round_half_even(quantity@.n * 100, quantity@.d) < 0);
            }
            None
        }
    }
}

/// The character for one decimal digit.
pub open spec fn spec_digit_char(d: nat) -> char {
    if d == 0 {
        '0'
    } else if d == 1 {
        '1'
    } else if d == 2 {
        '2'
    } else if d == 3 {
        '3'
    } else if d == 4 {
        '4'
    } else if d == 5 {
        '5'
    } else if d == 6 {
        '6'
    } else if d == 7 {
        '7'
    } else if d == 8 {
        '8'
    } else {
        '9'
    }
}

/// The decimal digits of `n`, most significant first; zero is one digit.
pub open spec fn spec_digits(n: nat) -> Seq<char>
    decreases n,
{
    if n < 10 {
        seq![spec_digit_char(n)]
    } else {
        spec_digits(n / 10).push(spec_digit_char(n % 10))
    }
}

/// Digits grouped in threes from the right, separated by commas, as US
/// currency amounts are written.
pub open spec fn spec_grouped(ds: Seq<char>) -> Seq<char>
    decreases ds.len(),
{
    if ds.len() <= 3 {
        ds
    } else {
        spec_grouped(ds.take(ds.len() - 3)) + seq![','] + ds.skip(ds.len() - 3)
    }
}

/// How many digits a number has, by size.
proof fn lemma_digits_len(n: nat)
    ensures
        n < 10 ==> spec_digits(n).len() == 1,
        n < 100 ==> spec_digits(n).len() <= 2,
        n < 1000 ==> spec_digits(n).len() <= 3,
        n >= 10 ==> spec_digits(n).len() >= 2,
        n >= 100 ==> spec_digits(n).len() >= 3,
        n >= 1000 ==> spec_digits(n).len() >= 4,
        spec_digits(n).len() >= 1,
    decreases n,
{
    if n >= 10 {
        lemma_digits_len(n / 10);
        assert(n < 100 ==> n / 10 < 10) by (nonlinear_arith);
        assert(n < 1000 ==> n / 10 < 100) by (nonlinear_arith);
        assert(n >= 100 ==> n / 10 >= 10) by (nonlinear_arith);
        assert(n >= 1000 ==> n / 10 >= 100) by (nonlinear_arith);
    }
}

/// Peeling the last three digits peels a factor of a thousand.
proof fn lemma_digits_peel3(n: nat)
    requires
        n >= 1000,
    ensures
        spec_digits(n) == spec_digits(n / 1000) + seq![
            spec_digit_char((n / 100) % 10),
            spec_digit_char((n / 10) % 10),
            spec_digit_char(n % 10),
        ],
{
    lemma_div_denominator(n as int, 10, 10);
    lemma_div_denominator(n as int, 100, 10);
    assert(n / 10 / 10 == n / 100);
    assert(n / 100 / 10 == n / 1000);
    assert(n / 10 >= 100 && n / 100 >= 10) by (nonlinear_arith)
        requires
            n >= 1000,
            n / 10 / 10 == n / 100,
            n / 100 / 10 == n / 1000,
    ;
    assert(spec_digits(n) == spec_digits(n / 10).push(spec_digit_char(n % 10)));
    assert(spec_digits(n / 10) == spec_digits(n / 100).push(spec_digit_char((n / 10) % 10)));
    assert(spec_digits(n / 100) == spec_digits(n / 1000).push(spec_digit_char((n / 100) % 10)));
    assert(spec_digits(n) =~= spec_digits(n / 1000) + seq![
        spec_digit_char((n / 100) % 10),
        spec_digit_char((n / 10) % 10),
        spec_digit_char(n % 10),
    ]);
}

/// Append the character of one digit.
fn push_digit(s: &mut String, d: u64)
    requires
        d < 10,
    ensures
        final(s)@ == old(s)@.push(spec_digit_char(d as nat)),
{
    if d == 0 {
        s.append("0");
        proof {
            reveal_strlit("0");
            assert(s@ =~= old(s)@.push('0'));
        }
    } else if d == 1 {
        s.append("1");
        proof {
            reveal_strlit("1");
            assert(s@ =~= old(s)@.push('1'));
        }
    } else if d == 2 {
        s.append("2");
        proof {
            reveal_strlit("2");
            assert(s@ =~= old(s)@.push('2'));
        }
    } else if d == 3 {
        s.append("3");
        proof {
            reveal_strlit("3");
            assert(s@ =~= old(s)@.push('3'));
        }
    } else if d == 4 {
        s.append("4");
        proof {
            reveal_strlit("4");
            assert(s@ =~= old(s)@.push('4'));
        }
    } else if d == 5 {
        s.append("5");
        proof {
            reveal_strlit("5");
            assert(s@ =~= old(s)@.push('5'));
        }
    } else if d == 6 {
        s.append("6");
        proof {
            reveal_strlit("6");
            assert(s@ =~= old(s)@.push('6'));
        }
    } else if d == 7 {
        s.append("7");
        proof {
            reveal_strlit("7");
            assert(s@ =~= old(s)@.push('7'));
        }
    } else if d == 8 {
        s.append("8");
        proof {
            reveal_strlit("8");
            assert(s@ =~= old(s)@.push('8'));
        }
    } else {
        s.append("9");
        proof {
            reveal_strlit("9");
            assert(s@ =~= old(s)@.push('9'));
        }
    }
}

/// The decimal digits of `n`, as text.
fn digits_string(n: u64) -> (r: String)
    ensures
        r@ == spec_digits(n as nat),
    decreases n,
{
    if n < 10 {
        let mut s = String::new();
        push_digit(&mut s, n);
        proof {
            assert(s@ =~= seq![spec_digit_char(n as nat)]);
        }
        s
    } else {
        let mut s = digits_string(n / 10);
        push_digit(&mut s, n % 10);
        s
    }
}

/// The decimal digits of `n` grouped in threes from the right.
fn grouped_digits(n: u64) -> (r: String)
    ensures
        r@ == spec_grouped(spec_digits(n as nat)),
    decreases n,
{
    if n < 1000 {
        proof {
            lemma_digits_len(n as nat);
        }
        digits_string(n)
    } else {
        let mut s = grouped_digits(n / 1000);
        s.append(",");
        let ghost mid = s@;
        push_digit(&mut s, (n / 100) % 10);
        push_digit(&mut s, (n / 10) % 10);
        push_digit(&mut s, n % 10);
        proof {
            reveal_strlit(",");
            lemma_digits_len(n as nat);
            lemma_digits_peel3(n as nat);
            let ds = spec_digits(n as nat);
            let head = spec_digits((n / 1000) as nat);
            assert(ds.take(ds.len() - 3) =~= head);
            assert(ds.skip(ds.len() - 3) =~= seq![
                spec_digit_char(((n / 100) % 10) as nat),
                spec_digit_char(((n / 10) % 10) as nat),
                spec_digit_char((n % 10) as nat),
            ]);
            assert(s@ =~= spec_grouped(head) + seq![','] + ds.skip(ds.len() - 3));
        }
        s
    }
}

/// Rounding half-even is symmetric about zero.
proof fn lemma_rhe_neg(a: int, d: int)
    requires
        a >= 0,
        d > 0,
    ensures
        spec_round_half_even(-a, d) == -spec_round_half_even(a, d),
{
    let q = a / d;
    let r = a % d;
    lemma_fundamental_div_mod(a, d);
    if r == 0 {
        assert((-q) * d + 0 == -a) by (nonlinear_arith)
            requires
                a == q * d + 0,
        ;
        lemma_fundamental_div_mod_converse_div(-a, d, -q, 0);
        lemma_fundamental_div_mod_converse_mod(-a, d, -q, 0);
    } else {
        assert((-q - 1) * d + (d - r) == -a) by (nonlinear_arith)
            requires
                a == q * d + r,
        ;
        lemma_fundamental_div_mod_converse_div(-a, d, -q - 1, d - r);
        lemma_fundamental_div_mod_converse_mod(-a, d, -q - 1, d - r);
        if 2 * r == d {
            // the tie rounds to the even neighbour on either side of zero
            if q % 2 == 0 {
                assert((-q - 1) % 2 == 1) by {
                    lemma_fundamental_div_mod(q, 2);
                    assert((-(q / 2) - 1) * 2 + 1 == -q - 1) by (nonlinear_arith)
                        requires
                            q == 2 * (q / 2),
                    ;
                    lemma_fundamental_div_mod_converse_mod(-q - 1, 2, -(q / 2) - 1, 1);
                }
            } else {
                assert((-q - 1) % 2 == 0) by {
                    lemma_fundamental_div_mod(q, 2);
                    assert((-(q / 2) - 1) * 2 + 0 == -q - 1) by (nonlinear_arith)
                        requires
                            q == 2 * (q / 2) + 1,
                    ;
                    lemma_fundamental_div_mod_converse_mod(-q - 1, 2, -(q / 2) - 1, 0);
                }
            }
        }
    }
}

/// The quantity as whole US dollars, rounded half-even, with a dollar sign
/// and the digits grouped in threes by commas; a negative amount carries a
/// minus sign and no grouping, as the plain fallback rendering does.
pub fn format_dollars(quantity: &Rational) -> (r: String)
    requires
        rational_wf(*quantity),
    ensures
        spec_round_half_even(quantity@.n, quantity@.d) >= 0 ==> r@ == seq!['$'] + spec_grouped(
            spec_digits(spec_round_half_even(quantity@.n, quantity@.d) as nat),
        ),
        spec_round_half_even(quantity@.n, quantity@.d) < 0 ==> r@ == seq!['$', '-']
            + spec_digits((-spec_round_half_even(quantity@.n, quantity@.d)) as nat),
{
    let num = quantity.numer();
    let den = quantity.denom();
    let neg = num < 0;
    let m: u128 = if neg {
        (-(num as i128)) as u128
    } else {
        num as u128
    };
    let d = den as u128;
    let q = m / d;
    let rem = m % d;
    let rounded = if 2 * rem < d {
        q
    } else if 2 * rem > d {
        q + 1
    } else if q % 2 == 0 {
        q
    } else {
        q + 1
    };
    proof {
        assert(rounded as int == spec_round_half_even(m as int, d as int));
        if neg {
            lemma_rhe_neg(m as int, d as int);
            assert(m as int == -(quantity@.n));
            assert(spec_round_half_even(quantity@.n, quantity@.d) == -(rounded as int));
        }
        lemma_fundamental_div_mod(m as int, d as int);
        assert(q * d <= m) by (nonlinear_arith)
            requires
                m as int == (d as int) * (q as int) + (m as int % d as int),
                m as int % d as int >= 0,
                q == m as int / d as int,
        ;
        assert(rounded <= m + 1);
    }
    if neg && rounded > 0 {
        let mut s = String::new();
        s.append("$-");
        let tail = digits_string(rounded as u64);
        s.append(tail.as_str());
        proof {
            reveal_strlit("$-");
            assert(s@ =~= seq!['$', '-'] + spec_digits(rounded as nat));
        }
        s
    } else {
        let mut s = String::new();
        s.append("$");
        let tail = grouped_digits(rounded as u64);
        s.append(tail.as_str());
        proof {
            reveal_strlit("$");
            assert(s@ =~= seq!['$'] + spec_grouped(spec_digits(rounded as nat)));
            if neg {
                assert(rounded == 0);
                assert(spec_round_half_even(quantity@.n, quantity@.d) == 0);
            }
        }
        s
    }
}

} // verus!
