//! Parsing of price strings into exact rational values.
//!
//! A price is a decimal numeral: an optional leading minus sign, then
//! digits with at most one decimal point and at least one digit. The
//! parsed value is `num / den` with `den` the power of ten given by the
//! number of fractional digits, so "0.05" is exactly 5/100. A string
//! outside this grammar, or one whose numerator or denominator does not
//! fit in 64 bits, is rejected with `InvalidPrice`. Exponent notation
//! ("2.4e3") is deliberately not part of the grammar: exchange tickers
//! quote plain decimal numerals, and every accepted price is represented
//! exactly.

use vstd::prelude::*;
use crate::errors::EngineError;

verus! {

pub open spec fn is_digit_char(c: char) -> bool {
    48 <= c as u32 && c as u32 <= 57
}

pub open spec fn digit_val(c: char) -> nat {
    (c as u32 - 48) as nat
}

/// One left-to-right pass over the digits of a price body: `num` is the
/// value of the digits read so far, `den` the power of ten for the
/// fractional digits read so far.
pub open spec fn scan_body(s: Seq<char>, num: nat, seen: bool, in_frac: bool, den: nat) -> Option<(nat, nat)>
    decreases s.len(),
{
    if s.len() == 0 {
        if seen {
            Some((num, den))
        } else {
            None
        }
    } else if is_digit_char(s[0]) {
        scan_body(s.drop_first(), num * 10 + digit_val(s[0]), true, in_frac, if in_frac { den * 10 } else { den })
    } else if s[0] as u32 == 46 && !in_frac {
        scan_body(s.drop_first(), num, seen, true, den)
    } else {
        None
    }
}

/// The exact value of a price string: sign, numerator and denominator,
/// unbounded. `None` is a string outside the grammar.
pub open spec fn spec_parse_price(s: Seq<char>) -> Option<(bool, nat, nat)> {
    if s.len() >= 1 && s[0] as u32 == 45 {
        match scan_body(s.drop_first(), 0, false, false, 1) {
            Some(p) => Some((true, p.0, p.1)),
            None => None,
        }
    } else {
        match scan_body(s, 0, false, false, 1) {
            Some(p) => Some((false, p.0, p.1)),
            None => None,
        }
    }
}

/// A parsed price: the exact rational `num / den`, negated when `neg`.
#[derive(Clone, Copy, Debug, PartialEq, Eq, Structural)]
pub struct Price {
    pub neg: bool,
    pub num: u64,
    pub den: u64,
}

/// The running value and denominator never shrink as the scan proceeds.
proof fn lemma_scan_monotone(s: Seq<char>, num: nat, seen: bool, in_frac: bool, den: nat)
    requires
        scan_body(s, num, seen, in_frac, den) is Some,
    ensures
        scan_body(s, num, seen, in_frac, den)->Some_0.0 >= num,
        scan_body(s, num, seen, in_frac, den)->Some_0.1 >= den,
    decreases s.len(),
{
    if s.len() == 0 {
    } else if is_digit_char(s[0]) {
        lemma_scan_monotone(s.drop_first(), num * 10 + digit_val(s[0]), true, in_frac, if in_frac { den * 10 } else { den });
    } else if s[0] as u32 == 46 && !in_frac {
        lemma_scan_monotone(s.drop_first(), num, seen, true, den);
    }
}

/// Parses a price string into its exact rational value; fails with
/// `InvalidPrice` when the string is not a decimal numeral or its exact
/// numerator or denominator does not fit in 64 bits.
pub fn parse_price(s: &str) -> (r: Result<Price, EngineError>)
    ensures
        match r {
            Ok(p) => spec_parse_price(s@) == Some((p.neg, p.num as nat, p.den as nat)) && p.den >= 1,
            Err(e) => e == EngineError::InvalidPrice
                && match spec_parse_price(s@) {
                    None => true,
                    Some(v) => v.1 > u64::MAX || v.2 > u64::MAX,
                },
        },
{
    let n = s.unicode_len();
    let neg = n >= 1 && s.get_char(0) as u32 == 45;
    let start: usize = if neg { 1 } else { 0 };
    let ghost body: Seq<char> = s@.subrange(start as int, n as int);
    proof {
        if neg {
            assert(body =~= s@.drop_first());
        } else {
            assert(body =~= s@);
        }
    }
    let mut i: usize = start;
    let mut num: u64 = 0;
    let mut den: u64 = 1;
    let mut seen = false;
    let mut in_frac = false;
    while i < n
        invariant
            n == s@.len(),
            start <= i <= n,
            start == if neg { 1int } else { 0int },
            body == s@.subrange(start as int, n as int),
            den >= 1,
            scan_body(body, 0, false, false, 1) == scan_body(
                s@.subrange(i as int, n as int), num as nat, seen, in_frac, den as nat),
            spec_parse_price(s@) == match scan_body(body, 0, false, false, 1) {
                Some(p) => Some((neg, p.0, p.1)),
                None => None::<(bool, nat, nat)>,
            },
        decreases n - i,
    {
        let ghost rest = s@.subrange(i as int, n as int);
        proof {
            assert(rest[0] == s@[i as int]);
            assert(rest.drop_first() =~= s@.subrange(i + 1, n as int));
        }
        let c = s.get_char(i) as u32;
        if 48 <= c && c <= 57 {
            let d = (c - 48) as u64;
            if num > (u64::MAX - d) / 10 {
                proof {
                    let stepped = scan_body(rest.drop_first(), num as nat * 10 + digit_val(s@[i as int]), true, in_frac, if in_frac { den as nat * 10 } else { den as nat });
                    if stepped is Some {
                        lemma_scan_monotone(rest.drop_first(), num as nat * 10 + digit_val(s@[i as int]), true, in_frac, if in_frac { den as nat * 10 } else { den as nat });
                        assert(num as nat * 10 + digit_val(s@[i as int]) > u64::MAX);
                    }
                }
                return Err(EngineError::InvalidPrice);
            }
            num = num * 10 + d;
            if in_frac {
                if den > u64::MAX / 10 {
                    proof {
                        let stepped = scan_body(rest.drop_first(), num as nat, true, in_frac, den as nat * 10);
                        if stepped is Some {
                            lemma_scan_monotone(rest.drop_first(), num as nat, true, in_frac, den as nat * 10);
                            assert(den as nat * 10 > u64::MAX);
                        }
                    }
                    return Err(EngineError::InvalidPrice);
                }
                den = den * 10;
            }
            seen = true;
        } else if c == 46 && !in_frac {
            in_frac = true;
        } else {
            proof {
                assert(scan_body(rest, num as nat, seen, in_frac, den as nat) is None);
            }
            return Err(EngineError::InvalidPrice);
        }
        i = i + 1;
    }
    proof {
        assert(s@.subrange(n as int, n as int) =~= Seq::<char>::empty());
    }
    if seen {
        Ok(Price { neg, num, den })
    } else {
        Err(EngineError::InvalidPrice)
    }
}

} // verus!
