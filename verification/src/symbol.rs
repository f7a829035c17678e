//! Symbol normalization: splitting an exchange pair symbol such as
//! "DOGEUSDT" into its base and quote currencies by matching the longest
//! configured quote-currency suffix.

use vstd::prelude::*;
use crate::errors::EngineError;

verus! {

/// The character sequences of a list of currency codes.
pub open spec fn code_views(quotes: Seq<String>) -> Seq<Seq<char>> {
    quotes.map(|i: int, q: String| q@)
}

/// The longest configured quote code of length at most `l` that is a suffix
/// of `s`, searching lengths `l, l-1, ..., 1`.
pub open spec fn quote_suffix_at_len(s: Seq<char>, quotes: Seq<Seq<char>>, l: nat) -> Option<Seq<char>>
    decreases l,
{
    if l == 0 {
        None
    } else if l <= s.len() && quotes.contains(s.subrange(s.len() - l, s.len() as int)) {
        Some(s.subrange(s.len() - l, s.len() as int))
    } else {
        quote_suffix_at_len(s, quotes, (l - 1) as nat)
    }
}

/// What normalization returns: the longest configured quote suffix is split
/// off, and the remaining base must be non-empty and different from the
/// quote. `None` is the `InvalidSymbol` case.
pub open spec fn spec_normalize(s: Seq<char>, quotes: Seq<Seq<char>>) -> Option<(Seq<char>, Seq<char>)> {
    match quote_suffix_at_len(s, quotes, s.len()) {
        None => None,
        Some(q) => {
            let b = s.subrange(0, s.len() - q.len());
            if b.len() >= 1 && b != q {
                Some((b, q))
            } else {
                None
            }
        },
    }
}

proof fn lemma_suffix_at_len_sound(s: Seq<char>, qs: Seq<Seq<char>>, l: nat)
    requires
        quote_suffix_at_len(s, qs, l) is Some,
    ensures
        qs.contains(quote_suffix_at_len(s, qs, l)->Some_0),
        quote_suffix_at_len(s, qs, l)->Some_0.len() <= s.len(),
        quote_suffix_at_len(s, qs, l)->Some_0
            == s.subrange(s.len() - quote_suffix_at_len(s, qs, l)->Some_0.len(), s.len() as int),
    decreases l,
{
    if l == 0 {
    } else if l <= s.len() && qs.contains(s.subrange(s.len() - l, s.len() as int)) {
        assert(s.subrange(s.len() - l, s.len() as int).len() == l);
    } else {
        lemma_suffix_at_len_sound(s, qs, (l - 1) as nat);
    }
}

/// Law: whatever normalization returns is a genuine split of the symbol —
/// the quote is one of the configured codes and a suffix of the symbol,
/// the base is the non-empty remaining prefix, and base differs from quote.
pub proof fn lemma_normalize_sound(s: Seq<char>, qs: Seq<Seq<char>>, b: Seq<char>, q: Seq<char>)
    requires
        spec_normalize(s, qs) == Some((b, q)),
    ensures
        qs.contains(q),
        b.len() >= 1,
        b != q,
        s == b + q,
{
    lemma_suffix_at_len_sound(s, qs, s.len());
    assert(s =~= b + q);
}

/// Character-by-character string equality.
pub(crate) fn str_eq(a: &str, b: &str) -> (r: bool)
    ensures
        r == (a@ == b@),
{
    let alen = a.unicode_len();
    let blen = b.unicode_len();
    if alen != blen {
        return false;
    }
    let mut i: usize = 0;
    while i < alen
        invariant
            alen == a@.len(),
            alen == b@.len(),
            i <= alen,
            forall|j: int| 0 <= j < i ==> a@[j] == b@[j],
        decreases alen - i,
    {
        if a.get_char(i) != b.get_char(i) {
            return false;
        }
        i = i + 1;
    }
    proof {
        assert(a@ =~= b@);
    }
    true
}

/// Splits a pair symbol into `(base, quote)` by the longest configured
/// quote-currency suffix; fails with `InvalidSymbol` when no configured
/// quote is a suffix, the base would be empty, or base equals quote.
pub fn extract_currency_pair(symbol: &str, quotes: &Vec<String>) -> (r: Result<(String, String), EngineError>)
    ensures
        match r {
            Ok(p) => spec_normalize(symbol@, code_views(quotes@)) == Some((p.0@, p.1@)),
            Err(e) => e == EngineError::InvalidSymbol
                && spec_normalize(symbol@, code_views(quotes@)) is None,
        },
{
    let ghost qs: Seq<Seq<char>> = code_views(quotes@);
    let n = symbol.unicode_len();
    let mut l: usize = n;
    while l > 0
        invariant
            n == symbol@.len(),
            l <= n,
            quote_suffix_at_len(symbol@, qs, n as nat) == quote_suffix_at_len(symbol@, qs, l as nat),
            qs == code_views(quotes@),
        decreases l,
    {
        let cand = symbol.substring_char(n - l, n);
        let mut i: usize = 0;
        let mut found = false;
        while i < quotes.len()
            invariant
                !found ==> forall|j: int| 0 <= j < i ==> qs[j] != cand@,
                found ==> qs.contains(cand@),
                i <= quotes.len(),
                qs == code_views(quotes@),
                cand@ == symbol@.subrange(n - l, n as int),
            decreases quotes.len() - i,
        {
            if str_eq(cand, quotes[i].as_str()) {
                found = true;
                proof {
                    assert(qs[i as int] == cand@);
                }
            }
            i = i + 1;
        }
        if found {
            proof {
                assert(quote_suffix_at_len(symbol@, qs, l as nat) == Some(cand@));
            }
            if n - l >= 1 {
                let base = symbol.substring_char(0, n - l);
                if !str_eq(base, cand) {
                    proof {
                        assert(base@ == symbol@.subrange(0, symbol@.len() - cand@.len()));
                    }
                    return Ok((base.to_owned(), cand.to_owned()));
                }
            }
            return Err(EngineError::InvalidSymbol);
        }
        proof {
            assert(!qs.contains(symbol@.subrange(n - l, n as int))) by {
                if qs.contains(symbol@.subrange(n - l, n as int)) {
                    let j = choose|j: int| 0 <= j < qs.len() && qs[j] == symbol@.subrange(n - l, n as int);
                    assert(qs[j] != cand@);
                }
            }
        }
        l = l - 1;
    }
    Err(EngineError::InvalidSymbol)
}

} // verus!
