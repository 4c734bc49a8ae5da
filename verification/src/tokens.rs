//! Tokens that are certain to be new: when a drawn token is already taken,
//! one not yet taken is picked from a fixed family of distinct tokens.
use vstd::prelude::*;

use crate::entries::{find_key, has_key};
use crate::game_state::{is_token, is_token_char};
use crate::text::string_from_chars;

verus! {

/// No list may have this many entries for a new token to be picked from the
/// fixed family: `2^60`, more entries than any memory holds.
pub open spec fn token_family_size() -> int {
    0x1000_0000_0000_0000
}

/// The character for the five-bit digit `d`: `a` to `z`, then `0` to `5`.
pub open spec fn token_char(d: u64) -> char {
    if d < 26 {
        (97 + d) as char
    } else {
        (22 + d) as char
    }
}

/// Digit `i` (five bits) of `k`.
pub open spec fn token_digit(k: u64, i: int) -> u64 {
    (k >> ((5 * i) as u64)) & 31
}

/// Member `k` of the family: twelve characters, the five-bit digits of `k`
/// from the lowest one up.
pub open spec fn family_token(k: u64) -> Seq<char> {
    Seq::new(12, |i: int| token_char(token_digit(k, i)))
}

proof fn lemma_digit_small(k: u64, s: u64)
    ensures
        (k >> s) & 31 < 32,
{
    assert((k >> s) & 31 < 32) by (bit_vector);
}

proof fn lemma_token_char(d: u64, e: u64)
    requires
        d < 32,
        e < 32,
    ensures
        is_token_char(token_char(d)),
        token_char(d) == token_char(e) ==> d == e,
{
}

proof fn lemma_digits_determine(a: u64, b: u64)
    by (bit_vector)
    requires
        a < 0x1000_0000_0000_0000u64,
        b < 0x1000_0000_0000_0000u64,
        (a >> 0u64) & 31 == (b >> 0u64) & 31,
        (a >> 5u64) & 31 == (b >> 5u64) & 31,
        (a >> 10u64) & 31 == (b >> 10u64) & 31,
        (a >> 15u64) & 31 == (b >> 15u64) & 31,
        (a >> 20u64) & 31 == (b >> 20u64) & 31,
        (a >> 25u64) & 31 == (b >> 25u64) & 31,
        (a >> 30u64) & 31 == (b >> 30u64) & 31,
        (a >> 35u64) & 31 == (b >> 35u64) & 31,
        (a >> 40u64) & 31 == (b >> 40u64) & 31,
        (a >> 45u64) & 31 == (b >> 45u64) & 31,
        (a >> 50u64) & 31 == (b >> 50u64) & 31,
        (a >> 55u64) & 31 == (b >> 55u64) & 31,
    ensures
        a == b,
{
}

/// Every member of the family is a token, and different members differ.
pub proof fn lemma_family_token(a: u64, b: u64)
    requires
        a < token_family_size(),
        b < token_family_size(),
    ensures
        is_token(family_token(a)),
        family_token(a) == family_token(b) ==> a == b,
{
    assert forall|i: int| 0 <= i < 12 implies is_token_char(#[trigger] family_token(a)[i]) by {
        lemma_digit_small(a, (5 * i) as u64);
        lemma_token_char(token_digit(a, i), 0);
    }
    if family_token(a) == family_token(b) {
        assert forall|i: int| 0 <= i < 12 implies token_digit(a, i) == token_digit(b, i) by {
            lemma_digit_small(a, (5 * i) as u64);
            lemma_digit_small(b, (5 * i) as u64);
            assert(family_token(a)[i] == family_token(b)[i]);
            lemma_token_char(token_digit(a, i), token_digit(b, i));
        }
        assert(token_digit(a, 0) == token_digit(b, 0));
        assert(token_digit(a, 1) == token_digit(b, 1));
        assert(token_digit(a, 2) == token_digit(b, 2));
        assert(token_digit(a, 3) == token_digit(b, 3));
        assert(token_digit(a, 4) == token_digit(b, 4));
        assert(token_digit(a, 5) == token_digit(b, 5));
        assert(token_digit(a, 6) == token_digit(b, 6));
        assert(token_digit(a, 7) == token_digit(b, 7));
        assert(token_digit(a, 8) == token_digit(b, 8));
        assert(token_digit(a, 9) == token_digit(b, 9));
        assert(token_digit(a, 10) == token_digit(b, 10));
        assert(token_digit(a, 11) == token_digit(b, 11));
        lemma_digits_determine(a, b);
    }
}

/// Member `k` of the family.
fn family_token_of(k: u64) -> (t: String)
    requires
        k < token_family_size(),
    ensures
        t@ == family_token(k),
{
    let mut chars: Vec<char> = Vec::new();
    let mut i: u64 = 0;
    while i < 12
        invariant
            i <= 12,
            chars@.len() == i,
            forall|j: int| 0 <= j < i ==> #[trigger] chars@[j] == token_char(token_digit(k, j)),
        decreases 12 - i,
    {
        let d: u64 = (k >> (5 * i)) & 31;
        proof {
            lemma_digit_small(k, (5 * i) as u64);
            assert(d == token_digit(k, i as int));
        }
        let c: char = if d < 26 {
            ((97 + d) as u8) as char
        } else {
            ((22 + d) as u8) as char
        };
        chars.push(c);
        i += 1;
    }
    assert(chars@ =~= family_token(k));
    string_from_chars(&chars)
}

/// Among the first `n + 1` members of the family, one is not a key of a
/// list of `n` entries.
proof fn lemma_family_not_all_taken<V>(entries: Seq<(String, V)>, n: u64)
    requires
        n as int == entries.len(),
        n < token_family_size(),
    ensures
        exists|j: u64| j <= n && !has_key(entries, #[trigger] family_token(j)),
{
    if forall|j: u64| j <= n ==> has_key(entries, #[trigger] family_token(j)) {
        lemma_all_taken_impossible(entries, n);
    }
}

proof fn lemma_all_taken_impossible<V>(entries: Seq<(String, V)>, n: u64)
    requires
        n as int == entries.len(),
        n < token_family_size(),
        forall|j: u64| j <= n ==> has_key(entries, #[trigger] family_token(j)),
    ensures
        n + 1 <= n,
{
    broadcast use vstd::seq_lib::seq_to_set_is_finite;

    let cands = Seq::new((n + 1) as nat, |j: int| family_token(j as u64));
    let keys = entries.map_values(|e: (String, V)| e.0@);
    assert(cands.no_duplicates()) by {
        assert forall|i: int, j: int| 0 <= i < cands.len() && 0 <= j < cands.len() && i != j implies cands[i]
            != cands[j] by {
            lemma_family_token(i as u64, j as u64);
        }
    }
    cands.unique_seq_to_set();
    keys.lemma_cardinality_of_set();
    assert(cands.to_set().subset_of(keys.to_set())) by {
        assert forall|x: Seq<char>| cands.to_set().contains(x) implies keys.to_set().contains(x) by {
            let j = choose|j: int| 0 <= j < cands.len() && cands[j] == x;
            assert(has_key(entries, family_token(j as u64)));
            let i = choose|i: int| 0 <= i < entries.len() && #[trigger] entries[i].0@ == family_token(
                j as u64,
            );
            assert(keys[i] == x);
        }
    }
    vstd::set_lib::lemma_len_subset(cands.to_set(), keys.to_set());
}

/// A token that no entry of `entries` carries: the first member of the
/// family that is not taken.
pub fn fresh_token<V>(entries: &Vec<(String, V)>) -> (t: String)
    requires
        entries@.len() < token_family_size(),
    ensures
        is_token(t@),
        !has_key(entries@, t@),
{
    let n: u64 = entries.len() as u64;
    let mut k: u64 = 0;
    loop
        invariant
            k <= n,
            n as int == entries@.len(),
            n < token_family_size(),
            forall|j: u64| j < k ==> has_key(entries@, #[trigger] family_token(j)),
        decreases n - k,
    {
        let t = family_token_of(k);
        proof {
            lemma_family_token(k, k);
        }
        if find_key(entries, &t).is_none() {
            return t;
        }
        proof {
            if k == n {
                lemma_family_not_all_taken(entries@, n);
                let j = choose|j: u64| j <= n && !has_key(entries@, #[trigger] family_token(j));
                if j == k {
                    assert(family_token(j) == t@);
                }
            }
        }
        k += 1;
    }
}

} // verus!
