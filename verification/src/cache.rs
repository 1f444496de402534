//! The persisted prime-cache text.
//!
//! The cache artifact is a JSON array of unsigned integers whose first
//! element is the bound the sequence was generated for and whose remaining
//! elements are the primes.  Keying the text by the bound lets a reader
//! detect that a cache was written for a different bound and recompute
//! instead of trusting it.  The JSON encoding itself is delegated to
//! `serde_json` through trusted wrappers; everything around it is verified.

use vstd::prelude::*;

verus! {

/// The JSON text `serde_json` writes for a sequence of unsigned integers.
pub uninterp spec fn json_of(v: Seq<u64>) -> Seq<char>;

/// The sequence `serde_json` reads back from a text, when the text parses
/// as an array of unsigned integers.
pub uninterp spec fn json_parsed(s: Seq<char>) -> Option<Seq<u64>>;

/// Relies on `serde_json::to_string`: serializing a vector of integers is
/// deterministic and cannot fail, and `serde_json::from_str` reads the
/// serialized text back to an equal vector (serde's round-trip guarantee
/// for a plain sequence of integers).
#[verifier::external_body]
fn primes_to_json(v: &Vec<u64>) -> (r: String)
    ensures
        r@ == json_of(v@),
        json_parsed(r@) == Some(v@),
{
    serde_json::to_string(v).unwrap_or_default()
}

/// Relies on `serde_json::from_str`: parsing is a deterministic function of
/// the text, returning a vector exactly when the text is a JSON array of
/// unsigned integers in range.
#[verifier::external_body]
fn primes_from_json(s: &str) -> (r: Option<Vec<u64>>)
    ensures
        match r {
            Some(v) => json_parsed(s@) == Some(v@),
            None => json_parsed(s@) is None,
        },
{
    match serde_json::from_str::<Vec<u64>>(s) {
        Ok(v) => Some(v),
        Err(_) => None,
    }
}

/// What a cache text decodes to under a requested bound: the parsed
/// sequence's tail when the text parses and its head equals the bound,
/// nothing otherwise.
pub open spec fn cache_decoded(bound: u64, s: Seq<char>) -> Option<Seq<u64>> {
    match json_parsed(s) {
        Some(q) => if q.len() >= 1 && q[0] == bound {
            Some(q.skip(1))
        } else {
            None
        },
        None => None,
    }
}

/// The cache text for a prime sequence generated for `bound`.
pub fn encode_cache(bound: u64, primes: &Vec<u64>) -> (r: String)
    ensures
        r@ == json_of(seq![bound] + primes@),
        json_parsed(r@) == Some(seq![bound] + primes@),
        cache_decoded(bound, r@) == Some(primes@),
{
    let mut keyed: Vec<u64> = Vec::new();
    keyed.push(bound);
    let mut i: usize = 0;
    while i < primes.len()
        invariant
            i <= primes.len(),
            keyed@ == seq![bound] + primes@.take(i as int),
        decreases primes.len() - i,
    {
        keyed.push(primes[i]);
        proof {
            assert(keyed@ =~= seq![bound] + primes@.take(i + 1));
        }
        i = i + 1;
    }
    proof {
        assert(keyed@ =~= seq![bound] + primes@);
    }
    let text = primes_to_json(&keyed);
    proof {
        assert((seq![bound] + primes@).skip(1) =~= primes@);
    }
    text
}

/// Reads a cache text back for a requested bound, rejecting a text written
/// for any other bound.
pub fn decode_cache(bound: u64, text: &str) -> (r: Option<Vec<u64>>)
    ensures
        match r {
            Some(v) => cache_decoded(bound, text@) == Some(v@),
            None => cache_decoded(bound, text@) is None,
        },
{
    match primes_from_json(text) {
        None => None,
        Some(parsed) => {
            if parsed.len() == 0 {
                return None;
            }
            if parsed[0] != bound {
                return None;
            }
            let mut tail: Vec<u64> = Vec::new();
            let mut i: usize = 1;
            while i < parsed.len()
                invariant
                    1 <= i <= parsed@.len(),
                    tail@ == parsed@.subrange(1, i as int),
                decreases parsed.len() - i,
            {
                tail.push(parsed[i]);
                proof {
                    assert(tail@ =~= parsed@.subrange(1, i + 1));
                }
                i = i + 1;
            }
            proof {
                assert(tail@ =~= parsed@.skip(1));
            }
            Some(tail)
        },
    }
}

/// Writing a prime sequence to the cache text for a bound and reading it
/// back under the same bound yields the identical sequence.
pub fn cache_round_trip(bound: u64, primes: &Vec<u64>) -> (r: Option<Vec<u64>>)
    ensures
        r matches Some(v) && v@ == primes@,
{
    let text = encode_cache(bound, primes);
    decode_cache(bound, text.as_str())
}

/// A cache text written for one bound is rejected when read for another:
/// a stale cache is detected instead of silently reused.
pub fn cache_bound_mismatch(written: u64, requested: u64, primes: &Vec<u64>) -> (r: Option<
    Vec<u64>,
>)
    requires
        written != requested,
    ensures
        r is None,
{
    let text = encode_cache(written, primes);
    decode_cache(requested, text.as_str())
}

} // verus!
