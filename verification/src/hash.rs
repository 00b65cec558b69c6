//! Content addressing for derivations.
//!
//! A derivation's identity is a digest of its name and its fully resolved
//! script text, formatted as `"<digest>-<name>"` for readability.  Because a
//! resolved script embeds the hashes of the derivations it depends on, any
//! upstream change propagates into every downstream hash.

use vstd::prelude::*;

verus! {

/// 64-bit FNV-1a offset basis.
pub const FNV_OFFSET: u64 = 0xcbf29ce484222325;

/// 64-bit FNV-1a prime.
pub const FNV_PRIME: u64 = 0x100000001b3;

/// One FNV-1a round: fold the next character into the running digest.
pub open spec fn fnv64_step(h: u64, c: char) -> u64 {
    (h ^ (c as u64)).wrapping_mul(FNV_PRIME)
}

/// Digest of the characters of `s`, folded left-to-right onto `h`.
pub open spec fn fnv64_from(h: u64, s: Seq<char>) -> u64
    decreases s.len(),
{
    if s.len() == 0 {
        h
    } else {
        fnv64_from(fnv64_step(h, s[0]), s.drop_first())
    }
}

/// 64-bit FNV-1a digest of a character sequence.
pub open spec fn fnv64(s: Seq<char>) -> u64 {
    fnv64_from(FNV_OFFSET, s)
}

/// Computes the FNV-1a digest of a string.
pub fn fnv64_digest(s: &str) -> (r: u64)
    ensures
        r == fnv64(s@),
{
    let n = s.unicode_len();
    let mut h: u64 = FNV_OFFSET;
    let mut i: usize = 0;
    proof {
        assert(s@.skip(0) == s@);
    }
    while i < n
        invariant
            n == s@.len(),
            i <= n,
            fnv64(s@) == fnv64_from(h, s@.skip(i as int)),
        decreases n - i,
    {
        let c = s.get_char(i);
        proof {
            assert(s@.skip(i as int).drop_first() == s@.skip(i + 1));
        }
        h = (h ^ (c as u64)).wrapping_mul(FNV_PRIME);
        i = i + 1;
    }
    h
}

pub const DEC_DIGITS: [char; 10] = ['0', '1', '2', '3', '4', '5', '6', '7', '8', '9'];

/// The decimal rendering of `n`, without leading zeros.
pub open spec fn dec_str(n: u64) -> Seq<char>
    decreases n,
{
    if n < 10 {
        seq![DEC_DIGITS@[n as int]]
    } else {
        dec_str(n / 10) + seq![DEC_DIGITS@[(n % 10) as int]]
    }
}

/// Appends the decimal rendering of `n` to `out`.
fn push_dec(n: u64, out: &mut String)
    ensures
        final(out)@ == old(out)@ + dec_str(n),
    decreases n,
{
    if n >= 10 {
        push_dec(n / 10, out);
    }
    crate::strutil::push_char(out, DEC_DIGITS[(n % 10) as usize]);
    proof {
        if n < 10 {
            assert(old(out)@ + dec_str(n) =~= out@);
        } else {
            assert(old(out)@ + dec_str(n) =~= out@);
        }
    }
}

/// Renders `n` in decimal.
pub fn u64_to_dec(n: u64) -> (r: String)
    ensures
        r@ == dec_str(n),
{
    let mut out = String::new();
    push_dec(n, &mut out);
    proof {
        assert(out@ =~= dec_str(n));
    }
    out
}

/// The content address of a derivation: the decimal FNV-1a digest of the
/// name followed by the resolved script text, then `'-'`, then the name.
pub open spec fn spec_hash(name: Seq<char>, script: Seq<char>) -> Seq<char> {
    dec_str(fnv64(name + script)) + seq!['-'] + name
}

/// Deterministic content hash of a derivation from its name and its fully
/// resolved script text.
pub fn calculate_hash(name: String, script: String) -> (r: String)
    ensures
        r@ == spec_hash(name@, script@),
{
    let combined = name.clone().concat(script.as_str());
    let digest = fnv64_digest(combined.as_str());
    let mut out = u64_to_dec(digest);
    out.append("-");
    out.append(name.as_str());
    proof {
        reveal_strlit("-");
        assert("-"@ =~= seq!['-']);
        assert(out@ =~= spec_hash(name@, script@));
    }
    out
}

/// Hashing is a function of the name and resolved script text alone: two
/// derivations with identical name and identical resolved script text have
/// the identical content hash, however they were constructed.
pub proof fn lemma_hash_deterministic(n1: Seq<char>, s1: Seq<char>, n2: Seq<char>, s2: Seq<char>)
    requires
        n1 == n2,
        s1 == s2,
    ensures
        spec_hash(n1, s1) == spec_hash(n2, s2),
{
}

} // verus!
