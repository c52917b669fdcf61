//! Experiment size sweep: the working-set sizes, in bytes, at which the
//! index structures are exercised — four geometrically spaced points per
//! power of two between 2^4 and 2^32.

use vstd::prelude::*;

use vstd::arithmetic::power2::{lemma2_to64, lemma_pow2_strictly_increases, pow2};

verus! {

/// The sweep of input sizes in bytes: for each exponent `b` in `4..32`
/// the four sizes `2^b`, `2^b * 5/4`, `2^b * 3/2` and `2^b * 7/4`,
/// followed by the final `2^32`.
pub fn sizes() -> (r: Vec<u64>)
    ensures
        r@.len() == 113,
        forall|b: int|
            4 <= b < 32 ==> {
                &&& #[trigger] r@[4 * (b - 4)] == pow2(b as nat)
                &&& r@[4 * (b - 4) + 1] == pow2(b as nat) * 5 / 4
                &&& r@[4 * (b - 4) + 2] == pow2(b as nat) * 3 / 2
                &&& r@[4 * (b - 4) + 3] == pow2(b as nat) * 7 / 4
            },
        r@[112] == pow2(32),
{
    let mut result: Vec<u64> = Vec::new();
    let mut base: u64 = 16;
    proof {
        lemma2_to64();
    }
    for b in 4..32usize
        invariant
            base == pow2(b as nat),
            result@.len() == 4 * (b - 4),
            forall|c: int|
                4 <= c < b ==> {
                    &&& #[trigger] result@[4 * (c - 4)] == pow2(c as nat)
                    &&& result@[4 * (c - 4) + 1] == pow2(c as nat) * 5 / 4
                    &&& result@[4 * (c - 4) + 2] == pow2(c as nat) * 3 / 2
                    &&& result@[4 * (c - 4) + 3] == pow2(c as nat) * 7 / 4
                },
    {
        proof {
            lemma2_to64();
            if b < 31 {
                lemma_pow2_strictly_increases(b as nat, 31);
            }
        }
        result.push(base);
        result.push(base * 5 / 4);
        result.push(base * 3 / 2);
        result.push(base * 7 / 4);
        proof {
            assert(result@[4 * (b - 4)] == pow2(b as nat));
            assert(result@[4 * (b - 4) + 1] == pow2(b as nat) * 5 / 4);
            assert(result@[4 * (b - 4) + 2] == pow2(b as nat) * 3 / 2);
            assert(result@[4 * (b - 4) + 3] == pow2(b as nat) * 7 / 4);
        }
        base = base * 2;
    }
    result.push(base);
    result
}

} // verus!
