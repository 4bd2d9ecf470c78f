//! The proof-of-work engine: a pure, sequential search for the least
//! integer that seals the puzzle over the previous proof.
use crate::errors::ChainError;
use vstd::prelude::*;

verus! {

/// The greatest previous proof the sequential search can start from
/// without its bound leaving `u64`.
pub const MAX_SOLVABLE_PROOF: u64 = u64::MAX / 9;

/// A candidate `v` seals the puzzle over `last` when it is larger,
/// divisible by nine, and divisible by `last`.
pub open spec fn valid_proof(last: int, v: int) -> bool {
    v > last && v % 9 == 0 && v % last == 0
}

/// `v` is what the search returns: the least valid candidate.
pub open spec fn is_next_proof(last: int, v: int) -> bool {
    valid_proof(last, v) && forall|w: int| last < w < v ==> !valid_proof(last, w)
}

/// Finds the least integer above `last_proof` that is divisible both by
/// nine and by `last_proof`. A previous proof of zero leaves the puzzle
/// undefined and is rejected rather than looped on. Termination is
/// certain because nine times `last_proof` always qualifies.
pub fn proof_of_work(last_proof: u64) -> (r: Result<u64, ChainError>)
    requires
        last_proof <= MAX_SOLVABLE_PROOF,
    ensures
        match r {
            Ok(v) => last_proof > 0 && is_next_proof(last_proof as int, v as int),
            Err(e) => last_proof == 0 && e == ChainError::InvalidProof,
        },
{
    if last_proof == 0 {
        return Err(ChainError::InvalidProof);
    }
    let ghost lp = last_proof as int;
    proof {
        vstd::arithmetic::div_mod::lemma_mod_multiples_basic(lp, 9);
        vstd::arithmetic::div_mod::lemma_mod_multiples_basic(9, lp);
        assert(lp * 9 == 9 * lp);
        assert(9 * lp == 9 * lp);
        assert(valid_proof(lp, 9 * lp));
    }
    let mut incrementor: u64 = last_proof + 1;
    while !(incrementor % 9 == 0 && incrementor % last_proof == 0)
        invariant
            0 < last_proof <= MAX_SOLVABLE_PROOF,
            lp == last_proof as int,
            last_proof < incrementor,
            incrementor as int <= 9 * lp,
            valid_proof(lp, 9 * lp),
            forall|w: int| lp < w < incrementor as int ==> !valid_proof(lp, w),
        decreases 9 * lp - incrementor as int,
    {
        proof {
            assert(!valid_proof(lp, incrementor as int));
            assert(incrementor as int != 9 * lp);
        }
        incrementor = incrementor + 1;
    }
    Ok(incrementor)
}

} // verus!
