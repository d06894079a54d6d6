//! The fixed-rate fee and the totals it is taken from.

use vstd::prelude::*;

verus! {

/// An amount of native currency or of token units.
pub type Balance = u128;

/// The fee is one part in this many.
pub const FEE_DIVISOR: u128 = 1000;

/// The fee owed on `amount`: a thousandth of it, rounded down.
pub open spec fn fee_of(amount: nat) -> nat {
    amount / (FEE_DIVISOR as nat)
}

/// The sum of `amounts` as a mathematical number.
pub open spec fn sum_of(amounts: Seq<Balance>) -> nat
    decreases amounts.len(),
{
    if amounts.len() == 0 {
        0
    } else {
        sum_of(amounts.drop_last()) + amounts.last() as nat
    }
}

/// Computes the fee owed on `amount`.
pub fn fee(amount: Balance) -> (owed: Balance)
    ensures
        owed == fee_of(amount as nat),
        owed <= amount,
{
    amount / FEE_DIVISOR
}

/// A sum never shrinks when one more amount is added to it.
pub proof fn lemma_sum_of_prefix(amounts: Seq<Balance>, n: int)
    requires
        0 <= n <= amounts.len(),
    ensures
        sum_of(amounts.take(n)) <= sum_of(amounts),
    decreases amounts.len() - n,
{
    if n < amounts.len() {
        lemma_sum_of_prefix(amounts, n + 1);
        assert(amounts.take(n + 1).drop_last() =~= amounts.take(n));
    } else {
        assert(amounts.take(n) =~= amounts);
    }
}

/// Adds up `amounts`, or reports that their sum is more than any balance
/// can hold.
pub fn total(amounts: &Vec<Balance>) -> (sum: Option<Balance>)
    ensures
        match sum {
            Some(t) => t == sum_of(amounts@),
            None => sum_of(amounts@) > u128::MAX,
        },
{
    let mut acc: Balance = 0;
    let mut i: usize = 0;
    while i < amounts.len()
        invariant
            i <= amounts.len(),
            acc == sum_of(amounts@.take(i as int)),
        decreases amounts.len() - i,
    {
        proof {
            assert(amounts@.take(i + 1).drop_last() =~= amounts@.take(i as int));
        }
        match acc.checked_add(amounts[i]) {
            Some(next) => {
                acc = next;
            },
            None => {
                proof {
                    lemma_sum_of_prefix(amounts@, i + 1);
                }
                return None;
            },
        }
        i += 1;
    }
    proof {
        assert(amounts@.take(i as int) =~= amounts@);
    }
    Some(acc)
}

} // verus!
