//! The canonical enumeration of the assignments to a gate's inputs.
use vstd::prelude::*;
use vstd::arithmetic::power2::{pow2, lemma_pow2_unfold, lemma_pow2_strictly_increases, lemma2_to64, lemma2_to64_rest};
use crate::ir::{Assign, Gate, assign_view};

verus! {

/// Bit `j` of `n`, bit 0 being the least significant.
pub open spec fn bit(n: nat, j: nat) -> bool
    decreases j,
{
    if j == 0 {
        n % 2 == 1
    } else {
        bit(n / 2, (j - 1) as nat)
    }
}

/// Assignment number `n`: input `j` takes bit `j` of `n`.
pub open spec fn assignment(inputs: Seq<String>, n: nat) -> Assign {
    Seq::new(inputs.len(), |j: int| (inputs[j]@, bit(n, j as nat)))
}

/// All `2^k` assignments to `k` inputs, in the order of their numbers.
pub open spec fn enumeration(inputs: Seq<String>) -> Seq<Assign> {
    Seq::new(pow2(inputs.len()), |n: int| assignment(inputs, n as nat))
}

/// Enumerates the assignments to the declared inputs of `gate`: there are
/// `2^k` of them for `k` inputs, and the one at position `n` gives input `j`
/// the value of bit `j` of `n`, so that the first-listed input varies fastest.
pub fn all_inputs(gate: &Gate) -> (r: Vec<Vec<(String, bool)>>)
    requires
        gate.inputs@.len() < 64,
    ensures
        r@.len() == pow2(gate.inputs@.len() as nat),
        forall|n: int| 0 <= n < r@.len() ==> assign_view(#[trigger] r@[n]@) == assignment(gate.inputs@, n as nat),
        r@.map_values(|a: Vec<(String, bool)>| assign_view(a@)) == enumeration(gate.inputs@),
{
    let k = gate.inputs.len();
    let mut count: u64 = 1;
    let mut i: usize = 0;
    proof {
        lemma2_to64();
        lemma2_to64_rest();
    }
    while i < k
        invariant
            0 <= i <= k,
            k == gate.inputs@.len(),
            k < 64,
            count as nat == pow2(i as nat),
            pow2(63) == 0x8000000000000000,
        decreases k - i,
    {
        proof {
            lemma_pow2_unfold((i + 1) as nat);
            if i + 1 < 63 {
                lemma_pow2_strictly_increases((i + 1) as nat, 63);
            }
        }
        count = count * 2;
        i = i + 1;
    }
    let mut out: Vec<Vec<(String, bool)>> = Vec::new();
    let mut n: u64 = 0;
    while n < count
        invariant
            0 <= n <= count,
            k == gate.inputs@.len(),
            count as nat == pow2(k as nat),
            out@.len() == n,
            forall|t: int| 0 <= t < n ==> assign_view(#[trigger] out@[t]@) == assignment(gate.inputs@, t as nat),
        decreases count - n,
    {
        let mut row: Vec<(String, bool)> = Vec::new();
        let mut rest: u64 = n;
        let mut j: usize = 0;
        while j < k
            invariant
                0 <= j <= k,
                k == gate.inputs@.len(),
                row@.len() == j,
                forall|t: int| 0 <= t < j ==> (#[trigger] row@[t]).0@ == gate.inputs@[t]@ && row@[t].1 == bit(n as nat, t as nat),
                forall|m: nat| #[trigger] bit(rest as nat, m) == bit(n as nat, (j + m) as nat),
            decreases k - j,
        {
            proof {
                assert(bit(rest as nat, 0) == bit(n as nat, j as nat));
            }
            row.push((gate.inputs[j].clone(), rest % 2 == 1));
            proof {
                assert forall|m: nat| #[trigger] bit((rest / 2) as nat, m) == bit(n as nat, (j + 1 + m) as nat) by {
                    assert(bit(rest as nat, m + 1) == bit(n as nat, (j + (m + 1)) as nat));
                }
            }
            rest = rest / 2;
            j = j + 1;
        }
        assert(assign_view(row@) =~= assignment(gate.inputs@, n as nat));
        out.push(row);
        n = n + 1;
    }
    assert(out@.map_values(|a: Vec<(String, bool)>| assign_view(a@)) =~= enumeration(gate.inputs@));
    out
}

} // verus!
