//! The fixed 5 x 10 table of per-hit non-occurrence probabilities.
//!
//! Rank index `i` (0 to 4) stands for refinement ranks R1 to R5, whose
//! per-crit emission coefficients are `0.6 + 0.1*i`. Rate index `j` (0 to 9)
//! stands for critical-hit rates `10%` to `100%` in steps of 10. The chance
//! that a single hit does not trigger the effect is
//! `1 - (10*(j+1)/100) * (0.6 + 0.1*i)`, an exact multiple of `1/100`; each
//! cell stores its numerator over the fixed denominator 100.

use vstd::prelude::*;

verus! {

/// Numerator (over a denominator of 100) of the probability that one hit at
/// rank index `i` and rate index `j` does not trigger the effect:
/// `1 - (10*(j+1))/100 * (6+i)/10 == (100 - (j+1)*(i+6)) / 100`.
pub open spec fn miss_numerator(i: int, j: int) -> int {
    100 - (j + 1) * (i + 6)
}

/// A 5 x 10 grid of per-hit non-occurrence probabilities, each stored as its
/// numerator over the fixed denominator 100. Built once; never mutated.
pub struct ProbabilityGrid {
    pub cells: Vec<Vec<u64>>,
}

impl ProbabilityGrid {
    /// The grid is total (5 rows of 10 cells, ascending rank then ascending
    /// rate) and every cell holds the exact table value.
    pub open spec fn wf(self) -> bool {
        &&& self.cells@.len() == 5
        &&& forall|i: int| 0 <= i < 5 ==> (#[trigger] self.cells@[i])@.len() == 10
        &&& forall|i: int, j: int|
            0 <= i < 5 && 0 <= j < 10 ==> (#[trigger] self.cells@[i]@[j]) == miss_numerator(i, j)
    }
}

/// Every cell of the table lies in `[0, 94]`: even the weakest rank emits on
/// at least 6% of hits, and rank 5 at 100% crit rate emits on every hit.
pub proof fn lemma_miss_numerator_range(i: int, j: int)
    requires
        0 <= i < 5,
        0 <= j < 10,
    ensures
        0 <= miss_numerator(i, j) <= 94,
{
    assert(6 <= (j + 1) * (i + 6) <= 100) by (nonlinear_arith)
        requires
            0 <= i < 5,
            0 <= j < 10,
    ;
}

/// Build the full table. Deterministic, total and pure: no inputs, no error
/// conditions, and the result satisfies `wf`, which pins every cell exactly.
pub fn build_grid() -> (g: ProbabilityGrid)
    ensures
        g.wf(),
{
    let mut cells: Vec<Vec<u64>> = Vec::new();
    let mut i: usize = 0;
    while i < 5
        invariant
            i <= 5,
            cells@.len() == i,
            forall|a: int| 0 <= a < i ==> (#[trigger] cells@[a])@.len() == 10,
            forall|a: int, b: int|
                0 <= a < i && 0 <= b < 10 ==> (#[trigger] cells@[a]@[b]) == miss_numerator(a, b),
        decreases 5 - i,
    {
        let mut row: Vec<u64> = Vec::new();
        let mut j: usize = 0;
        while j < 10
            invariant
                i < 5,
                j <= 10,
                row@.len() == j,
                forall|b: int| 0 <= b < j ==> (#[trigger] row@[b]) == miss_numerator(i as int, b),
            decreases 10 - j,
        {
            proof {
                lemma_miss_numerator_range(i as int, j as int);
            }
            assert((j + 1) * (i + 6) <= 100) by (nonlinear_arith)
                requires
                    i < 5,
                    j < 10,
            ;
            let p: u64 = (j as u64 + 1) * (i as u64 + 6);
            row.push(100 - p);
            j = j + 1;
        }
        cells.push(row);
        i = i + 1;
    }
    ProbabilityGrid { cells }
}

} // verus!
