//! Examples, and the combinators that turn one example into another.

use crate::grid::{reversed, valid_grid};
use vstd::prelude::*;

verus! {

/// One puzzle: the grid that is shown and the grid that is asked for.
#[derive(Clone, Debug, PartialEq, Eq, Hash, Default)]
pub struct Example {
    pub input: Vec<u8>,
    pub output: Vec<u8>,
}

/// What an [`Example`] holds, as two sequences of colors.
pub struct Pair {
    pub input: Seq<u8>,
    pub output: Seq<u8>,
}

impl View for Example {
    type V = Pair;

    open spec fn view(&self) -> Pair {
        Pair { input: self.input@, output: self.output@ }
    }
}

impl Pair {
    /// Both grids have `size` cells, and every cell holds a color of the
    /// alphabet.
    pub open spec fn fits(self, size: nat) -> bool {
        &&& self.input.len() == size
        &&& self.output.len() == size
        &&& valid_grid(self.input)
        &&& valid_grid(self.output)
    }

    /// Both grids read from right to left.
    pub open spec fn mirrored(self) -> Pair {
        Pair { input: self.input.reverse(), output: self.output.reverse() }
    }

    /// The grids in each other's place.
    pub open spec fn inverted(self) -> Pair {
        Pair { input: self.output, output: self.input }
    }
}

/// What a rule hands back: the pair of the example it generated, or `None`
/// where its draws were infeasible.
pub open spec fn outcome(r: Option<Example>) -> Option<Pair> {
    match r {
        Some(e) => Some(e@),
        None => None,
    }
}

impl Example {
    /// A copy with the same cells.
    pub fn duplicate(&self) -> (copy: Example)
        ensures
            copy@ == self@,
    {
        Example { input: self.input.clone(), output: self.output.clone() }
    }

    /// Whether both grids of `self` hold the same cells as those of `other`.
    pub fn same_as(&self, other: &Example) -> (same: bool)
        ensures
            same == (self@ == other@),
    {
        let same = same_cells(&self.input, &other.input) && same_cells(
            &self.output,
            &other.output,
        );
        proof {
            if same {
                assert(self@.input =~= other@.input);
                assert(self@.output =~= other@.output);
            }
        }
        same
    }
}

/// Whether two grids have the same length and the same color in each cell.
pub fn same_cells(a: &[u8], b: &[u8]) -> (same: bool)
    ensures
        same == (a@ == b@),
{
    if a.len() != b.len() {
        return false;
    }
    let mut i: usize = 0;
    while i < a.len()
        invariant
            i <= a@.len(),
            a@.len() == b@.len(),
            forall|k: int| 0 <= k < i ==> a@[k] == b@[k],
        decreases a@.len() - i,
    {
        if a[i] != b[i] {
            return false;
        }
        i += 1;
    }
    assert(a@ =~= b@);
    true
}

/// Reverses both grids of a generated example.
pub fn task_mirror(example: Option<Example>) -> (r: Option<Example>)
    ensures
        outcome(r) == (match outcome(example) {
            Some(p) => Some(p.mirrored()),
            None => None,
        }),
{
    match example {
        Some(e) => Some(Example { input: reversed(&e.input), output: reversed(&e.output) }),
        None => None,
    }
}

/// Swaps the input and the output of a generated example.
pub fn task_inverse(example: Option<Example>) -> (r: Option<Example>)
    ensures
        outcome(r) == (match outcome(example) {
            Some(p) => Some(p.inverted()),
            None => None,
        }),
{
    match example {
        Some(e) => Some(Example { input: e.output, output: e.input }),
        None => None,
    }
}

/// Hands the outcome on as it is.
pub fn task_identity(example: Option<Example>) -> (r: Option<Example>)
    ensures
        r == example,
{
    example
}

/// Mirroring twice gives the pair back.
pub proof fn lemma_mirror_involution(p: Pair)
    ensures
        p.mirrored().mirrored() == p,
{
    assert(p.input.reverse().reverse() =~= p.input);
    assert(p.output.reverse().reverse() =~= p.output);
}

/// Inverting twice gives the pair back.
pub proof fn lemma_inverse_involution(p: Pair)
    ensures
        p.inverted().inverted() == p,
{
}

/// Mirroring keeps the size and the alphabet of a pair.
pub proof fn lemma_mirror_fits(p: Pair, size: nat)
    requires
        p.fits(size),
    ensures
        p.mirrored().fits(size),
{
}

/// Inverting keeps the size and the alphabet of a pair.
pub proof fn lemma_inverse_fits(p: Pair, size: nat)
    requires
        p.fits(size),
    ensures
        p.inverted().fits(size),
{
}

} // verus!
