//! A species: an ordered collection of genomes considered close under the
//! distance metric relative to one exemplar.

use vstd::prelude::*;

use crate::genome::{weights_bounded, Gene, Genome};

verus! {

/// A single species. Just a newtype.
#[derive(Debug)]
pub struct Species(pub Vec<Genome>);

/// The views of a sequence of genomes.
pub open spec fn genome_views(gs: Seq<Genome>) -> Seq<Seq<Gene>> {
    gs.map_values(|g: Genome| g@)
}

/// Whether every genome of the sequence keeps its weights in the
/// fixed-point range.
pub open spec fn genomes_wf(gs: Seq<Genome>) -> bool {
    forall|i: int| 0 <= i < gs.len() ==> weights_bounded((#[trigger] gs[i])@)
}

impl View for Species {
    type V = Seq<Seq<Gene>>;

    open spec fn view(&self) -> Seq<Seq<Gene>> {
        genome_views(self.0@)
    }
}

impl Species {
    /// Whether every member keeps its weights in the fixed-point range.
    pub open spec fn wf(self) -> bool {
        genomes_wf(self.0@)
    }

    /// Creates a new, empty species.
    pub fn empty() -> (r: Species)
        ensures
            r@ =~= Seq::<Seq<Gene>>::empty(),
            r.wf(),
    {
        Species(Vec::new())
    }

    /// Returns the number of individuals in the species.
    pub fn len(&self) -> (r: usize)
        ensures
            r == self@.len(),
    {
        self.0.len()
    }

    /// Creates a new species of the given size, filled with empty genomes.
    pub fn with_size(population_size: usize) -> (r: Species)
        ensures
            r@.len() == population_size,
            forall|i: int| 0 <= i < r@.len() ==> #[trigger] r@[i] =~= Seq::<Gene>::empty(),
            r.wf(),
    {
        let mut members: Vec<Genome> = Vec::new();
        for k in 0..population_size
            invariant
                members@.len() == k,
                forall|i: int| 0 <= i < k ==> #[trigger] members@[i]@.len() == 0,
        {
            members.push(Genome::new());
        }
        Species(members)
    }

    /// Copies the species, genome for genome.
    pub fn duplicate(&self) -> (r: Species)
        ensures
            r@ == self@,
            r.0@.len() == self.0@.len(),
            forall|i: int| 0 <= i < r.0@.len() ==> (#[trigger] r.0@[i])@ == self.0@[i]@,
            self.wf() ==> r.wf(),
    {
        let mut members: Vec<Genome> = Vec::new();
        let len = self.0.len();
        for k in 0..len
            invariant
                len == self.0@.len(),
                members@.len() == k,
                forall|i: int| 0 <= i < k ==> #[trigger] members@[i]@ == self.0@[i]@,
        {
            members.push(self.0[k].duplicate());
        }
        let r = Species(members);
        proof {
            assert(r@ =~= self@);
        }
        r
    }
}

} // verus!
