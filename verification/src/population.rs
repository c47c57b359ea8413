//! A collection of organisms that can be evaluated and trained as one.

use vstd::prelude::*;

use crate::crossover::{
    buckets_multiset, classify_species, speciate, species_views,
};
use crate::genome::{innovations_bounded, weights_bounded, Gene, Genome};
use crate::mutate::mutation_step;
use crate::params::Params;
use crate::rng::RngSource;
use crate::species::{genome_views, genomes_wf, Species};

verus! {

/// The genomes held across a sequence of species, in species order and in
/// member order within each species.
pub open spec fn flatten_views(ss: Seq<Species>) -> Seq<Seq<Gene>>
    decreases ss.len(),
{
    if ss.len() == 0 {
        Seq::empty()
    } else {
        flatten_views(ss.drop_last()) + ss.last()@
    }
}

/// Whether the genome `t` is the genome `s` after at most one mutation.
pub open spec fn mutated_or_same(s: Seq<Gene>, t: Seq<Gene>, p: Params) -> bool {
    t == s || exists|c0: int, c1: int| mutation_step(s, t, c0, c1, p)
}

/// Whether every genome view keeps its innovation numbers at or below `c`.
pub open spec fn views_inno_bounded(vs: Seq<Seq<Gene>>, c: int) -> bool {
    forall|i: int| 0 <= i < vs.len() ==> innovations_bounded(#[trigger] vs[i], c)
}

/// A prefix of the flattened genome list is never longer than the whole.
proof fn lemma_flatten_prefix_len(ss: Seq<Species>, k: int)
    requires
        0 <= k <= ss.len(),
    ensures
        flatten_views(ss.take(k)).len() <= flatten_views(ss).len(),
    decreases ss.len() - k,
{
    if k == ss.len() {
        assert(ss.take(k) =~= ss);
    } else {
        lemma_flatten_prefix_len(ss, k + 1);
        assert(ss.take(k + 1).drop_last() =~= ss.take(k));
        assert(ss.take(k + 1).last() == ss[k]);
    }
}

/// The flattened genome count equals the count of genomes across the
/// buckets.
proof fn lemma_flatten_multiset_len(ss: Seq<Species>)
    ensures
        flatten_views(ss).len() == buckets_multiset(species_views(ss)).len(),
    decreases ss.len(),
{
    broadcast use vstd::seq_lib::group_to_multiset_ensures;

    if ss.len() == 0 {
        assert(species_views(ss) =~= Seq::<Seq<Seq<Gene>>>::empty());
    } else {
        lemma_flatten_multiset_len(ss.drop_last());
        assert(species_views(ss).drop_last() =~= species_views(ss.drop_last()));
        assert(species_views(ss).last() == ss.last()@);
    }
}

/// A collection of organisms that can be evaluated and trained as one.
#[derive(Debug)]
pub struct Population {
    /// The parameters used for the next generation.
    pub params: Params,
    /// The generation number this population is at.
    pub generation: usize,
    /// The number of innovation numbers handed out so far.
    pub innovation: usize,
    /// The current partition of the organisms into species.
    pub species: Vec<Species>,
}

/// The state of one generation step between the mutation pass and the
/// re-speciation: the mutated genomes, in a fixed order, ready for fitness
/// evaluation by the caller.
#[derive(Debug)]
pub struct GenerationStep {
    /// The parameters carried into the new generation.
    pub params: Params,
    /// The generation number the step will produce.
    pub generation: usize,
    /// The innovation counter after the mutation pass.
    pub innovation: usize,
    /// The mutated genomes, in population order.
    pub genomes: Vec<Genome>,
    /// The species of the previous generation, used for exemplar draws.
    pub previous: Vec<Species>,
}

impl Population {
    /// The total number of organisms across the species.
    pub open spec fn total(self) -> int {
        flatten_views(self.species@).len() as int
    }

    /// The ranges under which a generation step is proved exact: the
    /// parameters and every weight lie in the fixed-point domain, no genome
    /// outruns the innovation counter, and the organisms fit one count.
    pub open spec fn wf(self) -> bool {
        &&& self.params.valid()
        &&& forall|k: int| 0 <= k < self.species@.len() ==> (#[trigger] self.species@[k]).wf()
        &&& forall|k: int|
            0 <= k < self.species@.len() ==> views_inno_bounded(
                (#[trigger] self.species@[k])@,
                self.innovation as int,
            )
        &&& self.total() <= usize::MAX
    }

    /// Creates a new population with the given parameters: generation zero,
    /// no innovations yet, and one species of `population_size` empty
    /// genomes.
    pub fn new(params: Params) -> (r: Population)
        requires
            params.valid(),
        ensures
            r.params == params,
            r.generation == 0,
            r.innovation == 0,
            r.species@.len() == 1,
            r.species@[0]@.len() == params.population_size,
            forall|i: int|
                0 <= i < params.population_size ==> (#[trigger] r.species@[0]@[i]).len() == 0,
            r.total() == params.population_size,
            r.wf(),
    {
        let first = Species::with_size(params.population_size);
        let mut species: Vec<Species> = Vec::new();
        species.push(first);
        let r = Population { params, generation: 0, innovation: 0, species };
        proof {
            assert(r.species@.len() == 1);
            assert(r.species@.drop_last() =~= Seq::<Species>::empty());
            assert(flatten_views(Seq::<Species>::empty()) == Seq::<Seq<Gene>>::empty());
            assert(flatten_views(r.species@) == flatten_views(r.species@.drop_last())
                + r.species@.last()@);
            assert(flatten_views(r.species@) =~= r.species@[0]@);
        }
        r
    }

    /// Returns the generation number this population is at.
    pub fn generation(&self) -> (r: usize)
        ensures
            r == self.generation,
    {
        self.generation
    }

    /// Returns the number of individuals in the population.
    pub fn len(&self) -> (r: usize)
        requires
            self.total() <= usize::MAX,
        ensures
            r == self.total(),
    {
        let count = self.species.len();
        let mut acc: usize = 0;
        for k in 0..count
            invariant
                count == self.species@.len(),
                self.total() <= usize::MAX,
                acc == flatten_views(self.species@.take(k as int)).len(),
        {
            proof {
                assert(self.species@.take(k + 1).drop_last() =~= self.species@.take(k as int));
                assert(self.species@.take(k + 1).last() == self.species@[k as int]);
                lemma_flatten_prefix_len(self.species@, k + 1);
            }
            acc = acc + self.species[k].len();
        }
        proof {
            assert(self.species@.take(count as int) =~= self.species@);
        }
        acc
    }

    /// Copies the population, species for species.
    pub fn duplicate(&self) -> (r: Population)
        ensures
            r.params == self.params,
            r.generation == self.generation,
            r.innovation == self.innovation,
            r.species@.len() == self.species@.len(),
            forall|k: int|
                0 <= k < self.species@.len() ==> (#[trigger] r.species@[k])@ == self.species@[k]@
                    && r.species@[k].0@.len() == self.species@[k].0@.len(),
            species_views(r.species@) == species_views(self.species@),
            self.wf() ==> r.wf(),
    {
        let count = self.species.len();
        let mut species: Vec<Species> = Vec::new();
        for k in 0..count
            invariant
                count == self.species@.len(),
                species@.len() == k,
                forall|j: int|
                    0 <= j < k ==> (#[trigger] species@[j])@ == self.species@[j]@
                        && species@[j].0@.len() == self.species@[j].0@.len() && (self.species@[j].wf()
                        ==> species@[j].wf()),
        {
            species.push(self.species[k].duplicate());
        }
        let r = Population {
            params: self.params,
            generation: self.generation,
            innovation: self.innovation,
            species,
        };
        proof {
            assert(species_views(r.species@) =~= species_views(self.species@));
            lemma_flatten_same(r.species@, self.species@);
        }
        r
    }

    /// Begins one generation: advances the generation counter and runs the
    /// mutation pass, handing back the mutated genomes in population order
    /// so that the caller can evaluate their fitness before `finish`
    /// re-partitions them.
    pub fn begin_generation(&self, rng: &mut RngSource) -> (step: GenerationStep)
        requires
            self.wf(),
            self.generation < usize::MAX,
            self.innovation + 2 * self.total() <= usize::MAX,
        ensures
            step.params == self.params,
            step.generation == self.generation + 1,
            self.innovation <= step.innovation,
            step.genomes@.len() == self.total(),
            forall|i: int|
                0 <= i < step.genomes@.len() ==> mutated_or_same(
                    flatten_views(self.species@)[i],
                    (#[trigger] step.genomes@[i])@,
                    self.params,
                ),
            genomes_wf(step.genomes@),
            views_inno_bounded(genome_views(step.genomes@), step.innovation as int),
            step.previous@.len() == self.species@.len(),
            forall|k: int|
                0 <= k < self.species@.len() ==> (#[trigger] step.previous@[k])@
                    == self.species@[k]@ && step.previous@[k].0@.len() == self.species@[k].0@.len()
                    && step.previous@[k].wf(),
    {
        let ghost flat = flatten_views(self.species@);
        let count = self.species.len();
        let mut all: Vec<Genome> = Vec::new();
        for k in 0..count
            invariant
                count == self.species@.len(),
                self.wf(),
                genome_views(all@) == flatten_views(self.species@.take(k as int)),
                genomes_wf(all@),
                views_inno_bounded(genome_views(all@), self.innovation as int),
        {
            let members = self.species[k].len();
            let ghost base = genome_views(all@);
            for j in 0..members
                invariant
                    count == self.species@.len(),
                    k < count,
                    self.wf(),
                    members == self.species@[k as int].0@.len(),
                    genome_views(all@) == base + self.species@[k as int]@.take(j as int),
                    genomes_wf(all@),
                    views_inno_bounded(genome_views(all@), self.innovation as int),
            {
                let g = self.species[k].0[j].duplicate();
                proof {
                    assert(self.species@[k as int].wf());
                    assert(weights_bounded(self.species@[k as int].0@[j as int]@));
                    assert(views_inno_bounded(
                        self.species@[k as int]@,
                        self.innovation as int,
                    ));
                    assert(innovations_bounded(
                        self.species@[k as int]@[j as int],
                        self.innovation as int,
                    ));
                    assert(self.species@[k as int]@[j as int]
                        == self.species@[k as int].0@[j as int]@);
                }
                let ghost prev_all = all@;
                all.push(g);
                proof {
                    assert(genome_views(all@) =~= genome_views(prev_all).push(g@));
                    assert(self.species@[k as int]@.take(j + 1)
                        =~= self.species@[k as int]@.take(j as int).push(
                        self.species@[k as int]@[j as int],
                    ));
                    assert(genome_views(all@) =~= base + self.species@[k as int]@.take(j + 1));
                    assert forall|t: int| 0 <= t < all@.len() implies innovations_bounded(
                        genome_views(all@)[t],
                        self.innovation as int,
                    ) by {
                        assert(genome_views(all@)[t] == (all@[t])@);
                        if t < all@.len() - 1 {
                            assert(all@[t] == prev_all[t]);
                            assert(genome_views(prev_all)[t] == prev_all[t]@);
                        } else {
                            assert(all@[t]@ == g@);
                        }
                    }
                }
            }
            proof {
                assert(self.species@[k as int]@.take(members as int) =~= self.species@[k as int]@);
                assert(self.species@.take(k + 1).drop_last() =~= self.species@.take(k as int));
                assert(self.species@.take(k + 1).last() == self.species@[k as int]);
            }
        }
        proof {
            assert(self.species@.take(count as int) =~= self.species@);
            assert(genome_views(all@) == flat);
            assert(all@.len() == flat.len());
        }
        let n = all.len();
        let mut inno: usize = self.innovation;
        for i in 0..n
            invariant
                n == all@.len(),
                n == flat.len(),
                self.params.valid(),
                genomes_wf(all@),
                self.innovation <= inno,
                inno + 2 * (n - i) <= usize::MAX,
                forall|j: int| i <= j < n ==> (#[trigger] all@[j])@ == flat[j],
                forall|j: int|
                    0 <= j < i ==> mutated_or_same(flat[j], (#[trigger] all@[j])@, self.params),
                views_inno_bounded(genome_views(all@), inno as int),
        {
            let roll = rng.gen_below(1000);
            if (roll as i64) < self.params.mutation_rate {
                let ghost inno0 = inno;
                let mut g = all[i].duplicate();
                proof {
                    assert(innovations_bounded(genome_views(all@)[i as int], inno as int));
                    assert(genome_views(all@)[i as int] == all@[i as int]@);
                }
                g.mutate(rng, &mut inno, &self.params);
                let ghost gv = g@;
                let ghost prev_all = all@;
                all[i] = g;
                proof {
                    assert(mutation_step(
                        flat[i as int],
                        gv,
                        inno0 as int,
                        inno as int,
                        self.params,
                    ));
                    assert(mutated_or_same(flat[i as int], gv, self.params));
                    assert(all@ == prev_all.update(i as int, all@[i as int]));
                    assert(all@[i as int]@ == gv);
                    assert forall|j: int| 0 <= j < n implies innovations_bounded(
                        genome_views(all@)[j],
                        inno as int,
                    ) by {
                        assert(genome_views(all@)[j] == (all@[j])@);
                        if j != i {
                            assert(all@[j] == prev_all[j]);
                            assert(genome_views(prev_all)[j] == prev_all[j]@);
                            assert(innovations_bounded(prev_all[j]@, inno0 as int));
                        }
                    }
                    assert forall|j: int| 0 <= j < n implies weights_bounded(
                        (#[trigger] all@[j])@,
                    ) by {
                        if j != i {
                            assert(all@[j] == prev_all[j]);
                        }
                    }
                }
            }
        }
        let mut previous: Vec<Species> = Vec::new();
        for k in 0..count
            invariant
                count == self.species@.len(),
                self.wf(),
                previous@.len() == k,
                forall|j: int|
                    0 <= j < k ==> (#[trigger] previous@[j])@ == self.species@[j]@
                        && previous@[j].0@.len() == self.species@[j].0@.len() && previous@[j].wf(),
        {
            let s = self.species[k].duplicate();
            proof {
                assert(self.species@[k as int].wf());
            }
            previous.push(s);
        }
        GenerationStep {
            params: self.params,
            generation: self.generation + 1,
            innovation: inno,
            genomes: all,
            previous,
        }
    }

    /// Runs a single generation: mutates every organism with probability
    /// `mutation_rate`, threading the innovation counter, and re-partitions
    /// the mutated organisms into species against the previous species.
    /// The organism count is preserved, no returned species is empty, and
    /// the receiver is left untouched.
    pub fn run_generation(&self, rng: &mut RngSource) -> (pop: Population)
        requires
            self.wf(),
            self.generation < usize::MAX,
            self.innovation + 2 * self.total() <= usize::MAX,
            forall|k: int| 0 <= k < self.species@.len() ==> (#[trigger] self.species@[k])@.len() > 0,
        ensures
            pop.params == self.params,
            pop.generation == self.generation + 1,
            self.innovation <= pop.innovation,
            pop.total() == self.total(),
            forall|k: int| 0 <= k < pop.species@.len() ==> (#[trigger] pop.species@[k])@.len() > 0,
            pop.wf(),
            exists|genomes: Seq<Seq<Gene>>, ex0: Seq<Seq<Gene>>|
                {
                    &&& genomes.len() == self.total()
                    &&& (forall|i: int|
                        0 <= i < genomes.len() ==> mutated_or_same(
                            flatten_views(self.species@)[i],
                            #[trigger] genomes[i],
                            self.params,
                        ))
                    &&& ex0.len() == self.species@.len()
                    &&& (forall|k: int|
                        0 <= k < ex0.len() ==> (#[trigger] self.species@[k])@.contains(ex0[k]))
                    &&& species_views(pop.species@) == speciate(genomes, ex0, self.params)
                },
    {
        let step = self.begin_generation(rng);
        let ghost mutated = genome_views(step.genomes@);
        let pop = step.finish(rng);
        proof {
            let ex0 = choose|ex0: Seq<Seq<Gene>>|
                {
                    &&& ex0.len() == step.previous@.len()
                    &&& (forall|k: int|
                        0 <= k < ex0.len() ==> (#[trigger] step.previous@[k])@.contains(ex0[k]))
                    &&& species_views(pop.species@) == speciate(
                        genome_views(step.genomes@),
                        ex0,
                        step.params,
                    )
                };
            assert(forall|i: int|
                0 <= i < mutated.len() ==> #[trigger] mutated[i] == step.genomes@[i]@);
            assert(forall|k: int|
                0 <= k < ex0.len() ==> (#[trigger] self.species@[k])@ == step.previous@[k]@);
        }
        pop
    }
}

/// Two species lists with the same views flatten to the same genome list.
proof fn lemma_flatten_same(a: Seq<Species>, b: Seq<Species>)
    requires
        species_views(a) == species_views(b),
    ensures
        flatten_views(a) == flatten_views(b),
    decreases a.len(),
{
    assert(species_views(a).len() == a.len());
    assert(species_views(b).len() == b.len());
    assert(a.len() == b.len());
    if a.len() == 0 {
        assert(flatten_views(a) =~= flatten_views(b));
    } else {
        assert(species_views(a.drop_last()) =~= species_views(b.drop_last())) by {
            assert(forall|i: int|
                0 <= i < a.len() - 1 ==> species_views(a.drop_last())[i] == (
                #[trigger] a.drop_last()[i])@);
            assert(forall|i: int|
                0 <= i < b.len() - 1 ==> species_views(b.drop_last())[i] == (
                #[trigger] b.drop_last()[i])@);
            assert(forall|i: int|
                0 <= i < a.len() ==> species_views(a)[i] == (#[trigger] a[i])@ && species_views(
                    b,
                )[i] == b[i]@);
        }
        lemma_flatten_same(a.drop_last(), b.drop_last());
        assert(a.last()@ == species_views(a)[a.len() - 1]);
        assert(b.last()@ == species_views(b)[b.len() - 1]);
    }
}

impl GenerationStep {
    /// Finishes the generation: re-partitions the mutated genomes into
    /// species against the previous generation's species and builds the new
    /// population. Every genome lands in exactly one species and no species
    /// is empty.
    pub fn finish(self, rng: &mut RngSource) -> (pop: Population)
        requires
            self.params.valid(),
            genomes_wf(self.genomes@),
            views_inno_bounded(genome_views(self.genomes@), self.innovation as int),
            forall|k: int|
                0 <= k < self.previous@.len() ==> (#[trigger] self.previous@[k]).0@.len() > 0,
            forall|k: int| 0 <= k < self.previous@.len() ==> (#[trigger] self.previous@[k]).wf(),
        ensures
            pop.params == self.params,
            pop.generation == self.generation,
            pop.innovation == self.innovation,
            pop.total() == self.genomes@.len(),
            forall|k: int| 0 <= k < pop.species@.len() ==> (#[trigger] pop.species@[k])@.len() > 0,
            pop.params.valid() ==> pop.wf(),
            exists|ex0: Seq<Seq<Gene>>|
                {
                    &&& ex0.len() == self.previous@.len()
                    &&& (forall|k: int|
                        0 <= k < ex0.len() ==> (#[trigger] self.previous@[k])@.contains(ex0[k]))
                    &&& species_views(pop.species@) == speciate(
                        genome_views(self.genomes@),
                        ex0,
                        self.params,
                    )
                },
            buckets_multiset(species_views(pop.species@)) == genome_views(
                self.genomes@,
            ).to_multiset(),
    {
        broadcast use vstd::seq_lib::group_to_multiset_ensures;

        let GenerationStep { params, generation, innovation, genomes, previous } = self;
        let ghost org_views = genome_views(genomes@);
        let n_orgs = genomes.len();
        proof {
            assert(org_views.len() == n_orgs);
        }
        let species = classify_species(rng, genomes, &params, previous.as_slice());
        let pop = Population { params, generation, innovation, species };
        proof {
            lemma_flatten_multiset_len(pop.species@);
            assert(org_views.to_multiset().len() == org_views.len());
            assert(buckets_multiset(species_views(pop.species@)) == org_views.to_multiset());
            assert(pop.total() == org_views.len());
            assert forall|k: int| 0 <= k < pop.species@.len() implies views_inno_bounded(
                (#[trigger] pop.species@[k])@,
                innovation as int,
            ) by {
                assert forall|j: int| 0 <= j < pop.species@[k]@.len() implies innovations_bounded(
                    #[trigger] pop.species@[k]@[j],
                    innovation as int,
                ) by {
                    assert(org_views.contains(pop.species@[k]@[j]));
                    let w = choose|w: int| 0 <= w < org_views.len() && org_views[w] == pop.species@[k]@[j];
                    assert(innovations_bounded(org_views[w], innovation as int));
                }
            }
        }
        pop
    }
}

} // verus!
