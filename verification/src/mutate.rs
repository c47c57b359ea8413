//! The three structural mutation operators.

use vstd::prelude::*;

use crate::genome::{
    edge_present, has_enabled, innovations_bounded, innovations_increasing, max_neuron,
    weights_bounded, Gene, Genome,
};
use crate::params::Params;
use crate::rng::RngSource;
use crate::util::{clamp, SCALE, WEIGHT_LIMIT};

verus! {

/// The gene `g` with its enabled flag cleared.
pub open spec fn gene_disabled(g: Gene) -> Gene {
    Gene { enabled: false, ..g }
}

/// What a freshly sampled connection gene looks like against the genome `s`
/// and the innovation counter `c0`: a non-loop edge between nodes below the
/// genome's neuron bound, not yet linked in either direction, enabled, with
/// a fresh weight below one unit and the next innovation number.
pub open spec fn new_connection_ok(s: Seq<Gene>, g: Gene, c0: int) -> bool {
    &&& g.from != g.to
    &&& g.from < max_neuron(s)
    &&& g.to < max_neuron(s)
    &&& !edge_present(s, g.from as int, g.to as int)
    &&& g.enabled
    &&& 0 <= g.weight < SCALE
    &&& g.innovation == c0 + 1
}

/// Whether every admissible node pair is already linked, so that no
/// connection can be added at all.
pub open spec fn saturated(s: Seq<Gene>) -> bool {
    forall|a: int, b: int|
        0 <= a < max_neuron(s) && 0 <= b < max_neuron(s) && a != b ==> edge_present(s, a, b)
}

/// The add-connection operator: unless every admissible pair is already
/// linked, the genome grows by exactly one fresh connection gene and the
/// innovation counter advances once.
pub open spec fn add_connection_step(s: Seq<Gene>, t: Seq<Gene>, c0: int, c1: int) -> bool {
    if saturated(s) {
        t == s && c1 == c0
    } else {
        &&& t.len() == s.len() + 1
        &&& t.subrange(0, s.len() as int) == s
        &&& new_connection_ok(s, t.last(), c0)
        &&& c1 == c0 + 1
    }
}

/// The split of the enabled gene at `i`: it is disabled, and two enabled
/// genes through the fresh neuron are appended, the first with unit weight,
/// the second carrying the split gene's weight, each with its own fresh
/// innovation number.
pub open spec fn split_step(s: Seq<Gene>, t: Seq<Gene>, i: int, c0: int) -> bool {
    &&& 0 <= i < s.len()
    &&& s[i].enabled
    &&& t == s.update(i, gene_disabled(s[i])).push(
        Gene {
            from: s[i].from,
            to: max_neuron(s) as usize,
            enabled: true,
            weight: SCALE,
            innovation: (c0 + 1) as usize,
        },
    ).push(
        Gene {
            from: max_neuron(s) as usize,
            to: s[i].to,
            enabled: true,
            weight: s[i].weight,
            innovation: (c0 + 2) as usize,
        },
    )
}

/// The add-node operator: a no-op on a genome with no enabled gene, and
/// otherwise the split of some enabled gene, with the innovation counter
/// advanced twice.
pub open spec fn add_node_step(s: Seq<Gene>, t: Seq<Gene>, c0: int, c1: int) -> bool {
    if !has_enabled(s) {
        t == s && c1 == c0
    } else {
        c1 == c0 + 2 && exists|i: int| split_step(s, t, i, c0)
    }
}

/// The reweight operator: the structure is untouched and every weight moves
/// by at most `amount`, staying within the engine's weight range.
pub open spec fn reweight_step(s: Seq<Gene>, t: Seq<Gene>, amount: int) -> bool {
    &&& t.len() == s.len()
    &&& forall|i: int|
        0 <= i < s.len() ==> {
            &&& (#[trigger] t[i]).from == s[i].from
            &&& t[i].to == s[i].to
            &&& t[i].enabled == s[i].enabled
            &&& t[i].innovation == s[i].innovation
            &&& -amount <= t[i].weight - s[i].weight <= amount
            &&& -WEIGHT_LIMIT <= t[i].weight <= WEIGHT_LIMIT
        }
}

/// One random mutation: exactly one of the three operators was applied.
pub open spec fn mutation_step(s: Seq<Gene>, t: Seq<Gene>, c0: int, c1: int, p: Params) -> bool {
    ||| add_connection_step(s, t, c0, c1)
    ||| add_node_step(s, t, c0, c1)
    ||| (reweight_step(s, t, p.reweight_amount as int) && c1 == c0)
}

/// The largest `to` node id, or `5` while the genome is still small.
fn max_neuron_exec(genes: &Vec<Gene>) -> (r: usize)
    ensures
        r as int == max_neuron(genes@),
        r >= 5,
{
    let len = genes.len();
    let mut m: usize = 0;
    for i in 0..len
        invariant
            len == genes@.len(),
            m as int == crate::genome::max_to(genes@.take(i as int)),
    {
        proof {
            assert(genes@.take(i + 1).drop_last() =~= genes@.take(i as int));
        }
        if genes[i].to > m {
            m = genes[i].to;
        }
    }
    proof {
        assert(genes@.take(len as int) =~= genes@);
    }
    if m > 5 {
        m
    } else {
        5
    }
}

/// Whether the genome links `a` and `b` in either direction.
fn edge_exists(genes: &Vec<Gene>, a: usize, b: usize) -> (r: bool)
    ensures
        r == edge_present(genes@, a as int, b as int),
{
    let len = genes.len();
    for i in 0..len
        invariant
            len == genes@.len(),
            forall|j: int|
                0 <= j < i ==> !((#[trigger] genes@[j].from == a && genes@[j].to == b) || (
                genes@[j].from == b && genes@[j].to == a)),
    {
        let g = genes[i];
        if (g.from == a && g.to == b) || (g.from == b && g.to == a) {
            return true;
        }
    }
    false
}

/// Whether the genome holds at least one enabled gene.
fn any_enabled(genes: &Vec<Gene>) -> (r: bool)
    ensures
        r == has_enabled(genes@),
{
    let len = genes.len();
    for i in 0..len
        invariant
            len == genes@.len(),
            forall|j: int| 0 <= j < i ==> !(#[trigger] genes@[j].enabled),
    {
        if genes[i].enabled {
            return true;
        }
    }
    false
}

impl Genome {
    /// Adds a random connection: rejection-samples a node pair until it is
    /// neither a self-loop nor already linked in either direction, then
    /// appends a fresh enabled gene.
    pub fn mutate_add_connection(&mut self, r: &mut RngSource, inno: &mut usize)
        requires
            old(self).wf(),
            *old(inno) < usize::MAX,
        ensures
            add_connection_step(
                old(self).genes@,
                final(self).genes@,
                *old(inno) as int,
                *final(inno) as int,
            ),
            final(self).wf(),
            innovations_bounded(old(self).genes@, *old(inno) as int) ==> innovations_bounded(
                final(self).genes@,
                *final(inno) as int,
            ),
    {
        let mn = max_neuron_exec(&self.genes);
        let mut from: usize = 0;
        let mut to: usize = 0;
        let mut found = false;
        let mut tries: usize = 0;
        while tries < 64 && !found
            invariant
                tries <= 64,
                mn as int == max_neuron(self.genes@),
                mn >= 5,
                self == old(self),
                found ==> from < mn && to < mn && from != to && !edge_present(
                    self.genes@,
                    from as int,
                    to as int,
                ),
            decreases 64 - tries,
        {
            tries = tries + 1;
            let a = r.gen_below(mn);
            let b = r.gen_below(mn);
            if a != b && !edge_exists(&self.genes, a, b) {
                from = a;
                to = b;
                found = true;
            }
        }
        if !found {
            // The random draws came up empty: sweep every pair so that a free
            // one is found whenever the genome is not saturated.
            let mut a: usize = 0;
            while a < mn && !found
                invariant
                    mn as int == max_neuron(self.genes@),
                    mn >= 5,
                    a <= mn,
                    self == old(self),
                    found ==> from < mn && to < mn && from != to && !edge_present(
                        self.genes@,
                        from as int,
                        to as int,
                    ),
                    !found ==> forall|x: int, y: int|
                        0 <= x < a && 0 <= y < mn && x != y ==> edge_present(self.genes@, x, y),
                decreases mn - a,
            {
                let mut b: usize = 0;
                while b < mn && !found
                    invariant
                        mn as int == max_neuron(self.genes@),
                        a < mn,
                        b <= mn,
                        self == old(self),
                        found ==> from < mn && to < mn && from != to && !edge_present(
                            self.genes@,
                            from as int,
                            to as int,
                        ),
                        !found ==> forall|y: int|
                            0 <= y < b && a != y ==> edge_present(self.genes@, a as int, y),
                        !found ==> forall|x: int, y: int|
                            0 <= x < a && 0 <= y < mn && x != y ==> edge_present(self.genes@, x, y),
                    decreases mn - b,
                {
                    if a != b && !edge_exists(&self.genes, a, b) {
                        from = a;
                        to = b;
                        found = true;
                    }
                    b = b + 1;
                }
                a = a + 1;
            }
        }
        if !found {
            assert(saturated(self.genes@));
            return ;
        }
        let w = r.gen_below(1000);
        *inno = *inno + 1;
        let g = Gene { from, to, enabled: true, weight: w as i64, innovation: *inno };
        self.genes.push(g);
        proof {
            assert(self.genes@.subrange(0, old(self).genes@.len() as int) =~= old(self).genes@);
            assert(self.genes@.last() == g);
        }
    }

    /// Splits a random enabled connection to add a node. If there are no
    /// enabled connections, this is a no-op.
    pub fn mutate_add_node(&mut self, r: &mut RngSource, inno: &mut usize)
        requires
            old(self).wf(),
            *old(inno) + 2 <= usize::MAX,
        ensures
            add_node_step(
                old(self).genes@,
                final(self).genes@,
                *old(inno) as int,
                *final(inno) as int,
            ),
            final(self).wf(),
            innovations_bounded(old(self).genes@, *old(inno) as int) ==> innovations_bounded(
                final(self).genes@,
                *final(inno) as int,
            ),
    {
        if !any_enabled(&self.genes) {
            return ;
        }
        let mn = max_neuron_exec(&self.genes);
        let len = self.genes.len();
        let mut i: usize = 0;
        let mut found = false;
        let mut tries: usize = 0;
        proof {
            assert(len >= 1) by {
                assert(has_enabled(self.genes@));
            }
        }
        while tries < 64 && !found
            invariant
                tries <= 64,
                self == old(self),
                len == self.genes@.len(),
                len >= 1,
                found ==> i < len && self.genes@[i as int].enabled,
            decreases 64 - tries,
        {
            tries = tries + 1;
            let k = r.gen_below(len);
            if self.genes[k].enabled {
                i = k;
                found = true;
            }
        }
        if !found {
            // The random draws came up empty: take the first enabled gene,
            // which exists.
            let mut k: usize = 0;
            while k < len && !found
                invariant
                    self == old(self),
                    len == self.genes@.len(),
                    k <= len,
                    found ==> i < len && self.genes@[i as int].enabled,
                    !found ==> forall|j: int| 0 <= j < k ==> !(#[trigger] self.genes@[j].enabled),
                decreases len - k,
            {
                if self.genes[k].enabled {
                    i = k;
                    found = true;
                }
                k = k + 1;
            }
            proof {
                assert(found) by {
                    assert(has_enabled(self.genes@));
                }
            }
        }
        let orig = self.genes[i];
        let mut disabled = orig;
        disabled.enabled = false;
        self.genes[i] = disabled;
        *inno = *inno + 1;
        let g1 = Gene { from: orig.from, to: mn, enabled: true, weight: SCALE, innovation: *inno };
        *inno = *inno + 1;
        let g2 = Gene { from: mn, to: orig.to, enabled: true, weight: orig.weight, innovation: *inno };
        self.genes.push(g1);
        self.genes.push(g2);
        proof {
            assert(split_step(old(self).genes@, self.genes@, i as int, *old(inno) as int)) by {
                assert(self.genes@ =~= old(self).genes@.update(
                    i as int,
                    gene_disabled(old(self).genes@[i as int]),
                ).push(g1).push(g2));
            }
        }
    }

    /// Modifies connection weights: each gene independently moves, with
    /// probability `reweight_rate`, by a uniform amount of at most
    /// `reweight_amount` in either direction.
    pub fn mutate_reweight(&mut self, r: &mut RngSource, params: &Params)
        requires
            old(self).wf(),
            params.valid(),
        ensures
            reweight_step(old(self).genes@, final(self).genes@, params.reweight_amount as int),
            final(self).wf(),
    {
        let len = self.genes.len();
        for idx in 0..len
            invariant
                len == self.genes@.len(),
                len == old(self).genes@.len(),
                params.valid(),
                weights_bounded(old(self).genes@),
                forall|j: int| idx <= j < len ==> self.genes@[j] == old(self).genes@[j],
                forall|j: int|
                    0 <= j < idx ==> {
                        &&& (#[trigger] self.genes@[j]).from == old(self).genes@[j].from
                        &&& self.genes@[j].to == old(self).genes@[j].to
                        &&& self.genes@[j].enabled == old(self).genes@[j].enabled
                        &&& self.genes@[j].innovation == old(self).genes@[j].innovation
                        &&& -params.reweight_amount <= self.genes@[j].weight - old(
                            self,
                        ).genes@[j].weight <= params.reweight_amount
                        &&& -WEIGHT_LIMIT <= self.genes@[j].weight <= WEIGHT_LIMIT
                    },
        {
            let roll = r.gen_below(1000);
            if (roll as i64) < params.reweight_rate {
                let amt = params.reweight_amount;
                let d: i64 = if amt > 0 {
                    let dr = r.gen_below((2 * amt) as usize);
                    (dr as i64) - amt
                } else {
                    0
                };
                let mut g = self.genes[idx];
                g.weight = clamp(-WEIGHT_LIMIT, WEIGHT_LIMIT, g.weight + d);
                self.genes[idx] = g;
            }
        }
    }

    /// Performs a random mutation: selects uniformly among the three
    /// operators and applies exactly one.
    pub fn mutate(&mut self, r: &mut RngSource, inno: &mut usize, params: &Params)
        requires
            old(self).wf(),
            params.valid(),
            *old(inno) + 2 <= usize::MAX,
        ensures
            mutation_step(
                old(self).genes@,
                final(self).genes@,
                *old(inno) as int,
                *final(inno) as int,
                *params,
            ),
            final(self).wf(),
            *old(inno) <= *final(inno) <= *old(inno) + 2,
            innovations_bounded(old(self).genes@, *old(inno) as int) ==> innovations_bounded(
                final(self).genes@,
                *final(inno) as int,
            ),
    {
        let k = r.gen_below(3);
        if k == 0 {
            self.mutate_add_connection(r, inno);
        } else if k == 1 {
            self.mutate_add_node(r, inno);
        } else {
            self.mutate_reweight(r, params);
        }
    }
}

/// One mutation step keeps the genome's innovation numbers positive and
/// strictly increasing, and keeps them at or below the advanced counter,
/// provided they did not outrun the counter before. This is the structural
/// half of the genome invariant; mutation alone cannot establish the
/// source-and-sink shape that `validate` also checks.
pub proof fn lemma_mutation_keeps_innovation_order(
    s: Seq<Gene>,
    t: Seq<Gene>,
    c0: int,
    c1: int,
    p: Params,
)
    requires
        mutation_step(s, t, c0, c1, p),
        innovations_increasing(s),
        innovations_bounded(s, c0),
        0 <= c0,
        c1 <= usize::MAX,
    ensures
        innovations_increasing(t),
        innovations_bounded(t, c1),
{
    if add_connection_step(s, t, c0, c1) {
        if saturated(s) {
        } else {
            assert(forall|j: int|
                0 <= j < s.len() ==> #[trigger] t[j] == s.subrange(0, s.len() as int)[j]);
            assert(forall|j: int| 0 <= j < s.len() ==> #[trigger] t[j] == s[j]);
            assert(t[t.len() - 1] == t.last());
            assert(t.last().innovation == c0 + 1);
            assert forall|j: int| 1 <= j < t.len() implies t[j - 1].innovation < (#[trigger] t[j]).innovation by {
                if j < s.len() {
                } else {
                    assert(t[j].innovation == c0 + 1);
                    if s.len() > 0 {
                        assert(t[j - 1].innovation == s[j - 1].innovation <= c0);
                    }
                }
            }
        }
    } else if add_node_step(s, t, c0, c1) {
        if has_enabled(s) {
            let i = choose|i: int| split_step(s, t, i, c0);
            assert(split_step(s, t, i, c0));
            assert(s.len() >= 1);
            assert(t.len() == s.len() + 2);
            assert(forall|j: int|
                0 <= j < s.len() ==> (#[trigger] t[j]).innovation == s[j].innovation);
            assert(t[s.len() as int].innovation == (c0 + 1) as usize);
            assert(t[s.len() as int + 1].innovation == (c0 + 2) as usize);
            assert forall|j: int| 1 <= j < t.len() implies t[j - 1].innovation < (#[trigger] t[j]).innovation by {
                if j < s.len() {
                } else if j == s.len() {
                    assert(t[j - 1].innovation == s[j - 1].innovation <= c0);
                } else {
                }
            }
        }
    } else {
        assert(reweight_step(s, t, p.reweight_amount as int));
        assert(forall|j: int|
            0 <= j < s.len() ==> (#[trigger] t[j]).innovation == s[j].innovation);
        assert forall|j: int| 1 <= j < t.len() implies t[j - 1].innovation < (#[trigger] t[j]).innovation by {
            assert(s[j - 1].innovation < s[j].innovation);
        }
    }
}

} // verus!
