//! The genome of an organism: an insertion-ordered sequence of connection
//! genes over a sparse directed graph.
//!
//! All genomes share the nodes `0` to `4`: node `0` is the single output and
//! nodes `1` to `4` are the inputs. Any higher node id is a hidden neuron
//! introduced by a split mutation.

use vstd::prelude::*;

use crate::util::WEIGHT_LIMIT;

verus! {

/// A gene that represents a link between nodes in the neural net.
#[derive(Clone, Copy, Debug, PartialEq, Eq, Structural)]
pub struct Gene {
    /// The input node.
    pub from: usize,
    /// The output node.
    pub to: usize,
    /// Whether the gene is enabled or not.
    pub enabled: bool,
    /// The connection weight, in thousandths.
    pub weight: i64,
    /// The innovation number, which is always greater than zero.
    pub innovation: usize,
}

/// The entire genome of an organism.
#[derive(Debug)]
pub struct Genome {
    /// The connection genes.
    pub genes: Vec<Gene>,
}

/// Whether some gene of `s` leaves node `n`.
pub open spec fn appears_as_from(s: Seq<Gene>, n: int) -> bool {
    exists|i: int| 0 <= i < s.len() && #[trigger] s[i].from == n
}

/// Whether some gene of `s` enters node `n`.
pub open spec fn appears_as_to(s: Seq<Gene>, n: int) -> bool {
    exists|i: int| 0 <= i < s.len() && #[trigger] s[i].to == n
}

/// Whether the innovation numbers are positive and strictly increase
/// through the sequence.
pub open spec fn innovations_increasing(s: Seq<Gene>) -> bool {
    &&& (s.len() > 0 ==> s[0].innovation > 0)
    &&& forall|i: int| 1 <= i < s.len() ==> s[i - 1].innovation < #[trigger] s[i].innovation
}

/// The structural genome invariant: among nodes that only ever appear as
/// sources the set is exactly the inputs `{1, 2, 3, 4}`, among nodes that
/// only ever appear as sinks the set is exactly the output `{0}`, and the
/// innovation numbers strictly increase.
pub open spec fn genome_valid(s: Seq<Gene>) -> bool {
    &&& forall|k: int| 1 <= k <= 4 ==> appears_as_from(s, k) && !appears_as_to(s, k)
    &&& appears_as_to(s, 0) && !appears_as_from(s, 0)
    &&& forall|i: int|
        0 <= i < s.len() ==> (1 <= #[trigger] s[i].from <= 4 || appears_as_to(s, s[i].from as int))
    &&& forall|i: int|
        0 <= i < s.len() ==> (#[trigger] s[i].to == 0 || appears_as_from(s, s[i].to as int))
    &&& innovations_increasing(s)
}

/// Whether every weight of `s` lies in the fixed-point range the engine's
/// arithmetic is proved exact on.
pub open spec fn weights_bounded(s: Seq<Gene>) -> bool {
    forall|i: int| 0 <= i < s.len() ==> -WEIGHT_LIMIT <= #[trigger] s[i].weight <= WEIGHT_LIMIT
}

/// Whether every innovation number of `s` is at most `c`.
pub open spec fn innovations_bounded(s: Seq<Gene>, c: int) -> bool {
    forall|i: int| 0 <= i < s.len() ==> #[trigger] s[i].innovation <= c
}

/// Whether `s` holds at least one enabled gene.
pub open spec fn has_enabled(s: Seq<Gene>) -> bool {
    exists|i: int| 0 <= i < s.len() && #[trigger] s[i].enabled
}

/// The largest `to` node id of `s`, or `0` if `s` is empty.
pub open spec fn max_to(s: Seq<Gene>) -> int
    decreases s.len(),
{
    if s.len() == 0 {
        0
    } else {
        let rest = max_to(s.drop_last());
        if s.last().to > rest {
            s.last().to as int
        } else {
            rest
        }
    }
}

/// The number of neurons a mutation may pick node ids below: the largest
/// `to` id seen, or `5` while the genome is still small.
pub open spec fn max_neuron(s: Seq<Gene>) -> int {
    if max_to(s) > 5 {
        max_to(s)
    } else {
        5
    }
}

/// Whether `s` links `a` and `b` in either direction.
pub open spec fn edge_present(s: Seq<Gene>, a: int, b: int) -> bool {
    exists|i: int|
        0 <= i < s.len() && ((#[trigger] s[i].from == a && s[i].to == b) || (s[i].from == b
            && s[i].to == a))
}

impl View for Genome {
    type V = Seq<Gene>;

    open spec fn view(&self) -> Seq<Gene> {
        self.genes@
    }
}

impl Genome {
    /// The weight bound under which the distance metric and the network
    /// evaluator are proved exact.
    pub open spec fn wf(self) -> bool {
        weights_bounded(self.genes@)
    }

    /// Creates a new, empty genome.
    pub fn new() -> (r: Genome)
        ensures
            r.genes@ =~= Seq::<Gene>::empty(),
            r.wf(),
    {
        Genome { genes: Vec::new() }
    }

    /// Returns the number of genes in the genome.
    pub fn len(&self) -> (r: usize)
        ensures
            r == self.genes@.len(),
    {
        self.genes.len()
    }

    /// Returns whether this represents a valid genome.
    ///
    /// This is a somewhat expensive operation.
    pub fn validate(&self) -> (r: bool)
        ensures
            r == genome_valid(self.genes@),
    {
        for k in 1..5usize
            invariant
                forall|j: int| 1 <= j < k ==> appears_as_from(self.genes@, j) && !appears_as_to(self.genes@, j),
        {
            if !has_from(&self.genes, k) || has_to(&self.genes, k) {
                return false;
            }
        }
        if !has_to(&self.genes, 0) || has_from(&self.genes, 0) {
            return false;
        }
        let n = self.genes.len();
        for i in 0..n
            invariant
                n == self.genes@.len(),
                forall|j: int|
                    0 <= j < i ==> (1 <= #[trigger] self.genes@[j].from <= 4 || appears_as_to(
                        self.genes@,
                        self.genes@[j].from as int,
                    )),
        {
            let f = self.genes[i].from;
            if !(1 <= f && f <= 4) && !has_to(&self.genes, f) {
                return false;
            }
        }
        for i in 0..n
            invariant
                n == self.genes@.len(),
                forall|j: int|
                    0 <= j < i ==> (#[trigger] self.genes@[j].to == 0 || appears_as_from(
                        self.genes@,
                        self.genes@[j].to as int,
                    )),
        {
            let t = self.genes[i].to;
            if t != 0 && !has_from(&self.genes, t) {
                return false;
            }
        }
        let mut last: usize = 0;
        for i in 0..n
            invariant
                n == self.genes@.len(),
                i > 0 ==> last == self.genes@[i - 1].innovation,
                i == 0 ==> last == 0,
                i > 0 ==> self.genes@[0].innovation > 0,
                forall|j: int| 1 <= j < i ==> self.genes@[j - 1].innovation < #[trigger] self.genes@[j].innovation,
        {
            if self.genes[i].innovation <= last {
                return false;
            }
            last = self.genes[i].innovation;
        }
        true
    }

    /// Copies the genome, gene for gene.
    pub fn duplicate(&self) -> (r: Genome)
        ensures
            r.genes@ == self.genes@,
    {
        let genes = self.genes.clone();
        assert(genes@ =~= self.genes@);
        Genome { genes }
    }
}

/// Whether some gene of `genes` leaves node `n`.
fn has_from(genes: &Vec<Gene>, n: usize) -> (r: bool)
    ensures
        r == appears_as_from(genes@, n as int),
{
    let len = genes.len();
    for i in 0..len
        invariant
            len == genes@.len(),
            forall|j: int| 0 <= j < i ==> #[trigger] genes@[j].from != n,
    {
        if genes[i].from == n {
            return true;
        }
    }
    false
}

/// Whether some gene of `genes` enters node `n`.
fn has_to(genes: &Vec<Gene>, n: usize) -> (r: bool)
    ensures
        r == appears_as_to(genes@, n as int),
{
    let len = genes.len();
    for i in 0..len
        invariant
            len == genes@.len(),
            forall|j: int| 0 <= j < i ==> #[trigger] genes@[j].to != n,
    {
        if genes[i].to == n {
            return true;
        }
    }
    false
}

} // verus!
