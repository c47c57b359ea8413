//! Pairwise gene classification and the genetic-distance metric.

use vstd::multiset::Multiset;
use vstd::prelude::*;

use crate::genome::{weights_bounded, Gene, Genome};
use crate::params::Params;
use crate::rng::RngSource;
use crate::species::{genome_views, genomes_wf, Species};
use crate::util::{COEFF_LIMIT, SCALE, WEIGHT_LIMIT};

verus! {

broadcast use vstd::seq_lib::group_to_multiset_ensures;

/// The "classification" of a gene.
#[derive(Clone, Copy, Debug, PartialEq, Eq, Structural)]
pub enum GeneClass {
    /// The gene appears in both genomes. The parameter is the absolute
    /// difference between the weights.
    Matching(i64),
    /// The gene appears only in the left organism, and evolved more recently
    /// than any of the other's genes.
    ExcessLeft,
    /// The gene appears only in the right organism, and evolved more
    /// recently than any of the other's genes.
    ExcessRight,
    /// The gene appears only in the left organism, and is not an excess
    /// gene.
    DisjointLeft,
    /// The gene appears only in the right organism, and is not an excess
    /// gene.
    DisjointRight,
}

/// The largest innovation number of `s`, or `0` if `s` is empty.
pub open spec fn max_innovation(s: Seq<Gene>) -> int
    decreases s.len(),
{
    if s.len() == 0 {
        0
    } else {
        let rest = max_innovation(s.drop_last());
        if s.last().innovation > rest {
            s.last().innovation as int
        } else {
            rest
        }
    }
}

/// Whether some gene of `s` carries innovation number `n`.
pub open spec fn has_innovation(s: Seq<Gene>, n: int) -> bool {
    exists|i: int| 0 <= i < s.len() && #[trigger] s[i].innovation == n
}

/// The weight of the first gene of `s` carrying innovation number `n`, or
/// `0` when there is none.
pub open spec fn weight_of(s: Seq<Gene>, n: int) -> int
    decreases s.len(),
{
    if s.len() == 0 {
        0
    } else if s[0].innovation == n {
        s[0].weight as int
    } else {
        weight_of(s.subrange(1, s.len() as int), n)
    }
}

/// The absolute difference.
pub open spec fn abs_diff(a: int, b: int) -> int {
    if a >= b {
        a - b
    } else {
        b - a
    }
}

/// How innovation number `n` is classified between the two genomes, if it
/// appears in either.
pub open spec fn class_at(s1: Seq<Gene>, s2: Seq<Gene>, n: int) -> Option<GeneClass> {
    if has_innovation(s1, n) && has_innovation(s2, n) {
        Some(GeneClass::Matching(abs_diff(weight_of(s1, n), weight_of(s2, n)) as i64))
    } else if has_innovation(s1, n) {
        Some(
            if n > max_innovation(s2) {
                GeneClass::ExcessLeft
            } else {
                GeneClass::DisjointLeft
            },
        )
    } else if has_innovation(s2, n) {
        Some(
            if n > max_innovation(s1) {
                GeneClass::ExcessRight
            } else {
                GeneClass::DisjointRight
            },
        )
    } else {
        None
    }
}

/// The classifications of the innovation numbers `0` to `n` exclusive, in
/// order, with the absent ones skipped.
pub open spec fn classes_upto(s1: Seq<Gene>, s2: Seq<Gene>, n: nat) -> Seq<GeneClass>
    decreases n,
{
    if n == 0 {
        Seq::empty()
    } else {
        classes_upto(s1, s2, (n - 1) as nat) + match class_at(s1, s2, n - 1) {
            Some(c) => seq![c],
            None => Seq::empty(),
        }
    }
}

/// The innovation range the classification walks: the larger of the two
/// genomes' largest innovation numbers.
pub open spec fn innovation_range(s1: Seq<Gene>, s2: Seq<Gene>) -> int {
    if max_innovation(s1) > max_innovation(s2) {
        max_innovation(s1)
    } else {
        max_innovation(s2)
    }
}

/// What `classify_genes` returns.
pub open spec fn gene_classes(s1: Seq<Gene>, s2: Seq<Gene>) -> Seq<GeneClass> {
    classes_upto(s1, s2, innovation_range(s1, s2) as nat)
}

/// The number of excess classifications.
pub open spec fn excess_count(cs: Seq<GeneClass>) -> int
    decreases cs.len(),
{
    if cs.len() == 0 {
        0
    } else {
        excess_count(cs.drop_last()) + match cs.last() {
            GeneClass::ExcessLeft => 1int,
            GeneClass::ExcessRight => 1int,
            _ => 0int,
        }
    }
}

/// The number of disjoint classifications.
pub open spec fn disjoint_count(cs: Seq<GeneClass>) -> int
    decreases cs.len(),
{
    if cs.len() == 0 {
        0
    } else {
        disjoint_count(cs.drop_last()) + match cs.last() {
            GeneClass::DisjointLeft => 1int,
            GeneClass::DisjointRight => 1int,
            _ => 0int,
        }
    }
}

/// The sum of the matching classifications' weight differences.
pub open spec fn matching_sum(cs: Seq<GeneClass>) -> int
    decreases cs.len(),
{
    if cs.len() == 0 {
        0
    } else {
        matching_sum(cs.drop_last()) + match cs.last() {
            GeneClass::Matching(x) => x as int,
            _ => 0int,
        }
    }
}

/// The normalisation count `N`: the longer genome's gene count, or `1` when
/// both genomes have fewer than twenty genes.
pub open spec fn normalizer(s1: Seq<Gene>, s2: Seq<Gene>) -> int {
    if s1.len() < 20 && s2.len() < 20 {
        1
    } else if s1.len() >= s2.len() {
        s1.len() as int
    } else {
        s2.len() as int
    }
}

/// The numerator of the difference value, in thousandths once divided by
/// the denominator: `(c1*E + c2*D)*SCALE + c3*Wsum`.
pub open spec fn difference_num(s1: Seq<Gene>, s2: Seq<Gene>, p: Params) -> int {
    (p.c1 * excess_count(gene_classes(s1, s2)) + p.c2 * disjoint_count(gene_classes(s1, s2)))
        * SCALE + p.c3 * matching_sum(gene_classes(s1, s2))
}

/// The denominator of the difference value: `SCALE * N`.
pub open spec fn difference_den(s1: Seq<Gene>, s2: Seq<Gene>) -> int {
    SCALE * normalizer(s1, s2)
}

/// The difference between two organisms, as the exact rational
/// `num / den`, in thousandths.
#[derive(Clone, Copy, Debug, PartialEq, Eq, Structural)]
pub struct Delta {
    /// The numerator.
    pub num: u128,
    /// The denominator; always positive.
    pub den: u128,
}

impl Delta {
    /// Whether the difference value is below the threshold `cutoff`, given
    /// in thousandths.
    pub fn below(&self, cutoff: i64) -> (r: bool)
        requires
            0 <= cutoff <= COEFF_LIMIT,
            self.den <= SCALE * (usize::MAX as int),
        ensures
            r == (self.num < cutoff * self.den),
    {
        proof {
            vstd::arithmetic::mul::lemma_mul_upper_bound(
                cutoff as int,
                COEFF_LIMIT as int,
                self.den as int,
                SCALE * (usize::MAX as int),
            );
        }
        self.num < (cutoff as u128) * self.den
    }
}

/// The largest innovation number, or `0` for an empty genome.
fn max_innovation_exec(genes: &[Gene]) -> (r: usize)
    ensures
        r as int == max_innovation(genes@),
{
    let len = genes.len();
    let mut m: usize = 0;
    for i in 0..len
        invariant
            len == genes@.len(),
            m as int == max_innovation(genes@.take(i as int)),
    {
        proof {
            assert(genes@.take(i + 1).drop_last() =~= genes@.take(i as int));
        }
        if genes[i].innovation > m {
            m = genes[i].innovation;
        }
    }
    proof {
        assert(genes@.take(len as int) =~= genes@);
    }
    m
}

/// The weight of the first gene carrying innovation number `n`, if any.
fn find_weight(genes: &[Gene], n: usize) -> (r: Option<i64>)
    ensures
        r is Some <==> has_innovation(genes@, n as int),
        r is Some ==> r->0 == weight_of(genes@, n as int),
{
    let len = genes.len();
    proof {
        assert(genes@.skip(0) =~= genes@);
    }
    for i in 0..len
        invariant
            len == genes@.len(),
            forall|j: int| 0 <= j < i ==> #[trigger] genes@[j].innovation != n,
            weight_of(genes@, n as int) == weight_of(genes@.skip(i as int), n as int),
    {
        proof {
            assert(genes@.skip(i as int).subrange(1, genes@.skip(i as int).len() as int)
                =~= genes@.skip(i + 1));
            assert(genes@.skip(i as int)[0] == genes@[i as int]);
        }
        if genes[i].innovation == n {
            return Some(genes[i].weight);
        }
    }
    None
}

/// Classifies the genes of each of two organisms: for every innovation
/// number below the pair's innovation range, whether it matches, is
/// disjoint, or is excess, and on which side.
pub fn classify_genes(g1: &[Gene], g2: &[Gene]) -> (r: Vec<GeneClass>)
    requires
        weights_bounded(g1@),
        weights_bounded(g2@),
    ensures
        r@ == gene_classes(g1@, g2@),
{
    let max_l = max_innovation_exec(g1);
    let max_r = max_innovation_exec(g2);
    let m = if max_l > max_r {
        max_l
    } else {
        max_r
    };
    let mut out: Vec<GeneClass> = Vec::new();
    for n in 0..m
        invariant
            max_l as int == max_innovation(g1@),
            max_r as int == max_innovation(g2@),
            m as int == innovation_range(g1@, g2@),
            weights_bounded(g1@),
            weights_bounded(g2@),
            out@ == classes_upto(g1@, g2@, n as nat),
    {
        let w1 = find_weight(g1, n);
        let w2 = find_weight(g2, n);
        match (w1, w2) {
            (Some(a), Some(b)) => {
                proof {
                    lemma_weight_of_bounded(g1@, n as int);
                    lemma_weight_of_bounded(g2@, n as int);
                }
                let d = if a >= b {
                    a - b
                } else {
                    b - a
                };
                out.push(GeneClass::Matching(d));
            },
            (Some(_), None) => {
                out.push(
                    if n > max_r {
                        GeneClass::ExcessLeft
                    } else {
                        GeneClass::DisjointLeft
                    },
                );
            },
            (None, Some(_)) => {
                out.push(
                    if n > max_l {
                        GeneClass::ExcessRight
                    } else {
                        GeneClass::DisjointRight
                    },
                );
            },
            (None, None) => {},
        }
    }
    out
}

/// The first gene's weight stays inside the fixed-point range whenever the
/// whole genome's weights do.
proof fn lemma_weight_of_bounded(s: Seq<Gene>, n: int)
    requires
        weights_bounded(s),
    ensures
        -WEIGHT_LIMIT <= weight_of(s, n) <= WEIGHT_LIMIT,
    decreases s.len(),
{
    if s.len() == 0 {
    } else if s[0].innovation == n {
    } else {
        let tail = s.subrange(1, s.len() as int);
        assert(weights_bounded(tail)) by {
            assert(forall|i: int| 0 <= i < tail.len() ==> #[trigger] tail[i] == s[i + 1]);
        }
        lemma_weight_of_bounded(tail, n);
    }
}

/// Every matching classification's weight difference lies within twice the
/// weight range.
proof fn lemma_classes_payload(s1: Seq<Gene>, s2: Seq<Gene>, n: nat)
    requires
        weights_bounded(s1),
        weights_bounded(s2),
    ensures
        forall|k: int|
            0 <= k < classes_upto(s1, s2, n).len() ==> (match #[trigger] classes_upto(
                s1,
                s2,
                n,
            )[k] {
                GeneClass::Matching(x) => 0 <= x <= 2 * WEIGHT_LIMIT,
                _ => true,
            }),
    decreases n,
{
    if n == 0 {
    } else {
        lemma_classes_payload(s1, s2, (n - 1) as nat);
        lemma_weight_of_bounded(s1, n - 1);
        lemma_weight_of_bounded(s2, n - 1);
    }
}

/// Computes the difference between two organisms: the weighted counts of
/// excess and disjoint genes plus the weighted sum of matching-gene weight
/// differences, normalised by the longer genome's length (or by one for a
/// pair of small genomes), as an exact rational.
pub fn difference(g1: &Genome, g2: &Genome, params: &Params) -> (r: Delta)
    requires
        g1.wf(),
        g2.wf(),
        params.valid(),
    ensures
        r.num == difference_num(g1.genes@, g2.genes@, *params),
        r.den == difference_den(g1.genes@, g2.genes@),
        0 < r.den <= SCALE * (usize::MAX as int),
{
    let classes = classify_genes(g1.genes.as_slice(), g2.genes.as_slice());
    proof {
        lemma_classes_payload(g1.genes@, g2.genes@, innovation_range(g1.genes@, g2.genes@) as nat);
    }
    let len = classes.len();
    let mut e: u64 = 0;
    let mut d: u64 = 0;
    let mut w: u128 = 0;
    for i in 0..len
        invariant
            len == classes@.len(),
            classes@ == gene_classes(g1.genes@, g2.genes@),
            forall|k: int|
                0 <= k < classes@.len() ==> (match #[trigger] classes@[k] {
                    GeneClass::Matching(x) => 0 <= x <= 2 * WEIGHT_LIMIT,
                    _ => true,
                }),
            e as int == excess_count(classes@.take(i as int)),
            d as int == disjoint_count(classes@.take(i as int)),
            w as int == matching_sum(classes@.take(i as int)),
            e <= i,
            d <= i,
            w <= i as int * (2 * WEIGHT_LIMIT),
    {
        proof {
            assert(classes@.take(i + 1).drop_last() =~= classes@.take(i as int));
            vstd::arithmetic::mul::lemma_mul_is_distributive_add_other_way(
                2 * WEIGHT_LIMIT as int,
                i as int,
                1,
            );
        }
        match classes[i] {
            GeneClass::Matching(x) => {
                proof {
                    vstd::arithmetic::mul::lemma_mul_upper_bound(
                        i as int,
                        usize::MAX as int,
                        2 * WEIGHT_LIMIT as int,
                        2 * WEIGHT_LIMIT as int,
                    );
                    vstd::arithmetic::mul::lemma_mul_upper_bound(
                        usize::MAX as int,
                        u64::MAX as int,
                        2 * WEIGHT_LIMIT as int,
                        2 * WEIGHT_LIMIT as int,
                    );
                }
                w = w + (x as u128);
            },
            GeneClass::ExcessLeft => {
                e = e + 1;
            },
            GeneClass::ExcessRight => {
                e = e + 1;
            },
            GeneClass::DisjointLeft => {
                d = d + 1;
            },
            GeneClass::DisjointRight => {
                d = d + 1;
            },
        }
    }
    proof {
        assert(classes@.take(len as int) =~= classes@);
    }
    let n1 = g1.genes.len();
    let n2 = g2.genes.len();
    let n: usize = if n1 < 20 && n2 < 20 {
        1
    } else if n1 >= n2 {
        n1
    } else {
        n2
    };
    proof {
        let c1 = params.c1 as int;
        let c2 = params.c2 as int;
        let c3 = params.c3 as int;
        vstd::arithmetic::mul::lemma_mul_upper_bound(c1, COEFF_LIMIT as int, e as int, u64::MAX as int);
        vstd::arithmetic::mul::lemma_mul_upper_bound(c2, COEFF_LIMIT as int, d as int, u64::MAX as int);
        vstd::arithmetic::mul::lemma_mul_upper_bound(
            c3,
            COEFF_LIMIT as int,
            w as int,
            u64::MAX as int * (2 * WEIGHT_LIMIT),
        );
        vstd::arithmetic::mul::lemma_mul_upper_bound(
            w as int,
            u64::MAX as int * (2 * WEIGHT_LIMIT),
            1,
            1,
        );
        vstd::arithmetic::mul::lemma_mul_inequality(
            w as int,
            u64::MAX as int * (2 * WEIGHT_LIMIT),
            c3,
        );
        vstd::arithmetic::mul::lemma_mul_upper_bound(1000, 1000, n as int, usize::MAX as int);
    }
    let num: u128 = ((params.c1 as u128) * (e as u128) + (params.c2 as u128) * (d as u128)) * 1000
        + (params.c3 as u128) * w;
    let den: u128 = 1000 * (n as u128);
    Delta { num, den }
}

/// The difference of a genome with itself is zero: every innovation number
/// present classifies as a matching gene with weight difference zero, so
/// both counts and the weight sum vanish.
pub proof fn lemma_difference_self(s: Seq<Gene>, p: Params)
    ensures
        difference_num(s, s, p) == 0,
{
    lemma_counts_self(s, innovation_range(s, s) as nat);
}

/// All classification counts of a genome against itself are zero.
proof fn lemma_counts_self(s: Seq<Gene>, n: nat)
    ensures
        excess_count(classes_upto(s, s, n)) == 0,
        disjoint_count(classes_upto(s, s, n)) == 0,
        matching_sum(classes_upto(s, s, n)) == 0,
    decreases n,
{
    if n == 0 {
    } else {
        lemma_counts_self(s, (n - 1) as nat);
        let prev = classes_upto(s, s, (n - 1) as nat);
        let cur = classes_upto(s, s, n);
        match class_at(s, s, n - 1) {
            Some(c) => {
                assert(c == GeneClass::Matching(0));
                assert(cur.drop_last() =~= prev);
                assert(cur.last() == c);
            },
            None => {
                assert(cur =~= prev);
            },
        }
    }
}

/// The difference is symmetric: swapping the genomes mirrors every
/// classification left-for-right and keeps every matching weight
/// difference, so the counts, the weight sum, and the normaliser agree.
pub proof fn lemma_difference_symmetric(s1: Seq<Gene>, s2: Seq<Gene>, p: Params)
    ensures
        difference_num(s1, s2, p) == difference_num(s2, s1, p),
        difference_den(s1, s2) == difference_den(s2, s1),
{
    lemma_counts_symmetric(s1, s2, innovation_range(s1, s2) as nat);
}

/// The classification counts are mirror images under swapping the genomes.
proof fn lemma_counts_symmetric(s1: Seq<Gene>, s2: Seq<Gene>, n: nat)
    ensures
        excess_count(classes_upto(s1, s2, n)) == excess_count(classes_upto(s2, s1, n)),
        disjoint_count(classes_upto(s1, s2, n)) == disjoint_count(classes_upto(s2, s1, n)),
        matching_sum(classes_upto(s1, s2, n)) == matching_sum(classes_upto(s2, s1, n)),
    decreases n,
{
    if n == 0 {
    } else {
        lemma_counts_symmetric(s1, s2, (n - 1) as nat);
        let prev12 = classes_upto(s1, s2, (n - 1) as nat);
        let prev21 = classes_upto(s2, s1, (n - 1) as nat);
        let cur12 = classes_upto(s1, s2, n);
        let cur21 = classes_upto(s2, s1, n);
        match class_at(s1, s2, n - 1) {
            Some(c) => {
                assert(class_at(s2, s1, n - 1) is Some);
                let m = class_at(s2, s1, n - 1)->0;
                assert(cur12.drop_last() =~= prev12);
                assert(cur21.drop_last() =~= prev21);
                assert(cur12.last() == c);
                assert(cur21.last() == m);
                assert(match c {
                    GeneClass::Matching(x) => m == GeneClass::Matching(x),
                    GeneClass::ExcessLeft => m == GeneClass::ExcessRight,
                    GeneClass::ExcessRight => m == GeneClass::ExcessLeft,
                    GeneClass::DisjointLeft => m == GeneClass::DisjointRight,
                    GeneClass::DisjointRight => m == GeneClass::DisjointLeft,
                });
            },
            None => {
                assert(class_at(s2, s1, n - 1) is None);
                assert(cur12 =~= prev12);
                assert(cur21 =~= prev21);
            },
        }
    }
}

/// Whether the organism `g` falls strictly within the species cutoff of the
/// exemplar `e`.
pub open spec fn within_cutoff(e: Seq<Gene>, g: Seq<Gene>, p: Params) -> bool {
    difference_num(e, g, p) < p.delta_cutoff * difference_den(e, g)
}

/// The first exemplar index whose difference to the organism is below the
/// cutoff, or `-1` when there is none.
pub open spec fn first_match(g: Seq<Gene>, ex: Seq<Seq<Gene>>, p: Params) -> int
    decreases ex.len(),
{
    if ex.len() == 0 {
        -1
    } else if within_cutoff(ex[0], g, p) {
        0
    } else {
        let r = first_match(g, ex.subrange(1, ex.len() as int), p);
        if r == -1 {
            -1
        } else {
            r + 1
        }
    }
}

/// `first_match` returns the smallest matching index, and `-1` exactly when
/// nothing matches.
proof fn lemma_first_match(g: Seq<Gene>, ex: Seq<Seq<Gene>>, p: Params)
    ensures
        ({
            let m = first_match(g, ex, p);
            &&& (m == -1 <==> forall|k: int| 0 <= k < ex.len() ==> !within_cutoff(ex[k], g, p))
            &&& (m != -1 ==> 0 <= m < ex.len() && within_cutoff(ex[m], g, p) && (forall|k: int|
                0 <= k < m ==> !within_cutoff(ex[k], g, p)))
        }),
    decreases ex.len(),
{
    if ex.len() == 0 {
    } else if within_cutoff(ex[0], g, p) {
    } else {
        let tail = ex.subrange(1, ex.len() as int);
        lemma_first_match(g, tail, p);
        assert(forall|k: int| 0 <= k < tail.len() ==> tail[k] == ex[k + 1]);
        let r = first_match(g, tail, p);
        if r == -1 {
            assert forall|k: int| 0 <= k < ex.len() implies !within_cutoff(ex[k], g, p) by {
                if k >= 1 {
                    assert(!within_cutoff(tail[k - 1], g, p));
                }
            }
        } else {
            assert(within_cutoff(ex[r + 1], g, p)) by {
                assert(within_cutoff(tail[r], g, p));
            }
            assert forall|k: int| 0 <= k < r + 1 implies !within_cutoff(ex[k], g, p) by {
                if k >= 1 {
                    assert(!within_cutoff(tail[k - 1], g, p));
                }
            }
        }
    }
}

/// The exemplar list after the organisms have been scanned in order: each
/// organism that matched no exemplar was appended as a fresh one.
pub open spec fn exemplars_after(orgs: Seq<Seq<Gene>>, ex0: Seq<Seq<Gene>>, p: Params) -> Seq<
    Seq<Gene>,
>
    decreases orgs.len(),
{
    if orgs.len() == 0 {
        ex0
    } else {
        let ex = exemplars_after(orgs.drop_last(), ex0, p);
        if first_match(orgs.last(), ex, p) >= 0 {
            ex
        } else {
            ex.push(orgs.last())
        }
    }
}

/// The species index each organism is assigned, in scan order: the first
/// matching exemplar's index, or the index of the species the organism
/// founds.
pub open spec fn assignment(orgs: Seq<Seq<Gene>>, ex0: Seq<Seq<Gene>>, p: Params) -> Seq<int>
    decreases orgs.len(),
{
    if orgs.len() == 0 {
        Seq::empty()
    } else {
        let prev = assignment(orgs.drop_last(), ex0, p);
        let ex = exemplars_after(orgs.drop_last(), ex0, p);
        let m = first_match(orgs.last(), ex, p);
        prev.push(
            if m >= 0 {
                m
            } else {
                ex.len() as int
            },
        )
    }
}

/// The organisms assigned to bucket `k`, in scan order.
pub open spec fn members_of(orgs: Seq<Seq<Gene>>, asg: Seq<int>, k: int) -> Seq<Seq<Gene>>
    decreases orgs.len(),
{
    if orgs.len() == 0 {
        Seq::empty()
    } else {
        let prev = members_of(orgs.drop_last(), asg.drop_last(), k);
        if asg.len() == orgs.len() && asg.last() == k {
            prev.push(orgs.last())
        } else {
            prev
        }
    }
}

/// Every bucket, in creation order: one per previous species, then one per
/// founded species.
pub open spec fn all_buckets(orgs: Seq<Seq<Gene>>, ex0: Seq<Seq<Gene>>, p: Params) -> Seq<
    Seq<Seq<Gene>>,
> {
    Seq::new(
        exemplars_after(orgs, ex0, p).len(),
        |k: int| members_of(orgs, assignment(orgs, ex0, p), k),
    )
}

/// The buckets that kept at least one member, in order.
pub open spec fn nonempty_buckets(bs: Seq<Seq<Seq<Gene>>>) -> Seq<Seq<Seq<Gene>>>
    decreases bs.len(),
{
    if bs.len() == 0 {
        Seq::empty()
    } else {
        let prev = nonempty_buckets(bs.drop_last());
        if bs.last().len() > 0 {
            prev.push(bs.last())
        } else {
            prev
        }
    }
}

/// What `classify_species` returns for a given initial exemplar draw.
pub open spec fn speciate(orgs: Seq<Seq<Gene>>, ex0: Seq<Seq<Gene>>, p: Params) -> Seq<
    Seq<Seq<Gene>>,
> {
    nonempty_buckets(all_buckets(orgs, ex0, p))
}

/// The views of a sequence of species.
pub open spec fn species_views(ss: Seq<Species>) -> Seq<Seq<Seq<Gene>>> {
    ss.map_values(|s: Species| s@)
}

/// The multiset of genomes held across a sequence of buckets.
pub open spec fn buckets_multiset(bs: Seq<Seq<Seq<Gene>>>) -> Multiset<Seq<Gene>>
    decreases bs.len(),
{
    if bs.len() == 0 {
        Multiset::empty()
    } else {
        buckets_multiset(bs.drop_last()).add(bs.last().to_multiset())
    }
}

/// Dropping the empty buckets does not change the collection of organisms.
proof fn lemma_nonempty_multiset(bs: Seq<Seq<Seq<Gene>>>)
    ensures
        buckets_multiset(nonempty_buckets(bs)) == buckets_multiset(bs),
    decreases bs.len(),
{
    if bs.len() == 0 {
    } else {
        lemma_nonempty_multiset(bs.drop_last());
        let ne = nonempty_buckets(bs);
        if bs.last().len() > 0 {
            assert(ne.drop_last() =~= nonempty_buckets(bs.drop_last()));
            assert(ne.last() == bs.last());
        } else {
            assert(ne =~= nonempty_buckets(bs.drop_last()));
            assert(bs.last().to_multiset() =~= Multiset::<Seq<Gene>>::empty());
            assert(buckets_multiset(bs) =~= buckets_multiset(bs.drop_last()));
        }
    }
}

/// The multiset of organisms over the first `t` buckets.
spec fn bucket_sum(orgs: Seq<Seq<Gene>>, asg: Seq<int>, t: nat) -> Multiset<Seq<Gene>>
    decreases t,
{
    if t == 0 {
        Multiset::empty()
    } else {
        bucket_sum(orgs, asg, (t - 1) as nat).add(members_of(orgs, asg, t - 1).to_multiset())
    }
}

/// Without organisms every bucket is empty.
proof fn lemma_bucket_sum_empty(asg: Seq<int>, t: nat)
    ensures
        bucket_sum(Seq::<Seq<Gene>>::empty(), asg, t) == Multiset::<Seq<Gene>>::empty(),
    decreases t,
{
    if t == 0 {
    } else {
        lemma_bucket_sum_empty(asg, (t - 1) as nat);
        assert(members_of(Seq::<Seq<Gene>>::empty(), asg, t - 1).to_multiset() =~= Multiset::<
            Seq<Gene>,
        >::empty());
        assert(bucket_sum(Seq::<Seq<Gene>>::empty(), asg, t) =~= Multiset::<Seq<Gene>>::empty());
    }
}

/// Removing the last organism removes exactly it from its bucket's sum.
proof fn lemma_bucket_sum_step(orgs: Seq<Seq<Gene>>, asg: Seq<int>, t: nat)
    requires
        orgs.len() >= 1,
        asg.len() == orgs.len(),
    ensures
        bucket_sum(orgs, asg, t) == if 0 <= asg.last() < t {
            bucket_sum(orgs.drop_last(), asg.drop_last(), t).insert(orgs.last())
        } else {
            bucket_sum(orgs.drop_last(), asg.drop_last(), t)
        },
    decreases t,
{
    if t == 0 {
    } else {
        lemma_bucket_sum_step(orgs, asg, (t - 1) as nat);
        let prev_members = members_of(orgs.drop_last(), asg.drop_last(), t - 1);
        if asg.last() == t - 1 {
            assert(members_of(orgs, asg, t - 1) == prev_members.push(orgs.last()));
            assert(bucket_sum(orgs, asg, t) =~= bucket_sum(
                orgs.drop_last(),
                asg.drop_last(),
                t,
            ).insert(orgs.last()));
        } else {
            assert(members_of(orgs, asg, t - 1) == prev_members);
            if 0 <= asg.last() < t - 1 {
                assert(bucket_sum(orgs, asg, t) =~= bucket_sum(
                    orgs.drop_last(),
                    asg.drop_last(),
                    t,
                ).insert(orgs.last()));
            } else {
                assert(bucket_sum(orgs, asg, t) =~= bucket_sum(
                    orgs.drop_last(),
                    asg.drop_last(),
                    t,
                ));
            }
        }
    }
}

/// The buckets partition the organisms: summed over all buckets, every
/// organism appears exactly as often as it was handed in.
proof fn lemma_partition(orgs: Seq<Seq<Gene>>, asg: Seq<int>, t: nat)
    requires
        asg.len() == orgs.len(),
        forall|i: int| 0 <= i < asg.len() ==> 0 <= #[trigger] asg[i] < t,
    ensures
        bucket_sum(orgs, asg, t) == orgs.to_multiset(),
    decreases orgs.len(),
{
    if orgs.len() == 0 {
        lemma_bucket_sum_empty(asg, t);
        assert(orgs.to_multiset() =~= Multiset::<Seq<Gene>>::empty());
        assert(asg =~= Seq::<int>::empty());
        assert(orgs =~= Seq::<Seq<Gene>>::empty());
    } else {
        lemma_bucket_sum_step(orgs, asg, t);
        lemma_partition(orgs.drop_last(), asg.drop_last(), t);
        assert(orgs =~= orgs.drop_last().push(orgs.last()));
        assert(orgs.to_multiset() == orgs.drop_last().to_multiset().insert(orgs.last()));
    }
}

/// The recursive bucket sum is the multiset over the bucket sequence.
proof fn lemma_bucket_sum_is_buckets(orgs: Seq<Seq<Gene>>, asg: Seq<int>, t: nat)
    ensures
        buckets_multiset(Seq::new(t, |k: int| members_of(orgs, asg, k))) == bucket_sum(
            orgs,
            asg,
            t,
        ),
    decreases t,
{
    if t == 0 {
        assert(Seq::new(0, |k: int| members_of(orgs, asg, k)) =~= Seq::<Seq<Seq<Gene>>>::empty());
    } else {
        lemma_bucket_sum_is_buckets(orgs, asg, (t - 1) as nat);
        let cur = Seq::new(t, |k: int| members_of(orgs, asg, k));
        assert(cur.drop_last() =~= Seq::new((t - 1) as nat, |k: int| members_of(orgs, asg, k)));
        assert(cur.last() == members_of(orgs, asg, t - 1));
    }
}

/// Every member of a bucket is one of the organisms.
proof fn lemma_members_subset(orgs: Seq<Seq<Gene>>, asg: Seq<int>, k: int)
    ensures
        forall|j: int|
            0 <= j < members_of(orgs, asg, k).len() ==> orgs.contains(
                #[trigger] members_of(orgs, asg, k)[j],
            ),
    decreases orgs.len(),
{
    if orgs.len() == 0 {
    } else {
        lemma_members_subset(orgs.drop_last(), asg.drop_last(), k);
        let m = members_of(orgs, asg, k);
        let prev = members_of(orgs.drop_last(), asg.drop_last(), k);
        assert forall|j: int| 0 <= j < m.len() implies orgs.contains(m[j]) by {
            if j < prev.len() {
                assert(orgs.drop_last().contains(prev[j]));
                let w = choose|w: int|
                    0 <= w < orgs.drop_last().len() && orgs.drop_last()[w] == prev[j];
                assert(orgs[w] == prev[j]);
            } else {
                assert(m[j] == orgs.last());
                assert(orgs[orgs.len() - 1] == orgs.last());
            }
        }
    }
}

/// Every surviving bucket already stood among the buckets before filtering.
proof fn lemma_nonempty_elements(bs: Seq<Seq<Seq<Gene>>>)
    ensures
        forall|t: int|
            0 <= t < nonempty_buckets(bs).len() ==> bs.contains(#[trigger] nonempty_buckets(bs)[t]),
    decreases bs.len(),
{
    if bs.len() == 0 {
    } else {
        lemma_nonempty_elements(bs.drop_last());
        let ne = nonempty_buckets(bs);
        let prev = nonempty_buckets(bs.drop_last());
        assert forall|t: int| 0 <= t < ne.len() implies bs.contains(ne[t]) by {
            if t < prev.len() {
                assert(bs.drop_last().contains(prev[t]));
                let w = choose|w: int|
                    0 <= w < bs.drop_last().len() && bs.drop_last()[w] == prev[t];
                assert(bs[w] == prev[t]);
                assert(ne[t] == prev[t]);
            } else {
                assert(ne[t] == bs.last());
                assert(bs[bs.len() - 1] == bs.last());
            }
        }
    }
}

/// The first exemplar the organism matches, scanning in order, if any.
fn find_species(exemplars: &Vec<Genome>, g: &Genome, params: &Params) -> (r: Option<usize>)
    requires
        params.valid(),
        genomes_wf(exemplars@),
        weights_bounded(g@),
    ensures
        match r {
            Some(j) => j < exemplars@.len() && within_cutoff(exemplars@[j as int]@, g@, *params)
                && (forall|k: int|
                0 <= k < j ==> !within_cutoff(exemplars@[k]@, g@, *params)),
            None => forall|k: int|
                0 <= k < exemplars@.len() ==> !within_cutoff(exemplars@[k]@, g@, *params),
        },
{
    let len = exemplars.len();
    for j in 0..len
        invariant
            len == exemplars@.len(),
            params.valid(),
            genomes_wf(exemplars@),
            weights_bounded(g@),
            forall|k: int| 0 <= k < j ==> !within_cutoff(exemplars@[k]@, g@, *params),
    {
        proof {
            assert(weights_bounded(exemplars@[j as int]@));
        }
        let delta = difference(&exemplars[j], g, params);
        if delta.below(params.delta_cutoff) {
            return Some(j);
        }
    }
    None
}

/// Classifies new organisms into species based on the previous species.
///
/// One exemplar is drawn at random from each previous species; each
/// organism joins the species of the first exemplar within `delta_cutoff`
/// of it, scanning previous species first and then the species founded
/// during this pass, or founds a new species and becomes its exemplar.
/// Species left without members are dropped. Every organism lands in
/// exactly one of the returned species, and none of them is empty.
pub fn classify_species(
    rng: &mut RngSource,
    organisms: Vec<Genome>,
    params: &Params,
    previous_species: &[Species],
) -> (r: Vec<Species>)
    requires
        params.valid(),
        genomes_wf(organisms@),
        forall|k: int|
            0 <= k < previous_species@.len() ==> (#[trigger] previous_species@[k]).0@.len() > 0,
        forall|k: int|
            0 <= k < previous_species@.len() ==> (#[trigger] previous_species@[k]).wf(),
    ensures
        exists|ex0: Seq<Seq<Gene>>|
            {
                &&& ex0.len() == previous_species@.len()
                &&& (forall|k: int|
                    0 <= k < ex0.len() ==> (#[trigger] previous_species@[k])@.contains(ex0[k]))
                &&& species_views(r@) == speciate(genome_views(organisms@), ex0, *params)
            },
        forall|i: int| 0 <= i < r@.len() ==> (#[trigger] r@[i]).0@.len() > 0,
        forall|i: int| 0 <= i < r@.len() ==> (#[trigger] r@[i]).wf(),
        buckets_multiset(species_views(r@)) == genome_views(organisms@).to_multiset(),
        forall|i: int, j: int|
            0 <= i < r@.len() && 0 <= j < r@[i]@.len() ==> genome_views(organisms@).contains(
                #[trigger] r@[i]@[j],
            ),
{
    let prev_n = previous_species.len();
    let mut exemplars: Vec<Genome> = Vec::new();
    for k in 0..prev_n
        invariant
            prev_n == previous_species@.len(),
            exemplars@.len() == k,
            forall|k2: int|
                0 <= k2 < previous_species@.len() ==> (#[trigger] previous_species@[k2]).0@.len()
                    > 0,
            forall|k2: int|
                0 <= k2 < previous_species@.len() ==> (#[trigger] previous_species@[k2]).wf(),
            forall|j: int|
                0 <= j < k ==> (#[trigger] previous_species@[j])@.contains(exemplars@[j]@),
            genomes_wf(exemplars@),
    {
        let s = &previous_species[k];
        let idx = rng.gen_below(s.0.len());
        let e = s.0[idx].duplicate();
        exemplars.push(e);
        proof {
            assert(previous_species@[k as int]@[idx as int] == previous_species@[k as int].0@[idx as int]@);
            assert(exemplars@[k as int]@ == previous_species@[k as int].0@[idx as int]@);
        }
    }
    let ghost ex0 = genome_views(exemplars@);
    let ghost org_views = genome_views(organisms@);
    let orgs_n = organisms.len();
    let mut assignments: Vec<usize> = Vec::new();
    for i in 0..orgs_n
        invariant
            orgs_n == organisms@.len(),
            org_views == genome_views(organisms@),
            params.valid(),
            genomes_wf(organisms@),
            genomes_wf(exemplars@),
            genome_views(exemplars@) == exemplars_after(org_views.take(i as int), ex0, *params),
            assignments@.len() == i,
            assignments@.map_values(|a: usize| a as int) == assignment(
                org_views.take(i as int),
                ex0,
                *params,
            ),
            forall|j: int| 0 <= j < i ==> #[trigger] assignments@[j] < exemplars@.len(),
    {
        let ghost ex_now = genome_views(exemplars@);
        proof {
            lemma_first_match(org_views[i as int], ex_now, *params);
            assert(org_views.take(i + 1).drop_last() =~= org_views.take(i as int));
            assert(org_views.take(i + 1).last() == org_views[i as int]);
            assert(forall|k: int|
                0 <= k < exemplars@.len() ==> ex_now[k] == #[trigger] exemplars@[k]@);
        }
        match find_species(&exemplars, &organisms[i], params) {
            Some(j) => {
                assignments.push(j);
                proof {
                    assert(first_match(org_views[i as int], ex_now, *params) == j as int);
                    assert(assignments@.map_values(|a: usize| a as int) =~= assignment(
                        org_views.take(i + 1),
                        ex0,
                        *params,
                    ));
                }
            },
            None => {
                let fresh = exemplars.len();
                assignments.push(fresh);
                let e = organisms[i].duplicate();
                exemplars.push(e);
                proof {
                    assert(first_match(org_views[i as int], ex_now, *params) == -1);
                    assert(genome_views(exemplars@) =~= ex_now.push(org_views[i as int]));
                    assert(assignments@.map_values(|a: usize| a as int) =~= assignment(
                        org_views.take(i + 1),
                        ex0,
                        *params,
                    ));
                }
            },
        }
    }
    proof {
        assert(org_views.take(orgs_n as int) =~= org_views);
    }
    let ghost asg = assignment(org_views, ex0, *params);
    let total = exemplars.len();
    let mut buckets: Vec<Species> = Vec::new();
    for k in 0..total
        invariant
            buckets@.len() == k,
            forall|k2: int| 0 <= k2 < k ==> (#[trigger] buckets@[k2])@.len() == 0,
    {
        buckets.push(Species::empty());
    }
    proof {
        assert(asg.len() == orgs_n);
        assert(forall|j: int| 0 <= j < orgs_n ==> #[trigger] asg[j] == assignments@[j] as int);
        assert(forall|j: int| 0 <= j < orgs_n ==> 0 <= #[trigger] asg[j] < total as int);
        assert(forall|k2: int|
            0 <= k2 < total ==> (#[trigger] buckets@[k2])@ =~= members_of(
                org_views.take(0),
                asg.take(0),
                k2,
            ));
    }
    for i in 0..orgs_n
        invariant
            orgs_n == organisms@.len(),
            org_views == genome_views(organisms@),
            genomes_wf(organisms@),
            asg.len() == orgs_n,
            forall|j: int| 0 <= j < orgs_n ==> #[trigger] asg[j] == assignments@[j] as int,
            forall|j: int| 0 <= j < orgs_n ==> 0 <= #[trigger] asg[j] < total as int,
            assignments@.len() == orgs_n,
            buckets@.len() == total,
            forall|k2: int|
                0 <= k2 < total ==> (#[trigger] buckets@[k2])@ == members_of(
                    org_views.take(i as int),
                    asg.take(i as int),
                    k2,
                ),
            forall|k2: int| 0 <= k2 < total ==> (#[trigger] buckets@[k2]).wf(),
    {
        let a = assignments[i];
        proof {
            assert(asg[i as int] == assignments@[i as int] as int);
            assert(0 <= asg[i as int] < total as int);
        }
        let mut s = buckets[a].duplicate();
        s.0.push(organisms[i].duplicate());
        proof {
            assert(genomes_wf(s.0@)) by {
                assert(forall|j: int|
                    0 <= j < s.0@.len() - 1 ==> weights_bounded((#[trigger] s.0@[j])@));
                assert(weights_bounded(s.0@[s.0@.len() - 1]@));
            }
        }
        buckets[a] = s;
        proof {
            assert(org_views.take(i + 1).drop_last() =~= org_views.take(i as int));
            assert(asg.take(i + 1).drop_last() =~= asg.take(i as int));
            assert(org_views.take(i + 1).last() == org_views[i as int]);
            assert(asg.take(i + 1).last() == a as int);
            assert(buckets@[a as int]@ =~= members_of(
                org_views.take(i as int),
                asg.take(i as int),
                a as int,
            ).push(org_views[i as int]));
            assert(forall|k2: int|
                0 <= k2 < total && k2 != a as int ==> (#[trigger] buckets@[k2])@ == members_of(
                    org_views.take(i + 1),
                    asg.take(i + 1),
                    k2,
                ));
            assert(buckets@[a as int]@ == members_of(org_views.take(i + 1), asg.take(i + 1), a as int));
        }
    }
    proof {
        assert(org_views.take(orgs_n as int) =~= org_views);
        assert(asg.take(orgs_n as int) =~= asg);
    }
    let mut result: Vec<Species> = Vec::new();
    for k in 0..total
        invariant
            buckets@.len() == total,
            forall|k2: int|
                0 <= k2 < total ==> (#[trigger] buckets@[k2])@ == members_of(org_views, asg, k2),
            forall|k2: int| 0 <= k2 < total ==> (#[trigger] buckets@[k2]).wf(),
            species_views(result@) == nonempty_buckets(
                Seq::new(k as nat, |k2: int| members_of(org_views, asg, k2)),
            ),
            forall|i: int| 0 <= i < result@.len() ==> (#[trigger] result@[i]).0@.len() > 0,
            forall|i: int| 0 <= i < result@.len() ==> (#[trigger] result@[i]).wf(),
    {
        proof {
            let cur = Seq::new((k + 1) as nat, |k2: int| members_of(org_views, asg, k2));
            assert(cur.drop_last() =~= Seq::new(k as nat, |k2: int| members_of(org_views, asg, k2)));
            assert(cur.last() == members_of(org_views, asg, k as int));
        }
        if buckets[k].0.len() > 0 {
            let s = buckets[k].duplicate();
            proof {
                assert(s@.len() == s.0@.len());
            }
            result.push(s);
            proof {
                assert(species_views(result@) =~= nonempty_buckets(
                    Seq::new((k + 1) as nat, |k2: int| members_of(org_views, asg, k2)),
                ));
            }
        } else {
            proof {
                assert(buckets@[k as int]@.len() == 0);
                assert(species_views(result@) =~= nonempty_buckets(
                    Seq::new((k + 1) as nat, |k2: int| members_of(org_views, asg, k2)),
                ));
            }
        }
    }
    proof {
        assert(Seq::new(total as nat, |k2: int| members_of(org_views, asg, k2)) =~= all_buckets(
            org_views,
            ex0,
            *params,
        ));
        assert(species_views(result@) == speciate(org_views, ex0, *params));
        lemma_nonempty_multiset(all_buckets(org_views, ex0, *params));
        lemma_bucket_sum_is_buckets(org_views, asg, total as nat);
        lemma_partition(org_views, asg, total as nat);
        assert(buckets_multiset(species_views(result@)) == org_views.to_multiset());
        let bs = all_buckets(org_views, ex0, *params);
        lemma_nonempty_elements(bs);
        assert forall|i: int, j: int|
            0 <= i < result@.len() && 0 <= j < result@[i]@.len() implies org_views.contains(
            result@[i]@[j],
        ) by {
            assert(species_views(result@)[i] == result@[i]@);
            assert(nonempty_buckets(bs)[i] == result@[i]@);
            assert(bs.contains(result@[i]@));
            let w = choose|w: int| 0 <= w < bs.len() && bs[w] == result@[i]@;
            assert(bs[w] == members_of(org_views, asg, w));
            lemma_members_subset(org_views, asg, w);
        }
    }
    result
}

/// Being within the cutoff does not depend on which side is the exemplar.
proof fn lemma_within_symmetric(a: Seq<Gene>, b: Seq<Gene>, p: Params)
    ensures
        within_cutoff(a, b, p) == within_cutoff(b, a, p),
{
    lemma_difference_symmetric(a, b, p);
}

/// The exemplar list only ever grows, keeping earlier entries in place.
proof fn lemma_exemplars_monotone(
    orgs: Seq<Seq<Gene>>,
    ex0: Seq<Seq<Gene>>,
    p: Params,
    m1: int,
    m2: int,
)
    requires
        0 <= m1 <= m2 <= orgs.len(),
    ensures
        ({
            let e1 = exemplars_after(orgs.take(m1), ex0, p);
            let e2 = exemplars_after(orgs.take(m2), ex0, p);
            e1.len() <= e2.len() && forall|k: int| 0 <= k < e1.len() ==> e2[k] == e1[k]
        }),
    decreases m2 - m1,
{
    if m1 == m2 {
    } else {
        lemma_exemplars_monotone(orgs, ex0, p, m1, m2 - 1);
        assert(orgs.take(m2).drop_last() =~= orgs.take(m2 - 1));
        assert(orgs.take(m2).last() == orgs[m2 - 1]);
    }
}

/// Every exemplar is an initial one or one of the organisms already
/// scanned.
proof fn lemma_exemplars_elements(orgs: Seq<Seq<Gene>>, ex0: Seq<Seq<Gene>>, p: Params, m: int)
    requires
        0 <= m <= orgs.len(),
    ensures
        ({
            let e = exemplars_after(orgs.take(m), ex0, p);
            &&& e.len() >= ex0.len()
            &&& (forall|k: int| 0 <= k < ex0.len() ==> e[k] == ex0[k])
            &&& (forall|k: int|
                ex0.len() <= k < e.len() ==> exists|i: int| 0 <= i < m && orgs[i] == #[trigger] e[k])
        }),
    decreases m,
{
    if m == 0 {
        assert(orgs.take(0) =~= Seq::<Seq<Gene>>::empty());
    } else {
        lemma_exemplars_elements(orgs, ex0, p, m - 1);
        assert(orgs.take(m).drop_last() =~= orgs.take(m - 1));
        assert(orgs.take(m).last() == orgs[m - 1]);
        let prev = exemplars_after(orgs.take(m - 1), ex0, p);
        let e = exemplars_after(orgs.take(m), ex0, p);
        if first_match(orgs[m - 1], prev, p) >= 0 {
        } else {
            assert(e == prev.push(orgs[m - 1]));
            assert forall|k: int| ex0.len() <= k < e.len() implies exists|i: int|
                0 <= i < m && orgs[i] == #[trigger] e[k] by {
                if k < prev.len() {
                    assert(e[k] == prev[k]);
                } else {
                    assert(e[k] == orgs[m - 1]);
                }
            }
        }
    }
}

/// Each organism gets exactly one assignment.
proof fn lemma_assignment_len(orgs: Seq<Seq<Gene>>, ex0: Seq<Seq<Gene>>, p: Params)
    ensures
        assignment(orgs, ex0, p).len() == orgs.len(),
    decreases orgs.len(),
{
    if orgs.len() == 0 {
    } else {
        lemma_assignment_len(orgs.drop_last(), ex0, p);
    }
}

/// The assignments of a prefix of the scan are a prefix of the assignments.
proof fn lemma_assignment_prefix(orgs: Seq<Seq<Gene>>, ex0: Seq<Seq<Gene>>, p: Params, m: int)
    requires
        0 <= m <= orgs.len(),
    ensures
        assignment(orgs.take(m), ex0, p) == assignment(orgs, ex0, p).take(m),
    decreases orgs.len(),
{
    lemma_assignment_len(orgs, ex0, p);
    if orgs.len() == 0 {
        assert(orgs.take(m) =~= orgs);
        assert(assignment(orgs, ex0, p).take(m) =~= assignment(orgs, ex0, p));
    } else if m == orgs.len() {
        assert(orgs.take(m) =~= orgs);
        assert(assignment(orgs, ex0, p).take(m) =~= assignment(orgs, ex0, p));
    } else {
        lemma_assignment_len(orgs.drop_last(), ex0, p);
        lemma_assignment_prefix(orgs.drop_last(), ex0, p, m);
        assert(orgs.drop_last().take(m) =~= orgs.take(m));
        assert(assignment(orgs, ex0, p).take(m) =~= assignment(orgs.drop_last(), ex0, p).take(m));
    }
}

/// A bucket nobody was assigned to is empty.
proof fn lemma_members_none(orgs: Seq<Seq<Gene>>, asg: Seq<int>, k: int)
    requires
        asg.len() == orgs.len(),
        forall|i: int| 0 <= i < asg.len() ==> #[trigger] asg[i] != k,
    ensures
        members_of(orgs, asg, k) == Seq::<Seq<Gene>>::empty(),
    decreases orgs.len(),
{
    if orgs.len() == 0 {
        assert(members_of(orgs, asg, k) =~= Seq::<Seq<Gene>>::empty());
    } else {
        lemma_members_none(orgs.drop_last(), asg.drop_last(), k);
        assert(asg.last() != k);
    }
}

/// A bucket exactly one organism was assigned to holds exactly it.
proof fn lemma_members_single(orgs: Seq<Seq<Gene>>, asg: Seq<int>, k: int, j: int)
    requires
        asg.len() == orgs.len(),
        0 <= j < orgs.len(),
        asg[j] == k,
        forall|i: int| 0 <= i < asg.len() && i != j ==> #[trigger] asg[i] != k,
    ensures
        members_of(orgs, asg, k) == seq![orgs[j]],
    decreases orgs.len(),
{
    if j == orgs.len() - 1 {
        lemma_members_none(orgs.drop_last(), asg.drop_last(), k);
        assert(asg.last() == k);
        assert(members_of(orgs, asg, k) =~= seq![orgs[j]]);
    } else {
        lemma_members_single(orgs.drop_last(), asg.drop_last(), k, j);
        assert(asg.last() != k);
        assert(orgs.drop_last()[j] == orgs[j]);
    }
}

/// A nonempty bucket survives the final filtering.
proof fn lemma_nonempty_retains(bs: Seq<Seq<Seq<Gene>>>, l: int)
    requires
        0 <= l < bs.len(),
        bs[l].len() > 0,
    ensures
        exists|t: int|
            0 <= t < nonempty_buckets(bs).len() && #[trigger] nonempty_buckets(bs)[t] == bs[l],
    decreases bs.len(),
{
    let ne = nonempty_buckets(bs);
    if l == bs.len() - 1 {
        assert(bs.last() == bs[l]);
        assert(ne[ne.len() - 1] == bs[l]);
    } else {
        assert(bs.drop_last()[l] == bs[l]);
        lemma_nonempty_retains(bs.drop_last(), l);
        let t = choose|t: int|
            0 <= t < nonempty_buckets(bs.drop_last()).len() && #[trigger] nonempty_buckets(
                bs.drop_last(),
            )[t] == bs[l];
        assert(ne[t] == bs[l]);
    }
}

/// An organism that is at least the cutoff away from every initial exemplar
/// and from every other organism founds a new species that ends as a
/// singleton holding exactly it.
pub proof fn lemma_far_organism_founds_species(
    orgs: Seq<Seq<Gene>>,
    ex0: Seq<Seq<Gene>>,
    p: Params,
    j: int,
)
    requires
        0 <= j < orgs.len(),
        forall|k: int| 0 <= k < ex0.len() ==> !within_cutoff(#[trigger] ex0[k], orgs[j], p),
        forall|i: int|
            0 <= i < orgs.len() && i != j ==> !within_cutoff(orgs[j], #[trigger] orgs[i], p),
    ensures
        exists|t: int|
            0 <= t < speciate(orgs, ex0, p).len() && #[trigger] speciate(orgs, ex0, p)[t]
                == seq![orgs[j]],
{
    let asg = assignment(orgs, ex0, p);
    let ej = exemplars_after(orgs.take(j), ex0, p);
    let l = ej.len() as int;
    lemma_exemplars_elements(orgs, ex0, p, j);
    assert forall|k: int| 0 <= k < ej.len() implies !within_cutoff(ej[k], orgs[j], p) by {
        if k < ex0.len() {
            assert(ej[k] == ex0[k]);
        } else {
            let i = choose|i: int| 0 <= i < j && orgs[i] == ej[k];
            lemma_within_symmetric(orgs[i], orgs[j], p);
        }
    }
    lemma_first_match(orgs[j], ej, p);
    assert(first_match(orgs[j], ej, p) == -1);
    assert(orgs.take(j + 1).drop_last() =~= orgs.take(j));
    assert(orgs.take(j + 1).last() == orgs[j]);
    let ej1 = exemplars_after(orgs.take(j + 1), ex0, p);
    assert(ej1 == ej.push(orgs[j]));
    lemma_assignment_prefix(orgs, ex0, p, j + 1);
    lemma_assignment_len(orgs, ex0, p);
    lemma_assignment_len(orgs.take(j + 1), ex0, p);
    assert(asg.len() == orgs.len());
    assert(asg[j] == assignment(orgs.take(j + 1), ex0, p)[j]);
    assert(asg[j] == l);
    assert forall|i: int| 0 <= i < orgs.len() && i != j implies #[trigger] asg[i] != l by {
        lemma_assignment_prefix(orgs, ex0, p, i + 1);
        lemma_assignment_len(orgs.take(i + 1), ex0, p);
        assert(orgs.take(i + 1).drop_last() =~= orgs.take(i));
        assert(orgs.take(i + 1).last() == orgs[i]);
        let ei = exemplars_after(orgs.take(i), ex0, p);
        let m = first_match(orgs[i], ei, p);
        lemma_first_match(orgs[i], ei, p);
        assert(asg[i] == assignment(orgs.take(i + 1), ex0, p)[i]);
        if i < j {
            lemma_exemplars_monotone(orgs, ex0, p, i, j);
            lemma_exemplars_monotone(orgs, ex0, p, i + 1, j);
            let ei1 = exemplars_after(orgs.take(i + 1), ex0, p);
            if m >= 0 {
                assert(asg[i] == m);
                assert(m < ei.len() <= l);
            } else {
                assert(asg[i] == ei.len());
                assert(ei1 == ei.push(orgs[i]));
                assert(ei1.len() <= l);
            }
        } else {
            lemma_exemplars_monotone(orgs, ex0, p, j + 1, i);
            assert(ei.len() >= ej1.len());
            assert(ei[l] == ej1[l]);
            assert(ei[l] == orgs[j]);
            if m >= 0 {
                assert(asg[i] == m);
                if m == l {
                    assert(within_cutoff(ei[l], orgs[i], p));
                    assert(false);
                }
            } else {
                assert(asg[i] == ei.len());
            }
        }
    }
    lemma_members_single(orgs, asg, l, j);
    let total = exemplars_after(orgs, ex0, p).len();
    lemma_exemplars_monotone(orgs, ex0, p, j + 1, orgs.len() as int);
    assert(orgs.take(orgs.len() as int) =~= orgs);
    assert(l < total);
    let bs = all_buckets(orgs, ex0, p);
    assert(bs[l] == members_of(orgs, asg, l));
    assert(bs[l] == seq![orgs[j]]);
    assert(bs[l].len() == 1);
    lemma_nonempty_retains(bs, l);
    let t = choose|t: int|
        0 <= t < nonempty_buckets(bs).len() && #[trigger] nonempty_buckets(bs)[t] == bs[l];
    assert(speciate(orgs, ex0, p) == nonempty_buckets(bs));
    assert(speciate(orgs, ex0, p)[t] == seq![orgs[j]]);
}

} // verus!
