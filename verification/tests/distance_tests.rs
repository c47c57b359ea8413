use neuroflap_neat::{
    classify_genes, classify_species, difference, Gene, GeneClass, Genome, Params, RngSource,
    Species,
};

fn gene(from: usize, to: usize, enabled: bool, weight: i64, innovation: usize) -> Gene {
    Gene { from, to, enabled, weight, innovation }
}

fn genome(genes: Vec<Gene>) -> Genome {
    Genome { genes }
}

#[test]
fn classify_matching_and_disjoint() {
    // Innovations 1, 2, 3, 5 against 1, 2, 5: the walk covers 0..5, so 5
    // itself is never classified, 3 is disjoint on the left, and 0 and 4
    // are absent from both.
    let g1 = vec![
        gene(1, 0, true, 100, 1),
        gene(2, 0, true, 250, 2),
        gene(3, 0, true, 400, 3),
        gene(4, 0, true, 500, 5),
    ];
    let g2 = vec![
        gene(1, 0, true, 150, 1),
        gene(2, 0, true, 250, 2),
        gene(4, 0, true, 900, 5),
    ];
    let classes = classify_genes(&g1, &g2);
    assert_eq!(
        classes,
        vec![
            GeneClass::Matching(50),
            GeneClass::Matching(0),
            GeneClass::DisjointLeft,
        ]
    );
}

#[test]
fn classify_excess() {
    // Innovation 6 lies beyond the right genome's range (2), so it is
    // excess on the left; innovation 7 is the maximum and is not walked.
    let g1 = vec![gene(1, 0, true, 100, 6), gene(2, 0, true, 100, 7)];
    let g2 = vec![gene(1, 0, true, 100, 2)];
    let classes = classify_genes(&g1, &g2);
    assert_eq!(
        classes,
        vec![GeneClass::DisjointRight, GeneClass::ExcessLeft]
    );
}

#[test]
fn difference_of_a_genome_with_itself_is_zero() {
    let g = genome(vec![
        gene(1, 0, true, 123, 1),
        gene(2, 0, true, -456, 4),
        gene(3, 0, true, 789, 9),
    ]);
    let p = Params::default();
    let d = difference(&g, &g, &p);
    assert_eq!(d.num, 0);
    assert!(d.den > 0);
}

#[test]
fn difference_is_symmetric() {
    let g1 = genome(vec![
        gene(1, 0, true, 100, 1),
        gene(2, 0, true, 250, 3),
        gene(3, 0, true, 400, 6),
    ]);
    let g2 = genome(vec![gene(1, 0, true, 150, 1), gene(4, 0, true, 900, 5)]);
    let p = Params::default();
    assert_eq!(difference(&g1, &g2, &p), difference(&g2, &g1, &p));
}

#[test]
fn one_disjoint_gene_costs_c2() {
    // Both genomes are far under twenty genes, so N = 1; the only walked
    // mismatch is the disjoint innovation 3, and the matching weights are
    // equal, so the difference is exactly c2.
    let g1 = genome(vec![
        gene(1, 0, true, 100, 1),
        gene(2, 0, true, 250, 3),
        gene(3, 0, true, 300, 5),
    ]);
    let g2 = genome(vec![gene(1, 0, true, 100, 1), gene(3, 0, true, 300, 5)]);
    let p = Params::default();
    let d = difference(&g1, &g2, &p);
    // c2 = 1000 thousandths: num / den == 1000 exactly.
    assert_eq!(d.num, 1_000_000);
    assert_eq!(d.den, 1_000);
    assert!(d.below(1001));
    assert!(!d.below(1000));
}

#[test]
fn close_organisms_share_one_species() {
    let mut rng = RngSource::from_seed(21);
    let p = Params::default();
    let previous = vec![Species(vec![Genome::new()])];
    let organisms = vec![Genome::new(), Genome::new(), Genome::new()];
    let result = classify_species(&mut rng, organisms, &p, &previous);
    assert_eq!(result.len(), 1);
    assert_eq!(result[0].len(), 3);
}

#[test]
fn far_organism_founds_a_singleton_species() {
    // Four excess genes against the empty exemplar cost 4 * c1 = 4.0, at
    // least the cutoff of 3.0, so the organism founds its own species.
    let mut rng = RngSource::from_seed(22);
    let p = Params::default();
    let far = genome(vec![
        gene(1, 0, true, 100, 1),
        gene(2, 0, true, 100, 2),
        gene(3, 0, true, 100, 3),
        gene(4, 0, true, 100, 4),
        gene(1, 0, false, 100, 5),
    ]);
    let previous = vec![Species(vec![Genome::new()])];
    let organisms = vec![far.genes.clone()].into_iter().map(|genes| Genome { genes }).collect();
    let result = classify_species(&mut rng, organisms, &p, &previous);
    // The previous species kept no member and was dropped; the far
    // organism stands alone.
    assert_eq!(result.len(), 1);
    assert_eq!(result[0].len(), 1);
    assert_eq!(result[0].0[0].genes, far.genes);
}

#[test]
fn every_organism_lands_in_exactly_one_species() {
    let mut rng = RngSource::from_seed(23);
    let p = Params::default();
    let previous = vec![Species(vec![Genome::new()]), Species(vec![Genome::new()])];
    let organisms: Vec<Genome> = (0..6).map(|_| Genome::new()).collect();
    let result = classify_species(&mut rng, organisms, &p, &previous);
    let total: usize = result.iter().map(|s| s.0.len()).sum();
    assert_eq!(total, 6);
    for s in &result {
        assert!(s.0.len() > 0);
    }
}

#[test]
fn long_genome_normalises_by_its_length() {
    // The left genome has twenty genes, so the small-genome exception does
    // not apply and N is the longer genome's length. Eighteen of the
    // walked innovations are excess on the left (the largest, twenty, is
    // outside the walked range, and one matches), so the difference is
    // 18 * c1 / 20 = 0.9.
    let mut genes = Vec::new();
    for i in 1..=20usize {
        genes.push(gene(1, 0, true, 100, i));
    }
    let g1 = genome(genes);
    let g2 = genome(vec![gene(1, 0, true, 100, 1)]);
    let p = Params::default();
    let d = difference(&g1, &g2, &p);
    assert_eq!(d.num, 18_000_000);
    assert_eq!(d.den, 20_000);
    assert!(d.below(901));
    assert!(!d.below(900));
}
