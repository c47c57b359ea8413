use neuroflap_neat::{clamp, Activation, Gene, Genome, Params, RngSource};

fn gene(from: usize, to: usize, enabled: bool, weight: i64, innovation: usize) -> Gene {
    Gene { from, to, enabled, weight, innovation }
}

/// A minimal structurally valid genome: every input feeds the output.
fn straight_genome() -> Genome {
    Genome {
        genes: vec![
            gene(1, 0, true, 100, 1),
            gene(2, 0, true, 200, 2),
            gene(3, 0, true, 300, 3),
            gene(4, 0, true, 400, 4),
        ],
    }
}

#[test]
fn clamp_restricts_to_interval() {
    assert_eq!(clamp(0, 10, -5), 0);
    assert_eq!(clamp(0, 10, 5), 5);
    assert_eq!(clamp(0, 10, 15), 10);
    assert_eq!(clamp(-3, 3, -3), -3);
}

#[test]
fn relu_is_exact() {
    assert_eq!(Activation::ReLU.calculate(-5), 0);
    assert_eq!(Activation::ReLU.calculate(0), 0);
    assert_eq!(Activation::ReLU.calculate(7_000_000), 7_000_000);
}

#[test]
fn tanh_fixed_values() {
    assert_eq!(Activation::Tanh.calculate(0), 0);
    assert_eq!(Activation::Tanh.calculate(1000), 777);
    assert_eq!(Activation::Tanh.calculate(500), 465);
    assert_eq!(Activation::Tanh.calculate(-500), -465);
    assert_eq!(Activation::Tanh.calculate(10_000), 1000);
    assert_eq!(Activation::Tanh.calculate(-10_000), -1000);
}

#[test]
fn sigmoid_fixed_values() {
    assert_eq!(Activation::Sigmoid.calculate(0), 0);
    assert_eq!(Activation::Sigmoid.calculate(1000), 997);
    assert_eq!(Activation::Sigmoid.calculate(500), 861);
    assert_eq!(Activation::Sigmoid.calculate(-500), -861);
    assert_eq!(Activation::Sigmoid.calculate(3000), 1000);
}

#[test]
fn default_params() {
    let p = Params::default();
    assert_eq!(p.c1, 1000);
    assert_eq!(p.c2, 1000);
    assert_eq!(p.c3, 400);
    assert_eq!(p.activation, Activation::Sigmoid);
    assert_eq!(p.delta_cutoff, 3000);
    assert_eq!(p.mutation_rate, 500);
    assert_eq!(p.reweight_amount, 500);
    assert_eq!(p.reweight_rate, 500);
    assert_eq!(p.population_size, 300);
}

#[test]
fn empty_genome_is_not_valid() {
    // The inputs never appear as sources, so the source-only set is not
    // {1, 2, 3, 4}.
    assert!(!Genome::new().validate());
}

#[test]
fn straight_genome_is_valid() {
    assert!(straight_genome().validate());
}

#[test]
fn validate_rejects_bad_structure() {
    // An extra source-only node besides the inputs.
    let mut g = straight_genome();
    g.genes.push(gene(7, 0, true, 0, 5));
    assert!(!g.validate());

    // A sink-only node besides the output.
    let mut g = straight_genome();
    g.genes.push(gene(1, 9, true, 0, 5));
    assert!(!g.validate());

    // Innovation numbers out of order.
    let mut g = straight_genome();
    g.genes.push(gene(1, 0, true, 0, 3));
    assert!(!g.validate());

    // An innovation number of zero.
    let mut g = straight_genome();
    g.genes[0].innovation = 0;
    assert!(!g.validate());
}

#[test]
fn add_connection_gene_is_fresh() {
    let mut rng = RngSource::from_seed(7);
    let mut g = Genome::new();
    let mut inno: usize = 0;
    g.mutate_add_connection(&mut rng, &mut inno);
    assert_eq!(g.len(), 1);
    assert_eq!(inno, 1);
    let added = g.genes[0];
    // An empty genome has five admissible nodes; the drawn pair is no
    // self-loop.
    assert!(added.from < 5);
    assert!(added.to < 5);
    assert_ne!(added.from, added.to);
    assert!(added.enabled);
    assert!(0 <= added.weight && added.weight < 1000);
    assert_eq!(added.innovation, 1);
}

#[test]
fn add_connection_avoids_duplicate_edges() {
    let mut rng = RngSource::from_seed(11);
    let mut g = Genome::new();
    let mut inno: usize = 0;
    for _ in 0..8 {
        g.mutate_add_connection(&mut rng, &mut inno);
    }
    for a in 0..g.genes.len() {
        let ga = g.genes[a];
        assert_ne!(ga.from, ga.to);
        for b in 0..a {
            let gb = g.genes[b];
            let same = gb.from == ga.from && gb.to == ga.to;
            let mirrored = gb.from == ga.to && gb.to == ga.from;
            assert!(!same && !mirrored);
        }
    }
}

#[test]
fn add_node_without_enabled_gene_is_noop() {
    let mut rng = RngSource::from_seed(3);
    let mut g = Genome::new();
    let mut inno: usize = 0;
    g.mutate_add_node(&mut rng, &mut inno);
    assert_eq!(g.len(), 0);
    assert_eq!(inno, 0);

    let mut g = Genome { genes: vec![gene(1, 0, false, 100, 1)] };
    let mut inno: usize = 1;
    g.mutate_add_node(&mut rng, &mut inno);
    assert_eq!(g.genes, vec![gene(1, 0, false, 100, 1)]);
    assert_eq!(inno, 1);
}

#[test]
fn add_node_splits_the_only_gene() {
    let mut rng = RngSource::from_seed(5);
    let mut g = Genome { genes: vec![gene(1, 0, true, 500, 1)] };
    let mut inno: usize = 1;
    g.mutate_add_node(&mut rng, &mut inno);
    assert_eq!(inno, 3);
    assert_eq!(
        g.genes,
        vec![
            gene(1, 0, false, 500, 1),
            gene(1, 5, true, 1000, 2),
            gene(5, 0, true, 500, 3),
        ]
    );
}

#[test]
fn reweight_moves_weights_at_most_the_amount() {
    let mut rng = RngSource::from_seed(9);
    let mut g = straight_genome();
    let before = g.genes.clone();
    let mut p = Params::default();
    p.reweight_rate = 1000;
    p.reweight_amount = 250;
    g.mutate_reweight(&mut rng, &p);
    assert_eq!(g.len(), 4);
    for i in 0..4 {
        assert_eq!(g.genes[i].from, before[i].from);
        assert_eq!(g.genes[i].to, before[i].to);
        assert_eq!(g.genes[i].enabled, before[i].enabled);
        assert_eq!(g.genes[i].innovation, before[i].innovation);
        let d = g.genes[i].weight - before[i].weight;
        assert!(-250 <= d && d <= 250);
    }
}

#[test]
fn reweight_with_zero_rate_is_noop() {
    let mut rng = RngSource::from_seed(13);
    let mut g = straight_genome();
    let before = g.genes.clone();
    let mut p = Params::default();
    p.reweight_rate = 0;
    g.mutate_reweight(&mut rng, &p);
    assert_eq!(g.genes, before);
}

#[test]
fn default_activation_is_sigmoid() {
    assert_eq!(Activation::default(), Activation::Sigmoid);
}

#[test]
fn node_splits_preserve_validity() {
    // Splitting an edge introduces a hidden node that appears both as a
    // source and as a sink, so the structural invariant survives any
    // number of split mutations.
    let mut rng = RngSource::from_seed(17);
    let mut g = straight_genome();
    let mut inno: usize = 4;
    assert!(g.validate());
    for _ in 0..5 {
        g.mutate_add_node(&mut rng, &mut inno);
        assert!(g.validate());
    }
    assert_eq!(g.len(), 4 + 2 * 5);
    assert_eq!(inno, 4 + 2 * 5);
}
