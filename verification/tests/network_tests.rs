use neuroflap_neat::{
    Activation, Color, Control, Event, Gene, Genome, Params, Population, RngSource,
};

fn gene(from: usize, to: usize, enabled: bool, weight: i64, innovation: usize) -> Gene {
    Gene { from, to, enabled, weight, innovation }
}

#[test]
fn empty_network_returns_zero() {
    let g = Genome::new();
    let net = g.build_network(Activation::Sigmoid);
    assert_eq!(net.calculate([1000, -2000, 3000, 4000]), 0);
    assert_eq!(net.calculate([0, 0, 0, 0]), 0);
}

#[test]
fn disabled_genes_do_not_contribute() {
    let g = Genome { genes: vec![gene(1, 0, false, 900, 1), gene(2, 0, false, 900, 2)] };
    let net = g.build_network(Activation::ReLU);
    assert_eq!(net.calculate([1000, 1000, 1000, 1000]), 0);
}

#[test]
fn single_edge_network_scales_the_input() {
    // Node 0 receives input node 1 with weight 0.5; under ReLU the output
    // is half the input.
    let g = Genome { genes: vec![gene(1, 0, true, 500, 1)] };
    let net = g.build_network(Activation::ReLU);
    assert_eq!(net.calculate([1000, 0, 0, 0]), 500);
    assert_eq!(net.calculate([-1000, 0, 0, 0]), 0);
    let net = g.build_network(Activation::Tanh);
    assert_eq!(net.calculate([1000, 0, 0, 0]), 465);
}

#[test]
fn two_edges_sum_before_activation() {
    let g = Genome { genes: vec![gene(1, 0, true, 500, 1), gene(2, 0, true, 250, 2)] };
    let net = g.build_network(Activation::ReLU);
    // 1.0 * 0.5 + 2.0 * 0.25 = 1.0
    assert_eq!(net.calculate([1000, 2000, 0, 0]), 1000);
}

#[test]
fn hidden_node_applies_activation_twice() {
    // Input 1 feeds hidden node 5 with unit weight, node 5 feeds the
    // output with unit weight: under Tanh the output is tanh(tanh(x)).
    let g = Genome { genes: vec![gene(1, 5, true, 1000, 1), gene(5, 0, true, 1000, 2)] };
    let net = g.build_network(Activation::Tanh);
    // tanh_fixed(1000) == 777, tanh_fixed(777) is then the output.
    let inner = Activation::Tanh.calculate(1000);
    assert_eq!(inner, 777);
    assert_eq!(net.calculate([1000, 0, 0, 0]), Activation::Tanh.calculate(inner));
}

#[test]
fn cycles_contribute_zero() {
    // Nodes 0 and 5 feed each other; the back edge contributes zero, so
    // everything evaluates to zero.
    let g = Genome { genes: vec![gene(5, 0, true, 1000, 1), gene(0, 5, true, 1000, 2)] };
    let net = g.build_network(Activation::ReLU);
    assert_eq!(net.calculate([1000, 1000, 1000, 1000]), 0);
}

#[test]
fn new_population_counts() {
    let mut p = Params::default();
    p.population_size = 5;
    let pop = Population::new(p);
    assert_eq!(pop.generation(), 0);
    assert_eq!(pop.len(), 5);
    assert_eq!(pop.species.len(), 1);
    assert_eq!(pop.species[0].len(), 5);
}

#[test]
fn one_generation_of_five_empty_genomes() {
    let mut p = Params::default();
    p.c1 = 1000;
    p.c2 = 1000;
    p.c3 = 400;
    p.delta_cutoff = 3000;
    p.mutation_rate = 1000;
    p.population_size = 5;
    let pop = Population::new(p);
    let mut rng = RngSource::from_seed(42);
    // Every fitness evaluation succeeds, so the generation is the mutation
    // pass followed by re-speciation.
    let next = pop.run_generation(&mut rng);
    assert_eq!(next.generation(), 1);
    assert_eq!(next.len(), 5);
    for s in &next.species {
        assert!(s.0.len() > 0);
    }
    // The receiver is untouched.
    assert_eq!(pop.generation(), 0);
    assert_eq!(pop.len(), 5);
}

#[test]
fn generation_step_exposes_the_mutated_genomes() {
    let mut p = Params::default();
    p.mutation_rate = 1000;
    p.population_size = 3;
    let pop = Population::new(p);
    let mut rng = RngSource::from_seed(1);
    let step = pop.begin_generation(&mut rng);
    assert_eq!(step.generation, 1);
    assert_eq!(step.genomes.len(), 3);
    let next = step.finish(&mut rng);
    assert_eq!(next.generation(), 1);
    assert_eq!(next.len(), 3);
}

#[test]
fn quit_event_is_quit() {
    assert!(Event::Quit.is_quit());
    assert!(!Event::Jump.is_quit());
    assert_eq!(Event::Jump, Event::Jump);
}

#[test]
fn color_indices() {
    assert_eq!(Color::BIRD.index(), 0);
    assert_eq!(Color::PIPE.index(), 1);
}

#[test]
fn player_control_exists() {
    let c = Control::Player {};
    assert_eq!(c, Control::Player {});
}
