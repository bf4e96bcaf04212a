use neat_rs::activations::Activations;
use neat_rs::connection::Connection;
use neat_rs::errors::NeatError;
use neat_rs::genome::Genome;
use neat_rs::history::History;
use neat_rs::node::Node;
use neat_rs::population::Population;
use neat_rs::settings::Settings;
use neat_rs::SCALE;

fn seed_settings() -> Settings {
    Settings::new(3, 2, 10)
}

#[test]
fn seed_genome_shape() {
    let g = Genome::new(3, 2, false);
    assert_eq!(g.nodes.len(), 6);
    assert_eq!(g.conns.len(), 8);
    for (k, c) in g.conns.iter().enumerate() {
        assert!(c.enabled);
        assert!(c.weight >= 0 && c.weight < SCALE);
        assert_eq!(c.innov, k as u32 + 1);
    }
    for (k, n) in g.nodes.iter().enumerate() {
        assert_eq!(n.innov, k as u32 + 1);
        if k < 4 {
            assert_eq!(n.x, 0);
        } else {
            assert_eq!(n.x, SCALE);
        }
    }
    assert_eq!(g.fitness, 0);
}

#[test]
fn crossover_shell_is_empty() {
    let g = Genome::new(3, 2, true);
    assert_eq!(g.nodes.len(), 0);
    assert_eq!(g.conns.len(), 0);
}

#[test]
fn history_seeding() {
    let h = History::new(3, 2);
    assert_eq!(h.conn_history.len(), 8);
    assert_eq!(h.next_node_innov, 7);
    assert_eq!(h.next_conn_innov, 9);
    for (k, rec) in h.conn_history.iter().enumerate() {
        assert_eq!(rec.innov, k as u32 + 1);
        assert_eq!(rec.from, 1 + (k as u32) / 2);
        assert_eq!(rec.to, 5 + (k as u32) % 2);
    }
}

#[test]
fn add_conn_saturated_genome_is_untouched() {
    let mut g = Genome::new(3, 2, false);
    let mut h = History::new(3, 2);
    g.add_conn(&mut h);
    assert_eq!(g.conns.len(), 8);
    assert_eq!(h.conn_history.len(), 8);
}

#[test]
fn add_conn_after_removal_registers_pair() {
    let mut g = Genome::new(3, 2, false);
    let mut h = History::new(3, 2);
    // drop the connection 1 -> 5 from the genome and from the registry
    assert_eq!(g.conns[0].from, 1);
    assert_eq!(g.conns[0].to, 5);
    g.conns.remove(0);
    h.conn_history.remove(0);
    g.add_conn(&mut h);
    assert_eq!(g.conns.len(), 8);
    let added = g
        .conns
        .iter()
        .find(|c| c.from == 1 && c.to == 5)
        .expect("the only legal pair is 1 -> 5");
    assert_eq!(added.innov, 9);
    assert!(added.enabled);
    let rec = h
        .conn_history
        .iter()
        .find(|r| r.from == 1 && r.to == 5)
        .expect("registration recorded");
    assert_eq!(rec.innov, 9);
}

#[test]
fn add_node_splits_a_connection() {
    let mut g = Genome::new(3, 2, false);
    let mut h = History::new(3, 2);
    g.add_node(&mut h);
    assert_eq!(g.nodes.len(), 7);
    assert!(g.nodes.iter().any(|n| n.innov == 7));
    assert_eq!(g.conns.len(), 10);
    assert!(g.conns.iter().any(|c| c.innov == 9));
    assert!(g.conns.iter().any(|c| c.innov == 10));
    assert_eq!(g.conns.iter().filter(|c| !c.enabled).count(), 1);
    assert_eq!(h.conn_history.len(), 10);
    assert_eq!(h.next_node_innov, 8);
    assert_eq!(h.next_conn_innov, 11);
    // the new incoming half carries weight 1.0
    let in_half = g.conns.iter().find(|c| c.innov == 9).unwrap();
    assert_eq!(in_half.weight, SCALE);
    // the split original is the disabled one, and the out half inherits it
    let disabled = g.conns.iter().find(|c| !c.enabled).unwrap();
    let out_half = g.conns.iter().find(|c| c.innov == 10).unwrap();
    assert_eq!(out_half.weight, disabled.weight);
}

#[test]
fn innovation_ids_are_reused_for_identical_splits() {
    let mut h = History::new(2, 1);
    let conn = Connection::new(1, 1, 4, SCALE, true);
    let first = h.mutate_node(&conn);
    let len_after_first = h.conn_history.len();
    let second = h.mutate_node(&conn);
    assert_eq!(first.node, second.node);
    assert_eq!(first.in_conn, second.in_conn);
    assert_eq!(first.out_conn, second.out_conn);
    assert_eq!(h.conn_history.len(), len_after_first);
}

#[test]
fn innovation_ids_are_reused_for_identical_connections() {
    let mut h = History::new(2, 1);
    let from = Node::new(1, 0, 0, Activations::Linear);
    let to = Node::new(4, SCALE, 0, Activations::Linear);
    let a = h.mutate_conn(&from, &to);
    let b = h.mutate_conn(&from, &to);
    assert_eq!(a, b);
    assert_eq!(a, 1); // the seeded 1 -> 4 record
}

fn tiny_genome(activation: Activations) -> Genome {
    // one input (id 1), bias (id 2), one output (id 3)
    Genome {
        inputs: 1,
        outputs: 1,
        nodes: vec![
            Node::new(1, 0, 0, Activations::Linear),
            Node::new(2, 0, 0, Activations::Linear),
            Node::new(3, SCALE, 0, activation),
        ],
        conns: vec![
            Connection::new(1, 1, 3, SCALE, true),
            Connection::new(2, 2, 3, 0, true),
        ],
        fitness: 0,
    }
}

#[test]
fn feed_forward_linear_passthrough() {
    let g = tiny_genome(Activations::Linear);
    let out = g.feed_forward(&vec![500_000]).unwrap();
    assert_eq!(out, vec![500_000]);
}

#[test]
fn feed_forward_hidden_sigmoid_at_zero_is_half() {
    // input 1 -> hidden 4 (sigmoid) -> output 3; the output slot carries the
    // hidden activation times the unit weight
    let g = Genome {
        inputs: 1,
        outputs: 1,
        nodes: vec![
            Node::new(1, 0, 0, Activations::Linear),
            Node::new(2, 0, 0, Activations::Linear),
            Node::new(4, SCALE / 2, 0, Activations::Sigmoid),
            Node::new(3, SCALE, 0, Activations::Linear),
        ],
        conns: vec![
            Connection::new(1, 1, 4, SCALE, true),
            Connection::new(2, 4, 3, SCALE, true),
        ],
        fitness: 0,
    };
    let out = g.feed_forward(&vec![0]).unwrap();
    assert_eq!(out, vec![SCALE / 2]);
}

#[test]
fn feed_forward_disabled_connection_does_not_propagate() {
    let mut g = tiny_genome(Activations::Linear);
    g.conns[0].disable();
    let out = g.feed_forward(&vec![700_000]).unwrap();
    assert_eq!(out, vec![0]);
}

#[test]
fn feed_forward_rejects_wrong_arity() {
    let g = tiny_genome(Activations::Linear);
    assert_eq!(
        g.feed_forward(&vec![1, 2]),
        Err(NeatError::InputArityMismatch)
    );
}

#[test]
fn feed_forward_bias_contributes_its_weight() {
    let mut g = tiny_genome(Activations::Linear);
    g.conns[1] = Connection::new(2, 2, 3, 250_000, true);
    let out = g.feed_forward(&vec![0]).unwrap();
    assert_eq!(out, vec![250_000]);
}

#[test]
fn add_fitness_saturates_at_zero() {
    let mut g = Genome::new(2, 1, false);
    g.add_fitness(-5);
    assert_eq!(g.fitness, 0);
    g.add_fitness(10);
    g.add_fitness(-3);
    assert_eq!(g.fitness, 7);
}

#[test]
fn mutation_preserves_genome_invariants() {
    let mut g = Genome::new(3, 2, false);
    let mut h = History::new(3, 2);
    let sets = seed_settings();
    for _ in 0..200 {
        g.mutate(&mut h, &sets);
    }
    // connections sorted by innovation id, ascending and distinct
    for w in g.conns.windows(2) {
        assert!(w[0].innov < w[1].innov);
    }
    // nodes ordered by layer coordinate with distinct ids inside [0, 1]
    for w in g.nodes.windows(2) {
        assert!(w[0].x <= w[1].x);
    }
    for n in &g.nodes {
        assert!(n.x >= 0 && n.x <= SCALE);
        assert_eq!(g.nodes.iter().filter(|o| o.innov == n.innov).count(), 1);
    }
    // every endpoint resolves, runs forward, pairs are unique, weights bounded
    for c in &g.conns {
        let from = g.nodes.iter().find(|n| n.innov == c.from).unwrap();
        let to = g.nodes.iter().find(|n| n.innov == c.to).unwrap();
        assert!(from.x < to.x);
        assert!(c.weight >= -SCALE && c.weight <= SCALE);
        assert_eq!(
            g.conns
                .iter()
                .filter(|o| o.from == c.from && o.to == c.to)
                .count(),
            1
        );
    }
    assert!(g.fitness >= 0);
}

#[test]
fn crossover_takes_fitter_parent_shape() {
    let sets = seed_settings();
    let mut p1 = Genome::new(3, 2, false);
    let mut h = History::new(3, 2);
    p1.add_node(&mut h);
    let p2 = Genome::new(3, 2, false);
    p1.add_fitness(100);
    let child = Genome::crossover(&p1, &p2, &sets);
    assert_eq!(child.fitness, 0);
    assert_eq!(child.nodes.len(), p1.nodes.len());
    assert_eq!(child.conns.len(), p1.conns.len());
    for (c, m) in child.conns.iter().zip(p1.conns.iter()) {
        assert_eq!(c.innov, m.innov);
        assert_eq!(c.from, m.from);
        assert_eq!(c.to, m.to);
    }
}

#[test]
fn crossover_tie_favours_first_parent() {
    let sets = seed_settings();
    let mut p1 = Genome::new(3, 2, false);
    let mut h = History::new(3, 2);
    p1.add_node(&mut h);
    let p2 = Genome::new(3, 2, false);
    let child = Genome::crossover(&p1, &p2, &sets);
    assert_eq!(child.nodes.len(), p1.nodes.len());
    assert_eq!(child.conns.len(), p1.conns.len());
}

#[test]
fn population_size_is_kept_across_generations() {
    let sets = Settings::new(2, 1, 20);
    let mut pop = Population::new(sets);
    assert_eq!(pop.get_citizens().len(), 20);
    for _ in 0..3 {
        for g in pop.get_citizens().iter_mut() {
            let out = g.feed_forward(&vec![0, 0]).unwrap();
            g.add_fitness(out[0].abs());
        }
        pop.next_generation();
        assert_eq!(pop.get_citizens().len(), 20);
    }
    assert_eq!(pop.generations, 3);
}

#[test]
fn best_fitness_is_monotone() {
    let sets = Settings::new(2, 1, 15);
    let mut pop = Population::new(sets);
    let mut last_best = pop.best_fitness;
    assert_eq!(last_best, 0);
    for _ in 0..5 {
        for g in pop.get_citizens().iter_mut() {
            let out = g.feed_forward(&vec![SCALE, 0]).unwrap();
            g.add_fitness(out[0]);
        }
        pop.next_generation();
        assert!(pop.best_fitness >= last_best);
        last_best = pop.best_fitness;
    }
}

#[test]
fn generation_resets_all_fitness() {
    let sets = Settings::new(2, 1, 12);
    let mut pop = Population::new(sets);
    for g in pop.get_citizens().iter_mut() {
        g.add_fitness(5);
    }
    pop.next_generation();
    for g in pop.get_citizens().iter() {
        assert_eq!(g.fitness, 0);
    }
}

#[test]
fn best_genome_records_the_champion() {
    let sets = Settings::new(2, 1, 8);
    let mut pop = Population::new(sets);
    assert!(pop.best_genome.is_none());
    for (i, g) in pop.get_citizens().iter_mut().enumerate() {
        g.add_fitness(i as i64 + 1);
    }
    pop.next_generation();
    assert_eq!(pop.best_fitness, 8);
    let best = pop.best_genome.as_ref().expect("champion recorded");
    assert_eq!(best.fitness, 8);
}

#[test]
fn settings_defaults_and_builders() {
    let sets = Settings::new(2, 1, 150)
        .conn_mut_rate(60_000)
        .allowed_stagnancy(20)
        .third_param(true);
    assert_eq!(sets.inputs, 2);
    assert_eq!(sets.outputs, 1);
    assert_eq!(sets.pop_size, 150);
    assert_eq!(sets.conn_mut_rate, 60_000);
    assert_eq!(sets.node_mut_rate, 30_000);
    assert_eq!(sets.wt_mut_rate, 800_000);
    assert_eq!(sets.wt_shift_rate, 900_000);
    assert_eq!(sets.off_gene_on_rate, 250_000);
    assert_eq!(sets.off_in_both_on_rate, 10_000);
    assert_eq!(sets.only_mut_rate, 250_000);
    assert_eq!(sets.disjoint_coeff, SCALE);
    assert_eq!(sets.excess_coeff, SCALE);
    assert_eq!(sets.activation_coeff, SCALE);
    assert_eq!(sets.weight_coeff, 400_000);
    assert_eq!(sets.speciation_threshold, 3 * SCALE);
    assert_eq!(sets.allowed_stagnancy, 20);
    assert!(sets.third_param);
}
