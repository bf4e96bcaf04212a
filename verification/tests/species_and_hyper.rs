use neat_rs::errors::NeatError;
use neat_rs::genome::Genome;
use neat_rs::hyper_tensor::HyperTensor;
use neat_rs::settings::{HyperSettings, Settings};
use neat_rs::species::Species;
use neat_rs::SCALE;

#[test]
fn representative_accommodates_itself() {
    let sets = Settings::new(3, 2, 10);
    let g = Genome::new(3, 2, false);
    let s = Species::new(g.duplicate(), 1);
    assert!(s.can_accomodate(&g, &sets));
}

#[test]
fn zero_threshold_rejects_everything() {
    let sets = Settings::new(3, 2, 10).speciation_threshold(0);
    let g = Genome::new(3, 2, false);
    let s = Species::new(g.duplicate(), 1);
    assert!(!s.can_accomodate(&g, &sets));
}

#[test]
fn cull_keeps_upper_half() {
    let g = Genome::new(2, 1, false);
    let mut s = Species::new(g.duplicate(), 1);
    for _ in 0..4 {
        s.add_genome(Genome::new(2, 1, false));
    }
    assert_eq!(s.genomes.len(), 5);
    s.cull_lower_half();
    assert_eq!(s.genomes.len(), 3);

    let mut small = Species::new(g.duplicate(), 2);
    small.add_genome(Genome::new(2, 1, false));
    small.cull_lower_half();
    assert_eq!(small.genomes.len(), 2);

    let mut four = Species::new(g, 3);
    for _ in 0..3 {
        four.add_genome(Genome::new(2, 1, false));
    }
    four.cull_lower_half();
    assert_eq!(four.genomes.len(), 2);
}

#[test]
fn empty_species_saturates_stagnancy() {
    let g = Genome::new(2, 1, false);
    let mut s = Species::new(g, 1);
    s.genomes.clear();
    s.update_stagnancy();
    assert_eq!(s.stagnancy, u32::MAX);
}

#[test]
fn stagnancy_ticks_on_ties_and_resets_on_improvement() {
    let mut g = Genome::new(2, 1, false);
    g.add_fitness(10);
    let mut s = Species::new(g, 1);
    // max_fitness snapshot is 10; a tie does not reset
    s.update_stagnancy();
    assert_eq!(s.stagnancy, 1);
    s.update_stagnancy();
    assert_eq!(s.stagnancy, 2);
    s.genomes[0].add_fitness(5);
    s.update_stagnancy();
    assert_eq!(s.stagnancy, 0);
    assert_eq!(s.max_fitness, 15);
}

#[test]
fn fitness_sharing_divides_by_size() {
    let mut g = Genome::new(2, 1, false);
    g.add_fitness(90);
    let mut s = Species::new(g, 1);
    let mut g2 = Genome::new(2, 1, false);
    g2.add_fitness(31);
    s.add_genome(g2);
    s.fitness_sharing();
    assert_eq!(s.genomes[0].fitness, 45);
    assert_eq!(s.genomes[1].fitness, 15);
    assert_eq!(s.avg_fitness, 30);
}

#[test]
fn sort_genomes_orders_by_fitness_descending() {
    let g = Genome::new(2, 1, false);
    let mut s = Species::new(g, 1);
    let mut g2 = Genome::new(2, 1, false);
    g2.add_fitness(50);
    s.add_genome(g2);
    let mut g3 = Genome::new(2, 1, false);
    g3.add_fitness(20);
    s.add_genome(g3);
    s.sort_genomes();
    assert_eq!(s.genomes[0].fitness, 50);
    assert_eq!(s.genomes[1].fitness, 20);
    assert_eq!(s.genomes[2].fitness, 0);
}

#[test]
fn produce_offspring_counts_and_validity() {
    let sets = Settings::new(2, 1, 10);
    let mut g = Genome::new(2, 1, false);
    g.add_fitness(10);
    let mut s = Species::new(g, 1);
    let mut g2 = Genome::new(2, 1, false);
    g2.add_fitness(4);
    s.add_genome(g2);
    let kids = s.produce_offspring(7, &sets);
    assert_eq!(kids.len(), 7);
    for k in &kids {
        assert!(!k.conns.is_empty());
        assert!(k.fitness >= 0);
    }
}

#[test]
fn tensor_validation() {
    assert_eq!(
        HyperTensor::new(vec![vec![0, 0]]).err(),
        Some(NeatError::TensorShape)
    );
    assert_eq!(
        HyperTensor::new(vec![vec![0], vec![0]]).err(),
        Some(NeatError::TensorShape)
    );
    assert_eq!(
        HyperTensor::new(vec![vec![1, 2], vec![3]]).err(),
        Some(NeatError::TensorShape)
    );
    assert_eq!(HyperTensor::zeros(1, 5).err(), Some(NeatError::TensorShape));
    let t = HyperTensor::zeros(5, 5).unwrap();
    assert_eq!(t.m, 5);
    assert_eq!(t.n, 5);
    for row in &t.values {
        assert_eq!(row.len(), 5);
        assert!(row.iter().all(|&v| v == 0));
    }
}

#[test]
fn scaled_weight_dead_band_and_cap() {
    let hs = HyperSettings::default();
    assert_eq!(hs.scaled_weight(100_000), 0);
    assert_eq!(hs.scaled_weight(-199_999), 0);
    assert_eq!(hs.scaled_weight(3_000_000), 3_000_000);
    // negative side: magnitude grows from min_weight outward
    assert_eq!(hs.scaled_weight(-200_000), -428_571);
}

#[test]
fn scaled_weight_without_dead_band_is_odd() {
    let hs = HyperSettings::default().min_weight(0);
    assert_eq!(hs.scaled_weight(123_456), 123_456);
    assert_eq!(hs.scaled_weight(-123_456), -123_456);
    assert_eq!(hs.scaled_weight(0), 0);
}

#[test]
fn hyper_feed_forward_arity_policy() {
    let cppn4 = Genome::new(4, 1, false);
    let cppn6 = Genome::new(6, 1, false);
    let hs = HyperSettings::default();
    let t = HyperTensor::zeros(3, 3).unwrap();
    let r = cppn4.hyper_feed_forward(t, &hs, Some(|x: i64, _y: i64| x));
    assert_eq!(r.err(), Some(NeatError::HyperArity));
    let t = HyperTensor::zeros(3, 3).unwrap();
    let r = cppn6.hyper_feed_forward::<fn(i64, i64) -> i64>(t, &hs, None);
    assert_eq!(r.err(), Some(NeatError::HyperArity));
}

#[test]
fn hyper_feed_forward_shapes_output() {
    let cppn4 = Genome::new(4, 1, false);
    let hs = HyperSettings::default();
    let t = HyperTensor::zeros(3, 4).unwrap();
    let out = cppn4
        .hyper_feed_forward::<fn(i64, i64) -> i64>(t, &hs, None)
        .unwrap();
    assert_eq!(out.len(), 3);
    for row in &out {
        assert_eq!(row.len(), 4);
    }
    let cppn6 = Genome::new(6, 1, false);
    let t = HyperTensor::zeros(2, 2).unwrap();
    let out = cppn6
        .hyper_feed_forward(t, &hs, Some(|x: i64, y: i64| (x + y) / 2))
        .unwrap();
    assert_eq!(out.len(), 2);
}
