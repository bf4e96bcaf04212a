//! The population driver: seeding, speciation, fitness sharing, offspring
//! allocation, reproduction and generation advancement.

use vstd::prelude::*;
use crate::genome::{is_seed, Genome};
use crate::history::{is_seeded_registry, History};
use crate::settings::Settings;
use crate::species::{is_member_copy, sort_desc, spec_can_accommodate, Species};

verus! {

broadcast use vstd::seq_lib::group_to_multiset_ensures;

pub struct Population {
    pub sets: Settings,
    pub population: Vec<Genome>,
    pub species: Vec<Species>,
    pub hist: History,
    pub best_fitness: i64,
    pub best_genome: Option<Genome>,
    pub next_species_id: u32,
    pub generations: u64,
}

/// Every genome in the buffer is well formed, carries at least one
/// connection, and has the configured arity.
pub open spec fn genomes_ok(gs: Seq<Genome>, sets: Settings) -> bool {
    forall|k: int|
        0 <= k < gs.len() ==> (#[trigger] gs[k]).wf() && gs[k].conns@.len() >= 1 && gs[k].inputs
            == sets.inputs && gs[k].outputs == sets.outputs
}

/// Every species is well formed and its members have the configured arity.
pub open spec fn species_ok(ss: Seq<Species>, sets: Settings) -> bool {
    forall|k: int|
        0 <= k < ss.len() ==> (#[trigger] ss[k]).wf() && genomes_ok(ss[k].genomes@, sets)
}

/// The sum of the species' average fitness values from index `i` on.
pub open spec fn sum_avg(ss: Seq<Species>, i: int) -> int
    decreases ss.len() - i,
{
    if i < 0 || i >= ss.len() {
        0
    } else {
        ss[i].avg_fitness + sum_avg(ss, i + 1)
    }
}

/// The total membership across the species from index `i` on.
pub open spec fn sum_members(ss: Seq<Species>, i: int) -> int
    decreases ss.len() - i,
{
    if i < 0 || i >= ss.len() {
        0
    } else {
        ss[i].genomes@.len() + sum_members(ss, i + 1)
    }
}

/// Changing one species' member count by `d` changes the total by `d`.
proof fn lemma_sum_members_pointwise(s1: Seq<Species>, s2: Seq<Species>, i: int, si: int, d: int)
    requires
        s1.len() == s2.len(),
        0 <= si < s1.len(),
        0 <= i <= s1.len(),
        forall|k: int|
            0 <= k < s1.len() && k != si ==> (#[trigger] s2[k]).genomes@.len()
                == s1[k].genomes@.len(),
        s2[si].genomes@.len() == s1[si].genomes@.len() + d,
    ensures
        sum_members(s2, i) == sum_members(s1, i) + (if i <= si {
            d
        } else {
            0int
        }),
    decreases s1.len() - i,
{
    if i < s1.len() {
        lemma_sum_members_pointwise(s1, s2, i + 1, si, d);
    }
}

/// Appending a species adds its member count to the total.
proof fn lemma_sum_members_push(ss: Seq<Species>, sp: Species, i: int)
    requires
        0 <= i <= ss.len(),
    ensures
        sum_members(ss.push(sp), i) == sum_members(ss, i) + sp.genomes@.len(),
    decreases ss.len() - i,
{
    if i < ss.len() {
        assert(ss.push(sp)[i] == ss[i]);
        lemma_sum_members_push(ss, sp, i + 1);
    } else {
        assert(ss.push(sp)[i] == sp);
        assert(sum_members(ss.push(sp), i + 1) == 0);
    }
}

/// A list of emptied species holds no members.
proof fn lemma_sum_members_empty(ss: Seq<Species>, i: int)
    requires
        0 <= i <= ss.len(),
        forall|k: int| 0 <= k < ss.len() ==> (#[trigger] ss[k]).genomes@.len() == 0,
    ensures
        sum_members(ss, i) == 0,
    decreases ss.len() - i,
{
    if i < ss.len() {
        lemma_sum_members_empty(ss, i + 1);
    }
}

/// Every member of every species is accepted by its species' representative,
/// except a new species' founding member, which is the representative itself.
pub open spec fn members_accepted(ss: Seq<Species>, sets: Settings, len0: int) -> bool {
    forall|k: int, j: int|
        0 <= k < ss.len() && 0 <= j < ss[k].genomes@.len() ==> spec_can_accommodate(
            ss[k].representative,
            #[trigger] ss[k].genomes@[j],
            sets,
        ) || (k >= len0 && j == 0)
}

/// Every species' quota is the floor share of the offspring budget by its
/// average fitness over the total `t`.
pub open spec fn allocated_by_total(ss: Seq<Species>, pop: int, t: int) -> bool {
    forall|k: int|
        0 <= k < ss.len() ==> (#[trigger] ss[k]).assigned_offspring == (ss[k].avg_fitness * pop)
            / t
}

/// One non-negative element is at most the whole sum.
proof fn lemma_sum_avg_element(ss: Seq<Species>, k: int, i: int)
    requires
        forall|j: int| 0 <= j < ss.len() ==> 0 <= (#[trigger] ss[j]).avg_fitness,
        0 <= i <= k < ss.len(),
    ensures
        ss[k].avg_fitness <= sum_avg(ss, i),
    decreases k - i,
{
    if i < k {
        lemma_sum_avg_element(ss, k, i + 1);
    } else {
        lemma_sum_avg_bounds(ss, k + 1);
    }
}

/// A suffix average sum over non-negative averages is non-negative and
/// bounded.
proof fn lemma_sum_avg_bounds(ss: Seq<Species>, i: int)
    requires
        0 <= i <= ss.len(),
        forall|k: int| 0 <= k < ss.len() ==> 0 <= (#[trigger] ss[k]).avg_fitness,
    ensures
        0 <= sum_avg(ss, i) <= (ss.len() - i) * 0x7FFF_FFFF_FFFF_FFFF,
    decreases ss.len() - i,
{
    if i < ss.len() {
        lemma_sum_avg_bounds(ss, i + 1);
        assert((ss.len() - (i + 1)) * 0x7FFF_FFFF_FFFF_FFFF + 0x7FFF_FFFF_FFFF_FFFF == (ss.len()
            - i) * 0x7FFF_FFFF_FFFF_FFFF) by (nonlinear_arith);
    }
}

impl Population {
    /// Settings, genomes, species and the registry are all well formed, the
    /// best fitness is non-negative, and every genome matches the configured
    /// arity.
    pub open spec fn wf(&self) -> bool {
        &&& self.sets.wf()
        &&& genomes_ok(self.population@, self.sets)
        &&& species_ok(self.species@, self.sets)
        &&& self.hist.wf()
        &&& 0 <= self.best_fitness
    }

    /// A fresh population: a seeded registry and `pop_size` fully connected
    /// seed genomes, no species, zero best fitness, generation zero.
    pub fn new(sets: Settings) -> (r: Self)
        requires
            sets.wf(),
        ensures
            r.wf(),
            r.sets == sets,
            r.population@.len() == sets.pop_size,
            r.species@.len() == 0,
            r.best_fitness == 0,
            r.best_genome is None,
            r.next_species_id == 1,
            r.generations == 0,
            forall|k: int|
                0 <= k < r.population@.len() ==> is_seed(
                    #[trigger] r.population@[k],
                    sets.inputs,
                    sets.outputs,
                ),
            is_seeded_registry(r.hist, sets.inputs, sets.outputs),
    {
        let inputs = sets.inputs;
        let outputs = sets.outputs;
        let mut pop = Population {
            sets,
            population: Vec::new(),
            species: Vec::new(),
            hist: History::new(inputs, outputs),
            best_fitness: 0,
            best_genome: None,
            next_species_id: 1,
            generations: 0,
        };
        pop.reset();
        pop
    }

    /// Drop all evolutionary state and reseed the genome buffer.
    #[verifier::loop_isolation(false)]
    fn reset(&mut self)
        requires
            old(self).sets.wf(),
        ensures
            final(self).wf(),
            final(self).sets == old(self).sets,
            final(self).population@.len() == old(self).sets.pop_size,
            final(self).species@.len() == 0,
            final(self).best_fitness == 0,
            final(self).best_genome is None,
            final(self).next_species_id == 1,
            final(self).generations == 0,
            forall|k: int|
                0 <= k < final(self).population@.len() ==> is_seed(
                    #[trigger] final(self).population@[k],
                    old(self).sets.inputs,
                    old(self).sets.outputs,
                ),
            is_seeded_registry(final(self).hist, old(self).sets.inputs, old(self).sets.outputs),
    {
        self.population = Vec::new();
        self.species = Vec::new();
        self.best_fitness = 0;
        self.best_genome = None;
        self.next_species_id = 1;
        self.generations = 0;
        self.hist = History::new(self.sets.inputs, self.sets.outputs);
        let mut t: u32 = 0;
        while t < self.sets.pop_size
            invariant
                0 <= t <= self.sets.pop_size,
                self.population@.len() == t,
                genomes_ok(self.population@, self.sets),
                self.sets == old(self).sets,
                self.species@.len() == 0,
                self.best_fitness == 0,
                self.best_genome is None,
                self.next_species_id == 1,
                self.generations == 0,
                self.hist.wf(),
                is_seeded_registry(self.hist, self.sets.inputs, self.sets.outputs),
                forall|k: int|
                    0 <= k < self.population@.len() ==> is_seed(
                        #[trigger] self.population@[k],
                        self.sets.inputs,
                        self.sets.outputs,
                    ),
            decreases self.sets.pop_size - t,
        {
            let genome = Genome::new(self.sets.inputs, self.sets.outputs, false);
            proof {
                assert(genome.conns@.len() == (self.sets.inputs + 1) * self.sets.outputs >= 1)
                    by (nonlinear_arith)
                    requires
                        genome.conns@.len() == (self.sets.inputs + 1) * self.sets.outputs,
                        self.sets.inputs >= 1,
                        self.sets.outputs >= 1,
                ;
            }
            self.population.push(genome);
            t = t + 1;
        }
    }

    /// Mutable access to the genome buffer, so the host can score each
    /// genome and report fitness through `add_fitness`.
    pub fn get_citizens(&mut self) -> (r: &mut Vec<Genome>)
        ensures
            *r == old(self).population,
            final(self).population == *final(r),
            final(self).sets == old(self).sets,
            final(self).species == old(self).species,
            final(self).hist == old(self).hist,
            final(self).best_fitness == old(self).best_fitness,
            final(self).best_genome == old(self).best_genome,
            final(self).next_species_id == old(self).next_species_id,
            final(self).generations == old(self).generations,
    {
        &mut self.population
    }

    /// Clear each species' member list, place every genome into the first
    /// species whose representative accepts it (creating a new species with
    /// the genome as representative when none does), and empty the buffer.
    #[verifier::loop_isolation(false)]
    fn speciate_population(&mut self)
        requires
            old(self).wf(),
        ensures
            final(self).sets == old(self).sets,
            final(self).hist == old(self).hist,
            final(self).best_fitness == old(self).best_fitness,
            final(self).best_genome == old(self).best_genome,
            final(self).generations == old(self).generations,
            final(self).population@.len() == 0,
            species_ok(final(self).species@, final(self).sets),
            final(self).wf(),
            final(self).species@.len() >= old(self).species@.len(),
            forall|k: int|
                0 <= k < old(self).species@.len() ==> (#[trigger] final(self).species@[k]).id
                    == old(self).species@[k].id && final(self).species@[k].representative == old(self).species@[k].representative,
            old(self).next_species_id + old(self).population@.len() <= u32::MAX ==> final(self).next_species_id == old(self).next_species_id + (final(self).species@.len() - old(self).species@.len()) && forall|k: int|
                old(self).species@.len() <= k < final(self).species@.len() ==> (#[trigger] final(self).species@[k]).id == old(self).next_species_id + (k - old(self).species@.len()),
            forall|k: int, j: int|
                0 <= k < final(self).species@.len() && 0 <= j < (#[trigger] final(self).species@[k]).genomes@.len() ==> is_member_copy(
                    old(self).population@,
                    #[trigger] final(self).species@[k].genomes@[j],
                ),
            forall|k: int|
                old(self).species@.len() <= k < final(self).species@.len() ==> is_member_copy(
                    old(self).population@,
                    (#[trigger] final(self).species@[k]).representative,
                ),
            sum_members(final(self).species@, 0) == old(self).population@.len(),
            members_accepted(
                final(self).species@,
                old(self).sets,
                old(self).species@.len() as int,
            ),
    {
        let ghost len0 = old(self).species@.len() as int;
        let ghost next0 = old(self).next_species_id;
        let ghost popsnap = old(self).population@;
        let mut cleared: Vec<Species> = Vec::new();
        while self.species.len() > 0
            invariant
                self.sets == old(self).sets,
                self.hist == old(self).hist,
                self.best_fitness == old(self).best_fitness,
                self.best_genome == old(self).best_genome,
                self.generations == old(self).generations,
                self.next_species_id == old(self).next_species_id,
                self.population == old(self).population,
                species_ok(self.species@, self.sets),
                species_ok(cleared@, self.sets),
                cleared@.len() + self.species@.len() == len0,
                forall|k: int|
                    0 <= k < cleared@.len() ==> (#[trigger] cleared@[k]).genomes@.len() == 0
                        && cleared@[k].id == old(self).species@[k].id && cleared@[k].representative
                        == old(self).species@[k].representative,
                forall|k: int|
                    0 <= k < self.species@.len() ==> #[trigger] self.species@[k] == old(self).species@[cleared@.len() + k],
            decreases self.species@.len(),
        {
            let ghost pre = self.species@;
            let mut s = self.species.remove(0);
            s.genomes = Vec::new();
            cleared.push(s);
            proof {
                pre.remove_ensures(0);
            }
        }
        self.species = cleared;
        proof {
            lemma_sum_members_empty(self.species@, 0);
        }
        while self.population.len() > 0
            invariant
                old(self).wf(),
                self.sets == old(self).sets,
                self.hist == old(self).hist,
                self.best_fitness == old(self).best_fitness,
                self.best_genome == old(self).best_genome,
                self.generations == old(self).generations,
                genomes_ok(self.population@, self.sets),
                species_ok(self.species@, self.sets),
                self.population@.len() <= popsnap.len(),
                self.population@ =~= popsnap.skip(popsnap.len() - self.population@.len()),
                self.species@.len() >= len0,
                forall|k: int|
                    0 <= k < len0 ==> (#[trigger] self.species@[k]).id == old(self).species@[k].id
                        && self.species@[k].representative == old(self).species@[k].representative,
                next0 + popsnap.len() <= u32::MAX ==> self.next_species_id == next0 + (
                self.species@.len() - len0) && self.next_species_id <= next0 + (popsnap.len()
                    - self.population@.len()) && forall|k: int|
                    len0 <= k < self.species@.len() ==> (#[trigger] self.species@[k]).id == next0 + (
                    k - len0),
                forall|k: int, j: int|
                    0 <= k < self.species@.len() && 0 <= j < (#[trigger] self.species@[k]).genomes@.len()
                        ==> is_member_copy(popsnap, #[trigger] self.species@[k].genomes@[j]),
                forall|k: int|
                    len0 <= k < self.species@.len() ==> is_member_copy(
                        popsnap,
                        (#[trigger] self.species@[k]).representative,
                    ),
                sum_members(self.species@, 0) == popsnap.len() - self.population@.len(),
                members_accepted(self.species@, self.sets, len0),
            decreases self.population@.len(),
        {
            let ghost poppre = self.population@;
            let ghost drained = popsnap.len() - self.population@.len();
            let g = self.population.remove(0);
            proof {
                poppre.remove_ensures(0);
                assert(0 <= drained < popsnap.len());
                assert(poppre == popsnap.skip(drained as int)) by {
                    assert(poppre =~= popsnap.skip(drained as int));
                }
                assert(g == poppre[0]);
                assert(popsnap.skip(drained as int)[0] == popsnap[drained as int + 0]);
                assert(g == popsnap[drained as int]);
                assert(self.population@.len() == poppre.len() - 1);
                assert forall|j: int| 0 <= j < self.population@.len() implies
                    #[trigger] self.population@[j] == popsnap.skip(drained as int + 1)[j] by {
                    assert(self.population@[j] == poppre[j + 1]);
                    assert(popsnap.skip(drained as int)[j + 1] == popsnap[drained as int + j + 1]);
                    assert(popsnap.skip(drained as int + 1)[j] == popsnap[drained as int + 1 + j]);
                }
                assert(self.population@ =~= popsnap.skip(drained as int + 1));
                assert(drained as int + 1 == popsnap.len() - self.population@.len());
                assert(is_member_copy(popsnap, g)) by {
                    assert(g.inputs == popsnap[drained as int].inputs && g.outputs
                        == popsnap[drained as int].outputs && g.nodes@ == popsnap[
                    drained as int].nodes@ && g.conns@ == popsnap[drained as int].conns@
                        && g.fitness == popsnap[drained as int].fitness);
                }
            }
            let mut si: usize = 0;
            let mut placed: bool = false;
            while si < self.species.len() && !placed
                invariant
                    0 <= si <= self.species@.len(),
                    placed ==> si < self.species@.len() && spec_can_accommodate(
                        self.species@[si as int].representative,
                        g,
                        self.sets,
                    ),
                    species_ok(self.species@, self.sets),
                    g.wf(),
                    g.conns@.len() >= 1,
                    g.inputs == self.sets.inputs,
                    g.outputs == self.sets.outputs,
                    self.sets.wf(),
                decreases self.species@.len() - si + (if placed {
                    0int
                } else {
                    1int
                }),
            {
                if self.species[si].can_accomodate(&g, &self.sets) {
                    placed = true;
                } else {
                    si = si + 1;
                }
            }
            if placed {
                let ghost pre = self.species@;
                let mut s = self.species.remove(si);
                let ghost members = s.genomes@;
                s.add_genome(g);
                self.species.insert(si, s);
                proof {
                    pre.remove_ensures(si as int);
                    pre.remove(si as int).insert_ensures(si as int, s);
                    assert forall|k: int| 0 <= k < self.species@.len() implies (
                    #[trigger] self.species@[k]).wf() && genomes_ok(
                        self.species@[k].genomes@,
                        self.sets,
                    ) && (k != si as int ==> self.species@[k] == pre[k]) && (k == si as int
                        ==> self.species@[k].id == pre[k].id && self.species@[k].representative
                        == pre[k].representative) by {
                        if k < si as int {
                            assert(self.species@[k] == pre[k]);
                        } else if k > si as int {
                            assert(self.species@[k] == pre.remove(si as int)[k - 1]);
                            assert(self.species@[k] == pre[k]);
                        } else {
                            assert(self.species@[k] == s);
                            assert(s.genomes@ == members.push(self.species@[k].genomes@[
                                members.len() as int]));
                            assert forall|m: int| 0 <= m < s.genomes@.len() implies (
                            #[trigger] s.genomes@[m]).wf() && s.genomes@[m].conns@.len() >= 1
                                && s.genomes@[m].inputs == self.sets.inputs && s.genomes@[m].outputs
                                == self.sets.outputs by {
                                if m < members.len() {
                                    assert(s.genomes@[m] == members[m]);
                                    assert(pre[si as int].genomes@[m] == members[m]);
                                }
                            }
                        }
                    }
                    assert forall|k: int, j: int|
                        0 <= k < self.species@.len() && 0 <= j < (
                        #[trigger] self.species@[k]).genomes@.len() implies is_member_copy(
                        popsnap,
                        #[trigger] self.species@[k].genomes@[j],
                    ) by {
                        if k == si as int {
                            if j < members.len() {
                                assert(self.species@[k].genomes@[j] == members[j]);
                                assert(pre[si as int].genomes@[j] == members[j]);
                                assert(is_member_copy(popsnap, pre[si as int].genomes@[j]));
                            } else {
                                let d = self.species@[k].genomes@[j];
                                assert(d.inputs == g.inputs && d.outputs == g.outputs && d.nodes@
                                    == g.nodes@ && d.conns@ == g.conns@ && d.fitness == g.fitness);
                                assert(d.inputs == popsnap[drained as int].inputs && d.outputs
                                    == popsnap[drained as int].outputs && d.nodes@ == popsnap[
                                drained as int].nodes@ && d.conns@ == popsnap[
                                drained as int].conns@ && d.fitness == popsnap[
                                drained as int].fitness);
                                assert(is_member_copy(popsnap, d));
                            }
                        } else {
                            assert(self.species@[k] == pre[k]);
                            assert(is_member_copy(popsnap, pre[k].genomes@[j]));
                        }
                    }
                    lemma_sum_members_pointwise(pre, self.species@, 0, si as int, 1);
                    assert forall|k: int, j: int|
                        0 <= k < self.species@.len() && 0 <= j < self.species@[k].genomes@.len()
                            implies spec_can_accommodate(
                        self.species@[k].representative,
                        #[trigger] self.species@[k].genomes@[j],
                        self.sets,
                    ) || (k >= len0 && j == 0) by {
                        if k == si as int {
                            assert(self.species@[k].representative == pre[k].representative);
                            if j < members.len() {
                                assert(self.species@[k].genomes@[j] == pre[k].genomes@[j]);
                                assert(spec_can_accommodate(
                                    pre[k].representative,
                                    pre[k].genomes@[j],
                                    self.sets,
                                ) || (k >= len0 && j == 0));
                            } else {
                                assert(self.species@[k].genomes@[j] == g);
                                assert(spec_can_accommodate(
                                    pre[si as int].representative,
                                    g,
                                    self.sets,
                                ));
                            }
                        } else {
                            assert(self.species@[k] == pre[k]);
                            assert(spec_can_accommodate(
                                pre[k].representative,
                                pre[k].genomes@[j],
                                self.sets,
                            ) || (k >= len0 && j == 0));
                        }
                    }
                }
            } else {
                let sid = self.next_species_id;
                if self.next_species_id < u32::MAX {
                    self.next_species_id = self.next_species_id + 1;
                }
                let ghost spre = self.species@;
                let s = Species::new(g, sid);
                self.species.push(s);
                proof {
                    lemma_sum_members_push(spre, s, 0);
                    assert forall|k: int, j: int|
                        0 <= k < self.species@.len() && 0 <= j < self.species@[k].genomes@.len()
                            implies spec_can_accommodate(
                        self.species@[k].representative,
                        #[trigger] self.species@[k].genomes@[j],
                        self.sets,
                    ) || (k >= len0 && j == 0) by {
                        if k < spre.len() {
                            assert(self.species@[k] == spre[k]);
                            assert(spec_can_accommodate(
                                spre[k].representative,
                                spre[k].genomes@[j],
                                self.sets,
                            ) || (k >= len0 && j == 0));
                        } else {
                            assert(self.species@[k] == s);
                        }
                    }
                    assert(s.representative.inputs == popsnap[drained as int].inputs
                        && s.representative.outputs == popsnap[drained as int].outputs
                        && s.representative.nodes@ == popsnap[drained as int].nodes@
                        && s.representative.conns@ == popsnap[drained as int].conns@
                        && s.representative.fitness == popsnap[drained as int].fitness);
                    assert(is_member_copy(popsnap, s.representative));
                    assert(s.genomes@[0] == g);
                    assert(is_member_copy(popsnap, s.genomes@[0]));
                }
            }
        }
    }

    /// Advance one generation: snapshot the champion and the best fitness,
    /// re-speciate, age and share and cull each species, drop stagnant or
    /// unproductive species, apportion offspring by share of average fitness,
    /// reproduce and mutate, pad any shortfall with mutated champion copies,
    /// and replace the buffer. The new population has exactly `pop_size`
    /// genomes and the best fitness never decreases.
    #[verifier::loop_isolation(false)]
    #[verifier::rlimit(60)]
    pub fn next_generation(&mut self)
        requires
            old(self).wf(),
            old(self).population@.len() >= 1,
            old(self).generations < u64::MAX,
        ensures
            final(self).wf(),
            final(self).sets == old(self).sets,
            final(self).population@.len() == old(self).sets.pop_size,
            final(self).best_fitness >= old(self).best_fitness,
            final(self).generations == old(self).generations + 1,
            forall|k: int|
                0 <= k < old(self).population@.len() ==> (#[trigger] old(self).population@[k]).fitness <= final(self).best_fitness,
            final(self).best_fitness == old(self).best_fitness || exists|k: int|
                0 <= k < old(self).population@.len() && (#[trigger] old(self).population@[k]).fitness == final(self).best_fitness,
            forall|k: int|
                0 <= k < final(self).population@.len() ==> (#[trigger] final(self).population@[k]).fitness == 0,
            forall|k: int|
                0 <= k < final(self).species@.len() ==> (#[trigger] final(self).species@[k]).stagnancy < old(self).sets.allowed_stagnancy && final(self).species@[k].assigned_offspring >= 1 && final(self).species@[k].genomes@.len()
                    >= 1,
            final(self).best_fitness == old(self).best_fitness ==> final(self).best_genome == old(self).best_genome,
            final(self).best_fitness > old(self).best_fitness ==> (final(self).best_genome matches Some(b) && b.fitness == final(self).best_fitness && exists|k: int|
                0 <= k < old(self).population@.len() && b.nodes@ == (#[trigger] old(self).population@[k]).nodes@ && b.conns@ == old(self).population@[k].conns@
                    && b.fitness == old(self).population@[k].fitness),
            exists|t: int|
                1 <= t && #[trigger] allocated_by_total(
                    final(self).species@,
                    old(self).sets.pop_size as int,
                    t,
                ),
    {
        let ghost pop0 = self.population@;
        sort_desc(&mut self.population);
        proof {
            assert forall|k: int| 0 <= k < self.population@.len() implies (
            #[trigger] self.population@[k]).wf() && self.population@[k].conns@.len() >= 1
                && self.population@[k].inputs == self.sets.inputs && self.population@[k].outputs
                == self.sets.outputs by {
                assert(self.population@.contains(self.population@[k]));
                vstd::seq_lib::to_multiset_contains(self.population@, self.population@[k]);
                vstd::seq_lib::to_multiset_contains(pop0, self.population@[k]);
                assert(pop0.contains(self.population@[k]));
            }
            assert forall|k: int| 0 <= k < pop0.len() implies (#[trigger] pop0[k]).fitness
                <= self.population@[0].fitness by {
                assert(pop0.contains(pop0[k]));
                vstd::seq_lib::to_multiset_contains(self.population@, pop0[k]);
                vstd::seq_lib::to_multiset_contains(pop0, pop0[k]);
                assert(self.population@.contains(pop0[k]));
                let j = choose|j: int|
                    0 <= j < self.population@.len() && self.population@[j] == pop0[k];
                if j > 0 {
                    assert(self.population@[0].fitness >= self.population@[j].fitness);
                }
            }
        }
        let mut this_champ = self.population[0].duplicate();
        if this_champ.fitness > self.best_fitness {
            self.best_fitness = this_champ.fitness;
            self.best_genome = Some(this_champ.duplicate());
            proof {
                assert(self.population@.contains(self.population@[0]));
                vstd::seq_lib::to_multiset_contains(self.population@, self.population@[0]);
                vstd::seq_lib::to_multiset_contains(pop0, self.population@[0]);
                assert(pop0.contains(self.population@[0]));
                let k = choose|k: int| 0 <= k < pop0.len() && pop0[k] == self.population@[0];
                assert(self.best_genome matches Some(b) && b.fitness == self.best_fitness
                    && b.nodes@ == pop0[k].nodes@ && b.conns@ == pop0[k].conns@ && b.fitness
                    == pop0[k].fitness);
            }
        }
        this_champ.fitness = 0;
        let ghost best_now = self.best_fitness;
        let ghost bg_now = self.best_genome;
        self.speciate_population();
        proof {
            assert(self.best_fitness == best_now);
        }
        let allowed = self.sets.allowed_stagnancy;
        let mut kept: Vec<Species> = Vec::new();
        while self.species.len() > 0
            invariant
                self.sets == old(self).sets,
                self.sets.wf(),
                species_ok(self.species@, self.sets),
                species_ok(kept@, self.sets),
                forall|k: int|
                    0 <= k < kept@.len() ==> (#[trigger] kept@[k]).genomes@.len() >= 1
                        && kept@[k].stagnancy < allowed,
                allowed == self.sets.allowed_stagnancy,
                self.best_fitness == best_now,
                self.best_genome == bg_now,
                self.generations == old(self).generations,
                self.hist.wf(),
            decreases self.species@.len(),
        {
            let mut s = self.species.remove(0);
            s.sort_genomes();
            proof {
                assert forall|k: int| 0 <= k < s.genomes@.len() implies (
                #[trigger] s.genomes@[k]).wf() && s.genomes@[k].conns@.len() >= 1
                    && s.genomes@[k].inputs == self.sets.inputs && s.genomes@[k].outputs
                    == self.sets.outputs by {
                    assert(s.genomes@.contains(s.genomes@[k]));
                }
            }
            s.update_stagnancy();
            s.fitness_sharing();
            s.cull_lower_half();
            if s.stagnancy < allowed {
                proof {
                    assert(s.genomes@.len() >= 1);
                }
                kept.push(s);
            }
        }
        self.species = kept;
        proof {
            lemma_sum_avg_bounds(self.species@, 0);
        }
        let mut total_avg: u128 = 0;
        let mut t: usize = 0;
        while t < self.species.len()
            invariant
                0 <= t <= self.species@.len(),
                species_ok(self.species@, self.sets),
                total_avg == sum_avg(self.species@, 0) - sum_avg(self.species@, t as int),
                total_avg <= t * 0x7FFF_FFFF_FFFF_FFFF,
                t <= usize::MAX,
            decreases self.species@.len() - t,
        {
            proof {
                lemma_sum_avg_bounds(self.species@, t as int);
            }
            total_avg = total_avg + self.species[t].avg_fitness as u128;
            t = t + 1;
        }
        proof {
            assert forall|k: int| 0 <= k < self.species@.len() implies (
            #[trigger] self.species@[k]).avg_fitness <= total_avg as int by {
                lemma_sum_avg_element(self.species@, k, 0);
                lemma_sum_avg_bounds(self.species@, 0);
            }
        }
        let pop_size = self.sets.pop_size;
        let mut allotted: Vec<Species> = Vec::new();
        let ghost total = total_avg as int;
        let ghost alloc_t: int = if total_avg > 0 {
            total_avg as int
        } else {
            1int
        };
        while self.species.len() > 0
            invariant
                self.sets == old(self).sets,
                self.sets.wf(),
                pop_size == self.sets.pop_size,
                species_ok(self.species@, self.sets),
                species_ok(allotted@, self.sets),
                total == total_avg as int,
                alloc_t == (if total > 0 {
                    total
                } else {
                    1int
                }),
                forall|k: int|
                    0 <= k < self.species@.len() ==> (#[trigger] self.species@[k]).avg_fitness
                        <= total,
                allocated_by_total(allotted@, pop_size as int, alloc_t),
                forall|k: int|
                    0 <= k < allotted@.len() ==> 1 <= (#[trigger] allotted@[k]).assigned_offspring
                        && allotted@[k].genomes@.len() >= 1 && allotted@[k].stagnancy
                        < self.sets.allowed_stagnancy,
                forall|k: int|
                    0 <= k < self.species@.len() ==> (#[trigger] self.species@[k]).stagnancy
                        < self.sets.allowed_stagnancy,
                forall|k: int|
                    0 <= k < self.species@.len() ==> (#[trigger] self.species@[k]).genomes@.len()
                        >= 1,
                self.hist.wf(),
                self.best_fitness == best_now,
                self.best_genome == bg_now,
                self.generations == old(self).generations,
            decreases self.species@.len(),
        {
            let ghost specpre = self.species@;
            let mut s = self.species.remove(0);
            proof {
                specpre.remove_ensures(0);
            }
            if total_avg > 0 {
                proof {
                    lemma_share_bounds(s.avg_fitness as int, pop_size as int, total_avg as int);
                    vstd::arithmetic::mul::lemma_mul_upper_bound(
                        s.avg_fitness as int,
                        0x7FFF_FFFF_FFFF_FFFF,
                        pop_size as int,
                        0x1_0000_0000,
                    );
                }
                let share: u128 = (s.avg_fitness as u128) * (pop_size as u128) / total_avg;
                if s.avg_fitness as u128 <= total_avg {
                    s.assigned_offspring = share as usize;
                    if s.assigned_offspring > 0 {
                        allotted.push(s);
                    }
                }
            }
        }
        self.species = allotted;
        let mut progeny: Vec<Genome> = Vec::new();
        let mut si: usize = 0;
        while si < self.species.len()
            invariant
                0 <= si <= self.species@.len(),
                self.sets == old(self).sets,
                self.sets.wf(),
                self.hist.wf(),
                self.best_fitness == best_now,
                self.best_genome == bg_now,
                self.generations == old(self).generations,
                species_ok(self.species@, self.sets),
                forall|k: int|
                    0 <= k < self.species@.len() ==> 1 <= (
                    #[trigger] self.species@[k]).assigned_offspring
                        && self.species@[k].genomes@.len() >= 1 && self.species@[k].stagnancy
                        < self.sets.allowed_stagnancy,
                1 <= alloc_t,
                pop_size == self.sets.pop_size,
                allocated_by_total(self.species@, pop_size as int, alloc_t),
                genomes_ok(progeny@, self.sets),
                forall|k: int| 0 <= k < progeny@.len() ==> (#[trigger] progeny@[k]).fitness == 0,
            decreases self.species@.len() - si,
        {
            let amt = self.species[si].assigned_offspring;
            let mut produced: usize = 0;
            if self.species[si].genomes.len() > 3 {
                let mut champ = self.species[si].genomes[0].duplicate();
                champ.fitness = 0;
                progeny.push(champ);
                produced = 1;
            }
            let children = self.species[si].produce_offspring(amt - produced, &self.sets);
            let mut c: usize = 0;
            let ghost base = progeny@.len() as int;
            let ghost sp_snap = self.species@;
            while c < children.len()
                invariant
                    0 <= c <= children@.len(),
                    self.sets == old(self).sets,
                    self.sets.wf(),
                    self.hist.wf(),
                    self.best_fitness == best_now,
                    self.best_genome == bg_now,
                    self.generations == old(self).generations,
                    species_ok(self.species@, self.sets),
                    genomes_ok(progeny@, self.sets),
                    forall|k: int| 0 <= k < progeny@.len() ==> (#[trigger] progeny@[k]).fitness == 0,
                    progeny@.len() == base + c,
                    forall|k: int|
                        0 <= k < children@.len() ==> (#[trigger] children@[k]).wf()
                            && children@[k].conns@.len() >= 1 && children@[k].inputs
                            == self.sets.inputs && children@[k].outputs == self.sets.outputs,
                    si < self.species@.len(),
                    self.species@ == sp_snap,
                    1 <= alloc_t,
                    allocated_by_total(self.species@, pop_size as int, alloc_t),
                    forall|k: int|
                        0 <= k < self.species@.len() ==> 1 <= (
                        #[trigger] self.species@[k]).assigned_offspring
                            && self.species@[k].genomes@.len() >= 1 && self.species@[k].stagnancy
                            < self.sets.allowed_stagnancy,
                decreases children@.len() - c,
            {
                let mut child = children[c].duplicate();
                child.mutate(&mut self.hist, &self.sets);
                child.fitness = 0;
                progeny.push(child);
                c = c + 1;
            }
            si = si + 1;
        }
        while progeny.len() < pop_size as usize
            invariant
                self.sets == old(self).sets,
                self.sets.wf(),
                self.hist.wf(),
                self.best_fitness == best_now,
                self.best_genome == bg_now,
                self.generations == old(self).generations,
                species_ok(self.species@, self.sets),
                forall|k: int|
                    0 <= k < self.species@.len() ==> 1 <= (
                    #[trigger] self.species@[k]).assigned_offspring
                        && self.species@[k].genomes@.len() >= 1 && self.species@[k].stagnancy
                        < self.sets.allowed_stagnancy,
                1 <= alloc_t,
                pop_size == self.sets.pop_size,
                allocated_by_total(self.species@, pop_size as int, alloc_t),
                genomes_ok(progeny@, self.sets),
                forall|k: int| 0 <= k < progeny@.len() ==> (#[trigger] progeny@[k]).fitness == 0,
                this_champ.fitness == 0,
                this_champ.wf(),
                this_champ.conns@.len() >= 1,
                this_champ.inputs == self.sets.inputs,
                this_champ.outputs == self.sets.outputs,
                pop_size == self.sets.pop_size,
            decreases pop_size as int - progeny@.len(),
        {
            let mut another = this_champ.duplicate();
            another.mutate(&mut self.hist, &self.sets);
            progeny.push(another);
        }
        if progeny.len() > pop_size as usize {
            progeny.truncate(pop_size as usize);
            proof {
                assert(genomes_ok(progeny@, self.sets));
            }
        }
        self.population = progeny;
        self.generations = self.generations + 1;
        proof {
            assert(1 <= alloc_t && allocated_by_total(
                self.species@,
                old(self).sets.pop_size as int,
                alloc_t,
            ));
        }
    }
}

/// A species' floor share of the offspring budget is at most the budget
/// whenever its average is at most the total.
proof fn lemma_share_bounds(avg: int, pop: int, total: int)
    requires
        0 <= avg,
        0 <= pop,
        1 <= total,
    ensures
        avg <= total ==> avg * pop / total <= pop,
        0 <= avg * pop / total,
{
    vstd::arithmetic::mul::lemma_mul_nonnegative(avg, pop);
    vstd::arithmetic::div_mod::lemma_div_pos_is_pos(avg * pop, total);
    if avg <= total {
        vstd::arithmetic::mul::lemma_mul_inequality(avg, total, pop);
        vstd::arithmetic::div_mod::lemma_div_is_ordered(avg * pop, total * pop, total);
        vstd::arithmetic::mul::lemma_mul_is_commutative(total, pop);
        vstd::arithmetic::div_mod::lemma_div_by_multiple(pop, total);
    }
}

} // verus!
