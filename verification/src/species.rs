//! A species: a cluster of genetically compatible genomes with a fixed
//! representative, stagnancy tracking, fitness sharing, fitness-proportional
//! parent selection, and offspring production.

use vstd::prelude::*;
use crate::connection::Connection;
use crate::fixed::{abs, SCALE};
use crate::genome::{lemma_conns_len_bound, spec_has_innov, Genome};
use crate::node::Node;
use crate::rng::{chance, rand_index, rand_threshold};
use crate::settings::Settings;

verus! {

broadcast use vstd::seq_lib::group_to_multiset_ensures;

/// The first index at or after `j` whose connection carries this innovation.
pub open spec fn spec_innov_idx(b: Seq<Connection>, id: u32, j: int) -> Option<int>
    decreases b.len() - j,
{
    if j < 0 || j >= b.len() {
        None
    } else if b[j].innov == id {
        Some(j)
    } else {
        spec_innov_idx(b, id, j + 1)
    }
}

/// How many of `a[i..]` have an innovation id that `b` also carries.
pub open spec fn count_matching(a: Seq<Connection>, b: Seq<Connection>, i: int) -> int
    decreases a.len() - i,
{
    if i < 0 || i >= a.len() {
        0
    } else {
        (if spec_has_innov(b, a[i].innov) {
            1int
        } else {
            0int
        }) + count_matching(a, b, i + 1)
    }
}

/// How many of `a[i..]` lie beyond the other side's largest innovation.
pub open spec fn count_excess(a: Seq<Connection>, bmax: u32, i: int) -> int
    decreases a.len() - i,
{
    if i < 0 || i >= a.len() {
        0
    } else {
        (if a[i].innov > bmax {
            1int
        } else {
            0int
        }) + count_excess(a, bmax, i + 1)
    }
}

/// Sum over the matching genes of `a[i..]` of the absolute weight difference
/// against `b`'s gene with the same innovation.
pub open spec fn weight_sum(a: Seq<Connection>, b: Seq<Connection>, i: int) -> int
    decreases a.len() - i,
{
    if i < 0 || i >= a.len() {
        0
    } else {
        (if spec_has_innov(b, a[i].innov) {
            abs(a[i].weight - b[spec_innov_idx(b, a[i].innov, 0)->Some_0].weight)
        } else {
            0int
        }) + weight_sum(a, b, i + 1)
    }
}

/// The genome is, field for field, a copy of some member.
pub open spec fn is_member_copy(gs: Seq<Genome>, g: Genome) -> bool {
    exists|m: int|
        0 <= m < gs.len() && g.inputs == (#[trigger] gs[m]).inputs && g.outputs == gs[m].outputs
            && g.nodes@ == gs[m].nodes@ && g.conns@ == gs[m].conns@ && g.fitness == gs[m].fitness
}

/// The genome carries the fitter parent's nodes, arity and gene skeleton,
/// with fitness reset to zero.
pub open spec fn crossover_shape(g: Genome, male: Genome) -> bool {
    &&& g.fitness == 0
    &&& g.inputs == male.inputs
    &&& g.outputs == male.outputs
    &&& g.nodes@ == male.nodes@
    &&& g.conns@.len() == male.conns@.len()
    &&& forall|k: int|
        0 <= k < g.conns@.len() ==> (#[trigger] g.conns@[k]).innov == male.conns@[k].innov
            && g.conns@[k].from == male.conns@[k].from && g.conns@[k].to == male.conns@[k].to
}

pub open spec fn is_crossover_offspring(gs: Seq<Genome>, g: Genome) -> bool {
    exists|p1: int, p2: int|
        0 <= p1 < gs.len() && 0 <= p2 < gs.len() && crossover_shape(
            g,
            #[trigger] Genome::spec_male(&gs[p1], &gs[p2]),
        )
}

/// The first member whose running fitness prefix sum strictly exceeds the
/// threshold `th`.
pub open spec fn picks_first_over(gs: Seq<Genome>, r: int, th: int) -> bool {
    &&& 0 <= th < Species::sum_fitness(gs, 0)
    &&& Species::sum_fitness(gs, 0) - Species::sum_fitness(gs, r + 1) > th
    &&& forall|j: int|
        0 <= j < r ==> Species::sum_fitness(gs, 0) - #[trigger] Species::sum_fitness(gs, j + 1)
            <= th
}

/// The genome takes its arity from some member of the group.
pub open spec fn arity_from_members(gs: Seq<Genome>, g: Genome) -> bool {
    exists|m: int|
        0 <= m < gs.len() && g.inputs == (#[trigger] gs[m]).inputs && g.outputs == gs[m].outputs
}

/// The other genome carries a node with this id and a different activation.
pub open spec fn act_mismatch(n: Node, gn: Seq<Node>) -> bool {
    exists|j: int|
        0 <= j < gn.len() && (#[trigger] gn[j]).innov == n.innov && gn[j].activation
            != n.activation
}

/// How many of `rn[i..]` have an activation mismatch against `gn`.
pub open spec fn count_act(rn: Seq<Node>, gn: Seq<Node>, i: int) -> int
    decreases rn.len() - i,
{
    if i < 0 || i >= rn.len() {
        0
    } else {
        (if act_mismatch(rn[i], gn) {
            1int
        } else {
            0int
        }) + count_act(rn, gn, i + 1)
    }
}

/// The compatibility test. Align the two connection sequences from the side
/// with the larger final innovation; count matching, excess and disjoint
/// genes, the matching-weight difference sum W (fixed-point), and the
/// activation mismatches A among shared node ids. With no matching genes the
/// genome is rejected. Otherwise, with N the larger gene count (taken as 1
/// below 20) and M the matching count, the test is the exact integer form of
///
///   c1*D/N + c2*E/N + c3*W/M + c4*A/N < threshold
///
/// with every quantity scaled by `SCALE` where it is fixed-point.
pub open spec fn spec_can_accommodate(repr: Genome, gen: Genome, sets: Settings) -> bool
    recommends
        repr.conns@.len() >= 1,
        gen.conns@.len() >= 1,
{
    let ra = repr.conns@;
    let gb = gen.conns@;
    let a = if ra[ra.len() - 1].innov > gb[gb.len() - 1].innov {
        ra
    } else {
        gb
    };
    let b = if ra[ra.len() - 1].innov > gb[gb.len() - 1].innov {
        gb
    } else {
        ra
    };
    let m = count_matching(a, b, 0);
    let e = count_excess(a, b[b.len() - 1].innov, 0);
    let d = (a.len() - m - e) + (b.len() - m);
    let w = weight_sum(a, b, 0);
    let act = count_act(repr.nodes@, gen.nodes@, 0);
    if m == 0 {
        false
    } else {
        let n0 = if ra.len() > gb.len() {
            ra.len() as int
        } else {
            gb.len() as int
        };
        let n = if n0 < 20 {
            1int
        } else {
            n0
        };
        (sets.disjoint_coeff * d + sets.excess_coeff * e + sets.activation_coeff * act) * m * SCALE
            + sets.weight_coeff * w * n < sets.speciation_threshold * SCALE * n * m
    }
}


/// With distinct ids on `gn`, at most one entry matches an id, so the count
/// of mismatching partners of a node is its mismatch indicator.
proof fn lemma_partner_count(gn: Seq<Node>, x: Node, j: int)
    requires
        forall|p: int, q: int|
            0 <= p < q < gn.len() ==> (#[trigger] gn[p]).innov != (#[trigger] gn[q]).innov,
        0 <= j <= gn.len(),
    ensures
        count_partners(gn, x, j) == (if exists|k: int|
            j <= k < gn.len() && (#[trigger] gn[k]).innov == x.innov && gn[k].activation
                != x.activation {
            1int
        } else {
            0int
        }),
    decreases gn.len() - j,
{
    if j < gn.len() {
        lemma_partner_count(gn, x, j + 1);
        if gn[j].innov == x.innov && gn[j].activation != x.activation {
            assert forall|k: int|
                !(j + 1 <= k < gn.len() && (#[trigger] gn[k]).innov == x.innov && gn[k].activation
                    != x.activation) by {
                if j + 1 <= k < gn.len() && gn[k].innov == x.innov {
                    assert(gn[j].innov != gn[k].innov);
                }
            }
        }
    }
}

/// How many entries of `gn[j..]` share the node's id with a different
/// activation.
pub open spec fn count_partners(gn: Seq<Node>, x: Node, j: int) -> int
    decreases gn.len() - j,
{
    if j < 0 || j >= gn.len() {
        0
    } else {
        (if gn[j].innov == x.innov && gn[j].activation != x.activation {
            1int
        } else {
            0int
        }) + count_partners(gn, x, j + 1)
    }
}

/// Extending the partner side by a node whose id it does not already hold
/// adds exactly that node's mismatch indicator to every suffix count.
proof fn lemma_count_act_push(gn: Seq<Node>, s: Seq<Node>, x: Node, i: int)
    requires
        0 <= i <= gn.len(),
        forall|k: int| 0 <= k < s.len() ==> (#[trigger] s[k]).innov != x.innov,
    ensures
        count_act(gn, s.push(x), i) == count_act(gn, s, i) + count_partners(gn, x, i),
    decreases gn.len() - i,
{
    if i < gn.len() {
        lemma_count_act_push(gn, s, x, i + 1);
        let s2 = s.push(x);
        if act_mismatch(gn[i], s2) {
            let k = choose|k: int|
                0 <= k < s2.len() && (#[trigger] s2[k]).innov == gn[i].innov && s2[k].activation
                    != gn[i].activation;
            if k < s.len() {
                assert(s2[k] == s[k]);
                assert(act_mismatch(gn[i], s));
            } else {
                assert(s2[k] == x);
            }
        }
        if act_mismatch(gn[i], s) {
            let k = choose|k: int|
                0 <= k < s.len() && (#[trigger] s[k]).innov == gn[i].innov && s[k].activation
                    != gn[i].activation;
            assert(s.push(x)[k] == s[k]);
            assert(act_mismatch(gn[i], s2));
        }
        if gn[i].innov == x.innov && gn[i].activation != x.activation {
            assert(s2[s.len() as int] == x);
            assert(act_mismatch(gn[i], s2));
            assert(!act_mismatch(gn[i], s)) by {
                if act_mismatch(gn[i], s) {
                    let k = choose|k: int|
                        0 <= k < s.len() && (#[trigger] s[k]).innov == gn[i].innov
                            && s[k].activation != gn[i].activation;
                    assert(s[k].innov != x.innov);
                }
            }
        }
    }
}

/// A shorter first side drops exactly its last node's indicator.
proof fn lemma_count_act_first_push(rn: Seq<Node>, gn: Seq<Node>, i: int)
    requires
        0 <= i < rn.len(),
    ensures
        count_act(rn, gn, i) == count_act(rn.drop_last(), gn, i) + (if act_mismatch(
            rn.last(),
            gn,
        ) {
            1int
        } else {
            0int
        }),
    decreases rn.len() - i,
{
    let s = rn.drop_last();
    if i < rn.len() - 1 {
        assert(rn[i] == s[i]);
        lemma_count_act_first_push(rn, gn, i + 1);
        assert(count_act(rn, gn, i) == (if act_mismatch(rn[i], gn) {
            1int
        } else {
            0int
        }) + count_act(rn, gn, i + 1));
        assert(count_act(s, gn, i) == (if act_mismatch(s[i], gn) {
            1int
        } else {
            0int
        }) + count_act(s, gn, i + 1));
    } else {
        assert(rn[i] == rn.last());
        assert(s.len() == i);
        assert(count_act(rn, gn, i + 1) == 0);
        assert(count_act(s, gn, i) == 0);
        assert(count_act(rn, gn, i) == (if act_mismatch(rn[i], gn) {
            1int
        } else {
            0int
        }) + count_act(rn, gn, i + 1));
    }
}

/// Counting activation mismatches is symmetric between two genomes with
/// distinct node ids on each side: both directions count the shared ids
/// whose activations differ.
proof fn lemma_count_act_symmetric(rn: Seq<Node>, gn: Seq<Node>)
    requires
        forall|p: int, q: int|
            0 <= p < q < rn.len() ==> (#[trigger] rn[p]).innov != (#[trigger] rn[q]).innov,
        forall|p: int, q: int|
            0 <= p < q < gn.len() ==> (#[trigger] gn[p]).innov != (#[trigger] gn[q]).innov,
    ensures
        count_act(rn, gn, 0) == count_act(gn, rn, 0),
    decreases rn.len(),
{
    if rn.len() == 0 {
        assert(rn =~= Seq::<Node>::empty());
        lemma_count_act_empty(gn, 0);
    } else {
        let s = rn.drop_last();
        let x = rn.last();
        assert(forall|p: int, q: int|
            0 <= p < q < s.len() ==> (#[trigger] s[p]).innov != (#[trigger] s[q]).innov);
        lemma_count_act_symmetric(s, gn);
        lemma_count_act_first_push(rn, gn, 0);
        assert(forall|k: int| 0 <= k < s.len() ==> (#[trigger] s[k]).innov != x.innov);
        assert(s.push(x) =~= rn);
        assert(s.push(x) == rn);
        lemma_count_act_push(gn, s, x, 0);
        assert(count_act(gn, rn, 0) == count_act(gn, s, 0) + count_partners(gn, x, 0));
        lemma_partner_count(gn, x, 0);
        assert((if act_mismatch(x, gn) {
            1int
        } else {
            0int
        }) == count_partners(gn, x, 0)) by {
            if act_mismatch(x, gn) {
                let k = choose|k: int|
                    0 <= k < gn.len() && (#[trigger] gn[k]).innov == x.innov && gn[k].activation
                        != x.activation;
                assert(exists|k: int|
                    0 <= k < gn.len() && (#[trigger] gn[k]).innov == x.innov && gn[k].activation
                        != x.activation);
            }
            if count_partners(gn, x, 0) == 1 {
                let k = choose|k: int|
                    0 <= k < gn.len() && (#[trigger] gn[k]).innov == x.innov && gn[k].activation
                        != x.activation;
                assert(act_mismatch(x, gn));
            }
        }
    }
}

/// Against an empty partner side there is nothing to mismatch.
proof fn lemma_count_act_empty(gn: Seq<Node>, i: int)
    requires
        0 <= i <= gn.len(),
    ensures
        count_act(gn, Seq::<Node>::empty(), i) == 0,
    decreases gn.len() - i,
{
    if i < gn.len() {
        lemma_count_act_empty(gn, i + 1);
        assert(!act_mismatch(gn[i], Seq::<Node>::empty()));
    }
}

/// Compatibility is symmetric in the two genomes whenever their largest
/// innovation ids differ: the alignment picks the same ordered pair of gene
/// sequences either way, and the activation-mismatch count is symmetric.
pub proof fn lemma_compat_symmetric(g1: Genome, g2: Genome, sets: Settings)
    requires
        g1.wf(),
        g2.wf(),
        g1.conns@.len() >= 1,
        g2.conns@.len() >= 1,
        g1.conns@[g1.conns@.len() - 1].innov != g2.conns@[g2.conns@.len() - 1].innov,
    ensures
        spec_can_accommodate(g1, g2, sets) == spec_can_accommodate(g2, g1, sets),
{
    lemma_count_act_symmetric(g1.nodes@, g2.nodes@);
}

/// Suffix counts are bounded by the remaining length, and matching and
/// excess cannot overlap when `bmax` tops a sorted `b` that holds every
/// matched id.
proof fn lemma_count_bounds(a: Seq<Connection>, b: Seq<Connection>, bmax: u32, i: int)
    requires
        0 <= i <= a.len(),
        forall|x: int, y: int|
            0 <= x < y < b.len() ==> (#[trigger] b[x]).innov < (#[trigger] b[y]).innov,
        b.len() >= 1,
        bmax == b[b.len() - 1].innov,
    ensures
        0 <= count_matching(a, b, i) <= a.len() - i,
        0 <= count_excess(a, bmax, i) <= a.len() - i,
        count_matching(a, b, i) + count_excess(a, bmax, i) <= a.len() - i,
    decreases a.len() - i,
{
    if i < a.len() {
        lemma_count_bounds(a, b, bmax, i + 1);
        if spec_has_innov(b, a[i].innov) {
            let j = choose|j: int| 0 <= j < b.len() && (#[trigger] b[j]).innov == a[i].innov;
            assert(b[j].innov <= bmax);
        }
    }
}

/// The per-step weight difference is bounded when both sides carry weights
/// on [-1, 1], so the suffix sum is bounded by twice the length.
proof fn lemma_weight_sum_bounds(a: Seq<Connection>, b: Seq<Connection>, i: int)
    requires
        0 <= i <= a.len(),
        forall|k: int| 0 <= k < a.len() ==> -SCALE <= (#[trigger] a[k]).weight <= SCALE,
        forall|k: int| 0 <= k < b.len() ==> -SCALE <= (#[trigger] b[k]).weight <= SCALE,
    ensures
        0 <= weight_sum(a, b, i) <= (a.len() - i) * (2 * SCALE),
    decreases a.len() - i,
{
    if i < a.len() {
        lemma_weight_sum_bounds(a, b, i + 1);
        if spec_has_innov(b, a[i].innov) {
            lemma_innov_idx_some(b, a[i].innov, 0);
            lemma_innov_idx_bounds(b, a[i].innov, 0);
        }
        assert((a.len() - (i + 1)) * (2 * SCALE) + 2 * SCALE == (a.len() - i) * (2 * SCALE))
            by (nonlinear_arith);
    }
}

/// If some entry at or after `j` carries the id, the scan finds one.
proof fn lemma_innov_idx_some(b: Seq<Connection>, id: u32, j: int)
    requires
        0 <= j <= b.len(),
        exists|k: int| j <= k < b.len() && (#[trigger] b[k]).innov == id,
    ensures
        spec_innov_idx(b, id, j) is Some,
    decreases b.len() - j,
{
    if b[j].innov != id {
        let k = choose|k: int| j <= k < b.len() && (#[trigger] b[k]).innov == id;
        assert(j + 1 <= k < b.len() && b[k].innov == id);
        lemma_innov_idx_some(b, id, j + 1);
    }
}

/// A found innovation index is in bounds and carries the id.
proof fn lemma_innov_idx_bounds(b: Seq<Connection>, id: u32, j: int)
    requires
        0 <= j <= b.len(),
        spec_innov_idx(b, id, j) is Some,
    ensures
        j <= spec_innov_idx(b, id, j)->Some_0 < b.len(),
        b[spec_innov_idx(b, id, j)->Some_0].innov == id,
    decreases b.len() - j,
{
    if j < b.len() && b[j].innov != id {
        lemma_innov_idx_bounds(b, id, j + 1);
    }
}

/// An activation count is bounded by the remaining length.
proof fn lemma_count_act_bounds(rn: Seq<Node>, gn: Seq<Node>, i: int)
    requires
        0 <= i <= rn.len(),
    ensures
        0 <= count_act(rn, gn, i) <= rn.len() - i,
    decreases rn.len() - i,
{
    if i < rn.len() {
        lemma_count_act_bounds(rn, gn, i + 1);
    }
}

/// The first connection carrying this innovation.
fn first_by_innov(conns: &Vec<Connection>, id: u32) -> (r: Option<usize>)
    ensures
        match r {
            Some(j) => j < conns@.len() && spec_innov_idx(conns@, id, 0) == Some(j as int)
                && conns@[j as int].innov == id,
            None => spec_innov_idx(conns@, id, 0) is None && !spec_has_innov(conns@, id),
        },
{
    let mut k: usize = 0;
    while k < conns.len()
        invariant
            0 <= k <= conns@.len(),
            spec_innov_idx(conns@, id, 0) == spec_innov_idx(conns@, id, k as int),
            forall|i: int| 0 <= i < k ==> (#[trigger] conns@[i]).innov != id,
        decreases conns@.len() - k,
    {
        if conns[k].innov == id {
            return Some(k);
        }
        k = k + 1;
    }
    None
}

fn node_mismatch(n: &Node, gn: &Vec<Node>) -> (r: bool)
    ensures
        r <==> act_mismatch(*n, gn@),
{
    let mut k: usize = 0;
    while k < gn.len()
        invariant
            0 <= k <= gn@.len(),
            forall|i: int|
                0 <= i < k ==> !((#[trigger] gn@[i]).innov == n.innov && gn@[i].activation
                    != n.activation),
        decreases gn@.len() - k,
    {
        if gn[k].innov == n.innov && !(gn[k].activation == n.activation) {
            return true;
        }
        k = k + 1;
    }
    false
}

/// Sort genomes by fitness, highest first, keeping the same multiset.
pub fn sort_desc(v: &mut Vec<Genome>)
    ensures
        final(v)@.len() == old(v)@.len(),
        final(v)@.to_multiset() == old(v)@.to_multiset(),
        forall|i: int, j: int|
            0 <= i < j < final(v)@.len() ==> (#[trigger] final(v)@[i]).fitness >= (
            #[trigger] final(v)@[j]).fitness,
{
    let mut i: usize = 1;
    while i < v.len()
        invariant
            1 <= i <= v@.len() || v@.len() == 0,
            v@.len() == old(v)@.len(),
            v@.to_multiset() == old(v)@.to_multiset(),
            forall|x: int, y: int|
                0 <= x < y < i ==> (#[trigger] v@[x]).fitness >= (#[trigger] v@[y]).fitness,
        decreases v@.len() - i,
    {
        let mut j: usize = 0;
        while j < i && v[j].fitness >= v[i].fitness
            invariant
                0 <= j <= i < v@.len(),
                forall|x: int| 0 <= x < j ==> (#[trigger] v@[x]).fitness >= v@[i as int].fitness,
            decreases i - j,
        {
            j = j + 1;
        }
        if j < i {
            let ghost pre = v@;
            let x = v.remove(i);
            let ghost mid = v@;
            v.insert(j, x);
            proof {
                mid.insert_ensures(j as int, x);
                assert forall|a: int, b: int|
                    0 <= a < b < i + 1 implies (#[trigger] v@[a]).fitness >= (
                #[trigger] v@[b]).fitness by {
                    if a < j {
                        assert(v@[a] == mid[a] && mid[a] == pre[a]);
                    } else if a > j {
                        assert(v@[a] == mid[a - 1] && mid[a - 1] == pre[a - 1]);
                    }
                    if b < j {
                        assert(v@[b] == mid[b] && mid[b] == pre[b]);
                    } else if b > j {
                        assert(v@[b] == mid[b - 1] && mid[b - 1] == pre[b - 1]);
                    }
                    if a == j {
                        assert(v@[a] == x && x == pre[i as int]);
                    }
                    if b == j {
                        assert(v@[b] == x && x == pre[i as int]);
                    }
                }
            }
        }
        i = i + 1;
    }
}

pub struct Species {
    pub id: u32,
    pub genomes: Vec<Genome>,
    pub max_fitness: i64,
    pub avg_fitness: i64,
    pub stagnancy: u32,
    pub representative: Genome,
    pub assigned_offspring: usize,
}

impl Species {
    /// The representative and every member are well-formed genomes with at
    /// least one connection.
    pub open spec fn wf(&self) -> bool {
        &&& self.representative.wf()
        &&& self.representative.conns@.len() >= 1
        &&& forall|k: int|
            0 <= k < self.genomes@.len() ==> (#[trigger] self.genomes@[k]).wf()
                && self.genomes@[k].conns@.len() >= 1
        &&& 0 <= self.avg_fitness
    }

    /// A fresh species around its first member, which becomes the
    /// representative for the species' lifetime.
    pub fn new(head: Genome, id: u32) -> (r: Self)
        requires
            head.wf(),
            head.conns@.len() >= 1,
        ensures
            r.wf(),
            r.id == id,
            r.genomes@.len() == 1,
            r.genomes@[0] == head,
            r.max_fitness == head.fitness,
            r.avg_fitness == head.fitness,
            r.stagnancy == 0,
            r.assigned_offspring == 0,
            r.representative.nodes@ == head.nodes@,
            r.representative.conns@ == head.conns@,
            r.representative.fitness == head.fitness,
            r.representative.inputs == head.inputs,
            r.representative.outputs == head.outputs,
    {
        let max_fitness = head.fitness;
        let avg_fitness = head.fitness;
        let repr = head.duplicate();
        let mut genomes: Vec<Genome> = Vec::new();
        genomes.push(head);
        Species {
            id,
            genomes,
            max_fitness,
            avg_fitness,
            stagnancy: 0,
            representative: repr,
            assigned_offspring: 0,
        }
    }

    /// Whether this species' representative accepts the genome under the
    /// compatibility-distance threshold.
    #[verifier::loop_isolation(false)]
    #[verifier::rlimit(60)]
    pub fn can_accomodate(&self, gen: &Genome, sets: &Settings) -> (r: bool)
        requires
            self.representative.wf(),
            self.representative.conns@.len() >= 1,
            gen.wf(),
            gen.conns@.len() >= 1,
            sets.wf(),
        ensures
            r == spec_can_accommodate(self.representative, *gen, *sets),
    {
        let repr = &self.representative;
        proof {
            lemma_conns_len_bound(repr.conns@);
            lemma_conns_len_bound(gen.conns@);
        }
        let rmax = repr.conns[repr.conns.len() - 1].innov;
        let gmax = gen.conns[gen.conns.len() - 1].innov;
        let av: &Vec<Connection> = if rmax > gmax {
            &repr.conns
        } else {
            &gen.conns
        };
        let bv: &Vec<Connection> = if rmax > gmax {
            &gen.conns
        } else {
            &repr.conns
        };
        let bmax = bv[bv.len() - 1].innov;
        proof {
            lemma_count_bounds(av@, bv@, bmax, 0);
            lemma_weight_sum_bounds(av@, bv@, 0);
            lemma_count_act_bounds(repr.nodes@, gen.nodes@, 0);
        }
        let mut m: i64 = 0;
        let mut w: i128 = 0;
        let mut i: usize = 0;
        while i < av.len()
            invariant
                0 <= i <= av@.len(),
                m + count_matching(av@, bv@, i as int) == count_matching(av@, bv@, 0),
                w + weight_sum(av@, bv@, i as int) == weight_sum(av@, bv@, 0),
                0 <= m <= i,
                0 <= w <= i * (2 * SCALE),
            decreases av@.len() - i,
        {
            match first_by_innov(bv, av[i].innov) {
                Some(j) => {
                    m = m + 1;
                    let diff = av[i].weight - bv[j].weight;
                    w = w + (if diff < 0 {
                        -diff
                    } else {
                        diff
                    }) as i128;
                },
                None => {},
            }
            i = i + 1;
        }
        let mut e: i64 = 0;
        let mut k: usize = 0;
        while k < av.len()
            invariant
                0 <= k <= av@.len(),
                e + count_excess(av@, bmax, k as int) == count_excess(av@, bmax, 0),
                0 <= e <= k,
            decreases av@.len() - k,
        {
            if av[k].innov > bmax {
                e = e + 1;
            }
            k = k + 1;
        }
        let mut act: i64 = 0;
        let mut t: usize = 0;
        while t < repr.nodes.len()
            invariant
                0 <= t <= repr.nodes@.len(),
                act + count_act(repr.nodes@, gen.nodes@, t as int) == count_act(
                    repr.nodes@,
                    gen.nodes@,
                    0,
                ),
                0 <= act <= t,
            decreases repr.nodes@.len() - t,
        {
            if node_mismatch(&repr.nodes[t], &gen.nodes) {
                act = act + 1;
            }
            t = t + 1;
        }
        if m == 0 {
            return false;
        }
        let alen: i128 = av.len() as i128;
        let blen: i128 = bv.len() as i128;
        let d: i128 = (alen - m as i128 - e as i128) + (blen - m as i128);
        let n0: i128 = if repr.conns.len() > gen.conns.len() {
            repr.conns.len() as i128
        } else {
            gen.conns.len() as i128
        };
        let n: i128 = if n0 < 20 {
            1
        } else {
            n0
        };
        proof {
            lemma_delta_products(
                sets.disjoint_coeff as int,
                sets.excess_coeff as int,
                sets.weight_coeff as int,
                sets.activation_coeff as int,
                sets.speciation_threshold as int,
                d as int,
                e as int,
                act as int,
                m as int,
                w as int,
                n as int,
            );
        }
        let inner: i128 = sets.disjoint_coeff as i128 * d + sets.excess_coeff as i128
            * e as i128 + sets.activation_coeff as i128 * act as i128;
        let lhs: i128 = inner * m as i128 * SCALE as i128 + sets.weight_coeff as i128 * w * n;
        let rhs: i128 = sets.speciation_threshold as i128 * SCALE as i128 * n * m as i128;
        lhs < rhs
    }

    /// The sum of the members' fitness values from index `i` on.
    pub open spec fn sum_fitness(gs: Seq<Genome>, i: int) -> int
        decreases gs.len() - i,
    {
        if i < 0 || i >= gs.len() {
            0
        } else {
            gs[i].fitness + Self::sum_fitness(gs, i + 1)
        }
    }

    /// Divide every member's fitness by the species size; `avg_fitness`
    /// becomes the mean of the shared values. An empty species shares
    /// nothing and reports a zero average.
    #[verifier::loop_isolation(false)]
    pub fn fitness_sharing(&mut self)
        requires
            forall|k: int|
                0 <= k < old(self).genomes@.len() ==> 0 <= (#[trigger] old(self).genomes@[k]).fitness,
        ensures
            final(self).genomes@.len() == old(self).genomes@.len(),
            old(self).genomes@.len() == 0 ==> final(self).genomes@ == old(self).genomes@ && final(self).avg_fitness == 0,
            forall|k: int|
                0 <= k < final(self).genomes@.len() ==> {
                    let g0 = old(self).genomes@[k];
                    let g1 = #[trigger] final(self).genomes@[k];
                    &&& g1.fitness == (g0.fitness as int) / (old(self).genomes@.len() as int)
                    &&& g1.nodes@ == g0.nodes@
                    &&& g1.conns@ == g0.conns@
                    &&& g1.inputs == g0.inputs
                    &&& g1.outputs == g0.outputs
                },
            old(self).genomes@.len() > 0 ==> final(self).avg_fitness == Self::sum_fitness(
                final(self).genomes@,
                0,
            ) / (old(self).genomes@.len() as int),
            0 <= final(self).avg_fitness,
            final(self).representative == old(self).representative,
            final(self).max_fitness == old(self).max_fitness,
            final(self).stagnancy == old(self).stagnancy,
            final(self).id == old(self).id,
            final(self).assigned_offspring == old(self).assigned_offspring,
    {
        let len = self.genomes.len();
        if len == 0 {
            self.avg_fitness = 0;
            return ;
        }
        let mut shared: Vec<Genome> = Vec::new();
        let mut k: usize = 0;
        while k < self.genomes.len()
            invariant
                0 <= k <= self.genomes@.len(),
                shared@.len() == k,
                forall|i: int|
                    0 <= i < k ==> {
                        let g0 = self.genomes@[i];
                        let g1 = #[trigger] shared@[i];
                        &&& g1.fitness == (g0.fitness as int) / (len as int)
                        &&& g1.nodes@ == g0.nodes@
                        &&& g1.conns@ == g0.conns@
                        &&& g1.inputs == g0.inputs
                        &&& g1.outputs == g0.outputs
                        &&& 0 <= g1.fitness
                    },
            decreases self.genomes@.len() - k,
        {
            let g = self.genomes[k].duplicate();
            proof {
                vstd::arithmetic::div_mod::lemma_div_pos_is_pos(g.fitness as int, len as int);
            }
            let f = (g.fitness as i128 / (len as i128)) as i64;
            shared.push(Genome { fitness: f, ..g });
            k = k + 1;
        }
        self.genomes = shared;
        let ghost gs = self.genomes@;
        proof {
            lemma_sum_fitness_bounds(gs, 0);
        }
        let mut total: i128 = 0;
        let mut t: usize = 0;
        while t < self.genomes.len()
            invariant
                0 <= t <= gs.len(),
                self.genomes@ == gs,
                forall|i: int| 0 <= i < gs.len() ==> 0 <= (#[trigger] gs[i]).fitness,
                total + Self::sum_fitness(gs, t as int) == Self::sum_fitness(gs, 0),
                0 <= total <= t * 0x7FFF_FFFF_FFFF_FFFF,
            decreases gs.len() - t,
        {
            let f = self.genomes[t].fitness;
            total = total + f as i128;
            t = t + 1;
        }
        proof {
            vstd::arithmetic::div_mod::lemma_div_pos_is_pos(total as int, len as int);
            vstd::arithmetic::mul::lemma_mul_is_commutative(len as int, 0x7FFF_FFFF_FFFF_FFFF);
            vstd::arithmetic::div_mod::lemma_div_is_ordered(
                total as int,
                (0x7FFF_FFFF_FFFF_FFFF) * (len as int),
                len as int,
            );
            vstd::arithmetic::div_mod::lemma_div_by_multiple(0x7FFF_FFFF_FFFF_FFFF, len as int);
        }
        let avg: i128 = total / (len as i128);
        self.avg_fitness = avg as i64;
    }

    /// Fitness-proportional selection: a uniform threshold on the total
    /// fitness, then the first member whose running sum strictly exceeds it;
    /// member 0 when the species carries no fitness at all.
    #[verifier::loop_isolation(false)]
    fn select_parent(&self) -> (r: usize)
        requires
            self.genomes@.len() >= 1,
            forall|k: int|
                0 <= k < self.genomes@.len() ==> 0 <= (#[trigger] self.genomes@[k]).fitness,
        ensures
            r < self.genomes@.len(),
            Self::sum_fitness(self.genomes@, 0) == 0 ==> r == 0,
            Self::sum_fitness(self.genomes@, 0) > 0 ==> exists|th: int|
                #[trigger] picks_first_over(self.genomes@, r as int, th),
    {
        proof {
            lemma_sum_fitness_bounds(self.genomes@, 0);
        }
        let mut total: u128 = 0;
        let mut t: usize = 0;
        while t < self.genomes.len()
            invariant
                0 <= t <= self.genomes@.len(),
                total == Self::sum_fitness(self.genomes@, 0) - Self::sum_fitness(
                    self.genomes@,
                    t as int,
                ),
                total <= t * 0x7FFF_FFFF_FFFF_FFFF,
            decreases self.genomes@.len() - t,
        {
            proof {
                lemma_sum_fitness_bounds(self.genomes@, t as int);
            }
            total = total + self.genomes[t].fitness as u128;
            t = t + 1;
        }
        if total == 0 {
            return 0;
        }
        let threshold = crate::rng::rand_threshold(total);
        let mut current: u128 = 0;
        let mut k: usize = 0;
        while k < self.genomes.len()
            invariant
                0 <= k <= self.genomes@.len(),
                current == Self::sum_fitness(self.genomes@, 0) - Self::sum_fitness(
                    self.genomes@,
                    k as int,
                ),
                current <= threshold,
                threshold < total,
                total == Self::sum_fitness(self.genomes@, 0),
                forall|j: int|
                    0 <= j < k ==> Self::sum_fitness(self.genomes@, 0) - #[trigger] Self::sum_fitness(
                        self.genomes@,
                        j + 1,
                    ) <= threshold as int,
            decreases self.genomes@.len() - k,
        {
            proof {
                lemma_sum_fitness_bounds(self.genomes@, k as int);
            }
            current = current + self.genomes[k].fitness as u128;
            if current > threshold {
                proof {
                    assert(picks_first_over(self.genomes@, k as int, threshold as int));
                }
                return k;
            }
            k = k + 1;
        }
        proof {
            assert(false);
        }
        0
    }

    /// Produce `amt` offspring: each is either a copy of a uniformly chosen
    /// member (to be mutated by the caller, probability `only_mut_rate`) or
    /// the crossover of two fitness-proportionally selected parents. Every
    /// offspring is well formed, carries at least one connection, and
    /// inherits its arity from some member.
    #[verifier::loop_isolation(false)]
    pub fn produce_offspring(&self, amt: usize, sets: &Settings) -> (r: Vec<Genome>)
        requires
            self.wf(),
            self.genomes@.len() >= 1,
            sets.wf(),
        ensures
            r@.len() == amt,
            forall|k: int|
                0 <= k < r@.len() ==> (#[trigger] r@[k]).wf() && r@[k].conns@.len() >= 1 && 0
                    <= r@[k].fitness,
            forall|k: int|
                0 <= k < r@.len() ==> arity_from_members(self.genomes@, #[trigger] r@[k]),
            forall|k: int|
                0 <= k < r@.len() ==> is_member_copy(self.genomes@, #[trigger] r@[k])
                    || is_crossover_offspring(self.genomes@, r@[k]),
    {
        let mut offspring: Vec<Genome> = Vec::new();
        let mut t: usize = 0;
        while t < amt
            invariant
                0 <= t <= amt,
                offspring@.len() == t,
                forall|k: int|
                    0 <= k < offspring@.len() ==> (#[trigger] offspring@[k]).wf()
                        && offspring@[k].conns@.len() >= 1 && 0 <= offspring@[k].fitness,
                forall|k: int|
                    0 <= k < offspring@.len() ==> arity_from_members(
                        self.genomes@,
                        #[trigger] offspring@[k],
                    ),
                forall|k: int|
                    0 <= k < offspring@.len() ==> is_member_copy(
                        self.genomes@,
                        #[trigger] offspring@[k],
                    ) || is_crossover_offspring(self.genomes@, offspring@[k]),
            decreases amt - t,
        {
            if chance(sets.only_mut_rate) {
                let m = rand_index(self.genomes.len());
                offspring.push(self.genomes[m].duplicate());
                proof {
                    assert(0 <= m < self.genomes@.len() && offspring@[t as int].inputs == (
                    self.genomes@[m as int]).inputs && offspring@[t as int].outputs
                        == self.genomes@[m as int].outputs);
                    assert(arity_from_members(self.genomes@, offspring@[t as int]));
                    assert(offspring@[t as int].nodes@ == self.genomes@[m as int].nodes@
                        && offspring@[t as int].conns@ == self.genomes@[m as int].conns@
                        && offspring@[t as int].fitness == self.genomes@[m as int].fitness);
                    assert(is_member_copy(self.genomes@, offspring@[t as int]));
                }
            } else {
                let p1 = self.select_parent();
                let p2 = self.select_parent();
                let child = Genome::crossover(&self.genomes[p1], &self.genomes[p2], sets);
                offspring.push(child);
                proof {
                    let mm = if self.genomes@[p1 as int].fitness
                        >= self.genomes@[p2 as int].fitness {
                        p1 as int
                    } else {
                        p2 as int
                    };
                    assert(0 <= mm < self.genomes@.len() && offspring@[t as int].inputs == (
                    self.genomes@[mm]).inputs && offspring@[t as int].outputs
                        == self.genomes@[mm].outputs);
                    assert(arity_from_members(self.genomes@, offspring@[t as int]));
                    let male = Genome::spec_male(&self.genomes@[p1 as int], &self.genomes@[p2 as int]);
                    assert(offspring@[t as int].fitness == 0 && offspring@[t as int].nodes@
                        == male.nodes@ && offspring@[t as int].conns@.len() == male.conns@.len());
                    assert(is_crossover_offspring(self.genomes@, offspring@[t as int]));
                }
            }
            t = t + 1;
        }
        offspring
    }

    /// An empty species saturates its stagnancy. Otherwise, if the first
    /// member (the best, once sorted) strictly beats the historic maximum,
    /// stagnancy resets and the maximum is updated; ties and losses age the
    /// species by one (saturating).
    pub fn update_stagnancy(&mut self)
        ensures
            final(self).genomes@ == old(self).genomes@,
            final(self).representative == old(self).representative,
            final(self).avg_fitness == old(self).avg_fitness,
            final(self).id == old(self).id,
            final(self).assigned_offspring == old(self).assigned_offspring,
            old(self).genomes@.len() == 0 ==> final(self).stagnancy == u32::MAX && final(self).max_fitness == old(self).max_fitness,
            old(self).genomes@.len() > 0 && old(self).genomes@[0].fitness <= old(self).max_fitness
                ==> final(self).stagnancy == (if old(self).stagnancy < u32::MAX {
                old(self).stagnancy + 1
            } else {
                u32::MAX as int
            }) && final(self).max_fitness == old(self).max_fitness,
            old(self).genomes@.len() > 0 && old(self).genomes@[0].fitness > old(self).max_fitness
                ==> final(self).stagnancy == 0 && final(self).max_fitness == old(self).genomes@[0].fitness,
    {
        if self.genomes.len() == 0 {
            self.stagnancy = u32::MAX;
            return ;
        }
        let fitness = self.genomes[0].fitness;
        if fitness <= self.max_fitness {
            if self.stagnancy < u32::MAX {
                self.stagnancy = self.stagnancy + 1;
            }
        } else {
            self.stagnancy = 0;
            self.max_fitness = fitness;
        }
    }

    /// A species of more than two members is cut to the best-ranked ceil(n/2)
    /// (the caller sorts by fitness first); smaller species are untouched.
    pub fn cull_lower_half(&mut self)
        ensures
            final(self).genomes@ == old(self).genomes@.subrange(
                0,
                if old(self).genomes@.len() > 2 {
                    (old(self).genomes@.len() + 1) as int / 2
                } else {
                    old(self).genomes@.len() as int
                },
            ),
            old(self).genomes@.len() > 2 ==> final(self).genomes@.len() == (old(self).genomes@.len() + 1) as int / 2,
            old(self).genomes@.len() <= 2 ==> final(self).genomes@ == old(self).genomes@,
            final(self).representative == old(self).representative,
            final(self).max_fitness == old(self).max_fitness,
            final(self).avg_fitness == old(self).avg_fitness,
            final(self).stagnancy == old(self).stagnancy,
            final(self).id == old(self).id,
            final(self).assigned_offspring == old(self).assigned_offspring,
    {
        let len = self.genomes.len();
        if len > 2 {
            let keep = if len % 2 == 0 {
                len / 2
            } else {
                len / 2 + 1
            };
            self.genomes.truncate(keep);
            proof {
                assert(keep as int == (old(self).genomes@.len() + 1) as int / 2);
            }
        } else {
            proof {
                assert(self.genomes@ =~= self.genomes@.subrange(0, self.genomes@.len() as int));
            }
        }
    }

    pub fn add_genome(&mut self, gen: Genome)
        ensures
            final(self).genomes@ == old(self).genomes@.push(gen),
            final(self).representative == old(self).representative,
            final(self).max_fitness == old(self).max_fitness,
            final(self).avg_fitness == old(self).avg_fitness,
            final(self).stagnancy == old(self).stagnancy,
            final(self).id == old(self).id,
            final(self).assigned_offspring == old(self).assigned_offspring,
    {
        self.genomes.push(gen);
    }

    /// Sort the members by fitness, best first.
    pub fn sort_genomes(&mut self)
        ensures
            final(self).genomes@.len() == old(self).genomes@.len(),
            final(self).genomes@.to_multiset() == old(self).genomes@.to_multiset(),
            forall|i: int, j: int|
                0 <= i < j < final(self).genomes@.len() ==> (#[trigger] final(self).genomes@[i]).fitness >= (#[trigger] final(self).genomes@[j]).fitness,
            forall|k: int|
                0 <= k < final(self).genomes@.len() ==> old(self).genomes@.contains(
                    #[trigger] final(self).genomes@[k],
                ),
            final(self).representative == old(self).representative,
            final(self).max_fitness == old(self).max_fitness,
            final(self).avg_fitness == old(self).avg_fitness,
            final(self).stagnancy == old(self).stagnancy,
            final(self).id == old(self).id,
            final(self).assigned_offspring == old(self).assigned_offspring,
    {
        sort_desc(&mut self.genomes);
        proof {
            assert forall|k: int| 0 <= k < self.genomes@.len() implies old(self).genomes@.contains(#[trigger] self.genomes@[k]) by {
                assert(self.genomes@.contains(self.genomes@[k]));
                assert(self.genomes@.to_multiset().contains(self.genomes@[k]));
            }
        }
    }

}


/// A suffix fitness sum of non-negative members is non-negative and at most
/// the remaining length times the largest fitness value.
proof fn lemma_sum_fitness_bounds(gs: Seq<Genome>, i: int)
    requires
        0 <= i <= gs.len(),
        forall|k: int| 0 <= k < gs.len() ==> 0 <= (#[trigger] gs[k]).fitness,
    ensures
        0 <= Species::sum_fitness(gs, i) <= (gs.len() - i) * 0x7FFF_FFFF_FFFF_FFFF,
    decreases gs.len() - i,
{
    if i < gs.len() {
        lemma_sum_fitness_bounds(gs, i + 1);
        assert((gs.len() - (i + 1)) * 0x7FFF_FFFF_FFFF_FFFF + 0x7FFF_FFFF_FFFF_FFFF == (gs.len()
            - i) * 0x7FFF_FFFF_FFFF_FFFF) by (nonlinear_arith);
    }
}

/// With distinct innovation ids, a gene's first index by innovation is its
/// own position.
proof fn lemma_innov_idx_self(a: Seq<Connection>, i: int, j: int)
    requires
        forall|x: int, y: int|
            0 <= x < y < a.len() ==> (#[trigger] a[x]).innov < (#[trigger] a[y]).innov,
        0 <= j <= i < a.len(),
    ensures
        spec_innov_idx(a, a[i].innov, j) == Some(i),
    decreases i - j,
{
    if j < i {
        assert(a[j].innov < a[i].innov);
        lemma_innov_idx_self(a, i, j + 1);
    }
}

/// Against itself, every gene of a strictly sorted genome matches, nothing
/// is excess, and no weight differs.
proof fn lemma_self_counts(a: Seq<Connection>, i: int)
    requires
        forall|x: int, y: int|
            0 <= x < y < a.len() ==> (#[trigger] a[x]).innov < (#[trigger] a[y]).innov,
        a.len() >= 1,
        0 <= i <= a.len(),
    ensures
        count_matching(a, a, i) == a.len() - i,
        count_excess(a, a[a.len() - 1].innov, i) == 0,
        weight_sum(a, a, i) == 0,
    decreases a.len() - i,
{
    if i < a.len() {
        lemma_self_counts(a, i + 1);
        assert(spec_has_innov(a, a[i].innov));
        lemma_innov_idx_self(a, i, 0);
        if i < a.len() - 1 {
            assert(a[i].innov < a[a.len() - 1].innov);
        }
    }
}

/// Against its own node set, a genome with distinct node ids has no
/// activation mismatches.
proof fn lemma_self_act(n: Seq<Node>, i: int)
    requires
        forall|x: int, y: int|
            0 <= x < y < n.len() ==> (#[trigger] n[x]).innov != (#[trigger] n[y]).innov,
        0 <= i <= n.len(),
    ensures
        count_act(n, n, i) == 0,
    decreases n.len() - i,
{
    if i < n.len() {
        lemma_self_act(n, i + 1);
        assert(!act_mismatch(n[i], n)) by {
            if act_mismatch(n[i], n) {
                let j = choose|j: int|
                    0 <= j < n.len() && (#[trigger] n[j]).innov == n[i].innov && n[j].activation
                        != n[i].activation;
                if j != i {
                    assert(false);
                }
            }
        }
    }
}

/// A genome always accommodates to a species whose representative is itself:
/// every gene matches, so the compatibility distance is zero, below any
/// positive threshold.
pub proof fn lemma_self_accommodates(g: Genome, sets: Settings)
    requires
        g.wf(),
        g.conns@.len() >= 1,
        sets.wf(),
        sets.speciation_threshold >= 1,
    ensures
        spec_can_accommodate(g, g, sets),
{
    let a = g.conns@;
    lemma_self_counts(a, 0);
    lemma_self_act(g.nodes@, 0);
    let m = count_matching(a, a, 0);
    let n0 = a.len() as int;
    let n = if n0 < 20 {
        1int
    } else {
        n0
    };
    assert(m == a.len());
    assert((sets.disjoint_coeff * 0 + sets.excess_coeff * 0 + sets.activation_coeff * 0) * m
        * SCALE + sets.weight_coeff * 0 * n == 0) by (nonlinear_arith);
    assert(sets.speciation_threshold * SCALE * n * m > 0) by (nonlinear_arith)
        requires
            sets.speciation_threshold >= 1,
            SCALE == 1_000_000,
            n >= 1,
            m >= 1,
    ;
}

/// Every product in the compatibility comparison fits comfortably in `i128`.
proof fn lemma_delta_products(
    c1: int,
    c2: int,
    c3: int,
    c4: int,
    th: int,
    d: int,
    e: int,
    act: int,
    m: int,
    w: int,
    n: int,
)
    requires
        0 <= c1 <= 0x3B9ACA00,
        0 <= c2 <= 0x3B9ACA00,
        0 <= c3 <= 0x3B9ACA00,
        0 <= c4 <= 0x3B9ACA00,
        0 <= th <= 0x3B9ACA00,
        -0x4_0000_0000 <= d <= 0x4_0000_0000,
        0 <= e <= 0x1_0000_0001,
        0 <= act <= 0x1_0000_0001,
        1 <= m <= 0x1_0000_0001,
        0 <= w <= 0x1_0000_0001 * (2 * SCALE),
        1 <= n <= 0x1_0000_0001,
    ensures
        -0x10_0000_0000_0000_0000 <= c1 * d <= 0x10_0000_0000_0000_0000,
        0 <= c2 * e <= 0x10_0000_0000_0000_0000,
        0 <= c4 * act <= 0x10_0000_0000_0000_0000,
        -0x40_0000_0000_0000_0000_0000_0000 <= (c1 * d + c2 * e + c4 * act) * m
            <= 0x40_0000_0000_0000_0000_0000_0000,
        -0x4000_0000_0000_0000_0000_0000_0000_0000 <= ((c1 * d + c2 * e + c4 * act) * m) * SCALE
            <= 0x4000_0000_0000_0000_0000_0000_0000_0000,
        0 <= c3 * w <= 0x80_0000_0000_0000_0000_0000,
        0 <= (c3 * w) * n <= 0x80_0000_0000_0000_0000_0000_0000_0000,
        0 <= th * SCALE <= 0x4_0000_0000_0000,
        0 <= (th * SCALE) * n <= 0x8_0000_0000_0000_0000_0000,
        0 <= ((th * SCALE) * n) * m <= 0x100_0000_0000_0000_0000_0000_0000_0000,
{
    broadcast use vstd::arithmetic::mul::lemma_mul_inequality;
    broadcast use vstd::arithmetic::mul::lemma_mul_nonnegative;
    broadcast use vstd::arithmetic::mul::lemma_mul_unary_negation;
    broadcast use vstd::arithmetic::mul::lemma_mul_is_commutative;
    // c1 * d, split on the sign of d
    if d >= 0 {
        vstd::arithmetic::mul::lemma_mul_inequality(c1, 0x3B9ACA00, d);
        assert(c1 * d <= 0x3B9ACA00 * d);
        vstd::arithmetic::mul::lemma_mul_nonnegative(c1, d);
    } else {
        vstd::arithmetic::mul::lemma_mul_inequality(c1, 0x3B9ACA00, -d);
        assert(c1 * (-d) <= 0x3B9ACA00 * (-d));
        vstd::arithmetic::mul::lemma_mul_nonnegative(c1, -d);
        assert(c1 * d == -(c1 * (-d))) by (nonlinear_arith);
    }
    vstd::arithmetic::mul::lemma_mul_inequality(c2, 0x3B9ACA00, e);
    vstd::arithmetic::mul::lemma_mul_nonnegative(c2, e);
    vstd::arithmetic::mul::lemma_mul_inequality(c4, 0x3B9ACA00, act);
    vstd::arithmetic::mul::lemma_mul_nonnegative(c4, act);
    let inner = c1 * d + c2 * e + c4 * act;
    assert(-0x10_0000_0000_0000_0000 <= c1 * d <= 0x10_0000_0000_0000_0000);
    assert(-0x30_0000_0000_0000_0000 <= inner <= 0x30_0000_0000_0000_0000);
    // inner * m, split on the sign of inner
    if inner >= 0 {
        vstd::arithmetic::mul::lemma_mul_inequality(inner, 0x30_0000_0000_0000_0000, m);
        vstd::arithmetic::mul::lemma_mul_nonnegative(inner, m);
    } else {
        vstd::arithmetic::mul::lemma_mul_inequality(-inner, 0x30_0000_0000_0000_0000, m);
        vstd::arithmetic::mul::lemma_mul_nonnegative(-inner, m);
        assert(inner * m == -((-inner) * m)) by (nonlinear_arith);
    }
    assert(-0x40_0000_0000_0000_0000_0000_0000 <= inner * m <= 0x40_0000_0000_0000_0000_0000_0000);
    let im = inner * m;
    proof_fold_scale();
    if im >= 0 {
        vstd::arithmetic::mul::lemma_mul_inequality(im, 0x40_0000_0000_0000_0000_0000_0000, SCALE as int);
        vstd::arithmetic::mul::lemma_mul_nonnegative(im, SCALE as int);
    } else {
        vstd::arithmetic::mul::lemma_mul_inequality(-im, 0x40_0000_0000_0000_0000_0000_0000, SCALE as int);
        vstd::arithmetic::mul::lemma_mul_nonnegative(-im, SCALE as int);
        assert(im * SCALE == -((-im) * SCALE)) by (nonlinear_arith);
    }
    // c3 * w and its product with n
    vstd::arithmetic::mul::lemma_mul_inequality(w, (0x1_0000_0001 * 2_000_000) as int, c3);
    assert(w * c3 == c3 * w);
    assert((0x1_0000_0001 * 2_000_000) * c3 <= (0x1_0000_0001 * 2_000_000) * 0x3B9ACA00) by {
        vstd::arithmetic::mul::lemma_mul_inequality(c3, 0x3B9ACA00, (0x1_0000_0001 * 2_000_000) as int);
    }
    vstd::arithmetic::mul::lemma_mul_nonnegative(c3, w);
    vstd::arithmetic::mul::lemma_mul_inequality(c3 * w, 0x80_0000_0000_0000_0000_0000, n);
    vstd::arithmetic::mul::lemma_mul_nonnegative(c3 * w, n);
    assert(0x80_0000_0000_0000_0000_0000 * n <= 0x80_0000_0000_0000_0000_0000 * 0x1_0000_0001)
        by {
        vstd::arithmetic::mul::lemma_mul_inequality(n, 0x1_0000_0001, 0x80_0000_0000_0000_0000_0000);
    }
    // threshold side
    vstd::arithmetic::mul::lemma_mul_inequality(th, 0x3B9ACA00, SCALE as int);
    vstd::arithmetic::mul::lemma_mul_nonnegative(th, SCALE as int);
    assert(th * SCALE <= 0x4_0000_0000_0000) by (nonlinear_arith)
        requires
            0 <= th <= 0x3B9ACA00,
            SCALE == 1_000_000,
    ;
    vstd::arithmetic::mul::lemma_mul_inequality(th * SCALE, 0x4_0000_0000_0000, n);
    vstd::arithmetic::mul::lemma_mul_nonnegative(th * SCALE, n);
    assert(0x4_0000_0000_0000 * n <= 0x4_0000_0000_0000 * 0x1_0000_0001) by {
        vstd::arithmetic::mul::lemma_mul_inequality(n, 0x1_0000_0001, 0x4_0000_0000_0000);
    }
    assert(0x4_0000_0000_0000 * 0x1_0000_0001 < 0x8_0000_0000_0000_0000_0000) by (nonlinear_arith);
    vstd::arithmetic::mul::lemma_mul_inequality((th * SCALE) * n, 0x8_0000_0000_0000_0000_0000, m);
    vstd::arithmetic::mul::lemma_mul_nonnegative((th * SCALE) * n, m);
    assert(0x8_0000_0000_0000_0000_0000 * m <= 0x8_0000_0000_0000_0000_0000 * 0x1_0000_0001)
        by {
        vstd::arithmetic::mul::lemma_mul_inequality(m, 0x1_0000_0001, 0x8_0000_0000_0000_0000_0000);
    }
    assert(0x8_0000_0000_0000_0000_0000 * 0x1_0000_0001
        < 0x100_0000_0000_0000_0000_0000_0000_0000) by (nonlinear_arith);
}

/// The scaled inner bound folds under `SCALE`.
proof fn proof_fold_scale()
    ensures
        0x40_0000_0000_0000_0000_0000_0000 * (SCALE as int)
            <= 0x4000_0000_0000_0000_0000_0000_0000_0000,
{
    assert(0x40_0000_0000_0000_0000_0000_0000 * (SCALE as int)
        <= 0x4000_0000_0000_0000_0000_0000_0000_0000) by (nonlinear_arith);
}

} // verus!