//! The genome: nodes and connections with historical marking, feed-forward
//! evaluation, structural and weight mutation, and crossover.

use vstd::prelude::*;
use crate::activations::Activations;
use crate::connection::Connection;
use crate::fixed::{SCALE, VAL_MAX};
use crate::node::Node;
use crate::errors::NeatError;
use crate::fixed::{mul_fx, mul_wt, sat_add, spec_mul_fx, spec_mul_wt, spec_sat, spec_sat_add};
use crate::node::spec_activate;
use crate::history::{
    find_conn_from,
    lemma_find_conn_some,
    spec_registered_innov,
    spec_split_result,
    spec_split_seq,
    HistConnection,
    History,
};
use crate::hyper_tensor::HyperTensor;
use crate::settings::HyperSettings;
use crate::rng::rand_init_weight;
use crate::settings::Settings;
use crate::valmap::{al_get, al_set, first_idx_from, lemma_first_idx_bounds, lemma_first_idx_none, ValMap};

verus! {

/// Some node in the sequence carries this innovation id.
pub open spec fn has_node(nodes: Seq<Node>, id: u32) -> bool {
    exists|k: int| 0 <= k < nodes.len() && (#[trigger] nodes[k]).innov == id
}

/// Nodes are ordered by layer coordinate, carry distinct innovation ids, and
/// sit inside the unit layer interval.
pub open spec fn nodes_wf(nodes: Seq<Node>) -> bool {
    &&& forall|i: int, j: int|
        0 <= i < j < nodes.len() ==> (#[trigger] nodes[i]).x <= (#[trigger] nodes[j]).x
    &&& forall|i: int, j: int|
        0 <= i < j < nodes.len() ==> (#[trigger] nodes[i]).innov != (#[trigger] nodes[j]).innov
    &&& forall|k: int| 0 <= k < nodes.len() ==> 0 <= (#[trigger] nodes[k]).x <= SCALE
    &&& forall|k: int| 0 <= k < nodes.len() ==> 0 <= (#[trigger] nodes[k]).y <= SCALE
}

/// Connections are strictly ordered by innovation id (hence distinct), carry
/// weights on [-1, 1], name distinct endpoint pairs, and run strictly
/// forward between nodes present in the genome.
pub open spec fn conns_wf(nodes: Seq<Node>, conns: Seq<Connection>) -> bool {
    &&& forall|i: int, j: int|
        0 <= i < j < conns.len() ==> (#[trigger] conns[i]).innov < (#[trigger] conns[j]).innov
    &&& forall|k: int| 0 <= k < conns.len() ==> -SCALE <= (#[trigger] conns[k]).weight <= SCALE
    &&& forall|i: int, j: int|
        0 <= i < j < conns.len() ==> !((#[trigger] conns[i]).from == (#[trigger] conns[j]).from
            && conns[i].to == conns[j].to)
    &&& forall|k: int|
        0 <= k < conns.len() ==> has_node(nodes, (#[trigger] conns[k]).from) && has_node(
            nodes,
            conns[k].to,
        )
    &&& forall|k: int, a: int, b: int|
        0 <= k < conns.len() && 0 <= a < nodes.len() && 0 <= b < nodes.len() && (
        #[trigger] nodes[a]).innov == (#[trigger] conns[k]).from && (#[trigger] nodes[b]).innov
            == conns[k].to ==> nodes[a].x < nodes[b].x
}


/// Every stored value sits inside the saturated value range.
pub open spec fn al_in_range(m: Seq<(u32, i64)>) -> bool {
    forall|i: int| 0 <= i < m.len() ==> -VAL_MAX <= (#[trigger] m[i]).1 <= VAL_MAX
}

/// The value map after node `fid`, activated to `a`, has fed every enabled
/// outgoing connection from `conns[j..]`: each target entry is created at
/// zero if absent, and, for enabled connections, incremented by the
/// saturated fixed-point product of `a` and the connection weight.
pub open spec fn spec_propagate(
    conns: Seq<Connection>,
    m: Seq<(u32, i64)>,
    fid: u32,
    a: i64,
    j: int,
) -> Seq<(u32, i64)>
    decreases conns.len() - j,
{
    if j < 0 || j >= conns.len() {
        m
    } else {
        let c = conns[j];
        let m1 = if c.from == fid {
            let cur = match al_get(m, c.to) {
                Some(x) => x,
                None => 0,
            };
            let newv = if c.enabled {
                spec_sat_add(cur, spec_mul_wt(a, c.weight))
            } else {
                cur
            };
            al_set(m, c.to, newv)
        } else {
            m
        };
        spec_propagate(conns, m1, fid, a, j + 1)
    }
}

/// The value map after the layered sweep over `nodes[i..]`: each node in
/// order reads its accumulated value (`None` if it has none), activates it,
/// and propagates along its outgoing connections.
pub open spec fn spec_sweep(
    nodes: Seq<Node>,
    conns: Seq<Connection>,
    m: Seq<(u32, i64)>,
    i: int,
) -> Option<Seq<(u32, i64)>>
    decreases nodes.len() - i,
{
    if i < 0 || i >= nodes.len() {
        Some(m)
    } else {
        match al_get(m, nodes[i].innov) {
            None => None,
            Some(v) => {
                let a = spec_sat(spec_activate(nodes[i], v));
                spec_sweep(nodes, conns, spec_propagate(conns, m, nodes[i].innov, a, 0), i + 1)
            },
        }
    }
}

/// The seeded value map: slot i+1 holds input i, and the bias slot
/// `inputs + 1` holds the fixed-point 1.0.
pub open spec fn spec_seed(inputs: int, input: Seq<i64>) -> Seq<(u32, i64)> {
    Seq::new(
        (inputs + 1) as nat,
        |t: int|
            if t < inputs {
                (((t + 1) as u32), input[t])
            } else {
                (((inputs + 1) as u32), SCALE)
            },
    )
}

/// The output slots `inputs + 2 .. inputs + outputs + 2` read from the final
/// value map, or `None` if any is absent.
pub open spec fn spec_outputs(m: Seq<(u32, i64)>, inputs: u32, outputs: u32) -> Option<Seq<i64>> {
    if forall|o: int| 0 <= o < outputs ==> #[trigger] al_get(m, (inputs + 2 + o) as u32) is Some {
        Some(Seq::new(outputs as nat, |o: int| al_get(m, (inputs + 2 + o) as u32)->Some_0))
    } else {
        None
    }
}

/// What `feed_forward` returns: an arity error if the input length differs
/// from the genome's inputs; otherwise the seeded, swept value map's output
/// slots, or a missing-value error if the sweep or an output slot finds no
/// value.
pub open spec fn spec_feed_forward(g: Genome, input: Seq<i64>) -> Result<Seq<i64>, NeatError> {
    if input.len() != g.inputs {
        Err(NeatError::InputArityMismatch)
    } else {
        match spec_sweep(g.nodes@, g.conns@, spec_seed(g.inputs as int, input), 0) {
            None => Err(NeatError::MissingValue),
            Some(m) => match spec_outputs(m, g.inputs, g.outputs) {
                Some(vals) => Ok(vals),
                None => Err(NeatError::MissingValue),
            },
        }
    }
}


/// Some connection joins `f` to `t`.
pub open spec fn spec_has_pair(conns: Seq<Connection>, f: u32, t: u32) -> bool {
    exists|k: int|
        0 <= k < conns.len() && (#[trigger] conns[k]).from == f && conns[k].to == t
}

/// Some connection carries this innovation id.
pub open spec fn spec_has_innov(conns: Seq<Connection>, id: u32) -> bool {
    exists|k: int| 0 <= k < conns.len() && (#[trigger] conns[k]).innov == id
}

/// Node `a` may legally grow a new connection to node `b`: strictly forward
/// in layer order and not already connected.
pub open spec fn spec_legal_pair(nodes: Seq<Node>, conns: Seq<Connection>, a: int, b: int) -> bool {
    &&& 0 <= a < nodes.len()
    &&& 0 <= b < nodes.len()
    &&& nodes[a].x < nodes[b].x
    &&& !spec_has_pair(conns, nodes[a].innov, nodes[b].innov)
}

/// Node `a` still has some legal forward target.
pub open spec fn spec_has_legal_target(nodes: Seq<Node>, conns: Seq<Connection>, a: int) -> bool {
    exists|b: int| spec_legal_pair(nodes, conns, a, b)
}

fn has_pair(conns: &Vec<Connection>, f: u32, t: u32) -> (r: bool)
    ensures
        r <==> spec_has_pair(conns@, f, t),
{
    let mut k: usize = 0;
    while k < conns.len()
        invariant
            0 <= k <= conns@.len(),
            forall|i: int| 0 <= i < k ==> !((#[trigger] conns@[i]).from == f && conns@[i].to == t),
        decreases conns@.len() - k,
    {
        if conns[k].from == f && conns[k].to == t {
            return true;
        }
        k = k + 1;
    }
    false
}

fn has_conn_innov(conns: &Vec<Connection>, id: u32) -> (r: bool)
    ensures
        r <==> spec_has_innov(conns@, id),
{
    let mut k: usize = 0;
    while k < conns.len()
        invariant
            0 <= k <= conns@.len(),
            forall|i: int| 0 <= i < k ==> (#[trigger] conns@[i]).innov != id,
        decreases conns@.len() - k,
    {
        if conns[k].innov == id {
            return true;
        }
        k = k + 1;
    }
    false
}


fn find_conn_by_innov(conns: &Vec<Connection>, innov: u32) -> (r: Option<usize>)
    ensures
        match r {
            Some(j) => j < conns@.len() && conns@[j as int].innov == innov,
            None => !spec_has_innov(conns@, innov),
        },
{
    let mut k: usize = 0;
    while k < conns.len()
        invariant
            0 <= k <= conns@.len(),
            forall|i: int| 0 <= i < k ==> (#[trigger] conns@[i]).innov != innov,
        decreases conns@.len() - k,
    {
        if conns[k].innov == innov {
            return Some(k);
        }
        k = k + 1;
    }
    None
}

fn find_node_idx(nodes: &Vec<Node>, id: u32) -> (r: Option<usize>)
    ensures
        match r {
            Some(i) => i < nodes@.len() && nodes@[i as int].innov == id,
            None => !has_node(nodes@, id),
        },
{
    let mut k: usize = 0;
    while k < nodes.len()
        invariant
            0 <= k <= nodes@.len(),
            forall|i: int| 0 <= i < k ==> (#[trigger] nodes@[i]).innov != id,
        decreases nodes@.len() - k,
    {
        if nodes[k].innov == id {
            return Some(k);
        }
        k = k + 1;
    }
    None
}

/// Insert a connection with a fresh innovation id at its sorted position.
fn insert_conn_sorted(conns: &mut Vec<Connection>, c: Connection) -> (pos: usize)
    requires
        forall|i: int, j: int|
            0 <= i < j < old(conns)@.len() ==> (#[trigger] old(conns)@[i]).innov < (
            #[trigger] old(conns)@[j]).innov,
        forall|i: int| 0 <= i < old(conns)@.len() ==> (#[trigger] old(conns)@[i]).innov != c.innov,
    ensures
        pos <= old(conns)@.len(),
        final(conns)@ == old(conns)@.insert(pos as int, c),
        forall|i: int, j: int|
            0 <= i < j < final(conns)@.len() ==> (#[trigger] final(conns)@[i]).innov < (
            #[trigger] final(conns)@[j]).innov,
{
    let mut pos: usize = 0;
    while pos < conns.len() && conns[pos].innov < c.innov
        invariant
            0 <= pos <= conns@.len(),
            *conns == *old(conns),
            forall|i: int| 0 <= i < pos ==> (#[trigger] conns@[i]).innov < c.innov,
        decreases conns@.len() - pos,
    {
        pos = pos + 1;
    }
    proof {
        assert(forall|i: int|
            pos <= i < conns@.len() ==> (#[trigger] conns@[i]).innov > c.innov);
    }
    conns.insert(pos, c);
    pos
}

/// Insert a node at a position that keeps the layer ordering; equals go
/// before it, so existing order is undisturbed.
fn insert_node_sorted(nodes: &mut Vec<Node>, n: Node) -> (pos: usize)
    requires
        forall|i: int, j: int|
            0 <= i < j < old(nodes)@.len() ==> (#[trigger] old(nodes)@[i]).x <= (
            #[trigger] old(nodes)@[j]).x,
    ensures
        pos <= old(nodes)@.len(),
        final(nodes)@ == old(nodes)@.insert(pos as int, n),
        forall|i: int, j: int|
            0 <= i < j < final(nodes)@.len() ==> (#[trigger] final(nodes)@[i]).x <= (
            #[trigger] final(nodes)@[j]).x,
{
    let mut pos: usize = 0;
    while pos < nodes.len() && nodes[pos].x <= n.x
        invariant
            0 <= pos <= nodes@.len(),
            *nodes == *old(nodes),
            forall|i: int| 0 <= i < pos ==> (#[trigger] nodes@[i]).x <= n.x,
        decreases nodes@.len() - pos,
    {
        pos = pos + 1;
    }
    proof {
        assert(forall|i: int| pos <= i < nodes@.len() ==> (#[trigger] nodes@[i]).x > n.x);
    }
    nodes.insert(pos, n);
    pos
}


/// The fully connected seed genome: inputs and bias on the input layer,
/// outputs on the output layer, one enabled connection per input-or-bias and
/// output pair in row-major innovation order, weights on [0, 1), fitness 0.
pub open spec fn is_seed(g: Genome, inputs: u32, outputs: u32) -> bool {
    &&& g.inputs == inputs
    &&& g.outputs == outputs
    &&& g.fitness == 0
    &&& g.nodes@.len() == inputs + outputs + 1
    &&& g.conns@.len() == (inputs + 1) * outputs
    &&& forall|k: int| 0 <= k < g.nodes@.len() ==> (#[trigger] g.nodes@[k]).innov == k + 1
    &&& forall|k: int|
        0 <= k < g.nodes@.len() ==> (#[trigger] g.nodes@[k]).x == (if k < inputs + 1 {
            0int
        } else {
            SCALE as int
        })
    &&& forall|k: int|
        0 <= k < g.conns@.len() ==> (#[trigger] g.conns@[k]).innov == k + 1 && g.conns@[k].from
            == 1 + k / (outputs as int) && g.conns@[k].to == inputs + 2 + k % (outputs as int)
            && g.conns@[k].enabled && 0 <= g.conns@[k].weight < SCALE
}

/// The genome's ids all come from this registry: every node id is below the
/// node cursor, and every gene is backed by a history record with the same
/// innovation id and endpoints. This holds of any genome evolved against the
/// run's shared registry.
pub open spec fn ids_from_registry(g: Genome, h: History) -> bool {
    &&& forall|k: int|
        0 <= k < g.nodes@.len() ==> (#[trigger] g.nodes@[k]).innov < h.next_node_innov
    &&& forall|k: int|
        0 <= k < g.conns@.len() ==> exists|r: int|
            0 <= r < h.conn_history@.len() && (#[trigger] h.conn_history@[r]).innov == (
            #[trigger] g.conns@[k]).innov && h.conn_history@[r].from == g.conns@[k].from
                && h.conn_history@[r].to == g.conns@[k].to
}

/// Every connection has at least two layer units between its endpoints, so a
/// midpoint node fits strictly between them.
pub open spec fn all_splittable(g: Genome) -> bool {
    forall|ci: int, a: int, b: int|
        0 <= ci < g.conns@.len() && 0 <= a < g.nodes@.len() && 0 <= b < g.nodes@.len() && (
        #[trigger] g.nodes@[a]).innov == (#[trigger] g.conns@[ci]).from && (
        #[trigger] g.nodes@[b]).innov == g.conns@[ci].to ==> g.nodes@[b].x >= g.nodes@[a].x + 2
}

/// Whatever connection a split picks, the ids the registry would hand out do
/// not collide with ids this genome already carries.
pub open spec fn split_ids_fresh(g: Genome, h: History) -> bool {
    forall|ci: int|
        0 <= ci < g.conns@.len() ==> {
            let r = spec_split_result(
                h.conn_history@,
                h.next_node_innov,
                h.next_conn_innov,
                (#[trigger] g.conns@[ci]).from,
                g.conns@[ci].to,
            );
            &&& !has_node(g.nodes@, r.node)
            &&& !spec_has_innov(g.conns@, r.in_conn)
            &&& !spec_has_innov(g.conns@, r.out_conn)
            &&& r.in_conn != r.out_conn
        }
}

/// Every innovation id in a sequence is, trivially, present in it.
proof fn lemma_innovs_self(conns: Seq<Connection>)
    ensures
        forall|k: int|
            0 <= k < conns.len() ==> spec_has_innov(conns, (#[trigger] conns[k]).innov),
{
    assert forall|k: int| 0 <= k < conns.len() implies spec_has_innov(
        conns,
        (#[trigger] conns[k]).innov,
    ) by {
        assert(conns[k].innov == conns[k].innov);
    }
}

/// Every node id in a sequence is, trivially, present in it.
proof fn lemma_node_ids_self(nodes: Seq<Node>)
    ensures
        forall|k: int| 0 <= k < nodes.len() ==> has_node(nodes, (#[trigger] nodes[k]).innov),
{
    assert forall|k: int| 0 <= k < nodes.len() implies has_node(
        nodes,
        (#[trigger] nodes[k]).innov,
    ) by {
        assert(nodes[k].innov == nodes[k].innov);
    }
}

/// The id the registry hands out for an endpoint pair the genome lacks is
/// not an id the genome already carries, provided its genes are backed by
/// registry records with distinct ids below the connection cursor.
proof fn lemma_registered_innov_fresh(
    h: Seq<HistConnection>,
    nc: u32,
    conns: Seq<Connection>,
    f: u32,
    t: u32,
)
    requires
        forall|k: int| 0 <= k < h.len() ==> (#[trigger] h[k]).innov < nc,
        forall|k1: int, k2: int|
            0 <= k1 < k2 < h.len() ==> (#[trigger] h[k1]).innov != (#[trigger] h[k2]).innov,
        forall|k: int|
            0 <= k < conns.len() ==> exists|r: int|
                0 <= r < h.len() && (#[trigger] h[r]).innov == (#[trigger] conns[k]).innov
                    && h[r].from == conns[k].from && h[r].to == conns[k].to,
        !spec_has_pair(conns, f, t),
    ensures
        !spec_has_innov(conns, spec_registered_innov(h, nc, f, t)),
{
    let innov = spec_registered_innov(h, nc, f, t);
    if spec_has_innov(conns, innov) {
        let k = choose|k: int| 0 <= k < conns.len() && (#[trigger] conns[k]).innov == innov;
        let r = choose|r: int|
            0 <= r < h.len() && (#[trigger] h[r]).innov == conns[k].innov && h[r].from
                == conns[k].from && h[r].to == conns[k].to;
        match find_conn_from(h, f, t, 0) {
            Some(i) => {
                lemma_find_conn_some(h, f, t, 0);
                assert(h[i].innov == innov);
                if r < i {
                    assert(h[r].innov != h[i].innov);
                } else if i < r {
                    assert(h[i].innov != h[r].innov);
                }
                assert(r == i);
                assert(conns[k].from == f && conns[k].to == t);
                assert(spec_has_pair(conns, f, t));
                assert(false);
            },
            None => {
                assert(h[r].innov < nc);
                assert(innov == nc);
                assert(false);
            },
        }
    }
}



/// Some connection feeds this id.
pub open spec fn fed(conns: Seq<Connection>, id: int) -> bool {
    exists|c: int| 0 <= c < conns.len() && (#[trigger] conns[c]).to == id
}

/// Keys never vanish while a node's activation propagates.
proof fn lemma_propagate_keeps_key(
    conns: Seq<Connection>,
    m: Seq<(u32, i64)>,
    fid: u32,
    a: i64,
    j: int,
    k: u32,
)
    requires
        first_idx_from(m, k, 0) is Some,
    ensures
        first_idx_from(spec_propagate(conns, m, fid, a, j), k, 0) is Some,
    decreases conns.len() - j,
{
    if 0 <= j < conns.len() {
        let c = conns[j];
        if c.from == fid {
            let cur = match al_get(m, c.to) {
                Some(x) => x,
                None => 0,
            };
            let newv = if c.enabled {
                spec_sat_add(cur, spec_mul_wt(a, c.weight))
            } else {
                cur
            };
            crate::valmap::lemma_al_set_keeps_key(m, c.to, newv, k);
            lemma_propagate_keeps_key(conns, al_set(m, c.to, newv), fid, a, j + 1, k);
        } else {
            lemma_propagate_keeps_key(conns, m, fid, a, j + 1, k);
        }
    }
}

/// Propagation records an entry for the target of every outgoing connection
/// it visits.
proof fn lemma_propagate_adds_key(
    conns: Seq<Connection>,
    m: Seq<(u32, i64)>,
    fid: u32,
    a: i64,
    j: int,
    c0: int,
)
    requires
        0 <= j <= c0 < conns.len(),
        conns[c0].from == fid,
    ensures
        first_idx_from(spec_propagate(conns, m, fid, a, j), conns[c0].to, 0) is Some,
    decreases conns.len() - j,
{
    let c = conns[j];
    let m1 = if c.from == fid {
        let cur = match al_get(m, c.to) {
            Some(x) => x,
            None => 0,
        };
        let newv = if c.enabled {
            spec_sat_add(cur, spec_mul_wt(a, c.weight))
        } else {
            cur
        };
        al_set(m, c.to, newv)
    } else {
        m
    };
    if j == c0 {
        let cur = match al_get(m, c.to) {
            Some(x) => x,
            None => 0,
        };
        let newv = if c.enabled {
            spec_sat_add(cur, spec_mul_wt(a, c.weight))
        } else {
            cur
        };
        crate::valmap::lemma_al_set_has_key(m, c.to, newv);
        lemma_propagate_keeps_key(conns, m1, fid, a, j + 1, conns[c0].to);
    } else {
        lemma_propagate_adds_key(conns, m1, fid, a, j + 1, c0);
    }
}


/// A fully connected seed genome is evaluable: input-layer slots are the
/// inputs and bias, and every output node and output slot is fed by the seed
/// connection grid.
pub proof fn lemma_seed_evaluable(g: Genome, inputs: u32, outputs: u32)
    requires
        is_seed(g, inputs, outputs),
        1 <= inputs,
        1 <= outputs,
        inputs + outputs + 2 <= u32::MAX,
        (inputs + 1) * outputs + 1 <= u32::MAX,
    ensures
        g.evaluable(),
{
    assert(outputs <= (inputs + 1) * outputs) by (nonlinear_arith)
        requires
            1 <= inputs,
            1 <= outputs,
    ;
    assert forall|k: int|
        0 <= k < g.nodes@.len() && (#[trigger] g.nodes@[k]).x != 0 implies fed(
        g.conns@,
        g.nodes@[k].innov as int,
    ) by {
        assert(k >= inputs + 1);
        let j = k - (inputs + 1);
        vstd::arithmetic::div_mod::lemma_fundamental_div_mod_converse(
            j,
            outputs as int,
            0,
            j,
        );
        assert(g.conns@[j].to == inputs + 2 + j);
        assert(g.nodes@[k].innov == k + 1);
    }
    assert forall|o: int| inputs + 2 <= o < inputs + outputs + 2 implies #[trigger] fed(
        g.conns@,
        o,
    ) by {
        let j = o - inputs - 2;
        vstd::arithmetic::div_mod::lemma_fundamental_div_mod_converse(
            j,
            outputs as int,
            0,
            j,
        );
        assert(g.conns@[j].to == inputs + 2 + j);
    }
}

/// The key is present in the working store.
pub open spec fn al_has(m: Seq<(u32, i64)>, k: u32) -> bool {
    first_idx_from(m, k, 0) is Some
}

/// The sweep from node `i` on succeeds and only grows the key set, provided
/// the input and bias slots are stored and every connection out of an
/// already-processed node has stored its target: each upcoming node is either
/// an input-layer slot or fed by a strictly earlier node.
proof fn lemma_sweep_ok(g: Genome, m: Seq<(u32, i64)>, i: int)
    requires
        g.wf(),
        g.evaluable(),
        g.inputs + g.outputs + 2 <= u32::MAX,
        0 <= i <= g.nodes@.len(),
        forall|s: u32| 1 <= s <= g.inputs + 1 ==> #[trigger] al_has(m, s),
        forall|c: int, a: int|
            0 <= c < g.conns@.len() && 0 <= a < i && (#[trigger] g.nodes@[a]).innov == (
            #[trigger] g.conns@[c]).from ==> al_has(m, g.conns@[c].to),
    ensures
        spec_sweep(g.nodes@, g.conns@, m, i) is Some,
        forall|k: u32|
            #[trigger] al_has(m, k) ==> al_has(spec_sweep(g.nodes@, g.conns@, m, i)->Some_0, k),
        forall|c: int|
            0 <= c < g.conns@.len() ==> al_has(
                spec_sweep(g.nodes@, g.conns@, m, i)->Some_0,
                (#[trigger] g.conns@[c]).to,
            ),
    decreases g.nodes@.len() - i,
{
    let nodes = g.nodes@;
    let conns = g.conns@;
    if i == nodes.len() {
        assert forall|c: int| 0 <= c < conns.len() implies al_has(
            m,
            (#[trigger] conns[c]).to,
        ) by {
            assert(has_node(nodes, conns[c].from));
            let a = choose|a: int|
                0 <= a < nodes.len() && (#[trigger] nodes[a]).innov == conns[c].from;
            assert(al_has(m, conns[c].to));
        }
    } else {
        let node = nodes[i];
        assert(al_has(m, node.innov)) by {
            if node.x == 0 {
                assert(1 <= node.innov <= g.inputs + 1);
                assert(al_has(m, node.innov));
            } else {
                assert(fed(conns, node.innov as int));
                let c = choose|c: int|
                    0 <= c < conns.len() && (#[trigger] conns[c]).to == node.innov as int;
                assert(has_node(nodes, conns[c].from));
                let a = choose|a: int|
                    0 <= a < nodes.len() && (#[trigger] nodes[a]).innov == conns[c].from;
                assert(nodes[a].x < nodes[i].x);
                assert(a < i) by {
                    if a == i {
                        assert(false);
                    } else if a > i {
                        assert(nodes[i].x <= nodes[a].x);
                        assert(false);
                    }
                }
                assert(al_has(m, conns[c].to));
            }
        }
        let v = al_get(m, node.innov)->Some_0;
        let act = spec_sat(spec_activate(node, v));
        let m1 = spec_propagate(conns, m, node.innov, act, 0);
        assert forall|s: u32| 1 <= s <= g.inputs + 1 implies #[trigger] al_has(m1, s) by {
            assert(al_has(m, s));
            lemma_propagate_keeps_key(conns, m, node.innov, act, 0, s);
        }
        assert forall|c: int, a: int|
            0 <= c < conns.len() && 0 <= a < i + 1 && (#[trigger] nodes[a]).innov == (
            #[trigger] conns[c]).from implies al_has(m1, conns[c].to) by {
            if a < i {
                assert(al_has(m, conns[c].to));
                lemma_propagate_keeps_key(conns, m, node.innov, act, 0, conns[c].to);
            } else {
                lemma_propagate_adds_key(conns, m, node.innov, act, 0, c);
            }
        }
        lemma_sweep_ok(g, m1, i + 1);
        let res = spec_sweep(nodes, conns, m1, i + 1)->Some_0;
        assert forall|k: u32| #[trigger] al_has(m, k) implies al_has(res, k) by {
            lemma_propagate_keeps_key(conns, m, node.innov, act, 0, k);
        }
    }
}

/// On a well-formed, evaluable genome the evaluator always succeeds when the
/// input arity matches: every node finds its accumulated value and every
/// output slot is present.
pub proof fn lemma_feed_forward_total(g: Genome, input: Seq<i64>)
    requires
        g.wf(),
        g.evaluable(),
        input.len() == g.inputs,
        g.inputs + g.outputs + 2 <= u32::MAX,
    ensures
        spec_feed_forward(g, input) is Ok,
{
    let m0 = spec_seed(g.inputs as int, input);
    assert forall|s: u32| 1 <= s <= g.inputs + 1 implies #[trigger] al_has(m0, s) by {
        assert(m0[s - 1].0 == s);
        crate::valmap::lemma_first_idx_some(m0, s, 0);
    }
    lemma_sweep_ok(g, m0, 0);
    let mfin = spec_sweep(g.nodes@, g.conns@, m0, 0)->Some_0;
    assert forall|o: int| 0 <= o < g.outputs implies #[trigger] al_get(
        mfin,
        (g.inputs + 2 + o) as u32,
    ) is Some by {
        assert(fed(g.conns@, g.inputs + 2 + o));
        let c = choose|c: int|
            0 <= c < g.conns@.len() && (#[trigger] g.conns@[c]).to == g.inputs + 2 + o;
        assert(al_has(mfin, g.conns@[c].to));
        assert(g.conns@[c].to == (g.inputs + 2 + o) as u32);
    }
    assert(spec_outputs(mfin, g.inputs, g.outputs) is Some);
}


/// Feeding is preserved when every gene keeps its target.
proof fn lemma_fed_same_targets(c1: Seq<Connection>, c2: Seq<Connection>, id: int)
    requires
        c1.len() == c2.len(),
        forall|k: int| 0 <= k < c1.len() ==> (#[trigger] c2[k]).to == c1[k].to,
        fed(c1, id),
    ensures
        fed(c2, id),
{
    let k = choose|k: int| 0 <= k < c1.len() && (#[trigger] c1[k]).to == id;
    assert(c2[k].to == id);
}

/// Feeding is preserved by inserting a gene.
proof fn lemma_fed_insert(oc: Seq<Connection>, nc: Seq<Connection>, pos: int, c: Connection, id: int)
    requires
        0 <= pos <= oc.len(),
        nc == oc.insert(pos, c),
        fed(oc, id),
    ensures
        fed(nc, id),
{
    oc.insert_ensures(pos, c);
    let k = choose|k: int| 0 <= k < oc.len() && (#[trigger] oc[k]).to == id;
    if k < pos {
        assert(nc[k] == oc[k]);
    } else {
        assert(nc[k + 1] == oc[k]);
    }
}

/// Feeding is preserved across a split, and the fresh node is fed by its
/// incoming half.
proof fn lemma_fed_split(
    conns_old: Seq<Connection>,
    conns_new: Seq<Connection>,
    ci: int,
    c1: Connection,
    c2: Connection,
    p1: int,
    p2: int,
    id: int,
)
    requires
        0 <= ci < conns_old.len(),
        0 <= p1 <= conns_old.len(),
        0 <= p2 <= conns_old.len() + 1,
        conns_new == conns_old.update(ci, (Connection { enabled: false, ..conns_old[ci] })).insert(
            p1,
            c1,
        ).insert(p2, c2),
        fed(conns_old, id) || c1.to == id || c2.to == id,
    ensures
        fed(conns_new, id),
{
    let dc = Connection { enabled: false, ..conns_old[ci] };
    let cmid = conns_old.update(ci, dc);
    let cins = cmid.insert(p1, c1);
    cmid.insert_ensures(p1, c1);
    cins.insert_ensures(p2, c2);
    if fed(conns_old, id) {
        let k = choose|k: int| 0 <= k < conns_old.len() && (#[trigger] conns_old[k]).to == id;
        assert(cmid[k].to == id);
        lemma_fed_insert(cmid, cins, p1, c1, id);
        lemma_fed_insert(cins, conns_new, p2, c2, id);
    } else if c1.to == id {
        assert(cins[p1] == c1);
        lemma_fed_insert(cins, conns_new, p2, c2, id);
    } else {
        assert(conns_new[p2] == c2);
    }
}

/// Adding a connection keeps the genome evaluable: nodes are untouched and
/// every feeding gene keeps its target. This is the shape `add_conn` gives
/// the genome when it extends it.
pub proof fn lemma_insert_evaluable(g_old: Genome, g_new: Genome, pos: int, c: Connection)
    requires
        g_new.nodes@ == g_old.nodes@,
        g_new.inputs == g_old.inputs,
        g_new.outputs == g_old.outputs,
        0 <= pos <= g_old.conns@.len(),
        g_new.conns@ == g_old.conns@.insert(pos, c),
        g_old.evaluable(),
    ensures
        g_new.evaluable(),
{
    assert forall|k: int|
        0 <= k < g_new.nodes@.len() && (#[trigger] g_new.nodes@[k]).x != 0 implies fed(
        g_new.conns@,
        g_new.nodes@[k].innov as int,
    ) by {
        lemma_fed_insert(g_old.conns@, g_new.conns@, pos, c, g_new.nodes@[k].innov as int);
    }
    assert forall|o: int|
        g_new.inputs + 2 <= o < g_new.inputs + g_new.outputs + 2 implies #[trigger] fed(
        g_new.conns@,
        o,
    ) by {
        assert(fed(g_old.conns@, o));
        lemma_fed_insert(g_old.conns@, g_new.conns@, pos, c, o);
    }
}

/// A genome with the same nodes, arity and gene targets as an evaluable one
/// is evaluable; in particular a crossover offspring inherits it from the
/// fitter parent.
pub proof fn lemma_same_structure_evaluable(g_old: Genome, g_new: Genome)
    requires
        g_new.nodes@ == g_old.nodes@,
        g_new.inputs == g_old.inputs,
        g_new.outputs == g_old.outputs,
        g_new.conns@.len() == g_old.conns@.len(),
        forall|k: int|
            0 <= k < g_new.conns@.len() ==> (#[trigger] g_new.conns@[k]).to == g_old.conns@[k].to,
        g_old.evaluable(),
    ensures
        g_new.evaluable(),
{
    assert forall|k: int|
        0 <= k < g_new.nodes@.len() && (#[trigger] g_new.nodes@[k]).x != 0 implies fed(
        g_new.conns@,
        g_new.nodes@[k].innov as int,
    ) by {
        lemma_fed_same_targets(g_old.conns@, g_new.conns@, g_new.nodes@[k].innov as int);
    }
    assert forall|o: int|
        g_new.inputs + 2 <= o < g_new.inputs + g_new.outputs + 2 implies #[trigger] fed(
        g_new.conns@,
        o,
    ) by {
        assert(fed(g_old.conns@, o));
        lemma_fed_same_targets(g_old.conns@, g_new.conns@, o);
    }
}

/// Splitting a connection keeps the genome evaluable: the fresh node sits
/// strictly inside the layer interval and is fed by its incoming half, and
/// every old feeding gene keeps its target. This is the shape `add_node`
/// gives the genome when it splits.
pub proof fn lemma_split_evaluable(
    g_old: Genome,
    g_new: Genome,
    n: Node,
    np: int,
    ci: int,
    c1: Connection,
    c2: Connection,
    p1: int,
    p2: int,
    fi: int,
    ti: int,
)
    requires
        split_shape(
            g_old.nodes@,
            g_old.conns@,
            g_new.nodes@,
            g_new.conns@,
            n,
            np,
            ci,
            c1,
            c2,
            p1,
            p2,
            fi,
            ti,
        ),
        g_new.inputs == g_old.inputs,
        g_new.outputs == g_old.outputs,
        g_old.evaluable(),
    ensures
        g_new.evaluable(),
{
    g_old.nodes@.insert_ensures(np, n);
    assert(n.x > 0) by {
        assert(g_old.nodes@[fi].x >= 0);
    }
    assert forall|k: int|
        0 <= k < g_new.nodes@.len() && (#[trigger] g_new.nodes@[k]).x == 0 implies 1
        <= g_new.nodes@[k].innov <= g_new.inputs + 1 by {
        if k < np {
            assert(g_new.nodes@[k] == g_old.nodes@[k]);
        } else if k > np {
            assert(g_new.nodes@[k] == g_old.nodes@[k - 1]);
        }
    }
    assert forall|k: int|
        0 <= k < g_new.nodes@.len() && (#[trigger] g_new.nodes@[k]).x != 0 implies fed(
        g_new.conns@,
        g_new.nodes@[k].innov as int,
    ) by {
        if k == np {
            lemma_fed_split(g_old.conns@, g_new.conns@, ci, c1, c2, p1, p2, n.innov as int);
        } else {
            let ko = if k < np {
                k
            } else {
                k - 1
            };
            assert(g_new.nodes@[k] == g_old.nodes@[ko]);
            lemma_fed_split(
                g_old.conns@,
                g_new.conns@,
                ci,
                c1,
                c2,
                p1,
                p2,
                g_old.nodes@[ko].innov as int,
            );
        }
    }
    assert forall|o: int|
        g_new.inputs + 2 <= o < g_new.inputs + g_new.outputs + 2 implies #[trigger] fed(
        g_new.conns@,
        o,
    ) by {
        assert(fed(g_old.conns@, o));
        lemma_fed_split(g_old.conns@, g_new.conns@, ci, c1, c2, p1, p2, o);
    }
}

/// A substrate grid coordinate: -1 plus `k` steps.
pub open spec fn spec_hyper_coord(k: int, step: int) -> i64 {
    (-SCALE + k * step) as i64
}

/// One CPPN query: the 4- or 6-slot coordinate vector fed forward.
pub open spec fn spec_hyper_query(
    g: Genome,
    six: bool,
    x1c: i64,
    y1c: i64,
    t1: i64,
    x2c: i64,
    y2c: i64,
    t2: i64,
) -> Result<Seq<i64>, NeatError> {
    if six {
        spec_feed_forward(g, seq![x1c, y1c, t1, x2c, y2c, t2])
    } else {
        spec_feed_forward(g, seq![x1c, y1c, x2c, y2c])
    }
}

/// The destination cell (y2, x2) accumulated from source cell `q` on (flat
/// row-major index): each source contributes the saturated fixed-point
/// product of the weight-scaled CPPN response and the source cell value.
/// `tp` carries the recorded third-parameter value of each cell.
pub open spec fn spec_cell_from(
    g: Genome,
    vals: Seq<Vec<i64>>,
    tp: Seq<i64>,
    hs: HyperSettings,
    six: bool,
    m: int,
    n: int,
    dy: int,
    dx: int,
    y2: int,
    x2: int,
    q: int,
    acc: i64,
) -> i64
    decreases m * n - q,
{
    if q < 0 || q >= m * n || n <= 0 {
        acc
    } else {
        let y1 = q / n;
        let x1 = q % n;
        let x1c = spec_hyper_coord(x1, dx);
        let y1c = spec_hyper_coord(y1, dy);
        let x2c = spec_hyper_coord(x2, dx);
        let y2c = spec_hyper_coord(y2, dy);
        let t1 = tp[q];
        let t2 = tp[y2 * n + x2];
        match spec_hyper_query(g, six, x1c, y1c, t1, x2c, y2c, t2) {
            Ok(out) => spec_cell_from(
                g,
                vals,
                tp,
                hs,
                six,
                m,
                n,
                dy,
                dx,
                y2,
                x2,
                q + 1,
                spec_sat_add(acc, spec_mul_fx(hs.spec_scaled_weight(out[0]), vals[y1]@[x1])),
            ),
            Err(_) => spec_cell_from(g, vals, tp, hs, six, m, n, dy, dx, y2, x2, q + 1, acc),
        }
    }
}

/// A destination cell's full accumulation over every source cell.
pub open spec fn spec_hyper_cell(
    g: Genome,
    vals: Seq<Vec<i64>>,
    tp: Seq<i64>,
    hs: HyperSettings,
    six: bool,
    m: int,
    n: int,
    y2: int,
    x2: int,
) -> i64 {
    spec_cell_from(
        g,
        vals,
        tp,
        hs,
        six,
        m,
        n,
        ((m - 1) * SCALE) / 2,
        ((n - 1) * SCALE) / 2,
        y2,
        x2,
        0,
        0,
    )
}

/// The whole substrate answer: every cell is its accumulation.
pub open spec fn spec_hyper_result(
    g: Genome,
    vals: Seq<Vec<i64>>,
    tp: Seq<i64>,
    hs: HyperSettings,
    six: bool,
    m: int,
    n: int,
    t: Seq<Vec<i64>>,
) -> bool {
    forall|i: int, j: int|
        0 <= i < m && 0 <= j < n ==> t[i]@[j] == #[trigger] spec_hyper_cell(
            g,
            vals,
            tp,
            hs,
            six,
            m,
            n,
            i,
            j,
        )
}

/// A flat row-major index splits into a row below `m` and a column below `n`.
proof fn lemma_flat_index(q: int, m: int, n: int)
    requires
        0 <= q < m * n,
        1 <= n,
    ensures
        0 <= q / n < m,
        0 <= q % n < n,
{
    vstd::arithmetic::div_mod::lemma_fundamental_div_mod(q, n);
    assert(0 <= q / n < m) by (nonlinear_arith)
        requires
            q == n * (q / n) + q % n,
            0 <= q % n < n,
            0 <= q < m * n,
            1 <= n,
    ;
}

/// A cell's flat index is inside the grid.
proof fn lemma_cell_index(y: int, x: int, m: int, n: int)
    requires
        0 <= y < m,
        0 <= x < n,
    ensures
        0 <= y * n + x < m * n,
{
    assert(0 <= y * n + x < m * n) by (nonlinear_arith)
        requires
            0 <= y < m,
            0 <= x < n,
    ;
}

pub struct Genome {
    pub inputs: u32,
    pub outputs: u32,
    pub nodes: Vec<Node>,
    pub conns: Vec<Connection>,
    pub fitness: i64,
}

/// Fitness addition saturates at zero from below (and at the integer ceiling
/// from above).
pub open spec fn spec_add_fitness(f: i64, d: i64) -> i64 {
    if f + d < 0 {
        0
    } else if f + d > i64::MAX {
        i64::MAX
    } else {
        (f + d) as i64
    }
}

impl Genome {
    /// The genome invariants: well-formed nodes, well-formed connections
    /// over them, and a non-negative fitness.
    pub open spec fn wf(&self) -> bool {
        &&& nodes_wf(self.nodes@)
        &&& conns_wf(self.nodes@, self.conns@)
        &&& 0 <= self.fitness
        &&& self.nodes@.len() <= 0x1_0000_0000
    }

    /// Evaluation can always find a value: every input-layer node is an input
    /// or bias slot, every later node and every output slot is fed by some
    /// connection. This holds of seed genomes and is what `feed_forward`
    /// needs beyond `wf` to be total.
    pub open spec fn evaluable(&self) -> bool {
        &&& forall|k: int|
            0 <= k < self.nodes@.len() && (#[trigger] self.nodes@[k]).x == 0 ==> 1
                <= self.nodes@[k].innov <= self.inputs + 1
        &&& forall|k: int|
            0 <= k < self.nodes@.len() && (#[trigger] self.nodes@[k]).x != 0 ==> fed(
                self.conns@,
                self.nodes@[k].innov as int,
            )
        &&& forall|o: int|
            self.inputs + 2 <= o < self.inputs + self.outputs + 2 ==> #[trigger] fed(
                self.conns@,
                o,
            )
    }

    /// A fresh genome. With `crossover` set, an empty shell for an offspring
    /// about to receive its genes. Otherwise, the fully connected seed:
    /// input nodes 1..=inputs and the bias node inputs+1 on the input layer,
    /// output nodes inputs+2..inputs+outputs+2 on the output layer, and one
    /// enabled connection per input-or-bias/output pair, numbered 1 upward in
    /// row-major order with uniform random weights on [0, 1).
    pub fn new(inputs: u32, outputs: u32, crossover: bool) -> (r: Self)
        requires
            1 <= inputs,
            1 <= outputs,
            inputs + outputs + 2 <= u32::MAX,
            (inputs + 1) * outputs + 1 <= u32::MAX,
        ensures
            r.wf(),
            r.inputs == inputs,
            r.outputs == outputs,
            r.fitness == 0,
            crossover ==> r.nodes@.len() == 0 && r.conns@.len() == 0,
            !crossover ==> is_seed(r, inputs, outputs),
            !crossover ==> r.evaluable(),
            !crossover ==> {
                &&& r.nodes@.len() == inputs + outputs + 1
                &&& r.conns@.len() == (inputs + 1) * outputs
                &&& forall|k: int|
                    0 <= k < r.nodes@.len() ==> (#[trigger] r.nodes@[k]).innov == k + 1
                &&& forall|k: int|
                    0 <= k < r.nodes@.len() ==> (#[trigger] r.nodes@[k]).x == (if k < inputs + 1 {
                        0int
                    } else {
                        SCALE as int
                    })
                &&& forall|k: int|
                    0 <= k < r.conns@.len() ==> (#[trigger] r.conns@[k]).innov == k + 1
                        && r.conns@[k].from == 1 + k / (outputs as int) && r.conns@[k].to == inputs
                        + 2 + k % (outputs as int) && r.conns@[k].enabled && 0 <= r.conns@[k].weight
                        < SCALE
            },
    {
        let mut nodes: Vec<Node> = Vec::new();
        let mut conns: Vec<Connection> = Vec::new();
        if crossover {
            return Genome { inputs, outputs, nodes, conns, fitness: 0 };
        }
        let dy_in: i64 = SCALE / (inputs as i64 + 1);
        proof {
            lemma_unit_step_bounds(inputs as int + 1);
        }
        let ghost n_in_steps = inputs as int + 1;
        let mut i: u32 = 1;
        while i <= inputs + 1
            invariant
                1 <= i <= inputs + 2,
                inputs + outputs + 2 <= u32::MAX,
                0 <= dy_in <= SCALE,
                dy_in == SCALE as int / (inputs as int + 1),
                nodes@.len() == i - 1,
                forall|k: int| 0 <= k < nodes@.len() ==> (#[trigger] nodes@[k]).innov == k + 1,
                forall|k: int| 0 <= k < nodes@.len() ==> (#[trigger] nodes@[k]).x == 0,
                forall|k: int| 0 <= k < nodes@.len() ==> 0 <= (#[trigger] nodes@[k]).y <= SCALE,
            decreases inputs + 2 - i,
        {
            proof {
                vstd::arithmetic::mul::lemma_mul_upper_bound(
                    dy_in as int,
                    SCALE as int,
                    i as int,
                    0x1_0000_0000,
                );
            }
            proof {
                lemma_step_times_count(inputs as int + 1, i as int);
            }
            let y: i64 = dy_in * (i as i64);
            nodes.push(Node::new(i, 0, y, Activations::sample()));
            i = i + 1;
        }
        let dy_out: i64 = SCALE / (outputs as i64 + 1);
        proof {
            lemma_unit_step_bounds(outputs as int + 1);
        }
        let mut o: u32 = inputs + 2;
        while o < inputs + outputs + 2
            invariant
                inputs + 2 <= o <= inputs + outputs + 2,
                inputs + outputs + 2 <= u32::MAX,
                0 <= dy_out <= SCALE,
                dy_out == SCALE as int / (outputs as int + 1),
                nodes@.len() == o - 1,
                forall|k: int| 0 <= k < nodes@.len() ==> (#[trigger] nodes@[k]).innov == k + 1,
                forall|k: int|
                    0 <= k < nodes@.len() ==> (#[trigger] nodes@[k]).x == (if k < inputs + 1 {
                        0int
                    } else {
                        SCALE as int
                    }),
                forall|k: int| 0 <= k < nodes@.len() ==> 0 <= (#[trigger] nodes@[k]).y <= SCALE,
            decreases inputs + outputs + 2 - o,
        {
            proof {
                vstd::arithmetic::mul::lemma_mul_upper_bound(
                    dy_out as int,
                    SCALE as int,
                    o - (inputs + 1),
                    0x1_0000_0000,
                );
            }
            proof {
                lemma_step_times_count(outputs as int + 1, o - (inputs + 1));
            }
            let y: i64 = dy_out * ((o - (inputs + 1)) as i64);
            nodes.push(Node::new(o, SCALE, y, Activations::sample()));
            o = o + 1;
        }
        let ghost n_out = outputs as int;
        let mut inp: u32 = 1;
        while inp <= inputs + 1
            invariant
                1 <= inp <= inputs + 2,
                1 <= inputs,
                1 <= outputs,
                inputs + outputs + 2 <= u32::MAX,
                (inputs + 1) * outputs + 1 <= u32::MAX,
                n_out == outputs as int,
                nodes@.len() == inputs + outputs + 1,
                forall|k: int| 0 <= k < nodes@.len() ==> (#[trigger] nodes@[k]).innov == k + 1,
                forall|k: int|
                    0 <= k < nodes@.len() ==> (#[trigger] nodes@[k]).x == (if k < inputs + 1 {
                        0int
                    } else {
                        SCALE as int
                    }),
                forall|k: int| 0 <= k < nodes@.len() ==> 0 <= (#[trigger] nodes@[k]).y <= SCALE,
                conns@.len() == (inp - 1) * n_out,
                forall|k: int|
                    0 <= k < conns@.len() ==> (#[trigger] conns@[k]).innov == k + 1
                        && conns@[k].from == 1 + k / n_out && conns@[k].to == inputs + 2 + k % n_out
                        && conns@[k].enabled && 0 <= conns@[k].weight < SCALE,
            decreases inputs + 2 - inp,
        {
            proof {
                assert((inp - 1) * n_out + n_out == ((inp + 1) - 1) * n_out) by (nonlinear_arith);
                assert(0 <= (inp - 1) * n_out && (inp as int) * n_out <= (inputs + 1) * n_out)
                    by (nonlinear_arith)
                    requires
                        1 <= inp as int <= inputs + 1,
                        n_out >= 1,
                ;
            }
            let mut out: u32 = inputs + 2;
            while out < inputs + outputs + 2
                invariant
                    1 <= inp <= inputs + 1,
                    inputs + 2 <= out <= inputs + outputs + 2,
                    1 <= inputs,
                    1 <= outputs,
                    inputs + outputs + 2 <= u32::MAX,
                    (inputs + 1) * outputs + 1 <= u32::MAX,
                    n_out == outputs as int,
                    0 <= (inp - 1) * n_out,
                    (inp as int) * n_out <= (inputs + 1) * n_out,
                    (inp - 1) * n_out + n_out == (inp as int) * n_out,
                    (inputs + 1) * n_out == (inputs + 1) * outputs,
                    conns@.len() == (inp - 1) * n_out + (out - (inputs + 2)),
                    forall|k: int|
                        0 <= k < conns@.len() ==> (#[trigger] conns@[k]).innov == k + 1
                            && conns@[k].from == 1 + k / n_out && conns@[k].to == inputs + 2 + k
                            % n_out && conns@[k].enabled && 0 <= conns@[k].weight < SCALE,
                decreases inputs + outputs + 2 - out,
            {
                proof {
                    vstd::arithmetic::div_mod::lemma_fundamental_div_mod_converse(
                        conns@.len() as int,
                        n_out,
                        inp - 1,
                        out - (inputs + 2),
                    );
                }
                let innov: u32 = (conns.len() + 1) as u32;
                conns.push(Connection::new(innov, inp, out, rand_init_weight(), true));
                out = out + 1;
            }
            inp = inp + 1;
        }
        proof {
            assert((inputs + 2 - 1) * n_out == (inputs + 1) * n_out) by (nonlinear_arith);
        }
        let g = Genome { inputs, outputs, nodes, conns, fitness: 0 };
        proof {
            lemma_seed_conns_wf(g.nodes@, g.conns@, inputs as int, outputs as int);
            lemma_seed_evaluable(g, inputs, outputs);
        }
        g
    }

    /// Accumulate fitness; the result saturates at zero from below.
    pub fn add_fitness(&mut self, fit: i64)
        ensures
            final(self).fitness == spec_add_fitness(old(self).fitness, fit),
            final(self).inputs == old(self).inputs,
            final(self).outputs == old(self).outputs,
            final(self).nodes@ == old(self).nodes@,
            final(self).conns@ == old(self).conns@,
            old(self).wf() ==> final(self).wf(),
    {
        let wide: i128 = self.fitness as i128 + fit as i128;
        self.fitness = if wide < 0 {
            0
        } else if wide > i64::MAX as i128 {
            i64::MAX
        } else {
            wide as i64
        };
    }


    /// Acyclic layered evaluation: seed the input and bias slots, sweep the
    /// nodes in their maintained layer order, propagating each activation
    /// along enabled outgoing connections, and read the output slots.
    #[verifier::loop_isolation(false)]
    pub fn feed_forward(&self, input: &Vec<i64>) -> (r: Result<Vec<i64>, NeatError>)
        requires
            self.wf(),
            self.inputs + self.outputs + 2 <= u32::MAX,
            forall|i: int| 0 <= i < input@.len() ==> -VAL_MAX <= #[trigger] input@[i] <= VAL_MAX,
        ensures
            match r {
                Ok(v) => spec_feed_forward(*self, input@) == Ok::<Seq<i64>, NeatError>(v@)
                    && forall|i: int| 0 <= i < v@.len() ==> -VAL_MAX <= #[trigger] v@[i] <= VAL_MAX,
                Err(e) => spec_feed_forward(*self, input@) == Err::<Seq<i64>, NeatError>(e),
            },
            self.evaluable() && input@.len() == self.inputs ==> r is Ok,
    {
        if input.len() != self.inputs as usize {
            return Err(NeatError::InputArityMismatch);
        }
        let mut vm = ValMap::new();
        let mut i: usize = 0;
        while i < input.len()
            invariant
                0 <= i <= input@.len(),
                vm.entries@ =~= spec_seed(self.inputs as int, input@).subrange(0, i as int),
            decreases input@.len() - i,
        {
            proof {
                assert forall|j: int| 0 <= j < vm.entries@.len() implies (
                #[trigger] vm.entries@[j]).0 != ((i + 1) as u32) by {
                    assert(vm.entries@[j].0 == j + 1);
                }
                lemma_first_idx_none(vm.entries@, (i + 1) as u32, 0);
            }
            vm.set((i + 1) as u32, input[i]);
            proof {
                assert(vm.entries@ =~= spec_seed(self.inputs as int, input@).subrange(
                    0,
                    i + 1,
                ));
            }
            i = i + 1;
        }
        proof {
            assert forall|j: int| 0 <= j < vm.entries@.len() implies (#[trigger] vm.entries@[j]).0
                != ((self.inputs + 1) as u32) by {
                assert(vm.entries@[j].0 == j + 1);
            }
            lemma_first_idx_none(vm.entries@, (self.inputs + 1) as u32, 0);
        }
        vm.set(self.inputs + 1, SCALE);
        let ghost m0 = spec_seed(self.inputs as int, input@);
        proof {
            assert(vm.entries@ =~= m0);
        }
        let mut idx: usize = 0;
        while idx < self.nodes.len()
            invariant
                0 <= idx <= self.nodes@.len(),
                al_in_range(vm.entries@),
                spec_sweep(self.nodes@, self.conns@, m0, 0) == spec_sweep(
                    self.nodes@,
                    self.conns@,
                    vm.entries@,
                    idx as int,
                ),
            decreases self.nodes@.len() - idx,
        {
            let node = self.nodes[idx];
            match vm.get(node.innov) {
                None => {
                    proof {
                        if self.evaluable() && input@.len() == self.inputs {
                            lemma_feed_forward_total(*self, input@);
                            assert(false);
                        }
                    }
                    return Err(NeatError::MissingValue);
                },
                Some(v) => {
                    proof {
                        lemma_first_idx_bounds(vm.entries@, node.innov, 0);
                    }
                    let a = node.activate(v);
                    let ghost m_in = vm.entries@;
                    let mut j: usize = 0;
                    while j < self.conns.len()
                        invariant
                            0 <= j <= self.conns@.len(),
                            al_in_range(vm.entries@),
                            -VAL_MAX <= a <= VAL_MAX,
                            spec_propagate(self.conns@, m_in, node.innov, a, 0) == spec_propagate(
                                self.conns@,
                                vm.entries@,
                                node.innov,
                                a,
                                j as int,
                            ),
                        decreases self.conns@.len() - j,
                    {
                        let c = self.conns[j];
                        if c.from == node.innov {
                            let cur = match vm.get(c.to) {
                                Some(x) => {
                                    proof {
                                        lemma_first_idx_bounds(vm.entries@, c.to, 0);
                                    }
                                    x
                                },
                                None => 0,
                            };
                            let newv = if c.enabled {
                                sat_add(cur, mul_wt(a, c.weight))
                            } else {
                                cur
                            };
                            proof {
                                if first_idx_from(vm.entries@, c.to, 0) is Some {
                                    lemma_first_idx_bounds(vm.entries@, c.to, 0);
                                }
                            }
                            vm.set(c.to, newv);
                        }
                        j = j + 1;
                    }
                    proof {
                        assert(spec_sweep(self.nodes@, self.conns@, m_in, idx as int)
                            == spec_sweep(self.nodes@, self.conns@, vm.entries@, idx + 1));
                    }
                },
            }
            idx = idx + 1;
        }
        let ghost mfin = vm.entries@;
        let mut outs: Vec<i64> = Vec::new();
        let mut o: u32 = 0;
        while o < self.outputs
            invariant
                0 <= o <= self.outputs,
                vm.entries@ == mfin,
                al_in_range(mfin),
                outs@.len() == o,
                forall|i: int| 0 <= i < outs@.len() ==> -VAL_MAX <= #[trigger] outs@[i] <= VAL_MAX,
                forall|t: int|
                    0 <= t < o ==> #[trigger] al_get(mfin, (self.inputs + 2 + t) as u32) == Some(
                        outs@[t],
                    ),
            decreases self.outputs - o,
        {
            match vm.get(self.inputs + 2 + o) {
                Some(v) => {
                    proof {
                        lemma_first_idx_bounds(vm.entries@, (self.inputs + 2 + o) as u32, 0);
                    }
                    outs.push(v);
                },
                None => {
                    proof {
                        if self.evaluable() && input@.len() == self.inputs {
                            lemma_feed_forward_total(*self, input@);
                            assert(false);
                        }
                    }
                    return Err(NeatError::MissingValue);
                },
            }
            o = o + 1;
        }
        proof {
            let souts = spec_outputs(mfin, self.inputs, self.outputs);
            assert(forall|t: int|
                0 <= t < self.outputs ==> #[trigger] al_get(mfin, (self.inputs + 2 + t) as u32)
                    is Some);
            assert(souts == Some(
                Seq::new(
                    self.outputs as nat,
                    |t: int| al_get(mfin, (self.inputs + 2 + t) as u32)->Some_0,
                ),
            ));
            assert(outs@ =~= souts->Some_0);
        }
        Ok(outs)
    }


    /// Whether node `a` still has a legal forward target it is not yet
    /// connected to.
    fn has_to_candidate(&self, a: usize) -> (r: bool)
        requires
            a < self.nodes@.len(),
        ensures
            r <==> spec_has_legal_target(self.nodes@, self.conns@, a as int),
    {
        let mut b: usize = 0;
        while b < self.nodes.len()
            invariant
                a < self.nodes@.len(),
                0 <= b <= self.nodes@.len(),
                forall|k: int| 0 <= k < b ==> !spec_legal_pair(self.nodes@, self.conns@, a as int, k),
            decreases self.nodes@.len() - b,
        {
            if self.nodes[b].x > self.nodes[a].x && !has_pair(
                &self.conns,
                self.nodes[a].innov,
                self.nodes[b].innov,
            ) {
                proof {
                    assert(spec_legal_pair(self.nodes@, self.conns@, a as int, b as int));
                }
                return true;
            }
            b = b + 1;
        }
        false
    }

    /// Attempt to add one new connection between a uniformly chosen legal
    /// endpoint pair, with its innovation id taken from the registry and a
    /// uniform random weight on [0, 1). A saturated genome (no legal pair) is
    /// left untouched. Nodes, arity and fitness are never touched; the
    /// registry's node cursor never moves.
    #[verifier::loop_isolation(false)]
    #[verifier::rlimit(100)]
    #[verifier::spinoff_prover]
    pub fn add_conn(&mut self, hist: &mut History)
        requires
            old(self).wf(),
            old(hist).wf(),
        ensures
            final(self).wf(),
            final(hist).wf(),
            final(self).inputs == old(self).inputs,
            final(self).outputs == old(self).outputs,
            final(self).fitness == old(self).fitness,
            final(self).nodes@ == old(self).nodes@,
            final(self).conns@.len() >= old(self).conns@.len(),
            final(self).conns@.len() <= old(self).conns@.len() + 1,
            forall|k: int|
                0 <= k < old(self).conns@.len() ==> spec_has_innov(
                    final(self).conns@,
                    (#[trigger] old(self).conns@[k]).innov,
                ),
            (exists|a: int, b: int| spec_legal_pair(old(self).nodes@, old(self).conns@, a, b))
                && old(hist).next_conn_innov < u32::MAX && ids_from_registry(
                *old(self),
                *old(hist),
            ) ==> final(self).conns@.len() == old(self).conns@.len() + 1,
            final(hist).next_node_innov == old(hist).next_node_innov,
            final(hist).next_conn_innov >= old(hist).next_conn_innov,
            (!exists|a: int, b: int|
                spec_legal_pair(old(self).nodes@, old(self).conns@, a, b)) ==> final(self).conns@
                == old(self).conns@ && *final(hist) == *old(hist),
            final(self).conns@ == old(self).conns@ || exists|a: int, b: int, pos: int, c: Connection|
                {
                    &&& spec_legal_pair(old(self).nodes@, old(self).conns@, a, b)
                    &&& 0 <= pos <= old(self).conns@.len()
                    &&& c.from == old(self).nodes@[a].innov
                    &&& c.to == old(self).nodes@[b].innov
                    &&& c.enabled
                    &&& 0 <= c.weight < SCALE
                    &&& c.innov == spec_registered_innov(
                        old(hist).conn_history@,
                        old(hist).next_conn_innov,
                        c.from,
                        c.to,
                    )
                    &&& final(self).conns@ == old(self).conns@.insert(pos, c)
                },
    {
        let mut from_pool: Vec<usize> = Vec::new();
        let mut a: usize = 0;
        while a < self.nodes.len()
            invariant
                0 <= a <= self.nodes@.len(),
                *self == *old(self),
                *hist == *old(hist),
                forall|p: int|
                    0 <= p < from_pool@.len() ==> (#[trigger] from_pool@[p]) < self.nodes@.len()
                        && spec_has_legal_target(self.nodes@, self.conns@, from_pool@[p] as int),
                forall|k: int|
                    0 <= k < a && #[trigger] spec_has_legal_target(self.nodes@, self.conns@, k)
                        ==> exists|p: int|
                        0 <= p < from_pool@.len() && (#[trigger] from_pool@[p]) as int == k,
            decreases self.nodes@.len() - a,
        {
            let ghost pre = from_pool@;
            if self.has_to_candidate(a) {
                from_pool.push(a);
                proof {
                    assert forall|k: int|
                        0 <= k < a + 1 && #[trigger] spec_has_legal_target(
                            self.nodes@,
                            self.conns@,
                            k,
                        ) implies exists|p: int|
                        0 <= p < from_pool@.len() && (#[trigger] from_pool@[p]) as int == k by {
                        if k == a as int {
                            assert(from_pool@[from_pool@.len() - 1] as int == k);
                        } else {
                            let p0 = choose|p0: int|
                                0 <= p0 < pre.len() && (#[trigger] pre[p0]) as int == k;
                            assert(from_pool@[p0] as int == k);
                        }
                    }
                }
            }
            a = a + 1;
        }
        if from_pool.len() == 0 {
            proof {
                assert forall|a0: int, b0: int|
                    !spec_legal_pair(old(self).nodes@, old(self).conns@, a0, b0) by {
                    if spec_legal_pair(old(self).nodes@, old(self).conns@, a0, b0) {
                        assert(spec_has_legal_target(self.nodes@, self.conns@, a0));
                        assert(exists|p: int|
                            0 <= p < from_pool@.len() && (#[trigger] from_pool@[p]) as int == a0);
                    }
                }
                lemma_innovs_self(self.conns@);
            }
            return ;
        }
        let from_i = from_pool[crate::rng::rand_index(from_pool.len())];
        let mut to_pool: Vec<usize> = Vec::new();
        let mut b: usize = 0;
        while b < self.nodes.len()
            invariant
                0 <= b <= self.nodes@.len(),
                from_i < self.nodes@.len(),
                *self == *old(self),
                *hist == *old(hist),
                forall|p: int|
                    0 <= p < to_pool@.len() ==> (#[trigger] to_pool@[p]) < self.nodes@.len()
                        && spec_legal_pair(
                        self.nodes@,
                        self.conns@,
                        from_i as int,
                        to_pool@[p] as int,
                    ),
                forall|k: int|
                    0 <= k < b && spec_legal_pair(self.nodes@, self.conns@, from_i as int, k)
                        ==> exists|p: int|
                        0 <= p < to_pool@.len() && (#[trigger] to_pool@[p]) as int == k,
            decreases self.nodes@.len() - b,
        {
            let ghost pre = to_pool@;
            if self.nodes[b].x > self.nodes[from_i].x && !has_pair(
                &self.conns,
                self.nodes[from_i].innov,
                self.nodes[b].innov,
            ) {
                to_pool.push(b);
                proof {
                    assert(spec_legal_pair(self.nodes@, self.conns@, from_i as int, b as int));
                    assert forall|k: int|
                        0 <= k < b + 1 && spec_legal_pair(
                            self.nodes@,
                            self.conns@,
                            from_i as int,
                            k,
                        ) implies exists|p: int|
                        0 <= p < to_pool@.len() && (#[trigger] to_pool@[p]) as int == k by {
                        if k == b as int {
                            assert(to_pool@[to_pool@.len() - 1] as int == k);
                        } else {
                            let p0 = choose|p0: int|
                                0 <= p0 < pre.len() && (#[trigger] pre[p0]) as int == k;
                            assert(to_pool@[p0] as int == k);
                        }
                    }
                }
            }
            b = b + 1;
        }
        if to_pool.len() == 0 {
            proof {
                assert(spec_has_legal_target(self.nodes@, self.conns@, from_i as int));
                let b0 = choose|b0: int|
                    spec_legal_pair(self.nodes@, self.conns@, from_i as int, b0);
                assert(spec_legal_pair(self.nodes@, self.conns@, from_i as int, b0));
                assert(exists|p: int|
                    0 <= p < to_pool@.len() && (#[trigger] to_pool@[p]) as int == b0);
            }
            return ;
        }
        let to_i = to_pool[crate::rng::rand_index(to_pool.len())];
        let from_node = self.nodes[from_i];
        let to_node = self.nodes[to_i];
        if hist.next_conn_innov == u32::MAX {
            proof {
                lemma_innovs_self(self.conns@);
            }
            return ;
        }
        if from_node.innov >= hist.next_node_innov || to_node.innov >= hist.next_node_innov {
            proof {
                lemma_innovs_self(self.conns@);
                if ids_from_registry(*old(self), *old(hist)) {
                    assert(old(self).nodes@[from_i as int].innov < old(hist).next_node_innov);
                    assert(old(self).nodes@[to_i as int].innov < old(hist).next_node_innov);
                    assert(false);
                }
            }
            return ;
        }
        let ghost pre_pair_absent = !spec_has_pair(self.conns@, from_node.innov, to_node.innov);
        let innov = hist.mutate_conn(&from_node, &to_node);
        if has_conn_innov(&self.conns, innov) {
            proof {
                lemma_innovs_self(self.conns@);
                assert(spec_legal_pair(old(self).nodes@, old(self).conns@, from_i as int, to_i as int));
                if ids_from_registry(*old(self), *old(hist)) {
                    lemma_registered_innov_fresh(
                        old(hist).conn_history@,
                        old(hist).next_conn_innov,
                        old(self).conns@,
                        from_node.innov,
                        to_node.innov,
                    );
                    assert(false);
                }
            }
            return ;
        }
        let w = rand_init_weight();
        let c = Connection::new(innov, from_node.innov, to_node.innov, w, true);
        let ghost oc = self.conns@;
        let pos = insert_conn_sorted(&mut self.conns, c);
        proof {
            oc.insert_ensures(pos as int, c);
            assert(spec_legal_pair(old(self).nodes@, old(self).conns@, from_i as int, to_i as int));
            lemma_conns_wf_after_insert(self.nodes@, oc, self.conns@, pos as int, c, from_i as int, to_i as int);
            assert(oc == old(self).conns@);
            assert forall|k: int| 0 <= k < old(self).conns@.len() implies spec_has_innov(
                self.conns@,
                (#[trigger] old(self).conns@[k]).innov,
            ) by {
                if k < pos {
                    assert(self.conns@[k] == oc[k]);
                } else {
                    assert(self.conns@[k + 1] == oc[k]);
                }
            }
        }
    }


    /// Attempt to split a uniformly chosen connection with a new node: the
    /// registry hands out (or remembers) the node and connection ids, the new
    /// node sits at the layer midpoint, the incoming half has weight 1.0, the
    /// outgoing half inherits the split connection's weight, and the original
    /// is disabled in place. With no connections, or when the midpoint or the
    /// remembered ids cannot extend this genome, nothing changes.
    #[verifier::loop_isolation(false)]
    #[verifier::rlimit(100)]
    #[verifier::spinoff_prover]
    pub fn add_node(&mut self, hist: &mut History)
        requires
            old(self).wf(),
            old(hist).wf(),
        ensures
            final(self).wf(),
            final(hist).wf(),
            final(self).inputs == old(self).inputs,
            final(self).outputs == old(self).outputs,
            final(self).fitness == old(self).fitness,
            old(self).conns@.len() == 0 ==> *final(self) == *old(self) && *final(hist) == *old(
                hist,
            ),
            final(self).conns@.len() == old(self).conns@.len() || final(self).conns@.len() == old(
                self,
            ).conns@.len() + 2,
            final(self).nodes@.len() == old(self).nodes@.len() + 1 <==> final(self).conns@.len()
                == old(self).conns@.len() + 2,
            final(self).nodes@.len() == old(self).nodes@.len() || final(self).nodes@.len() == old(
                self,
            ).nodes@.len() + 1,
            forall|k: int|
                0 <= k < old(self).conns@.len() ==> spec_has_innov(
                    final(self).conns@,
                    (#[trigger] old(self).conns@[k]).innov,
                ),
            forall|k: int|
                0 <= k < old(self).nodes@.len() ==> has_node(
                    final(self).nodes@,
                    (#[trigger] old(self).nodes@[k]).innov,
                ),
            old(self).conns@.len() >= 1 && old(self).nodes@.len() < 0x1_0000_0000 && old(
                hist,
            ).next_node_innov < u32::MAX && old(hist).next_conn_innov < u32::MAX - 1
                && ids_from_registry(*old(self), *old(hist)) && all_splittable(*old(self))
                && split_ids_fresh(*old(self), *old(hist)) ==> final(self).nodes@.len() == old(
                self,
            ).nodes@.len() + 1,
            final(hist).next_node_innov >= old(hist).next_node_innov,
            final(hist).next_conn_innov >= old(hist).next_conn_innov,
            (final(self).conns@ == old(self).conns@ && final(self).nodes@ == old(self).nodes@)
                || exists|
                ci: int,
                np: int,
                p1: int,
                p2: int,
                fi: int,
                ti: int,
                n: Node,
                c1: Connection,
                c2: Connection,
            |
                {
                    &&& split_shape(
                        old(self).nodes@,
                        old(self).conns@,
                        final(self).nodes@,
                        final(self).conns@,
                        n,
                        np,
                        ci,
                        c1,
                        c2,
                        p1,
                        p2,
                        fi,
                        ti,
                    )
                    &&& n.innov == spec_split_result(
                        old(hist).conn_history@,
                        old(hist).next_node_innov,
                        old(hist).next_conn_innov,
                        c1.from,
                        c2.to,
                    ).node
                    &&& c1.innov == spec_split_result(
                        old(hist).conn_history@,
                        old(hist).next_node_innov,
                        old(hist).next_conn_innov,
                        c1.from,
                        c2.to,
                    ).in_conn
                    &&& c2.innov == spec_split_result(
                        old(hist).conn_history@,
                        old(hist).next_node_innov,
                        old(hist).next_conn_innov,
                        c1.from,
                        c2.to,
                    ).out_conn
                    &&& final(hist).conn_history@ == spec_split_seq(
                        old(hist).conn_history@,
                        old(hist).next_node_innov,
                        old(hist).next_conn_innov,
                        c1.from,
                        c2.to,
                    )
                },
    {
        if self.conns.len() == 0 {
            proof {
                lemma_innovs_self(self.conns@);
                lemma_node_ids_self(self.nodes@);
            }
            return ;
        }
        if self.nodes.len() as u64 >= 0x1_0000_0000 {
            proof {
                lemma_innovs_self(self.conns@);
                lemma_node_ids_self(self.nodes@);
            }
            return ;
        }
        let ci = crate::rng::rand_index(self.conns.len());
        let conn = self.conns[ci];
        if hist.next_node_innov == u32::MAX || hist.next_conn_innov >= u32::MAX - 1 {
            proof {
                lemma_innovs_self(self.conns@);
                lemma_node_ids_self(self.nodes@);
            }
            return ;
        }
        if conn.from >= hist.next_node_innov || conn.to >= hist.next_node_innov {
            proof {
                lemma_innovs_self(self.conns@);
                lemma_node_ids_self(self.nodes@);
                if ids_from_registry(*old(self), *old(hist)) {
                    assert(has_node(old(self).nodes@, conn.from));
                    assert(has_node(old(self).nodes@, conn.to));
                    let a = choose|a: int|
                        0 <= a < old(self).nodes@.len() && (#[trigger] old(
                            self,
                        ).nodes@[a]).innov == conn.from;
                    let b = choose|b: int|
                        0 <= b < old(self).nodes@.len() && (#[trigger] old(
                            self,
                        ).nodes@[b]).innov == conn.to;
                    assert(old(self).nodes@[a].innov < old(hist).next_node_innov);
                    assert(old(self).nodes@[b].innov < old(hist).next_node_innov);
                    assert(false);
                }
            }
            return ;
        }
        let fi = match find_node_idx(&self.nodes, conn.from) {
            Some(i) => i,
            None => {
                proof {
                    assert(has_node(self.nodes@, conn.from));
                    assert(false);
                }
                return ;
            },
        };
        let ti = match find_node_idx(&self.nodes, conn.to) {
            Some(i) => i,
            None => {
                proof {
                    assert(has_node(self.nodes@, conn.to));
                    assert(false);
                }
                return ;
            },
        };
        let fx = self.nodes[fi].x;
        let tx = self.nodes[ti].x;
        if tx < fx + 2 {
            proof {
                lemma_innovs_self(self.conns@);
                lemma_node_ids_self(self.nodes@);
                if all_splittable(*old(self)) {
                    assert(old(self).nodes@[ti as int].x >= old(self).nodes@[fi as int].x + 2);
                    assert(false);
                }
            }
            return ;
        }
        proof {
            vstd::arithmetic::div_mod::lemma_fundamental_div_mod(fx + tx, 2);
            vstd::arithmetic::div_mod::lemma_fundamental_div_mod(
                self.nodes@[fi as int].y + self.nodes@[ti as int].y,
                2,
            );
        }
        let mx = (fx + tx) / 2;
        let my = (self.nodes[fi].y + self.nodes[ti].y) / 2;
        let details = hist.mutate_node(&conn);
        proof {
            if split_ids_fresh(*old(self), *old(hist)) {
                assert(!has_node(old(self).nodes@, details.node) && !spec_has_innov(
                    old(self).conns@,
                    details.in_conn,
                ) && !spec_has_innov(old(self).conns@, details.out_conn) && details.in_conn
                    != details.out_conn);
            }
        }
        let dup_node = match find_node_idx(&self.nodes, details.node) {
            Some(i) => {
                proof {
                    assert(has_node(self.nodes@, details.node));
                }
                true
            },
            None => false,
        };
        if dup_node {
            proof {
                lemma_innovs_self(self.conns@);
                lemma_node_ids_self(self.nodes@);
            }
            return ;
        }
        if has_conn_innov(&self.conns, details.in_conn) || has_conn_innov(
            &self.conns,
            details.out_conn,
        ) || details.in_conn == details.out_conn {
            proof {
                lemma_innovs_self(self.conns@);
                lemma_node_ids_self(self.nodes@);
            }
            return ;
        }
        let new_node = Node::new(details.node, mx, my, Activations::sample());
        let ghost nodes0 = self.nodes@;
        let ghost conns0 = self.conns@;
        self.conns[ci] = Connection::new(conn.innov, conn.from, conn.to, conn.weight, false);
        proof {
            assert(self.conns@ == conns0.update(
                ci as int,
                (Connection { enabled: false, ..conns0[ci as int] }),
            ));
        }
        let np = insert_node_sorted(&mut self.nodes, new_node);
        let ghost cmid = self.conns@;
        let c1 = Connection::new(details.in_conn, conn.from, details.node, SCALE, true);
        let c2 = Connection::new(details.out_conn, details.node, conn.to, conn.weight, true);
        let p1 = insert_conn_sorted(&mut self.conns, c1);
        let ghost cins = self.conns@;
        proof {
            cmid.insert_ensures(p1 as int, c1);
            assert forall|k: int| 0 <= k < cins.len() implies (#[trigger] cins[k]).innov
                != c2.innov by {
                if k < p1 {
                    assert(cins[k] == cmid[k]);
                } else if k > p1 {
                    assert(cins[k] == cmid[k - 1]);
                }
            }
        }
        let p2 = insert_conn_sorted(&mut self.conns, c2);
        proof {
            assert(split_shape(
                nodes0,
                conns0,
                self.nodes@,
                self.conns@,
                new_node,
                np as int,
                ci as int,
                c1,
                c2,
                p1 as int,
                p2 as int,
                fi as int,
                ti as int,
            ));
            lemma_split_preserved(
                nodes0,
                conns0,
                self.nodes@,
                self.conns@,
                new_node,
                np as int,
                ci as int,
                c1,
                c2,
                p1 as int,
                p2 as int,
                fi as int,
                ti as int,
            );
        }
    }

    /// One round of mutation: each weight is perturbed or replaced with
    /// probability `wt_mut_rate`; then with probability `conn_mut_rate` a
    /// connection is added, and with probability `node_mut_rate` a node
    /// splits a connection. The genome invariants are preserved throughout.
    #[verifier::loop_isolation(false)]
    pub fn mutate(&mut self, hist: &mut History, sets: &Settings)
        requires
            old(self).wf(),
            old(hist).wf(),
            sets.wf(),
        ensures
            final(self).wf(),
            final(hist).wf(),
            final(self).inputs == old(self).inputs,
            final(self).outputs == old(self).outputs,
            final(self).fitness == old(self).fitness,
            final(self).nodes@.len() >= old(self).nodes@.len(),
            final(self).conns@.len() >= old(self).conns@.len(),
            final(self).nodes@.len() <= old(self).nodes@.len() + 1,
            final(self).conns@.len() <= old(self).conns@.len() + 3,
            forall|k: int|
                0 <= k < old(self).conns@.len() ==> spec_has_innov(
                    final(self).conns@,
                    (#[trigger] old(self).conns@[k]).innov,
                ),
            forall|k: int|
                0 <= k < old(self).nodes@.len() ==> has_node(
                    final(self).nodes@,
                    (#[trigger] old(self).nodes@[k]).innov,
                ),
            final(hist).next_node_innov >= old(hist).next_node_innov,
            final(hist).next_conn_innov >= old(hist).next_conn_innov,
    {
        let ghost conns0 = self.conns@;
        let mut k: usize = 0;
        while k < self.conns.len()
            invariant
                0 <= k <= self.conns@.len(),
                self.inputs == old(self).inputs,
                self.outputs == old(self).outputs,
                self.fitness == old(self).fitness,
                self.nodes@ == old(self).nodes@,
                *hist == *old(hist),
                self.conns@.len() == conns0.len(),
                forall|i: int|
                    0 <= i < self.conns@.len() ==> (#[trigger] self.conns@[i]).innov
                        == conns0[i].innov && self.conns@[i].from == conns0[i].from
                        && self.conns@[i].to == conns0[i].to && self.conns@[i].enabled
                        == conns0[i].enabled && -SCALE <= self.conns@[i].weight <= SCALE,
            decreases self.conns@.len() - k,
        {
            if crate::rng::chance(sets.wt_mut_rate) {
                let mut c = self.conns[k];
                c.mutate_weight(sets);
                self.conns[k] = c;
            }
            k = k + 1;
        }
        proof {
            assert(self.wf());
        }
        let ghost conns_w = self.conns@;
        let ghost nodes_w = self.nodes@;
        if crate::rng::chance(sets.conn_mut_rate) {
            self.add_conn(hist);
        }
        let ghost conns_c = self.conns@;
        let ghost nodes_c = self.nodes@;
        if crate::rng::chance(sets.node_mut_rate) {
            self.add_node(hist);
        }
        proof {
            assert forall|k: int| 0 <= k < old(self).conns@.len() implies spec_has_innov(
                self.conns@,
                (#[trigger] old(self).conns@[k]).innov,
            ) by {
                let x = old(self).conns@[k].innov;
                assert(conns_w[k].innov == x);
                assert(spec_has_innov(conns_c, x)) by {
                    if conns_c == conns_w {
                    } else {
                        assert(spec_has_innov(conns_c, conns_w[k].innov));
                    }
                }
                if self.conns@ == conns_c {
                } else {
                    let j = choose|j: int|
                        0 <= j < conns_c.len() && (#[trigger] conns_c[j]).innov == x;
                    assert(spec_has_innov(self.conns@, conns_c[j].innov));
                }
            }
            assert forall|k: int| 0 <= k < old(self).nodes@.len() implies has_node(
                self.nodes@,
                (#[trigger] old(self).nodes@[k]).innov,
            ) by {
                let x = old(self).nodes@[k].innov;
                assert(nodes_c == nodes_w && nodes_w == old(self).nodes@);
                if self.nodes@ == nodes_c {
                    assert(has_node(self.nodes@, x)) by {
                        assert(self.nodes@[k].innov == x);
                    }
                } else {
                    assert(has_node(self.nodes@, nodes_c[k].innov));
                }
            }
        }
    }


    /// The fitter parent (ties favour the first).
    pub open spec fn spec_male(p1: &Genome, p2: &Genome) -> Genome {
        if p1.fitness >= p2.fitness {
            *p1
        } else {
            *p2
        }
    }

    /// The less fit parent.
    pub open spec fn spec_female(p1: &Genome, p2: &Genome) -> Genome {
        if p1.fitness >= p2.fitness {
            *p2
        } else {
            *p1
        }
    }

    /// Recombination: the offspring carries the fitter parent's nodes and,
    /// gene for gene in the fitter parent's order, its connections. A gene
    /// whose innovation id the other parent also carries takes either
    /// parent's weight (an even coin); disjoint and excess genes come from
    /// the fitter parent only. A gene enabled in both parents stays enabled;
    /// one enabled in exactly one parent is re-enabled with probability
    /// `off_gene_on_rate`; one disabled in both with probability
    /// `off_in_both_on_rate`. The offspring's fitness starts at zero.
    #[verifier::loop_isolation(false)]
    pub fn crossover(parent1: &Genome, parent2: &Genome, sets: &Settings) -> (r: Genome)
        requires
            parent1.wf(),
            parent2.wf(),
            sets.wf(),
        ensures
            r.wf(),
            r.fitness == 0,
            r.inputs == Self::spec_male(parent1, parent2).inputs,
            r.outputs == Self::spec_male(parent1, parent2).outputs,
            r.nodes@ == Self::spec_male(parent1, parent2).nodes@,
            r.conns@.len() == Self::spec_male(parent1, parent2).conns@.len(),
            forall|k: int|
                0 <= k < r.conns@.len() ==> {
                    let mc = Self::spec_male(parent1, parent2).conns@[k];
                    &&& (#[trigger] r.conns@[k]).innov == mc.innov
                    &&& r.conns@[k].from == mc.from
                    &&& r.conns@[k].to == mc.to
                    &&& (r.conns@[k].weight == mc.weight || exists|j: int|
                        0 <= j < Self::spec_female(parent1, parent2).conns@.len() && (
                        #[trigger] Self::spec_female(parent1, parent2).conns@[j]).innov == mc.innov
                            && r.conns@[k].weight == Self::spec_female(
                            parent1,
                            parent2,
                        ).conns@[j].weight)
                    &&& (!spec_has_innov(Self::spec_female(parent1, parent2).conns@, mc.innov)
                        ==> r.conns@[k].weight == mc.weight && r.conns@[k].enabled == mc.enabled)
                },
            forall|k: int, j: int|
                0 <= k < r.conns@.len() && 0 <= j < Self::spec_female(parent1, parent2).conns@.len()
                    && (#[trigger] Self::spec_female(parent1, parent2).conns@[j]).innov == (
                #[trigger] r.conns@[k]).innov && Self::spec_male(parent1, parent2).conns@[k].enabled
                    && Self::spec_female(parent1, parent2).conns@[j].enabled ==> r.conns@[k].enabled,
            Self::spec_male(parent1, parent2).evaluable() ==> r.evaluable(),
    {
        let (male, female) = if parent1.fitness >= parent2.fitness {
            (parent1, parent2)
        } else {
            (parent2, parent1)
        };
        let mut genes: Vec<Connection> = Vec::new();
        let mut k: usize = 0;
        while k < male.conns.len()
            invariant
                0 <= k <= male.conns@.len(),
                genes@.len() == k,
                forall|i: int|
                    0 <= i < k ==> {
                        let mc = male.conns@[i];
                        &&& (#[trigger] genes@[i]).innov == mc.innov
                        &&& genes@[i].from == mc.from
                        &&& genes@[i].to == mc.to
                        &&& (genes@[i].weight == mc.weight || exists|j: int|
                            0 <= j < female.conns@.len() && (#[trigger] female.conns@[j]).innov
                                == mc.innov && genes@[i].weight == female.conns@[j].weight)
                        &&& (!spec_has_innov(female.conns@, mc.innov) ==> genes@[i].weight
                            == mc.weight && genes@[i].enabled == mc.enabled)
                    },
                forall|i: int, j: int|
                    0 <= i < k && 0 <= j < female.conns@.len() && (
                    #[trigger] female.conns@[j]).innov == (#[trigger] genes@[i]).innov
                        && male.conns@[i].enabled && female.conns@[j].enabled ==> genes@[i].enabled,
            decreases male.conns@.len() - k,
        {
            let mc = male.conns[k];
            match find_conn_by_innov(&female.conns, mc.innov) {
                Some(j) => {
                    let fc = female.conns[j];
                    let weight = if crate::rng::chance(500_000) {
                        fc.weight
                    } else {
                        mc.weight
                    };
                    let enabled = if (!fc.enabled && mc.enabled) || (!mc.enabled && fc.enabled) {
                        crate::rng::chance(sets.off_gene_on_rate)
                    } else if !fc.enabled && !mc.enabled {
                        crate::rng::chance(sets.off_in_both_on_rate)
                    } else {
                        true
                    };
                    genes.push(Connection::new(mc.innov, mc.from, mc.to, weight, enabled));
                    proof {
                        assert forall|i: int, j2: int|
                            0 <= i < k + 1 && 0 <= j2 < female.conns@.len() && (
                            #[trigger] female.conns@[j2]).innov == (#[trigger] genes@[i]).innov
                                && male.conns@[i].enabled && female.conns@[j2].enabled implies
                            genes@[i].enabled by {
                            if i == k as int {
                                assert(female.conns@[j2].innov == female.conns@[j as int].innov);
                                if j2 != j as int {
                                    assert(false);
                                }
                            }
                        }
                    }
                },
                None => {
                    genes.push(mc);
                },
            }
            k = k + 1;
        }
        let base = male.duplicate();
        let r = Genome {
            inputs: base.inputs,
            outputs: base.outputs,
            nodes: base.nodes,
            conns: genes,
            fitness: 0,
        };
        proof {
            assert(*male == Self::spec_male(parent1, parent2));
            assert(*female == Self::spec_female(parent1, parent2));
            assert(r.wf());
            if Self::spec_male(parent1, parent2).evaluable() {
                lemma_same_structure_evaluable(*male, r);
            }
        }
        r
    }


    /// HyperNEAT substrate query: treat this genome as a CPPN over the
    /// substrate's coordinate grid (spanning from -1 with spacing
    /// `(dim - 1) / 2` per axis), scale each CPPN response through the
    /// weight scaler, multiply by the source cell and accumulate into the
    /// destination cell. A 4-input CPPN takes the two cell coordinates; a
    /// 6-input CPPN additionally takes a third-parameter function of each
    /// cell, sampled once per cell before the sweep. Supplying a function to
    /// a 4-input CPPN, or none to a 6-input one, is an arity error. On
    /// success every output cell equals `spec_hyper_cell` over the input, the
    /// settings, and the recorded third-parameter grid.
    #[verifier::loop_isolation(false)]
    #[verifier::rlimit(100)]
    #[verifier::spinoff_prover]
    pub fn hyper_feed_forward<T: Fn(i64, i64) -> i64>(
        &self,
        input: HyperTensor,
        sets: &HyperSettings,
        third_param_fn: Option<T>,
    ) -> (r: Result<Vec<Vec<i64>>, NeatError>)
        requires
            self.wf(),
            self.inputs + self.outputs + 2 <= u32::MAX,
            1 <= self.outputs,
            self.inputs == 4 || self.inputs == 6,
            input.wf(),
            input.in_range(),
            input.m <= 1000,
            input.n <= 1000,
            sets.wf(),
            third_param_fn matches Some(f) ==> forall|x: i64, y: i64| #[trigger] f.requires(
                (x, y),
            ),
            third_param_fn matches Some(f) ==> forall|x: i64, y: i64, o: i64|
                #[trigger] f.ensures((x, y), o) ==> -VAL_MAX <= o <= VAL_MAX,
        ensures
            ((self.inputs == 4 && third_param_fn is Some) || (self.inputs == 6 && third_param_fn
                is None)) <==> r == Err::<Vec<Vec<i64>>, NeatError>(NeatError::HyperArity),
            match r {
                Ok(t) => t@.len() == input.m && (forall|i: int|
                    0 <= i < t@.len() ==> (#[trigger] t@[i])@.len() == input.n && forall|j: int|
                        0 <= j < t@[i]@.len() ==> -VAL_MAX <= #[trigger] t@[i]@[j] <= VAL_MAX)
                    && exists|tp: Seq<i64>|
                    {
                        &&& tp.len() == input.m * input.n
                        &&& (forall|q: int| 0 <= q < tp.len() ==> -VAL_MAX <= #[trigger] tp[q] <= VAL_MAX)
                        &&& (third_param_fn matches Some(f) ==> forall|q: int|
                            0 <= q < tp.len() ==> f.ensures(
                                (
                                    spec_hyper_coord(
                                        q % (input.n as int),
                                        ((input.n - 1) as int * SCALE) / 2,
                                    ),
                                    spec_hyper_coord(
                                        q / (input.n as int),
                                        ((input.m - 1) as int * SCALE) / 2,
                                    ),
                                ),
                                #[trigger] tp[q],
                            ))
                        &&& spec_hyper_result(
                            *self,
                            input.values@,
                            tp,
                            *sets,
                            self.inputs == 6,
                            input.m as int,
                            input.n as int,
                            t@,
                        )
                    },
                Err(e) => e == NeatError::HyperArity || e == NeatError::MissingValue,
            },
            self.evaluable() && !((self.inputs == 4 && third_param_fn is Some) || (self.inputs
                == 6 && third_param_fn is None)) ==> r is Ok,
    {
        if self.inputs == 4 && third_param_fn.is_some() {
            return Err(NeatError::HyperArity);
        }
        if self.inputs == 6 && third_param_fn.is_none() {
            return Err(NeatError::HyperArity);
        }
        let dy: i64 = ((input.m - 1) as i64 * SCALE) / 2;
        let dx: i64 = ((input.n - 1) as i64 * SCALE) / 2;
        proof {
            vstd::arithmetic::div_mod::lemma_div_pos_is_pos((input.m - 1) as i64 * SCALE, 2);
            vstd::arithmetic::div_mod::lemma_div_pos_is_pos((input.n - 1) as i64 * SCALE, 2);
            assert(input.m * input.n <= 1_000_000) by (nonlinear_arith)
                requires
                    input.m <= 1000,
                    input.n <= 1000,
            ;
        }
        let total: usize = input.m * input.n;
        let ghost six = self.inputs == 6;
        let ghost mi = input.m as int;
        let ghost ni = input.n as int;
        let mut tp: Vec<i64> = Vec::new();
        match &third_param_fn {
            Some(f) => {
                let mut q: usize = 0;
                while q < total
                    invariant
                        0 <= q <= total,
                        tp@.len() == q,
                        0 <= dy <= 500_000_000,
                        0 <= dx <= 500_000_000,
                        forall|j: int| 0 <= j < q ==> -VAL_MAX <= #[trigger] tp@[j] <= VAL_MAX,
                        forall|j: int|
                            0 <= j < q ==> f.ensures(
                                (
                                    spec_hyper_coord(j % ni, dx as int),
                                    spec_hyper_coord(j / ni, dy as int),
                                ),
                                #[trigger] tp@[j],
                            ),
                    decreases total - q,
                {
                    proof {
                        lemma_flat_index(q as int, mi, ni);
                    }
                    let y = q / input.n;
                    let x = q % input.n;
                    proof {
                        vstd::arithmetic::mul::lemma_mul_upper_bound(x as int, 1000, dx as int, 500_000_000);
                        vstd::arithmetic::mul::lemma_mul_nonnegative(x as int, dx as int);
                        vstd::arithmetic::mul::lemma_mul_upper_bound(y as int, 1000, dy as int, 500_000_000);
                        vstd::arithmetic::mul::lemma_mul_nonnegative(y as int, dy as int);
                    }
                    let xc: i64 = -SCALE + (x as i64) * dx;
                    let yc: i64 = -SCALE + (y as i64) * dy;
                    let t = f(xc, yc);
                    tp.push(t);
                    q = q + 1;
                }
            },
            None => {
                let mut q: usize = 0;
                while q < total
                    invariant
                        0 <= q <= total,
                        tp@.len() == q,
                        forall|j: int| 0 <= j < q ==> -VAL_MAX <= #[trigger] tp@[j] <= VAL_MAX,
                    decreases total - q,
                {
                    tp.push(0);
                    q = q + 1;
                }
            },
        }
        let mut res: Vec<Vec<i64>> = Vec::new();
        let mut y2: usize = 0;
        while y2 < input.m
            invariant
                0 <= y2 <= input.m,
                res@.len() == y2,
                tp@.len() == total,
                0 <= dy <= 500_000_000,
                0 <= dx <= 500_000_000,
                forall|j: int| 0 <= j < tp@.len() ==> -VAL_MAX <= #[trigger] tp@[j] <= VAL_MAX,
                forall|i: int|
                    0 <= i < res@.len() ==> (#[trigger] res@[i])@.len() == input.n && forall|j: int|
                        0 <= j < res@[i]@.len() ==> -VAL_MAX <= #[trigger] res@[i]@[j] <= VAL_MAX,
                forall|i: int, j: int|
                    0 <= i < res@.len() && 0 <= j < ni ==> res@[i]@[j]
                        == #[trigger] spec_hyper_cell(
                        *self,
                        input.values@,
                        tp@,
                        *sets,
                        six,
                        mi,
                        ni,
                        i,
                        j,
                    ),
            decreases input.m - y2,
        {
            proof {
                vstd::arithmetic::mul::lemma_mul_upper_bound(y2 as int, 1000, dy as int, 500_000_000);
                vstd::arithmetic::mul::lemma_mul_nonnegative(y2 as int, dy as int);
            }
            let y2c: i64 = -SCALE + (y2 as i64) * dy;
            let mut row: Vec<i64> = Vec::new();
            let mut x2: usize = 0;
            while x2 < input.n
                invariant
                    0 <= x2 <= input.n,
                    y2 < input.m,
                    row@.len() == x2,
                    y2c == spec_hyper_coord(y2 as int, dy as int),
                    -VAL_MAX <= y2c <= VAL_MAX,
                    forall|j: int| 0 <= j < row@.len() ==> -VAL_MAX <= #[trigger] row@[j] <= VAL_MAX,
                    forall|j: int|
                        0 <= j < row@.len() ==> row@[j] == #[trigger] spec_hyper_cell(
                            *self,
                            input.values@,
                            tp@,
                            *sets,
                            six,
                            mi,
                            ni,
                            y2 as int,
                            j,
                        ),
                decreases input.n - x2,
            {
                proof {
                    vstd::arithmetic::mul::lemma_mul_upper_bound(x2 as int, 1000, dx as int, 500_000_000);
                    vstd::arithmetic::mul::lemma_mul_nonnegative(x2 as int, dx as int);
                    lemma_cell_index(y2 as int, x2 as int, mi, ni);
                }
                let x2c: i64 = -SCALE + (x2 as i64) * dx;
                let t2 = tp[y2 * input.n + x2];
                let mut acc: i64 = 0;
                let mut q: usize = 0;
                while q < total
                    invariant
                        0 <= q <= total,
                        -VAL_MAX <= acc <= VAL_MAX,
                        y2 < input.m,
                        x2 < input.n,
                        y2c == spec_hyper_coord(y2 as int, dy as int),
                        x2c == spec_hyper_coord(x2 as int, dx as int),
                        -VAL_MAX <= y2c <= VAL_MAX,
                        -VAL_MAX <= x2c <= VAL_MAX,
                        t2 == tp@[y2 as int * ni + x2 as int],
                        spec_cell_from(
                            *self,
                            input.values@,
                            tp@,
                            *sets,
                            six,
                            mi,
                            ni,
                            dy as int,
                            dx as int,
                            y2 as int,
                            x2 as int,
                            q as int,
                            acc,
                        ) == spec_hyper_cell(
                            *self,
                            input.values@,
                            tp@,
                            *sets,
                            six,
                            mi,
                            ni,
                            y2 as int,
                            x2 as int,
                        ),
                    decreases total - q,
                {
                    proof {
                        lemma_flat_index(q as int, mi, ni);
                    }
                    let y1 = q / input.n;
                    let x1 = q % input.n;
                    proof {
                        vstd::arithmetic::mul::lemma_mul_upper_bound(x1 as int, 1000, dx as int, 500_000_000);
                        vstd::arithmetic::mul::lemma_mul_nonnegative(x1 as int, dx as int);
                        vstd::arithmetic::mul::lemma_mul_upper_bound(y1 as int, 1000, dy as int, 500_000_000);
                        vstd::arithmetic::mul::lemma_mul_nonnegative(y1 as int, dy as int);
                    }
                    let x1c: i64 = -SCALE + (x1 as i64) * dx;
                    let y1c: i64 = -SCALE + (y1 as i64) * dy;
                    let t1 = tp[q];
                    let mut cppn_in: Vec<i64> = Vec::new();
                    cppn_in.push(x1c);
                    cppn_in.push(y1c);
                    if self.inputs == 6 {
                        cppn_in.push(t1);
                        cppn_in.push(x2c);
                        cppn_in.push(y2c);
                        cppn_in.push(t2);
                    } else {
                        cppn_in.push(x2c);
                        cppn_in.push(y2c);
                    }
                    proof {
                        if six {
                            assert(cppn_in@ =~= seq![x1c, y1c, t1, x2c, y2c, t2]);
                        } else {
                            assert(cppn_in@ =~= seq![x1c, y1c, x2c, y2c]);
                        }
                    }
                    let out = match self.feed_forward(&cppn_in) {
                        Ok(v) => v,
                        Err(e) => {
                            proof {
                                assert(cppn_in@.len() == self.inputs);
                                assert(e == NeatError::MissingValue);
                                if self.evaluable() {
                                    lemma_feed_forward_total(*self, cppn_in@);
                                    assert(false);
                                }
                            }
                            return Err(NeatError::MissingValue);
                        },
                    };
                    proof {
                        assert(out@.len() == self.outputs >= 1);
                    }
                    let scaled = sets.scaled_weight(out[0]);
                    let term = mul_fx(scaled, input.values[y1][x1]);
                    let next = sat_add(acc, term);
                    proof {
                        assert(x1c == spec_hyper_coord(q as int % ni, dx as int));
                        assert(y1c == spec_hyper_coord(q as int / ni, dy as int));
                        assert(spec_hyper_query(*self, six, x1c, y1c, t1, x2c, y2c, t2)
                            == Ok::<Seq<i64>, NeatError>(out@));
                        assert(spec_cell_from(
                            *self,
                            input.values@,
                            tp@,
                            *sets,
                            six,
                            mi,
                            ni,
                            dy as int,
                            dx as int,
                            y2 as int,
                            x2 as int,
                            q as int,
                            acc,
                        ) == spec_cell_from(
                            *self,
                            input.values@,
                            tp@,
                            *sets,
                            six,
                            mi,
                            ni,
                            dy as int,
                            dx as int,
                            y2 as int,
                            x2 as int,
                            q as int + 1,
                            next,
                        ));
                    }
                    acc = next;
                    q = q + 1;
                }
                row.push(acc);
                x2 = x2 + 1;
            }
            res.push(row);
            y2 = y2 + 1;
        }
        proof {
            assert(spec_hyper_result(
                *self,
                input.values@,
                tp@,
                *sets,
                six,
                mi,
                ni,
                res@,
            ));
        }
        Ok(res)
    }

    /// A deep copy, field for field.
    pub fn duplicate(&self) -> (r: Self)
        ensures
            r.inputs == self.inputs,
            r.outputs == self.outputs,
            r.nodes@ == self.nodes@,
            r.conns@ == self.conns@,
            r.fitness == self.fitness,
    {
        let mut nodes: Vec<Node> = Vec::new();
        let mut i: usize = 0;
        while i < self.nodes.len()
            invariant
                0 <= i <= self.nodes@.len(),
                nodes@ == self.nodes@.subrange(0, i as int),
            decreases self.nodes@.len() - i,
        {
            nodes.push(self.nodes[i]);
            proof {
                assert(nodes@ == self.nodes@.subrange(0, i + 1));
            }
            i = i + 1;
        }
        let mut conns: Vec<Connection> = Vec::new();
        let mut j: usize = 0;
        while j < self.conns.len()
            invariant
                0 <= j <= self.conns@.len(),
                conns@ == self.conns@.subrange(0, j as int),
            decreases self.conns@.len() - j,
        {
            conns.push(self.conns[j]);
            proof {
                assert(conns@ == self.conns@.subrange(0, j + 1));
            }
            j = j + 1;
        }
        proof {
            assert(nodes@ == self.nodes@);
            assert(conns@ == self.conns@);
        }
        Genome {
            inputs: self.inputs,
            outputs: self.outputs,
            nodes,
            conns,
            fitness: self.fitness,
        }
    }
}

/// `(SCALE / n) * i` stays inside the unit interval for `0 <= i <= n`.
proof fn lemma_step_times_count(n: int, i: int)
    requires
        1 <= n,
        0 <= i <= n,
    ensures
        0 <= (SCALE as int / n) * i <= SCALE,
{
    let q = SCALE as int / n;
    vstd::arithmetic::div_mod::lemma_fundamental_div_mod(SCALE as int, n);
    vstd::arithmetic::div_mod::lemma_div_pos_is_pos(SCALE as int, n);
    assert(0 <= q * i && q * i <= SCALE) by (nonlinear_arith)
        requires
            0 <= q,
            0 <= i <= n,
            SCALE as int == n * q + (SCALE as int) % n,
            0 <= (SCALE as int) % n,
    ;
}

/// A layer step `SCALE / n` for `n >= 1` stays inside the unit interval.
proof fn lemma_unit_step_bounds(n: int)
    requires
        1 <= n,
    ensures
        0 <= (SCALE as int) / n <= SCALE,
{
    vstd::arithmetic::div_mod::lemma_div_is_ordered_by_denominator(SCALE as int, 1, n);
    vstd::arithmetic::div_mod::lemma_div_pos_is_pos(SCALE as int, n);
    assert((SCALE as int) / 1 == SCALE as int) by {
        vstd::arithmetic::div_mod::lemma_div_basics(SCALE as int);
    }
}


/// Inserting a connection for a legal pair keeps the connection invariants:
/// the new edge runs strictly forward between existing nodes, its endpoint
/// pair was absent, and its weight is on [-1, 1].
proof fn lemma_conns_wf_after_insert(
    nodes: Seq<Node>,
    oc: Seq<Connection>,
    nc: Seq<Connection>,
    pos: int,
    c: Connection,
    a: int,
    b: int,
)
    requires
        nodes_wf(nodes),
        conns_wf(nodes, oc),
        0 <= pos <= oc.len(),
        nc == oc.insert(pos, c),
        spec_legal_pair(nodes, oc, a, b),
        c.from == nodes[a].innov,
        c.to == nodes[b].innov,
        -SCALE <= c.weight <= SCALE,
    ensures
        forall|k: int| 0 <= k < nc.len() ==> -SCALE <= (#[trigger] nc[k]).weight <= SCALE,
        forall|i: int, j: int|
            0 <= i < j < nc.len() ==> !((#[trigger] nc[i]).from == (#[trigger] nc[j]).from
                && nc[i].to == nc[j].to),
        forall|k: int|
            0 <= k < nc.len() ==> has_node(nodes, (#[trigger] nc[k]).from) && has_node(
                nodes,
                nc[k].to,
            ),
        forall|k: int, x: int, y: int|
            0 <= k < nc.len() && 0 <= x < nodes.len() && 0 <= y < nodes.len() && (
            #[trigger] nodes[x]).innov == (#[trigger] nc[k]).from && (#[trigger] nodes[y]).innov
                == nc[k].to ==> nodes[x].x < nodes[y].x,
{
    oc.insert_ensures(pos, c);
    assert(has_node(nodes, c.from));
    assert(has_node(nodes, c.to));
    assert forall|k: int| 0 <= k < nc.len() implies (nc[k] == c || exists|k0: int|
        0 <= k0 < oc.len() && nc[k] == oc[k0]) by {
        if k < pos {
            assert(nc[k] == oc[k]);
        } else if k == pos {
        } else {
            assert(nc[k] == oc[k - 1]);
        }
    }
    assert forall|x: int, y: int|
        0 <= x < nodes.len() && 0 <= y < nodes.len() && (#[trigger] nodes[x]).innov == c.from && (
        #[trigger] nodes[y]).innov == c.to implies nodes[x].x < nodes[y].x by {
        assert(nodes[x].innov == nodes[a].innov);
        if x != a {
            assert(false);
        }
        if y != b {
            assert(false);
        }
    }
    assert forall|i: int, j: int| 0 <= i < j < nc.len() implies !((#[trigger] nc[i]).from == (
    #[trigger] nc[j]).from && nc[i].to == nc[j].to) by {
        if nc[i].from == nc[j].from && nc[i].to == nc[j].to {
            if i < pos {
                assert(nc[i] == oc[i]);
            } else if i > pos {
                assert(nc[i] == oc[i - 1]);
            }
            if j < pos {
                assert(nc[j] == oc[j]);
            } else if j > pos {
                assert(nc[j] == oc[j - 1]);
            }
            if i == pos {
                assert(nc[j] == oc[j - 1]);
                assert(!spec_has_pair(oc, c.from, c.to));
                assert(false);
            } else if j == pos {
                assert(!spec_has_pair(oc, c.from, c.to));
                assert(false);
            } else {
                assert(false);
            }
        }
    }
}


/// In a strictly innovation-sorted sequence, the id at index `i` is at least
/// the first id plus `i`.
proof fn lemma_innov_grows(conns: Seq<Connection>, i: int)
    requires
        forall|x: int, y: int|
            0 <= x < y < conns.len() ==> (#[trigger] conns[x]).innov < (#[trigger] conns[y]).innov,
        0 <= i < conns.len(),
    ensures
        conns[i].innov >= conns[0].innov + i,
    decreases i,
{
    if i > 0 {
        lemma_innov_grows(conns, i - 1);
    }
}

/// Strictly innovation-sorted connections number at most 2^32.
pub proof fn lemma_conns_len_bound(conns: Seq<Connection>)
    requires
        forall|x: int, y: int|
            0 <= x < y < conns.len() ==> (#[trigger] conns[x]).innov < (#[trigger] conns[y]).innov,
    ensures
        conns.len() <= 0x1_0000_0000,
{
    if conns.len() > 0x1_0000_0000 {
        lemma_innov_grows(conns, 0x1_0000_0000);
    }
}

/// An existing node id is still present after an insertion.
proof fn lemma_has_node_insert(nodes: Seq<Node>, n: Node, np: int, id: u32)
    requires
        0 <= np <= nodes.len(),
        has_node(nodes, id),
    ensures
        has_node(nodes.insert(np, n), id),
{
    nodes.insert_ensures(np, n);
    let k = choose|k: int| 0 <= k < nodes.len() && (#[trigger] nodes[k]).innov == id;
    if k < np {
        assert(nodes.insert(np, n)[k] == nodes[k]);
    } else {
        assert(nodes.insert(np, n)[k + 1] == nodes[k]);
    }
}

/// The shape of a node split: the fresh node `n` sits at `np` strictly
/// between the split connection's endpoints in layer order, the original
/// connection `ci` is disabled in place, and the two replacement edges,
/// both enabled, are inserted at `p1` and `p2`.
pub open spec fn split_shape(
    nodes_old: Seq<Node>,
    conns_old: Seq<Connection>,
    nodes_new: Seq<Node>,
    conns_new: Seq<Connection>,
    n: Node,
    np: int,
    ci: int,
    c1: Connection,
    c2: Connection,
    p1: int,
    p2: int,
    fi: int,
    ti: int,
) -> bool {
    &&& nodes_wf(nodes_old)
    &&& conns_wf(nodes_old, conns_old)
    &&& 0 <= np <= nodes_old.len()
    &&& nodes_new == nodes_old.insert(np, n)
    &&& !has_node(nodes_old, n.innov)
    &&& 0 <= n.x <= SCALE
    &&& 0 <= ci < conns_old.len()
    &&& c1.from == conns_old[ci].from
    &&& c1.to == n.innov
    &&& c1.weight == SCALE
    &&& c1.enabled
    &&& c2.from == n.innov
    &&& c2.to == conns_old[ci].to
    &&& c2.weight == conns_old[ci].weight
    &&& c2.enabled
    &&& 0 <= p1 <= conns_old.len()
    &&& 0 <= p2 <= conns_old.len() + 1
    &&& conns_new == conns_old.update(ci, (Connection { enabled: false, ..conns_old[ci] })).insert(
        p1,
        c1,
    ).insert(p2, c2)
    &&& 0 <= fi < nodes_old.len()
    &&& 0 <= ti < nodes_old.len()
    &&& nodes_old[fi].innov == conns_old[ci].from
    &&& nodes_old[ti].innov == conns_old[ci].to
    &&& nodes_old[fi].x < n.x
    &&& n.x < nodes_old[ti].x
    &&& n.x == (nodes_old[fi].x + nodes_old[ti].x) as int / 2
    &&& n.y == (nodes_old[fi].y + nodes_old[ti].y) as int / 2
}

/// Where each post-split connection index comes from.
#[verifier::spinoff_prover]
proof fn lemma_split_conn_elems(
    nodes_old: Seq<Node>,
    conns_old: Seq<Connection>,
    nodes_new: Seq<Node>,
    conns_new: Seq<Connection>,
    n: Node,
    np: int,
    ci: int,
    c1: Connection,
    c2: Connection,
    p1: int,
    p2: int,
    fi: int,
    ti: int,
)
    requires
        split_shape(
            nodes_old,
            conns_old,
            nodes_new,
            conns_new,
            n,
            np,
            ci,
            c1,
            c2,
            p1,
            p2,
            fi,
            ti,
        ),
    ensures
        conns_new.len() == conns_old.len() + 2,
        forall|k: int|
            0 <= k < conns_new.len() ==> ((#[trigger] conns_new[k]) == c1 || conns_new[k] == c2
                || exists|k0: int|
                0 <= k0 < conns_old.len() && (#[trigger] conns_new[k]).innov == (
                #[trigger] conns_old[k0]).innov && conns_new[k].from == conns_old[k0].from
                    && conns_new[k].to == conns_old[k0].to && conns_new[k].weight
                    == conns_old[k0].weight),
{
    let dc = Connection { enabled: false, ..conns_old[ci] };
    let cmid = conns_old.update(ci, dc);
    let cins = cmid.insert(p1, c1);
    cmid.insert_ensures(p1, c1);
    cins.insert_ensures(p2, c2);
    assert forall|k: int| 0 <= k < conns_new.len() implies ((#[trigger] conns_new[k]) == c1
        || conns_new[k] == c2 || exists|k0: int|
        0 <= k0 < conns_old.len() && (#[trigger] conns_new[k]).innov == (
        #[trigger] conns_old[k0]).innov && conns_new[k].from == conns_old[k0].from && conns_new[k].to
            == conns_old[k0].to && conns_new[k].weight == conns_old[k0].weight) by {
        if k != p2 {
            let ki = if k < p2 {
                k
            } else {
                k - 1
            };
            assert(conns_new[k] == cins[ki]);
            if ki != p1 {
                let kj = if ki < p1 {
                    ki
                } else {
                    ki - 1
                };
                assert(cins[ki] == cmid[kj]);
                if kj == ci {
                    assert(cmid[kj] == dc);
                    assert(dc.innov == conns_old[ci].innov && dc.from == conns_old[ci].from
                        && dc.to == conns_old[ci].to && dc.weight == conns_old[ci].weight);
                } else {
                    assert(cmid[kj] == conns_old[kj]);
                }
            }
        }
    }
}

/// Node invariants survive inserting a fresh node.
#[verifier::spinoff_prover]
proof fn lemma_split_nodes(nodes_old: Seq<Node>, nodes_new: Seq<Node>, n: Node, np: int)
    requires
        nodes_wf(nodes_old),
        0 <= np <= nodes_old.len(),
        nodes_new == nodes_old.insert(np, n),
        !has_node(nodes_old, n.innov),
        0 <= n.x <= SCALE,
        0 <= n.y <= SCALE,
    ensures
        forall|i: int, j: int|
            0 <= i < j < nodes_new.len() ==> (#[trigger] nodes_new[i]).innov != (
            #[trigger] nodes_new[j]).innov,
        forall|k: int| 0 <= k < nodes_new.len() ==> 0 <= (#[trigger] nodes_new[k]).x <= SCALE,
        forall|k: int| 0 <= k < nodes_new.len() ==> 0 <= (#[trigger] nodes_new[k]).y <= SCALE,
{
    nodes_old.insert_ensures(np, n);
    assert forall|i: int, j: int| 0 <= i < j < nodes_new.len() implies (
    #[trigger] nodes_new[i]).innov != (#[trigger] nodes_new[j]).innov by {
        if i < np {
            assert(nodes_new[i] == nodes_old[i]);
        } else if i > np {
            assert(nodes_new[i] == nodes_old[i - 1]);
        }
        if j < np {
            assert(nodes_new[j] == nodes_old[j]);
        } else if j > np {
            assert(nodes_new[j] == nodes_old[j - 1]);
        }
        if (i == np || j == np) && nodes_new[i].innov == nodes_new[j].innov {
            assert(has_node(nodes_old, n.innov));
        }
    }
    assert forall|k: int| 0 <= k < nodes_new.len() implies 0 <= (#[trigger] nodes_new[k]).x
        <= SCALE && 0 <= (#[trigger] nodes_new[k]).y <= SCALE by {
        if k < np {
            assert(nodes_new[k] == nodes_old[k]);
        } else if k > np {
            assert(nodes_new[k] == nodes_old[k - 1]);
        }
    }
}

/// Weights and endpoint existence survive the split.
#[verifier::spinoff_prover]
#[verifier::rlimit(40)]
proof fn lemma_split_endpoints(
    nodes_old: Seq<Node>,
    conns_old: Seq<Connection>,
    nodes_new: Seq<Node>,
    conns_new: Seq<Connection>,
    n: Node,
    np: int,
    ci: int,
    c1: Connection,
    c2: Connection,
    p1: int,
    p2: int,
    fi: int,
    ti: int,
)
    requires
        split_shape(
            nodes_old,
            conns_old,
            nodes_new,
            conns_new,
            n,
            np,
            ci,
            c1,
            c2,
            p1,
            p2,
            fi,
            ti,
        ),
    ensures
        forall|k: int|
            0 <= k < conns_new.len() ==> -SCALE <= (#[trigger] conns_new[k]).weight <= SCALE,
        forall|k: int|
            0 <= k < conns_new.len() ==> has_node(nodes_new, (#[trigger] conns_new[k]).from)
                && has_node(nodes_new, conns_new[k].to),
{
    lemma_split_conn_elems(
        nodes_old,
        conns_old,
        nodes_new,
        conns_new,
        n,
        np,
        ci,
        c1,
        c2,
        p1,
        p2,
        fi,
        ti,
    );
    nodes_old.insert_ensures(np, n);
    assert(nodes_new[np] == n);
    assert(has_node(nodes_new, n.innov));
    assert forall|k: int| 0 <= k < conns_new.len() implies -SCALE <= (
    #[trigger] conns_new[k]).weight <= SCALE && has_node(nodes_new, conns_new[k].from) && has_node(
        nodes_new,
        conns_new[k].to,
    ) by {
        if conns_new[k] == c1 {
            lemma_has_node_insert(nodes_old, n, np, c1.from);
        } else if conns_new[k] == c2 {
            lemma_has_node_insert(nodes_old, n, np, c2.to);
        } else {
            let k0 = choose|k0: int|
                0 <= k0 < conns_old.len() && (#[trigger] conns_new[k]).innov == (
                #[trigger] conns_old[k0]).innov && conns_new[k].from == conns_old[k0].from
                    && conns_new[k].to == conns_old[k0].to && conns_new[k].weight
                    == conns_old[k0].weight;
            lemma_has_node_insert(nodes_old, n, np, conns_old[k0].from);
            lemma_has_node_insert(nodes_old, n, np, conns_old[k0].to);
        }
    }
}

/// Strict forward layering survives the split.
#[verifier::spinoff_prover]
#[verifier::rlimit(60)]
proof fn lemma_split_forward(
    nodes_old: Seq<Node>,
    conns_old: Seq<Connection>,
    nodes_new: Seq<Node>,
    conns_new: Seq<Connection>,
    n: Node,
    np: int,
    ci: int,
    c1: Connection,
    c2: Connection,
    p1: int,
    p2: int,
    fi: int,
    ti: int,
)
    requires
        split_shape(
            nodes_old,
            conns_old,
            nodes_new,
            conns_new,
            n,
            np,
            ci,
            c1,
            c2,
            p1,
            p2,
            fi,
            ti,
        ),
    ensures
        forall|k: int, x: int, y: int|
            0 <= k < conns_new.len() && 0 <= x < nodes_new.len() && 0 <= y < nodes_new.len() && (
            #[trigger] nodes_new[x]).innov == (#[trigger] conns_new[k]).from && (
            #[trigger] nodes_new[y]).innov == conns_new[k].to ==> nodes_new[x].x < nodes_new[y].x,
{
    lemma_split_conn_elems(
        nodes_old,
        conns_old,
        nodes_new,
        conns_new,
        n,
        np,
        ci,
        c1,
        c2,
        p1,
        p2,
        fi,
        ti,
    );
    nodes_old.insert_ensures(np, n);
    assert forall|k: int, x: int, y: int|
        0 <= k < conns_new.len() && 0 <= x < nodes_new.len() && 0 <= y < nodes_new.len() && (
        #[trigger] nodes_new[x]).innov == (#[trigger] conns_new[k]).from && (
        #[trigger] nodes_new[y]).innov == conns_new[k].to implies nodes_new[x].x
        < nodes_new[y].x by {
        let xo = if x < np {
            x
        } else {
            x - 1
        };
        let yo = if y < np {
            y
        } else {
            y - 1
        };
        if x != np {
            assert(nodes_new[x] == nodes_old[xo]);
        }
        if y != np {
            assert(nodes_new[y] == nodes_old[yo]);
        }
        if conns_new[k] == c1 {
            assert(x != np);
            assert(y == np) by {
                if y != np {
                    assert(nodes_old[yo].innov == n.innov);
                    assert(has_node(nodes_old, n.innov));
                }
            }
            assert(nodes_old[xo].x == nodes_old[fi].x) by {
                if xo != fi {
                    assert(nodes_old[xo].innov != nodes_old[fi].innov);
                }
            }
        } else if conns_new[k] == c2 {
            assert(y != np);
            assert(x == np) by {
                if x != np {
                    assert(has_node(nodes_old, n.innov));
                }
            }
            assert(nodes_old[yo].x == nodes_old[ti].x) by {
                if yo != ti {
                    assert(nodes_old[yo].innov != nodes_old[ti].innov);
                }
            }
        } else {
            let k0 = choose|k0: int|
                0 <= k0 < conns_old.len() && (#[trigger] conns_new[k]).innov == (
                #[trigger] conns_old[k0]).innov && conns_new[k].from == conns_old[k0].from
                    && conns_new[k].to == conns_old[k0].to && conns_new[k].weight
                    == conns_old[k0].weight;
            assert(x != np && y != np) by {
                if x == np || y == np {
                    assert(has_node(nodes_old, n.innov));
                }
            }
        }
    }
}

/// Endpoint pairs stay distinct across the split: the fresh node id appears
/// in no old connection, and each old connection survives exactly once.
#[verifier::spinoff_prover]
#[verifier::rlimit(60)]
proof fn lemma_split_pairs(
    nodes_old: Seq<Node>,
    conns_old: Seq<Connection>,
    nodes_new: Seq<Node>,
    conns_new: Seq<Connection>,
    n: Node,
    np: int,
    ci: int,
    c1: Connection,
    c2: Connection,
    p1: int,
    p2: int,
    fi: int,
    ti: int,
)
    requires
        split_shape(
            nodes_old,
            conns_old,
            nodes_new,
            conns_new,
            n,
            np,
            ci,
            c1,
            c2,
            p1,
            p2,
            fi,
            ti,
        ),
    ensures
        forall|i: int, j: int|
            0 <= i < j < conns_new.len() ==> !((#[trigger] conns_new[i]).from == (
            #[trigger] conns_new[j]).from && conns_new[i].to == conns_new[j].to),
{
    let dc = Connection { enabled: false, ..conns_old[ci] };
    let cmid = conns_old.update(ci, dc);
    let cins = cmid.insert(p1, c1);
    cmid.insert_ensures(p1, c1);
    cins.insert_ensures(p2, c2);
    assert forall|i: int, j: int| 0 <= i < j < conns_new.len() implies !((
    #[trigger] conns_new[i]).from == (#[trigger] conns_new[j]).from && conns_new[i].to
        == conns_new[j].to) by {
        if conns_new[i].from == conns_new[j].from && conns_new[i].to == conns_new[j].to {
            let ii = if i < p2 {
                i
            } else {
                i - 1
            };
            let jj = if j < p2 {
                j
            } else {
                j - 1
            };
            if i != p2 {
                assert(conns_new[i] == cins[ii]);
            }
            if j != p2 {
                assert(conns_new[j] == cins[jj]);
            }
            let io = if ii < p1 {
                ii
            } else {
                ii - 1
            };
            let jo = if jj < p1 {
                jj
            } else {
                jj - 1
            };
            if i != p2 && ii != p1 {
                assert(cins[ii] == cmid[io]);
                assert(cmid[io].from == conns_old[io].from && cmid[io].to == conns_old[io].to);
                assert(has_node(nodes_old, conns_old[io].from));
                assert(has_node(nodes_old, conns_old[io].to));
            }
            if j != p2 && jj != p1 {
                assert(cins[jj] == cmid[jo]);
                assert(cmid[jo].from == conns_old[jo].from && cmid[jo].to == conns_old[jo].to);
                assert(has_node(nodes_old, conns_old[jo].from));
                assert(has_node(nodes_old, conns_old[jo].to));
            }
            // any connection touching the fresh node is c1 or c2; c1 and c2
            // differ in both endpoints; two old survivors with equal pairs
            // must be the same old index, impossible for i < j
            assert(false);
        }
    }
}
/// Everything the genome invariants need after a split, plus preservation of
/// every old gene innovation and node id, derived in one place from the split
/// shape.
#[verifier::spinoff_prover]
#[verifier::rlimit(100)]
proof fn lemma_split_preserved(
    nodes_old: Seq<Node>,
    conns_old: Seq<Connection>,
    nodes_new: Seq<Node>,
    conns_new: Seq<Connection>,
    n: Node,
    np: int,
    ci: int,
    c1: Connection,
    c2: Connection,
    p1: int,
    p2: int,
    fi: int,
    ti: int,
)
    requires
        split_shape(
            nodes_old,
            conns_old,
            nodes_new,
            conns_new,
            n,
            np,
            ci,
            c1,
            c2,
            p1,
            p2,
            fi,
            ti,
        ),
    ensures
        forall|i: int, j: int|
            0 <= i < j < nodes_new.len() ==> (#[trigger] nodes_new[i]).innov != (
            #[trigger] nodes_new[j]).innov,
        forall|k: int| 0 <= k < nodes_new.len() ==> 0 <= (#[trigger] nodes_new[k]).x <= SCALE,
        forall|k: int| 0 <= k < nodes_new.len() ==> 0 <= (#[trigger] nodes_new[k]).y <= SCALE,
        forall|k: int| 0 <= k < conns_new.len() ==> -SCALE <= (#[trigger] conns_new[k]).weight <= SCALE,
        forall|i: int, j: int|
            0 <= i < j < conns_new.len() ==> !((#[trigger] conns_new[i]).from == (
            #[trigger] conns_new[j]).from && conns_new[i].to == conns_new[j].to),
        forall|k: int|
            0 <= k < conns_new.len() ==> has_node(nodes_new, (#[trigger] conns_new[k]).from)
                && has_node(nodes_new, conns_new[k].to),
        forall|k: int, x: int, y: int|
            0 <= k < conns_new.len() && 0 <= x < nodes_new.len() && 0 <= y < nodes_new.len() && (
            #[trigger] nodes_new[x]).innov == (#[trigger] conns_new[k]).from && (
            #[trigger] nodes_new[y]).innov == conns_new[k].to ==> nodes_new[x].x < nodes_new[y].x,
        forall|k: int|
            0 <= k < conns_old.len() ==> spec_has_innov(
                conns_new,
                (#[trigger] conns_old[k]).innov,
            ),
        forall|k: int|
            0 <= k < nodes_old.len() ==> has_node(nodes_new, (#[trigger] nodes_old[k]).innov),
{
    let dc = Connection { enabled: false, ..conns_old[ci] };
    let cmid = conns_old.update(ci, dc);
    let cins = cmid.insert(p1, c1);
    proof_split_node_y_bounds(nodes_old, n, fi, ti);
    lemma_split_nodes(nodes_old, nodes_new, n, np);
    lemma_split_conn_elems(
        nodes_old,
        conns_old,
        nodes_new,
        conns_new,
        n,
        np,
        ci,
        c1,
        c2,
        p1,
        p2,
        fi,
        ti,
    );
    lemma_split_endpoints(
        nodes_old,
        conns_old,
        nodes_new,
        conns_new,
        n,
        np,
        ci,
        c1,
        c2,
        p1,
        p2,
        fi,
        ti,
    );
    lemma_split_forward(
        nodes_old,
        conns_old,
        nodes_new,
        conns_new,
        n,
        np,
        ci,
        c1,
        c2,
        p1,
        p2,
        fi,
        ti,
    );
    lemma_split_pairs(
        nodes_old,
        conns_old,
        nodes_new,
        conns_new,
        n,
        np,
        ci,
        c1,
        c2,
        p1,
        p2,
        fi,
        ti,
    );
    cmid.insert_ensures(p1, c1);
    cins.insert_ensures(p2, c2);
    nodes_old.insert_ensures(np, n);
    assert forall|k: int| 0 <= k < conns_old.len() implies spec_has_innov(
        conns_new,
        (#[trigger] conns_old[k]).innov,
    ) by {
        assert(cmid[k].innov == conns_old[k].innov);
        let k1 = if k < p1 {
            k
        } else {
            k + 1
        };
        assert(cins[k1] == cmid[k]);
        let k2 = if k1 < p2 {
            k1
        } else {
            k1 + 1
        };
        assert(conns_new[k2] == cins[k1]);
        assert(conns_new[k2].innov == conns_old[k].innov);
    }
    assert forall|k: int| 0 <= k < nodes_old.len() implies has_node(
        nodes_new,
        (#[trigger] nodes_old[k]).innov,
    ) by {
        let k2 = if k < np {
            k
        } else {
            k + 1
        };
        assert(nodes_new[k2] == nodes_old[k]);
    }
}

/// A midpoint of two unit-interval coordinates stays in the unit interval.
proof fn proof_split_node_y_bounds(nodes_old: Seq<Node>, n: Node, fi: int, ti: int)
    requires
        nodes_wf(nodes_old),
        0 <= fi < nodes_old.len(),
        0 <= ti < nodes_old.len(),
        n.y == (nodes_old[fi].y + nodes_old[ti].y) as int / 2,
    ensures
        0 <= n.y <= SCALE,
{
    let a = nodes_old[fi].y as int;
    let b = nodes_old[ti].y as int;
    vstd::arithmetic::div_mod::lemma_fundamental_div_mod(a + b, 2);
    vstd::arithmetic::div_mod::lemma_div_pos_is_pos(a + b, 2);
}

/// The row-major seed connections are well formed over the seed nodes: ids
/// resolve, pairs are distinct, and every edge runs from the input layer to
/// the output layer.
proof fn lemma_seed_conns_wf(nodes: Seq<Node>, conns: Seq<Connection>, inputs: int, outputs: int)
    requires
        1 <= inputs,
        1 <= outputs,
        nodes.len() == inputs + outputs + 1,
        forall|k: int| 0 <= k < nodes.len() ==> (#[trigger] nodes[k]).innov == k + 1,
        forall|k: int|
            0 <= k < nodes.len() ==> (#[trigger] nodes[k]).x == (if k < inputs + 1 {
                0int
            } else {
                SCALE as int
            }),
        conns.len() == (inputs + 1) * outputs,
        forall|k: int|
            0 <= k < conns.len() ==> (#[trigger] conns[k]).innov == k + 1 && conns[k].from == 1 + k
                / outputs && conns[k].to == inputs + 2 + k % outputs && -SCALE <= conns[k].weight
                <= SCALE,
    ensures
        conns_wf(nodes, conns),
{
    assert forall|k: int| 0 <= k < conns.len() implies 1 <= (#[trigger] conns[k]).from <= inputs
        + 1 && inputs + 2 <= conns[k].to <= inputs + outputs + 1 by {
        vstd::arithmetic::div_mod::lemma_fundamental_div_mod(k, outputs);
        assert(0 <= k / outputs <= inputs) by (nonlinear_arith)
            requires
                0 <= k < (inputs + 1) * outputs,
                1 <= outputs,
                k == outputs * (k / outputs) + (k % outputs),
                0 <= k % outputs < outputs,
        ;
    }
    assert forall|k: int| 0 <= k < conns.len() implies has_node(
        nodes,
        (#[trigger] conns[k]).from,
    ) && has_node(nodes, conns[k].to) by {
        let f = conns[k].from as int;
        let t = conns[k].to as int;
        assert(nodes[f - 1].innov == conns[k].from);
        assert(nodes[t - 1].innov == conns[k].to);
    }
    assert forall|i: int, j: int| 0 <= i < j < conns.len() implies !((#[trigger] conns[i]).from == (
    #[trigger] conns[j]).from && conns[i].to == conns[j].to) by {
        if conns[i].from == conns[j].from && conns[i].to == conns[j].to {
            vstd::arithmetic::div_mod::lemma_fundamental_div_mod(i, outputs);
            vstd::arithmetic::div_mod::lemma_fundamental_div_mod(j, outputs);
            assert(i / outputs == j / outputs && i % outputs == j % outputs);
            assert(false);
        }
    }
}

} // verus!
