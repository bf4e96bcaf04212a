//! The process-local innovation registry: a monotone allocator that gives
//! structural mutations stable innovation numbers, so that semantically
//! identical mutations performed on different genomes in one run share ids.

use vstd::prelude::*;
use crate::connection::Connection;
use crate::node::Node;

verus! {

/// One historical connection record: which innovation id was assigned to the
/// directed endpoint pair.
pub struct HistConnection {
    pub innov: u32,
    pub from: u32,
    pub to: u32,
}

impl HistConnection {
    pub fn new(innov: u32, from: u32, to: u32) -> (r: Self)
        ensures
            r == (HistConnection { innov, from, to }),
    {
        HistConnection { innov, from, to }
    }
}

/// The ids handed out for a node split: the new (or remembered) node and its
/// incoming and outgoing connection innovations.
pub struct NodeMut {
    pub node: u32,
    pub in_conn: u32,
    pub out_conn: u32,
}

impl NodeMut {
    pub fn new(node: u32, in_conn: u32, out_conn: u32) -> (r: Self)
        ensures
            r == (NodeMut { node, in_conn, out_conn }),
    {
        NodeMut { node, in_conn, out_conn }
    }
}

/// The first index at or after `i` whose record joins `from` to `to`.
pub open spec fn find_conn_from(h: Seq<HistConnection>, from: u32, to: u32, i: int) -> Option<int>
    decreases h.len() - i,
{
    if i < 0 || i >= h.len() {
        None
    } else if h[i].from == from && h[i].to == to {
        Some(i)
    } else {
        find_conn_from(h, from, to, i + 1)
    }
}

/// The first index at or after `j` whose record joins `mid` to `to`.
pub open spec fn find_out_from(h: Seq<HistConnection>, mid: u32, to: u32, j: int) -> Option<int>
    decreases h.len() - j,
{
    if j < 0 || j >= h.len() {
        None
    } else if h[j].to == to && h[j].from == mid {
        Some(j)
    } else {
        find_out_from(h, mid, to, j + 1)
    }
}

/// The first pair of records `(i, j)` witnessing an existing split of the
/// edge `from -> to`: record `i` leaves `from` for some midpoint, and record
/// `j` continues from that midpoint to `to`. The outer index is minimal, and
/// the inner index is minimal for it.
pub open spec fn find_pair_from(h: Seq<HistConnection>, from: u32, to: u32, i: int) -> Option<
    (int, int),
>
    decreases h.len() - i,
{
    if i < 0 || i >= h.len() {
        None
    } else if h[i].from == from && find_out_from(h, h[i].to, to, 0) is Some {
        Some((i, find_out_from(h, h[i].to, to, 0)->Some_0))
    } else {
        find_pair_from(h, from, to, i + 1)
    }
}

/// A found connection index is in bounds and matches the endpoints.
pub proof fn lemma_find_conn_some(h: Seq<HistConnection>, from: u32, to: u32, i: int)
    requires
        0 <= i <= h.len(),
        find_conn_from(h, from, to, i) is Some,
    ensures
        i <= find_conn_from(h, from, to, i)->Some_0 < h.len(),
        h[find_conn_from(h, from, to, i)->Some_0].from == from,
        h[find_conn_from(h, from, to, i)->Some_0].to == to,
    decreases h.len() - i,
{
    if i < h.len() && !(h[i].from == from && h[i].to == to) {
        lemma_find_conn_some(h, from, to, i + 1);
    }
}

/// The innovation id `register` hands out for the edge `from -> to` on a
/// registry whose records are `h` and whose connection cursor is `nc`.
pub open spec fn spec_registered_innov(h: Seq<HistConnection>, nc: u32, from: u32, to: u32) -> u32 {
    match find_conn_from(h, from, to, 0) {
        Some(i) => h[i].innov,
        None => nc,
    }
}

/// The record sequence after `register` of the edge `from -> to`.
pub open spec fn spec_registered_seq(h: Seq<HistConnection>, nc: u32, from: u32, to: u32) -> Seq<
    HistConnection,
> {
    match find_conn_from(h, from, to, 0) {
        Some(i) => h,
        None => h.push(HistConnection { innov: nc, from, to }),
    }
}

/// The ids a node split of the edge `from -> to` hands out, on a registry
/// with node cursor `nn` and connection cursor `nc`.
pub open spec fn spec_split_result(
    h: Seq<HistConnection>,
    nn: u32,
    nc: u32,
    from: u32,
    to: u32,
) -> NodeMut {
    match find_pair_from(h, from, to, 0) {
        Some((i, j)) => NodeMut { node: h[i].to, in_conn: h[i].innov, out_conn: h[j].innov },
        None => NodeMut { node: nn, in_conn: nc, out_conn: (nc + 1) as u32 },
    }
}

/// The record sequence after a node split of the edge `from -> to`.
pub open spec fn spec_split_seq(
    h: Seq<HistConnection>,
    nn: u32,
    nc: u32,
    from: u32,
    to: u32,
) -> Seq<HistConnection> {
    match find_pair_from(h, from, to, 0) {
        Some(_) => h,
        None => h.push(HistConnection { innov: nc, from, to: nn }).push(
            HistConnection { innov: (nc + 1) as u32, from: nn, to },
        ),
    }
}

/// The freshly seeded registry for a fully connected topology: one record
/// per input-or-bias and output pair in row-major innovation order, with the
/// cursors just past the seed ids.
pub open spec fn is_seeded_registry(h: History, inputs: u32, outputs: u32) -> bool {
    &&& h.next_node_innov == inputs + outputs + 2
    &&& h.next_conn_innov == (inputs + 1) * outputs + 1
    &&& h.conn_history@.len() == (inputs + 1) * outputs
    &&& forall|k: int|
        0 <= k < h.conn_history@.len() ==> #[trigger] h.conn_history@[k] == (HistConnection {
            innov: (k + 1) as u32,
            from: (1 + k / (outputs as int)) as u32,
            to: (inputs + 2 + k % (outputs as int)) as u32,
        })
}

/// The registry. `conn_history` remembers every connection ever assigned an
/// id; the two cursors are the next node and connection innovation numbers.
pub struct History {
    pub conn_history: Vec<HistConnection>,
    pub next_node_innov: u32,
    pub next_conn_innov: u32,
}

impl History {
    /// Record innovations are distinct and below the connection cursor, and
    /// every endpoint ever recorded is below the node cursor.
    pub open spec fn wf(&self) -> bool {
        &&& forall|k: int|
            0 <= k < self.conn_history@.len() ==> (#[trigger] self.conn_history@[k]).innov
                < self.next_conn_innov
        &&& forall|k: int|
            0 <= k < self.conn_history@.len() ==> (#[trigger] self.conn_history@[k]).from
                < self.next_node_innov && self.conn_history@[k].to < self.next_node_innov
        &&& forall|k1: int, k2: int|
            0 <= k1 < k2 < self.conn_history@.len() ==> (#[trigger] self.conn_history@[k1]).innov
                != (#[trigger] self.conn_history@[k2]).innov
    }

    /// A fresh registry for a fully connected seed topology: one record per
    /// input-or-bias to output pair, numbered 1 upward in row-major order
    /// (record k joins input 1 + k/outputs to output inputs + 2 + k%outputs),
    /// with the node cursor just past the seed node ids and the connection
    /// cursor just past the seed records.
    pub fn new(inputs: u32, outputs: u32) -> (r: Self)
        requires
            1 <= inputs,
            1 <= outputs,
            inputs + outputs + 2 <= u32::MAX,
            (inputs + 1) * outputs + 1 <= u32::MAX,
        ensures
            r.wf(),
            is_seeded_registry(r, inputs, outputs),
            r.next_node_innov == inputs + outputs + 2,
            r.next_conn_innov == (inputs + 1) * outputs + 1,
            r.conn_history@.len() == (inputs + 1) * outputs,
            forall|k: int|
                0 <= k < r.conn_history@.len() ==> #[trigger] r.conn_history@[k]
                    == (HistConnection {
                    innov: (k + 1) as u32,
                    from: (1 + k / (outputs as int)) as u32,
                    to: (inputs + 2 + k % (outputs as int)) as u32,
                }),
    {
        let ghost n_out = outputs as int;
        let mut records: Vec<HistConnection> = Vec::new();
        let mut inp: u32 = 1;
        while inp <= inputs + 1
            invariant
                1 <= inp <= inputs + 2,
                1 <= inputs,
                1 <= outputs,
                inputs + outputs + 2 <= u32::MAX,
                (inputs + 1) * outputs + 1 <= u32::MAX,
                n_out == outputs as int,
                records@.len() == (inp - 1) * n_out,
                forall|k: int|
                    0 <= k < records@.len() ==> #[trigger] records@[k] == (HistConnection {
                        innov: (k + 1) as u32,
                        from: (1 + k / n_out) as u32,
                        to: (inputs + 2 + k % n_out) as u32,
                    }),
                forall|k: int|
                    0 <= k < records@.len() ==> 1 <= (#[trigger] records@[k]).from <= inputs + 1
                        && inputs + 2 <= records@[k].to < inputs + outputs + 2,
            decreases inputs + 2 - inp,
        {
            proof {
                assert((inp - 1) * n_out + n_out == ((inp + 1) - 1) * n_out) by (nonlinear_arith);
                assert(0 <= (inp - 1) * n_out && (inp as int) * n_out <= (inputs + 1) * n_out)
                    by (nonlinear_arith)
                    requires
                        1 <= inp as int <= inputs + 1,
                        n_out >= 1,
                ;
            }
            let mut out: u32 = inputs + 2;
            while out < inputs + outputs + 2
                invariant
                    1 <= inp <= inputs + 1,
                    inputs + 2 <= out <= inputs + outputs + 2,
                    1 <= inputs,
                    1 <= outputs,
                    inputs + outputs + 2 <= u32::MAX,
                    (inputs + 1) * outputs + 1 <= u32::MAX,
                    n_out == outputs as int,
                    0 <= (inp - 1) * n_out,
                    (inp as int) * n_out <= (inputs + 1) * n_out,
                    (inp - 1) * n_out + n_out == (inp as int) * n_out,
                    (inputs + 1) * n_out == (inputs + 1) * outputs,
                    records@.len() == (inp - 1) * n_out + (out - (inputs + 2)),
                    forall|k: int|
                        0 <= k < records@.len() ==> #[trigger] records@[k] == (HistConnection {
                            innov: (k + 1) as u32,
                            from: (1 + k / n_out) as u32,
                            to: (inputs + 2 + k % n_out) as u32,
                        }),
                    forall|k: int|
                        0 <= k < records@.len() ==> 1 <= (#[trigger] records@[k]).from <= inputs
                            + 1 && inputs + 2 <= records@[k].to < inputs + outputs + 2,
                decreases inputs + outputs + 2 - out,
            {
                proof {
                    vstd::arithmetic::div_mod::lemma_fundamental_div_mod_converse(
                        records@.len() as int,
                        n_out,
                        inp - 1,
                        out - (inputs + 2),
                    );
                }
                let innov: u32 = (records.len() + 1) as u32;
                records.push(HistConnection { innov, from: inp, to: out });
                out = out + 1;
            }
            inp = inp + 1;
        }
        proof {
            assert((inputs + 2 - 1) * n_out == (inputs + 1) * n_out) by (nonlinear_arith);
        }
        History {
            conn_history: records,
            next_node_innov: inputs + outputs + 2,
            next_conn_innov: (inputs + 1) * outputs + 1,
        }
    }

    /// If a record with these endpoints exists, return its id and leave the
    /// registry unchanged; otherwise allocate the next connection innovation,
    /// append the record, and return the fresh id.
    pub fn mutate_conn(&mut self, from: &Node, to: &Node) -> (r: u32)
        requires
            old(self).wf(),
            old(self).next_conn_innov < u32::MAX,
            from.innov < old(self).next_node_innov,
            to.innov < old(self).next_node_innov,
        ensures
            final(self).wf(),
            r == spec_registered_innov(
                old(self).conn_history@,
                old(self).next_conn_innov,
                from.innov,
                to.innov,
            ),
            final(self).conn_history@ == spec_registered_seq(
                old(self).conn_history@,
                old(self).next_conn_innov,
                from.innov,
                to.innov,
            ),
            final(self).next_node_innov == old(self).next_node_innov,
            find_conn_from(old(self).conn_history@, from.innov, to.innov, 0) is Some
                ==> final(self).next_conn_innov == old(self).next_conn_innov,
            find_conn_from(old(self).conn_history@, from.innov, to.innov, 0) is None
                ==> final(self).next_conn_innov == old(self).next_conn_innov + 1,
    {
        let ghost h = self.conn_history@;
        let mut i: usize = 0;
        while i < self.conn_history.len()
            invariant
                0 <= i <= h.len(),
                *self == *old(self),
                old(self).wf(),
                old(self).next_conn_innov < u32::MAX,
                from.innov < old(self).next_node_innov,
                to.innov < old(self).next_node_innov,
                self.conn_history@ == h,
                find_conn_from(h, from.innov, to.innov, 0) == find_conn_from(
                    h,
                    from.innov,
                    to.innov,
                    i as int,
                ),
            decreases h.len() - i,
        {
            let rec = &self.conn_history[i];
            if rec.from == from.innov && rec.to == to.innov {
                return rec.innov;
            }
            i = i + 1;
        }
        let res = self.next_conn_innov;
        self.next_conn_innov = self.next_conn_innov + 1;
        self.conn_history.push(HistConnection { innov: res, from: from.innov, to: to.innov });
        res
    }

    /// The first index whose record joins `mid` to `to`, scanning forward.
    fn find_out_idx(&self, mid: u32, to: u32) -> (r: Option<usize>)
        ensures
            match r {
                Some(j) => j < self.conn_history@.len() && find_out_from(
                    self.conn_history@,
                    mid,
                    to,
                    0,
                ) == Some(j as int),
                None => find_out_from(self.conn_history@, mid, to, 0) is None,
            },
    {
        let ghost h = self.conn_history@;
        let mut j: usize = 0;
        while j < self.conn_history.len()
            invariant
                0 <= j <= h.len(),
                self.conn_history@ == h,
                find_out_from(h, mid, to, 0) == find_out_from(h, mid, to, j as int),
            decreases h.len() - j,
        {
            let rec = &self.conn_history[j];
            if rec.to == to && rec.from == mid {
                return Some(j);
            }
            j = j + 1;
        }
        None
    }

    /// Look for an existing split of this connection's endpoints: a recorded
    /// edge out of `conn.from` whose midpoint has a recorded edge into
    /// `conn.to`. If found, return those remembered ids and leave the
    /// registry unchanged; otherwise allocate a node id and two connection
    /// ids, record both halves, and return the fresh ids.
    pub fn mutate_node(&mut self, conn: &Connection) -> (r: NodeMut)
        requires
            old(self).wf(),
            old(self).next_conn_innov < u32::MAX - 1,
            old(self).next_node_innov < u32::MAX,
            conn.from < old(self).next_node_innov,
            conn.to < old(self).next_node_innov,
        ensures
            final(self).wf(),
            r == spec_split_result(
                old(self).conn_history@,
                old(self).next_node_innov,
                old(self).next_conn_innov,
                conn.from,
                conn.to,
            ),
            final(self).conn_history@ == spec_split_seq(
                old(self).conn_history@,
                old(self).next_node_innov,
                old(self).next_conn_innov,
                conn.from,
                conn.to,
            ),
            find_pair_from(old(self).conn_history@, conn.from, conn.to, 0) is Some ==> *final(self)
                == *old(self),
            find_pair_from(old(self).conn_history@, conn.from, conn.to, 0) is None
                ==> final(self).next_node_innov == old(self).next_node_innov + 1
                && final(self).next_conn_innov == old(self).next_conn_innov + 2,
            r.node < final(self).next_node_innov,
    {
        let ghost h = self.conn_history@;
        let mut i: usize = 0;
        while i < self.conn_history.len()
            invariant
                0 <= i <= h.len(),
                self.conn_history@ == h,
                *self == *old(self),
                old(self).wf(),
                old(self).next_conn_innov < u32::MAX - 1,
                old(self).next_node_innov < u32::MAX,
                conn.from < old(self).next_node_innov,
                conn.to < old(self).next_node_innov,
                find_pair_from(h, conn.from, conn.to, 0) == find_pair_from(
                    h,
                    conn.from,
                    conn.to,
                    i as int,
                ),
            decreases h.len() - i,
        {
            let mid = self.conn_history[i].to;
            if self.conn_history[i].from == conn.from {
                match self.find_out_idx(mid, conn.to) {
                    Some(j) => {
                        return NodeMut {
                            node: mid,
                            in_conn: self.conn_history[i].innov,
                            out_conn: self.conn_history[j].innov,
                        };
                    },
                    None => {},
                }
            }
            i = i + 1;
        }
        let new_node = self.next_node_innov;
        self.next_node_innov = self.next_node_innov + 1;
        let in_innov = self.next_conn_innov;
        let out_innov = self.next_conn_innov + 1;
        self.next_conn_innov = self.next_conn_innov + 2;
        self.conn_history.push(HistConnection { innov: in_innov, from: conn.from, to: new_node });
        self.conn_history.push(HistConnection { innov: out_innov, from: new_node, to: conn.to });
        NodeMut { node: new_node, in_conn: in_innov, out_conn: out_innov }
    }
}


/// Pushing a record that joins `from` to `to` onto a registry that has no
/// such record makes it the first match.
proof fn lemma_find_conn_push(h: Seq<HistConnection>, c: HistConnection, from: u32, to: u32, i: int)
    requires
        0 <= i <= h.len(),
        find_conn_from(h, from, to, i) is None,
        c.from == from,
        c.to == to,
    ensures
        find_conn_from(h.push(c), from, to, i) == Some(h.len() as int),
    decreases h.len() - i,
{
    let h2 = h.push(c);
    if i == h.len() {
        assert(h2[i] == c);
    } else {
        assert(h2[i] == h[i]);
        lemma_find_conn_push(h, c, from, to, i + 1);
    }
}

/// Innovation-id reuse for connections: registering an edge and then looking
/// the same edge up again yields the id the first registration returned, so
/// two genomes adding the same connection within one run share its id.
pub proof fn lemma_innovation_reuse(h: Seq<HistConnection>, nc: u32, nc2: u32, from: u32, to: u32)
    ensures
        spec_registered_innov(spec_registered_seq(h, nc, from, to), nc2, from, to)
            == spec_registered_innov(h, nc, from, to),
{
    match find_conn_from(h, from, to, 0) {
        Some(_) => {},
        None => {
            let c = HistConnection { innov: nc, from, to };
            lemma_find_conn_push(h, c, from, to, 0);
            assert(h.push(c)[h.len() as int] == c);
        },
    }
}

/// After a fresh split appended its two records, an inner scan for an edge
/// into `to` out of any midpoint other than the new node is unchanged.
proof fn lemma_find_out_skip_new(
    h: Seq<HistConnection>,
    a: HistConnection,
    b: HistConnection,
    mid: u32,
    to: u32,
    j: int,
)
    requires
        0 <= j <= h.len(),
        a.to != to,
        b.from != mid,
    ensures
        find_out_from(h.push(a).push(b), mid, to, j) == find_out_from(h, mid, to, j),
    decreases h.len() - j,
{
    let h2 = h.push(a).push(b);
    if j == h.len() {
        reveal_with_fuel(find_out_from, 4);
        assert(h2[j] == a);
        assert(h2[j as int + 1] == b);
    } else {
        assert(h2[j] == h[j]);
        lemma_find_out_skip_new(h, a, b, mid, to, j + 1);
    }
}

/// After a fresh split appended its two records, an inner scan out of the
/// new node finds the appended outgoing record, provided no older record
/// mentions the new node.
proof fn lemma_find_out_new_node(
    h: Seq<HistConnection>,
    a: HistConnection,
    b: HistConnection,
    nn: u32,
    to: u32,
    j: int,
)
    requires
        0 <= j <= h.len(),
        forall|k: int| 0 <= k < h.len() ==> (#[trigger] h[k]).from < nn,
        a.to != to,
        b.to == to,
        b.from == nn,
    ensures
        find_out_from(h.push(a).push(b), nn, to, j) == Some(h.len() as int + 1),
    decreases h.len() - j,
{
    let h2 = h.push(a).push(b);
    if j == h.len() {
        reveal_with_fuel(find_out_from, 4);
        assert(h2[j] == a);
        assert(h2[j as int + 1] == b);
    } else {
        assert(h2[j] == h[j]);
        assert(h[j].from < nn);
        lemma_find_out_new_node(h, a, b, nn, to, j + 1);
    }
}

/// After a fresh split of `from -> to` appended its two records, the pair
/// scan finds exactly those two records.
proof fn lemma_find_pair_push(h: Seq<HistConnection>, nn: u32, nc: u32, from: u32, to: u32, i: int)
    requires
        0 <= i <= h.len(),
        find_pair_from(h, from, to, i) is None,
        forall|k: int|
            0 <= k < h.len() ==> (#[trigger] h[k]).from < nn && (#[trigger] h[k]).to < nn,
        from < nn,
        to < nn,
    ensures
        find_pair_from(
            h.push(HistConnection { innov: nc, from, to: nn }).push(
                HistConnection { innov: (nc + 1) as u32, from: nn, to },
            ),
            from,
            to,
            i,
        ) == Some((h.len() as int, h.len() as int + 1)),
    decreases h.len() - i,
{
    let a = HistConnection { innov: nc, from, to: nn };
    let b = HistConnection { innov: (nc + 1) as u32, from: nn, to };
    let h2 = h.push(a).push(b);
    if i == h.len() {
        assert(h2[i] == a);
        lemma_find_out_new_node(h, a, b, nn, to, 0);
    } else {
        assert(h2[i] == h[i]);
        if h[i].from == from {
            assert(find_out_from(h, h[i].to, to, 0) is None);
            lemma_find_out_skip_new(h, a, b, h[i].to, to, 0);
        }
        lemma_find_pair_push(h, nn, nc, from, to, i + 1);
    }
}

/// Innovation-id reuse for node splits: splitting an edge and then asking
/// for the same split again yields the node and connection ids the first
/// split handed out, whatever the cursors have moved to since, so two
/// genomes splitting the same connection within one run share all three ids.
pub proof fn lemma_split_reuse(
    h: Seq<HistConnection>,
    nn: u32,
    nc: u32,
    nn2: u32,
    nc2: u32,
    from: u32,
    to: u32,
)
    requires
        forall|k: int|
            0 <= k < h.len() ==> (#[trigger] h[k]).from < nn && (#[trigger] h[k]).to < nn,
        from < nn,
        to < nn,
    ensures
        spec_split_result(spec_split_seq(h, nn, nc, from, to), nn2, nc2, from, to)
            == spec_split_result(h, nn, nc, from, to),
{
    match find_pair_from(h, from, to, 0) {
        Some(_) => {},
        None => {
            let a = HistConnection { innov: nc, from, to: nn };
            let b = HistConnection { innov: (nc + 1) as u32, from: nn, to };
            lemma_find_pair_push(h, nn, nc, from, to, 0);
            assert(h.push(a).push(b)[h.len() as int] == a);
            assert(h.push(a).push(b)[h.len() as int + 1] == b);
        },
    }
}

} // verus!

