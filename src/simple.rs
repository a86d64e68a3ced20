use vstd::prelude::*;

use std::collections::VecDeque;

use crate::arena::Arena;
use crate::counts::{
    count_of, lemma_occurrences_unique, lemma_present_contains, lemma_present_no_duplicates, occurrences,
    present, sat_add, unique_rows, Counts,
};
use crate::delta::{
    as_deltas, lemma_net_as_deltas, lemma_net_bound, lemma_net_concat, lemma_net_push, lemma_pending_none, lemma_pending_pop,
    lemma_pending_push, lemma_skip_push, lemma_map_respects_net,
    map_deltas, net, pending_of,
};
use crate::join::{
    flip, join_output, join_rows, lemma_join_add_left, lemma_join_add_right, left_block, left_matches,
    right_block, right_matches,
};
use crate::row::{copy_row, rows_view, sort_rows, sorted, Row, RowFn};

pub mod data_rel;
pub mod join_rel;
pub mod laws;
pub mod map_rel;
pub mod memo_rel;

verus! {

/// Which input of a consumer a listener edge feeds.
#[derive(Clone, Copy, Debug, PartialEq, Eq)]
pub enum Port {
    /// The only input of a map or distinct operator.
    Input,
    /// The left input of a join.
    Left,
    /// The right input of a join.
    Right,
    /// Both inputs of a join of a relation with itself.
    Both,
}

/// A listener registration: `consumer` hears every delta of the producer that
/// holds the edge, on `port`.
#[derive(Clone, Copy, Debug)]
pub struct Edge {
    pub consumer: usize,
    pub port: Port,
}

/// The listener set of one relation.
pub struct Listeners {
    pub edges: Vec<Edge>,
}

/// A base relation: the rows that are present, each once.
pub struct SourceState {
    pub rows: Vec<Row>,
}

/// A stateless transform of its input by `f`.
pub struct MapRel {
    pub input: usize,
    pub f: RowFn,
}

/// The distinct operator: a multiplicity per row seen on its input.
pub struct MemoRel {
    pub input: usize,
    pub counts: Counts,
}

/// An equi-join: a multiplicity per row seen on each side, and the key of
/// each side.
pub struct JoinRel {
    pub left: usize,
    pub right: usize,
    pub key_left: RowFn,
    pub key_right: RowFn,
    pub left_counts: Counts,
    pub right_counts: Counts,
}

/// The state of one operator of the graph.
pub enum Op {
    Source(SourceState),
    Mapped(MapRel),
    Memo(MemoRel),
    Join(JoinRel),
}

/// A delta produced by relation `from` that its listeners have not heard yet.
pub struct Pending {
    pub from: usize,
    pub row: Row,
    pub delta: i64,
}

/// A dataflow graph: its operators, each relation's listeners, and the FIFO
/// queue of deltas waiting to be delivered.
pub struct System {
    ops: Arena<Op>,
    listeners: Vec<Listeners>,
    queue: VecDeque<Pending>,
    /// Every delta each relation has queued, in order.
    logs: Ghost<Seq<Seq<(Seq<i64>, int)>>>,
    /// How many of each relation's deltas its listeners have heard.
    seen: Ghost<Seq<nat>>,
}

/// A delivery was held back: it would have taken a multiplicity count
/// outside the range of `i64`.
#[derive(Clone, Copy, Debug, PartialEq, Eq)]
pub struct CountOverflow;

/// A handle to a relation of a `System`.
#[derive(Clone, Copy, Debug)]
pub struct Rel {
    id: usize,
}

/// A handle to a base relation of a `System`, through which it is mutated.
#[derive(Clone, Copy, Debug)]
pub struct DataRel {
    id: usize,
}

pub open spec fn with_sign(rows: Seq<Seq<i64>>, s: i64) -> Seq<(Seq<i64>, i64)> {
    rows.map_values(|r: Seq<i64>| (r, s))
}

/// The sign of the delta that a count moving from `before` to `after`
/// forwards: `1` when it becomes nonzero, `-1` when it returns to zero, and
/// `0` (nothing forwarded) otherwise.
pub open spec fn transition(before: int, after: int) -> i64 {
    if before == 0 && after != 0 {
        1i64
    } else if before != 0 && after == 0 {
        -1i64
    } else {
        0i64
    }
}

/// An operator is well formed at index `n`: its inputs come before it, its
/// functions are total and its tables have one entry per row.
pub open spec fn op_wf(op: Op, n: int) -> bool {
    match op {
        Op::Source(s) => rows_view(s.rows@).no_duplicates(),
        Op::Mapped(m) => m.input < n && m.f.wf(),
        Op::Memo(d) => d.input < n && d.counts.wf(),
        Op::Join(j) => j.left < n && j.right < n && j.key_left.wf() && j.key_right.wf()
            && j.left_counts.wf() && j.right_counts.wf(),
    }
}

/// The rows that relation `n` currently iterates, with repeats: a base
/// relation's present rows; a map's input mapped row by row; the rows a
/// distinct operator counts as present; a join's matching pairs.
pub open spec fn snapshot(ops: Seq<Op>, n: int) -> Seq<Seq<i64>>
    decreases n,
{
    if 0 <= n < ops.len() {
        match ops[n] {
            Op::Source(s) => rows_view(s.rows@),
            Op::Mapped(m) => if 0 <= m.input < n {
                snapshot(ops, m.input as int).map_values(|r: Seq<i64>| m.f.spec_apply(r))
            } else {
                Seq::empty()
            },
            Op::Memo(d) => present(d.counts.entries()),
            Op::Join(j) => join_rows(
                j.left_counts.entries(),
                j.right_counts.entries(),
                j.key_left,
                j.key_right,
            ),
        }
    } else {
        Seq::empty()
    }
}

pub open spec fn is_source(op: Op) -> bool {
    match op {
        Op::Source(_) => true,
        _ => false,
    }
}

/// The deltas of relation `p` that its listeners have heard.
pub open spec fn delivered(logs: Seq<Seq<(Seq<i64>, int)>>, seen: Seq<nat>, p: int) -> Seq<(Seq<i64>, int)> {
    logs[p].take(seen[p] as int)
}

/// The port on which `op` listens to relation `q`, if it does.
pub open spec fn port_of(op: Op, q: int) -> Option<Port> {
    match op {
        Op::Source(_) => None,
        Op::Mapped(m) => if m.input == q { Some(Port::Input) } else { None },
        Op::Memo(d) => if d.input == q { Some(Port::Input) } else { None },
        Op::Join(j) => if j.left == q && j.right == q {
            Some(Port::Both)
        } else if j.left == q {
            Some(Port::Left)
        } else if j.right == q {
            Some(Port::Right)
        } else {
            None
        },
    }
}

/// Relation `p` is an input of `op`.
pub open spec fn is_input(op: Op, p: int) -> bool {
    match op {
        Op::Source(_) => false,
        Op::Mapped(m) => m.input == p,
        Op::Memo(d) => d.input == p,
        Op::Join(j) => j.left == p || j.right == p,
    }
}

/// A listener edge of relation `p` leads to a consumer of `p`, on the port
/// by which it reads `p`.
pub open spec fn edge_ok(ops: Seq<Op>, p: int, e: Edge) -> bool {
    match ops[e.consumer as int] {
        Op::Source(_) => false,
        Op::Mapped(m) => e.port == Port::Input && m.input == p,
        Op::Memo(d) => e.port == Port::Input && d.input == p,
        Op::Join(j) => (e.port == Port::Left && j.left == p && j.right != p) || (e.port == Port::Right
            && j.right == p && j.left != p) || (e.port == Port::Both && j.left == p && j.right == p),
    }
}

/// A delta of one: `1` or `-1`.
pub open spec fn unit(d: int) -> bool {
    d == 1 || d == -1
}

pub open spec fn in_i64(x: int) -> bool {
    i64::MIN <= x <= i64::MAX
}

/// Delivering `(t, d)` along edge `e` keeps the counts it changes inside
/// the range of `i64`.
pub open spec fn fits_delta(ops: Seq<Op>, e: Edge, t: Seq<i64>, d: int) -> bool {
    match ops[e.consumer as int] {
        Op::Memo(m) => in_i64(m.counts.count(t) + d),
        Op::Join(j) => ((e.port == Port::Left || e.port == Port::Both) ==> in_i64(
            j.left_counts.count(t) + d,
        )) && ((e.port == Port::Right || e.port == Port::Both) ==> in_i64(
            j.right_counts.count(t) + d,
        )),
        _ => true,
    }
}

/// The state of relation `n` agrees with what it has heard and what it has
/// queued: a source has queued `+1` net for each present row; a map has
/// forwarded each heard delta through its function; a distinct operator
/// counts the net heard deltas of each row and has queued `+1` net for each
/// row with a nonzero count; a join counts the net heard deltas on each side
/// and has queued, net, each row of its output once per occurrence.
pub open spec fn node_ok(ops: Seq<Op>, logs: Seq<Seq<(Seq<i64>, int)>>, seen: Seq<nat>, n: int) -> bool {
    match ops[n] {
        Op::Source(s) => forall|t: Seq<i64>| #[trigger] net(logs[n], t) == if rows_view(s.rows@).contains(t) {
            1int
        } else {
            0int
        },
        Op::Mapped(m) => logs[n] == map_deltas(delivered(logs, seen, m.input as int), m.f),
        Op::Memo(d) => forall|t: Seq<i64>| #[trigger] d.counts.count(t) == net(delivered(logs, seen, d.input as int), t)
            && net(logs[n], t) == if d.counts.count(t) != 0 {
            1int
        } else {
            0int
        },
        Op::Join(j) => {
            &&& forall|x: Seq<i64>| #[trigger] j.left_counts.count(x) == net(delivered(logs, seen, j.left as int), x)
            &&& forall|y: Seq<i64>| #[trigger] j.right_counts.count(y) == net(delivered(logs, seen, j.right as int), y)
            &&& forall|r: Seq<i64>| #[trigger] net(logs[n], r) == occurrences(
                join_rows(j.left_counts.entries(), j.right_counts.entries(), j.key_left, j.key_right),
                r,
            )
        },
    }
}

/// Extending the log of a relation other than `n`, beyond what has been
/// heard of it, leaves `n` as it was.
pub proof fn lemma_node_ok_extend(
    ops: Seq<Op>,
    logs: Seq<Seq<(Seq<i64>, int)>>,
    logs2: Seq<Seq<(Seq<i64>, int)>>,
    seen: Seq<nat>,
    n: int,
    c: int,
)
    requires
        0 <= n < ops.len(),
        0 <= c < ops.len(),
        n != c,
        logs.len() == ops.len(),
        logs2.len() == ops.len(),
        seen.len() == ops.len(),
        forall|q: int| 0 <= q < ops.len() && q != c ==> logs2[q] == logs[q],
        logs[c].len() <= logs2[c].len(),
        logs2[c].take(logs[c].len() as int) == logs[c],
        seen[c] <= logs[c].len(),
        op_wf(ops[n], n),
        node_ok(ops, logs, seen, n),
    ensures
        node_ok(ops, logs2, seen, n),
{
    assert(delivered(logs2, seen, c) == delivered(logs, seen, c)) by {
        assert(logs2[c].take(seen[c] as int) =~= logs2[c].take(logs[c].len() as int).take(seen[c] as int));
    }
    assert forall|q: int| 0 <= q < ops.len() implies #[trigger] delivered(logs2, seen, q) == delivered(logs, seen, q) by {
    }
    assert(logs2[n] == logs[n]);
}

/// Appending an operator leaves the state of the earlier ones as it was.
pub proof fn lemma_node_ok_push(
    ops: Seq<Op>,
    logs: Seq<Seq<(Seq<i64>, int)>>,
    seen: Seq<nat>,
    op: Op,
    log: Seq<(Seq<i64>, int)>,
    n: int,
)
    requires
        0 <= n < ops.len(),
        logs.len() == ops.len(),
        seen.len() == ops.len(),
        op_wf(ops[n], n),
        node_ok(ops, logs, seen, n),
    ensures
        node_ok(ops.push(op), logs.push(log), seen.push(log.len()), n),
{
    let ops2 = ops.push(op);
    let logs2 = logs.push(log);
    let seen2 = seen.push(log.len());
    assert(ops2[n] == ops[n]);
    assert(logs2[n] == logs[n]);
    assert forall|q: int| 0 <= q < ops.len() implies #[trigger] delivered(logs2, seen2, q) == delivered(logs, seen, q) by {
        assert(logs2[q] == logs[q]);
        assert(seen2[q] == seen[q]);
    }
    match ops[n] {
        Op::Mapped(m) => {
            assert(delivered(logs2, seen2, m.input as int) == delivered(logs, seen, m.input as int));
        },
        Op::Memo(d) => {
            assert(delivered(logs2, seen2, d.input as int) == delivered(logs, seen, d.input as int));
        },
        Op::Join(j) => {
            assert(delivered(logs2, seen2, j.left as int) == delivered(logs, seen, j.left as int));
            assert(delivered(logs2, seen2, j.right as int) == delivered(logs, seen, j.right as int));
        },
        _ => {},
    }
}

/// A relation's state depends only on how much it has heard of its inputs.
pub proof fn lemma_node_ok_seen(
    ops: Seq<Op>,
    logs: Seq<Seq<(Seq<i64>, int)>>,
    s1: Seq<nat>,
    s2: Seq<nat>,
    n: int,
)
    requires
        0 <= n < ops.len(),
        op_wf(ops[n], n),
        forall|p: int| 0 <= p < n && is_input(ops[n], p) ==> s1[p] == s2[p],
    ensures
        node_ok(ops, logs, s1, n) == node_ok(ops, logs, s2, n),
{
    match ops[n] {
        Op::Mapped(m) => {
            assert(delivered(logs, s1, m.input as int) == delivered(logs, s2, m.input as int));
        },
        Op::Memo(d) => {
            assert(delivered(logs, s1, d.input as int) == delivered(logs, s2, d.input as int));
        },
        Op::Join(j) => {
            assert(delivered(logs, s1, j.left as int) == delivered(logs, s2, j.left as int));
            assert(delivered(logs, s1, j.right as int) == delivered(logs, s2, j.right as int));
        },
        _ => {},
    }
}

impl MemoRel {
    /// Adds `d` to the count of `t` and returns the delta to forward.
    pub fn on_delta(&mut self, t: &Row, d: i64) -> (sign: i64)
        requires
            old(self).counts.wf(),
            d != 0,
            in_i64(old(self).counts.count(t@) + d),
        ensures
            final(self).counts.wf(),
            final(self).input == old(self).input,
            final(self).counts.count(t@) == old(self).counts.count(t@) + d,
            forall|u: Seq<i64>| u != t@ ==> final(self).counts.count(u) == old(self).counts.count(u),
            sign == transition(old(self).counts.count(t@), final(self).counts.count(t@)),
    {
        let (b, a) = self.counts.add(t, d);
        if b == 0 && a != 0 {
            1
        } else if b != 0 && a == 0 {
            -1
        } else {
            0
        }
    }
}

impl JoinRel {
    pub open spec fn wf(&self) -> bool {
        &&& self.key_left.wf()
        &&& self.key_right.wf()
        &&& self.left_counts.wf()
        &&& self.right_counts.wf()
    }

    /// Adds `d` to the count of `x` on the left side. When `x` becomes
    /// present (or absent), returns its pairs with the present right rows of
    /// the same key, and the sign of their delta.
    pub fn on_left(&mut self, x: &Row, d: i64) -> (r: (Vec<Row>, i64))
        requires
            old(self).wf(),
            in_i64(old(self).left_counts.count(x@) + d),
        ensures
            final(self).wf(),
            final(self).left == old(self).left,
            final(self).right == old(self).right,
            final(self).key_left == old(self).key_left,
            final(self).key_right == old(self).key_right,
            final(self).right_counts == old(self).right_counts,
            final(self).left_counts.count(x@) == old(self).left_counts.count(x@) + d,
            forall|u: Seq<i64>| u != x@ ==> final(self).left_counts.count(u) == old(self).left_counts.count(u),
            r.1 == transition(old(self).left_counts.count(x@), final(self).left_counts.count(x@)),
            (exists|i: int| 0 <= i < old(self).left_counts.entries().len() && old(self).left_counts.entries()[i].0 == x@
                && final(self).left_counts.entries() == old(self).left_counts.entries().update(i, (x@, final(self).left_counts.count(x@) as i64)))
                || (old(self).left_counts.count(x@) == 0 && final(self).left_counts.entries() == old(self).left_counts.entries().push((x@, final(self).left_counts.count(x@) as i64))),
            r.1 != 0 ==> rows_view(r.0@) == right_block(
                x@,
                old(self).key_left.spec_apply(x@),
                old(self).right_counts.entries(),
                old(self).key_right,
            ),
            r.1 == 0 ==> r.0@.len() == 0,
    {
        let (b, a) = self.left_counts.add(x, d);
        if (b == 0 && a != 0) || (b != 0 && a == 0) {
            let k = self.key_left.apply(x);
            let rows = right_matches(x, &k, &self.right_counts, &self.key_right);
            (rows, if b == 0 { 1 } else { -1 })
        } else {
            (Vec::new(), 0)
        }
    }

    /// Adds `d` to the count of `y` on the right side. When `y` becomes
    /// present (or absent), returns its pairs with the present left rows of
    /// the same key, and the sign of their delta.
    pub fn on_right(&mut self, y: &Row, d: i64) -> (r: (Vec<Row>, i64))
        requires
            old(self).wf(),
            in_i64(old(self).right_counts.count(y@) + d),
        ensures
            final(self).wf(),
            final(self).left == old(self).left,
            final(self).right == old(self).right,
            final(self).key_left == old(self).key_left,
            final(self).key_right == old(self).key_right,
            final(self).left_counts == old(self).left_counts,
            final(self).right_counts.count(y@) == old(self).right_counts.count(y@) + d,
            forall|u: Seq<i64>| u != y@ ==> final(self).right_counts.count(u) == old(self).right_counts.count(u),
            r.1 == transition(old(self).right_counts.count(y@), final(self).right_counts.count(y@)),
            (exists|i: int| 0 <= i < old(self).right_counts.entries().len() && old(self).right_counts.entries()[i].0 == y@
                && final(self).right_counts.entries() == old(self).right_counts.entries().update(i, (y@, final(self).right_counts.count(y@) as i64)))
                || (old(self).right_counts.count(y@) == 0 && final(self).right_counts.entries() == old(self).right_counts.entries().push((y@, final(self).right_counts.count(y@) as i64))),
            r.1 != 0 ==> rows_view(r.0@) == left_block(
                y@,
                old(self).key_right.spec_apply(y@),
                old(self).left_counts.entries(),
                old(self).key_left,
            ),
            r.1 == 0 ==> r.0@.len() == 0,
    {
        let (b, a) = self.right_counts.add(y, d);
        if (b == 0 && a != 0) || (b != 0 && a == 0) {
            let k = self.key_right.apply(y);
            let rows = left_matches(y, &k, &self.left_counts, &self.key_left);
            (rows, if b == 0 { 1 } else { -1 })
        } else {
            (Vec::new(), 0)
        }
    }
}

impl Rel {
    pub closed spec fn id(&self) -> usize {
        self.id
    }

    /// The position of this relation in its graph.
    pub fn index(&self) -> (r: usize)
        ensures
            r == self.id(),
    {
        self.id
    }
}

impl DataRel {
    pub closed spec fn id(&self) -> usize {
        self.id
    }

    /// The position of this relation in its graph.
    pub fn index(&self) -> (r: usize)
        ensures
            r == self.id(),
    {
        self.id
    }
}

impl System {
    pub closed spec fn ops(&self) -> Seq<Op> {
        self.ops@
    }

    pub closed spec fn edges(&self, p: int) -> Seq<Edge> {
        self.listeners@[p].edges@
    }

    /// The pending deltas, oldest first, as (producer, row, delta).
    pub closed spec fn queue(&self) -> Seq<(usize, Seq<i64>, i64)> {
        self.queue@.map_values(|p: Pending| (p.from, p.row@, p.delta))
    }

    pub closed spec fn logs(&self) -> Seq<Seq<(Seq<i64>, int)>> {
        self.logs@
    }

    pub closed spec fn seen(&self) -> Seq<nat> {
        self.seen@
    }

    /// The graph is well formed, and the queue holds exactly what each
    /// relation has queued and its listeners have not heard yet.
    pub closed spec fn wf_base(&self) -> bool {
        &&& self.listeners@.len() == self.ops@.len()
        &&& self.ops@.len() <= usize::MAX
        &&& forall|n: int| 0 <= n < self.ops@.len() ==> op_wf(#[trigger] self.ops@[n], n)
        &&& forall|p: int, k: int|
            0 <= p < self.ops@.len() && 0 <= k < self.listeners@[p].edges@.len() ==> p
                < #[trigger] self.listeners@[p].edges@[k].consumer < self.ops@.len()
        &&& forall|i: int|
            0 <= i < self.queue@.len() ==> (#[trigger] self.queue@[i]).from < self.ops@.len()
                && self.queue@[i].delta != 0
        &&& self.logs@.len() == self.ops@.len()
        &&& self.seen@.len() == self.ops@.len()
        &&& forall|p: int, i: int|
            0 <= p < self.ops@.len() && 0 <= i < self.logs@[p].len() ==> unit(#[trigger] self.logs@[p][i].1)
        &&& forall|p: int|
            0 <= p < self.ops@.len() ==> #[trigger] self.seen@[p] <= self.logs@[p].len()
                && pending_of(self.queue(), p as usize) == self.logs@[p].skip(self.seen@[p] as int)
        &&& forall|p: int, k: int|
            0 <= p < self.ops@.len() && 0 <= k < self.listeners@[p].edges@.len() ==> edge_ok(
                self.ops@,
                p,
                #[trigger] self.listeners@[p].edges@[k],
            )
        &&& forall|p: int, k1: int, k2: int|
            0 <= p < self.ops@.len() && 0 <= k1 < k2 < self.listeners@[p].edges@.len()
                ==> #[trigger] self.listeners@[p].edges@[k1].consumer
                != #[trigger] self.listeners@[p].edges@[k2].consumer
        &&& forall|c: int, p: int|
            0 <= c < self.ops@.len() && 0 <= p < self.ops@.len() && #[trigger] is_input(self.ops@[c], p)
                ==> exists|k: int|
                0 <= k < self.listeners@[p].edges@.len() && #[trigger] self.listeners@[p].edges@[k].consumer
                    == c
    }

    pub closed spec fn nodes_ok(&self) -> bool {
        forall|n: int|
            0 <= n < self.ops@.len() ==> #[trigger] node_ok(self.ops@, self.logs@, self.seen@, n)
    }

    pub closed spec fn wf(&self) -> bool {
        self.wf_base() && self.nodes_ok()
    }

    /// Delivering `(t, d)` from relation `p` keeps every count it changes
    /// inside the range of `i64`.
    pub open spec fn fits(&self, p: int, t: Seq<i64>, d: int) -> bool {
        forall|k: int| 0 <= k < self.edges(p).len() ==> fits_delta(self.ops(), #[trigger] self.edges(p)[k], t, d)
    }

    pub open spec fn has(&self, r: Rel) -> bool {
        r.id() < self.ops().len()
    }

    pub open spec fn has_data(&self, r: DataRel) -> bool {
        r.id() < self.ops().len() && is_source(self.ops()[r.id() as int])
    }

    /// The rows that relation `r` iterates.
    pub open spec fn rows(&self, r: Rel) -> Seq<Seq<i64>> {
        self.rows_at(r.id() as int)
    }

    /// The rows that relation `n` iterates.
    pub open spec fn rows_at(&self, n: int) -> Seq<Seq<i64>> {
        snapshot(self.ops(), n)
    }

    /// Each distinct operator counts every row as often as its input
    /// iterates it, and each join counts every row of each side as often as
    /// that side iterates it.
    pub open spec fn settled(&self) -> bool {
        forall|n: int|
            0 <= n < self.ops().len() ==> match #[trigger] self.ops()[n] {
                Op::Memo(d) => forall|t: Seq<i64>| #[trigger] d.counts.count(t) == occurrences(
                    self.rows_at(d.input as int),
                    t,
                ),
                Op::Join(j) => (forall|x: Seq<i64>| #[trigger] j.left_counts.count(x) == occurrences(
                    self.rows_at(j.left as int),
                    x,
                )) && (forall|y: Seq<i64>| #[trigger] j.right_counts.count(y) == occurrences(
                    self.rows_at(j.right as int),
                    y,
                )),
                _ => true,
            }
    }

    pub fn new() -> (r: System)
        ensures
            r.wf(),
            r.ops().len() == 0,
            r.queue().len() == 0,
            r.logs() == Seq::<Seq<(Seq<i64>, int)>>::empty(),
            r.seen() == Seq::<nat>::empty(),
    {
        let r = System {
            ops: Arena::new(),
            listeners: Vec::new(),
            queue: VecDeque::new(),
            logs: Ghost(Seq::empty()),
            seen: Ghost(Seq::empty()),
        };
        assert(r.queue() =~= Seq::<(usize, Seq<i64>, i64)>::empty());
        r
    }

    /// Queues the delta `(row, delta)` of relation `from`.
    fn emit(&mut self, from: usize, row: Row, delta: i64)
        requires
            old(self).wf_base(),
            from < old(self).ops().len(),
            unit(delta as int),
        ensures
            final(self).wf_base(),
            final(self).ops() == old(self).ops(),
            forall|p: int| 0 <= p < old(self).ops().len() ==> final(self).edges(p) == old(self).edges(p),
            final(self).queue() == old(self).queue().push((from, row@, delta)),
            final(self).logs() == old(self).logs().update(
                from as int,
                old(self).logs()[from as int].push((row@, delta as int)),
            ),
            final(self).seen() == old(self).seen(),
    {
        let ghost q = self.queue@;
        let ghost x = (from, row@, delta);
        self.queue.push_back(Pending { from, row, delta });
        proof {
            self.logs@ = self.logs@.update(from as int, self.logs@[from as int].push((x.1, delta as int)));
            assert(self.queue() =~= old(self).queue().push(x));
            assert forall|i: int| 0 <= i < self.queue@.len() implies (#[trigger] self.queue@[i]).from
                < self.ops@.len() && self.queue@[i].delta != 0 by {
                if i < q.len() {
                    assert(self.queue@[i] == q[i]);
                }
            }
            assert forall|p: int| 0 <= p < self.ops@.len() implies #[trigger] self.seen@[p] <= self.logs@[p].len()
                && pending_of(self.queue(), p as usize) == self.logs@[p].skip(self.seen@[p] as int) by {
                lemma_pending_push(old(self).queue(), x, p as usize);
                if p == from {
                    lemma_skip_push(old(self).logs@[p], old(self).seen@[p] as int, (x.1, delta as int));
                }
            }
        }
    }

    /// Queues `(r, sign)` for each row `r` of `rows`, in order.
    fn emit_all(&mut self, from: usize, rows: &Vec<Row>, sign: i64)
        requires
            old(self).wf_base(),
            from < old(self).ops().len(),
            unit(sign as int),
        ensures
            final(self).wf_base(),
            final(self).ops() == old(self).ops(),
            forall|p: int| 0 <= p < old(self).ops().len() ==> final(self).edges(p) == old(self).edges(p),
            final(self).queue() == old(self).queue() + with_sign(rows_view(rows@), sign).map_values(
                |e: (Seq<i64>, i64)| (from, e.0, e.1),
            ),
            final(self).logs() == old(self).logs().update(
                from as int,
                old(self).logs()[from as int] + as_deltas(rows_view(rows@), sign as int),
            ),
            final(self).seen() == old(self).seen(),
    {
        let mut i: usize = 0;
        proof {
            assert(as_deltas(rows_view(rows@.take(0)), sign as int) =~= Seq::<(Seq<i64>, int)>::empty());
            assert(old(self).logs()[from as int] + as_deltas(rows_view(rows@.take(0)), sign as int) =~= old(self).logs()[from as int]);
            assert(self.logs() =~= old(self).logs().update(from as int, old(self).logs()[from as int]));
            assert(with_sign(rows_view(rows@.take(0)), sign).map_values(|e: (Seq<i64>, i64)| (from, e.0, e.1)) =~= Seq::<(usize, Seq<i64>, i64)>::empty());
            assert(self.queue() =~= old(self).queue() + Seq::<(usize, Seq<i64>, i64)>::empty());
        }
        while i < rows.len()
            invariant
                self.wf_base(),
                i <= rows.len(),
                from < self.ops().len(),
                old(self).logs().len() == old(self).ops().len(),
                old(self).ops().len() == self.ops().len(),
                unit(sign as int),
                self.ops() == old(self).ops(),
                forall|p: int| 0 <= p < old(self).ops().len() ==> self.edges(p) == old(self).edges(p),
                self.queue() == old(self).queue() + with_sign(rows_view(rows@.take(i as int)), sign).map_values(
                    |e: (Seq<i64>, i64)| (from, e.0, e.1),
                ),
                self.logs() == old(self).logs().update(
                    from as int,
                    old(self).logs()[from as int] + as_deltas(rows_view(rows@.take(i as int)), sign as int),
                ),
                self.seen() == old(self).seen(),
            decreases rows.len() - i,
        {
            let r = copy_row(&rows[i]);
            let ghost lg0 = self.logs@;
            self.emit(from, r, sign);
            i = i + 1;
            assert(self.logs@ == lg0.update(from as int, lg0[from as int].push((rows@[i - 1]@, sign as int))));
            assert(with_sign(rows_view(rows@.take(i as int)), sign).map_values(
                |e: (Seq<i64>, i64)| (from, e.0, e.1),
            ) =~= with_sign(rows_view(rows@.take(i - 1)), sign).map_values(
                |e: (Seq<i64>, i64)| (from, e.0, e.1),
            ).push((from, rows@[i - 1]@, sign)));
            assert(as_deltas(rows_view(rows@.take(i as int)), sign as int) =~= as_deltas(rows_view(rows@.take(i - 1)), sign as int).push((rows@[i - 1]@, sign as int)));
            assert((old(self).logs()[from as int] + as_deltas(rows_view(rows@.take(i - 1)), sign as int)).push((rows@[i - 1]@, sign as int))
                =~= old(self).logs()[from as int] + as_deltas(rows_view(rows@.take(i as int)), sign as int));
            assert(self.logs() =~= old(self).logs().update(
                from as int,
                old(self).logs()[from as int] + as_deltas(rows_view(rows@.take(i as int)), sign as int),
            ));
        }
        assert(rows@.take(i as int) == rows@);
    }
}


/// The operators have the same kind, inputs and functions.
pub open spec fn same_kind(a: Op, b: Op) -> bool {
    match (a, b) {
        (Op::Source(_), Op::Source(_)) => true,
        (Op::Mapped(x), Op::Mapped(y)) => x == y,
        (Op::Memo(x), Op::Memo(y)) => x.input == y.input,
        (Op::Join(x), Op::Join(y)) => x.left == y.left && x.right == y.right && x.key_left
            == y.key_left && x.key_right == y.key_right,
        _ => false,
    }
}

/// What a delivery leaves unchanged: the operators keep their kind, inputs
/// and functions, and sources keep their rows.
pub open spec fn same_shape(a: Op, b: Op) -> bool {
    match (a, b) {
        (Op::Source(x), Op::Source(y)) => x == y,
        (Op::Mapped(x), Op::Mapped(y)) => x == y,
        (Op::Memo(x), Op::Memo(y)) => x.input == y.input,
        (Op::Join(x), Op::Join(y)) => x.left == y.left && x.right == y.right && x.key_left
            == y.key_left && x.key_right == y.key_right,
        _ => false,
    }
}

/// The log of a join stays in step with its output across one delivery,
/// which may change the count of `t` on the left, then on the right.
proof fn lemma_join_log(
    lg: Seq<(Seq<i64>, int)>,
    a1: Seq<(Seq<i64>, int)>,
    a2: Seq<(Seq<i64>, int)>,
    lg1: Seq<(Seq<i64>, int)>,
    lgf: Seq<(Seq<i64>, int)>,
    lc0: Seq<(Seq<i64>, i64)>,
    lc1: Seq<(Seq<i64>, i64)>,
    rc0: Seq<(Seq<i64>, i64)>,
    rc1: Seq<(Seq<i64>, i64)>,
    kl: RowFn,
    kr: RowFn,
    t: Seq<i64>,
    cl0: int,
    cl1: int,
    cr0: int,
    cr1: int,
    l_changed: bool,
    r_changed: bool,
    s1: i64,
    s2: i64,
    rows1: Seq<Seq<i64>>,
    rows2: Seq<Seq<i64>>,
)
    requires
        lg1 == lg + a1,
        lgf == lg1 + a2,
        a1 == (if s1 != 0 { as_deltas(rows1, s1 as int) } else { Seq::<(Seq<i64>, int)>::empty() }),
        a2 == (if s2 != 0 { as_deltas(rows2, s2 as int) } else { Seq::<(Seq<i64>, int)>::empty() }),
        s1 != 0 ==> rows1 == right_block(t, kl.spec_apply(t), rc0, kr),
        s2 != 0 ==> rows2 == left_block(t, kr.spec_apply(t), lc1, kl),
        s1 == (if l_changed { flip(cl0, cl1) } else { 0 }),
        s2 == (if r_changed { flip(cr0, cr1) } else { 0 }),
        l_changed ==> unique_rows(lc0) && count_of(lc0, t) == cl0 && cl1 == cl1 as i64 && (
            (exists|i: int| 0 <= i < lc0.len() && lc0[i].0 == t && lc1 == lc0.update(i, (t, cl1 as i64)))
            || (cl0 == 0 && lc1 == lc0.push((t, cl1 as i64)))),
        !l_changed ==> lc1 == lc0,
        r_changed ==> unique_rows(rc0) && count_of(rc0, t) == cr0 && cr1 == cr1 as i64 && (
            (exists|i: int| 0 <= i < rc0.len() && rc0[i].0 == t && rc1 == rc0.update(i, (t, cr1 as i64)))
            || (cr0 == 0 && rc1 == rc0.push((t, cr1 as i64)))),
        !r_changed ==> rc1 == rc0,
        forall|r: Seq<i64>| #[trigger] net(lg, r) == occurrences(join_rows(lc0, rc0, kl, kr), r),
    ensures
        forall|r: Seq<i64>| #[trigger] net(lgf, r) == occurrences(join_rows(lc1, rc1, kl, kr), r),
{
    assert forall|r: Seq<i64>| #[trigger] net(lgf, r) == occurrences(join_rows(lc1, rc1, kl, kr), r) by {
        assert(net(lg, r) == occurrences(join_rows(lc0, rc0, kl, kr), r));
        lemma_net_concat(lg, a1, r);
        lemma_net_concat(lg1, a2, r);
        let o1 = occurrences(right_block(t, kl.spec_apply(t), rc0, kr), r);
        let o2 = occurrences(left_block(t, kr.spec_apply(t), lc1, kl), r);
        if l_changed {
            lemma_join_add_left(lc0, lc1, rc0, kl, kr, t, cl0, cl1 as i64, r);
        }
        if r_changed {
            lemma_join_add_right(lc1, rc0, rc1, kl, kr, t, cr0, cr1 as i64, r);
        }
        if s1 != 0 {
            lemma_net_as_deltas(rows1, s1 as int, r);
        } else {
            assert(0 * o1 == 0) by (nonlinear_arith);
        }
        if s2 != 0 {
            lemma_net_as_deltas(rows2, s2 as int, r);
        } else {
            assert(0 * o2 == 0) by (nonlinear_arith);
        }
    }
}

/// Two graphs with the same contents are well formed alike.
proof fn lemma_wf_views(a: System, b: System)
    requires
        a.wf(),
        b.ops@ == a.ops@,
        b.listeners@ == a.listeners@,
        b.queue@ == a.queue@,
        b.logs@ == a.logs@,
        b.seen@ == a.seen@,
    ensures
        b.wf(),
{
    assert(b.queue() == a.queue());
}

/// A change of operator `c` that keeps its shape keeps the base invariant.
proof fn lemma_wf_base_update(a: System, b: System, c: int)
    requires
        a.wf_base(),
        0 <= c < a.ops@.len(),
        b.listeners@ == a.listeners@,
        b.queue@ == a.queue@,
        b.logs@ == a.logs@,
        b.seen@ == a.seen@,
        b.ops@ == a.ops@.update(c, b.ops@[c]),
        same_kind(a.ops@[c], b.ops@[c]),
        op_wf(b.ops@[c], c),
    ensures
        b.wf_base(),
{
    assert(b.queue() == a.queue());
    assert forall|n: int| 0 <= n < b.ops@.len() implies op_wf(#[trigger] b.ops@[n], n) by {
        if n != c {
            assert(op_wf(a.ops@[n], n));
        }
    }
    assert forall|q: int, k: int|
        0 <= q < b.ops@.len() && 0 <= k < b.listeners@[q].edges@.len() implies edge_ok(
            b.ops@,
            q,
            #[trigger] b.listeners@[q].edges@[k],
        ) by {
        assert(edge_ok(a.ops@, q, a.listeners@[q].edges@[k]));
    }
    assert forall|c2: int, q: int|
        0 <= c2 < b.ops@.len() && 0 <= q < b.ops@.len() && #[trigger] is_input(b.ops@[c2], q) implies exists|k: int|
        0 <= k < b.listeners@[q].edges@.len() && #[trigger] b.listeners@[q].edges@[k].consumer == c2 by {
        assert(is_input(a.ops@[c2], q));
    }
}

impl System {
    /// Delivers the delta `(t, d)` of relation `p` to the consumer of edge
    /// `e`, queueing what the consumer forwards. The delta is the last one
    /// of `p` that counts as heard.
    fn apply(&mut self, e: Edge, t: &Row, d: i64, Ghost(p): Ghost<usize>)
        requires
            old(self).wf_base(),
            e.consumer < old(self).ops().len(),
            p < e.consumer,
            d != 0,
            edge_ok(old(self).ops(), p as int, e),
            fits_delta(old(self).ops(), e, t@, d as int),
            0 < old(self).seen()[p as int],
            old(self).logs()[p as int][old(self).seen()[p as int] - 1] == (t@, d as int),
            node_ok(
                old(self).ops(),
                old(self).logs(),
                old(self).seen().update(p as int, (old(self).seen()[p as int] - 1) as nat),
                e.consumer as int,
            ),
        ensures
            final(self).wf_base(),
            final(self).ops().len() == old(self).ops().len(),
            forall|n: int| 0 <= n < old(self).ops().len() && n != e.consumer ==> final(self).ops()[n] == old(self).ops()[n],
            same_shape(old(self).ops()[e.consumer as int], final(self).ops()[e.consumer as int]),
            forall|q: int| 0 <= q < old(self).ops().len() ==> final(self).edges(q) == old(self).edges(q),
            final(self).queue().len() >= old(self).queue().len(),
            final(self).queue().take(old(self).queue().len() as int) == old(self).queue(),
            forall|i: int| old(self).queue().len() <= i < final(self).queue().len() ==> (#[trigger] final(self).queue()[i]).0 == e.consumer,
            final(self).seen() == old(self).seen(),
            final(self).logs().len() == old(self).logs().len(),
            forall|q: int| 0 <= q < old(self).ops().len() && q != e.consumer ==> final(self).logs()[q] == old(self).logs()[q],
            final(self).logs()[e.consumer as int].len() >= old(self).logs()[e.consumer as int].len(),
            final(self).logs()[e.consumer as int].take(old(self).logs()[e.consumer as int].len() as int) == old(self).logs()[e.consumer as int],
            node_ok(final(self).ops(), final(self).logs(), final(self).seen(), e.consumer as int),
    {
        let c = e.consumer;
        let ghost s0 = *self;
        let ghost seen0 = self.seen@.update(p as int, (self.seen@[p as int] - 1) as nat);
        let ghost d0 = delivered(self.logs@, seen0, p as int);
        let ghost d1 = delivered(self.logs@, self.seen@, p as int);
        let ghost lg = self.logs@[c as int];
        proof {
            assert(unit(self.logs@[p as int][self.seen@[p as int] - 1].1));
            assert(d1 =~= d0.push((t@, d as int)));
            assert(op_wf(self.ops@[c as int], c as int));
        }
        let op = self.ops.get_mut(c);
        match op {
            Op::Source(_) => {
                assert(self.queue().take(old(self).queue().len() as int) =~= old(self).queue());
                assert(self.logs@[c as int].take(lg.len() as int) =~= lg);
            },
            Op::Mapped(m) => {
                let out = m.f.apply(t);
                let ghost fo = m.f;
                let ghost inp = m.input;
                assert(self.ops@ == s0.ops@);
                self.emit(c, out, d);
                proof {
                    assert(self.queue().take(old(self).queue().len() as int) =~= old(self).queue());
                    assert(self.logs@[c as int].take(lg.len() as int) =~= lg);
                    {
                        assert(inp == p);
                        assert(self.logs@[c as int] =~= map_deltas(d1, fo));
                    }
                }
            },
            Op::Memo(m) => {
                let ghost c_old = m.counts.count(t@);
                let ghost inp = m.input;
                let sign = m.on_delta(t, d);
                let ghost counts1 = m.counts;
                proof {
                    lemma_wf_base_update(s0, *self, c as int);
                }
                if sign != 0 {
                    let row = copy_row(t);
                    self.emit(c, row, sign);
                }
                proof {
                    assert(self.queue().take(old(self).queue().len() as int) =~= old(self).queue());
                    assert(self.logs@[c as int].take(lg.len() as int) =~= lg);
                    {
                        assert(inp == p);
                        assert forall|u: Seq<i64>| #[trigger] counts1.count(u) == net(d1, u)
                            && net(self.logs@[c as int], u) == if counts1.count(u) != 0 { 1int } else { 0int } by {
                            lemma_net_push(d0, (t@, d as int), u);
                            if sign != 0 {
                                lemma_net_push(lg, (t@, sign as int), u);
                            }
                        }
                    }
                }
            },
            Op::Join(j) => {
                let ghost lc0 = j.left_counts.entries();
                let ghost rc0 = j.right_counts.entries();
                let ghost kl = j.key_left;
                let ghost kr = j.key_right;
                let ghost jl = j.left;
                let ghost jr = j.right;
                let ghost cl0 = j.left_counts.count(t@);
                let (rows1, s1) = match e.port {
                    Port::Left | Port::Both => j.on_left(t, d),
                    _ => (Vec::new(), 0),
                };
                let ghost lc1 = j.left_counts.entries();
                let ghost cl1 = j.left_counts.count(t@);
                let ghost cr0 = j.right_counts.count(t@);
                let (rows2, s2) = match e.port {
                    Port::Right | Port::Both => j.on_right(t, d),
                    _ => (Vec::new(), 0),
                };
                let ghost rc1 = j.right_counts.entries();
                let ghost cr1 = j.right_counts.count(t@);
                let ghost jn = *j;
                proof {
                    lemma_wf_base_update(s0, *self, c as int);
                }
                let ghost q0 = self.queue();
                if s1 != 0 {
                    self.emit_all(c, &rows1, s1);
                }
                let ghost q1 = self.queue();
                let ghost lg1 = self.logs@[c as int];
                if s2 != 0 {
                    self.emit_all(c, &rows2, s2);
                }
                proof {
                    assert(q1.take(q0.len() as int) =~= q0);
                    assert(self.queue().take(q1.len() as int) =~= q1);
                    assert(self.queue().take(q0.len() as int) =~= q0);
                    assert forall|i: int| q0.len() <= i < self.queue().len() implies (#[trigger] self.queue()[i]).0 == c by {
                        if i >= q1.len() {
                        }
                    }
                    let l_changed = e.port == Port::Left || e.port == Port::Both;
                    let r_changed = e.port == Port::Right || e.port == Port::Both;
                    let lgf = self.logs@[c as int];
                    let a1 = if s1 != 0 { as_deltas(rows_view(rows1@), s1 as int) } else { Seq::empty() };
                    let a2 = if s2 != 0 { as_deltas(rows_view(rows2@), s2 as int) } else { Seq::empty() };
                    assert(lg1 =~= lg + a1);
                    assert(lgf =~= lg1 + a2);
                    assert(lgf.take(lg.len() as int) =~= lg);
                    {
                        assert forall|x: Seq<i64>| #[trigger] jn.left_counts.count(x) == net(delivered(self.logs@, self.seen@, jl as int), x) by {
                            lemma_net_push(d0, (t@, d as int), x);
                        }
                        assert forall|y: Seq<i64>| #[trigger] jn.right_counts.count(y) == net(delivered(self.logs@, self.seen@, jr as int), y) by {
                            lemma_net_push(d0, (t@, d as int), y);
                        }
                        lemma_join_log(lg, a1, a2, lg1, lgf, lc0, lc1, rc0, rc1, kl, kr, t@, cl0, cl1, cr0, cr1,
                            l_changed, r_changed, s1, s2, rows_view(rows1@), rows_view(rows2@));
                    }
                }
            },
        }
    }
}

/// Some edge from position `k` on leads to `n`.
pub open spec fn waits(edges: Seq<Edge>, k: int, n: int) -> bool {
    exists|j: int| k <= j < edges.len() && edges[j].consumer == n
}

impl System {
    /// Delivers one dequeued delta `(t, d)` of relation `from` to each of its
    /// listeners, in registration order. The delta is the last one of `from`
    /// that counts as heard.
    fn deliver(&mut self, from: usize, t: &Row, d: i64)
        requires
            old(self).wf_base(),
            from < old(self).ops().len(),
            d != 0,
            0 < old(self).seen()[from as int],
            old(self).logs()[from as int][old(self).seen()[from as int] - 1] == (t@, d as int),
            old(self).fits(from as int, t@, d as int),
            forall|n: int| 0 <= n < old(self).ops().len() ==> #[trigger] node_ok(
                old(self).ops(),
                old(self).logs(),
                old(self).seen().update(from as int, (old(self).seen()[from as int] - 1) as nat),
                n,
            ),
        ensures
            final(self).wf(),
            final(self).ops().len() == old(self).ops().len(),
            forall|n: int| 0 <= n < old(self).ops().len() ==> same_shape(old(self).ops()[n], #[trigger] final(self).ops()[n]),
            forall|p: int| 0 <= p < old(self).ops().len() ==> final(self).edges(p) == old(self).edges(p),
            final(self).queue().len() >= old(self).queue().len(),
            final(self).queue().take(old(self).queue().len() as int) == old(self).queue(),
            forall|i: int| old(self).queue().len() <= i < final(self).queue().len() ==> (#[trigger] final(self).queue()[i]).0 > from,
            final(self).seen() == old(self).seen(),
            forall|q: int| 0 <= q < old(self).ops().len() && is_source(old(self).ops()[q]) ==> #[trigger] final(self).logs()[q] == old(self).logs()[q],
            final(self).logs().len() == old(self).logs().len(),
            forall|q: int| 0 <= q < old(self).ops().len() ==> #[trigger] final(self).logs()[q].len() >= old(self).logs()[q].len()
                && final(self).logs()[q].take(old(self).logs()[q].len() as int) == old(self).logs()[q],
    {
        let ghost seen1 = self.seen@;
        let ghost seen0 = seen1.update(from as int, (seen1[from as int] - 1) as nat);
        let ghost es = self.listeners@[from as int].edges@;
        let n_edges = self.listeners[from].edges.len();
        proof {
            {
                assert forall|n: int| 0 <= n < self.ops@.len() && !waits(es, 0, n) implies #[trigger] node_ok(
                    self.ops@, self.logs@, seen1, n) by {
                    assert(node_ok(self.ops@, self.logs@, seen0, n));
                    assert(op_wf(self.ops@[n], n));
                    if is_input(self.ops@[n], from as int) {
                        let k = choose|k: int| 0 <= k < es.len() && #[trigger] self.listeners@[from as int].edges@[k].consumer == n;
                        assert(waits(es, 0, n));
                    }
                    lemma_node_ok_seen(self.ops@, self.logs@, seen0, seen1, n);
                }
            }
        }
        let mut k: usize = 0;
        proof {
            assert forall|k2: int| 0 <= k2 < es.len() implies fits_delta(self.ops(), #[trigger] es[k2], t@, d as int) by {
                assert(fits_delta(self.ops(), self.edges(from as int)[k2], t@, d as int));
            }
            assert(self.logs() == old(self).logs());
        }
        while k < n_edges
            invariant
                self.wf_base(),
                from < self.ops().len(),
                d != 0,
                k <= n_edges,
                n_edges == es.len(),
                es == self.listeners@[from as int].edges@,
                self.seen@ == seen1,
                seen0 == seen1.update(from as int, (seen1[from as int] - 1) as nat),
                0 < seen1[from as int],
                self.logs@[from as int] == old(self).logs()[from as int],
                old(self).logs()[from as int][seen1[from as int] - 1] == (t@, d as int),
                self.ops().len() == old(self).ops().len(),
                forall|n: int| 0 <= n < old(self).ops().len() ==> same_shape(old(self).ops()[n], #[trigger] self.ops()[n]),
                forall|p: int| 0 <= p < old(self).ops().len() ==> self.edges(p) == old(self).edges(p),
                self.queue().len() >= old(self).queue().len(),
                self.queue().take(old(self).queue().len() as int) == old(self).queue(),
                forall|i: int| old(self).queue().len() <= i < self.queue().len() ==> (#[trigger] self.queue()[i]).0 > from,
                self.logs().len() == old(self).logs().len(),
                forall|q: int| 0 <= q < old(self).ops().len() ==> #[trigger] self.logs()[q].len() >= old(self).logs()[q].len()
                    && self.logs()[q].take(old(self).logs()[q].len() as int) == old(self).logs()[q],
                forall|k2: int| k <= k2 < es.len() ==> fits_delta(self.ops(), #[trigger] es[k2], t@, d as int),
                forall|q: int| 0 <= q < old(self).ops().len() && is_source(old(self).ops()[q]) ==> #[trigger] self.logs()[q] == old(self).logs()[q],
                forall|n: int| 0 <= n < self.ops@.len() ==> if waits(es, k as int, n) {
                    node_ok(self.ops@, self.logs@, seen0, n)
                } else {
                    node_ok(self.ops@, self.logs@, seen1, n)
                },
            decreases n_edges - k,
        {
            let e = self.listeners[from].edges[k];
            proof {
                assert(self.listeners@[from as int].edges@[k as int].consumer > from);
                assert(edge_ok(self.ops@, from as int, e));
                {
                    assert(waits(es, k as int, e.consumer as int));
                }
            }
            let ghost before = *self;
            self.apply(e, t, d, Ghost(from));
            proof {
                let c = e.consumer as int;
                assert(self.edges(from as int) == before.edges(from as int));
                assert forall|q: int| 0 <= q < old(self).ops().len() implies #[trigger] self.logs()[q].len() >= old(self).logs()[q].len()
                    && self.logs()[q].take(old(self).logs()[q].len() as int) == old(self).logs()[q] by {
                    assert(before.logs()[q].take(old(self).logs()[q].len() as int) == old(self).logs()[q]);
                    if q == c {
                        assert(self.logs()[q].take(old(self).logs()[q].len() as int) =~= self.logs()[q].take(before.logs()[q].len() as int).take(old(self).logs()[q].len() as int));
                    }
                }
                assert(!is_source(before.ops()[c]));
                assert forall|q: int| 0 <= q < old(self).ops().len() && is_source(old(self).ops()[q]) implies #[trigger] self.logs()[q] == old(self).logs()[q] by {
                    assert(same_shape(old(self).ops()[q], before.ops()[q]));
                }
                assert forall|k2: int| k + 1 <= k2 < es.len() implies fits_delta(self.ops(), #[trigger] es[k2], t@, d as int) by {
                    assert(fits_delta(before.ops(), es[k2], t@, d as int));
                    assert(self.listeners@[from as int].edges@[k as int].consumer != self.listeners@[from as int].edges@[k2].consumer);
                    assert(self.ops()[es[k2].consumer as int] == before.ops()[es[k2].consumer as int]);
                }
                assert forall|n: int| 0 <= n < old(self).ops().len() implies same_shape(old(self).ops()[n], #[trigger] self.ops()[n]) by {
                    assert(same_shape(old(self).ops()[n], before.ops()[n]));
                    if n != c {
                        assert(self.ops()[n] == before.ops()[n]);
                    }
                }
                assert(self.queue().take(old(self).queue().len() as int) =~= old(self).queue()) by {
                    assert(self.queue().take(before.queue().len() as int) == before.queue());
                    assert forall|i: int| 0 <= i < old(self).queue().len() implies self.queue()[i] == old(self).queue()[i] by {
                        assert(before.queue().take(old(self).queue().len() as int)[i] == old(self).queue()[i]);
                        assert(self.queue().take(before.queue().len() as int)[i] == before.queue()[i]);
                    }
                }
                assert forall|i: int| old(self).queue().len() <= i < self.queue().len() implies (#[trigger] self.queue()[i]).0 > from by {
                    if i < before.queue().len() {
                        assert(self.queue().take(before.queue().len() as int)[i] == before.queue()[i]);
                    }
                }
                {
                    assert forall|n: int| 0 <= n < self.ops@.len() implies if waits(es, k + 1, n) {
                        node_ok(self.ops@, self.logs@, seen0, n)
                    } else {
                        node_ok(self.ops@, self.logs@, seen1, n)
                    } by {
                        if n == c {
                            if waits(es, k + 1, n) {
                                let j = choose|j: int| k + 1 <= j < es.len() && es[j].consumer == n;
                                assert(self.listeners@[from as int].edges@[k as int].consumer
                                    != self.listeners@[from as int].edges@[j].consumer);
                            }
                        } else {
                            assert(self.ops@[n] == before.ops@[n]);
                            assert(op_wf(before.ops@[n], n));
                            if waits(es, k as int, n) && !waits(es, k + 1, n) {
                                let j = choose|j: int| k <= j < es.len() && es[j].consumer == n;
                                assert(j == k);
                            }
                            if waits(es, k + 1, n) {
                                let j = choose|j: int| k + 1 <= j < es.len() && es[j].consumer == n;
                                assert(waits(es, k as int, n));
                            }
                            if waits(es, k as int, n) {
                                lemma_node_ok_extend(before.ops@, before.logs@, self.logs@, seen0, n, c);
                            } else {
                                lemma_node_ok_extend(before.ops@, before.logs@, self.logs@, seen1, n, c);
                            }
                        }
                    }
                }
            }
            k = k + 1;
        }
        proof {
            {
                assert forall|n: int| 0 <= n < self.ops@.len() implies #[trigger] node_ok(self.ops@, self.logs@, self.seen@, n) by {
                    assert(!waits(es, k as int, n));
                }
            }
        }
    }

    /// Whether delivering `(t, d)` from relation `p` keeps every count it
    /// changes inside the range of `i64`.
    fn fits_exec(&self, p: usize, t: &Row, d: i64) -> (r: bool)
        requires
            self.wf(),
            p < self.ops().len(),
        ensures
            r == self.fits(p as int, t@, d as int),
    {
        let n_edges = self.listeners[p].edges.len();
        let mut k: usize = 0;
        while k < n_edges
            invariant
                self.wf(),
                p < self.ops().len(),
                k <= n_edges,
                n_edges == self.edges(p as int).len(),
                forall|k2: int| 0 <= k2 < k ==> fits_delta(self.ops(), #[trigger] self.edges(p as int)[k2], t@, d as int),
            decreases n_edges - k,
        {
            let e = self.listeners[p].edges[k];
            proof {
                assert(self.listeners@[p as int].edges@[k as int].consumer < self.ops@.len());
                assert(op_wf(self.ops@[e.consumer as int], e.consumer as int));
            }
            let ok = match self.ops.get(e.consumer) {
                Op::Memo(m) => add_fits(m.counts.get(t), d),
                Op::Join(j) => {
                    let l = match e.port {
                        Port::Left | Port::Both => add_fits(j.left_counts.get(t), d),
                        _ => true,
                    };
                    let r = match e.port {
                        Port::Right | Port::Both => add_fits(j.right_counts.get(t), d),
                        _ => true,
                    };
                    l && r
                },
                _ => true,
            };
            if !ok {
                return false;
            }
            k = k + 1;
        }
        true
    }

    /// Drains the queue: delivers each pending delta in FIFO order, including
    /// the deltas that deliveries queue, until none is left. Stops early,
    /// with the offending delta first in the queue, only when delivering it
    /// would take a multiplicity count outside the range of `i64`.
    pub fn run(&mut self) -> (r: Result<(), CountOverflow>)
        requires
            old(self).wf(),
        ensures
            final(self).wf(),
            final(self).ops().len() == old(self).ops().len(),
            forall|n: int| 0 <= n < old(self).ops().len() ==> same_shape(old(self).ops()[n], #[trigger] final(self).ops()[n]),
            forall|p: int| 0 <= p < old(self).ops().len() ==> final(self).edges(p) == old(self).edges(p),
            final(self).logs().len() == old(self).logs().len(),
            forall|q: int| 0 <= q < old(self).ops().len() ==> #[trigger] final(self).logs()[q].len() >= old(self).logs()[q].len()
                && final(self).logs()[q].take(old(self).logs()[q].len() as int) == old(self).logs()[q],
            forall|n: int| 0 <= n < final(self).ops().len() ==> #[trigger] node_ok(final(self).ops(), final(self).logs(), final(self).seen(), n),
            final(self).seen().len() == old(self).seen().len(),
            forall|q: int| 0 <= q < old(self).ops().len() ==> #[trigger] final(self).seen()[q] >= old(self).seen()[q],
            forall|q: int| 0 <= q < final(self).ops().len() ==> #[trigger] pending_of(final(self).queue(), q as usize)
                == final(self).logs()[q].skip(final(self).seen()[q] as int),
            old(self).queue().len() == 0 ==> *final(self) == *old(self) && r is Ok,
            match r {
                Ok(()) => {
                    &&& final(self).queue().len() == 0
                    &&& final(self).settled()
                    &&& forall|q: int| 0 <= q < final(self).ops().len() ==> #[trigger] final(self).seen()[q] == final(self).logs()[q].len()
                },
                Err(_) => {
                    &&& final(self).queue().len() > 0
                    &&& !final(self).fits(
                        final(self).queue()[0].0 as int,
                        final(self).queue()[0].1,
                        final(self).queue()[0].2 as int,
                    )
                    &&& exists|c: int, p: int|
                        0 <= c < final(self).ops().len() && 0 <= p < final(self).ops().len()
                            && #[trigger] is_input(final(self).ops()[c], p) && final(self).seen()[p] >= i64::MAX
                },
            },
            forall|q: int| 0 <= q < old(self).ops().len() && is_source(old(self).ops()[q]) ==> #[trigger] final(self).logs()[q] == old(self).logs()[q],
    {
        // A delta queued by a delivery of relation p comes from a listener
        // of p, which stands after p; so after the deltas of one round every
        // queued delta comes from a later relation than the round's number.
        let mut round: usize = 0;
        while self.queue.len() > 0
            invariant
                self.wf(),
                round <= self.ops().len(),
                self.ops().len() == old(self).ops().len(),
                forall|n: int| 0 <= n < old(self).ops().len() ==> same_shape(old(self).ops()[n], #[trigger] self.ops()[n]),
                forall|p: int| 0 <= p < old(self).ops().len() ==> self.edges(p) == old(self).edges(p),
                forall|i: int| 0 <= i < self.queue().len() ==> (#[trigger] self.queue()[i]).0 >= round,
                self.logs().len() == old(self).logs().len(),
                forall|q: int| 0 <= q < old(self).ops().len() ==> #[trigger] self.logs()[q].len() >= old(self).logs()[q].len()
                    && self.logs()[q].take(old(self).logs()[q].len() as int) == old(self).logs()[q],
                old(self).queue().len() == 0 ==> *self == *old(self),
                self.seen().len() == old(self).seen().len(),
                forall|q: int| 0 <= q < old(self).ops().len() ==> #[trigger] self.seen()[q] >= old(self).seen()[q],
                forall|q: int| 0 <= q < old(self).ops().len() && is_source(old(self).ops()[q]) ==> #[trigger] self.logs()[q] == old(self).logs()[q],
            decreases self.ops().len() - round,
        {
            proof {
                assert(self.queue()[0].0 >= round);
                assert(self.queue@[0].from < self.ops@.len());
            }
            let n = self.queue.len();
            let mut i: usize = 0;
            while i < n
                invariant
                    self.wf(),
                    i <= n,
                    round < self.ops().len(),
                    self.queue().len() >= n - i,
                    self.ops().len() == old(self).ops().len(),
                    forall|n: int| 0 <= n < old(self).ops().len() ==> same_shape(old(self).ops()[n], #[trigger] self.ops()[n]),
                    forall|p: int| 0 <= p < old(self).ops().len() ==> self.edges(p) == old(self).edges(p),
                    forall|j: int| 0 <= j < self.queue().len() ==> (#[trigger] self.queue()[j]).0 >= round,
                    forall|j: int| n - i <= j < self.queue().len() ==> (#[trigger] self.queue()[j]).0 > round,
                    self.logs().len() == old(self).logs().len(),
                    forall|q: int| 0 <= q < old(self).ops().len() ==> #[trigger] self.logs()[q].len() >= old(self).logs()[q].len()
                        && self.logs()[q].take(old(self).logs()[q].len() as int) == old(self).logs()[q],
                    old(self).queue().len() == 0 ==> *self == *old(self),
                    self.seen().len() == old(self).seen().len(),
                    forall|q: int| 0 <= q < old(self).ops().len() ==> #[trigger] self.seen()[q] >= old(self).seen()[q],
                    forall|q: int| 0 <= q < old(self).ops().len() && is_source(old(self).ops()[q]) ==> #[trigger] self.logs()[q] == old(self).logs()[q],
                decreases n - i,
            {
                let ghost q0 = self.queue();
                let ghost s0 = *self;
                proof {
                    assert(self.queue@[0].from < self.ops@.len());
                    assert(q0[0] == (self.queue@[0].from, self.queue@[0].row@, self.queue@[0].delta));
                }
                let fits = {
                    let front = &self.queue[0];
                    self.fits_exec(front.from, &front.row, front.delta)
                };
                if !fits {
                    proof {
                        assert forall|q: int| 0 <= q < self.ops().len() implies #[trigger] pending_of(self.queue(), q as usize)
                            == self.logs()[q].skip(self.seen()[q] as int) by {
                            assert(self.seen@[q] <= self.logs@[q].len());
                        }
                        let f0 = q0[0].0;
                        lemma_pending_pop(q0, f0);
                        lemma_graph_facts(*self);
                        assert(self.logs()[f0 as int].skip(self.seen()[f0 as int] as int)[0] == self.logs()[f0 as int][self.seen()[f0 as int] as int]);
                        assert(unit(self.logs()[f0 as int][self.seen()[f0 as int] as int].1));
                        lemma_overflow_witness(*self, f0 as int, q0[0].1, q0[0].2 as int);
                    }
                    return Err(CountOverflow);
                }
                let item = self.queue.pop_front();
                match item {
                    Some(p) => {
                        proof {
                            assert(self.queue() =~= q0.subrange(1, q0.len() as int));
                            assert(q0[0] == (p.from, p.row@, p.delta));
                            assert(old(self).ops().len() == self.ops@.len());
                            let f = p.from as int;
                            let k = self.seen@[f];
                            lemma_pending_pop(q0, p.from);
                            assert(s0.logs@[f].skip(k as int)[0] == (p.row@, p.delta as int));
                            self.seen@ = self.seen@.update(f, k + 1);
                            assert forall|q: int| 0 <= q < self.ops@.len() implies #[trigger] self.seen@[q] <= self.logs@[q].len()
                                && pending_of(self.queue(), q as usize) == self.logs@[q].skip(self.seen@[q] as int) by {
                                lemma_pending_pop(q0, q as usize);
                                if q == f {
                                    assert(self.logs@[q].skip(k + 1 as int) =~= s0.logs@[q].skip(k as int).drop_first());
                                }
                            }
                            assert forall|i: int| 0 <= i < self.queue@.len() implies (#[trigger] self.queue@[i]).from
                                < self.ops@.len() && self.queue@[i].delta != 0 by {
                                assert(self.queue@[i] == s0.queue@[i + 1]);
                            }
                            assert(self.wf_base());
                            assert(self.seen@.update(f, (self.seen@[f] - 1) as nat) =~= s0.seen@);
                            assert(self.edges(f) == s0.edges(f));
                            assert(self.ops() == s0.ops());
                        }
                        let ghost q1 = self.queue();
                        let ghost s1 = *self;
                        self.deliver(p.from, &p.row, p.delta);
                        proof {
                            assert forall|j: int| 0 <= j < self.queue().len() implies (#[trigger] self.queue()[j]).0 >= round by {
                                if j < q1.len() {
                                    assert(self.queue().take(q1.len() as int)[j] == q1[j]);
                                    assert(q1[j] == q0[j + 1]);
                                }
                            }
                            assert forall|j: int| n - (i + 1) <= j < self.queue().len() implies (#[trigger] self.queue()[j]).0 > round by {
                                if j < q1.len() {
                                    assert(self.queue().take(q1.len() as int)[j] == q1[j]);
                                    assert(q1[j] == q0[j + 1]);
                                }
                            }
                            assert forall|q: int| 0 <= q < old(self).ops().len() implies #[trigger] self.logs()[q].len() >= old(self).logs()[q].len()
                                && self.logs()[q].take(old(self).logs()[q].len() as int) == old(self).logs()[q] by {
                                assert(s1.logs()[q] == s0.logs()[q]);
                                assert(s0.logs()[q].take(old(self).logs()[q].len() as int) == old(self).logs()[q]);
                                assert(self.logs()[q].take(s1.logs()[q].len() as int) == s1.logs()[q]);
                                assert(self.logs()[q].take(old(self).logs()[q].len() as int) =~= self.logs()[q].take(s1.logs()[q].len() as int).take(old(self).logs()[q].len() as int));
                            }
                        }
                    },
                    None => {
                        assert(false);
                    },
                }
                i = i + 1;
            }
            round = round + 1;
        }
        assert(self.queue().len() == 0);
        proof {
            assert forall|q: int| 0 <= q < self.ops().len() implies #[trigger] pending_of(self.queue(), q as usize)
                == self.logs()[q].skip(self.seen()[q] as int) by {
                assert(self.seen@[q] <= self.logs@[q].len());
            }
            lemma_settled(*self);
            lemma_quiescent(*self);
        }
        Ok(())
    }
}

/// `c + d` lies inside the range of `i64`.
fn add_fits(c: i64, d: i64) -> (r: bool)
    ensures
        r == in_i64(c + d),
{
    !((d > 0 && c > i64::MAX - d) || (d < 0 && c < i64::MIN - d))
}


impl System {
    /// Appends `e` to the listeners of relation `p`.
    fn push_edge(&mut self, p: usize, e: Edge)
        requires
            p < old(self).listeners@.len(),
        ensures
            final(self).ops == old(self).ops,
            final(self).queue == old(self).queue,
            final(self).logs == old(self).logs,
            final(self).seen == old(self).seen,
            final(self).listeners@.len() == old(self).listeners@.len(),
            forall|q: int| 0 <= q < old(self).listeners@.len() && q != p ==> final(self).listeners@[q] == old(self).listeners@[q],
            final(self).listeners@[p as int].edges@ == old(self).listeners@[p as int].edges@.push(e),
    {
        let mut l = Listeners { edges: Vec::new() };
        std::mem::swap(&mut l, &mut self.listeners[p]);
        l.edges.push(e);
        std::mem::swap(&mut l, &mut self.listeners[p]);
    }

    /// Adds operator `op`, whose queued deltas so far are `log`, all heard,
    /// and registers it as a listener of each of its inputs.
    fn attach(&mut self, op: Op, Ghost(log): Ghost<Seq<(Seq<i64>, int)>>) -> (id: usize)
        requires
            old(self).wf(),
            old(self).ops().len() < usize::MAX,
            op_wf(op, old(self).ops().len() as int),
            forall|i: int| 0 <= i < log.len() ==> unit(#[trigger] log[i].1),
            node_ok(
                old(self).ops().push(op),
                old(self).logs().push(log),
                old(self).seen().push(log.len()),
                old(self).ops().len() as int,
            ),
        ensures
            final(self).wf(),
            id == old(self).ops().len(),
            final(self).ops() == old(self).ops().push(op),
            final(self).queue() == old(self).queue(),
            final(self).logs() == old(self).logs().push(log),
            final(self).seen() == old(self).seen().push(log.len()),
            final(self).edges(id as int).len() == 0,
            forall|q: int| 0 <= q < old(self).ops().len() ==> #[trigger] final(self).edges(q) == match port_of(op, q) {
                Some(pt) => old(self).edges(q).push((Edge { consumer: id, port: pt })),
                None => old(self).edges(q),
            },
    {
        let (first, second): (Option<(usize, Port)>, Option<(usize, Port)>) = match &op {
            Op::Source(_) => (None, None),
            Op::Mapped(m) => (Some((m.input, Port::Input)), None),
            Op::Memo(d) => (Some((d.input, Port::Input)), None),
            Op::Join(j) => if j.left == j.right {
                (Some((j.left, Port::Both)), None)
            } else {
                (Some((j.left, Port::Left)), Some((j.right, Port::Right)))
            },
        };
        let ghost s0 = *self;
        let id = self.ops.allocate(op);
        self.listeners.push(Listeners { edges: Vec::new() });
        proof {
            self.logs@ = self.logs@.push(log);
            self.seen@ = self.seen@.push(log.len());
        }
        let ghost s1 = *self;
        match first {
            Some((p, port)) => self.push_edge(p, Edge { consumer: id, port }),
            None => {},
        }
        match second {
            Some((p, port)) => self.push_edge(p, Edge { consumer: id, port }),
            None => {},
        }
        proof {
            let n0 = s0.ops@.len();
            assert forall|q: int| 0 <= q < n0 implies #[trigger] self.edges(q) == match port_of(op, q) {
                Some(pt) => s0.edges(q).push((Edge { consumer: id, port: pt })),
                None => s0.edges(q),
            } by {
                assert(s1.listeners@[q] == s0.listeners@[q]);
            }
            assert(self.queue() == s0.queue());
            assert forall|n: int| 0 <= n < self.ops@.len() implies op_wf(#[trigger] self.ops@[n], n) by {
                if n < n0 {
                    assert(self.ops@[n] == s0.ops@[n]);
                }
            }
            assert forall|q: int| 0 <= q < n0 implies #[trigger] self.listeners@[q].edges@.take(
                s0.listeners@[q].edges@.len() as int) == s0.listeners@[q].edges@ by {
                assert(self.listeners@[q].edges@.take(s0.listeners@[q].edges@.len() as int) =~= s0.listeners@[q].edges@);
            }
            assert forall|q: int, k: int|
                0 <= q < self.ops@.len() && 0 <= k < self.listeners@[q].edges@.len() implies q
                    < #[trigger] self.listeners@[q].edges@[k].consumer < self.ops@.len()
                    && edge_ok(self.ops@, q, self.listeners@[q].edges@[k]) by {
                if q < n0 && k < s0.listeners@[q].edges@.len() {
                    assert(self.listeners@[q].edges@[k] == s0.listeners@[q].edges@[k]);
                    assert(edge_ok(s0.ops@, q, s0.listeners@[q].edges@[k]));
                }
            }
            assert forall|q: int, k1: int, k2: int|
                0 <= q < self.ops@.len() && 0 <= k1 < k2 < self.listeners@[q].edges@.len()
                    implies #[trigger] self.listeners@[q].edges@[k1].consumer
                    != #[trigger] self.listeners@[q].edges@[k2].consumer by {
                if q < n0 && k2 < s0.listeners@[q].edges@.len() {
                    assert(self.listeners@[q].edges@[k1] == s0.listeners@[q].edges@[k1]);
                    assert(self.listeners@[q].edges@[k2] == s0.listeners@[q].edges@[k2]);
                } else if q < n0 && k1 < s0.listeners@[q].edges@.len() {
                    assert(self.listeners@[q].edges@[k1] == s0.listeners@[q].edges@[k1]);
                    assert(s0.listeners@[q].edges@[k1].consumer < n0);
                }
            }
            assert forall|c: int, q: int|
                0 <= c < self.ops@.len() && 0 <= q < self.ops@.len() && #[trigger] is_input(self.ops@[c], q)
                    implies exists|k: int|
                    0 <= k < self.listeners@[q].edges@.len() && #[trigger] self.listeners@[q].edges@[k].consumer
                        == c by {
                if c < n0 {
                    assert(is_input(s0.ops@[c], q));
                    let k = choose|k: int| 0 <= k < s0.listeners@[q].edges@.len() && #[trigger] s0.listeners@[q].edges@[k].consumer == c;
                    assert(self.listeners@[q].edges@[k] == s0.listeners@[q].edges@[k]);
                } else {
                    assert(q < n0);
                    let k = self.listeners@[q].edges@.len() - 1;
                    assert(self.listeners@[q].edges@[k].consumer == c);
                }
            }
            assert forall|q: int| 0 <= q < self.ops@.len() implies #[trigger] self.seen@[q] <= self.logs@[q].len()
                && pending_of(self.queue(), q as usize) == self.logs@[q].skip(self.seen@[q] as int) by {
                if q == n0 {
                    lemma_pending_none(self.queue(), q as usize);
                    assert(self.logs@[q].skip(self.seen@[q] as int) =~= Seq::<(Seq<i64>, int)>::empty());
                }
            }
            assert forall|i: int| 0 <= i < self.queue@.len() implies (#[trigger] self.queue@[i]).from
                < self.ops@.len() && self.queue@[i].delta != 0 by {
                assert(s0.queue@[i] == self.queue@[i]);
            }
            assert forall|p: int, i: int|
                0 <= p < self.ops@.len() && 0 <= i < self.logs@[p].len() implies unit(#[trigger] self.logs@[p][i].1) by {
                if p < n0 {
                    assert(self.logs@[p] == s0.logs@[p]);
                }
            }
            assert(self.wf_base());
            {
                assert forall|n: int| 0 <= n < self.ops@.len() implies #[trigger] node_ok(self.ops@, self.logs@, self.seen@, n) by {
                    if n < n0 {
                        assert(node_ok(s0.ops@, s0.logs@, s0.seen@, n));
                        assert(op_wf(s0.ops@[n], n));
                        lemma_node_ok_push(s0.ops@, s0.logs@, s0.seen@, op, log, n);
                    }
                }
            }
        }
        id
    }

    /// The rows that relation `n` iterates.
    fn collect(&self, n: usize) -> (out: Vec<Row>)
        requires
            self.wf(),
            n < self.ops().len(),
        ensures
            rows_view(out@) == self.rows_at(n as int),
        decreases n,
    {
        proof {
            assert(op_wf(self.ops@[n as int], n as int));
        }
        match self.ops.get(n) {
            Op::Source(s) => {
                let mut out: Vec<Row> = Vec::new();
                let mut i: usize = 0;
                while i < s.rows.len()
                    invariant
                        i <= s.rows@.len(),
                        rows_view(out@) == rows_view(s.rows@).take(i as int),
                    decreases s.rows@.len() - i,
                {
                    let ghost before = out@;
                    out.push(copy_row(&s.rows[i]));
                    i = i + 1;
                    assert(rows_view(out@) =~= rows_view(before).push(s.rows@[i - 1]@));
                    assert(rows_view(s.rows@).take(i as int) =~= rows_view(s.rows@).take(i - 1).push(s.rows@[i - 1]@));
                }
                assert(rows_view(s.rows@).take(i as int) == rows_view(s.rows@));
                out
            },
            Op::Mapped(m) => {
                let inner = self.collect(m.input);
                let mut out: Vec<Row> = Vec::new();
                let mut i: usize = 0;
                while i < inner.len()
                    invariant
                        i <= inner@.len(),
                        m.f.wf(),
                        rows_view(out@) == rows_view(inner@).take(i as int).map_values(
                            |r: Seq<i64>| m.f.spec_apply(r),
                        ),
                    decreases inner@.len() - i,
                {
                    let ghost before = out@;
                    out.push(m.f.apply(&inner[i]));
                    i = i + 1;
                    assert(rows_view(out@) =~= rows_view(before).push(m.f.spec_apply(inner@[i - 1]@)));
                    assert(rows_view(inner@).take(i as int) =~= rows_view(inner@).take(i - 1).push(inner@[i - 1]@));
                    assert(rows_view(inner@).take(i as int).map_values(|r: Seq<i64>| m.f.spec_apply(r))
                        =~= rows_view(inner@).take(i - 1).map_values(|r: Seq<i64>| m.f.spec_apply(r)).push(m.f.spec_apply(inner@[i - 1]@)));
                }
                assert(rows_view(inner@).take(i as int) == rows_view(inner@));
                out
            },
            Op::Memo(d) => d.counts.present_rows(),
            Op::Join(j) => join_output(&j.left_counts, &j.right_counts, &j.key_left, &j.key_right),
        }
    }
}

impl Rel {
    /// The rows this relation iterates, with repeats.
    pub fn to_vec(&self, sys: &System) -> (out: Vec<Row>)
        requires
            sys.wf(),
            sys.has(*self),
        ensures
            rows_view(out@) == sys.rows(*self),
    {
        sys.collect(self.id)
    }

    /// The rows this relation iterates, with repeats, in ascending order.
    pub fn to_sorted_vec(&self, sys: &System) -> (out: Vec<Row>)
        requires
            sys.wf(),
            sys.has(*self),
        ensures
            rows_view(out@).to_multiset() == sys.rows(*self).to_multiset(),
            sorted(rows_view(out@)),
    {
        let rows = sys.collect(self.id);
        sort_rows(&rows)
    }
}


/// Appending an operator leaves what the earlier relations iterate unchanged.
pub proof fn lemma_snapshot_push(ops: Seq<Op>, op: Op, n: int)
    requires
        0 <= n < ops.len(),
    ensures
        snapshot(ops.push(op), n) == snapshot(ops, n),
    decreases n,
{
    assert(ops.push(op)[n] == ops[n]);
    match ops[n] {
        Op::Mapped(m) => {
            if 0 <= m.input < n {
                lemma_snapshot_push(ops, op, m.input as int);
            }
        },
        _ => {},
    }
}


proof fn lemma_quiescent_at(sys: System, n: int)
    requires
        sys.wf(),
        forall|q: int| 0 <= q < sys.ops().len() ==> #[trigger] sys.seen()[q] == sys.logs()[q].len(),
        0 <= n < sys.ops().len(),
    ensures
        forall|t: Seq<i64>| #[trigger] net(sys.logs()[n], t) == occurrences(snapshot(sys.ops(), n), t),
    decreases n,
{
    let ops = sys.ops@;
    let logs = sys.logs@;
    assert(node_ok(ops, logs, sys.seen@, n));
    assert(op_wf(ops[n], n));
    match ops[n] {
        Op::Source(src) => {
            assert forall|t: Seq<i64>| #[trigger] net(logs[n], t) == occurrences(snapshot(ops, n), t) by {
                lemma_occurrences_unique(rows_view(src.rows@), t);
            }
        },
        Op::Mapped(m) => {
            let p = m.input as int;
            lemma_quiescent_at(sys, p);
            let snap = snapshot(ops, p);
            assert(sys.seen()[p] == sys.logs()[p].len());
            assert(delivered(logs, sys.seen@, p) =~= logs[p]);
            assert forall|u: Seq<i64>| #[trigger] net(logs[p], u) == net(as_deltas(snap, 1), u) by {
                lemma_net_as_deltas(snap, 1, u);
            }
            assert(map_deltas(as_deltas(snap, 1), m.f) =~= as_deltas(snap.map_values(|r: Seq<i64>| m.f.spec_apply(r)), 1));
            assert forall|t: Seq<i64>| #[trigger] net(logs[n], t) == occurrences(snapshot(ops, n), t) by {
                lemma_map_respects_net(logs[p], as_deltas(snap, 1), m.f, t);
                lemma_net_as_deltas(snap.map_values(|r: Seq<i64>| m.f.spec_apply(r)), 1, t);
            }
        },
        Op::Memo(d) => {
            lemma_present_no_duplicates(d.counts.entries());
            assert(snapshot(ops, n) == present(d.counts.entries()));
            assert forall|t: Seq<i64>| #[trigger] net(logs[n], t) == occurrences(snapshot(ops, n), t) by {
                assert(d.counts.count(t) == net(delivered(logs, sys.seen@, d.input as int), t));
                lemma_present_contains(d.counts.entries(), t);
                lemma_occurrences_unique(present(d.counts.entries()), t);
            }
        },
        Op::Join(j) => {},
    }
}

/// With nothing queued, each relation has been heard in full, and has
/// queued, net, each row it iterates once per occurrence.
pub proof fn lemma_quiescent(sys: System)
    requires
        sys.wf(),
        sys.queue().len() == 0,
    ensures
        forall|q: int| 0 <= q < sys.ops().len() ==> #[trigger] sys.seen()[q] == sys.logs()[q].len(),
        forall|n: int, t: Seq<i64>| 0 <= n < sys.ops().len() ==> #[trigger] net(sys.logs()[n], t) == occurrences(snapshot(sys.ops(), n), t),
{
    assert forall|q: int| 0 <= q < sys.ops().len() implies #[trigger] sys.seen()[q] == sys.logs()[q].len() by {
        assert(sys.queue() =~= Seq::<(usize, Seq<i64>, i64)>::empty());
        lemma_pending_none(sys.queue(), q as usize);
        assert(sys.logs@[q].skip(sys.seen@[q] as int).len() == 0);
    }
    assert forall|n: int, t: Seq<i64>| 0 <= n < sys.ops().len() implies #[trigger] net(sys.logs()[n], t) == occurrences(snapshot(sys.ops(), n), t) by {
        lemma_quiescent_at(sys, n);
    }
}

/// With nothing queued, every operator has heard all of its inputs.
pub proof fn lemma_settled(sys: System)
    requires
        sys.wf(),
        sys.queue().len() == 0,
    ensures
        sys.settled(),
{
    lemma_quiescent(sys);
    assert forall|n: int| 0 <= n < sys.ops().len() implies match #[trigger] sys.ops()[n] {
        Op::Memo(d) => forall|t: Seq<i64>| #[trigger] d.counts.count(t) == occurrences(sys.rows_at(d.input as int), t),
        Op::Join(j) => (forall|x: Seq<i64>| #[trigger] j.left_counts.count(x) == occurrences(sys.rows_at(j.left as int), x))
            && (forall|y: Seq<i64>| #[trigger] j.right_counts.count(y) == occurrences(sys.rows_at(j.right as int), y)),
        _ => true,
    } by {
        assert(node_ok(sys.ops(), sys.logs(), sys.seen(), n));
        assert(op_wf(sys.ops()[n], n));
        match sys.ops()[n] {
            Op::Memo(d) => {
                let p = d.input as int;
                assert(sys.seen()[p] == sys.logs()[p].len());
                assert(delivered(sys.logs(), sys.seen(), p) =~= sys.logs()[p]);
                assert forall|t: Seq<i64>| #[trigger] d.counts.count(t) == occurrences(sys.rows_at(p), t) by {
                    assert(d.counts.count(t) == net(delivered(sys.logs(), sys.seen(), p), t));
                }
            },
            Op::Join(j) => {
                let a = j.left as int;
                let b = j.right as int;
                assert(sys.seen()[a] == sys.logs()[a].len());
                assert(sys.seen()[b] == sys.logs()[b].len());
                assert(delivered(sys.logs(), sys.seen(), a) =~= sys.logs()[a]);
                assert(delivered(sys.logs(), sys.seen(), b) =~= sys.logs()[b]);
                assert forall|x: Seq<i64>| #[trigger] j.left_counts.count(x) == occurrences(sys.rows_at(a), x) by {
                    assert(j.left_counts.count(x) == net(delivered(sys.logs(), sys.seen(), a), x));
                }
                assert forall|y: Seq<i64>| #[trigger] j.right_counts.count(y) == occurrences(sys.rows_at(b), y) by {
                    assert(j.right_counts.count(y) == net(delivered(sys.logs(), sys.seen(), b), y));
                }
            },
            _ => {},
        }
    }
}

/// What a well-formed graph guarantees of its logs: listeners have heard at
/// most what each relation queued, every queued delta is `1` or `-1`, and
/// every operator agrees with what it has heard.
pub proof fn lemma_graph_facts(sys: System)
    requires
        sys.wf(),
    ensures
        sys.logs().len() == sys.ops().len(),
        sys.seen().len() == sys.ops().len(),
        forall|p: int| 0 <= p < sys.ops().len() ==> #[trigger] sys.seen()[p] <= sys.logs()[p].len(),
        forall|p: int, i: int| 0 <= p < sys.ops().len() && 0 <= i < sys.logs()[p].len() ==> unit(#[trigger] sys.logs()[p][i].1),
        forall|n: int| 0 <= n < sys.ops().len() ==> #[trigger] node_ok(sys.ops(), sys.logs(), sys.seen(), n),
        forall|q: int| 0 <= q < sys.ops().len() ==> #[trigger] pending_of(sys.queue(), q as usize)
            == sys.logs()[q].skip(sys.seen()[q] as int),
{
    assert forall|p: int| 0 <= p < sys.ops().len() implies #[trigger] sys.seen()[p] <= sys.logs()[p].len() by {
        assert(sys.seen@[p] <= sys.logs@[p].len());
    }
    assert forall|q: int| 0 <= q < sys.ops().len() implies #[trigger] pending_of(sys.queue(), q as usize)
        == sys.logs()[q].skip(sys.seen()[q] as int) by {
        assert(sys.seen@[q] <= sys.logs@[q].len());
    }
}

/// A count overflows only after its operator has heard `i64::MAX` deltas of
/// one input.
proof fn lemma_overflow_witness(sys: System, p0: int, t: Seq<i64>, d: int)
    requires
        sys.wf(),
        0 <= p0 < sys.ops().len(),
        unit(d),
        !sys.fits(p0, t, d),
    ensures
        exists|c: int, p: int|
            0 <= c < sys.ops().len() && 0 <= p < sys.ops().len() && #[trigger] is_input(sys.ops()[c], p)
                && sys.seen()[p] >= i64::MAX,
{
    lemma_graph_facts(sys);
    let k = choose|k: int| 0 <= k < sys.edges(p0).len() && !fits_delta(sys.ops(), #[trigger] sys.edges(p0)[k], t, d);
    let e = sys.edges(p0)[k];
    let c = e.consumer as int;
    assert(edge_ok(sys.ops@, p0, sys.listeners@[p0].edges@[k]));
    assert(c < sys.ops().len());
    assert(node_ok(sys.ops(), sys.logs(), sys.seen(), c));
    let dl = delivered(sys.logs(), sys.seen(), p0);
    assert(dl.len() == sys.seen()[p0]);
    assert forall|i: int| 0 <= i < dl.len() implies #[trigger] dl[i].1 == 1 || dl[i].1 == -1 by {
        assert(dl[i] == sys.logs()[p0][i]);
        assert(unit(sys.logs()[p0][i].1));
    }
    lemma_net_bound(dl, t);
    assert(is_input(sys.ops()[c], p0));
}
} // verus!
