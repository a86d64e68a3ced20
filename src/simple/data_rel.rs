use vstd::prelude::*;

use crate::row::rows_view;
use crate::row::{copy_row, rows_equal, Row};
use crate::delta::{as_deltas, lemma_net_push, net};
use crate::join::lemma_push_contains;
use crate::simple::{
    is_source, port_of, lemma_node_ok_extend, lemma_wf_base_update, lemma_wf_views, node_ok, op_wf, snapshot, with_sign, DataRel, Op,
    Rel, SourceState, System,
};

verus! {

/// The queue entries that relation `id` adds when it forwards `rows` with
/// delta `sign`.
pub open spec fn queued(id: usize, rows: Seq<Seq<i64>>, sign: i64) -> Seq<(usize, Seq<i64>, i64)> {
    with_sign(rows, sign).map_values(|e: (Seq<i64>, i64)| (id, e.0, e.1))
}

/// The index of `t` among `rows`, if it is there.
fn position(rows: &Vec<Row>, t: &Row) -> (r: Option<usize>)
    ensures
        match r {
            Some(i) => i < rows@.len() && rows@[i as int]@ == t@,
            None => !rows_view(rows@).contains(t@),
        },
{
    let mut i: usize = 0;
    while i < rows.len()
        invariant
            i <= rows@.len(),
            forall|j: int| 0 <= j < i ==> rows@[j]@ != t@,
        decreases rows@.len() - i,
    {
        if rows_equal(&rows[i], t) {
            return Some(i);
        }
        i = i + 1;
    }
    proof {
        if rows_view(rows@).contains(t@) {
            let j = choose|j: int| 0 <= j < rows_view(rows@).len() && rows_view(rows@)[j] == t@;
            assert(rows@[j]@ == t@);
        }
    }
    None
}

/// The set of rows after the mutations `ops`, applied in order to `s`:
/// `(true, t)` adds `t`, `(false, t)` removes it.
pub open spec fn apply_ops(s: Set<Seq<i64>>, ops: Seq<(bool, Seq<i64>)>) -> Set<Seq<i64>>
    decreases ops.len(),
{
    if ops.len() == 0 {
        s
    } else {
        let s1 = apply_ops(s, ops.drop_last());
        if ops.last().0 {
            s1.insert(ops.last().1)
        } else {
            s1.remove(ops.last().1)
        }
    }
}

/// The last mutation of `t` among `ops`: `Some(true)` for an add,
/// `Some(false)` for a remove.
pub open spec fn last_op(ops: Seq<(bool, Seq<i64>)>, t: Seq<i64>) -> Option<bool>
    decreases ops.len(),
{
    if ops.len() == 0 {
        None
    } else if ops.last().1 == t {
        Some(ops.last().0)
    } else {
        last_op(ops.drop_last(), t)
    }
}

/// Mutations compose: applying `ops` then `more` is applying `ops + more`.
pub proof fn lemma_apply_ops_concat(s: Set<Seq<i64>>, ops: Seq<(bool, Seq<i64>)>, more: Seq<(bool, Seq<i64>)>)
    ensures
        apply_ops(apply_ops(s, ops), more) == apply_ops(s, ops + more),
    decreases more.len(),
{
    if more.len() == 0 {
        assert(ops + more == ops);
    } else {
        lemma_apply_ops_concat(s, ops, more.drop_last());
        assert((ops + more).drop_last() == ops + more.drop_last());
    }
}

/// After any sequence of adds and removes, a row is present exactly when
/// its last mutation was an add, or, when it was never mutated, when it was
/// present at the start.
pub proof fn lemma_source_sequence(s: Set<Seq<i64>>, ops: Seq<(bool, Seq<i64>)>, t: Seq<i64>)
    ensures
        apply_ops(s, ops).contains(t) == match last_op(ops, t) {
            Some(added) => added,
            None => s.contains(t),
        },
    decreases ops.len(),
{
    if ops.len() > 0 {
        lemma_source_sequence(s, ops.drop_last(), t);
    }
}

/// A source whose rows changed by `sign` at `t`, and which queued `(t, sign)`,
/// leaves the graph well formed.
proof fn lemma_source_step(s0: System, s1: System, id: int, t: Seq<i64>, sign: int)
    requires
        s0.wf(),
        s1.wf_base(),
        0 <= id < s0.ops().len(),
        s1.ops().len() == s0.ops().len(),
        forall|n: int| 0 <= n < s0.ops().len() && n != id ==> s1.ops()[n] == s0.ops()[n],
        is_source(s0.ops()[id]),
        is_source(s1.ops()[id]),
        s1.logs() == s0.logs().update(id, s0.logs()[id].push((t, sign))),
        s1.seen() == s0.seen(),
        forall|u: Seq<i64>| #[trigger] snapshot(s1.ops(), id).contains(u) == (if u == t {
            sign == 1
        } else {
            snapshot(s0.ops(), id).contains(u)
        }),
        sign == 1 || sign == -1,
        sign == 1 ==> !snapshot(s0.ops(), id).contains(t),
        sign == -1 ==> snapshot(s0.ops(), id).contains(t),
    ensures
        s1.wf(),
{
    match s0.ops()[id] {
        Op::Source(src0) => {
            assert(snapshot(s0.ops(), id) == rows_view(src0.rows@));
        },
        _ => {},
    }
    match s1.ops()[id] {
        Op::Source(src1) => {
            assert(snapshot(s1.ops(), id) == rows_view(src1.rows@));
        },
        _ => {},
    }
    {
        assert forall|n: int| 0 <= n < s1.ops().len() implies #[trigger] node_ok(s1.ops(), s1.logs(), s1.seen(), n) by {
            assert(node_ok(s0.ops(), s0.logs(), s0.seen(), n));
            if n == id {
                assert forall|u: Seq<i64>| #[trigger] net(s1.logs()[n], u) == if snapshot(s1.ops(), id).contains(u) {
                    1int
                } else {
                    0int
                } by {
                    lemma_net_push(s0.logs()[n], (t, sign), u);
                }
            } else {
                assert(s1.ops()[n] == s0.ops()[n]);
                assert(op_wf(s0.ops()[n], n));
                assert(node_ok(s1.ops(), s0.logs(), s0.seen(), n));
                assert(s1.logs()[id].take(s0.logs()[id].len() as int) =~= s0.logs()[id]);
                lemma_node_ok_extend(s1.ops(), s0.logs(), s1.logs(), s0.seen(), n, id);
            }
        }
    }
}

impl DataRel {
    /// The relation view of this base relation.
    pub fn rel(&self) -> (r: Rel)
        ensures
            r.id() == self.id(),
    {
        Rel { id: self.id }
    }

    /// Makes `t` present. Does nothing when it already is; otherwise queues
    /// the delta `(t, +1)`.
    pub fn add(&self, sys: &mut System, t: &Row)
        requires
            old(sys).wf(),
            old(sys).has_data(*self),
        ensures
            final(sys).wf(),
            final(sys).has_data(*self),
            final(sys).ops().len() == old(sys).ops().len(),
            forall|n: int| 0 <= n < old(sys).ops().len() && n != self.id() ==> final(sys).ops()[n] == old(sys).ops()[n],
            forall|p: int| 0 <= p < old(sys).ops().len() ==> final(sys).edges(p) == old(sys).edges(p),
            final(sys).rows_at(self.id() as int).no_duplicates(),
            forall|u: Seq<i64>| #[trigger] final(sys).rows_at(self.id() as int).contains(u) <==> (u == t@ || old(sys).rows_at(self.id() as int).contains(u)),
            final(sys).rows_at(self.id() as int).to_set() == apply_ops(old(sys).rows_at(self.id() as int).to_set(), seq![(true, t@)]),
            old(sys).rows_at(self.id() as int).contains(t@) ==> final(sys).rows_at(self.id() as int) == old(sys).rows_at(self.id() as int)
                && final(sys).queue() == old(sys).queue(),
            !old(sys).rows_at(self.id() as int).contains(t@) ==> final(sys).rows_at(self.id() as int) == old(sys).rows_at(self.id() as int).push(t@)
                && final(sys).queue() == old(sys).queue().push((self.id(), t@, 1)),
            final(sys).seen() == old(sys).seen(),
            final(sys).logs() == if old(sys).rows_at(self.id() as int).contains(t@) {
                old(sys).logs()
            } else {
                old(sys).logs().update(self.id() as int, old(sys).logs()[self.id() as int].push((t@, 1int)))
            },
    {
        let ghost ops0 = sys.ops@;
        let ghost s0 = *sys;
        let found = match sys.ops.get(self.id) {
            Op::Source(s) => position(&s.rows, t),
            _ => None,
        };
        if found.is_none() {
            let op = sys.ops.get_mut(self.id);
            match op {
                Op::Source(s) => {
                    let ghost r0 = s.rows@;
                    s.rows.push(copy_row(t));
                    proof {
                        let v0 = rows_view(r0);
                        assert(rows_view(s.rows@) =~= v0.push(t@));
                        assert(v0 == crate::simple::snapshot(ops0, self.id as int));
                        assert forall|u: Seq<i64>| #[trigger] v0.push(t@).contains(u) <==> (u == t@ || v0.contains(u)) by {
                            lemma_push_contains(v0, t@, u);
                        }
                        lemma_wf_base_update(s0, *sys, self.id as int);
                    }
                    sys.emit(self.id, copy_row(t), 1);
                    assert(sys.rows_at(self.id as int) == rows_view(s.rows@));
                    proof {
                        lemma_source_step(s0, *sys, self.id as int, t@, 1);
                    }
                },
                _ => {},
            }
        } else {
            proof {
                let i = found->Some_0;
                assert(rows_view(match s0.ops@[self.id as int] { Op::Source(s) => s.rows@, _ => Seq::empty() })[i as int] == t@);
            }
        }
        proof {
            let ops1 = seq![(true, t@)];
            let b = old(sys).rows_at(self.id() as int).to_set();
            assert(ops1.drop_last() =~= Seq::<(bool, Seq<i64>)>::empty());
            assert(apply_ops(b, ops1.drop_last()) == b);
            assert(ops1.last() == (true, t@));
            assert(apply_ops(b, ops1) == b.insert(t@));
            assert(sys.rows_at(self.id() as int).to_set() =~= old(sys).rows_at(self.id() as int).to_set().insert(t@));
        }
    }

    /// Makes `t` absent. Does nothing when it already is; otherwise queues
    /// the delta `(t, -1)`.
    pub fn remove(&self, sys: &mut System, t: &Row)
        requires
            old(sys).wf(),
            old(sys).has_data(*self),
        ensures
            final(sys).wf(),
            final(sys).has_data(*self),
            final(sys).ops().len() == old(sys).ops().len(),
            forall|n: int| 0 <= n < old(sys).ops().len() && n != self.id() ==> final(sys).ops()[n] == old(sys).ops()[n],
            forall|p: int| 0 <= p < old(sys).ops().len() ==> final(sys).edges(p) == old(sys).edges(p),
            final(sys).rows_at(self.id() as int).no_duplicates(),
            forall|u: Seq<i64>| #[trigger] final(sys).rows_at(self.id() as int).contains(u) <==> (u != t@ && old(sys).rows_at(self.id() as int).contains(u)),
            final(sys).rows_at(self.id() as int).to_set() == apply_ops(old(sys).rows_at(self.id() as int).to_set(), seq![(false, t@)]),
            !old(sys).rows_at(self.id() as int).contains(t@) ==> final(sys).rows_at(self.id() as int) == old(sys).rows_at(self.id() as int)
                && final(sys).queue() == old(sys).queue(),
            old(sys).rows_at(self.id() as int).contains(t@) ==> final(sys).queue() == old(sys).queue().push((self.id(), t@, -1i64)),
            final(sys).seen() == old(sys).seen(),
            final(sys).logs() == if old(sys).rows_at(self.id() as int).contains(t@) {
                old(sys).logs().update(self.id() as int, old(sys).logs()[self.id() as int].push((t@, -1int)))
            } else {
                old(sys).logs()
            },
    {
        let ghost ops0 = sys.ops@;
        let ghost s0 = *sys;
        let found = match sys.ops.get(self.id) {
            Op::Source(s) => position(&s.rows, t),
            _ => None,
        };
        match found {
            None => {},
            Some(i) => {
                let op = sys.ops.get_mut(self.id);
                match op {
                    Op::Source(s) => {
                        let ghost r0 = s.rows@;
                        s.rows.remove(i);
                        proof {
                            let v0 = rows_view(r0);
                            assert(v0 == crate::simple::snapshot(ops0, self.id as int));
                            assert(v0[i as int] == t@);
                            assert(rows_view(s.rows@) =~= v0.remove(i as int));
                            assert forall|u: Seq<i64>| #[trigger] v0.remove(i as int).contains(u) <==> (u != t@ && v0.contains(u)) by {
                                if v0.remove(i as int).contains(u) {
                                    let j = choose|j: int| 0 <= j < v0.len() - 1 && v0.remove(i as int)[j] == u;
                                    if j < i {
                                        assert(v0[j] == u);
                                    } else {
                                        assert(v0[j + 1] == u);
                                    }
                                }
                                if u != t@ && v0.contains(u) {
                                    let j = choose|j: int| 0 <= j < v0.len() && v0[j] == u;
                                    if j < i {
                                        assert(v0.remove(i as int)[j] == u);
                                    } else {
                                        assert(j != i);
                                        assert(v0.remove(i as int)[j - 1] == u);
                                    }
                                }
                            }
                            assert(rows_view(s.rows@).no_duplicates()) by {
                                assert forall|a: int, b: int| 0 <= a < b < rows_view(s.rows@).len() implies
                                    rows_view(s.rows@)[a] != rows_view(s.rows@)[b] by {
                                    let a0 = if a < i { a } else { a + 1 };
                                    let b0 = if b < i { b } else { b + 1 };
                                    assert(rows_view(s.rows@)[a] == v0[a0] && rows_view(s.rows@)[b] == v0[b0]);
                                }
                            }
                            lemma_wf_base_update(s0, *sys, self.id as int);
                        }
                        sys.emit(self.id, copy_row(t), -1);
                        assert(sys.rows_at(self.id as int) == rows_view(s.rows@));
                        proof {
                            lemma_source_step(s0, *sys, self.id as int, t@, -1);
                        }
                    },
                    _ => {},
                }
            },
        }
    proof {
            let ops1 = seq![(false, t@)];
            let b = old(sys).rows_at(self.id() as int).to_set();
            assert(ops1.drop_last() =~= Seq::<(bool, Seq<i64>)>::empty());
            assert(apply_ops(b, ops1.drop_last()) == b);
            assert(ops1.last() == (false, t@));
            assert(apply_ops(b, ops1) == b.remove(t@));
            assert(sys.rows_at(self.id() as int).to_set() =~= old(sys).rows_at(self.id() as int).to_set().remove(t@));
        }
        }
}

/// The rows of `s`, each once, in the order of their first occurrence.
pub open spec fn first_occurrences(s: Seq<Seq<i64>>) -> Seq<Seq<i64>>
    decreases s.len(),
{
    if s.len() == 0 {
        s
    } else {
        let f = first_occurrences(s.drop_last());
        if f.contains(s.last()) {
            f
        } else {
            f.push(s.last())
        }
    }
}

/// A base relation holding the rows of `initial`, each once, in the order of
/// their first occurrence. Each of them queues the delta `(row, +1)`, in
/// that order.
pub fn new(sys: &mut System, initial: &Vec<Row>) -> (r: (DataRel, Rel))
    requires
        old(sys).wf(),
        old(sys).ops().len() < usize::MAX,
    ensures
        final(sys).wf(),
        r.0.id() == old(sys).ops().len(),
        r.1.id() == r.0.id(),
        final(sys).has_data(r.0),
        final(sys).ops().len() == old(sys).ops().len() + 1,
        forall|n: int| 0 <= n < old(sys).ops().len() ==> final(sys).ops()[n] == old(sys).ops()[n],
        final(sys).rows(r.1) == first_occurrences(rows_view(initial@)),
        final(sys).rows(r.1).len() <= initial@.len(),
        final(sys).rows(r.1).no_duplicates(),
        forall|u: Seq<i64>| #[trigger] final(sys).rows(r.1).contains(u) <==> rows_view(initial@).contains(u),
        final(sys).queue() == old(sys).queue() + queued(r.0.id(), final(sys).rows(r.1), 1),
        final(sys).logs() == old(sys).logs().push(as_deltas(final(sys).rows(r.1), 1)),
        final(sys).seen() == old(sys).seen().push(0),
        final(sys).edges(r.0.id() as int).len() == 0,
        forall|q: int| 0 <= q < old(sys).ops().len() ==> #[trigger] final(sys).edges(q) == old(sys).edges(q),
{
    let ghost ops0 = sys.ops();
    let op = Op::Source(SourceState { rows: Vec::new() });
    proof {
        assert(rows_view(Seq::<Row>::empty()) =~= Seq::<Seq<i64>>::empty());
        assert(sys.ops().push(op)[ops0.len() as int] == op);
    }
    let id = sys.attach(op, Ghost(Seq::empty()));
    proof {
        assert(as_deltas(Seq::<Seq<i64>>::empty(), 1) =~= Seq::<(Seq<i64>, int)>::empty());
        assert forall|q: int| 0 <= q < old(sys).ops().len() implies #[trigger] sys.edges(q) == old(sys).edges(q) by {
            assert(port_of(op, q) is None);
        }
    }
    let d = DataRel { id };
    let rel = Rel { id };
    proof {
        assert(rows_view(Seq::<Row>::empty()) =~= Seq::<Seq<i64>>::empty());
        assert(sys.rows_at(id as int) == Seq::<Seq<i64>>::empty());
        assert(queued(id, Seq::<Seq<i64>>::empty(), 1) =~= Seq::<(usize, Seq<i64>, i64)>::empty());
        assert(sys.queue() =~= old(sys).queue() + queued(id, Seq::<Seq<i64>>::empty(), 1));
    }
    let mut i: usize = 0;
    proof {
        assert(rows_view(initial@).take(0) =~= Seq::<Seq<i64>>::empty());
    }
    while i < initial.len()
        invariant
            sys.wf(),
            i <= initial@.len(),
            id == ops0.len(),
            d.id() == id,
            sys.has_data(d),
            sys.ops().len() == ops0.len() + 1,
            ops0 == old(sys).ops(),
            forall|n: int| 0 <= n < ops0.len() ==> sys.ops()[n] == ops0[n],
            sys.rows_at(id as int).no_duplicates(),
            sys.rows_at(id as int) == first_occurrences(rows_view(initial@).take(i as int)),
            sys.rows_at(id as int).len() <= i,
            forall|u: Seq<i64>| #[trigger] sys.rows_at(id as int).contains(u) <==> rows_view(initial@).take(i as int).contains(u),
            sys.queue() == old(sys).queue() + queued(id, sys.rows_at(id as int), 1),
            sys.logs() == old(sys).logs().push(as_deltas(sys.rows_at(id as int), 1)),
            sys.seen() == old(sys).seen().push(0),
            sys.edges(id as int).len() == 0,
            forall|q: int| 0 <= q < old(sys).ops().len() ==> #[trigger] sys.edges(q) == old(sys).edges(q),
        decreases initial@.len() - i,
    {
        let ghost rows0 = sys.rows_at(id as int);
        let ghost before = *sys;
        d.add(sys, &initial[i]);
        proof {
            assert forall|q: int| 0 <= q < old(sys).ops().len() implies #[trigger] sys.edges(q) == old(sys).edges(q) by {
                assert(0 <= q < before.ops().len());
                assert(sys.edges(q) == before.edges(q));
            }
            assert(sys.edges(id as int) == before.edges(id as int));
            let t = initial@[i as int]@;
            let v = rows_view(initial@);
            assert(v.take(i + 1) == v.take(i as int).push(t));
            assert(v.take(i + 1).drop_last() == v.take(i as int));
            assert forall|u: Seq<i64>| #[trigger] sys.rows_at(id as int).contains(u) <==> v.take(i + 1).contains(u) by {
                crate::join::lemma_push_contains(v.take(i as int), t, u);
            }
            if !rows0.contains(t) {
                assert(queued(id, rows0.push(t), 1) =~= queued(id, rows0, 1).push((id, t, 1)));
                assert(as_deltas(rows0.push(t), 1) =~= as_deltas(rows0, 1).push((t, 1int)));
                assert(sys.logs() =~= old(sys).logs().push(as_deltas(sys.rows_at(id as int), 1)));
            }
        }
        i = i + 1;
    }
    proof {
        assert(rows_view(initial@).take(i as int) == rows_view(initial@));
    }
    (d, rel)
}

} // verus!
