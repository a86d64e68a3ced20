use vstd::prelude::*;

use crate::counts::{capped, lemma_occurrences, lemma_present_contains, occurrences, present, Counts};
use crate::delta::{as_deltas, lemma_net_as_deltas, net};
use crate::row::pair_row;
use crate::join::{join_rows, joins, lemma_join_rows_contains, pairs_with};
use crate::row::{rows_view, Row, RowFn};
use crate::simple::{
    is_input, is_source, port_of, Edge,
    delivered, lemma_quiescent, lemma_settled, lemma_snapshot_push, same_shape, snapshot, CountOverflow,
    JoinRel, Op, Rel, System,
};

verus! {

/// A table counting `rows`, whose present rows are those of `rows`.
fn count_rows(rows: &Vec<Row>) -> (c: Counts)
    ensures
        c.wf(),
        forall|x: Seq<i64>| #[trigger] c.count(x) == capped(occurrences(rows_view(rows@), x)),
        forall|x: Seq<i64>| #[trigger] present(c.entries()).contains(x) <==> rows_view(rows@).contains(x),
{
    let c = Counts::from_rows(rows);
    proof {
        assert forall|x: Seq<i64>| #[trigger] present(c.entries()).contains(x) <==> rows_view(rows@).contains(x) by {
            lemma_present_contains(c.entries(), x);
            lemma_occurrences(rows_view(rows@), x);
            assert(c.count(x) == capped(occurrences(rows_view(rows@), x)));
            assert(present(c.entries()).contains(x) <==> c.count(x) != 0);
            assert(c.count(x) != 0 <==> occurrences(rows_view(rows@), x) > 0);
        }
    }
    c
}

/// The equi-join of `a` and `b` on the keys `ka` and `kb`: the rows
/// `x ++ y` for each row `x` of `a` and `y` of `b` with `ka(x) == kb(y)`.
///
/// The queue is drained first, so that the new operator starts from the
/// fully propagated rows of both inputs; it then listens to both (once, on
/// both ports, when `a` and `b` are the same relation). Fails, adding
/// nothing, when the drain stops on a count overflow or an input iterates
/// more than `i64::MAX` rows.
pub fn new(sys: &mut System, a: &Rel, b: &Rel, ka: RowFn, kb: RowFn) -> (r: Result<Rel, CountOverflow>)
    requires
        old(sys).wf(),
        old(sys).has(*a),
        old(sys).has(*b),
        old(sys).ops().len() < usize::MAX,
        ka.wf(),
        kb.wf(),
    ensures
        final(sys).wf(),
        forall|n: int| 0 <= n < old(sys).ops().len() ==> same_shape(old(sys).ops()[n], #[trigger] final(sys).ops()[n]),
        forall|q: int| 0 <= q < old(sys).ops().len() && is_source(old(sys).ops()[q]) ==> #[trigger] final(sys).logs()[q] == old(sys).logs()[q],
        match r {
            Ok(r) => {
                &&& r.id() == old(sys).ops().len()
                &&& final(sys).ops().len() == old(sys).ops().len() + 1
                &&& final(sys).queue().len() == 0
                &&& final(sys).settled()
                &&& match final(sys).ops()[r.id() as int] {
                    Op::Join(j) => j.left == a.id() && j.right == b.id() && j.key_left == ka && j.key_right == kb,
                    _ => false,
                }
                &&& final(sys).edges(r.id() as int).len() == 0
                &&& forall|q: int| 0 <= q < old(sys).ops().len() ==> #[trigger] final(sys).edges(q) == match port_of(final(sys).ops()[r.id() as int], q) {
                    Some(pt) => old(sys).edges(q).push((Edge { consumer: r.id(), port: pt })),
                    None => old(sys).edges(q),
                }
                &&& forall|u: Seq<i64>| #[trigger] final(sys).rows(r).contains(u) <==> joins(u, final(sys).rows(*a), final(sys).rows(*b), ka, kb)
            },
            Err(_) => {
                &&& final(sys).ops().len() == old(sys).ops().len()
                &&& (final(sys).queue().len() > 0 && !final(sys).fits(
                    final(sys).queue()[0].0 as int,
                    final(sys).queue()[0].1,
                    final(sys).queue()[0].2 as int,
                ) && exists|c: int, p: int|
                    0 <= c < final(sys).ops().len() && 0 <= p < final(sys).ops().len()
                        && #[trigger] is_input(final(sys).ops()[c], p) && final(sys).seen()[p] >= i64::MAX) || (final(sys).queue().len() == 0 && (final(sys).rows(*a).len() > i64::MAX
                    || final(sys).rows(*b).len() > i64::MAX))
            },
        },
{
    let ia = a.index();
    let ib = b.index();
    match sys.run() {
        Ok(()) => {},
        Err(e) => {
            return Err(e);
        },
    }
    let snap_a = sys.collect(ia);
    let snap_b = sys.collect(ib);
    if snap_a.len() as u64 > i64::MAX as u64 || snap_b.len() as u64 > i64::MAX as u64 {
        assert(sys.rows(*a).len() == snap_a@.len() && sys.rows(*b).len() == snap_b@.len());
        return Err(CountOverflow);
    }
    let left_counts = count_rows(&snap_a);
    let right_counts = count_rows(&snap_b);
    let ghost le = left_counts.entries();
    let ghost re = right_counts.entries();
    let op = Op::Join(JoinRel { left: ia, right: ib, key_left: ka, key_right: kb, left_counts, right_counts });
    let ghost ops0 = sys.ops();
    let ghost log = as_deltas(join_rows(le, re, ka, kb), 1);
    proof {
        {
            let sa = snapshot(ops0, ia as int);
            let sb = snapshot(ops0, ib as int);
            assert(rows_view(snap_a@) == sa);
            assert(rows_view(snap_b@) == sb);
            assert forall|t: Seq<i64>| #[trigger] occurrences(sa, t) <= i64::MAX by {
                lemma_occurrences(sa, t);
            }
            assert forall|t: Seq<i64>| #[trigger] occurrences(sb, t) <= i64::MAX by {
                lemma_occurrences(sb, t);
            }
            {
                lemma_quiescent(*sys);
                let logs2 = sys.logs().push(log);
                let seen2 = sys.seen().push(log.len());
                assert(delivered(logs2, seen2, ia as int) =~= sys.logs()[ia as int]);
                assert(delivered(logs2, seen2, ib as int) =~= sys.logs()[ib as int]);
                assert(rows_view(snap_a@) == sa);
                assert(rows_view(snap_b@) == sb);
                assert forall|x: Seq<i64>| #[trigger] left_counts.count(x) == net(delivered(logs2, seen2, ia as int), x) by {
                    assert(occurrences(sa, x) <= i64::MAX);
                }
                assert forall|y: Seq<i64>| #[trigger] right_counts.count(y) == net(delivered(logs2, seen2, ib as int), y) by {
                    assert(occurrences(sb, y) <= i64::MAX);
                }
                assert forall|r: Seq<i64>| #[trigger] net(logs2[ops0.len() as int], r) == occurrences(join_rows(le, re, ka, kb), r) by {
                    lemma_net_as_deltas(join_rows(le, re, ka, kb), 1, r);
                }
                assert(sys.ops().push(op)[ops0.len() as int] == op);
            }
        }
    }
    let id = sys.attach(op, Ghost(log));
    let r = Rel { id };
    proof {
        lemma_snapshot_push(ops0, op, ia as int);
        lemma_snapshot_push(ops0, op, ib as int);
        assert(sys.ops()[id as int] == op);
        let xs = sys.rows(*a);
        let ys = sys.rows(*b);
        let pl = present(left_counts.entries());
        let pr = present(right_counts.entries());
        assert(xs == rows_view(snap_a@));
        assert(ys == rows_view(snap_b@));
        assert forall|u: Seq<i64>| #[trigger] sys.rows(r).contains(u) <==> joins(u, xs, ys, ka, kb) by {
            lemma_join_rows_contains(left_counts.entries(), right_counts.entries(), ka, kb, u);
            if joins(u, pl, pr, ka, kb) {
                let x = choose|x: Seq<i64>| #[trigger] pl.contains(x) && pairs_with(u, x, ka.spec_apply(x), pr, kb);
                let y = choose|y: Seq<i64>| #[trigger] pr.contains(y) && kb.spec_apply(y) == ka.spec_apply(x) && u == pair_row(x, y);
                assert(ys.contains(y));
                assert(pairs_with(u, x, ka.spec_apply(x), ys, kb));
                assert(xs.contains(x));
            }
            if joins(u, xs, ys, ka, kb) {
                let x = choose|x: Seq<i64>| #[trigger] xs.contains(x) && pairs_with(u, x, ka.spec_apply(x), ys, kb);
                let y = choose|y: Seq<i64>| #[trigger] ys.contains(y) && kb.spec_apply(y) == ka.spec_apply(x) && u == pair_row(x, y);
                assert(pr.contains(y));
                assert(pairs_with(u, x, ka.spec_apply(x), pr, kb));
                assert(pl.contains(x));
            }
        }
        lemma_settled(*sys);
    }
    Ok(r)
}

} // verus!
