use vstd::prelude::*;

use crate::counts::{
    capped, lemma_occurrences, lemma_occurrences_unique, lemma_present_contains,
    lemma_present_no_duplicates, occurrences, present, Counts,
};
use crate::delta::{as_deltas, lemma_net_as_deltas, net};
use crate::row::rows_view;
use crate::simple::{
    is_input, is_source, port_of, Edge,
    delivered, lemma_quiescent, lemma_settled, lemma_snapshot_push, same_shape, snapshot, CountOverflow,
    MemoRel, Op, Rel, System,
};

verus! {

/// The distinct operator over `rel`: each row that `rel` iterates, once.
///
/// The queue is drained first, so that the new operator starts from the
/// fully propagated rows of `rel`: it counts each of them once per
/// occurrence and then listens to `rel`. Fails, adding nothing, when the
/// drain stops on a count overflow or `rel` iterates more than `i64::MAX`
/// rows.
pub fn new(sys: &mut System, rel: &Rel) -> (r: Result<Rel, CountOverflow>)
    requires
        old(sys).wf(),
        old(sys).has(*rel),
        old(sys).ops().len() < usize::MAX,
    ensures
        final(sys).wf(),
        forall|n: int| 0 <= n < old(sys).ops().len() ==> same_shape(old(sys).ops()[n], #[trigger] final(sys).ops()[n]),
        forall|q: int| 0 <= q < old(sys).ops().len() && is_source(old(sys).ops()[q]) ==> #[trigger] final(sys).logs()[q] == old(sys).logs()[q],
        match r {
            Ok(r) => {
                &&& r.id() == old(sys).ops().len()
                &&& final(sys).ops().len() == old(sys).ops().len() + 1
                &&& final(sys).queue().len() == 0
                &&& final(sys).settled()
                &&& match final(sys).ops()[r.id() as int] {
                    Op::Memo(d) => d.input == rel.id() && forall|u: Seq<i64>| #[trigger] d.counts.count(u) == occurrences(final(sys).rows(*rel), u),
                    _ => false,
                }
                &&& final(sys).edges(r.id() as int).len() == 0
                &&& forall|q: int| 0 <= q < old(sys).ops().len() ==> #[trigger] final(sys).edges(q) == match port_of(final(sys).ops()[r.id() as int], q) {
                    Some(pt) => old(sys).edges(q).push((Edge { consumer: r.id(), port: pt })),
                    None => old(sys).edges(q),
                }
                &&& final(sys).rows(r).no_duplicates()
                &&& forall|u: Seq<i64>| #[trigger] final(sys).rows(r).contains(u) <==> final(sys).rows(*rel).contains(u)
            },
            Err(_) => {
                &&& final(sys).ops().len() == old(sys).ops().len()
                &&& (final(sys).queue().len() > 0 && !final(sys).fits(
                    final(sys).queue()[0].0 as int,
                    final(sys).queue()[0].1,
                    final(sys).queue()[0].2 as int,
                ) && exists|c: int, p: int|
                    0 <= c < final(sys).ops().len() && 0 <= p < final(sys).ops().len()
                        && #[trigger] is_input(final(sys).ops()[c], p) && final(sys).seen()[p] >= i64::MAX) || (final(sys).queue().len() == 0 && final(sys).rows(*rel).len() > i64::MAX)
            },
        },
{
    let input = rel.index();
    match sys.run() {
        Ok(()) => {},
        Err(e) => {
            return Err(e);
        },
    }
    let snap = sys.collect(input);
    if snap.len() as u64 > i64::MAX as u64 {
        assert(sys.rows(*rel).len() == snap@.len());
        return Err(CountOverflow);
    }
    let counts = Counts::from_rows(&snap);
    let op = Op::Memo(MemoRel { input, counts });
    let ghost ops0 = sys.ops();
    let ghost log = as_deltas(present(counts.entries()), 1);
    proof {
        let snapv = snapshot(ops0, input as int);
        assert(rows_view(snap@) == snapv);
        lemma_quiescent(*sys);
        let logs2 = sys.logs().push(log);
        let seen2 = sys.seen().push(log.len());
        assert(logs2[input as int] == sys.logs()[input as int]);
        assert(seen2[input as int] == sys.seen()[input as int]);
        assert(delivered(logs2, seen2, input as int) =~= sys.logs()[input as int]);
        lemma_present_no_duplicates(counts.entries());
        assert forall|t: Seq<i64>| #[trigger] counts.count(t) == occurrences(snapv, t) by {
            lemma_occurrences(snapv, t);
        }
        assert forall|t: Seq<i64>| #[trigger] counts.count(t) == net(delivered(logs2, seen2, input as int), t)
            && net(logs2[ops0.len() as int], t) == if counts.count(t) != 0 { 1int } else { 0int } by {
            assert(counts.count(t) == occurrences(snapv, t));
            lemma_net_as_deltas(present(counts.entries()), 1, t);
            lemma_present_contains(counts.entries(), t);
            lemma_occurrences_unique(present(counts.entries()), t);
        }
        assert(sys.ops().push(op)[ops0.len() as int] == op);
    }
    let id = sys.attach(op, Ghost(log));
    let r = Rel { id };
    proof {
        lemma_snapshot_push(ops0, op, rel.id() as int);
        assert(sys.ops()[id as int] == op);
        assert(sys.rows(*rel) == rows_view(snap@));
        assert(sys.rows(r) == present(counts.entries()));
        lemma_present_no_duplicates(counts.entries());
        assert forall|u: Seq<i64>| #[trigger] sys.rows(r).contains(u) <==> sys.rows(*rel).contains(u) by {
            lemma_present_contains(counts.entries(), u);
            lemma_occurrences(sys.rows(*rel), u);
            assert(counts.count(u) == occurrences(rows_view(snap@), u));
        }
        lemma_settled(*sys);
    }
    Ok(r)
}

} // verus!
