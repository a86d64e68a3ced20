use vstd::prelude::*;

use crate::counts::{lemma_occurrences, lemma_present_contains, lemma_present_no_duplicates, present};
use crate::row::pair_row;
use crate::join::{joins, lemma_join_rows_contains, lemma_join_rows_unique, narrow, pairs_with};
use crate::simple::{delivered, lemma_quiescent, node_ok, op_wf, snapshot, Op, Rel, System};

verus! {

/// A map relation iterates its input's rows, each transformed by its
/// function, repeats included.
pub proof fn lemma_map_transparent(sys: System, r: Rel)
    requires
        sys.wf(),
        sys.has(r),
    ensures
        match sys.ops()[r.id() as int] {
            Op::Mapped(m) => sys.rows(r) == sys.rows_at(m.input as int).map_values(
                |t: Seq<i64>| m.f.spec_apply(t),
            ),
            _ => true,
        },
{
    assert(op_wf(sys.ops()[r.id() as int], r.id() as int));
}

/// A distinct relation iterates a set: each row once, exactly those whose
/// stored count is nonzero, however many deltas made up that count.
pub proof fn lemma_distinct_is_set(sys: System, r: Rel)
    requires
        sys.wf(),
        sys.has(r),
    ensures
        match sys.ops()[r.id() as int] {
            Op::Memo(d) => {
                &&& sys.rows(r).no_duplicates()
                &&& forall|t: Seq<i64>| #[trigger] sys.rows(r).contains(t) <==> d.counts.count(t) != 0
            },
            _ => true,
        },
{
    let n = r.id() as int;
    match sys.ops()[n] {
        Op::Memo(d) => {
            assert(op_wf(sys.ops()[n], n));
            assert(sys.rows(r) == present(d.counts.entries()));
            lemma_present_no_duplicates(d.counts.entries());
            assert forall|t: Seq<i64>| #[trigger] sys.rows(r).contains(t) <==> d.counts.count(t) != 0 by {
                lemma_present_contains(d.counts.entries(), t);
            }
        },
        _ => {},
    }
}

/// Once the queue is drained, a distinct relation iterates each row of its
/// input exactly once, and counts it as many times as the input iterates it.
pub proof fn lemma_distinct_after_pump(sys: System, r: Rel)
    requires
        sys.wf(),
        sys.queue().len() == 0,
        sys.has(r),
    ensures
        match sys.ops()[r.id() as int] {
            Op::Memo(d) => {
                &&& sys.rows(r).no_duplicates()
                &&& forall|t: Seq<i64>| #[trigger] sys.rows(r).contains(t) <==> sys.rows_at(d.input as int).contains(t)
                &&& forall|t: Seq<i64>| #[trigger] d.counts.count(t) == crate::counts::occurrences(sys.rows_at(d.input as int), t)
            },
            _ => true,
        },
{
    let n = r.id() as int;
    lemma_quiescent(sys);
    match sys.ops()[n] {
        Op::Memo(d) => {
            assert(node_ok(sys.ops(), sys.logs(), sys.seen(), n));
            assert(op_wf(sys.ops()[n], n));
            let p = d.input as int;
            assert(sys.seen()[p] == sys.logs()[p].len());
            assert(delivered(sys.logs(), sys.seen(), p) =~= sys.logs()[p]);
            assert(sys.rows(r) == present(d.counts.entries()));
            lemma_present_no_duplicates(d.counts.entries());
            assert forall|t: Seq<i64>| #[trigger] d.counts.count(t) == crate::counts::occurrences(sys.rows_at(p), t) by {
                assert(d.counts.count(t) == crate::delta::net(delivered(sys.logs(), sys.seen(), p), t));
            }
            assert forall|t: Seq<i64>| #[trigger] sys.rows(r).contains(t) <==> sys.rows_at(p).contains(t) by {
                assert(d.counts.count(t) == crate::counts::occurrences(sys.rows_at(p), t));
                lemma_present_contains(d.counts.entries(), t);
                lemma_occurrences(sys.rows_at(p), t);
            }
        },
        _ => {},
    }
}

/// Once the queue is drained, a join iterates exactly the rows `x ++ y` for
/// the rows `x` of its left input and `y` of its right input whose keys
/// agree.
pub proof fn lemma_join_after_pump(sys: System, r: Rel)
    requires
        sys.wf(),
        sys.queue().len() == 0,
        sys.has(r),
    ensures
        match sys.ops()[r.id() as int] {
            Op::Join(j) => forall|u: Seq<i64>| #[trigger] sys.rows(r).contains(u) <==> joins(
                u,
                sys.rows_at(j.left as int),
                sys.rows_at(j.right as int),
                j.key_left,
                j.key_right,
            ),
            _ => true,
        },
{
    let n = r.id() as int;
    lemma_quiescent(sys);
    match sys.ops()[n] {
        Op::Join(j) => {
            assert(node_ok(sys.ops(), sys.logs(), sys.seen(), n));
            assert(op_wf(sys.ops()[n], n));
            let a = j.left as int;
            let b = j.right as int;
            assert(sys.seen()[a] == sys.logs()[a].len());
            assert(sys.seen()[b] == sys.logs()[b].len());
            assert(delivered(sys.logs(), sys.seen(), a) =~= sys.logs()[a]);
            assert(delivered(sys.logs(), sys.seen(), b) =~= sys.logs()[b]);
            let le = j.left_counts.entries();
            let re = j.right_counts.entries();
            let xs = sys.rows_at(a);
            let ys = sys.rows_at(b);
            let pl = present(le);
            let pr = present(re);
            assert forall|x: Seq<i64>| #[trigger] pl.contains(x) <==> xs.contains(x) by {
                assert(j.left_counts.count(x) == crate::delta::net(delivered(sys.logs(), sys.seen(), a), x));
                lemma_present_contains(le, x);
                lemma_occurrences(xs, x);
            }
            assert forall|y: Seq<i64>| #[trigger] pr.contains(y) <==> ys.contains(y) by {
                assert(j.right_counts.count(y) == crate::delta::net(delivered(sys.logs(), sys.seen(), b), y));
                lemma_present_contains(re, y);
                lemma_occurrences(ys, y);
            }
            assert(sys.rows(r) == crate::join::join_rows(le, re, j.key_left, j.key_right));
            assert forall|u: Seq<i64>| #[trigger] sys.rows(r).contains(u) <==> joins(u, xs, ys, j.key_left, j.key_right) by {
                lemma_join_rows_contains(le, re, j.key_left, j.key_right, u);
                if joins(u, pl, pr, j.key_left, j.key_right) {
                    let x = choose|x: Seq<i64>| #[trigger] pl.contains(x) && pairs_with(u, x, j.key_left.spec_apply(x), pr, j.key_right);
                    let y = choose|y: Seq<i64>| #[trigger] pr.contains(y) && j.key_right.spec_apply(y) == j.key_left.spec_apply(x) && u == pair_row(x, y);
                    assert(ys.contains(y));
                    assert(pairs_with(u, x, j.key_left.spec_apply(x), ys, j.key_right));
                    assert(xs.contains(x));
                }
                if joins(u, xs, ys, j.key_left, j.key_right) {
                    let x = choose|x: Seq<i64>| #[trigger] xs.contains(x) && pairs_with(u, x, j.key_left.spec_apply(x), ys, j.key_right);
                    let y = choose|y: Seq<i64>| #[trigger] ys.contains(y) && j.key_right.spec_apply(y) == j.key_left.spec_apply(x) && u == pair_row(x, y);
                    assert(pr.contains(y));
                    assert(pairs_with(u, x, j.key_left.spec_apply(x), pr, j.key_right));
                    assert(pl.contains(x));
                }
            }
        },
        _ => {},
    }
}

/// A join iterates each pair's row at most once, while its left rows are
/// at most `i64::MAX` columns wide; the row of the pair `(x, y)` is
/// `pair_row(x, y)`, from which both are recovered.
pub proof fn lemma_join_pairs_once(sys: System, r: Rel)
    requires
        sys.wf(),
        sys.has(r),
    ensures
        match sys.ops()[r.id() as int] {
            Op::Join(j) => narrow(j.left_counts.entries()) ==> sys.rows(r).no_duplicates(),
            _ => true,
        },
{
    let n = r.id() as int;
    match sys.ops()[n] {
        Op::Join(j) => {
            assert(op_wf(sys.ops()[n], n));
            if narrow(j.left_counts.entries()) {
                lemma_join_rows_unique(j.left_counts.entries(), j.right_counts.entries(), j.key_left, j.key_right);
            }
        },
        _ => {},
    }
}

} // verus!
