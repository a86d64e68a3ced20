use vstd::prelude::*;

use crate::counts::occurrences;
use crate::row::RowFn;

verus! {

/// The net change that a sequence of deltas makes to the multiplicity of `t`.
pub open spec fn net(l: Seq<(Seq<i64>, int)>, t: Seq<i64>) -> int
    decreases l.len(),
{
    if l.len() == 0 {
        0
    } else {
        net(l.drop_last(), t) + if l.last().0 == t {
            l.last().1
        } else {
            0
        }
    }
}

/// The deltas a map operator forwards for the deltas `l` of its input.
pub open spec fn map_deltas(l: Seq<(Seq<i64>, int)>, f: RowFn) -> Seq<(Seq<i64>, int)> {
    l.map_values(|e: (Seq<i64>, int)| (f.spec_apply(e.0), e.1))
}

/// Each row of `s` with the delta `d`.
pub open spec fn as_deltas(s: Seq<Seq<i64>>, d: int) -> Seq<(Seq<i64>, int)> {
    s.map_values(|r: Seq<i64>| (r, d))
}

pub open spec fn negate(l: Seq<(Seq<i64>, int)>) -> Seq<(Seq<i64>, int)> {
    l.map_values(|e: (Seq<i64>, int)| (e.0, -e.1))
}

pub proof fn lemma_net_concat(a: Seq<(Seq<i64>, int)>, b: Seq<(Seq<i64>, int)>, t: Seq<i64>)
    ensures
        net(a + b, t) == net(a, t) + net(b, t),
    decreases b.len(),
{
    if b.len() > 0 {
        assert((a + b).drop_last() == a + b.drop_last());
        lemma_net_concat(a, b.drop_last(), t);
    } else {
        assert(a + b == a);
    }
}

pub proof fn lemma_net_as_deltas(s: Seq<Seq<i64>>, d: int, t: Seq<i64>)
    ensures
        net(as_deltas(s, d), t) == d * occurrences(s, t),
    decreases s.len(),
{
    if s.len() > 0 {
        assert(as_deltas(s, d).drop_last() == as_deltas(s.drop_last(), d));
        lemma_net_as_deltas(s.drop_last(), d, t);
        let o = occurrences(s.drop_last(), t);
        let b: int = if s.last() == t { 1 } else { 0 };
        assert(as_deltas(s, d).last() == (s.last(), d));
        assert(occurrences(s, t) == o + b);
        assert(d * o + d * b == d * (o + b)) by (nonlinear_arith);
    } else {
        assert(d * 0 == 0) by (nonlinear_arith);
    }
}

pub proof fn lemma_net_negate(l: Seq<(Seq<i64>, int)>, t: Seq<i64>)
    ensures
        net(negate(l), t) == -net(l, t),
    decreases l.len(),
{
    if l.len() > 0 {
        assert(negate(l).drop_last() == negate(l.drop_last()));
        lemma_net_negate(l.drop_last(), t);
    }
}

/// The entries of `l` whose row is (`keep`) or is not (`!keep`) `u`.
pub open spec fn split(l: Seq<(Seq<i64>, int)>, u: Seq<i64>, keep: bool) -> Seq<(Seq<i64>, int)>
    decreases l.len(),
{
    if l.len() == 0 {
        l
    } else if (l.last().0 == u) == keep {
        split(l.drop_last(), u, keep).push(l.last())
    } else {
        split(l.drop_last(), u, keep)
    }
}

proof fn lemma_split(l: Seq<(Seq<i64>, int)>, u: Seq<i64>, f: RowFn, t: Seq<i64>)
    ensures
        net(l, t) == net(split(l, u, true), t) + net(split(l, u, false), t),
        net(map_deltas(l, f), t) == net(map_deltas(split(l, u, true), f), t) + net(
            map_deltas(split(l, u, false), f),
            t,
        ),
        net(split(l, u, true), t) == if t == u {
            net(l, t)
        } else {
            0
        },
        net(split(l, u, false), t) == if t == u {
            0
        } else {
            net(l, t)
        },
        split(l, u, false).len() <= l.len(),
        l.len() > 0 && l.last().0 == u ==> split(l, u, false).len() < l.len(),
        forall|i: int| 0 <= i < split(l, u, true).len() ==> (#[trigger] split(l, u, true)[i]).0 == u,
    decreases l.len(),
{
    if l.len() > 0 {
        let p = l.drop_last();
        lemma_split(p, u, f, t);
        assert(map_deltas(l, f).drop_last() == map_deltas(p, f));
        let e = l.last();
        if e.0 == u {
            let s = split(p, u, true);
            assert(map_deltas(s.push(e), f) == map_deltas(s, f).push((f.spec_apply(e.0), e.1)));
            assert(s.push(e).drop_last() == s);
            assert(map_deltas(s.push(e), f).drop_last() == map_deltas(s, f));
        } else {
            let s = split(p, u, false);
            assert(map_deltas(s.push(e), f) == map_deltas(s, f).push((f.spec_apply(e.0), e.1)));
            assert(s.push(e).drop_last() == s);
            assert(map_deltas(s.push(e), f).drop_last() == map_deltas(s, f));
        }
    }
}

proof fn lemma_uniform(l: Seq<(Seq<i64>, int)>, u: Seq<i64>, f: RowFn, t: Seq<i64>)
    requires
        forall|i: int| 0 <= i < l.len() ==> (#[trigger] l[i]).0 == u,
    ensures
        net(map_deltas(l, f), t) == if f.spec_apply(u) == t {
            net(l, u)
        } else {
            0
        },
    decreases l.len(),
{
    if l.len() > 0 {
        assert(map_deltas(l, f).drop_last() == map_deltas(l.drop_last(), f));
        lemma_uniform(l.drop_last(), u, f, t);
    }
}

proof fn lemma_zero_net_maps_to_zero(m: Seq<(Seq<i64>, int)>, f: RowFn, t: Seq<i64>)
    requires
        forall|u: Seq<i64>| #[trigger] net(m, u) == 0,
    ensures
        net(map_deltas(m, f), t) == 0,
    decreases m.len(),
{
    if m.len() > 0 {
        let u0 = m.last().0;
        let a = split(m, u0, true);
        let b = split(m, u0, false);
        lemma_split(m, u0, f, t);
        assert forall|u: Seq<i64>| #[trigger] net(b, u) == 0 by {
            lemma_split(m, u0, f, u);
        }
        lemma_zero_net_maps_to_zero(b, f, t);
        lemma_uniform(a, u0, f, t);
        lemma_split(m, u0, f, u0);
    }
}

/// Two delta sequences with the same net effect on every row have, once
/// mapped by `f`, the same net effect on every row.
pub proof fn lemma_map_respects_net(
    l: Seq<(Seq<i64>, int)>,
    k: Seq<(Seq<i64>, int)>,
    f: RowFn,
    t: Seq<i64>,
)
    requires
        forall|u: Seq<i64>| #[trigger] net(l, u) == net(k, u),
    ensures
        net(map_deltas(l, f), t) == net(map_deltas(k, f), t),
{
    let m = l + negate(k);
    assert forall|u: Seq<i64>| #[trigger] net(m, u) == 0 by {
        lemma_net_concat(l, negate(k), u);
        lemma_net_negate(k, u);
    }
    lemma_zero_net_maps_to_zero(m, f, t);
    assert(map_deltas(m, f) == map_deltas(l, f) + negate(map_deltas(k, f)));
    lemma_net_concat(map_deltas(l, f), negate(map_deltas(k, f)), t);
    lemma_net_negate(map_deltas(k, f), t);
}

/// The deltas of producer `p` in the queue `q`, oldest first.
pub open spec fn pending_of(q: Seq<(usize, Seq<i64>, i64)>, p: usize) -> Seq<(Seq<i64>, int)>
    decreases q.len(),
{
    if q.len() == 0 {
        Seq::empty()
    } else if q.last().0 == p {
        pending_of(q.drop_last(), p).push((q.last().1, q.last().2 as int))
    } else {
        pending_of(q.drop_last(), p)
    }
}

pub proof fn lemma_pending_push(q: Seq<(usize, Seq<i64>, i64)>, x: (usize, Seq<i64>, i64), p: usize)
    ensures
        pending_of(q.push(x), p) == if x.0 == p {
            pending_of(q, p).push((x.1, x.2 as int))
        } else {
            pending_of(q, p)
        },
{
    assert(q.push(x).drop_last() == q);
}

/// Taking the oldest entry off the queue takes the oldest pending delta of
/// its producer.
pub proof fn lemma_pending_pop(q: Seq<(usize, Seq<i64>, i64)>, p: usize)
    requires
        q.len() > 0,
    ensures
        q[0].0 == p ==> pending_of(q, p).len() > 0 && pending_of(q, p)[0] == (q[0].1, q[0].2 as int)
            && pending_of(q.subrange(1, q.len() as int), p) == pending_of(q, p).drop_first(),
        q[0].0 != p ==> pending_of(q.subrange(1, q.len() as int), p) == pending_of(q, p),
    decreases q.len(),
{
    let q1 = q.subrange(1, q.len() as int);
    let d = q.drop_last();
    if q.len() == 1 {
        assert(d.len() == 0);
        assert(q1.len() == 0);
        assert(q.last() == q[0]);
        assert(pending_of(d, p).len() == 0);
        if q[0].0 == p {
            assert(pending_of(q, p) == seq![(q[0].1, q[0].2 as int)]);
            assert(pending_of(q1, p) =~= pending_of(q, p).drop_first());
        }
    } else {
        lemma_pending_pop(d, p);
        let d1 = d.subrange(1, d.len() as int);
        assert(q1.drop_last() == d1);
        assert(q1.last() == q.last());
        assert(d[0] == q[0]);
        let z = (q.last().1, q.last().2 as int);
        if q.last().0 == p {
            assert(pending_of(q1, p) == pending_of(d1, p).push(z));
            assert(pending_of(q, p) == pending_of(d, p).push(z));
            if q[0].0 == p {
                assert(pending_of(q1, p) =~= pending_of(q, p).drop_first());
            }
        } else {
            assert(pending_of(q1, p) == pending_of(d1, p));
            assert(pending_of(q, p) == pending_of(d, p));
        }
    }
}

pub proof fn lemma_skip_push<A>(s: Seq<A>, k: int, a: A)
    requires
        0 <= k <= s.len(),
    ensures
        s.push(a).skip(k) == s.skip(k).push(a),
        s.push(a).take(k) == s.take(k),
{
    assert(s.push(a).skip(k) =~= s.skip(k).push(a));
    assert(s.push(a).take(k) =~= s.take(k));
}

pub proof fn lemma_net_push(l: Seq<(Seq<i64>, int)>, e: (Seq<i64>, int), t: Seq<i64>)
    ensures
        net(l.push(e), t) == net(l, t) + if e.0 == t {
            e.1
        } else {
            0
        },
{
    assert(l.push(e).drop_last() == l);
}

pub proof fn lemma_pending_none(q: Seq<(usize, Seq<i64>, i64)>, p: usize)
    requires
        forall|i: int| 0 <= i < q.len() ==> (#[trigger] q[i]).0 != p,
    ensures
        pending_of(q, p) == Seq::<(Seq<i64>, int)>::empty(),
    decreases q.len(),
{
    if q.len() > 0 {
        lemma_pending_none(q.drop_last(), p);
    }
}

/// When every delta is `1` or `-1`, the net effect on a row is at most the
/// number of deltas.
pub proof fn lemma_net_bound(l: Seq<(Seq<i64>, int)>, t: Seq<i64>)
    requires
        forall|i: int| 0 <= i < l.len() ==> #[trigger] l[i].1 == 1 || l[i].1 == -1,
    ensures
        -(l.len() as int) <= net(l, t) <= l.len(),
    decreases l.len(),
{
    if l.len() > 0 {
        assert(l[l.len() - 1].1 == 1 || l[l.len() - 1].1 == -1);
        lemma_net_bound(l.drop_last(), t);
    }
}

} // verus!
