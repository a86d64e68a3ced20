use vstd::prelude::*;

use crate::counts::{count_of, lemma_count_of_at, occurrences, present, unique_rows, Counts};
use crate::row::{lemma_pair_row_injective, pair_row, pair_rows, rows_equal, rows_view, Row, RowFn};

verus! {

/// The pair rows of `x` with every row `y` with a nonzero count in `re` whose key
/// under `kr` is `k`, in entry order.
pub open spec fn right_block(x: Seq<i64>, k: Seq<i64>, re: Seq<(Seq<i64>, i64)>, kr: RowFn) -> Seq<
    Seq<i64>,
>
    decreases re.len(),
{
    if re.len() == 0 {
        Seq::empty()
    } else {
        let rest = right_block(x, k, re.drop_last(), kr);
        if re.last().1 != 0 && kr.spec_apply(re.last().0) == k {
            rest.push(pair_row(x, re.last().0))
        } else {
            rest
        }
    }
}

/// The pair rows of every row `x` with a nonzero count in `le` whose key
/// under `kl` is `k`, in entry order.
pub open spec fn left_block(y: Seq<i64>, k: Seq<i64>, le: Seq<(Seq<i64>, i64)>, kl: RowFn) -> Seq<
    Seq<i64>,
>
    decreases le.len(),
{
    if le.len() == 0 {
        Seq::empty()
    } else {
        let rest = left_block(y, k, le.drop_last(), kl);
        if le.last().1 != 0 && kl.spec_apply(le.last().0) == k {
            rest.push(pair_row(le.last().0, y))
        } else {
            rest
        }
    }
}

/// The output of a join whose sides hold the counts `le` and `re`: for each
/// present left row in entry order, its matches on the right.
pub open spec fn join_rows(
    le: Seq<(Seq<i64>, i64)>,
    re: Seq<(Seq<i64>, i64)>,
    kl: RowFn,
    kr: RowFn,
) -> Seq<Seq<i64>>
    decreases le.len(),
{
    if le.len() == 0 {
        Seq::empty()
    } else {
        let rest = join_rows(le.drop_last(), re, kl, kr);
        if le.last().1 != 0 {
            rest + right_block(le.last().0, kl.spec_apply(le.last().0), re, kr)
        } else {
            rest
        }
    }
}

pub proof fn lemma_push_contains<A>(s: Seq<A>, a: A, b: A)
    ensures
        s.push(a).contains(b) <==> (s.contains(b) || a == b),
{
    if s.push(a).contains(b) && a != b {
        let j = choose|j: int| 0 <= j < s.len() + 1 && s.push(a)[j] == b;
        assert(s[j] == b);
    }
    if s.contains(b) {
        let j = choose|j: int| 0 <= j < s.len() && s[j] == b;
        assert(s.push(a)[j] == b);
    }
    if a == b {
        assert(s.push(a)[s.len() as int] == b);
    }
}

pub proof fn lemma_concat_contains<A>(s: Seq<A>, t: Seq<A>, b: A)
    ensures
        (s + t).contains(b) <==> (s.contains(b) || t.contains(b)),
{
    if (s + t).contains(b) {
        let j = choose|j: int| 0 <= j < s.len() + t.len() && (s + t)[j] == b;
        if j < s.len() {
            assert(s[j] == b);
        } else {
            assert(t[j - s.len()] == b);
        }
    }
    if s.contains(b) {
        let j = choose|j: int| 0 <= j < s.len() && s[j] == b;
        assert((s + t)[j] == b);
    }
    if t.contains(b) {
        let j = choose|j: int| 0 <= j < t.len() && t[j] == b;
        assert((s + t)[s.len() + j] == b);
    }
}

/// `u` is `x ++ y` for some present right row `y` whose key is `k`.
pub open spec fn pairs_with(u: Seq<i64>, x: Seq<i64>, k: Seq<i64>, ys: Seq<Seq<i64>>, kr: RowFn) -> bool {
    exists|y: Seq<i64>| #[trigger] ys.contains(y) && kr.spec_apply(y) == k && u == pair_row(x, y)
}

pub proof fn lemma_right_block_contains(
    x: Seq<i64>,
    k: Seq<i64>,
    re: Seq<(Seq<i64>, i64)>,
    kr: RowFn,
    u: Seq<i64>,
)
    ensures
        right_block(x, k, re, kr).contains(u) <==> pairs_with(u, x, k, present(re), kr),
    decreases re.len(),
{
    if re.len() == 0 {
        assert(!right_block(x, k, re, kr).contains(u));
        assert(!pairs_with(u, x, k, present(re), kr));
    } else {
        let p = re.drop_last();
        let y0 = re.last().0;
        lemma_right_block_contains(x, k, p, kr, u);
        if re.last().1 != 0 {
            lemma_push_contains(present(p), y0, y0);
            if kr.spec_apply(y0) == k {
                lemma_push_contains(right_block(x, k, p, kr), pair_row(x, y0), u);
            }
            if pairs_with(u, x, k, present(re), kr) {
                let y = choose|y: Seq<i64>| #[trigger] present(re).contains(y) && kr.spec_apply(y) == k && u == pair_row(x, y);
                lemma_push_contains(present(p), y0, y);
            }
            if pairs_with(u, x, k, present(p), kr) {
                let y = choose|y: Seq<i64>| #[trigger] present(p).contains(y) && kr.spec_apply(y) == k && u == pair_row(x, y);
                lemma_push_contains(present(p), y0, y);
            }
        }
    }
}

/// `u` is `x ++ y` for present rows `x` of `xs` and `y` of `ys` whose keys
/// agree.
pub open spec fn joins(u: Seq<i64>, xs: Seq<Seq<i64>>, ys: Seq<Seq<i64>>, kl: RowFn, kr: RowFn) -> bool {
    exists|x: Seq<i64>| #[trigger] xs.contains(x) && pairs_with(u, x, kl.spec_apply(x), ys, kr)
}

pub proof fn lemma_join_rows_contains(
    le: Seq<(Seq<i64>, i64)>,
    re: Seq<(Seq<i64>, i64)>,
    kl: RowFn,
    kr: RowFn,
    u: Seq<i64>,
)
    ensures
        join_rows(le, re, kl, kr).contains(u) <==> joins(u, present(le), present(re), kl, kr),
    decreases le.len(),
{
    if le.len() == 0 {
        assert(!join_rows(le, re, kl, kr).contains(u));
        assert(!joins(u, present(le), present(re), kl, kr));
    } else {
        let p = le.drop_last();
        let x0 = le.last().0;
        lemma_join_rows_contains(p, re, kl, kr, u);
        if le.last().1 != 0 {
            let b = right_block(x0, kl.spec_apply(x0), re, kr);
            lemma_concat_contains(join_rows(p, re, kl, kr), b, u);
            lemma_right_block_contains(x0, kl.spec_apply(x0), re, kr, u);
            lemma_push_contains(present(p), x0, x0);
            if joins(u, present(le), present(re), kl, kr) {
                let x = choose|x: Seq<i64>| #[trigger] present(le).contains(x) && pairs_with(u, x, kl.spec_apply(x), present(re), kr);
                lemma_push_contains(present(p), x0, x);
            }
            if joins(u, present(p), present(re), kl, kr) {
                let x = choose|x: Seq<i64>| #[trigger] present(p).contains(x) && pairs_with(u, x, kl.spec_apply(x), present(re), kr);
                lemma_push_contains(present(p), x0, x);
            }
        }
    }
}

/// The change of presence when a count moves from `c1` to `c2`.
pub open spec fn flip(c1: int, c2: int) -> int {
    (if c2 != 0 { 1int } else { 0int }) - (if c1 != 0 { 1int } else { 0int })
}

pub proof fn lemma_occurrences_concat(a: Seq<Seq<i64>>, b: Seq<Seq<i64>>, t: Seq<i64>)
    ensures
        occurrences(a + b, t) == occurrences(a, t) + occurrences(b, t),
    decreases b.len(),
{
    if b.len() > 0 {
        assert((a + b).drop_last() == a + b.drop_last());
        lemma_occurrences_concat(a, b.drop_last(), t);
    } else {
        assert(a + b == a);
    }
}

pub proof fn lemma_occurrences_push(s: Seq<Seq<i64>>, z: Seq<i64>, r: Seq<i64>)
    ensures
        occurrences(s.push(z), r) == occurrences(s, r) + if z == r {
            1int
        } else {
            0int
        },
{
    assert(s.push(z).drop_last() == s);
}

proof fn lemma_right_block_update(
    x: Seq<i64>,
    k: Seq<i64>,
    re: Seq<(Seq<i64>, i64)>,
    kr: RowFn,
    i: int,
    c2: i64,
    r: Seq<i64>,
)
    requires
        0 <= i < re.len(),
    ensures
        occurrences(right_block(x, k, re.update(i, (re[i].0, c2)), kr), r) == occurrences(
            right_block(x, k, re, kr),
            r,
        ) + if kr.spec_apply(re[i].0) == k && pair_row(x, re[i].0) == r {
            flip(re[i].1 as int, c2 as int)
        } else {
            0
        },
    decreases re.len(),
{
    let re2 = re.update(i, (re[i].0, c2));
    let rest = right_block(x, k, re.drop_last(), kr);
    if i == re.len() - 1 {
        assert(re2.drop_last() == re.drop_last());
        assert(re2.last() == (re[i].0, c2));
        lemma_occurrences_push(rest, pair_row(x, re[i].0), r);
    } else {
        assert(re2.drop_last() == re.drop_last().update(i, (re[i].0, c2)));
        assert(re2.last() == re.last());
        lemma_right_block_update(x, k, re.drop_last(), kr, i, c2, r);
        let rest2 = right_block(x, k, re2.drop_last(), kr);
        lemma_occurrences_push(rest, pair_row(x, re.last().0), r);
        lemma_occurrences_push(rest2, pair_row(x, re.last().0), r);
    }
}

proof fn lemma_left_block_update(
    y: Seq<i64>,
    k: Seq<i64>,
    le: Seq<(Seq<i64>, i64)>,
    kl: RowFn,
    i: int,
    c2: i64,
    r: Seq<i64>,
)
    requires
        0 <= i < le.len(),
    ensures
        occurrences(left_block(y, k, le.update(i, (le[i].0, c2)), kl), r) == occurrences(
            left_block(y, k, le, kl),
            r,
        ) + if kl.spec_apply(le[i].0) == k && pair_row(le[i].0, y) == r {
            flip(le[i].1 as int, c2 as int)
        } else {
            0
        },
    decreases le.len(),
{
    let le2 = le.update(i, (le[i].0, c2));
    let rest = left_block(y, k, le.drop_last(), kl);
    if i == le.len() - 1 {
        assert(le2.drop_last() == le.drop_last());
        assert(le2.last() == (le[i].0, c2));
        lemma_occurrences_push(rest, pair_row(le[i].0, y), r);
    } else {
        assert(le2.drop_last() == le.drop_last().update(i, (le[i].0, c2)));
        assert(le2.last() == le.last());
        lemma_left_block_update(y, k, le.drop_last(), kl, i, c2, r);
        let rest2 = left_block(y, k, le2.drop_last(), kl);
        lemma_occurrences_push(rest, pair_row(le.last().0, y), r);
        lemma_occurrences_push(rest2, pair_row(le.last().0, y), r);
    }
}

/// When the count of right row `y = re[i].0` moves to `c2`, the join output
/// gains or loses the pairs of `y` with the present left rows of its key.
pub proof fn lemma_join_rows_right(
    le: Seq<(Seq<i64>, i64)>,
    re: Seq<(Seq<i64>, i64)>,
    kl: RowFn,
    kr: RowFn,
    i: int,
    c2: i64,
    r: Seq<i64>,
)
    requires
        0 <= i < re.len(),
    ensures
        occurrences(join_rows(le, re.update(i, (re[i].0, c2)), kl, kr), r) == occurrences(
            join_rows(le, re, kl, kr),
            r,
        ) + flip(re[i].1 as int, c2 as int) * occurrences(left_block(re[i].0, kr.spec_apply(re[i].0), le, kl), r),
    decreases le.len(),
{
    let y = re[i].0;
    let ky = kr.spec_apply(y);
    let re2 = re.update(i, (y, c2));
    let fl = flip(re[i].1 as int, c2 as int);
    if le.len() == 0 {
        assert(fl * 0 == 0) by (nonlinear_arith);
    } else {
        let p = le.drop_last();
        let e = le.last();
        lemma_join_rows_right(p, re, kl, kr, i, c2, r);
        let o_p = occurrences(left_block(y, ky, p, kl), r);
        let o_l = occurrences(left_block(y, ky, le, kl), r);
        if e.1 != 0 {
            let b = right_block(e.0, kl.spec_apply(e.0), re, kr);
            let b2 = right_block(e.0, kl.spec_apply(e.0), re2, kr);
            lemma_occurrences_concat(join_rows(p, re, kl, kr), b, r);
            lemma_occurrences_concat(join_rows(p, re2, kl, kr), b2, r);
            lemma_right_block_update(e.0, kl.spec_apply(e.0), re, kr, i, c2, r);
            if kl.spec_apply(e.0) == ky {
                let h: int = if pair_row(e.0, y) == r { 1 } else { 0 };
                lemma_occurrences_push(left_block(y, ky, p, kl), pair_row(e.0, y), r);
                assert(o_l == o_p + h);
                assert(fl * o_l == fl * o_p + fl * h) by (nonlinear_arith)
                    requires o_l == o_p + h;
            } else {
                assert(o_l == o_p);
            }
        } else {
            assert(o_l == o_p);
        }
    }
}

/// When the count of left row `x = le[i].0` moves to `c2`, the join output
/// gains or loses the pairs of `x` with the present right rows of its key.
pub proof fn lemma_join_rows_left(
    le: Seq<(Seq<i64>, i64)>,
    re: Seq<(Seq<i64>, i64)>,
    kl: RowFn,
    kr: RowFn,
    i: int,
    c2: i64,
    r: Seq<i64>,
)
    requires
        0 <= i < le.len(),
    ensures
        occurrences(join_rows(le.update(i, (le[i].0, c2)), re, kl, kr), r) == occurrences(
            join_rows(le, re, kl, kr),
            r,
        ) + flip(le[i].1 as int, c2 as int) * occurrences(right_block(le[i].0, kl.spec_apply(le[i].0), re, kr), r),
    decreases le.len(),
{
    let x = le[i].0;
    let le2 = le.update(i, (x, c2));
    let fl = flip(le[i].1 as int, c2 as int);
    let o = occurrences(right_block(x, kl.spec_apply(x), re, kr), r);
    if i == le.len() - 1 {
        assert(le2.drop_last() == le.drop_last());
        let rest = join_rows(le.drop_last(), re, kl, kr);
        let b = right_block(x, kl.spec_apply(x), re, kr);
        lemma_occurrences_concat(rest, b, r);
        if fl == 1 {
            assert(fl * o == o) by (nonlinear_arith) requires fl == 1;
        } else if fl == -1 {
            assert(fl * o == -o) by (nonlinear_arith) requires fl == -1;
        } else {
            assert(fl * o == 0) by (nonlinear_arith) requires fl == 0;
        }
    } else {
        assert(le2.drop_last() == le.drop_last().update(i, (x, c2)));
        assert(le2.last() == le.last());
        lemma_join_rows_left(le.drop_last(), re, kl, kr, i, c2, r);
        if le.last().1 != 0 {
            let e = le.last();
            let b = right_block(e.0, kl.spec_apply(e.0), re, kr);
            lemma_occurrences_concat(join_rows(le.drop_last(), re, kl, kr), b, r);
            lemma_occurrences_concat(join_rows(le2.drop_last(), re, kl, kr), b, r);
        }
    }
}

/// Appending a zero count to either side leaves the join output unchanged.
pub proof fn lemma_join_rows_push_zero(
    le: Seq<(Seq<i64>, i64)>,
    re: Seq<(Seq<i64>, i64)>,
    kl: RowFn,
    kr: RowFn,
    x: Seq<i64>,
)
    ensures
        join_rows(le.push((x, 0)), re, kl, kr) == join_rows(le, re, kl, kr),
        join_rows(le, re.push((x, 0)), kl, kr) == join_rows(le, re, kl, kr),
    decreases le.len(),
{
    assert(le.push((x, 0i64)).drop_last() == le);
    if le.len() > 0 {
        lemma_join_rows_push_zero(le.drop_last(), re, kl, kr, x);
        let e = le.last();
        assert(re.push((x, 0i64)).drop_last() == re);
        assert(right_block(e.0, kl.spec_apply(e.0), re.push((x, 0)), kr) == right_block(
            e.0,
            kl.spec_apply(e.0),
            re,
            kr,
        ));
    }
}

/// The join output after the count of left row `x` moved from `c1` to `c2`
/// (the entry updated in place, or appended when `x` had none).
pub proof fn lemma_join_add_left(
    le: Seq<(Seq<i64>, i64)>,
    le2: Seq<(Seq<i64>, i64)>,
    re: Seq<(Seq<i64>, i64)>,
    kl: RowFn,
    kr: RowFn,
    x: Seq<i64>,
    c1: int,
    c2: i64,
    r: Seq<i64>,
)
    requires
        unique_rows(le),
        count_of(le, x) == c1,
        (exists|i: int| 0 <= i < le.len() && le[i].0 == x && le2 == le.update(i, (x, c2)))
            || (c1 == 0 && le2 == le.push((x, c2))),
    ensures
        occurrences(join_rows(le2, re, kl, kr), r) == occurrences(join_rows(le, re, kl, kr), r)
            + flip(c1, c2 as int) * occurrences(right_block(x, kl.spec_apply(x), re, kr), r),
{
    if exists|i: int| 0 <= i < le.len() && le[i].0 == x && le2 == le.update(i, (x, c2)) {
        let i = choose|i: int| 0 <= i < le.len() && le[i].0 == x && le2 == le.update(i, (x, c2));
        lemma_count_of_at(le, i);
        lemma_join_rows_left(le, re, kl, kr, i, c2, r);
    } else {
        let lz = le.push((x, 0i64));
        lemma_join_rows_push_zero(le, re, kl, kr, x);
        assert(lz.update(le.len() as int, (x, c2)) == le2);
        lemma_join_rows_left(lz, re, kl, kr, le.len() as int, c2, r);
    }
}

/// The join output after the count of right row `y` moved from `c1` to `c2`.
pub proof fn lemma_join_add_right(
    le: Seq<(Seq<i64>, i64)>,
    re: Seq<(Seq<i64>, i64)>,
    re2: Seq<(Seq<i64>, i64)>,
    kl: RowFn,
    kr: RowFn,
    y: Seq<i64>,
    c1: int,
    c2: i64,
    r: Seq<i64>,
)
    requires
        unique_rows(re),
        count_of(re, y) == c1,
        (exists|i: int| 0 <= i < re.len() && re[i].0 == y && re2 == re.update(i, (y, c2)))
            || (c1 == 0 && re2 == re.push((y, c2))),
    ensures
        occurrences(join_rows(le, re2, kl, kr), r) == occurrences(join_rows(le, re, kl, kr), r)
            + flip(c1, c2 as int) * occurrences(left_block(y, kr.spec_apply(y), le, kl), r),
{
    if exists|i: int| 0 <= i < re.len() && re[i].0 == y && re2 == re.update(i, (y, c2)) {
        let i = choose|i: int| 0 <= i < re.len() && re[i].0 == y && re2 == re.update(i, (y, c2));
        lemma_count_of_at(re, i);
        lemma_join_rows_right(le, re, kl, kr, i, c2, r);
    } else {
        let rz = re.push((y, 0i64));
        lemma_join_rows_push_zero(le, re, kl, kr, y);
        assert(rz.update(re.len() as int, (y, c2)) == re2);
        lemma_join_rows_right(le, rz, kl, kr, re.len() as int, c2, r);
    }
}

/// The rows `x ++ y` for the present rows `y` of `right` whose key is `k`.
/// Every row of `le` is at most `i64::MAX` columns wide.
pub open spec fn narrow(le: Seq<(Seq<i64>, i64)>) -> bool {
    forall|i: int| 0 <= i < le.len() ==> (#[trigger] le[i]).0.len() <= i64::MAX
}

proof fn lemma_right_block_unique(x: Seq<i64>, k: Seq<i64>, re: Seq<(Seq<i64>, i64)>, kr: RowFn)
    requires
        unique_rows(re),
        x.len() <= i64::MAX,
    ensures
        right_block(x, k, re, kr).no_duplicates(),
        forall|m: int| 0 <= m < right_block(x, k, re, kr).len() ==> exists|j: int|
            0 <= j < re.len() && #[trigger] right_block(x, k, re, kr)[m] == pair_row(x, re[j].0),
    decreases re.len(),
{
    if re.len() > 0 {
        let p = re.drop_last();
        assert(unique_rows(p));
        lemma_right_block_unique(x, k, p, kr);
        let rest = right_block(x, k, p, kr);
        let y0 = re.last().0;
        assert forall|m: int| 0 <= m < rest.len() implies exists|j: int|
            0 <= j < re.len() && #[trigger] rest[m] == pair_row(x, re[j].0) by {
            let j = choose|j: int| 0 <= j < p.len() && #[trigger] rest[m] == pair_row(x, p[j].0);
            assert(re[j] == p[j]);
        }
        if re.last().1 != 0 && kr.spec_apply(y0) == k {
            let b = rest.push(pair_row(x, y0));
            assert forall|m: int| 0 <= m < rest.len() implies rest[m] != pair_row(x, y0) by {
                let j = choose|j: int| 0 <= j < p.len() && #[trigger] rest[m] == pair_row(x, p[j].0);
                assert(re[j].0 != re[re.len() - 1].0);
                if rest[m] == pair_row(x, y0) {
                    lemma_pair_row_injective(x, p[j].0, x, y0);
                }
            }
            assert forall|m: int| 0 <= m < b.len() implies exists|j: int|
                0 <= j < re.len() && #[trigger] b[m] == pair_row(x, re[j].0) by {
                if m < rest.len() {
                    assert(b[m] == rest[m]);
                } else {
                    assert(b[m] == pair_row(x, re[re.len() - 1].0));
                }
            }
        }
    }
}

/// With distinct rows on each side, narrow on the left, a join outputs
/// each pair's row once.
pub proof fn lemma_join_rows_unique(le: Seq<(Seq<i64>, i64)>, re: Seq<(Seq<i64>, i64)>, kl: RowFn, kr: RowFn)
    requires
        unique_rows(le),
        unique_rows(re),
        narrow(le),
    ensures
        join_rows(le, re, kl, kr).no_duplicates(),
        forall|m: int| 0 <= m < join_rows(le, re, kl, kr).len() ==> exists|i: int, y: Seq<i64>|
            0 <= i < le.len() && #[trigger] join_rows(le, re, kl, kr)[m] == pair_row(le[i].0, y),
    decreases le.len(),
{
    if le.len() > 0 {
        let p = le.drop_last();
        assert(unique_rows(p));
        assert(narrow(p)) by {
            assert forall|i: int| 0 <= i < p.len() implies (#[trigger] p[i]).0.len() <= i64::MAX by {
                assert(p[i] == le[i]);
            }
        }
        lemma_join_rows_unique(p, re, kl, kr);
        let rest = join_rows(p, re, kl, kr);
        let x0 = le.last().0;
        assert(le[le.len() - 1].0.len() <= i64::MAX);
        assert forall|m: int| 0 <= m < rest.len() implies exists|i: int, y: Seq<i64>|
            0 <= i < le.len() && #[trigger] rest[m] == pair_row(le[i].0, y) by {
            let (i, y) = choose|i: int, y: Seq<i64>| 0 <= i < p.len() && #[trigger] rest[m] == pair_row(p[i].0, y);
            assert(le[i] == p[i]);
        }
        if le.last().1 != 0 {
            let b = right_block(x0, kl.spec_apply(x0), re, kr);
            lemma_right_block_unique(x0, kl.spec_apply(x0), re, kr);
            let all = rest + b;
            assert forall|a: int, c: int| 0 <= a < c < all.len() implies all[a] != all[c] by {
                if c < rest.len() {
                } else if a >= rest.len() {
                    assert(all[a] == b[a - rest.len()] && all[c] == b[c - rest.len()]);
                } else {
                    let (i, y) = choose|i: int, y: Seq<i64>| 0 <= i < p.len() && #[trigger] rest[a] == pair_row(p[i].0, y);
                    let j = choose|j: int| 0 <= j < re.len() && #[trigger] b[c - rest.len()] == pair_row(x0, re[j].0);
                    assert(le[i].0 != le[le.len() - 1].0);
                    assert(p[i].0.len() <= i64::MAX) by { assert(p[i] == le[i]); }
                    if all[a] == all[c] {
                        lemma_pair_row_injective(p[i].0, y, x0, re[j].0);
                    }
                }
            }
            assert forall|m: int| 0 <= m < all.len() implies exists|i: int, y: Seq<i64>|
                0 <= i < le.len() && #[trigger] all[m] == pair_row(le[i].0, y) by {
                if m < rest.len() {
                    assert(all[m] == rest[m]);
                } else {
                    let j = choose|j: int| 0 <= j < re.len() && #[trigger] b[m - rest.len()] == pair_row(x0, re[j].0);
                    assert(all[m] == pair_row(le[le.len() - 1].0, re[j].0));
                }
            }
        }
    }
}

pub fn right_matches(x: &Row, k: &Row, right: &Counts, kr: &RowFn) -> (out: Vec<Row>)
    requires
        kr.wf(),
    ensures
        rows_view(out@) == right_block(x@, k@, right.entries(), *kr),
{
    let mut out: Vec<Row> = Vec::new();
    let mut i: usize = 0;
    while i < right.len()
        invariant
            i <= right.entries().len(),
            kr.wf(),
            rows_view(out@) == right_block(x@, k@, right.entries().take(i as int), *kr),
        decreases right.entries().len() - i,
    {
        let ghost before = out@;
        let (y, c) = right.entry(i);
        if c != 0 {
            let ky = kr.apply(y);
            if rows_equal(&ky, k) {
                out.push(pair_rows(x, y));
                assert(rows_view(out@) =~= rows_view(before).push(pair_row(x@, y@)));
            }
        }
        assert(right.entries().take(i + 1).drop_last() == right.entries().take(i as int));
        i = i + 1;
    }
    assert(right.entries().take(i as int) == right.entries());
    out
}

/// The rows `x ++ y` for the present rows `x` of `left` whose key is `k`.
pub fn left_matches(y: &Row, k: &Row, left: &Counts, kl: &RowFn) -> (out: Vec<Row>)
    requires
        kl.wf(),
    ensures
        rows_view(out@) == left_block(y@, k@, left.entries(), *kl),
{
    let mut out: Vec<Row> = Vec::new();
    let mut i: usize = 0;
    while i < left.len()
        invariant
            i <= left.entries().len(),
            kl.wf(),
            rows_view(out@) == left_block(y@, k@, left.entries().take(i as int), *kl),
        decreases left.entries().len() - i,
    {
        let ghost before = out@;
        let (x, c) = left.entry(i);
        if c != 0 {
            let kx = kl.apply(x);
            if rows_equal(&kx, k) {
                out.push(pair_rows(x, y));
                assert(rows_view(out@) =~= rows_view(before).push(pair_row(x@, y@)));
            }
        }
        assert(left.entries().take(i + 1).drop_last() == left.entries().take(i as int));
        i = i + 1;
    }
    assert(left.entries().take(i as int) == left.entries());
    out
}

/// The current output of a join with sides `left` and `right`.
pub fn join_output(left: &Counts, right: &Counts, kl: &RowFn, kr: &RowFn) -> (out: Vec<Row>)
    requires
        kl.wf(),
        kr.wf(),
    ensures
        rows_view(out@) == join_rows(left.entries(), right.entries(), *kl, *kr),
{
    let mut out: Vec<Row> = Vec::new();
    let mut i: usize = 0;
    while i < left.len()
        invariant
            i <= left.entries().len(),
            kl.wf(),
            kr.wf(),
            rows_view(out@) == join_rows(left.entries().take(i as int), right.entries(), *kl, *kr),
        decreases left.entries().len() - i,
    {
        let ghost before = out@;
        let (x, c) = left.entry(i);
        assert(left.entries().take(i + 1).drop_last() == left.entries().take(i as int));
        if c != 0 {
            let kx = kl.apply(x);
            let mut block = right_matches(x, &kx, right, kr);
            let ghost b = block@;
            out.append(&mut block);
            assert(rows_view(out@) =~= rows_view(before) + rows_view(b));
        }
        i = i + 1;
    }
    assert(left.entries().take(i as int) == left.entries());
    out
}

} // verus!
