use vstd::prelude::*;

use crate::row::{copy_row, rows_equal, rows_view, Row};

verus! {

/// `c + d`, held within the bounds of `i64`.
pub open spec fn sat_add(c: int, d: int) -> int {
    if c + d > i64::MAX {
        i64::MAX as int
    } else if c + d < i64::MIN {
        i64::MIN as int
    } else {
        c + d
    }
}

/// The multiplicity that an entry list gives to `t`: the count of the last
/// entry whose row is `t`, or zero when there is none.
pub open spec fn count_of(es: Seq<(Seq<i64>, i64)>, t: Seq<i64>) -> int
    decreases es.len(),
{
    if es.len() == 0 {
        0
    } else if es.last().0 == t {
        es.last().1 as int
    } else {
        count_of(es.drop_last(), t)
    }
}

/// No two entries share a row.
pub open spec fn unique_rows(es: Seq<(Seq<i64>, i64)>) -> bool {
    forall|i: int, j: int| 0 <= i < j < es.len() ==> es[i].0 != es[j].0
}

/// The rows whose count is nonzero, in entry order.
pub open spec fn present(es: Seq<(Seq<i64>, i64)>) -> Seq<Seq<i64>>
    decreases es.len(),
{
    if es.len() == 0 {
        Seq::empty()
    } else if es.last().1 != 0 {
        present(es.drop_last()).push(es.last().0)
    } else {
        present(es.drop_last())
    }
}

pub proof fn lemma_count_of_absent(es: Seq<(Seq<i64>, i64)>, t: Seq<i64>)
    requires
        forall|i: int| 0 <= i < es.len() ==> es[i].0 != t,
    ensures
        count_of(es, t) == 0,
    decreases es.len(),
{
    if es.len() > 0 {
        lemma_count_of_absent(es.drop_last(), t);
    }
}

pub proof fn lemma_count_of_at(es: Seq<(Seq<i64>, i64)>, i: int)
    requires
        unique_rows(es),
        0 <= i < es.len(),
    ensures
        count_of(es, es[i].0) == es[i].1,
    decreases es.len(),
{
    if i < es.len() - 1 {
        lemma_count_of_at(es.drop_last(), i);
    }
}

pub proof fn lemma_count_of_update(es: Seq<(Seq<i64>, i64)>, i: int, c: i64, t: Seq<i64>)
    requires
        0 <= i < es.len(),
        t != es[i].0,
    ensures
        count_of(es.update(i, (es[i].0, c)), t) == count_of(es, t),
    decreases es.len(),
{
    let es2 = es.update(i, (es[i].0, c));
    if i < es.len() - 1 {
        assert(es2.drop_last() == es.drop_last().update(i, (es[i].0, c)));
        lemma_count_of_update(es.drop_last(), i, c, t);
    } else {
        assert(es2.drop_last() == es.drop_last());
    }
}

pub proof fn lemma_present_update(es: Seq<(Seq<i64>, i64)>, i: int, c: i64)
    requires
        0 <= i < es.len(),
        (c == 0) == (es[i].1 == 0),
    ensures
        present(es.update(i, (es[i].0, c))) == present(es),
    decreases es.len(),
{
    let es2 = es.update(i, (es[i].0, c));
    if i < es.len() - 1 {
        assert(es2.drop_last() == es.drop_last().update(i, (es[i].0, c)));
        lemma_present_update(es.drop_last(), i, c);
    } else {
        assert(es2.drop_last() == es.drop_last());
    }
}

pub proof fn lemma_present_contains(es: Seq<(Seq<i64>, i64)>, t: Seq<i64>)
    requires
        unique_rows(es),
    ensures
        present(es).contains(t) <==> count_of(es, t) != 0,
    decreases es.len(),
{
    if es.len() > 0 {
        let p = es.drop_last();
        assert(unique_rows(p));
        lemma_present_contains(p, t);
        if es.last().0 == t {
            assert forall|i: int| 0 <= i < p.len() implies p[i].0 != t by {
                assert(es[i].0 != es[es.len() - 1].0);
            }
            lemma_count_of_absent(p, t);
            lemma_present_no_duplicates(p);
            if present(p).contains(t) {
                let k = choose|k: int| 0 <= k < present(p).len() && present(p)[k] == t;
                let i = choose|i: int| 0 <= i < p.len() && p[i].0 == #[trigger] present(p)[k];
            }
            if es.last().1 != 0 {
                assert(present(es)[present(es).len() - 1] == t);
            }
        } else if es.last().1 != 0 {
            let q = present(p);
            if q.push(es.last().0).contains(t) {
                let k = choose|k: int| 0 <= k < q.len() + 1 && q.push(es.last().0)[k] == t;
                assert(q[k] == t);
            }
            if q.contains(t) {
                let k = choose|k: int| 0 <= k < q.len() && q[k] == t;
                assert(q.push(es.last().0)[k] == t);
            }
        }
    }
}

pub proof fn lemma_present_no_duplicates(es: Seq<(Seq<i64>, i64)>)
    requires
        unique_rows(es),
    ensures
        present(es).no_duplicates(),
        forall|k: int| 0 <= k < present(es).len() ==>
            exists|i: int| 0 <= i < es.len() && es[i].0 == #[trigger] present(es)[k],
    decreases es.len(),
{
    if es.len() > 0 {
        let p = es.drop_last();
        assert(unique_rows(p));
        lemma_present_no_duplicates(p);
        if es.last().1 != 0 {
            let q = present(p);
            assert forall|k: int| 0 <= k < q.len() implies q[k] != es.last().0 by {
                let i = choose|i: int| 0 <= i < p.len() && p[i].0 == q[k];
                assert(es[i].0 != es[es.len() - 1].0);
            }
            let q2 = q.push(es.last().0);
            assert forall|k: int| 0 <= k < q2.len() implies
                exists|i: int| 0 <= i < es.len() && es[i].0 == #[trigger] q2[k] by {
                if k < q.len() {
                    let i = choose|i: int| 0 <= i < p.len() && p[i].0 == q[k];
                    assert(es[i].0 == q2[k]);
                } else {
                    assert(es[es.len() - 1].0 == q2[k]);
                }
            }
        }
    }
}

/// `n`, held at most `i64::MAX`.
pub open spec fn capped(n: nat) -> int {
    if n <= i64::MAX {
        n as int
    } else {
        i64::MAX as int
    }
}

/// How many times `u` occurs in `s`.
pub open spec fn occurrences(s: Seq<Seq<i64>>, u: Seq<i64>) -> nat
    decreases s.len(),
{
    if s.len() == 0 {
        0
    } else {
        occurrences(s.drop_last(), u) + if s.last() == u {
            1nat
        } else {
            0nat
        }
    }
}

pub proof fn lemma_occurrences(s: Seq<Seq<i64>>, u: Seq<i64>)
    ensures
        occurrences(s, u) <= s.len(),
        occurrences(s, u) > 0 <==> s.contains(u),
    decreases s.len(),
{
    if s.len() > 0 {
        let p = s.drop_last();
        lemma_occurrences(p, u);
        if p.contains(u) {
            let j = choose|j: int| 0 <= j < p.len() && p[j] == u;
            assert(s[j] == u);
        }
        if s.contains(u) && s.last() != u {
            let j = choose|j: int| 0 <= j < s.len() && s[j] == u;
            assert(p[j] == u);
        }
    }
}

pub proof fn lemma_occurrences_unique(s: Seq<Seq<i64>>, u: Seq<i64>)
    requires
        s.no_duplicates(),
    ensures
        occurrences(s, u) == if s.contains(u) {
            1int
        } else {
            0int
        },
    decreases s.len(),
{
    lemma_occurrences(s, u);
    if s.len() > 0 {
        let p = s.drop_last();
        assert(p.no_duplicates()) by {
            assert forall|i: int, j: int| 0 <= i < j < p.len() implies p[i] != p[j] by {
                assert(s[i] != s[j]);
            }
        }
        lemma_occurrences_unique(p, u);
        lemma_occurrences(p, u);
        if s.last() == u && p.contains(u) {
            let j = choose|j: int| 0 <= j < p.len() && p[j] == u;
            assert(s[j] == s[s.len() - 1]);
        }
    }
}

/// A table of signed multiplicities, one entry per distinct row. Rows whose
/// count returned to zero stay in the table with a zero count.
pub struct Counts {
    entries: Vec<(Row, i64)>,
}

impl Counts {
    pub closed spec fn entries(&self) -> Seq<(Seq<i64>, i64)> {
        self.entries@.map_values(|e: (Row, i64)| (e.0@, e.1))
    }

    pub open spec fn wf(&self) -> bool {
        unique_rows(self.entries())
    }

    pub open spec fn count(&self, t: Seq<i64>) -> int {
        count_of(self.entries(), t)
    }

    pub fn new() -> (r: Counts)
        ensures
            r.entries() == Seq::<(Seq<i64>, i64)>::empty(),
            r.wf(),
    {
        let r = Counts { entries: Vec::new() };
        assert(r.entries() =~= Seq::<(Seq<i64>, i64)>::empty());
        r
    }

    pub fn len(&self) -> (r: usize)
        ensures
            r == self.entries().len(),
    {
        self.entries.len()
    }

    /// The row and count of entry `i`.
    pub fn entry(&self, i: usize) -> (r: (&Row, i64))
        requires
            i < self.entries().len(),
        ensures
            r.0@ == self.entries()[i as int].0,
            r.1 == self.entries()[i as int].1,
    {
        let e = &self.entries[i];
        (&e.0, e.1)
    }

    /// The count of `t`.
    pub fn get(&self, t: &Row) -> (r: i64)
        requires
            self.wf(),
        ensures
            r == self.count(t@),
    {
        match self.find(t) {
            Some(i) => {
                proof {
                    lemma_count_of_at(self.entries(), i as int);
                }
                self.entries[i].1
            },
            None => {
                proof {
                    lemma_count_of_absent(self.entries(), t@);
                }
                0
            },
        }
    }

    /// The index of the entry for `t`, if there is one.
    pub fn find(&self, t: &Row) -> (r: Option<usize>)
        ensures
            match r {
                Some(i) => i < self.entries().len() && self.entries()[i as int].0 == t@,
                None => forall|i: int| 0 <= i < self.entries().len() ==> self.entries()[i].0 != t@,
            },
    {
        let mut i: usize = 0;
        while i < self.entries.len()
            invariant
                i <= self.entries().len(),
                self.entries().len() == self.entries@.len(),
                forall|j: int| 0 <= j < i ==> self.entries()[j].0 != t@,
            decreases self.entries@.len() - i,
        {
            if rows_equal(&self.entries[i].0, t) {
                return Some(i);
            }
            i = i + 1;
        }
        None
    }

    /// Adds `d` to the count of `t` (saturating at the bounds of `i64`) and
    /// returns the counts before and after.
    pub fn add(&mut self, t: &Row, d: i64) -> (r: (i64, i64))
        requires
            old(self).wf(),
        ensures
            final(self).wf(),
            r.0 == old(self).count(t@),
            r.1 == sat_add(r.0 as int, d as int),
            final(self).count(t@) == r.1,
            forall|u: Seq<i64>| u != t@ ==> final(self).count(u) == old(self).count(u),
            r.0 != 0 && r.1 != 0 ==> present(final(self).entries()) == present(old(self).entries()),
            r.0 == 0 && r.1 == 0 ==> present(final(self).entries()) == present(old(self).entries()),
            (exists|i: int| 0 <= i < old(self).entries().len() && old(self).entries()[i].0 == t@
                && final(self).entries() == old(self).entries().update(i, (t@, r.1)))
                || (r.0 == 0 && final(self).entries() == old(self).entries().push((t@, r.1))),
    {
        let ghost es = self.entries();
        match self.find(t) {
            Some(i) => {
                let c = self.entries[i].1;
                proof {
                    lemma_count_of_at(es, i as int);
                }
                let n = if d > 0 && c > i64::MAX - d {
                    i64::MAX
                } else if d < 0 && c < i64::MIN - d {
                    i64::MIN
                } else {
                    c + d
                };
                let row = copy_row(t);
                self.entries.set(i, (row, n));
                proof {
                    let es2 = self.entries();
                    assert(es2 =~= es.update(i as int, (es[i as int].0, n)));
                    assert(unique_rows(es2)) by {
                        assert forall|a: int, b: int| 0 <= a < b < es2.len() implies es2[a].0
                            != es2[b].0 by {
                            assert(es[a].0 != es[b].0);
                        }
                    }
                    lemma_count_of_at(es2, i as int);
                    assert forall|u: Seq<i64>| u != t@ implies count_of(es2, u) == count_of(es, u) by {
                        lemma_count_of_update(es, i as int, n, u);
                    }
                    if (c == 0) == (n == 0) {
                        lemma_present_update(es, i as int, n);
                    }
                }
                (c, n)
            },
            None => {
                proof {
                    lemma_count_of_absent(es, t@);
                }
                let row = copy_row(t);
                self.entries.push((row, d));
                proof {
                    let es2 = self.entries();
                    assert(es2 =~= es.push((t@, d)));
                    assert(es2.drop_last() == es);
                    assert(unique_rows(es2)) by {
                        assert forall|a: int, b: int| 0 <= a < b < es2.len() implies es2[a].0
                            != es2[b].0 by {
                            if b < es.len() {
                                assert(es[a].0 != es[b].0);
                            }
                        }
                    }
                }
                (0, d)
            },
        }
    }

    /// The rows with a nonzero count, in entry order.
    pub fn present_rows(&self) -> (r: Vec<Row>)
        ensures
            rows_view(r@) == present(self.entries()),
    {
        let mut out: Vec<Row> = Vec::new();
        let mut i: usize = 0;
        while i < self.entries.len()
            invariant
                i <= self.entries().len(),
                self.entries().len() == self.entries@.len(),
                rows_view(out@) == present(self.entries().take(i as int)),
            decreases self.entries@.len() - i,
        {
            let ghost before = out@;
            let (row, c) = self.entry(i);
            if c != 0 {
                out.push(copy_row(row));
                assert(rows_view(out@) =~= rows_view(before).push(row@));
            }
            assert(self.entries().take(i + 1).drop_last() == self.entries().take(i as int));
            i = i + 1;
        }
        assert(self.entries().take(i as int) == self.entries());
        out
    }

    /// A table that counts each row of `rows` once per occurrence.
    pub fn from_rows(rows: &Vec<Row>) -> (r: Counts)
        ensures
            r.wf(),
            forall|u: Seq<i64>| #[trigger] r.count(u) == capped(occurrences(rows_view(rows@), u)),
    {
        let ghost v = rows_view(rows@);
        let mut r = Counts::new();
        let mut i: usize = 0;
        while i < rows.len()
            invariant
                i <= rows@.len(),
                v == rows_view(rows@),
                r.wf(),
                forall|u: Seq<i64>| #[trigger] r.count(u) == capped(occurrences(v.take(i as int), u)),
            decreases rows@.len() - i,
        {
            proof {
                lemma_occurrences(v.take(i as int), rows@[i as int]@);
                assert(v.take(i + 1).drop_last() == v.take(i as int));
            }
            r.add(&rows[i], 1);
            proof {
                assert forall|u: Seq<i64>| #[trigger] r.count(u) == capped(occurrences(v.take(i + 1), u)) by {
                    assert(v.take(i + 1).last() == rows@[i as int]@);
                    lemma_occurrences(v.take(i as int), u);
                }
            }
            i = i + 1;
        }
        assert(v.take(i as int) == v);
        r
    }
}

} // verus!
