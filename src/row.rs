use vstd::prelude::*;

verus! {

/// A tuple: a sequence of integer columns.
pub type Row = Vec<i64>;

/// The column sequences of a list of rows.
pub open spec fn rows_view(v: Seq<Row>) -> Seq<Seq<i64>> {
    v.map_values(|x: Row| x@)
}

/// Integer division truncated toward zero, the way Rust's `/` rounds.
pub open spec fn trunc_div(x: int, d: int) -> int {
    if x >= 0 {
        x / d
    } else {
        -((-x) / d)
    }
}

/// A pure, total function from rows to rows, used by the map operator and
/// as the key extractor of a join.
#[derive(Clone, Copy, Debug, PartialEq, Eq)]
pub enum RowFn {
    /// The row itself.
    Identity,
    /// Adds the constant to every column, wrapping on overflow.
    AddConst(i64),
    /// Divides every column by the constant, truncating toward zero. The
    /// constant is neither `0` nor `-1`, so that the division is total.
    DivConst(i64),
    /// The one-column row holding the given column, or the empty row when
    /// the row has no such column.
    Column(usize),
}

pub open spec fn add_col(c: i64) -> spec_fn(i64) -> i64 {
    |x: i64| vstd::wrapping::i64_specs::wrapping_add(x, c)
}

pub open spec fn div_col(d: i64) -> spec_fn(i64) -> i64 {
    |x: i64| trunc_div(x as int, d as int) as i64
}

impl RowFn {
    /// The function is total: a divisor is positive.
    pub open spec fn wf(&self) -> bool {
        match *self {
            RowFn::DivConst(d) => d != 0 && d != -1,
            _ => true,
        }
    }

    pub open spec fn spec_apply(&self, r: Seq<i64>) -> Seq<i64> {
        match *self {
            RowFn::Identity => r,
            RowFn::AddConst(c) => r.map_values(add_col(c)),
            RowFn::DivConst(d) => r.map_values(div_col(d)),
            RowFn::Column(i) => if i < r.len() {
                seq![r[i as int]]
            } else {
                Seq::<i64>::empty()
            },
        }
    }

    pub fn apply(&self, r: &Row) -> (out: Row)
        requires
            self.wf(),
        ensures
            out@ == self.spec_apply(r@),
    {
        match *self {
            RowFn::Identity => copy_row(r),
            RowFn::AddConst(c) => {
                let mut out: Vec<i64> = Vec::new();
                let mut i: usize = 0;
                while i < r.len()
                    invariant
                        i <= r.len(),
                        out@ == r@.take(i as int).map_values(add_col(c)),
                    decreases r.len() - i,
                {
                    out.push(r[i].wrapping_add(c));
                    i = i + 1;
                    proof {
                        assert(r@.take(i as int) == r@.take(i - 1).push(r@[i - 1]));
                    }
                }
                assert(r@.take(r.len() as int) == r@);
                out
            },
            RowFn::DivConst(d) => {
                let mut out: Vec<i64> = Vec::new();
                let mut i: usize = 0;
                while i < r.len()
                    invariant
                        i <= r.len(),
                        d != 0 && d != -1,
                        out@ == r@.take(i as int).map_values(div_col(d)),
                    decreases r.len() - i,
                {
                    out.push(r[i] / d);
                    i = i + 1;
                    proof {
                        assert(r@.take(i as int) == r@.take(i - 1).push(r@[i - 1]));
                    }
                }
                assert(r@.take(r.len() as int) == r@);
                out
            },
            RowFn::Column(i) => {
                let mut out: Vec<i64> = Vec::new();
                if i < r.len() {
                    out.push(r[i]);
                }
                assert(out@ =~= self.spec_apply(r@));
                out
            },
        }
    }
}

/// A fresh copy of a row.
pub fn copy_row(r: &Row) -> (out: Row)
    ensures
        out@ == r@,
{
    let mut out: Vec<i64> = Vec::new();
    let mut i: usize = 0;
    while i < r.len()
        invariant
            i <= r.len(),
            out@ == r@.take(i as int),
        decreases r.len() - i,
    {
        out.push(r[i]);
        i = i + 1;
        proof {
            assert(r@.take(i as int) == r@.take(i - 1).push(r@[i - 1]));
        }
    }
    assert(r@.take(r.len() as int) == r@);
    out
}

/// Whether two rows hold the same columns.
pub fn rows_equal(a: &Row, b: &Row) -> (r: bool)
    ensures
        r == (a@ == b@),
{
    if a.len() != b.len() {
        return false;
    }
    let mut i: usize = 0;
    while i < a.len()
        invariant
            i <= a.len(),
            a.len() == b.len(),
            forall|j: int| 0 <= j < i ==> a@[j] == b@[j],
        decreases a.len() - i,
    {
        if a[i] != b[i] {
            return false;
        }
        i = i + 1;
    }
    assert(a@ =~= b@);
    true
}

} // verus!

verus! {

/// The row holding the columns of `a` followed by those of `b`.
pub fn concat_rows(a: &Row, b: &Row) -> (out: Row)
    ensures
        out@ == a@ + b@,
{
    let mut out = copy_row(a);
    let mut i: usize = 0;
    while i < b.len()
        invariant
            i <= b.len(),
            out@ == a@ + b@.take(i as int),
        decreases b.len() - i,
    {
        out.push(b[i]);
        i = i + 1;
        proof {
            assert(b@.take(i as int) == b@.take(i - 1).push(b@[i - 1]));
            assert(a@ + b@.take(i as int) == (a@ + b@.take(i - 1)).push(b@[i - 1]));
        }
    }
    assert(b@.take(b.len() as int) == b@);
    out
}

} // verus!

verus! {

/// Lexicographic order on rows, a proper prefix first: the order of `Vec<i64>`.
pub open spec fn row_le(a: Seq<i64>, b: Seq<i64>) -> bool
    decreases a.len(),
{
    if a.len() == 0 {
        true
    } else if b.len() == 0 {
        false
    } else if a[0] != b[0] {
        a[0] < b[0]
    } else {
        row_le(a.drop_first(), b.drop_first())
    }
}

pub proof fn lemma_row_le_total(a: Seq<i64>, b: Seq<i64>)
    ensures
        row_le(a, b) || row_le(b, a),
    decreases a.len(),
{
    if a.len() > 0 && b.len() > 0 && a[0] == b[0] {
        lemma_row_le_total(a.drop_first(), b.drop_first());
    }
}

/// The rows are in ascending order.
pub open spec fn sorted(s: Seq<Seq<i64>>) -> bool {
    forall|i: int| 0 <= i < s.len() - 1 ==> row_le(#[trigger] s[i], s[i + 1])
}

/// Whether `a` comes before `b` or equals it, lexicographically.
pub fn row_le_exec(a: &Row, b: &Row) -> (r: bool)
    ensures
        r == row_le(a@, b@),
{
    let mut i: usize = 0;
    assert(a@.skip(0) == a@);
    assert(b@.skip(0) == b@);
    while i < a.len() && i < b.len()
        invariant
            i <= a@.len(),
            i <= b@.len(),
            row_le(a@, b@) == row_le(a@.skip(i as int), b@.skip(i as int)),
        decreases a@.len() - i,
    {
        if a[i] != b[i] {
            return a[i] < b[i];
        }
        assert(a@.skip(i as int).drop_first() == a@.skip(i + 1));
        assert(b@.skip(i as int).drop_first() == b@.skip(i + 1));
        i = i + 1;
    }
    i == a.len()
}

/// The rows of `v` in ascending order.
pub fn sort_rows(v: &Vec<Row>) -> (out: Vec<Row>)
    ensures
        rows_view(out@).to_multiset() == rows_view(v@).to_multiset(),
        sorted(rows_view(out@)),
{
    let mut out: Vec<Row> = Vec::new();
    let mut i: usize = 0;
    assert(rows_view(out@) =~= rows_view(v@).take(0));
    while i < v.len()
        invariant
            i <= v@.len(),
            rows_view(out@).to_multiset() == rows_view(v@).take(i as int).to_multiset(),
            sorted(rows_view(out@)),
        decreases v@.len() - i,
    {
        let x = copy_row(&v[i]);
        let mut pos: usize = 0;
        while pos < out.len() && row_le_exec(&out[pos], &x)
            invariant
                pos <= out@.len(),
                forall|j: int| 0 <= j < pos ==> row_le(#[trigger] out@[j]@, x@),
            decreases out@.len() - pos,
        {
            pos = pos + 1;
        }
        let ghost before = rows_view(out@);
        out.insert(pos, x);
        proof {
            let after = rows_view(out@);
            assert(after =~= before.insert(pos as int, v@[i as int]@));
            vstd::seq_lib::to_multiset_insert(before, pos as int, v@[i as int]@);
            let w = rows_view(v@);
            assert(w.take(i + 1) =~= w.take(i as int).push(w[i as int]));
            vstd::seq_lib::to_multiset_build(w.take(i as int), w[i as int]);
            if pos < before.len() {
                lemma_row_le_total(before[pos as int], x@);
            }
            assert forall|j: int| 0 <= j < after.len() - 1 implies row_le(#[trigger] after[j], after[j + 1]) by {
                if j < pos - 1 {
                    assert(after[j] == before[j] && after[j + 1] == before[j + 1]);
                } else if j == pos - 1 {
                } else if j == pos {
                } else {
                    assert(after[j] == before[j - 1] && after[j + 1] == before[j]);
                }
            }
        }
        i = i + 1;
    }
    assert(rows_view(v@).take(i as int) == rows_view(v@));
    out
}

} // verus!

verus! {

/// The row that a join emits for the pair `(x, y)`: the width of `x`, then
/// the columns of `x`, then those of `y`. The width makes the pair
/// recoverable from the row.
pub open spec fn pair_row(x: Seq<i64>, y: Seq<i64>) -> Seq<i64> {
    seq![x.len() as i64] + x + y
}

/// Distinct pairs give distinct rows, while the left rows' widths fit `i64`.
pub proof fn lemma_pair_row_injective(x1: Seq<i64>, y1: Seq<i64>, x2: Seq<i64>, y2: Seq<i64>)
    requires
        x1.len() <= i64::MAX,
        x2.len() <= i64::MAX,
        pair_row(x1, y1) == pair_row(x2, y2),
    ensures
        x1 == x2,
        y1 == y2,
{
    let r = pair_row(x1, y1);
    assert(r[0] == x1.len() as i64);
    assert(pair_row(x2, y2)[0] == x2.len() as i64);
    assert(x1.len() == x2.len());
    assert(x1 =~= r.subrange(1, 1 + x1.len() as int));
    assert(x2 =~= pair_row(x2, y2).subrange(1, 1 + x2.len() as int));
    assert(y1 =~= r.subrange(1 + x1.len() as int, r.len() as int));
    assert(y2 =~= pair_row(x2, y2).subrange(1 + x2.len() as int, r.len() as int));
}

/// The join row of `x` and `y`.
pub fn pair_rows(x: &Row, y: &Row) -> (out: Row)
    ensures
        out@ == pair_row(x@, y@),
{
    #[verifier::truncate]
    let w = x.len() as i64;
    let mut head: Vec<i64> = Vec::new();
    head.push(w);
    let hx = concat_rows(&head, x);
    let out = concat_rows(&hx, y);
    assert(head@ =~= seq![x@.len() as i64]);
    out
}

} // verus!
