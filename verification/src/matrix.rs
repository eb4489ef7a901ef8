//! Integer matrices and their product, with the row-wise split used to
//! multiply through the pool: one job per row of the left operand, each
//! computing a single-row product, collected back in row order.

use vstd::prelude::*;

verus! {

/// A row-major matrix of 32-bit integers.
pub struct Matrix {
    pub rows: usize,
    pub cols: usize,
    pub data: Vec<Vec<i32>>,
}

/// The first `k` terms of the dot product of row `i` of `a` with column `j`
/// of `b`.
pub open spec fn dot(a: Seq<Seq<i32>>, b: Seq<Seq<i32>>, i: int, j: int, k: int) -> int
    decreases k,
{
    if k <= 0 {
        0
    } else {
        dot(a, b, i, j, k - 1) + a[i][k - 1] * b[k - 1][j]
    }
}

/// Every term and every partial sum of the product of `a` (`rows` by `mid`)
/// and `b` (`mid` by `cols`) stays inside the 32-bit range, so the running
/// accumulation cannot overflow. This is the machine limit under which the
/// product is computed.
pub open spec fn mul_fits(
    a: Seq<Seq<i32>>,
    b: Seq<Seq<i32>>,
    rows: int,
    mid: int,
    cols: int,
) -> bool {
    &&& (forall|i: int, j: int, k: int|
        0 <= i < rows && 0 <= j < cols && 0 <= k < mid ==> i32::MIN <= #[trigger] (a[i][k]
            * b[k][j]) <= i32::MAX)
    &&& (forall|i: int, j: int, k: int|
        0 <= i < rows && 0 <= j < cols && 0 <= k <= mid ==> i32::MIN <= #[trigger] dot(
            a,
            b,
            i,
            j,
            k,
        ) <= i32::MAX)
}

/// The views of a vector of rows.
pub open spec fn rows_of(s: Seq<Vec<i32>>) -> Seq<Seq<i32>> {
    Seq::new(s.len(), |t: int| s[t]@)
}

/// The rows of the matrices of `ms`, stacked in order.
pub open spec fn stacked_rows(ms: Seq<Matrix>) -> Seq<Seq<i32>>
    decreases ms.len(),
{
    if ms.len() == 0 {
        Seq::empty()
    } else {
        ms.first().m() + stacked_rows(ms.drop_first())
    }
}

/// The dot product reads one row of its left operand: equal rows give equal
/// dot products, wherever the rows stand.
pub proof fn lemma_dot_same_row(
    a1: Seq<Seq<i32>>,
    i1: int,
    a2: Seq<Seq<i32>>,
    i2: int,
    b: Seq<Seq<i32>>,
    j: int,
    k: int,
)
    requires
        a1[i1] == a2[i2],
    ensures
        dot(a1, b, i1, j, k) == dot(a2, b, i2, j, k),
    decreases k,
{
    if k > 0 {
        lemma_dot_same_row(a1, i1, a2, i2, b, j, k - 1);
    }
}

impl Matrix {
    /// The matrix as a sequence of rows of integers.
    pub open spec fn m(self) -> Seq<Seq<i32>> {
        rows_of(self.data@)
    }

    /// The dimensions describe the data: `rows` rows of `cols` entries each.
    pub open spec fn wf(self) -> bool {
        &&& self.data@.len() == self.rows
        &&& forall|i: int| 0 <= i < self.data@.len() ==> (#[trigger] self.data@[i])@.len()
            == self.cols
    }

    /// A `rows` by `cols` matrix filled with `init_val`.
    pub fn new(rows: usize, cols: usize, init_val: i32) -> (r: Matrix)
        ensures
            r.wf(),
            r.rows == rows,
            r.cols == cols,
            forall|i: int, j: int| 0 <= i < rows && 0 <= j < cols ==> r.m()[i][j] == init_val,
    {
        let mut data: Vec<Vec<i32>> = Vec::new();
        let mut i: usize = 0;
        while i < rows
            invariant
                i <= rows,
                data@.len() == i,
                forall|p: int| 0 <= p < i ==> (#[trigger] data@[p])@.len() == cols,
                forall|p: int, q: int|
                    0 <= p < i && 0 <= q < cols ==> #[trigger] data@[p]@[q] == init_val,
            decreases rows - i,
        {
            let mut row: Vec<i32> = Vec::new();
            let mut j: usize = 0;
            while j < cols
                invariant
                    j <= cols,
                    row@.len() == j,
                    forall|q: int| 0 <= q < j ==> row@[q] == init_val,
                decreases cols - j,
            {
                row.push(init_val);
                j = j + 1;
            }
            data.push(row);
            i = i + 1;
        }
        Matrix { rows, cols, data }
    }

    /// The single-row matrix holding `vec`.
    pub fn from_vec(vec: Vec<i32>) -> (r: Matrix)
        ensures
            r.wf(),
            r.rows == 1,
            r.cols == vec@.len(),
            r.m() == seq![vec@],
    {
        let cols = vec.len();
        let r = Matrix { rows: 1, cols, data: vec![vec] };
        proof {
            assert(r.m() =~= seq![r.data@[0]@]);
        }
        r
    }

    /// Stack the matrices of `accord` on top of one another, in order. They
    /// must agree on the column count, and there must be at least one, whose
    /// column count the result takes.
    pub fn collect(accord: Vec<Matrix>) -> (r: Matrix)
        requires
            accord@.len() > 0,
            forall|p: int| 0 <= p < accord@.len() ==> (#[trigger] accord@[p]).wf(),
            forall|p: int|
                0 <= p < accord@.len() ==> (#[trigger] accord@[p]).cols == accord@[0].cols,
            stacked_rows(accord@).len() <= usize::MAX,
        ensures
            r.wf(),
            r.cols == accord@[0].cols,
            r.m() == stacked_rows(accord@),
    {
        let ghost ms = accord@;
        let mut accord = accord;
        let cols = accord[0].cols;
        let mut rows: usize = 0;
        let mut data: Vec<Vec<i32>> = Vec::new();
        let mut p: usize = 0;
        let n = accord.len();
        while p < n
            invariant
                p <= n,
                n == ms.len(),
                accord@ == ms.skip(p as int),
                forall|q: int| 0 <= q < ms.len() ==> (#[trigger] ms[q]).wf(),
                forall|q: int| 0 <= q < ms.len() ==> (#[trigger] ms[q]).cols == cols,
                stacked_rows(ms).len() <= usize::MAX,
                rows == data@.len(),
                rows_of(data@) == stacked_rows(ms.take(p as int)),
                forall|q: int| 0 <= q < data@.len() ==> (#[trigger] data@[q])@.len() == cols,
            decreases n - p,
        {
            proof {
                assert(ms.skip(p as int)[0] == ms[p as int]);
                assert(ms.skip(p as int).remove(0) =~= ms.skip(p + 1));
                lemma_stacked_rows_take_next(ms, p as int);
                lemma_stacked_rows_take_prefix_len(ms, p + 1);
            }
            let mtx = accord.remove(0);
            let mut rest = mtx.data;
            let ghost dpre = data@;
            data.append(&mut rest);
            rows = data.len();
            proof {
                assert forall|t: int| 0 <= t < data@.len() implies #[trigger] rows_of(data@)[t]
                    == (stacked_rows(ms.take(p as int)) + ms[p as int].m())[t] by {
                    if t < dpre.len() {
                        assert(rows_of(dpre)[t] == stacked_rows(ms.take(p as int))[t]);
                    } else {
                        assert(data@[t] == mtx.data@[t - dpre.len()]);
                    }
                }
                assert(rows_of(data@) =~= stacked_rows(ms.take(p as int)) + ms[p as int].m());
                assert(rows_of(data@) == stacked_rows(ms.take(p + 1)));
            }
            p = p + 1;
        }
        proof {
            assert(ms.take(n as int) =~= ms);
        }
        Matrix { rows, cols, data }
    }

    /// The matrix product. Entry `(i, j)` of the result is the dot product
    /// of row `i` of `self` with column `j` of `rhs`; the dimensions must
    /// agree and the arithmetic must fit the 32-bit range.
    pub fn mul(&self, rhs: &Matrix) -> (r: Matrix)
        requires
            self.wf(),
            rhs.wf(),
            self.cols == rhs.rows,
            mul_fits(self.m(), rhs.m(), self.rows as int, self.cols as int, rhs.cols as int),
        ensures
            r.wf(),
            r.rows == self.rows,
            r.cols == rhs.cols,
            forall|i: int, j: int|
                0 <= i < r.rows && 0 <= j < r.cols ==> r.m()[i][j] == dot(
                    self.m(),
                    rhs.m(),
                    i,
                    j,
                    self.cols as int,
                ),
    {
        let mut data: Vec<Vec<i32>> = Vec::new();
        let mut i: usize = 0;
        while i < self.rows
            invariant
                i <= self.rows,
                self.wf(),
                rhs.wf(),
                self.cols == rhs.rows,
                mul_fits(self.m(), rhs.m(), self.rows as int, self.cols as int, rhs.cols as int),
                data@.len() == i,
                forall|p: int| 0 <= p < i ==> (#[trigger] data@[p])@.len() == rhs.cols,
                forall|p: int, q: int|
                    0 <= p < i && 0 <= q < rhs.cols ==> #[trigger] data@[p]@[q] == dot(
                        self.m(),
                        rhs.m(),
                        p,
                        q,
                        self.cols as int,
                    ),
            decreases self.rows - i,
        {
            let mut row: Vec<i32> = Vec::new();
            let mut j: usize = 0;
            while j < rhs.cols
                invariant
                    j <= rhs.cols,
                    i < self.rows,
                    self.wf(),
                    rhs.wf(),
                    self.cols == rhs.rows,
                    mul_fits(
                        self.m(),
                        rhs.m(),
                        self.rows as int,
                        self.cols as int,
                        rhs.cols as int,
                    ),
                    row@.len() == j,
                    forall|q: int|
                        0 <= q < j ==> row@[q] == dot(
                            self.m(),
                            rhs.m(),
                            i as int,
                            q,
                            self.cols as int,
                        ),
                decreases rhs.cols - j,
            {
                let mut acc: i32 = 0;
                let mut k: usize = 0;
                while k < self.cols
                    invariant
                        k <= self.cols,
                        i < self.rows,
                        j < rhs.cols,
                        self.wf(),
                        rhs.wf(),
                        self.cols == rhs.rows,
                        mul_fits(
                            self.m(),
                            rhs.m(),
                            self.rows as int,
                            self.cols as int,
                            rhs.cols as int,
                        ),
                        acc == dot(self.m(), rhs.m(), i as int, j as int, k as int),
                    decreases self.cols - k,
                {
                    proof {
                        assert(self.m()[i as int][k as int] == self.data@[i as int]@[k as int]);
                        assert(rhs.m()[k as int][j as int] == rhs.data@[k as int]@[j as int]);
                        assert(i32::MIN <= self.m()[i as int][k as int] * rhs.m()[k as int][j as int] <= i32::MAX);
                        assert(i32::MIN <= dot(self.m(), rhs.m(), i as int, j as int, k + 1) <= i32::MAX);
                    }
                    let prod = self.data[i][k] * rhs.data[k][j];
                    acc = acc + prod;
                    k = k + 1;
                }
                row.push(acc);
                j = j + 1;
            }
            data.push(row);
            i = i + 1;
        }
        Matrix { rows: self.rows, cols: rhs.cols, data }
    }
}

/// Stacking one more matrix appends its rows.
pub proof fn lemma_stacked_rows_take_next(ms: Seq<Matrix>, p: int)
    requires
        0 <= p < ms.len(),
    ensures
        stacked_rows(ms.take(p + 1)) == stacked_rows(ms.take(p)) + ms[p].m(),
    decreases p,
{
    if p == 0 {
        assert(ms.take(1).first() == ms[0]);
        assert(ms.take(1).drop_first() =~= Seq::<Matrix>::empty());
        assert(ms.take(0) =~= Seq::<Matrix>::empty());
        assert(stacked_rows(ms.take(1)) =~= stacked_rows(ms.take(0)) + ms[0].m());
    } else {
        lemma_stacked_rows_take_next(ms.drop_first(), p - 1);
        assert(ms.take(p + 1).first() == ms[0]);
        assert(ms.take(p + 1).drop_first() =~= ms.drop_first().take(p));
        assert(ms.take(p).first() == ms[0]);
        assert(ms.take(p).drop_first() =~= ms.drop_first().take(p - 1));
        assert(ms.drop_first()[p - 1] == ms[p]);
        assert(stacked_rows(ms.take(p + 1)) =~= stacked_rows(ms.take(p)) + ms[p].m());
    }
}

/// A prefix stacks at most as many rows as the whole.
pub proof fn lemma_stacked_rows_take_prefix_len(ms: Seq<Matrix>, p: int)
    requires
        0 <= p <= ms.len(),
    ensures
        stacked_rows(ms.take(p)).len() <= stacked_rows(ms).len(),
    decreases ms.len() - p,
{
    if p < ms.len() {
        lemma_stacked_rows_take_next(ms, p);
        lemma_stacked_rows_take_prefix_len(ms, p + 1);
    } else {
        assert(ms.take(p) =~= ms);
    }
}

/// The row-wise scatter/gather product: one single-row product per row of
/// `a`, stacked in row order, equals the product computed in one piece.
pub fn mat_mul_rows(a: &Matrix, b: &Matrix) -> (r: Matrix)
    requires
        a.wf(),
        b.wf(),
        a.cols == b.rows,
        a.rows > 0,
        mul_fits(a.m(), b.m(), a.rows as int, a.cols as int, b.cols as int),
    ensures
        r.wf(),
        r.rows == a.rows,
        r.cols == b.cols,
        forall|i: int, j: int|
            0 <= i < r.rows && 0 <= j < r.cols ==> r.m()[i][j] == dot(
                a.m(),
                b.m(),
                i,
                j,
                a.cols as int,
            ),
{
    let mut parts: Vec<Matrix> = Vec::new();
    let mut i: usize = 0;
    while i < a.rows
        invariant
            i <= a.rows,
            a.wf(),
            b.wf(),
            a.cols == b.rows,
            mul_fits(a.m(), b.m(), a.rows as int, a.cols as int, b.cols as int),
            parts@.len() == i,
            forall|p: int| 0 <= p < i ==> (#[trigger] parts@[p]).wf(),
            forall|p: int| 0 <= p < i ==> (#[trigger] parts@[p]).rows == 1,
            forall|p: int| 0 <= p < i ==> (#[trigger] parts@[p]).cols == b.cols,
            forall|p: int, q: int|
                0 <= p < i && 0 <= q < b.cols ==> #[trigger] parts@[p].m()[0][q] == dot(
                    a.m(),
                    b.m(),
                    p,
                    q,
                    a.cols as int,
                ),
        decreases a.rows - i,
    {
        let mut row: Vec<i32> = Vec::new();
        let mut k: usize = 0;
        while k < a.cols
            invariant
                k <= a.cols,
                i < a.rows,
                a.wf(),
                row@ == a.m()[i as int].take(k as int),
            decreases a.cols - k,
        {
            row.push(a.data[i][k]);
            proof {
                assert(a.m()[i as int].take(k + 1) =~= a.m()[i as int].take(k as int).push(
                    a.m()[i as int][k as int],
                ));
            }
            k = k + 1;
        }
        proof {
            assert(a.m()[i as int].take(a.cols as int) =~= a.m()[i as int]);
        }
        let vm = Matrix::from_vec(row);
        proof {
            assert(vm.m()[0] == a.m()[i as int]);
            assert forall|j: int, k: int|
                0 <= j < b.cols && 0 <= k <= a.cols implies i32::MIN <= #[trigger] dot(
                vm.m(),
                b.m(),
                0,
                j,
                k,
            ) <= i32::MAX && dot(vm.m(), b.m(), 0, j, k) == dot(a.m(), b.m(), i as int, j, k) by {
                lemma_dot_same_row(vm.m(), 0, a.m(), i as int, b.m(), j, k);
            }
        }
        let prod = vm.mul(b);
        parts.push(prod);
        proof {
            assert forall|q2: int| 0 <= q2 < b.cols implies #[trigger] parts@[i as int].m()[0][q2]
                == dot(a.m(), b.m(), i as int, q2, a.cols as int) by {
                assert(parts@[i as int] == prod);
                assert(prod.m()[0][q2] == dot(vm.m(), b.m(), 0, q2, vm.cols as int));
            }
        }
        i = i + 1;
    }
    proof {
        lemma_stacked_parts_pointwise(parts@, b.cols as int);
    }
    let r = Matrix::collect(parts);
    r
}

/// Stacking single-row matrices reads off their rows one by one.
proof fn lemma_stacked_parts_pointwise(parts: Seq<Matrix>, cols: int)
    requires
        forall|p: int| 0 <= p < parts.len() ==> (#[trigger] parts[p]).wf(),
        forall|p: int| 0 <= p < parts.len() ==> (#[trigger] parts[p]).rows == 1,
    ensures
        stacked_rows(parts).len() == parts.len(),
        forall|p: int|
            0 <= p < parts.len() ==> #[trigger] stacked_rows(parts)[p] == parts[p].m()[0],
    decreases parts.len(),
{
    if parts.len() > 0 {
        lemma_stacked_parts_pointwise(parts.drop_first(), cols);
        assert(parts.first().m().len() == 1);
        assert forall|p: int| 0 <= p < parts.len() implies #[trigger] stacked_rows(parts)[p]
            == parts[p].m()[0] by {
            if p == 0 {
                assert(stacked_rows(parts)[0] == parts.first().m()[0]);
            } else {
                assert(stacked_rows(parts)[p] == stacked_rows(parts.drop_first())[p - 1]);
                assert(parts.drop_first()[p - 1] == parts[p]);
            }
        }
    }
}

} // verus!
