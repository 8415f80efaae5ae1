use vstd::prelude::*;

verus! {

/// A dense `height` x `width` matrix, stored row by row.
#[derive(Debug, Clone)]
pub struct Matrix<T> {
    width: usize,
    height: usize,
    values: Vec<T>,
}

/// `r * w + c` addresses a cell of an `h` x `w` grid.
pub proof fn lemma_cell_index(h: int, w: int, r: int, c: int)
    requires
        0 <= r < h,
        0 <= c < w,
    ensures
        0 <= r * w + c < h * w,
        r * w + c + 1 <= (r + 1) * w,
        (r + 1) * w <= h * w,
{
    assert(0 <= r * w + c < h * w) by (nonlinear_arith)
        requires
            0 <= r < h,
            0 <= c < w,
    ;
    assert(r * w + c + 1 <= (r + 1) * w) by (nonlinear_arith)
        requires
            0 <= c < w,
    ;
    assert((r + 1) * w <= h * w) by (nonlinear_arith)
        requires
            0 <= r < h,
            0 <= w,
    ;
}

/// `times` and `plus` can fold the pairwise products of `a` and `b`, from the
/// first pair on, into `v`.
pub open spec fn folds_to<T, M: Fn(T, T) -> T, A: Fn(T, T) -> T>(
    times: M,
    plus: A,
    a: Seq<T>,
    b: Seq<T>,
    v: T,
) -> bool
    decreases a.len(),
{
    if a.len() <= 1 {
        a.len() == 1 && b.len() == 1 && times.ensures((a[0], b[0]), v)
    } else {
        b.len() == a.len() && exists|acc: T, p: T|
            folds_to(times, plus, a.drop_last(), b.drop_last(), acc) && times.ensures(
                (a.last(), b.last()),
                p,
            ) && #[trigger] plus.ensures((acc, p), v)
    }
}

impl<T> Matrix<T> {
    pub closed spec fn spec_width(&self) -> nat {
        self.width as nat
    }

    pub closed spec fn spec_height(&self) -> nat {
        self.height as nat
    }

    /// The cells, row after row.
    pub closed spec fn cells(&self) -> Seq<T> {
        self.values@
    }

    pub open spec fn wf(&self) -> bool {
        &&& self.cells().len() == self.spec_height() * self.spec_width()
        &&& self.spec_height() * self.spec_width() <= usize::MAX
    }

    pub open spec fn at(&self, r: int, c: int) -> T {
        self.cells()[r * self.spec_width() + c]
    }

    pub open spec fn row_seq(&self, r: int) -> Seq<T> {
        Seq::new(self.spec_width(), |c: int| self.at(r, c))
    }

    pub open spec fn col_seq(&self, c: int) -> Seq<T> {
        Seq::new(self.spec_height(), |r: int| self.at(r, c))
    }

    pub open spec fn same_shape<U>(&self, other: &Matrix<U>) -> bool {
        self.spec_height() == other.spec_height() && self.spec_width() == other.spec_width()
    }

    /// A matrix whose cell `(r, c)` is `func(r, c)`; `func` is called once per cell.
    pub fn new_map<F>(height: usize, width: usize, func: F) -> (m: Self) where
        F: Fn(usize, usize) -> T,

        requires
            height * width <= usize::MAX,
            forall|r: usize, c: usize| r < height && c < width ==> #[trigger] func.requires((r, c)),
        ensures
            m.wf(),
            m.spec_height() == height,
            m.spec_width() == width,
            forall|r: usize, c: usize|
                r < height && c < width ==> func.ensures((r, c), #[trigger] m.at(r as int, c as int)),
    {
        let mut values: Vec<T> = Vec::new();
        let mut row: usize = 0;
        while row < height
            invariant
                row <= height,
                height * width <= usize::MAX,
                forall|r: usize, c: usize| r < height && c < width ==> #[trigger] func.requires((r, c)),
                values@.len() == row * width,
                forall|r: usize, c: usize|
                    r < row && c < width ==> func.ensures((r, c), #[trigger] values@[r * width + c]),
            decreases height - row,
        {
            let mut col: usize = 0;
            while col < width
                invariant
                    row < height,
                    col <= width,
                    height * width <= usize::MAX,
                    forall|r: usize, c: usize| r < height && c < width ==> #[trigger] func.requires((r, c)),
                    values@.len() == row * width + col,
                    forall|r: usize, c: usize|
                        r < row && c < width ==> func.ensures((r, c), #[trigger] values@[r * width + c]),
                    forall|c: usize| c < col ==> func.ensures((row, c), #[trigger] values@[row * width + c]),
                decreases width - col,
            {
                proof {
                    lemma_cell_index(height as int, width as int, row as int, col as int);
                }
                let v = func(row, col);
                let ghost prev = values@;
                values.push(v);
                assert forall|r: usize, c: usize| r < row && c < width implies func.ensures(
                    (r, c),
                    #[trigger] values@[r * width + c],
                ) by {
                    lemma_cell_index(row as int, width as int, r as int, c as int);
                    assert(values@[r * width + c] == prev[r * width + c]);
                }
                col = col + 1;
            }
            proof {
                assert((row + 1) * width == row * width + width) by (nonlinear_arith);
                assert forall|r: usize, c: usize| r < row + 1 && c < width implies func.ensures(
                    (r, c),
                    #[trigger] values@[r * width + c],
                ) by {
                    if r == row {
                    }
                }
            }
            row = row + 1;
        }
        let m = Matrix { width, height, values };
        assert forall|r: usize, c: usize| r < height && c < width implies func.ensures(
            (r, c),
            #[trigger] m.at(r as int, c as int),
        ) by {
            assert(m.at(r as int, c as int) == values@[r * width + c]);
        }
        m
    }

    /// Applies `func` to every cell.
    pub fn map<F>(self, func: F) -> (m: Self) where F: Fn(T) -> T,
        requires
            self.wf(),
            forall|v: T| #[trigger] func.requires((v,)),
        ensures
            m.wf(),
            m.same_shape(&self),
            forall|r: int, c: int|
                0 <= r < self.spec_height() && 0 <= c < self.spec_width() ==> func.ensures(
                    (self.at(r, c),),
                    #[trigger] m.at(r, c),
                ),
    {
        let Matrix { width, height, values } = self;
        let ghost old_values = values@;
        let mut values = values;
        let mut out: Vec<T> = Vec::new();
        let n = values.len();
        let mut i: usize = 0;
        // Cells are taken from the back, so no copy of `T` is needed.
        let mut rest: Vec<T> = Vec::new();
        assert(values@ =~= old_values.take(values@.len() as int));
        while values.len() > 0
            invariant
                forall|v: T| #[trigger] func.requires((v,)),
                values@.len() + rest@.len() == n,
                n == old_values.len(),
                values@ == old_values.take(values@.len() as int),
                forall|j: int|
                    0 <= j < rest@.len() ==> #[trigger] rest@[j] == old_values[n - 1 - j],
            decreases values@.len(),
        {
            let v = values.pop().unwrap();
            rest.push(v);
            proof {
                assert(values@ =~= old_values.take(values@.len() as int));
            }
        }
        while rest.len() > 0
            invariant
                forall|v: T| #[trigger] func.requires((v,)),
                i == out@.len(),
                i + rest@.len() == n,
                n == old_values.len(),
                forall|j: int|
                    0 <= j < rest@.len() ==> #[trigger] rest@[j] == old_values[n - 1 - j],
                forall|j: int| 0 <= j < i ==> func.ensures((old_values[j],), #[trigger] out@[j]),
            decreases rest@.len(),
        {
            let v = rest.pop().unwrap();
            let w = func(v);
            out.push(w);
            i = i + 1;
        }
        let m = Matrix { width, height, values: out };
        assert forall|r: int, c: int|
            0 <= r < self.spec_height() && 0 <= c < self.spec_width() implies func.ensures(
                (self.at(r, c),),
                #[trigger] m.at(r, c),
            ) by {
            lemma_cell_index(height as int, width as int, r, c);
        }
        m
    }

    pub fn get_width(&self) -> (w: usize)
        ensures
            w == self.spec_width(),
    {
        self.width
    }

    pub fn get_height(&self) -> (h: usize)
        ensures
            h == self.spec_height(),
    {
        self.height
    }

    /// The cells of row `row`; the row must exist.
    pub fn row(&self, row: usize) -> (s: &[T])
        requires
            self.wf(),
            row < self.spec_height(),
        ensures
            s@ == self.row_seq(row as int),
    {
        proof {
            if self.width > 0 {
                lemma_cell_index(self.height as int, self.width as int, row as int, 0);
            } else {
                assert(row * self.width == 0) by (nonlinear_arith)
                    requires
                        self.width == 0,
                ;
            }
            assert((row + 1) * self.width == row * self.width + self.width) by (nonlinear_arith);
            assert((row + 1) * self.width <= self.height * self.width) by (nonlinear_arith)
                requires
                    row < self.height,
            ;
        }
        let start = row * self.width;
        let s = vstd::slice::slice_subrange(self.values.as_slice(), start, start + self.width);
        assert(s@ =~= self.row_seq(row as int));
        s
    }
}

impl<T: Copy> Matrix<T> {
    /// The cell at `(row, col)`.
    pub fn get(&self, row: usize, col: usize) -> (v: T)
        requires
            self.wf(),
            row < self.spec_height(),
            col < self.spec_width(),
        ensures
            v == self.at(row as int, col as int),
    {
        proof {
            lemma_cell_index(self.height as int, self.width as int, row as int, col as int);
        }
        self.values[row * self.width + col]
    }

    /// Combines two matrices of the same shape cell by cell with `func`
    /// (elementwise sum or difference, for instance). Operands of different
    /// shapes are a caller error.
    pub fn zip_with<F>(&self, rhs: &Matrix<T>, func: F) -> (m: Matrix<T>) where F: Fn(T, T) -> T,
        requires
            self.wf(),
            rhs.wf(),
            self.same_shape(rhs),
            forall|a: T, b: T| #[trigger] func.requires((a, b)),
        ensures
            m.wf(),
            m.same_shape(self),
            forall|r: int, c: int|
                0 <= r < self.spec_height() && 0 <= c < self.spec_width() ==> func.ensures(
                    (self.at(r, c), rhs.at(r, c)),
                    #[trigger] m.at(r, c),
                ),
    {
        let mut values: Vec<T> = Vec::new();
        let n = self.values.len();
        let mut i: usize = 0;
        while i < n
            invariant
                n == self.values@.len(),
                n == rhs.values@.len(),
                i <= n,
                values@.len() == i,
                forall|a: T, b: T| #[trigger] func.requires((a, b)),
                forall|j: int|
                    0 <= j < i ==> func.ensures(
                        (self.values@[j], rhs.values@[j]),
                        #[trigger] values@[j],
                    ),
            decreases n - i,
        {
            let v = func(self.values[i], rhs.values[i]);
            values.push(v);
            i = i + 1;
        }
        let m = Matrix { width: self.width, height: self.height, values };
        assert forall|r: int, c: int|
            0 <= r < self.spec_height() && 0 <= c < self.spec_width() implies func.ensures(
                (self.at(r, c), rhs.at(r, c)),
                #[trigger] m.at(r, c),
            ) by {
            lemma_cell_index(self.height as int, self.width as int, r, c);
        }
        m
    }

    /// The matrix product, each cell the sum (by `plus`, from the first term on)
    /// of the products (by `times`) of a row of `self` and a column of `rhs`.
    /// The width of `self` must be the height of `rhs`; an empty inner
    /// dimension has no first term, so it is allowed only for an empty result.
    pub fn product_with<M, A>(&self, rhs: &Matrix<T>, times: M, plus: A) -> (m: Matrix<T>) where
        M: Fn(T, T) -> T,
        A: Fn(T, T) -> T,

        requires
            self.wf(),
            rhs.wf(),
            self.spec_width() == rhs.spec_height(),
            self.spec_width() > 0 || self.spec_height() == 0 || rhs.spec_width() == 0,
            self.spec_height() * rhs.spec_width() <= usize::MAX,
            forall|a: T, b: T| #[trigger] times.requires((a, b)),
            forall|a: T, b: T| #[trigger] plus.requires((a, b)),
        ensures
            m.wf(),
            m.spec_height() == self.spec_height(),
            m.spec_width() == rhs.spec_width(),
            forall|r: int, c: int|
                0 <= r < self.spec_height() && 0 <= c < rhs.spec_width() ==> folds_to(
                    times,
                    plus,
                    self.row_seq(r),
                    rhs.col_seq(c),
                    #[trigger] m.at(r, c),
                ),
    {
        let height = self.height;
        let width = rhs.width;
        let inner = self.width;
        let mut values: Vec<T> = Vec::new();
        let mut row: usize = 0;
        while row < height
            invariant
                self.wf(),
                rhs.wf(),
                inner == self.spec_width(),
                inner == rhs.spec_height(),
                inner > 0 || height == 0 || width == 0,
                height == self.spec_height(),
                width == rhs.spec_width(),
                row <= height,
                height * width <= usize::MAX,
                forall|a: T, b: T| #[trigger] times.requires((a, b)),
                forall|a: T, b: T| #[trigger] plus.requires((a, b)),
                values@.len() == row * width,
                forall|r: int, c: int|
                    0 <= r < row && 0 <= c < width ==> folds_to(
                        times,
                        plus,
                        self.row_seq(r),
                        rhs.col_seq(c),
                        #[trigger] values@[r * width + c],
                    ),
            decreases height - row,
        {
            let mut col: usize = 0;
            while col < width
                invariant
                    self.wf(),
                    rhs.wf(),
                    inner == self.spec_width(),
                    inner == rhs.spec_height(),
                    inner > 0 || height == 0 || width == 0,
                    height == self.spec_height(),
                    width == rhs.spec_width(),
                    row < height,
                    col <= width,
                    height * width <= usize::MAX,
                    forall|a: T, b: T| #[trigger] times.requires((a, b)),
                    forall|a: T, b: T| #[trigger] plus.requires((a, b)),
                    values@.len() == row * width + col,
                    forall|r: int, c: int|
                        0 <= r < row && 0 <= c < width ==> folds_to(
                            times,
                            plus,
                            self.row_seq(r),
                            rhs.col_seq(c),
                            #[trigger] values@[r * width + c],
                        ),
                    forall|c: int|
                        0 <= c < col ==> folds_to(
                            times,
                            plus,
                            self.row_seq(row as int),
                            rhs.col_seq(c),
                            #[trigger] values@[row * width + c],
                        ),
                decreases width - col,
            {
                let v = self.dot(rhs, row, col, &times, &plus);
                proof {
                    lemma_cell_index(height as int, width as int, row as int, col as int);
                }
                let ghost prev = values@;
                values.push(v);
                assert forall|r: int, c: int| 0 <= r < row && 0 <= c < width implies folds_to(
                    times,
                    plus,
                    self.row_seq(r),
                    rhs.col_seq(c),
                    #[trigger] values@[r * width + c],
                ) by {
                    lemma_cell_index(row as int, width as int, r, c);
                    assert(values@[r * width + c] == prev[r * width + c]);
                }
                col = col + 1;
            }
            proof {
                assert((row + 1) * width == row * width + width) by (nonlinear_arith);
                assert forall|r: int, c: int| 0 <= r < row + 1 && 0 <= c < width implies folds_to(
                    times,
                    plus,
                    self.row_seq(r),
                    rhs.col_seq(c),
                    #[trigger] values@[r * width + c],
                ) by {
                    if r == row {
                    }
                }
            }
            row = row + 1;
        }
        let m = Matrix { width, height, values };
        assert forall|r: int, c: int| 0 <= r < height && 0 <= c < width implies folds_to(
            times,
            plus,
            self.row_seq(r),
            rhs.col_seq(c),
            #[trigger] m.at(r, c),
        ) by {
            assert(m.at(r, c) == values@[r * width + c]);
        }
        m
    }

    /// Row `row` of `self` against column `col` of `rhs`.
    fn dot<M, A>(&self, rhs: &Matrix<T>, row: usize, col: usize, times: &M, plus: &A) -> (v: T) where
        M: Fn(T, T) -> T,
        A: Fn(T, T) -> T,

        requires
            self.wf(),
            rhs.wf(),
            self.spec_width() == rhs.spec_height(),
            self.spec_width() > 0,
            row < self.spec_height(),
            col < rhs.spec_width(),
            forall|a: T, b: T| #[trigger] times.requires((a, b)),
            forall|a: T, b: T| #[trigger] plus.requires((a, b)),
        ensures
            folds_to(*times, *plus, self.row_seq(row as int), rhs.col_seq(col as int), v),
    {
        let inner = self.width;
        let ghost a = self.row_seq(row as int);
        let ghost b = rhs.col_seq(col as int);
        let mut acc = times(self.get(row, 0), rhs.get(0, col));
        proof {
            assert(a.take(1).drop_last().len() == 0);
            assert(a.take(1)[0] == a[0]);
        }
        let mut k: usize = 1;
        while k < inner
            invariant
                self.wf(),
                rhs.wf(),
                inner == self.spec_width(),
                inner == rhs.spec_height(),
                row < self.spec_height(),
                col < rhs.spec_width(),
                1 <= k <= inner,
                a == self.row_seq(row as int),
                b == rhs.col_seq(col as int),
                forall|x: T, y: T| #[trigger] times.requires((x, y)),
                forall|x: T, y: T| #[trigger] plus.requires((x, y)),
                folds_to(*times, *plus, a.take(k as int), b.take(k as int), acc),
            decreases inner - k,
        {
            let p = times(self.get(row, k), rhs.get(k, col));
            let next = plus(acc, p);
            proof {
                let ta = a.take(k + 1);
                let tb = b.take(k + 1);
                assert(ta.drop_last() =~= a.take(k as int));
                assert(tb.drop_last() =~= b.take(k as int));
                assert(ta.last() == a[k as int]);
                assert(tb.last() == b[k as int]);
                assert(folds_to(*times, *plus, ta.drop_last(), tb.drop_last(), acc));
                assert(plus.ensures((acc, p), next));
                assert(folds_to(*times, *plus, ta, tb, next));
            }
            acc = next;
            k = k + 1;
        }
        proof {
            assert(a.take(inner as int) =~= a);
            assert(b.take(inner as int) =~= b);
        }
        acc
    }
}

impl<T: Default> Matrix<T> {
    /// A matrix with every cell set to `T::default()`.
    pub fn new(height: usize, width: usize) -> (m: Self)
        requires
            height * width <= usize::MAX,
        ensures
            m.wf(),
            m.spec_height() == height,
            m.spec_width() == width,
            forall|i: int| 0 <= i < m.cells().len() ==> call_ensures(T::default, (), #[trigger] m.cells()[i]),
    {
        let n = height * width;
        let mut values: Vec<T> = Vec::new();
        let mut i: usize = 0;
        while i < n
            invariant
                i <= n,
                values@.len() == i,
                forall|j: int| 0 <= j < i ==> call_ensures(T::default, (), #[trigger] values@[j]),
            decreases n - i,
        {
            values.push(T::default());
            i = i + 1;
        }
        Matrix { width, height, values }
    }
}

} // verus!
