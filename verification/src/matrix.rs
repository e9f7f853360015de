//! A square matrix stored row-major in one flat vector, with in-place
//! transposition, row reversal, and quarter-turn rotations built from
//! the two.

use vstd::prelude::*;

verus! {

/// A `dimensions` x `dimensions` matrix; entry (r, c) lives at flat
/// index `r * dimensions + c`.
#[derive(Debug)]
pub struct Matrix<T> {
    pub dimensions: usize,
    pub m: Vec<T>,
}

/// Whether the pair (r, c) / (c, r) has already been swapped by a
/// transposition that has fully handled every row before `row` and, in
/// `row` itself, every column before `col`.
spec fn swap_done(r: int, c: int, row: int, col: int) -> bool {
    let p = if r <= c {
        r
    } else {
        c
    };
    let q = if r <= c {
        c
    } else {
        r
    };
    p < row || (p == row && q < col)
}

pub(crate) proof fn lemma_flat_bound(d: int, r: int, c: int)
    by (nonlinear_arith)
    requires
        0 <= r < d,
        0 <= c < d,
    ensures
        0 <= r * d + c < d * d,
        r * d + c + (d - c) <= d * d,
{
}

proof fn lemma_flat_inj(d: int, r1: int, c1: int, r2: int, c2: int)
    by (nonlinear_arith)
    requires
        0 <= r1 < d,
        0 <= c1 < d,
        0 <= r2 < d,
        0 <= c2 < d,
        r1 * d + c1 == r2 * d + c2,
    ensures
        r1 == r2 && c1 == c2,
{
}

impl<T> Matrix<T> {
    /// The flat row-major contents.
    pub open spec fn data(&self) -> Seq<T> {
        self.m@
    }

    /// Whether the storage has exactly one entry per cell.
    pub open spec fn wf(&self) -> bool {
        self.data().len() == self.dimensions * self.dimensions
    }

    /// The entry in row `r`, column `c`.
    pub open spec fn at(&self, r: int, c: int) -> T {
        self.data()[r * (self.dimensions as int) + c]
    }

    /// An empty store for a `dimensions` x `dimensions` matrix; cells
    /// are filled in afterwards, as `with_fn` does.
    pub fn new(dimensions: usize) -> (r: Matrix<T>)
        requires
            dimensions * dimensions <= usize::MAX,
        ensures
            r.dimensions == dimensions,
            r.data().len() == 0,
    {
        Matrix { dimensions, m: Vec::with_capacity(dimensions * dimensions) }
    }

    /// Wraps an existing row-major vector of exactly one entry per cell.
    pub fn with_data(dimensions: usize, data: Vec<T>) -> (r: Matrix<T>)
        requires
            data@.len() == dimensions * dimensions,
        ensures
            r.dimensions == dimensions,
            r.wf(),
            r.data() == data@,
    {
        Matrix { dimensions, m: data }
    }

    /// Builds the matrix whose entry (r, c) is `f(r, c)`.
    pub fn with_fn<F: Fn(usize, usize) -> T>(dimensions: usize, f: F) -> (r: Matrix<T>)
        requires
            dimensions * dimensions <= usize::MAX,
            forall|row: usize, col: usize|
                row < dimensions && col < dimensions ==> call_requires(f, (row, col)),
        ensures
            r.dimensions == dimensions,
            r.wf(),
            forall|row: int, col: int|
                0 <= row < dimensions && 0 <= col < dimensions ==> call_ensures(
                    f,
                    (row as usize, col as usize),
                    #[trigger] r.at(row, col),
                ),
    {
        let mut matrix = Self::new(dimensions);
        let ghost d = dimensions as int;
        for row in 0..dimensions
            invariant
                dimensions * dimensions <= usize::MAX,
                matrix.dimensions == dimensions,
                d == dimensions as int,
                matrix.data().len() == row * d,
                forall|row2: usize, col2: usize|
                    row2 < dimensions && col2 < dimensions ==> call_requires(f, (row2, col2)),
                forall|r2: int, c2: int|
                    0 <= r2 < row && 0 <= c2 < d ==> call_ensures(
                        f,
                        (r2 as usize, c2 as usize),
                        #[trigger] matrix.data()[r2 * d + c2],
                    ),
        {
            for col in 0..dimensions
                invariant
                    dimensions * dimensions <= usize::MAX,
                    matrix.dimensions == dimensions,
                    d == dimensions as int,
                    row < dimensions,
                    matrix.data().len() == row * d + col,
                    forall|row2: usize, col2: usize|
                        row2 < dimensions && col2 < dimensions ==> call_requires(f, (row2, col2)),
                    forall|r2: int, c2: int|
                        0 <= r2 < row && 0 <= c2 < d ==> call_ensures(
                            f,
                            (r2 as usize, c2 as usize),
                            #[trigger] matrix.data()[r2 * d + c2],
                        ),
                    forall|c2: int|
                        0 <= c2 < col ==> call_ensures(
                            f,
                            (row, c2 as usize),
                            #[trigger] matrix.data()[row * d + c2],
                        ),
            {
                proof {
                    lemma_flat_bound(d, row as int, col as int);
                }
                let val = f(row, col);
                matrix.m.push(val);
                proof {
                    assert forall|r2: int, c2: int|
                        0 <= r2 < row && 0 <= c2 < d implies call_ensures(
                        f,
                        (r2 as usize, c2 as usize),
                        #[trigger] matrix.data()[r2 * d + c2],
                    ) by {
                        lemma_flat_bound(d, r2, c2);
                        assert(r2 * d + c2 < row * d + col) by (nonlinear_arith)
                            requires
                                0 <= r2 < row,
                                0 <= c2 < d,
                        ;
                    }
                }
            }
            proof {
                assert(row * d + d == (row + 1) * d) by (nonlinear_arith);
            }
        }
        proof {
            assert forall|row: int, col: int|
                0 <= row < dimensions && 0 <= col < dimensions implies call_ensures(
                f,
                (row as usize, col as usize),
                #[trigger] matrix.at(row, col),
            ) by {
                lemma_flat_bound(d, row, col);
            }
        }
        matrix
    }

    /// Reads the entry in row `row`, column `col`.
    pub fn get(&self, row: usize, col: usize) -> (r: &T)
        requires
            self.wf(),
            row < self.dimensions,
            col < self.dimensions,
        ensures
            *r == self.at(row as int, col as int),
    {
        proof {
            assert(self.m.len() == self.data().len());
            lemma_flat_bound(self.dimensions as int, row as int, col as int);
        }
        &self.m[row * self.dimensions + col]
    }

    /// Replaces the entry in row `row`, column `col` with `val`.
    pub fn set(&mut self, row: usize, col: usize, val: T)
        requires
            old(self).wf(),
            row < old(self).dimensions,
            col < old(self).dimensions,
        ensures
            final(self).dimensions == old(self).dimensions,
            final(self).wf(),
            final(self).data() == old(self).data().update(
                row * (old(self).dimensions as int) + col,
                val,
            ),
    {
        proof {
            assert(self.m.len() == self.data().len());
            lemma_flat_bound(self.dimensions as int, row as int, col as int);
        }
        let ix = row * self.dimensions + col;
        self.m.set(ix, val);
    }

    /// Borrows row `row` as a slice of `dimensions` entries.
    pub fn get_row(&self, row: usize) -> (r: &[T])
        requires
            self.wf(),
            row < self.dimensions,
        ensures
            r@.len() == self.dimensions,
            forall|c: int| 0 <= c < self.dimensions ==> #[trigger] r@[c] == self.at(row as int, c),
    {
        proof {
            assert(self.m.len() == self.data().len());
            lemma_flat_bound(self.dimensions as int, row as int, 0);
        }
        let offset = row * self.dimensions;
        let r = &self.m[offset..offset + self.dimensions];
        proof {
            assert forall|c: int| 0 <= c < self.dimensions implies #[trigger] r@[c] == self.at(
                row as int,
                c,
            ) by {
                lemma_flat_bound(self.dimensions as int, row as int, c);
            }
        }
        r
    }
}

impl<T: Copy> Matrix<T> {
    /// Mirrors every entry across the main diagonal, in place.
    pub fn transpose(&mut self)
        requires
            old(self).wf(),
        ensures
            final(self).dimensions == old(self).dimensions,
            final(self).wf(),
            forall|r: int, c: int|
                0 <= r < old(self).dimensions && 0 <= c < old(self).dimensions ==> #[trigger] final(self).at(r, c) == old(self).at(c, r),
    {
        let d = self.dimensions;
        let ghost di = d as int;
        let ghost o = self.data();
        for row in 0..d
            invariant
                self.dimensions == d,
                di == d as int,
                self.wf(),
                o.len() == di * di,
                self.data().len() == o.len(),
                forall|r: int, c: int|
                    0 <= r < di && 0 <= c < di ==> #[trigger] self.data()[r * di + c] == (
                    if swap_done(r, c, row as int, row as int) {
                        o[c * di + r]
                    } else {
                        o[r * di + c]
                    }),
        {
            for col in row..d
                invariant
                    self.dimensions == d,
                    di == d as int,
                    self.wf(),
                    o.len() == di * di,
                    self.data().len() == o.len(),
                    row < d,
                    forall|r: int, c: int|
                        0 <= r < di && 0 <= c < di ==> #[trigger] self.data()[r * di + c] == (
                        if swap_done(r, c, row as int, col as int) {
                            o[c * di + r]
                        } else {
                            o[r * di + c]
                        }),
            {
                proof {
                    assert(self.m.len() == self.data().len());
                    lemma_flat_bound(di, row as int, col as int);
                    lemma_flat_bound(di, col as int, row as int);
                }
                let a = row * d + col;
                let b = col * d + row;
                let x = self.m[a];
                let y = self.m[b];
                self.m.set(a, y);
                self.m.set(b, x);
                proof {
                    assert forall|r: int, c: int|
                        0 <= r < di && 0 <= c < di implies #[trigger] self.data()[r * di + c] == (
                    if swap_done(r, c, row as int, col as int + 1) {
                        o[c * di + r]
                    } else {
                        o[r * di + c]
                    }) by {
                        lemma_flat_bound(di, r, c);
                        if r * di + c == a as int {
                            lemma_flat_inj(di, r, c, row as int, col as int);
                        } else if r * di + c == b as int {
                            lemma_flat_inj(di, r, c, col as int, row as int);
                        }
                    }
                }
            }
        }
        proof {
            assert forall|r: int, c: int|
                0 <= r < old(self).dimensions && 0 <= c < old(self).dimensions implies #[trigger] final(self).at(r, c) == old(self).at(c, r) by {
                lemma_flat_bound(di, r, c);
                lemma_flat_bound(di, c, r);
            }
        }
    }

    /// Reverses the order of the entries within every row, in place.
    pub fn reverse_rows(&mut self)
        requires
            old(self).wf(),
        ensures
            final(self).dimensions == old(self).dimensions,
            final(self).wf(),
            forall|r: int, c: int|
                0 <= r < old(self).dimensions && 0 <= c < old(self).dimensions ==> #[trigger] final(self).at(r, c) == old(self).at(r, old(self).dimensions - 1 - c),
    {
        let d = self.dimensions;
        let ghost di = d as int;
        let ghost o = self.data();
        for row in 0..d
            invariant
                self.dimensions == d,
                di == d as int,
                self.wf(),
                o.len() == di * di,
                self.data().len() == o.len(),
                forall|r: int, c: int|
                    0 <= r < di && 0 <= c < di ==> #[trigger] self.data()[r * di + c] == (
                    if r < row {
                        o[r * di + (di - 1 - c)]
                    } else {
                        o[r * di + c]
                    }),
        {
            for k in 0..d / 2
                invariant
                    self.dimensions == d,
                    di == d as int,
                    self.wf(),
                    o.len() == di * di,
                    self.data().len() == o.len(),
                    row < d,
                    k <= d / 2,
                    forall|r: int, c: int|
                        0 <= r < di && 0 <= c < di ==> #[trigger] self.data()[r * di + c] == (
                        if r < row as int || (r == row as int && (c < k as int || c > di - 1
                            - k as int)) {
                            o[r * di + (di - 1 - c)]
                        } else {
                            o[r * di + c]
                        }),
            {
                proof {
                    assert(self.m.len() == self.data().len());
                    lemma_flat_bound(di, row as int, k as int);
                    lemma_flat_bound(di, row as int, di - 1 - k as int);
                }
                let a = row * d + k;
                let b = row * d + (d - 1 - k);
                let x = self.m[a];
                let y = self.m[b];
                self.m.set(a, y);
                self.m.set(b, x);
                proof {
                    assert forall|r: int, c: int|
                        0 <= r < di && 0 <= c < di implies #[trigger] self.data()[r * di + c] == (
                    if r < row as int || (r == row as int && (c < k as int + 1 || c > di - 1 - (
                    k as int + 1))) {
                        o[r * di + (di - 1 - c)]
                    } else {
                        o[r * di + c]
                    }) by {
                        lemma_flat_bound(di, r, c);
                        if r * di + c == a as int {
                            lemma_flat_inj(di, r, c, row as int, k as int);
                        } else if r * di + c == b as int {
                            lemma_flat_inj(di, r, c, row as int, di - 1 - k as int);
                        }
                    }
                }
            }
        }
        proof {
            assert forall|r: int, c: int|
                0 <= r < old(self).dimensions && 0 <= c < old(self).dimensions implies #[trigger] final(self).at(r, c) == old(self).at(r, old(self).dimensions - 1 - c) by {
                lemma_flat_bound(di, r, c);
                lemma_flat_bound(di, r, di - 1 - c);
            }
        }
    }

    /// Rotates the matrix a quarter turn clockwise, in place: the entry
    /// that was at (d - 1 - c, r) arrives at (r, c).
    pub fn rotate_cw(&mut self)
        requires
            old(self).wf(),
        ensures
            final(self).dimensions == old(self).dimensions,
            final(self).wf(),
            forall|r: int, c: int|
                0 <= r < old(self).dimensions && 0 <= c < old(self).dimensions ==> #[trigger] final(self).at(r, c) == old(self).at(old(self).dimensions - 1 - c, r),
    {
        self.transpose();
        self.reverse_rows();
    }

    /// Rotates the matrix a quarter turn counter-clockwise, in place:
    /// the entry that was at (c, d - 1 - r) arrives at (r, c).
    pub fn rotate_ccw(&mut self)
        requires
            old(self).wf(),
        ensures
            final(self).dimensions == old(self).dimensions,
            final(self).wf(),
            forall|r: int, c: int|
                0 <= r < old(self).dimensions && 0 <= c < old(self).dimensions ==> #[trigger] final(self).at(r, c) == old(self).at(c, old(self).dimensions - 1 - r),
    {
        self.reverse_rows();
        self.transpose();
    }
}

/// A cursor that hands out the rows of a borrowed matrix in order.
pub struct IntoIter<'a, T> {
    pub matrix: &'a Matrix<T>,
    pub ix: usize,
}

impl<'a, T> IntoIter<'a, T> {
    /// Produces the next row, or `None` once every row has been seen.
    pub fn next(&mut self) -> (r: Option<&'a [T]>)
        requires
            old(self).matrix.wf(),
        ensures
            final(self).matrix == old(self).matrix,
            (match r {
                Option::None => old(self).ix >= old(self).matrix.dimensions && final(self).ix
                    == old(self).ix,
                Option::Some(row) => {
                    &&& old(self).ix < old(self).matrix.dimensions
                    &&& final(self).ix == old(self).ix + 1
                    &&& row@.len() == old(self).matrix.dimensions
                    &&& forall|c: int|
                        0 <= c < old(self).matrix.dimensions ==> #[trigger] row@[c]
                            == old(self).matrix.at(old(self).ix as int, c)
                },
            }),
    {
        let current_ix = self.ix;
        if current_ix >= self.matrix.dimensions {
            None
        } else {
            self.ix = current_ix + 1;
            Some(self.matrix.get_row(current_ix))
        }
    }
}

impl<T> Matrix<T> {
    /// Starts a row-by-row walk over the matrix. The matrix is only
    /// borrowed, so a fresh walk can be started over it again.
    pub fn into_iter(&self) -> (it: IntoIter<'_, T>)
        ensures
            it.matrix == self,
            it.ix == 0,
    {
        IntoIter { matrix: self, ix: 0 }
    }
}

} // verus!
