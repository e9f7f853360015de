//! Mutable row access for the square matrix.

use crate::matrix::lemma_flat_bound;
use crate::matrix::Matrix;
use vstd::prelude::*;

verus! {

impl<T> Matrix<T> {
    /// Borrows row `row` mutably: writes through the returned slice land
    /// in that row of the matrix and nowhere else.
    pub fn get_row_mut(&mut self, row: usize) -> (r: &mut [T])
        requires
            old(self).wf(),
            row < old(self).dimensions,
        ensures
            r@.len() == old(self).dimensions,
            forall|c: int|
                0 <= c < old(self).dimensions ==> #[trigger] r@[c] == old(self).at(row as int, c),
            final(self).dimensions == old(self).dimensions,
            final(self).data() == old(self).data().take(row * (old(self).dimensions as int))
                + final(r)@ + old(self).data().skip(
                row * (old(self).dimensions as int) + old(self).dimensions,
            ),
    {
        proof {
            assert(self.m.len() == self.data().len());
            lemma_flat_bound(self.dimensions as int, row as int, 0);
        }
        let d = self.dimensions;
        let offset = row * d;
        let s = self.m.as_mut_slice();
        let (_, rest) = s.split_at_mut(offset);
        let (mid, _) = rest.split_at_mut(d);
        proof {
            assert forall|c: int| 0 <= c < d implies #[trigger] mid@[c] == old(self).at(
                row as int,
                c,
            ) by {
                lemma_flat_bound(d as int, row as int, c);
            }
        }
        mid
    }
}


} // verus!
