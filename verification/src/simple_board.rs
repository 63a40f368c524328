//! An 8x8 grid of values, one per square.
use vstd::prelude::*;
use crate::coord::{square, Coord};

verus! {

/// An 8x8 grid of values; row 0 is the eighth rank.
#[derive(Debug, Clone, Copy, PartialEq, Eq, Hash, Default)]
pub struct SimpleBoard<T>(pub [[T; 8]; 8]);

impl<T> SimpleBoard<T> {
    /// The value on the square at file `x`, row `y`.
    pub open spec fn at(self, x: int, y: int) -> T {
        self.0@[y]@[x]
    }

    /// A copy of row `y`.
    pub fn copy_row(self, y: u8) -> (r: [T; 8])
        where
            T: Copy,
        requires
            y < 8,
        ensures
            r == self.0@[y as int],
    {
        self.0[y as usize]
    }

    /// Row `y`.
    pub fn row(&self, y: u8) -> (r: &[T; 8])
        requires
            y < 8,
        ensures
            *r == self.0@[y as int],
    {
        &self.0[y as usize]
    }

    /// Row `y`, to change in place.
    pub fn row_mut(&mut self, y: u8) -> (r: &mut [T; 8])
        requires
            y < 8,
        ensures
            *r == old(self).0@[y as int],
            final(self).0@ == old(self).0@.update(y as int, *final(r)),
    {
        &mut self.0[y as usize]
    }

    /// The value on a square.
    pub fn index(&self, position: Coord) -> (r: &T)
        requires
            position.wf(),
        ensures
            *r == self.at(position.x as int, position.y as int),
    {
        &self.0[position.y as usize][position.x as usize]
    }

    /// Puts a value on a square.
    pub fn set(&mut self, position: Coord, value: T)
        requires
            position.wf(),
        ensures
            forall|x: int, y: int|
                0 <= x < 8 && 0 <= y < 8 ==> #[trigger] final(self).at(x, y) == if x == position.x && y
                    == position.y {
                    value
                } else {
                    old(self).at(x, y)
                },
    {
        let y = position.y as usize;
        let x = position.x as usize;
        self.0[y][x] = value;
    }

    /// The rows, from the eighth rank to the first.
    pub fn into_rows(self) -> (r: Vec<[T; 8]>)
        where
            T: Copy,
        ensures
            r@ == self.0@,
    {
        let mut r: Vec<[T; 8]> = Vec::new();
        let mut y: usize = 0;
        while y < 8
            invariant
                0 <= y <= 8,
                r@ == self.0@.subrange(0, y as int),
            decreases 8 - y,
        {
            r.push(self.0[y]);
            y = y + 1;
            proof {
                assert(r@ =~= self.0@.subrange(0, y as int));
            }
        }
        proof {
            assert(r@ =~= self.0@);
        }
        r
    }

    /// Every square with its value, row by row from the eighth rank, each
    /// row from the a-file.
    pub fn into_positioned_values(self) -> (r: Vec<(Coord, T)>)
        where
            T: Copy,
        ensures
            r@.len() == 64,
            forall|i: int| 0 <= i < 64 ==> #[trigger] r@[i] == (square(i % 8, i / 8), self.at(i % 8, i / 8)),
    {
        let mut r: Vec<(Coord, T)> = Vec::new();
        let mut y: u8 = 0;
        while y < 8
            invariant
                0 <= y <= 8,
                r@.len() == 8 * y,
                forall|i: int| 0 <= i < 8 * y ==> #[trigger] r@[i] == (square(i % 8, i / 8), self.at(i % 8, i / 8)),
            decreases 8 - y,
        {
            let mut x: u8 = 0;
            while x < 8
                invariant
                    0 <= y < 8,
                    0 <= x <= 8,
                    r@.len() == 8 * y + x,
                    forall|i: int|
                        0 <= i < 8 * y + x ==> #[trigger] r@[i] == (square(i % 8, i / 8), self.at(i % 8, i / 8)),
                decreases 8 - x,
            {
                let value = self.0[y as usize][x as usize];
                r.push((Coord { x, y }, value));
                proof {
                    let k = 8 * y + x;
                    assert(k % 8 == x && k / 8 == y);
                }
                x = x + 1;
            }
            y = y + 1;
        }
        r
    }
}

} // verus!
