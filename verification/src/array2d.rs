//! A rectangular array stored row by row.

use vstd::prelude::*;

verus! {

/// `height` rows of `width` cells each, kept in one vector, row after row.
pub struct Array2d<T> {
    pub data: Vec<T>,
    pub height: usize,
    pub width: usize,
}

impl<T> Array2d<T> {
    /// The vector holds exactly `height * width` cells.
    pub open spec fn wf(&self) -> bool {
        self.data@.len() == self.height * self.width
    }

    /// The place of cell `(y, x)` in the vector.
    pub open spec fn flat(&self, y: int, x: int) -> int {
        self.width * y + x
    }

    /// The cell in row `idx.0` and column `idx.1`.
    pub fn index(&self, idx: (usize, usize)) -> (cell: &T)
        requires
            0 <= self.flat(idx.0 as int, idx.1 as int) < self.data@.len(),
        ensures
            *cell == self.data@[self.flat(idx.0 as int, idx.1 as int)],
    {
        let y: usize = idx.0;
        let x: usize = idx.1;
        let n: usize = self.data.len();
        assert(self.width * y + x < n);
        let flat_idx = self.width * y + x;
        &self.data[flat_idx]
    }

    /// Puts `value` into the cell in row `idx.0` and column `idx.1`.
    pub fn set(&mut self, idx: (usize, usize), value: T)
        requires
            0 <= old(self).flat(idx.0 as int, idx.1 as int) < old(self).data@.len(),
        ensures
            final(self).data@ == old(self).data@.update(
                old(self).flat(idx.0 as int, idx.1 as int),
                value,
            ),
            final(self).height == old(self).height,
            final(self).width == old(self).width,
    {
        let y: usize = idx.0;
        let x: usize = idx.1;
        let n: usize = self.data.len();
        assert(self.width * y + x < n);
        let flat_idx = self.width * y + x;
        self.data.set(flat_idx, value);
    }
}

impl<T: Default + Clone> Array2d<T> {
    /// An array of the given size in which every cell is a clone of the
    /// default value of `T`.
    pub fn new(height: usize, width: usize) -> (arr: Array2d<T>)
        requires
            height * width <= usize::MAX,
        ensures
            arr.wf(),
            arr.height == height,
            arr.width == width,
            exists|d: T|
                call_ensures(T::default, (), d) && forall|i: int|
                    0 <= i < arr.data@.len() ==> cloned(d, #[trigger] arr.data@[i]),
    {
        let d = T::default();
        let data = vec![d; height * width];
        Array2d { data, height, width }
    }

    /// The array of the same size whose cells are what `func` makes of the
    /// cells of this one.
    pub fn apply<U: Default + Clone, F: Fn(&T) -> U>(&self, func: F) -> (res: Array2d<U>)
        requires
            forall|i: int| 0 <= i < self.data@.len() ==> call_requires(func, (&self.data@[i],)),
        ensures
            res.data@.len() == self.data@.len(),
            self.wf() ==> res.wf(),
            res.height == self.height,
            res.width == self.width,
            forall|i: int|
                0 <= i < self.data@.len() ==> call_ensures(
                    func,
                    (&self.data@[i],),
                    #[trigger] res.data@[i],
                ),
    {
        let mut data: Vec<U> = Vec::new();
        let mut i: usize = 0;
        while i < self.data.len()
            invariant
                i <= self.data@.len(),
                data@.len() == i,
                forall|j: int| 0 <= j < self.data@.len() ==> call_requires(func, (&self.data@[j],)),
                forall|j: int|
                    0 <= j < i ==> call_ensures(func, (&self.data@[j],), #[trigger] data@[j]),
            decreases self.data@.len() - i,
        {
            let cell = func(&self.data[i]);
            data.push(cell);
            i += 1;
        }
        Array2d { data, height: self.height, width: self.width }
    }
}

/// The cells in order, with a line break in front of every row of `width`
/// cells.
pub open spec fn spec_text(cells: Seq<char>, width: int) -> Seq<char>
    decreases cells.len(),
{
    if cells.len() == 0 {
        Seq::empty()
    } else {
        let front = spec_text(cells.drop_last(), width);
        if (cells.len() - 1) % width == 0 {
            front.push('\n').push(cells.last())
        } else {
            front.push(cells.last())
        }
    }
}

impl Array2d<char> {
    /// The array as text: each row on a line of its own, every line led by
    /// its line break.
    pub fn text(&self) -> (out: Vec<char>)
        requires
            self.wf(),
        ensures
            out@ == spec_text(self.data@, self.width as int),
    {
        let mut out: Vec<char> = Vec::new();
        let mut idx: usize = 0;
        while idx < self.data.len()
            invariant
                self.wf(),
                idx <= self.data@.len(),
                out@ == spec_text(self.data@.take(idx as int), self.width as int),
            decreases self.data@.len() - idx,
        {
            assert(self.width != 0) by (nonlinear_arith)
                requires
                    self.data@.len() == self.height * self.width,
                    self.data@.len() > 0,
            ;
            if idx % self.width == 0 {
                out.push('\n');
            }
            out.push(self.data[idx]);
            proof {
                let next = self.data@.take(idx + 1);
                assert(next.drop_last() == self.data@.take(idx as int));
            }
            idx += 1;
        }
        proof {
            assert(self.data@.take(idx as int) == self.data@);
        }
        out
    }
}

} // verus!
