//! A fixed-size two-dimensional grid stored in row-major order.
use vstd::prelude::*;

use crate::Position;

verus! {

/// Errors of grid operations.
#[derive(Debug, Clone, Copy, PartialEq, Eq, Structural)]
pub enum GridError {
    OutOfBounds { x: usize, y: usize, width: usize, height: usize },
}

/// A generic 2D grid: `width * height` cells, row by row.
#[derive(Debug)]
pub struct Grid<T> {
    width: usize,
    height: usize,
    cells: Vec<T>,
}

impl<T> View for Grid<T> {
    type V = Seq<T>;

    closed spec fn view(&self) -> Seq<T> {
        self.cells@
    }
}

impl<T> Grid<T> {
    pub closed spec fn spec_width(&self) -> nat {
        self.width as nat
    }

    pub closed spec fn spec_height(&self) -> nat {
        self.height as nat
    }

    /// The cells are exactly `width * height`.
    pub open spec fn wf(&self) -> bool {
        &&& self@.len() == self.spec_width() * self.spec_height()
        &&& self@.len() <= usize::MAX
    }

    pub open spec fn in_bounds(&self, x: int, y: int) -> bool {
        0 <= x < self.spec_width() && 0 <= y < self.spec_height()
    }

    /// Row-major index of cell (x, y).
    pub open spec fn idx(&self, x: int, y: int) -> int {
        y * self.spec_width() + x
    }

    pub open spec fn spec_at(&self, x: int, y: int) -> T {
        self@[self.idx(x, y)]
    }

    pub open spec fn same_shape<U>(&self, other: &Grid<U>) -> bool {
        self.spec_width() == other.spec_width() && self.spec_height() == other.spec_height()
    }

    /// A cell inside the grid has an index inside the cell sequence.
    pub proof fn lemma_idx(&self, x: int, y: int)
        requires
            self.wf(),
            self.in_bounds(x, y),
        ensures
            0 <= self.idx(x, y) < self@.len(),
    {
        let w = self.spec_width() as int;
        let h = self.spec_height() as int;
        assert(0 <= y * w + x < w * h) by (nonlinear_arith)
            requires
                0 <= x < w,
                0 <= y < h,
        ;
    }

    /// Every index of a well-formed grid is the index of a cell inside it.
    pub proof fn lemma_coords(&self, i: int) -> (xy: (int, int))
        requires
            self.wf(),
            0 <= i < self@.len(),
        ensures
            self.in_bounds(xy.0, xy.1),
            self.idx(xy.0, xy.1) == i,
    {
        let w = self.spec_width() as int;
        let h = self.spec_height() as int;
        assert(w > 0) by (nonlinear_arith)
            requires
                0 <= i < w * h,
                h >= 0,
        ;
        let x = i % w;
        let y = i / w;
        assert(0 <= y < h && 0 <= x < w && y * w + x == i) by (nonlinear_arith)
            requires
                w > 0,
                0 <= i < w * h,
                y == i / w,
                x == i % w,
        ;
        (x, y)
    }

    /// Creates a grid of the given size filled with `T::default()`.
    pub fn new(width: usize, height: usize) -> (r: Self)
        where
            T: Default,
        requires
            width * height <= usize::MAX,
        ensures
            r.wf(),
            r.spec_width() == width,
            r.spec_height() == height,
            forall|i: int| 0 <= i < r@.len() ==> call_ensures(T::default, (), #[trigger] r@[i]),
    {
        let size = width * height;
        let mut cells: Vec<T> = Vec::with_capacity(size);
        let mut i: usize = 0;
        while i < size
            invariant
                i <= size,
                cells@.len() == i,
                forall|j: int| 0 <= j < i ==> call_ensures(T::default, (), #[trigger] cells@[j]),
            decreases size - i,
        {
            cells.push(T::default());
            i = i + 1;
        }
        Grid { width, height, cells }
    }

    /// Creates a grid of the given size with every cell equal to `value`.
    pub fn filled(width: usize, height: usize, value: T) -> (r: Self)
        where
            T: Copy,
        requires
            width * height <= usize::MAX,
        ensures
            r.wf(),
            r.spec_width() == width,
            r.spec_height() == height,
            forall|i: int| 0 <= i < r@.len() ==> r@[i] == value,
    {
        let size = width * height;
        let mut cells: Vec<T> = Vec::with_capacity(size);
        let mut i: usize = 0;
        while i < size
            invariant
                i <= size,
                cells@.len() == i,
                forall|j: int| 0 <= j < i ==> cells@[j] == value,
            decreases size - i,
        {
            cells.push(value);
            i = i + 1;
        }
        Grid { width, height, cells }
    }

    /// Creates a grid whose cell (x, y) is `f(x, y)`, filled in row-major order.
    pub fn from_generator<F>(width: usize, height: usize, f: F) -> (r: Self)
        where
            F: Fn(usize, usize) -> T,
        requires
            width * height <= usize::MAX,
            forall|x: usize, y: usize| x < width && y < height ==> f.requires((x, y)),
        ensures
            r.wf(),
            r.spec_width() == width,
            r.spec_height() == height,
            forall|x: usize, y: usize|
                x < width && y < height ==> f.ensures((x, y), #[trigger] r.spec_at(x as int, y as int)),
    {
        let size = width * height;
        let mut cells: Vec<T> = Vec::with_capacity(size);
        let mut y: usize = 0;
        while y < height
            invariant
                y <= height,
                width * height <= usize::MAX,
                cells@.len() == y * width,
                forall|x: usize, y: usize| x < width && y < height ==> f.requires((x, y)),
                forall|xx: usize, yy: usize|
                    xx < width && yy < y ==> f.ensures((xx, yy), #[trigger] cells@[yy * width + xx]),
            decreases height - y,
        {
            let mut x: usize = 0;
            while x < width
                invariant
                    x <= width,
                    y < height,
                    width * height <= usize::MAX,
                    cells@.len() == y * width + x,
                    forall|x: usize, y: usize| x < width && y < height ==> f.requires((x, y)),
                    forall|xx: usize, yy: usize|
                        xx < width && yy < y ==> f.ensures((xx, yy), #[trigger] cells@[yy * width + xx]),
                    forall|xx: usize| xx < x ==> f.ensures((xx, y), #[trigger] cells@[y * width + xx]),
                decreases width - x,
            {
                assert((y * width + x) + 1 <= width * height) by (nonlinear_arith)
                    requires
                        x < width,
                        y < height,
                ;
                let v = f(x, y);
                cells.push(v);
                assert forall|xx: usize, yy: usize| xx < width && yy < y implies f.ensures(
                    (xx, yy),
                    #[trigger] cells@[yy * width + xx],
                ) by {
                    assert(yy * width + xx < y * width) by (nonlinear_arith)
                        requires
                            xx < width,
                            yy < y,
                    ;
                }
                x = x + 1;
            }
            assert(cells@.len() == (y + 1) * width) by (nonlinear_arith)
                requires
                    cells@.len() == y * width + width,
            ;
            y = y + 1;
        }
        assert(cells@.len() == width * height) by (nonlinear_arith)
            requires
                cells@.len() == height * width,
        ;
        Grid { width, height, cells }
    }

    /// The width of the grid.
    pub fn width(&self) -> (r: usize)
        ensures
            r == self.spec_width(),
    {
        self.width
    }

    /// The height of the grid.
    pub fn height(&self) -> (r: usize)
        ensures
            r == self.spec_height(),
    {
        self.height
    }

    /// The row-major index of (x, y), or `None` outside the grid.
    pub fn coords_to_index(&self, x: usize, y: usize) -> (r: Option<usize>)
        requires
            self.wf(),
        ensures
            r == (if self.in_bounds(x as int, y as int) {
                Some(self.idx(x as int, y as int) as usize)
            } else {
                None
            }),
    {
        if x < self.width && y < self.height {
            proof {
                self.lemma_idx(x as int, y as int);
            }
            Some(y * self.width + x)
        } else {
            None
        }
    }

    /// The coordinates of a row-major index, or `None` past the last cell.
    pub fn index_to_coords(&self, index: usize) -> (r: Option<(usize, usize)>)
        requires
            self.wf(),
        ensures
            index < self@.len() ==> r == Some(((index as int % self.spec_width() as int) as usize,
                (index as int / self.spec_width() as int) as usize)),
            index < self@.len() ==> self.in_bounds(r.unwrap().0 as int, r.unwrap().1 as int)
                && self.idx(r.unwrap().0 as int, r.unwrap().1 as int) == index,
            index >= self@.len() ==> r.is_none(),
    {
        if index < self.cells.len() {
            let w = self.width;
            let h = self.height;
            assert(w > 0) by (nonlinear_arith)
                requires
                    index < w * h,
                    index >= 0,
                    h >= 0,
            ;
            let y = index / w;
            let x = index % w;
            assert(y < h && y * w + x == index) by (nonlinear_arith)
                requires
                    w > 0,
                    index < w * h,
                    y == index / w,
                    x == index % w,
            ;
            Some((x, y))
        } else {
            None
        }
    }

    /// Whether (x, y) lies inside the grid.
    pub fn is_valid(&self, x: usize, y: usize) -> (r: bool)
        ensures
            r == self.in_bounds(x as int, y as int),
    {
        x < self.width && y < self.height
    }

    /// The cell at (x, y), or `None` outside the grid.
    pub fn get(&self, x: usize, y: usize) -> (r: Option<&T>)
        requires
            self.wf(),
        ensures
            self.in_bounds(x as int, y as int) ==> r == Some(&self.spec_at(x as int, y as int)),
            !self.in_bounds(x as int, y as int) ==> r.is_none(),
    {
        if self.is_valid(x, y) {
            proof {
                self.lemma_idx(x as int, y as int);
            }
            Some(&self.cells[y * self.width + x])
        } else {
            None
        }
    }

    /// The cell at (x, y) for writing, or `None` outside the grid.
    pub fn get_mut(&mut self, x: usize, y: usize) -> (r: Option<&mut T>)
        requires
            old(self).wf(),
        ensures
            final(self).spec_width() == old(self).spec_width(),
            final(self).spec_height() == old(self).spec_height(),
            old(self).in_bounds(x as int, y as int) ==> r.is_some() && *r.unwrap() == old(self).spec_at(x as int, y as int)
                && final(self)@ == old(self)@.update(old(self).idx(x as int, y as int), *final(r.unwrap())),
            !old(self).in_bounds(x as int, y as int) ==> r.is_none() && final(self)@ == old(self)@,
    {
        if x < self.width && y < self.height {
            proof {
                self.lemma_idx(x as int, y as int);
            }
            let i = y * self.width + x;
            Some(&mut self.cells[i])
        } else {
            None
        }
    }

    /// Every cell with its coordinates, in row-major order.
    pub fn enumerate(&self) -> (r: Vec<((usize, usize), &T)>)
        requires
            self.wf(),
        ensures
            r@.len() == self@.len(),
            forall|i: int|
                0 <= i < r@.len() ==> {
                    &&& self.in_bounds((#[trigger] r@[i]).0.0 as int, r@[i].0.1 as int)
                    &&& self.idx(r@[i].0.0 as int, r@[i].0.1 as int) == i
                    &&& *r@[i].1 == self@[i]
                },
    {
        let mut out: Vec<((usize, usize), &T)> = Vec::new();
        let mut i: usize = 0;
        while i < self.cells.len()
            invariant
                self.wf(),
                i <= self@.len(),
                out@.len() == i,
                forall|j: int|
                    0 <= j < i ==> {
                        &&& self.in_bounds((#[trigger] out@[j]).0.0 as int, out@[j].0.1 as int)
                        &&& self.idx(out@[j].0.0 as int, out@[j].0.1 as int) == j
                        &&& *out@[j].1 == self@[j]
                    },
            decreases self@.len() - i,
        {
            let xy = self.index_to_coords(i).unwrap();
            out.push((xy, &self.cells[i]));
            i = i + 1;
        }
        out
    }

    /// The cells in row-major order.
    pub fn iter(&self) -> (r: Vec<&T>)
        ensures
            r@.len() == self@.len(),
            forall|i: int| 0 <= i < r@.len() ==> *(#[trigger] r@[i]) == self@[i],
    {
        let mut out: Vec<&T> = Vec::new();
        let mut i: usize = 0;
        while i < self.cells.len()
            invariant
                i <= self@.len(),
                out@.len() == i,
                forall|j: int| 0 <= j < i ==> *(#[trigger] out@[j]) == self@[j],
            decreases self@.len() - i,
        {
            out.push(&self.cells[i]);
            i = i + 1;
        }
        out
    }

    /// The cells in row-major order, for writing in place.
    pub fn iter_mut(&mut self) -> (r: &mut [T])
        ensures
            r@ == old(self)@,
            final(r)@ == final(self)@,
            final(self).spec_width() == old(self).spec_width(),
            final(self).spec_height() == old(self).spec_height(),
    {
        self.cells.as_mut_slice()
    }

    /// The coordinates of every cell in row-major order, beside the cells for
    /// writing in place: entry `i` of both belongs to the same cell.
    pub fn enumerate_mut(&mut self) -> (r: (Vec<(usize, usize)>, &mut [T]))
        requires
            old(self).wf(),
        ensures
            r.0@.len() == old(self)@.len(),
            forall|i: int|
                0 <= i < r.0@.len() ==> old(self).in_bounds((#[trigger] r.0@[i]).0 as int, r.0@[i].1 as int) && old(self).idx(
                    r.0@[i].0 as int,
                    r.0@[i].1 as int,
                ) == i,
            r.1@ == old(self)@,
            final(r.1)@ == final(self)@,
            final(self).spec_width() == old(self).spec_width(),
            final(self).spec_height() == old(self).spec_height(),
    {
        let mut coords: Vec<(usize, usize)> = Vec::new();
        let mut i: usize = 0;
        while i < self.cells.len()
            invariant
                self.wf(),
                i <= self@.len(),
                coords@.len() == i,
                forall|j: int|
                    0 <= j < i ==> self.in_bounds((#[trigger] coords@[j]).0 as int, coords@[j].1 as int) && self.idx(
                        coords@[j].0 as int,
                        coords@[j].1 as int,
                    ) == j,
            decreases self@.len() - i,
        {
            let xy = self.index_to_coords(i).unwrap();
            coords.push(xy);
            i = i + 1;
        }
        (coords, self.cells.as_mut_slice())
    }

    /// All cells in row-major order.
    pub fn as_slice(&self) -> (r: &[T])
        ensures
            r@ == self@,
    {
        self.cells.as_slice()
    }

    /// All cells in row-major order, for writing in place.
    pub fn as_mut_slice(&mut self) -> (r: &mut [T])
        ensures
            r@ == old(self)@,
            final(r)@ == final(self)@,
            final(self).spec_width() == old(self).spec_width(),
            final(self).spec_height() == old(self).spec_height(),
    {
        self.cells.as_mut_slice()
    }

    /// The cell at (x, y); the caller guarantees that it lies inside the grid.
    pub fn index(&self, x: usize, y: usize) -> (r: &T)
        requires
            self.wf(),
            self.in_bounds(x as int, y as int),
        ensures
            *r == self.spec_at(x as int, y as int),
    {
        proof {
            self.lemma_idx(x as int, y as int);
        }
        &self.cells[y * self.width + x]
    }

    /// The cell at `p`; the caller guarantees that it lies inside the grid.
    pub fn index_pos(&self, p: Position) -> (r: &T)
        requires
            self.wf(),
            self.in_bounds(p.x as int, p.y as int),
        ensures
            *r == self.spec_at(p.x as int, p.y as int),
    {
        self.index(p.x, p.y)
    }

    /// Writes `value` at (x, y); fails outside the grid.
    pub fn set(&mut self, x: usize, y: usize, value: T) -> (r: Result<(), GridError>)
        requires
            old(self).wf(),
        ensures
            final(self).spec_width() == old(self).spec_width(),
            final(self).spec_height() == old(self).spec_height(),
            final(self).wf(),
            old(self).in_bounds(x as int, y as int) ==> r.is_ok()
                && final(self)@ == old(self)@.update(old(self).idx(x as int, y as int), value),
            !old(self).in_bounds(x as int, y as int) ==> final(self)@ == old(self)@
                && r == Err::<(), GridError>(GridError::OutOfBounds { x, y, width: old(self).spec_width() as usize, height: old(self).spec_height() as usize }),
    {
        if x < self.width && y < self.height {
            proof {
                self.lemma_idx(x as int, y as int);
            }
            let i = y * self.width + x;
            self.cells.set(i, value);
            Ok(())
        } else {
            Err(GridError::OutOfBounds { x, y, width: self.width, height: self.height })
        }
    }
}

} // verus!
