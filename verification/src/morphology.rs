//! Morphology: structuring elements (binary kernels).

use vstd::prelude::*;

verus! {

/// A structuring element (binary kernel), stored as rows of cells.
#[derive(Debug, Clone)]
pub struct StructuringElement {
    data: Vec<Vec<bool>>,
    width: usize,
    height: usize,
}

impl StructuringElement {
    /// The rows of the element.
    pub closed spec fn rows(&self) -> Seq<Seq<bool>> {
        self.data@.map_values(|r: Vec<bool>| r@)
    }

    /// The declared width.
    pub closed spec fn spec_width(&self) -> usize {
        self.width
    }

    /// The declared height.
    pub closed spec fn spec_height(&self) -> usize {
        self.height
    }

    /// The cell at (x, y); positions outside the stored rows read as `false`.
    pub open spec fn cell(&self, x: int, y: int) -> bool {
        if 0 <= y < self.rows().len() && 0 <= x < self.rows()[y].len() {
            self.rows()[y][x]
        } else {
            false
        }
    }

    /// Create a square structuring element: every cell of the `size` x `size` square is set.
    pub fn square(size: usize) -> (se: Self)
        ensures
            se.spec_width() == size,
            se.spec_height() == size,
            se.rows().len() == size,
            forall|y: int| 0 <= y < size ==> (#[trigger] se.rows()[y]).len() == size,
            forall|x: int, y: int|
                0 <= x && 0 <= y ==> #[trigger] se.cell(x, y) == (x < size && y < size),
    {
        let mut data: Vec<Vec<bool>> = Vec::new();
        let mut j: usize = 0;
        while j < size
            invariant
                0 <= j <= size,
                data@.len() == j,
                forall|k: int| 0 <= k < j ==> (#[trigger] data@[k])@.len() == size,
                forall|k: int, i: int| 0 <= k < j && 0 <= i < size ==> #[trigger] data@[k]@[i],
            decreases size - j,
        {
            let mut row: Vec<bool> = Vec::new();
            let mut i: usize = 0;
            while i < size
                invariant
                    0 <= i <= size,
                    row@.len() == i,
                    forall|k: int| 0 <= k < i ==> #[trigger] row@[k],
                decreases size - i,
            {
                row.push(true);
                i += 1;
            }
            data.push(row);
            j += 1;
        }
        StructuringElement { data, width: size, height: size }
    }

    /// Create a cross (plus-shaped) structuring element: the cells of the middle row
    /// and the middle column (index `size / 2`) are set.
    pub fn cross(size: usize) -> (se: Self)
        ensures
            se.spec_width() == size,
            se.spec_height() == size,
            se.rows().len() == size,
            forall|y: int| 0 <= y < size ==> (#[trigger] se.rows()[y]).len() == size,
            forall|x: int, y: int|
                0 <= x && 0 <= y ==> #[trigger] se.cell(x, y) == (x < size && y < size && (x
                    == size / 2 || y == size / 2)),
    {
        let center = size / 2;
        let mut data: Vec<Vec<bool>> = Vec::new();
        let mut j: usize = 0;
        while j < size
            invariant
                0 <= j <= size,
                center == size / 2,
                data@.len() == j,
                forall|k: int| 0 <= k < j ==> (#[trigger] data@[k])@.len() == size,
                forall|k: int, i: int|
                    0 <= k < j && 0 <= i < size ==> #[trigger] data@[k]@[i] == (i == center || k
                        == center),
            decreases size - j,
        {
            let mut row: Vec<bool> = Vec::new();
            let mut i: usize = 0;
            while i < size
                invariant
                    0 <= i <= size,
                    row@.len() == i,
                    forall|k: int| 0 <= k < i ==> #[trigger] row@[k] == (k == center || j == center),
                decreases size - i,
            {
                row.push(i == center || j == center);
                i += 1;
            }
            data.push(row);
            j += 1;
        }
        StructuringElement { data, width: size, height: size }
    }

    /// Create a custom structuring element from rows of cells. The width is the length
    /// of the first row (0 when there are no rows).
    pub fn from_vec(data: Vec<Vec<bool>>) -> (se: Self)
        ensures
            se.rows() == data@.map_values(|r: Vec<bool>| r@),
            se.spec_height() == data@.len(),
            se.spec_width() == (if data@.len() > 0 {
                data@[0]@.len()
            } else {
                0
            }),
    {
        let h = data.len();
        let w = if h > 0 {
            data[0].len()
        } else {
            0
        };
        StructuringElement { data, width: w, height: h }
    }

    pub fn width(&self) -> (w: usize)
        ensures
            w == self.spec_width(),
    {
        self.width
    }

    pub fn height(&self) -> (h: usize)
        ensures
            h == self.spec_height(),
    {
        self.height
    }

    /// The `width` x `height` grid of cells, row-major (`cells[y][x]` is the cell at (x, y)),
    /// as a kernel for window folds.
    pub fn cells(&self) -> (g: Vec<Vec<bool>>)
        ensures
            g@.len() == self.spec_height(),
            forall|y: int| 0 <= y < self.spec_height() ==> (#[trigger] g@[y])@.len() == self.spec_width(),
            forall|x: int, y: int| 0 <= x < self.spec_width() && 0 <= y < self.spec_height() ==> #[trigger] g@[y]@[x]
                == self.cell(x, y),
    {
        let mut g: Vec<Vec<bool>> = Vec::new();
        let mut y: usize = 0;
        while y < self.height
            invariant
                0 <= y <= self.spec_height(),
                g@.len() == y,
                forall|k: int| 0 <= k < y ==> (#[trigger] g@[k])@.len() == self.spec_width(),
                forall|a: int, b: int| 0 <= a < self.spec_width() && 0 <= b < y ==> #[trigger] g@[b]@[a] == self.cell(a, b),
            decreases self.spec_height() - y,
        {
            let mut row: Vec<bool> = Vec::new();
            let mut x: usize = 0;
            while x < self.width
                invariant
                    0 <= x <= self.spec_width(),
                    0 <= y < self.spec_height(),
                    row@.len() == x,
                    forall|a: int| 0 <= a < x ==> #[trigger] row@[a] == self.cell(a, y as int),
                decreases self.spec_width() - x,
            {
                row.push(self.get(x, y));
                x += 1;
            }
            g.push(row);
            y += 1;
        }
        g
    }

    /// Get value at kernel position (`false` outside the stored rows).
    pub fn get(&self, x: usize, y: usize) -> (v: bool)
        ensures
            v == self.cell(x as int, y as int),
    {
        if y < self.data.len() && x < self.data[y].len() {
            self.data[y][x]
        } else {
            false
        }
    }
}

} // verus!
