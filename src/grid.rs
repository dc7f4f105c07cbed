use vstd::prelude::*;

verus! {

/// Rows of `height` vectors, each of `width` copies of `value`.
pub(crate) fn filled_rows<T: Copy>(width: usize, height: usize, value: T) -> (r: Vec<Vec<T>>)
    ensures
        r@.len() == height,
        forall|i: int| 0 <= i < height ==> (#[trigger] r@[i])@.len() == width,
        forall|i: int, j: int| 0 <= i < height && 0 <= j < width ==> #[trigger] r@[i]@[j] == value,
{
    let mut rows: Vec<Vec<T>> = Vec::new();
    let mut i: usize = 0;
    while i < height
        invariant
            i <= height,
            rows@.len() == i,
            forall|k: int| 0 <= k < i ==> (#[trigger] rows@[k])@.len() == width,
            forall|k: int, j: int| 0 <= k < i && 0 <= j < width ==> #[trigger] rows@[k]@[j] == value,
        decreases height - i,
    {
        let mut row: Vec<T> = Vec::new();
        let mut j: usize = 0;
        while j < width
            invariant
                j <= width,
                row@.len() == j,
                forall|k: int| 0 <= k < j ==> #[trigger] row@[k] == value,
            decreases width - j,
        {
            row.push(value);
            j = j + 1;
        }
        rows.push(row);
        i = i + 1;
    }
    rows
}


/// A rectangular grid of `height` rows of `width` cells each, stored row by row.
pub struct Grid<T> {
    pub width: usize,
    pub height: usize,
    pub cells: Vec<Vec<T>>,
}

impl<T> View for Grid<T> {
    type V = Seq<Seq<T>>;

    /// The rows of the grid, each as the sequence of its cells.
    open spec fn view(&self) -> Seq<Seq<T>> {
        Seq::new(self.cells@.len(), |i: int| self.cells@[i]@)
    }
}

impl<T: Copy + Default> Grid<T> {
    /// The grid holds `height` rows of `width` cells.
    pub open spec fn wf(&self) -> bool {
        &&& self.cells@.len() == self.height
        &&& forall|i: int| 0 <= i < self.height ==> (#[trigger] self.cells@[i])@.len() == self.width
    }

    /// A `width` by `height` grid whose cells all hold the type's default value.
    pub fn new(width: usize, height: usize) -> (r: Self)
        ensures
            r.wf(),
            r.width == width,
            r.height == height,
            r@.len() == height,
            forall|i: int| 0 <= i < height ==> (#[trigger] r@[i]).len() == width,
            exists|d: T|
                call_ensures(T::default, (), d) && forall|i: int, j: int|
                    0 <= i < height && 0 <= j < width ==> #[trigger] r@[i][j] == d,
    {
        let d = T::default();
        let cells = filled_rows(width, height, d);
        let r = Grid { width, height, cells };
        assert(forall|i: int, j: int| 0 <= i < height && 0 <= j < width ==> #[trigger] r@[i][j] == d);
        r
    }

    /// A grid made of the given rows; its width is the length of the first row. The rows
    /// must all have that length.
    pub fn from_vec(cells: Vec<Vec<T>>) -> (r: Self)
        requires
            cells@.len() > 0,
            forall|i: int| 0 <= i < cells@.len() ==> (#[trigger] cells@[i])@.len() == cells@[0]@.len(),
        ensures
            r.wf(),
            r.width == cells@[0]@.len(),
            r.height == cells@.len(),
            r@.len() == cells@.len(),
            forall|i: int| 0 <= i < cells@.len() ==> #[trigger] r@[i] == cells@[i]@,
    {
        let width = cells[0].len();
        let height = cells.len();
        Grid { width, height, cells }
    }

    /// The cell at (`row`, `col`), or `None` when it lies outside the grid.
    pub fn get(&self, row: usize, col: usize) -> (r: Option<&T>)
        requires
            self.wf(),
        ensures
            r is Some <==> row < self.height && col < self.width,
            r matches Some(v) ==> *v == self@[row as int][col as int],
    {
        if row < self.height && col < self.width {
            Some(&self.cells[row][col])
        } else {
            None
        }
    }

    /// A mutable reference to the cell at (`row`, `col`), or `None` when it lies outside the
    /// grid.
    pub fn get_mut(&mut self, row: usize, col: usize) -> (r: Option<&mut T>)
        requires
            old(self).wf(),
        ensures
            r is Some <==> row < old(self).height && col < old(self).width,
            r matches Some(v) ==> *v == old(self)@[row as int][col as int],
            r matches Some(v) ==> final(self)@ == old(self)@.update(
                row as int,
                old(self)@[row as int].update(col as int, *final(v)),
            ),
            r is None ==> final(self)@ == old(self)@,
            final(self).wf(),
            final(self).width == old(self).width,
            final(self).height == old(self).height,
    {
        if row < self.height && col < self.width {
            Some(&mut self.cells[row][col])
        } else {
            None
        }
    }

    /// Writes `value` into the cell at (`row`, `col`) and returns what it held; outside the
    /// grid nothing changes and `None` is returned.
    pub fn set(&mut self, row: usize, col: usize, value: T) -> (r: Option<T>)
        requires
            old(self).wf(),
        ensures
            final(self).wf(),
            final(self).width == old(self).width,
            final(self).height == old(self).height,
            r is Some <==> row < old(self).height && col < old(self).width,
            r matches Some(v) ==> v == old(self)@[row as int][col as int] && final(self)@ == old(
                self,
            )@.update(row as int, old(self)@[row as int].update(col as int, value)),
            r is None ==> final(self)@ == old(self)@,
    {
        if row < self.height && col < self.width {
            let old_value = self.cells[row][col];
            self.cells[row][col] = value;
            assert(self@ =~= old(self)@.update(row as int, old(self)@[row as int].update(col as int, value)));
            Some(old_value)
        } else {
            None
        }
    }

    /// Overwrites every cell with `value`.
    pub fn fill(&mut self, value: T)
        requires
            old(self).wf(),
        ensures
            final(self).wf(),
            final(self).width == old(self).width,
            final(self).height == old(self).height,
            final(self)@.len() == old(self)@.len(),
            forall|i: int| 0 <= i < old(self).height ==> (#[trigger] final(self)@[i]).len() == old(self).width,
            forall|i: int, j: int|
                0 <= i < old(self).height && 0 <= j < old(self).width ==> #[trigger] final(self)@[i][j] == value,
    {
        let mut row: usize = 0;
        while row < self.height
            invariant
                self.wf(),
                self.width == old(self).width,
                self.height == old(self).height,
                row <= self.height,
                forall|i: int, j: int|
                    0 <= i < row && 0 <= j < self.width ==> #[trigger] self.cells@[i]@[j] == value,
            decreases self.height - row,
        {
            let mut col: usize = 0;
            while col < self.width
                invariant
                    self.wf(),
                    self.width == old(self).width,
                    self.height == old(self).height,
                    row < self.height,
                    col <= self.width,
                    forall|i: int, j: int|
                        0 <= i < row && 0 <= j < self.width ==> #[trigger] self.cells@[i]@[j] == value,
                    forall|j: int| 0 <= j < col ==> #[trigger] self.cells@[row as int]@[j] == value,
                decreases self.width - col,
            {
                self.cells[row][col] = value;
                col = col + 1;
            }
            row = row + 1;
        }
    }

    /// The rows of the grid, as a new vector of vectors.
    pub fn to_vec(&self) -> (r: Vec<Vec<T>>)
        requires
            self.wf(),
        ensures
            r@.len() == self@.len(),
            forall|i: int| 0 <= i < self@.len() ==> #[trigger] r@[i]@ == self@[i],
    {
        let mut rows: Vec<Vec<T>> = Vec::new();
        let mut i: usize = 0;
        while i < self.cells.len()
            invariant
                self.wf(),
                i <= self.cells@.len(),
                rows@.len() == i,
                forall|k: int| 0 <= k < i ==> #[trigger] rows@[k]@ == self.cells@[k]@,
            decreases self.cells@.len() - i,
        {
            let src = &self.cells[i];
            let mut row: Vec<T> = Vec::new();
            let mut j: usize = 0;
            while j < src.len()
                invariant
                    j <= src@.len(),
                    row@.len() == j,
                    forall|k: int| 0 <= k < j ==> #[trigger] row@[k] == src@[k],
                decreases src@.len() - j,
            {
                row.push(src[j]);
                j = j + 1;
            }
            assert(row@ =~= src@);
            rows.push(row);
            i = i + 1;
        }
        rows
    }
}

} // verus!
