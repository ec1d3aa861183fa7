use vstd::prelude::*;

verus! {

/// Access to a bitmap of edge flags, indexed as `cells()[x][y]`.
pub trait EdgePoints {
    /// The flags, column by column.
    spec fn cells(&self) -> Seq<Seq<bool>>;

    /// Number of columns.
    fn width(&self) -> (w: usize)
        ensures
            w == self.cells().len();

    /// Length of the first column, or 0 for a bitmap without columns.
    fn height(&self) -> (h: usize)
        ensures
            h == (if self.cells().len() > 0 { self.cells()[0].len() } else { 0 });

    /// Number of columns, keeping the low 16 bits.
    fn widthi(&self) -> (w: i16)
        ensures
            w == self.cells().len() as i16;

    /// Length of the first column keeping the low 16 bits, or 0 for a bitmap without columns.
    fn heighti(&self) -> (h: i16)
        ensures
            h == (if self.cells().len() > 0 { self.cells()[0].len() as i16 } else { 0 });

    /// The flag at `(x, y)`, to read or to write.
    fn at(&mut self, x: i16, y: i16) -> (cell: &mut bool)
        requires
            0 <= x < old(self).cells().len(),
            0 <= y < old(self).cells()[x as int].len(),
        ensures
            *cell == old(self).cells()[x as int][y as int],
            final(self).cells() == old(self).cells().update(
                x as int,
                old(self).cells()[x as int].update(y as int, *final(cell)),
            ),
    ;

    /// The flag at `(x, y)`, to read or to write.
    fn atu(&mut self, x: usize, y: usize) -> (cell: &mut bool)
        requires
            x < old(self).cells().len(),
            y < old(self).cells()[x as int].len(),
        ensures
            *cell == old(self).cells()[x as int][y as int],
            final(self).cells() == old(self).cells().update(
                x as int,
                old(self).cells()[x as int].update(y as int, *final(cell)),
            ),
    ;
}

impl EdgePoints for Vec<Vec<bool>> {
    open spec fn cells(&self) -> Seq<Seq<bool>> {
        self@.map_values(|column: Vec<bool>| column@)
    }

    fn width(&self) -> (w: usize) {
        self.len()
    }

    fn height(&self) -> (h: usize) {
        if self.len() > 0 {
            self[0].len()
        } else {
            0
        }
    }

    fn widthi(&self) -> (w: i16) {
        self.len() as i16
    }

    fn heighti(&self) -> (h: i16) {
        if self.len() > 0 {
            self[0].len() as i16
        } else {
            0
        }
    }

    fn at(&mut self, x: i16, y: i16) -> (cell: &mut bool) {
        &mut self[x as usize][y as usize]
    }

    fn atu(&mut self, x: usize, y: usize) -> (cell: &mut bool) {
        &mut self[x][y]
    }
}

} // verus!
