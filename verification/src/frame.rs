use vstd::prelude::*;

verus! {

/// A rectangular grid of cells, kept row by row in a single allocation.
///
/// The view of a frame is the sequence of its rows, top row first; every row
/// has as many cells as the frame is wide. A frame keeps the width it was
/// made with, also where it has no rows.
pub struct Frame<T> {
    cells: Vec<T>,
    width: usize,
    height: usize,
}

/// The rows of a grid of `height` rows and `width` columns whose cells all
/// hold `value`.
pub open spec fn filled<T>(width: nat, height: nat, value: T) -> Seq<Seq<T>> {
    Seq::new(height, |y: int| Seq::new(width, |x: int| value))
}

/// The grid has `height` rows of `width` cells each.
pub open spec fn has_shape<T>(rows: Seq<Seq<T>>, width: nat, height: nat) -> bool {
    &&& rows.len() == height
    &&& forall|y: int| 0 <= y < height ==> (#[trigger] rows[y]).len() == width
}

/// The number of columns of a grid given by its rows; 0 where it has none.
pub open spec fn columns<T>(rows: Seq<Seq<T>>) -> nat {
    if rows.len() == 0 {
        0
    } else {
        rows[0].len()
    }
}

/// Whether column `x`, row `y` is a cell of the grid.
pub open spec fn in_grid<T>(rows: Seq<Seq<T>>, x: int, y: int) -> bool {
    0 <= y < rows.len() && 0 <= x < rows[y].len()
}

/// The grid with the cell at column `x`, row `y` replaced; unchanged where
/// there is no such cell.
pub open spec fn with_cell<T>(rows: Seq<Seq<T>>, x: int, y: int, value: T) -> Seq<Seq<T>> {
    if in_grid(rows, x, y) {
        rows.update(y, rows[y].update(x, value))
    } else {
        rows
    }
}

/// Row-major offsets stay inside the allocation.
proof fn lemma_offset_in_range(x: int, y: int, width: int, height: int)
    requires
        0 <= x < width,
        0 <= y < height,
    ensures
        0 <= y * width + x < width * height,
{
    assert(y * width >= 0) by (nonlinear_arith)
        requires
            y >= 0,
            width >= 0,
    ;
    assert((y + 1) * width <= height * width) by (nonlinear_arith)
        requires
            y + 1 <= height,
            width >= 0,
    ;
    assert((y + 1) * width == y * width + width) by (nonlinear_arith);
    assert(height * width == width * height) by (nonlinear_arith);
}

impl<T> View for Frame<T> {
    type V = Seq<Seq<T>>;

    closed spec fn view(&self) -> Seq<Seq<T>> {
        Seq::new(
            self.height as nat,
            |y: int| Seq::new(self.width as nat, |x: int| self.cells@[y * self.width + x]),
        )
    }
}

impl<T> Frame<T> {
    #[verifier::type_invariant]
    spec fn well_formed(&self) -> bool {
        self.cells.len() == self.width * self.height
    }

    /// The number of columns.
    pub closed spec fn spec_width(&self) -> nat {
        self.width as nat
    }

    /// Every row of a frame has as many cells as the frame is wide.
    pub proof fn lemma_rectangular(&self)
        ensures
            has_shape(self@, self.spec_width(), self@.len()),
    {
    }
}

impl<T: Copy> Frame<T> {
    /// A frame of `height` rows and `width` columns with `value` in every cell.
    pub fn new(width: usize, height: usize, value: T) -> (frame: Frame<T>)
        requires
            width * height <= usize::MAX,
        ensures
            frame@ == filled(width as nat, height as nat, value),
            frame.spec_width() == width,
    {
        let count: usize = width * height;
        let mut cells: Vec<T> = Vec::new();
        let mut i: usize = 0;
        while i < count
            invariant
                i <= count,
                cells@.len() == i,
                forall|k: int| 0 <= k < i ==> cells@[k] == value,
            decreases count - i,
        {
            cells.push(value);
            i = i + 1;
        }
        let frame = Frame { cells, width, height };
        proof {
            let rows = filled(width as nat, height as nat, value);
            assert(frame@.len() == rows.len());
            assert forall|y: int| 0 <= y < rows.len() implies #[trigger] frame@[y] == rows[y] by {
                assert forall|x: int| 0 <= x < width implies frame@[y][x] == value by {
                    lemma_offset_in_range(x, y, width as int, height as int);
                }
                assert(frame@[y] =~= rows[y]);
            }
            assert(frame@ =~= rows);
        }
        frame
    }

    /// The number of columns.
    pub fn width(&self) -> (w: usize)
        ensures
            w == self.spec_width(),
    {
        self.width
    }

    /// The number of rows.
    pub fn height(&self) -> (h: usize)
        ensures
            h == self@.len(),
    {
        self.height
    }

    /// The cell at column `x`, row `y`, or `None` where the frame has no such
    /// cell.
    pub fn at(&self, x: usize, y: usize) -> (cell: Option<T>)
        ensures
            cell == (if in_grid(self@, x as int, y as int) {
                Some(self@[y as int][x as int])
            } else {
                None
            }),
    {
        proof {
            use_type_invariant(self);
        }
        if x < self.width && y < self.height {
            proof {
                lemma_offset_in_range(x as int, y as int, self.width as int, self.height as int);
            }
            Some(self.cells[y * self.width + x])
        } else {
            None
        }
    }

    /// Stores `value` at column `x`, row `y`; does nothing where the frame has
    /// no such cell.
    pub fn set(&mut self, x: usize, y: usize, value: T)
        ensures
            final(self)@ == with_cell(old(self)@, x as int, y as int, value),
            final(self).spec_width() == old(self).spec_width(),
        no_unwind
    {
        proof {
            use_type_invariant(&*self);
        }
        if x < self.width && y < self.height {
            let ghost width = self.width as int;
            let ghost height = self.height as int;
            proof {
                lemma_offset_in_range(x as int, y as int, width, height);
            }
            let offset: usize = y * self.width + x;
            self.cells[offset] = value;
            proof {
                let before = old(self)@;
                let after = self@;
                let expected = before.update(y as int, before[y as int].update(x as int, value));
                assert(after.len() == expected.len());
                assert forall|r: int| 0 <= r < after.len() implies #[trigger] after[r]
                    == expected[r] by {
                    assert forall|c: int| 0 <= c < width implies after[r][c] == expected[r][c] by {
                        lemma_offset_in_range(c, r, width, height);
                        if r != y as int {
                            lemma_offsets_differ(c, r, x as int, y as int, width);
                        }
                    }
                    assert(after[r] =~= expected[r]);
                }
                assert(after =~= expected);
            }
        }
    }

    /// Stores `value` in every cell.
    pub fn set_all(&mut self, value: T)
        ensures
            final(self)@ == filled(old(self).spec_width(), old(self)@.len(), value),
            final(self).spec_width() == old(self).spec_width(),
        no_unwind
    {
        proof {
            use_type_invariant(&*self);
        }
        let count: usize = self.cells.len();
        let mut i: usize = 0;
        while i < count
            invariant
                i <= count,
                self.cells.len() == count,
                self.width == old(self).width,
                self.height == old(self).height,
                count == self.width * self.height,
                forall|k: int| 0 <= k < i ==> self.cells@[k] == value,
            decreases count - i,
        {
            self.cells[i] = value;
            i = i + 1;
        }
        proof {
            let width = self.width as int;
            let height = self.height as int;
            let rows = filled(old(self).spec_width(), old(self)@.len(), value);
            assert(self@.len() == rows.len());
            assert forall|y: int| 0 <= y < rows.len() implies #[trigger] self@[y] == rows[y] by {
                assert forall|x: int| 0 <= x < width implies self@[y][x] == value by {
                    lemma_offset_in_range(x, y, width, height);
                }
                assert(self@[y] =~= rows[y]);
            }
            assert(self@ =~= rows);
        }
    }
}

/// Two cells in different rows lie at different row-major offsets.
proof fn lemma_offsets_differ(x1: int, y1: int, x2: int, y2: int, width: int)
    requires
        0 <= x1 < width,
        0 <= x2 < width,
        0 <= y1,
        0 <= y2,
        y1 != y2,
    ensures
        y1 * width + x1 != y2 * width + x2,
{
    if y1 < y2 {
        assert((y1 + 1) * width <= y2 * width) by (nonlinear_arith)
            requires
                y1 + 1 <= y2,
                width >= 0,
        ;
        assert((y1 + 1) * width == y1 * width + width) by (nonlinear_arith);
    } else {
        assert((y2 + 1) * width <= y1 * width) by (nonlinear_arith)
            requires
                y2 + 1 <= y1,
                width >= 0,
        ;
        assert((y2 + 1) * width == y2 * width + width) by (nonlinear_arith);
    }
}

} // verus!
