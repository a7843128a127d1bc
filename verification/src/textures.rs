use vstd::prelude::*;
use crate::colors::Color;
use crate::frame::{columns, has_shape, in_grid, Frame};

verus! {

/// How a texture is read between the centres of its pixels.
#[derive(Clone, Copy, Debug, PartialEq, Eq, Structural)]
pub enum TextureFilterMode {
    /// The pixel that holds the sample point.
    NearestNeighbor,
    /// A blend of the four pixels round the sample point.
    Bilinear,
}

/// An image that is read by pixel coordinates. It does not change once made.
pub struct Texture {
    buffer: Frame<Color>,
}

impl View for Texture {
    type V = Seq<Seq<Color>>;

    closed spec fn view(&self) -> Seq<Seq<Color>> {
        self.buffer@
    }
}

/// `x`, brought into `lower ..= upper`: `upper` where it is above, else
/// `lower` where it is below.
pub open spec fn constrained(x: int, lower: int, upper: int) -> int {
    if x > upper {
        upper
    } else if x < lower {
        lower
    } else {
        x
    }
}

/// The pixel of `rows` nearest to column `x`, row `y`: the coordinates are
/// brought onto the image first.
pub open spec fn texel(rows: Seq<Seq<Color>>, x: int, y: int) -> Color {
    rows[constrained(y, 0, rows.len() - 1)][constrained(x, 0, columns(rows) - 1)]
}

/// The four pixels round the corner that the pixels `(x - 1, y - 1)` and
/// `(x, y)` share, each brought onto the image: upper left, upper right,
/// lower left, lower right.
pub open spec fn texel_quad(rows: Seq<Seq<Color>>, x: int, y: int) -> Seq<Color> {
    seq![
        texel(rows, x - 1, y - 1),
        texel(rows, x, y - 1),
        texel(rows, x - 1, y),
        texel(rows, x, y),
    ]
}

/// The coordinate before `x`, or `x` itself where there is none.
fn step_back(x: i32) -> (before: i32)
    ensures
        before == if x == i32::MIN {
            x as int
        } else {
            x - 1
        },
{
    if x == i32::MIN {
        x
    } else {
        x - 1
    }
}

impl Texture {
    /// The number of columns.
    pub closed spec fn spec_width(&self) -> nat {
        self.buffer.spec_width()
    }

    /// Every row of a texture has as many pixels as the texture is wide.
    pub proof fn lemma_rectangular(&self)
        ensures
            has_shape(self@, self.spec_width(), self@.len()),
    {
        self.buffer.lemma_rectangular();
    }

    /// The texture that shows `buffer`.
    pub fn create(buffer: Frame<Color>) -> (texture: Texture)
        ensures
            texture@ == buffer@,
            texture.spec_width() == buffer.spec_width(),
    {
        Texture { buffer }
    }

    /// The number of columns.
    pub fn width(&self) -> (w: usize)
        ensures
            w == self.spec_width(),
            self@.len() > 0 ==> w == columns(self@),
    {
        proof {
            self.buffer.lemma_rectangular();
        }
        self.buffer.width()
    }

    /// Brings a coordinate onto `0 .. size`.
    fn onto(x: i32, size: usize) -> (index: usize)
        requires
            size > 0,
        ensures
            index == constrained(x as int, 0, size - 1),
            index < size,
    {
        let last: i32 = if size - 1 > 0x7fff_ffff {
            0x7fff_ffff
        } else {
            (size - 1) as i32
        };
        Self::constrain(x, 0, last) as usize
    }

    /// The number of rows.
    pub fn height(&self) -> (h: usize)
        ensures
            h == self@.len(),
    {
        self.buffer.height()
    }

    /// Brings `x` into `lower ..= upper`.
    pub fn constrain(x: i32, lower: i32, upper: i32) -> (c: i32)
        ensures
            c == constrained(x as int, lower as int, upper as int),
    {
        if x > upper {
            upper
        } else if x < lower {
            lower
        } else {
            x
        }
    }

    /// The pixel at column `x`, row `y`, with coordinates off the image
    /// brought onto it. A pixel of the image is returned exactly.
    pub fn sample_safely(&self, x: i32, y: i32) -> (color: Color)
        requires
            self@.len() > 0,
            columns(self@) > 0,
        ensures
            color == texel(self@, x as int, y as int),
            in_grid(self@, x as int, y as int) ==> color == self@[y as int][x as int],
    {
        proof {
            self.buffer.lemma_rectangular();
        }
        let sx: usize = Self::onto(x, self.buffer.width());
        let sy: usize = Self::onto(y, self.buffer.height());
        self.buffer.at(sx, sy).unwrap()
    }

    /// The four pixels that a bilinear sample blends, where `(x, y)` is the
    /// pixel whose upper left corner is nearest to the sample point: upper
    /// left, upper right, lower left, lower right.
    pub fn neighbors(&self, x: i32, y: i32) -> (quad: [Color; 4])
        requires
            self@.len() > 0,
            columns(self@) > 0,
        ensures
            quad@ == texel_quad(self@, x as int, y as int),
    {
        let left: i32 = step_back(x);
        let up: i32 = step_back(y);
        let quad: [Color; 4] = [
            self.sample_safely(left, up),
            self.sample_safely(x, up),
            self.sample_safely(left, y),
            self.sample_safely(x, y),
        ];
        assert(quad@ =~= texel_quad(self@, x as int, y as int));
        quad
    }
}

} // verus!
