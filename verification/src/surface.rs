use vstd::prelude::*;
use vstd::arithmetic::div_mod::lemma_fundamental_div_mod_converse;
use crate::colors::{argb8888, byte_of, lemma_argb8888_bytes, Color};
use crate::frame::{columns, has_shape, Frame};

verus! {

/// The packed word of an opaque colour: alpha 255 in the most significant
/// byte, then red, green and blue.
#[allow(non_snake_case)]
pub fn RGB(r: u8, g: u8, b: u8) -> (word: u32)
    ensures
        word == argb8888(255, r, g, b),
{
    (255u32 << 24) | ((r as u32) << 16) | ((g as u32) << 8) | (b as u32)
}

/// Byte `k` of a pixel on an ARGB8888 surface: blue, green, red, alpha.
pub open spec fn channel(color: Color, k: int) -> u8 {
    if k == 0 {
        color.b
    } else if k == 1 {
        color.g
    } else if k == 2 {
        color.r
    } else {
        color.a
    }
}

/// The bytes of a pixel on the surface are those of its packed word, least
/// significant first.
pub proof fn lemma_channel_is_packed_byte(color: Color, k: int)
    requires
        0 <= k < 4,
    ensures
        channel(color, k) == byte_of(color.packed(), k as u32),
{
    lemma_argb8888_bytes(color.a, color.r, color.g, color.b);
}

/// Byte `i` of a surface whose rows lie `pitch` bytes apart, once the image
/// `rows` has been written over the bytes `under`: pixel `x` of row `y`
/// takes the four bytes from `y * pitch + 4 * x` on, and the bytes between
/// the end of a row of the image and the next row stay as they were.
pub open spec fn surface_byte(rows: Seq<Seq<Color>>, pitch: int, under: Seq<u8>, i: int) -> u8 {
    let y = i / pitch;
    let along = i % pitch;
    if pitch > 0 && 0 <= y < rows.len() && along < 4 * rows[y].len() {
        channel(rows[y][along / 4], along % 4)
    } else {
        under[i]
    }
}

/// The first byte of the surface that the image does not reach.
pub open spec fn surface_extent(rows: Seq<Seq<Color>>, pitch: int) -> int {
    if rows.len() == 0 {
        0
    } else {
        (rows.len() - 1) * pitch + 4 * columns(rows)
    }
}

proof fn lemma_row_offset(y: int, along: int, pitch: int)
    requires
        0 <= y,
        0 <= along < pitch,
    ensures
        (y * pitch + along) / pitch == y,
        (y * pitch + along) % pitch == along,
        y * pitch >= 0,
{
    lemma_fundamental_div_mod_converse(y * pitch + along, pitch, y, along);
    assert(y * pitch >= 0) by (nonlinear_arith)
        requires
            y >= 0,
            pitch >= 0,
    ;
}

proof fn lemma_row_start(y: int, height: int, pitch: int)
    requires
        0 <= y < height,
        0 <= pitch,
    ensures
        0 <= y * pitch <= (height - 1) * pitch,
        (y + 1) * pitch == y * pitch + pitch,
{
    assert(0 <= y * pitch <= (height - 1) * pitch) by (nonlinear_arith)
        requires
            0 <= y <= height - 1,
            0 <= pitch,
    ;
    assert((y + 1) * pitch == y * pitch + pitch) by (nonlinear_arith);
}

/// Writes one pixel at `offset`.
fn write_pixel(buffer: &mut [u8], offset: usize, color: Color)
    requires
        offset + 4 <= old(buffer)@.len(),
    ensures
        final(buffer)@.len() == old(buffer)@.len(),
        forall|i: int|
            0 <= i < old(buffer)@.len() ==> #[trigger] final(buffer)@[i] == if offset <= i < offset
                + 4 {
                channel(color, i - offset)
            } else {
                old(buffer)@[i]
            },
{
    buffer[offset] = color.b;
    buffer[offset + 1] = color.g;
    buffer[offset + 2] = color.r;
    buffer[offset + 3] = color.a;
}

/// The state of the surface while the image is written: the bytes before
/// `done` are final, the others are as they were.
spec fn written(rows: Seq<Seq<Color>>, pitch: int, under: Seq<u8>, now: Seq<u8>, done: int, i: int) -> bool {
    now[i] == if i < done {
        surface_byte(rows, pitch, under, i)
    } else {
        under[i]
    }
}

/// Writes the image into the bytes of an ARGB8888 surface whose rows lie
/// `pitch` bytes apart.
pub fn write_pixels(buffer: &mut [u8], pitch: usize, frame: &Frame<Color>)
    requires
        4 * columns(frame@) <= pitch,
        surface_extent(frame@, pitch as int) <= old(buffer)@.len(),
    ensures
        final(buffer)@.len() == old(buffer)@.len(),
        forall|i: int|
            0 <= i < old(buffer)@.len() ==> #[trigger] final(buffer)@[i] == surface_byte(
                frame@,
                pitch as int,
                old(buffer)@,
                i,
            ),
{
    let width: usize = frame.width();
    let height: usize = frame.height();
    let total: usize = buffer.len();
    let ghost rows = frame@;
    let ghost under = buffer@;
    proof {
        frame.lemma_rectangular();
    }
    if width == 0 || height == 0 {
        assert forall|i: int| 0 <= i < under.len() implies under[i] == surface_byte(
            rows,
            pitch as int,
            under,
            i,
        ) by {}
        return ;
    }
    let mut y: usize = 0;
    while y < height
        invariant
            y <= height,
            0 < width,
            4 * width <= pitch,
            width == columns(rows),
            height == rows.len(),
            rows == frame@,
            has_shape(rows, width as nat, height as nat),
            surface_extent(rows, pitch as int) <= under.len(),
            buffer@.len() == under.len(),
            under.len() == total,
            forall|i: int|
                0 <= i < under.len() ==> #[trigger] written(
                    rows,
                    pitch as int,
                    under,
                    buffer@,
                    y * pitch,
                    i,
                ),
        decreases height - y,
    {
        proof {
            lemma_row_start(y as int, height as int, pitch as int);
        }
        let start: usize = y * pitch;
        let mut x: usize = 0;
        while x < width
            invariant
                x <= width,
                y < height,
                0 < width,
                4 * width <= pitch,
                width == columns(rows),
                height == rows.len(),
                rows == frame@,
                has_shape(rows, width as nat, height as nat),
                start == y * pitch,
                start + 4 * width <= under.len(),
                buffer@.len() == under.len(),
                under.len() == total,
                forall|i: int|
                    0 <= i < under.len() ==> #[trigger] written(
                        rows,
                        pitch as int,
                        under,
                        buffer@,
                        start + 4 * x,
                        i,
                    ),
            decreases width - x,
        {
            let color: Color = frame.at(x, y).unwrap();
            let ghost earlier = buffer@;
            let offset: usize = start + 4 * x;
            write_pixel(buffer, offset, color);
            proof {
                assert forall|i: int| 0 <= i < under.len() implies #[trigger] written(
                    rows,
                    pitch as int,
                    under,
                    buffer@,
                    start + 4 * (x + 1),
                    i,
                ) by {
                    assert(written(rows, pitch as int, under, earlier, start + 4 * x, i));
                    if offset <= i < offset + 4 {
                        lemma_row_offset(y as int, i - start, pitch as int);
                    }
                }
            }
            x = x + 1;
        }
        proof {
            assert forall|i: int| 0 <= i < under.len() implies #[trigger] written(
                rows,
                pitch as int,
                under,
                buffer@,
                (y + 1) * pitch,
                i,
            ) by {
                assert(written(rows, pitch as int, under, buffer@, start + 4 * width, i));
                if start + 4 * width <= i < start + pitch {
                    lemma_row_offset(y as int, i - start, pitch as int);
                }
            }
        }
        y = y + 1;
    }
    proof {
        assert forall|i: int| 0 <= i < under.len() implies #[trigger] buffer@[i] == surface_byte(
            rows,
            pitch as int,
            under,
            i,
        ) by {
            assert(written(rows, pitch as int, under, buffer@, height * pitch, i));
            if i >= height * pitch {
                let row = i / (pitch as int);
                if row < height {
                    vstd::arithmetic::div_mod::lemma_fundamental_div_mod(i, pitch as int);
                    assert(row * pitch <= (height - 1) * pitch) by (nonlinear_arith)
                        requires
                            row <= height - 1,
                            pitch >= 0,
                    ;
                    assert(pitch * row == row * pitch) by (nonlinear_arith);
                    assert(height * pitch == (height - 1) * pitch + pitch) by (nonlinear_arith);
                    vstd::arithmetic::div_mod::lemma_mod_bound(i, pitch as int);
                }
            }
        }
    }
}

} // verus!
