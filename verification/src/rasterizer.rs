use vstd::prelude::*;
use crate::colors::Color;
use crate::frame::{filled, has_shape, Frame};
use crate::math::{RectBounds, Triangle};

verus! {

/// The depth that an empty pixel holds: farther than every surface.
///
/// Depths are kept as ordered keys: a smaller key is nearer. The key of a
/// positive depth is its IEEE 754 single-precision bit pattern, and these are
/// ordered as the depths are. This one is the pattern of positive infinity.
pub const DEPTH_INFINITY: u32 = 0x7f80_0000;

/// The side of a triangle that faces the viewer, by the order of its corners
/// on the screen. Front faces are counter-clockwise.
#[derive(Clone, Copy, Debug, PartialEq, Eq, Structural)]
pub enum Winding {
    CounterClockwise,
    Clockwise,
}

/// A depth buffer and a colour buffer of the same size.
pub struct Rasterizer {
    z_buffer: Frame<u32>,
    color_buffer: Frame<Color>,
    screen_width: u32,
    screen_height: u32,
}

/// What a rasterizer holds: for each pixel its depth and its colour, as rows
/// from the top of the screen down.
pub struct RasterView {
    pub width: nat,
    pub height: nat,
    pub depth: Seq<Seq<u32>>,
    pub color: Seq<Seq<Color>>,
}

impl RasterView {
    /// Both buffers have `height` rows of `width` pixels.
    pub open spec fn shaped(self) -> bool {
        has_shape(self.depth, self.width, self.height) && has_shape(
            self.color,
            self.width,
            self.height,
        )
    }

    /// Whether `(x, y)` is a pixel of the screen.
    pub open spec fn on_screen(self, x: int, y: int) -> bool {
        0 <= x < self.width && 0 <= y < self.height
    }
}

/// The screen of the given size, every pixel black and opaque and infinitely
/// far away.
pub open spec fn blank(width: nat, height: nat) -> RasterView {
    RasterView {
        width,
        height,
        depth: filled(width, height, DEPTH_INFINITY),
        color: filled(width, height, Color { r: 0, g: 0, b: 0, a: 255 }),
    }
}

/// The pixels that coordinates of 32 bits can name on a screen of the given
/// size; `None` for a screen without pixels.
pub open spec fn screen_rect(width: nat, height: nat) -> Option<RectBounds<i32>> {
    if width == 0 || height == 0 {
        None
    } else {
        Some(
            RectBounds {
                top: vstd::math::min(height - 1, i32::MAX as int) as i32,
                bottom: 0,
                right: vstd::math::min(width - 1, i32::MAX as int) as i32,
                left: 0,
            },
        )
    }
}

/// The rows and columns of the screen that the bounding box of a triangle
/// reaches; `None` where it reaches none.
pub open spec fn pixel_window(corners: Triangle<i32>, width: nat, height: nat) -> Option<
    RectBounds<i32>,
> {
    match screen_rect(width, height) {
        Some(screen) => if corners.bounds().disjoint(screen) {
            None
        } else {
            Some(corners.bounds().intersection(screen))
        },
        None => None,
    }
}

/// Whether column `x` lies in the interval that a row of the triangle
/// covers.
pub open spec fn in_span(row: Option<(i32, i32)>, x: int) -> bool {
    match row {
        Some((left, right)) => left <= x <= right,
        None => false,
    }
}

/// The depth that a pixel holds after a fragment was offered to it: the
/// fragment's where that is strictly nearer than what the pixel held.
pub open spec fn resolved(held: u32, offered: Option<u32>) -> u32 {
    match offered {
        Some(z) => if z < held {
            z
        } else {
            held
        },
        None => held,
    }
}

/// The pixel `(x, y)` is the same in both.
pub open spec fn untouched(before: RasterView, after: RasterView, x: int, y: int) -> bool {
    after.depth[y][x] == before.depth[y][x] && after.color[y][x] == before.color[y][x]
}

/// The pixel `(x, y)` is no farther in `after` than in `before`.
pub open spec fn never_farther(before: RasterView, after: RasterView, x: int, y: int) -> bool {
    after.depth[y][x] <= before.depth[y][x]
}

/// The pixel `(x, y)` was offered one fragment: `depth` gave a depth for it
/// or none, the nearer of that and the depth it held is now its depth, and
/// where the fragment won, `shade` gave its colour.
pub open spec fn offered<D: Fn(i32, i32) -> Option<u32>, F: Fn(i32, i32) -> Color>(
    before: RasterView,
    after: RasterView,
    depth: D,
    shade: F,
    x: int,
    y: int,
) -> bool {
    exists|z: Option<u32>|
        {
            &&& #[trigger] depth.ensures((x as i32, y as i32), z)
            &&& after.depth[y][x] == resolved(before.depth[y][x], z)
            &&& if after.depth[y][x] < before.depth[y][x] {
                shade.ensures((x as i32, y as i32), after.color[y][x])
            } else {
                after.color[y][x] == before.color[y][x]
            }
        }
}

/// Row `y` lies in the window of the triangle, and `span` can give an
/// interval for it that holds column `x`.
pub open spec fn may_cover<S: Fn(i32) -> Option<(i32, i32)>>(
    window: Option<RectBounds<i32>>,
    span: S,
    x: int,
    y: int,
) -> bool {
    &&& window matches Some(w) && w.bottom <= y <= w.top
    &&& exists|row: Option<(i32, i32)>| #[trigger] span.ensures((y as i32,), row) && in_span(row, x)
}

/// Row `y` lies in the window of the triangle, and every interval that
/// `span` can give for it holds column `x`.
pub open spec fn must_cover<S: Fn(i32) -> Option<(i32, i32)>>(
    window: Option<RectBounds<i32>>,
    span: S,
    x: int,
    y: int,
) -> bool {
    &&& window matches Some(w) && w.bottom <= y <= w.top
    &&& forall|row: Option<(i32, i32)>| #[trigger] span.ensures((y as i32,), row) ==> in_span(row, x)
}

/// What drawing one triangle does to the pixel `(x, y)`.
///
/// A pixel changes only if the triangle faces the viewer and may cover it,
/// and then as a pixel that was offered one fragment. A pixel that the
/// triangle surely covers was offered one.
pub open spec fn pixel_outcome<
    S: Fn(i32) -> Option<(i32, i32)>,
    D: Fn(i32, i32) -> Option<u32>,
    F: Fn(i32, i32) -> Color,
>(
    before: RasterView,
    after: RasterView,
    winding: Winding,
    corners: Triangle<i32>,
    span: S,
    depth: D,
    shade: F,
    x: int,
    y: int,
) -> bool {
    let window = pixel_window(corners, before.width, before.height);
    let front = winding == Winding::CounterClockwise;
    &&& untouched(before, after, x, y) || (front && may_cover(window, span, x, y) && offered(
        before,
        after,
        depth,
        shade,
        x,
        y,
    ))
    &&& front && must_cover(window, span, x, y) ==> offered(before, after, depth, shade, x, y)
}

impl View for Rasterizer {
    type V = RasterView;

    closed spec fn view(&self) -> RasterView {
        RasterView {
            width: self.screen_width as nat,
            height: self.screen_height as nat,
            depth: self.z_buffer@,
            color: self.color_buffer@,
        }
    }
}

/// The state of row `row` while its pixels are offered fragments from left
/// to right: those in `first .. next` were offered one, the others are
/// untouched.
spec fn row_progress<D: Fn(i32, i32) -> Option<u32>, F: Fn(i32, i32) -> Color>(
    before: RasterView,
    after: RasterView,
    depth: D,
    shade: F,
    row: int,
    first: int,
    next: int,
    x: int,
    y: int,
) -> bool {
    if y == row && first <= x < next {
        offered(before, after, depth, shade, x, y)
    } else {
        untouched(before, after, x, y)
    }
}

/// The state of the screen after row `row` was scanned with the interval
/// `interval`: its pixels in the interval were offered a fragment, all others
/// are untouched.
spec fn row_outcome<D: Fn(i32, i32) -> Option<u32>, F: Fn(i32, i32) -> Color>(
    before: RasterView,
    after: RasterView,
    depth: D,
    shade: F,
    row: int,
    interval: Option<(i32, i32)>,
    x: int,
    y: int,
) -> bool {
    if y == row && in_span(interval, x) {
        offered(before, after, depth, shade, x, y)
    } else {
        untouched(before, after, x, y)
    }
}

/// The state of the screen while the rows of a window are scanned from
/// `bottom` on: in each row of `bottom .. next`, `span` gave an interval, the
/// pixels in it were offered a fragment and the others are untouched; the
/// rows not scanned yet are untouched.
spec fn scan_progress<
    S: Fn(i32) -> Option<(i32, i32)>,
    D: Fn(i32, i32) -> Option<u32>,
    F: Fn(i32, i32) -> Color,
>(
    before: RasterView,
    after: RasterView,
    span: S,
    depth: D,
    shade: F,
    bottom: int,
    next: int,
    x: int,
    y: int,
) -> bool {
    if bottom <= y < next {
        exists|row: Option<(i32, i32)>|
            #[trigger] span.ensures((y as i32,), row) && if in_span(row, x) {
                offered(before, after, depth, shade, x, y)
            } else {
                untouched(before, after, x, y)
            }
    } else {
        untouched(before, after, x, y)
    }
}

impl Rasterizer {
    #[verifier::type_invariant]
    spec fn well_formed(&self) -> bool {
        &&& self@.shaped()
        &&& self.z_buffer.spec_width() == self.screen_width
        &&& self.color_buffer.spec_width() == self.screen_width
    }

    /// A blank screen of the given size.
    pub fn create(screen_width: u32, screen_height: u32) -> (rasterizer: Rasterizer)
        requires
            screen_width * screen_height <= usize::MAX,
        ensures
            rasterizer@ == blank(screen_width as nat, screen_height as nat),
            rasterizer@.shaped(),
    {
        let z_buffer = Frame::new(screen_width as usize, screen_height as usize, DEPTH_INFINITY);
        let color_buffer = Frame::new(
            screen_width as usize,
            screen_height as usize,
            Color::RGB(0, 0, 0),
        );
        Rasterizer { z_buffer, color_buffer, screen_width, screen_height }
    }

    /// Makes the screen blank again.
    pub fn clear(&mut self)
        ensures
            final(self)@ == blank(old(self)@.width, old(self)@.height),
            final(self)@.shaped(),
    {
        proof {
            use_type_invariant(&*self);
        }
        let ghost width = self@.width;
        let ghost height = self@.height;
        self.color_buffer.set_all(Color::RGB(0, 0, 0));
        self.z_buffer.set_all(DEPTH_INFINITY);
        proof {
            assert(self@.color =~= blank(width, height).color);
            assert(self@.depth =~= blank(width, height).depth);
        }
    }

    /// The colours of the screen.
    pub fn get_color_buffer(&self) -> (buffer: &Frame<Color>)
        ensures
            buffer@ == self@.color,
            buffer.spec_width() == self@.width,
    {
        proof {
            use_type_invariant(self);
        }
        &self.color_buffer
    }

    /// The depths of the screen.
    pub fn get_depth_buffer(&self) -> (buffer: &Frame<u32>)
        ensures
            buffer@ == self@.depth,
            buffer.spec_width() == self@.width,
    {
        proof {
            use_type_invariant(self);
        }
        &self.z_buffer
    }

    /// Draws one triangle.
    ///
    /// `corners` are the corners of the triangle on the screen, in pixels, and
    /// `winding` the order in which they go round. For a row of the screen
    /// `span` gives the interval of columns that the triangle covers there.
    /// For a pixel `depth` gives the depth of the triangle there, or `None`
    /// where it has none in front of the viewer, and `shade` its colour.
    ///
    /// A clockwise triangle is not drawn. Otherwise the rows that the
    /// bounding box of the corners shares with the screen are scanned in
    /// the order of their numbers, each from left to right over the part of
    /// its interval that is on the screen, and every pixel met is offered one
    /// fragment: it takes the fragment's depth and colour where that depth
    /// is strictly nearer than its own. `shade` is asked only for fragments
    /// that win.
    pub fn triangle<
        S: Fn(i32) -> Option<(i32, i32)>,
        D: Fn(i32, i32) -> Option<u32>,
        F: Fn(i32, i32) -> Color,
    >(&mut self, winding: Winding, corners: Triangle<i32>, span: &S, depth: &D, shade: &F)
        requires
            forall|y: i32| 0 <= y < old(self)@.height ==> #[trigger] span.requires((y,)),
            forall|px: i32, py: i32|
                old(self)@.on_screen(px as int, py as int) ==> #[trigger] depth.requires((px, py)),
            forall|px: i32, py: i32|
                old(self)@.on_screen(px as int, py as int) ==> #[trigger] shade.requires((px, py)),
        ensures
            final(self)@.width == old(self)@.width,
            final(self)@.height == old(self)@.height,
            final(self)@.shaped(),
            winding == Winding::Clockwise ==> final(self)@ == old(self)@,
            forall|x: int, y: int|
                old(self)@.on_screen(x, y) ==> #[trigger] pixel_outcome(
                    old(self)@,
                    final(self)@,
                    winding,
                    corners,
                    *span,
                    *depth,
                    *shade,
                    x,
                    y,
                ),
            forall|x: int, y: int|
                old(self)@.on_screen(x, y) ==> #[trigger] never_farther(
                    old(self)@,
                    final(self)@,
                    x,
                    y,
                ),
    {
        proof {
            use_type_invariant(&*self);
        }
        match winding {
            Winding::Clockwise => { return ; },
            Winding::CounterClockwise => {},
        }
        if self.screen_width == 0 || self.screen_height == 0 {
            return ;
        }
        let right: i32 = if self.screen_width - 1 > 0x7fff_ffff {
            0x7fff_ffff
        } else {
            (self.screen_width - 1) as i32
        };
        let top: i32 = if self.screen_height - 1 > 0x7fff_ffff {
            0x7fff_ffff
        } else {
            (self.screen_height - 1) as i32
        };
        let screen = RectBounds { top, bottom: 0, right, left: 0 };
        assert(screen_rect(self@.width, self@.height) == Some(screen));
        let window: RectBounds<i32> = match RectBounds::bounds_of_triangle(corners).overlap(screen) {
            Some(window) => window,
            None => { return ; },
        };
        assert(pixel_window(corners, self@.width, self@.height) == Some(window));
        let bottom: i64 = window.bottom as i64;
        let last: i64 = window.top as i64;
        let mut y: i64 = bottom;
        while y <= last
            invariant
                0 <= bottom <= y,
                last < self@.height,
                last <= i32::MAX,
                y <= last + 1 || y == bottom,
                self@.width == old(self)@.width,
                self@.height == old(self)@.height,
                self@.shaped(),
                forall|py: i32| 0 <= py < old(self)@.height ==> #[trigger] span.requires((py,)),
                forall|px: i32, py: i32|
                    old(self)@.on_screen(px as int, py as int) ==> #[trigger] depth.requires(
                        (px, py),
                    ),
                forall|px: i32, py: i32|
                    old(self)@.on_screen(px as int, py as int) ==> #[trigger] shade.requires(
                        (px, py),
                    ),
                forall|px: int, py: int|
                    old(self)@.on_screen(px, py) ==> #[trigger] scan_progress(
                        old(self)@,
                        self@,
                        *span,
                        *depth,
                        *shade,
                        bottom as int,
                        y as int,
                        px,
                        py,
                    ),
            decreases last + 1 - y,
        {
            let ghost earlier = self@;
            let row: Option<(i32, i32)> = span(y as i32);
            self.scan_row(y as i32, row, depth, shade);
            proof {
                let now = self@;
                assert forall|px: int, py: int| old(self)@.on_screen(px, py) implies #[trigger] scan_progress(
                    old(self)@,
                    now,
                    *span,
                    *depth,
                    *shade,
                    bottom as int,
                    y + 1,
                    px,
                    py,
                ) by {
                    assert(scan_progress(
                        old(self)@,
                        earlier,
                        *span,
                        *depth,
                        *shade,
                        bottom as int,
                        y as int,
                        px,
                        py,
                    ));
                    assert(row_outcome(earlier, now, *depth, *shade, y as int, row, px, py));
                    if py == y {
                        assert(span.ensures((py as i32,), row));
                        if in_span(row, px) {
                            lemma_offered_after_untouched(
                                old(self)@,
                                earlier,
                                now,
                                *depth,
                                *shade,
                                px,
                                py,
                            );
                        }
                    } else if bottom <= py < y {
                        let before_row = choose|r: Option<(i32, i32)>|
                            #[trigger] span.ensures((py as i32,), r) && if in_span(r, px) {
                                offered(old(self)@, earlier, *depth, *shade, px, py)
                            } else {
                                untouched(old(self)@, earlier, px, py)
                            };
                        if in_span(before_row, px) {
                            lemma_offered_then_untouched(
                                old(self)@,
                                earlier,
                                now,
                                *depth,
                                *shade,
                                px,
                                py,
                            );
                        }
                        assert(span.ensures((py as i32,), before_row));
                    }
                }
            }
            y = y + 1;
        }
        proof {
            let now = self@;
            assert forall|px: int, py: int| old(self)@.on_screen(px, py) implies #[trigger] pixel_outcome(
                old(self)@,
                now,
                winding,
                corners,
                *span,
                *depth,
                *shade,
                px,
                py,
            ) by {
                assert(scan_progress(
                    old(self)@,
                    now,
                    *span,
                    *depth,
                    *shade,
                    bottom as int,
                    y as int,
                    px,
                    py,
                ));
                if bottom <= py < y {
                    let r = choose|r: Option<(i32, i32)>|
                        #[trigger] span.ensures((py as i32,), r) && if in_span(r, px) {
                            offered(old(self)@, now, *depth, *shade, px, py)
                        } else {
                            untouched(old(self)@, now, px, py)
                        };
                    assert(span.ensures((py as i32,), r));
                }
            }
            assert forall|px: int, py: int| old(self)@.on_screen(px, py) implies #[trigger] never_farther(
                old(self)@,
                now,
                px,
                py,
            ) by {
                assert(pixel_outcome(
                    old(self)@,
                    now,
                    winding,
                    corners,
                    *span,
                    *depth,
                    *shade,
                    px,
                    py,
                ));
            }
        }
    }

    /// Offers the pixel `(x, y)` one fragment: asks `depth` for its depth,
    /// and where that is strictly nearer than what the pixel holds, asks
    /// `shade` for its colour and stores both.
    fn fragment<D: Fn(i32, i32) -> Option<u32>, F: Fn(i32, i32) -> Color>(
        &mut self,
        x: i32,
        y: i32,
        depth: &D,
        shade: &F,
    )
        requires
            old(self)@.on_screen(x as int, y as int),
            depth.requires((x, y)),
            shade.requires((x, y)),
        ensures
            final(self)@.width == old(self)@.width,
            final(self)@.height == old(self)@.height,
            final(self)@.shaped(),
            offered(old(self)@, final(self)@, *depth, *shade, x as int, y as int),
            forall|px: int, py: int|
                old(self)@.on_screen(px, py) && (px != x || py != y) ==> #[trigger] untouched(
                    old(self)@,
                    final(self)@,
                    px,
                    py,
                ),
    {
        proof {
            use_type_invariant(&*self);
        }
        let offer: Option<u32> = depth(x, y);
        let column: usize = x as usize;
        let row: usize = y as usize;
        let held: u32 = self.z_buffer.at(column, row).unwrap();
        match offer {
            Some(z) => {
                if z < held {
                    let color: Color = shade(x, y);
                    self.color_buffer.set(column, row, color);
                    self.z_buffer.set(column, row, z);
                }
            },
            None => {},
        }
        proof {
            assert(depth.ensures((x as int as i32, y as int as i32), offer));
        }
    }

    /// Offers a fragment to each pixel of row `y` that lies in `row` and on
    /// the screen, from left to right.
    fn scan_row<D: Fn(i32, i32) -> Option<u32>, F: Fn(i32, i32) -> Color>(
        &mut self,
        y: i32,
        row: Option<(i32, i32)>,
        depth: &D,
        shade: &F,
    )
        requires
            0 <= y < old(self)@.height,
            forall|px: i32, py: i32|
                old(self)@.on_screen(px as int, py as int) ==> #[trigger] depth.requires((px, py)),
            forall|px: i32, py: i32|
                old(self)@.on_screen(px as int, py as int) ==> #[trigger] shade.requires((px, py)),
        ensures
            final(self)@.width == old(self)@.width,
            final(self)@.height == old(self)@.height,
            final(self)@.shaped(),
            forall|px: int, py: int|
                old(self)@.on_screen(px, py) ==> #[trigger] row_outcome(
                    old(self)@,
                    final(self)@,
                    *depth,
                    *shade,
                    y as int,
                    row,
                    px,
                    py,
                ),
    {
        proof {
            use_type_invariant(&*self);
        }
        let (left, right) = match row {
            Some(interval) => interval,
            None => { return ; },
        };
        if self.screen_width == 0 {
            return ;
        }
        let last: i64 = self.screen_width as i64 - 1;
        let first: i64 = if left > 0 {
            left as i64
        } else {
            0
        };
        let end: i64 = if (right as i64) < last {
            right as i64
        } else {
            last
        };
        let mut x: i64 = first;
        while x <= end
            invariant
                first <= x,
                0 <= first,
                end <= last,
                last == self@.width - 1,
                end <= i32::MAX,
                x <= end + 1 || x == first,
                0 <= y < self@.height,
                self@.width == old(self)@.width,
                self@.height == old(self)@.height,
                self@.shaped(),
                forall|px: i32, py: i32|
                old(self)@.on_screen(px as int, py as int) ==> #[trigger] depth.requires((px, py)),
                forall|px: i32, py: i32|
                old(self)@.on_screen(px as int, py as int) ==> #[trigger] shade.requires((px, py)),
                forall|px: int, py: int|
                    old(self)@.on_screen(px, py) ==> #[trigger] row_progress(
                        old(self)@,
                        self@,
                        *depth,
                        *shade,
                        y as int,
                        first as int,
                        x as int,
                        px,
                        py,
                    ),
            decreases end + 1 - x,
        {
            let ghost earlier = self@;
            self.fragment(x as i32, y, depth, shade);
            proof {
                let now = self@;
                assert forall|px: int, py: int| old(self)@.on_screen(px, py) implies #[trigger] row_progress(
                    old(self)@,
                    now,
                    *depth,
                    *shade,
                    y as int,
                    first as int,
                    x + 1,
                    px,
                    py,
                ) by {
                    assert(row_progress(
                        old(self)@,
                        earlier,
                        *depth,
                        *shade,
                        y as int,
                        first as int,
                        x as int,
                        px,
                        py,
                    ));
                    if px == x && py == y {
                        assert(untouched(old(self)@, earlier, px, py));
                        lemma_offered_after_untouched(old(self)@, earlier, now, *depth, *shade, px, py);
                    } else {
                        assert(untouched(earlier, now, px, py));
                        if py == y && first <= px < x {
                            lemma_offered_then_untouched(
                                old(self)@,
                                earlier,
                                now,
                                *depth,
                                *shade,
                                px,
                                py,
                            );
                        }
                    }
                }
            }
            x = x + 1;
        }
        proof {
            assert forall|px: int, py: int| old(self)@.on_screen(px, py) implies #[trigger] row_outcome(
                old(self)@,
                self@,
                *depth,
                *shade,
                y as int,
                row,
                px,
                py,
            ) by {
                assert(row_progress(
                    old(self)@,
                    self@,
                    *depth,
                    *shade,
                    y as int,
                    first as int,
                    x as int,
                    px,
                    py,
                ));
            }
        }
    }
}

/// A pixel that was left alone and then offered a fragment was offered one.
proof fn lemma_offered_after_untouched<D: Fn(i32, i32) -> Option<u32>, F: Fn(i32, i32) -> Color>(
    start: RasterView,
    middle: RasterView,
    end: RasterView,
    depth: D,
    shade: F,
    x: int,
    y: int,
)
    requires
        untouched(start, middle, x, y),
        offered(middle, end, depth, shade, x, y),
    ensures
        offered(start, end, depth, shade, x, y),
{
    let z = choose|z: Option<u32>|
        {
            &&& #[trigger] depth.ensures((x as i32, y as i32), z)
            &&& end.depth[y][x] == resolved(middle.depth[y][x], z)
            &&& if end.depth[y][x] < middle.depth[y][x] {
                shade.ensures((x as i32, y as i32), end.color[y][x])
            } else {
                end.color[y][x] == middle.color[y][x]
            }
        };
    assert(depth.ensures((x as i32, y as i32), z));
}

/// A pixel that was offered a fragment and then left alone was offered one.
proof fn lemma_offered_then_untouched<D: Fn(i32, i32) -> Option<u32>, F: Fn(i32, i32) -> Color>(
    start: RasterView,
    middle: RasterView,
    end: RasterView,
    depth: D,
    shade: F,
    x: int,
    y: int,
)
    requires
        offered(start, middle, depth, shade, x, y),
        untouched(middle, end, x, y),
    ensures
        offered(start, end, depth, shade, x, y),
{
    let z = choose|z: Option<u32>|
        {
            &&& #[trigger] depth.ensures((x as i32, y as i32), z)
            &&& middle.depth[y][x] == resolved(start.depth[y][x], z)
            &&& if middle.depth[y][x] < start.depth[y][x] {
                shade.ensures((x as i32, y as i32), middle.color[y][x])
            } else {
                middle.color[y][x] == start.color[y][x]
            }
        };
    assert(depth.ensures((x as i32, y as i32), z));
}

/// Along a run of states, each no farther at a pixel than the one before,
/// the last is no farther there than the first.
pub proof fn lemma_depth_never_grows(states: Seq<RasterView>, from: int, to: int, x: int, y: int)
    requires
        0 <= from <= to < states.len(),
        forall|k: int| from <= k < to ==> #[trigger] never_farther(states[k], states[k + 1], x, y),
    ensures
        never_farther(states[from], states[to], x, y),
    decreases to - from,
{
    if from < to {
        lemma_depth_never_grows(states, from, to - 1, x, y);
        assert(never_farther(states[to - 1], states[to - 1 + 1], x, y));
    }
}

/// Once a pixel has been offered a fragment, it is never farther than that
/// fragment, whatever is drawn afterwards: of `states`, the one after
/// `drawn` comes from offering the pixel a fragment, and each later one is
/// no farther there than the one before.
pub proof fn lemma_depth_monotonicity<D: Fn(i32, i32) -> Option<u32>, F: Fn(i32, i32) -> Color>(
    states: Seq<RasterView>,
    drawn: int,
    depth: D,
    shade: F,
    x: int,
    y: int,
)
    requires
        0 <= drawn,
        drawn + 1 < states.len(),
        offered(states[drawn], states[drawn + 1], depth, shade, x, y),
        forall|k: int|
            drawn < k < states.len() - 1 ==> #[trigger] never_farther(
                states[k],
                states[k + 1],
                x,
                y,
            ),
    ensures
        exists|z: Option<u32>|
            #[trigger] depth.ensures((x as i32, y as i32), z) && match z {
                Some(d) => states.last().depth[y][x] <= d,
                None => true,
            },
        never_farther(states[drawn], states.last(), x, y),
{
    let z = choose|z: Option<u32>|
        {
            &&& #[trigger] depth.ensures((x as i32, y as i32), z)
            &&& states[drawn + 1].depth[y][x] == resolved(states[drawn].depth[y][x], z)
            &&& if states[drawn + 1].depth[y][x] < states[drawn].depth[y][x] {
                shade.ensures((x as i32, y as i32), states[drawn + 1].color[y][x])
            } else {
                states[drawn + 1].color[y][x] == states[drawn].color[y][x]
            }
        };
    lemma_depth_never_grows(states, drawn + 1, states.len() - 1, x, y);
    assert(depth.ensures((x as i32, y as i32), z));
}

} // verus!
