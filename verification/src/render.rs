//! 1-bit software framebuffer and its integer drawing primitives.
//!
//! The screen is `W` by `H` pixels, stored row by row. Every primitive
//! clips to the screen: pixels off the screen are never written.

use vstd::prelude::*;
use vstd::string::StringSliceAdditionalSpecFns;
use crate::font::{glyph_of, glyph_pixel, glyph_rows};

verus! {

/// Screen width in pixels.
pub const W: i32 = 1404;
/// Screen height in pixels.
pub const H: i32 = 1872;

/// White in RGB565.
pub const WHITE: u16 = 0xFFFF;
/// Black in RGB565.
pub const BLACK: u16 = 0x0000;
/// Mid-gray in RGB565.
pub const GRAY: u16 = 0x8410;

/// Frames per activation animation (excludes the final settle frame).
pub const EFFECT_FRAMES: i32 = 6;
/// How far past the seal radius the effect reaches.
pub const EFFECT_REACH: i32 = 120;

/// Pixel (`x`, `y`) lies on the screen.
pub open spec fn on_screen(x: int, y: int) -> bool {
    0 <= x < W && 0 <= y < H
}

/// Position of pixel (`x`, `y`) in the buffer.
pub open spec fn offset(x: int, y: int) -> int {
    y * W + x
}

/// `after` keeps the length of `before` and whatever lies past the screen.
pub open spec fn same_frame(before: Seq<u16>, after: Seq<u16>) -> bool {
    &&& after.len() == before.len()
    &&& forall|i: int| W * H <= i < after.len() ==> #[trigger] after[i] == before[i]
}

/// Pixel (`px`, `py`) lies in the `w` by `h` rectangle at (`x`, `y`).
pub open spec fn in_rect(px: int, py: int, x: int, y: int, w: int, h: int) -> bool {
    x <= px < x + w && y <= py < y + h
}

/// Pixel (`px`, `py`) lies in the disk of radius `r` centred on (`cx`, `cy`).
pub open spec fn in_disk(px: int, py: int, cx: int, cy: int, r: int) -> bool {
    &&& -r <= px - cx <= r
    &&& -r <= py - cy <= r
    &&& (px - cx) * (px - cx) + (py - cy) * (py - cy) <= r * r
}

/// Pixel (`px`, `py`) lies in the outline of thickness `t` of the `w` by `h`
/// rectangle at (`x`, `y`): in its top, bottom, left or right band.
pub open spec fn in_outline(px: int, py: int, x: int, y: int, w: int, h: int, t: int) -> bool {
    ||| in_rect(px, py, x, y, w, t)
    ||| in_rect(px, py, x, y + h - t, w, t)
    ||| in_rect(px, py, x, y, t, h)
    ||| in_rect(px, py, x + w - t, y, t, h)
}

/// Pixel (`px`, `py`) lies in the part of the `2 * pad` square around
/// (`cx`, `cy`) that is farther than `inner` from (`cx`, `cy`).
pub open spec fn in_annulus(px: int, py: int, cx: int, cy: int, inner: int, pad: int) -> bool {
    &&& cx - pad <= px < cx + pad
    &&& cy - pad <= py < cy + pad
    &&& (px - cx) * (px - cx) + (py - cy) * (py - cy) > inner * inner
}

/// `points` holds pixel (`px`, `py`).
pub open spec fn holds_point(points: Seq<(i32, i32)>, px: int, py: int) -> bool {
    exists|k: int| 0 <= k < points.len() && #[trigger] points[k] == (px as i32, py as i32) && i32::MIN <= px <= i32::MAX
        && i32::MIN <= py <= i32::MAX
}

/// Pixel (`px`, `py`) is inked by text `chars` drawn at (`x`, `y`), glyph
/// pixels `scale` by `scale`, glyphs `8 * scale` apart.
pub open spec fn text_covers(chars: Seq<char>, x: int, y: int, scale: int, px: int, py: int) -> bool {
    exists|k: int, row: int, col: int|
        0 <= k < chars.len() && #[trigger] glyph_pixel(glyph_of(chars[k]), row, col) && in_rect(
            px,
            py,
            x + k * 8 * scale + col * scale,
            y + row * scale,
            scale,
            scale,
        )
}

/// Like `text_covers`, but only for the glyph pixels before position `lim`
/// of the drawing order (glyph by glyph, row by row, column by column).
pub open spec fn text_covers_before(chars: Seq<char>, x: int, y: int, scale: int, px: int, py: int, lim: int) -> bool {
    exists|k: int, row: int, col: int|
        0 <= k < chars.len() && #[trigger] glyph_pixel(glyph_of(chars[k]), row, col) && k * 64 + row * 8 + col < lim
            && in_rect(px, py, x + k * 8 * scale + col * scale, y + row * scale, scale, scale)
}

/// Pixel (`px`, `py`) is inked by the glyph with rows `rows` drawn at
/// (`x`, `y`), glyph pixels `scale` by `scale`.
pub open spec fn glyph_covers(rows: Seq<u8>, x: int, y: int, scale: int, px: int, py: int) -> bool {
    exists|row: int, col: int|
        #[trigger] glyph_pixel(rows, row, col) && in_rect(px, py, x + col * scale, y + row * scale, scale, scale)
}

/// Like `glyph_covers`, but only for the glyph pixels before position `lim`
/// of the drawing order (row by row, column by column).
pub open spec fn glyph_covers_before(rows: Seq<u8>, x: int, y: int, scale: int, px: int, py: int, lim: int) -> bool {
    exists|row: int, col: int|
        #[trigger] glyph_pixel(rows, row, col) && row * 8 + col < lim && in_rect(
            px,
            py,
            x + col * scale,
            y + row * scale,
            scale,
            scale,
        )
}

/// A glyph at (`x`, `y`) and scale `scale` keeps every coordinate it
/// computes within `i32`: its width, its right edge and its bottom edge.
pub open spec fn glyph_fits(x: int, y: int, scale: int) -> bool {
    &&& i32::MIN <= 8 * scale <= i32::MAX
    &&& i32::MIN <= x + 8 * scale <= i32::MAX
    &&& i32::MIN <= y + 8 * scale <= i32::MAX
}

/// Text of `n` glyphs at (`x`, `y`) and scale `scale` keeps every coordinate
/// it computes within `i32`: its width, its end and, when it has a glyph,
/// the bottom edge of its glyphs.
pub open spec fn text_fits(x: int, y: int, scale: int, n: int) -> bool {
    &&& i32::MIN <= 8 * scale * n <= i32::MAX
    &&& i32::MIN <= x + 8 * scale * n <= i32::MAX
    &&& n > 0 ==> i32::MIN <= y + 8 * scale <= i32::MAX
}

/// A framebuffer over a pixel buffer that holds at least one screen.
pub struct Fb<'a> {
    pub px: &'a mut [u16],
}

impl Fb<'_> {
    /// The buffer holds at least one screen.
    pub open spec fn wf(&self) -> bool {
        self.px@.len() >= W * H
    }

    /// Sets pixel (`x`, `y`) to `c` when it lies on the screen.
    pub fn set(&mut self, x: i32, y: i32, c: u16)
        requires
            old(self).wf(),
        ensures
            final(self).wf(),
            same_frame(old(self).px@, final(self).px@),
            forall|px: int, py: int|
                on_screen(px, py) ==> #[trigger] final(self).px@[offset(px, py)] == if px == x && py == y {
                    c
                } else {
                    old(self).px@[offset(px, py)]
                },
    {
        if 0 <= x && x < W && 0 <= y && y < H {
            let i = (y * W + x) as usize;
            self.px[i] = c;
        }
    }

    /// Fills the `w` by `h` rectangle at (`x`, `y`) with `c`.
    pub fn fill_rect(&mut self, x: i32, y: i32, w: i32, h: i32, c: u16)
        requires
            old(self).wf(),
            i32::MIN <= x + w <= i32::MAX,
            i32::MIN <= y + h <= i32::MAX,
        ensures
            final(self).wf(),
            same_frame(old(self).px@, final(self).px@),
            forall|px: int, py: int|
                on_screen(px, py) ==> #[trigger] final(self).px@[offset(px, py)] == if in_rect(px, py, x as int, y as int, w as int, h as int) {
                    c
                } else {
                    old(self).px@[offset(px, py)]
                },
    {
        let ghost p0 = self.px@;
        let mut yy = y;
        while yy < y + h
            invariant
                self.wf(),
                y <= yy,
                h > 0 ==> yy <= y + h,
                h <= 0 ==> yy == y,
                i32::MIN <= x + w <= i32::MAX,
                i32::MIN <= y + h <= i32::MAX,
                same_frame(p0, self.px@),
                forall|px: int, py: int|
                    on_screen(px, py) ==> #[trigger] self.px@[offset(px, py)] == if in_rect(px, py, x as int, y as int, w as int, yy - y) {
                        c
                    } else {
                        p0[offset(px, py)]
                    },
            decreases y + h - yy,
        {
            let mut xx = x;
            while xx < x + w
                invariant
                    self.wf(),
                    y <= yy < y + h,
                    x <= xx,
                    w > 0 ==> xx <= x + w,
                    w <= 0 ==> xx == x,
                    i32::MIN <= x + w <= i32::MAX,
                    i32::MIN <= y + h <= i32::MAX,
                    same_frame(p0, self.px@),
                    forall|px: int, py: int|
                        on_screen(px, py) ==> #[trigger] self.px@[offset(px, py)] == if in_rect(px, py, x as int, y as int, w as int, yy - y)
                            || (py == yy && x <= px < xx) {
                            c
                        } else {
                            p0[offset(px, py)]
                        },
                decreases x + w - xx,
            {
                self.set(xx, yy, c);
                xx = xx + 1;
            }
            yy = yy + 1;
        }
    }
    /// Outlines the `w` by `h` rectangle at (`x`, `y`) with bands `t` thick.
    pub fn rect_outline(&mut self, x: i32, y: i32, w: i32, h: i32, t: i32, c: u16)
        requires
            old(self).wf(),
            i32::MIN <= x + w <= i32::MAX,
            i32::MIN <= y + h <= i32::MAX,
            i32::MIN <= x + t <= i32::MAX,
            i32::MIN <= y + t <= i32::MAX,
            i32::MIN <= y + h - t <= i32::MAX,
            i32::MIN <= x + w - t <= i32::MAX,
        ensures
            final(self).wf(),
            same_frame(old(self).px@, final(self).px@),
            forall|px: int, py: int|
                on_screen(px, py) ==> #[trigger] final(self).px@[offset(px, py)] == if in_outline(px, py, x as int, y as int, w as int, h as int, t as int) {
                    c
                } else {
                    old(self).px@[offset(px, py)]
                },
    {
        self.fill_rect(x, y, w, t, c);
        self.fill_rect(x, y + h - t, w, t, c);
        self.fill_rect(x, y, t, h, c);
        self.fill_rect(x + w - t, y, t, h, c);
    }

    /// Stamps a filled disk of radius `r` centred on (`cx`, `cy`); a negative
    /// radius stamps nothing.
    pub fn stamp_disk(&mut self, cx: i32, cy: i32, r: i32, c: u16)
        requires
            old(self).wf(),
            r > i32::MIN,
            r >= 0 ==> 2 * r * r <= i32::MAX,
            r >= 0 ==> i32::MIN <= cx - r && cx + r <= i32::MAX,
            r >= 0 ==> i32::MIN <= cy - r && cy + r <= i32::MAX,
        ensures
            final(self).wf(),
            same_frame(old(self).px@, final(self).px@),
            forall|px: int, py: int|
                on_screen(px, py) ==> #[trigger] final(self).px@[offset(px, py)] == if in_disk(px, py, cx as int, cy as int, r as int) {
                    c
                } else {
                    old(self).px@[offset(px, py)]
                },
    {
        let ghost p0 = self.px@;
        if r < 0 {
            return;
        }
        proof {
            assert(r * r >= 0) by (nonlinear_arith);
            assert(r * r <= 1073741823) by (nonlinear_arith)
                requires
                    2 * r * r <= i32::MAX,
            ;
            assert(r <= 32768) by (nonlinear_arith)
                requires
                    r * r <= 1073741823,
                    r >= 0,
            ;
        }
        let mut oy: i32 = -r;
        while oy <= r
            invariant
                self.wf(),
                0 <= r,
                2 * r * r <= i32::MAX,
                r * r >= 0,
                r * r <= 1073741823,
                r <= 32768,
                i32::MIN <= cx - r && cx + r <= i32::MAX,
                i32::MIN <= cy - r && cy + r <= i32::MAX,
                -r <= oy <= r + 1,
                same_frame(p0, self.px@),
                forall|px: int, py: int|
                    on_screen(px, py) ==> #[trigger] self.px@[offset(px, py)] == if in_disk(px, py, cx as int, cy as int, r as int) && py - cy < oy {
                        c
                    } else {
                        p0[offset(px, py)]
                    },
            decreases r + 1 - oy,
        {
            let mut ox: i32 = -r;
            while ox <= r
                invariant
                    self.wf(),
                    0 <= r,
                    2 * r * r <= i32::MAX,
                    r * r >= 0,
                    r * r <= 1073741823,
                    r <= 32768,
                r <= 32768,
                    i32::MIN <= cx - r && cx + r <= i32::MAX,
                    i32::MIN <= cy - r && cy + r <= i32::MAX,
                    -r <= oy <= r,
                    -r <= ox <= r + 1,
                    same_frame(p0, self.px@),
                    forall|px: int, py: int|
                        on_screen(px, py) ==> #[trigger] self.px@[offset(px, py)] == if in_disk(px, py, cx as int, cy as int, r as int) && (py
                            - cy < oy || (py - cy == oy && px - cx < ox)) {
                            c
                        } else {
                            p0[offset(px, py)]
                        },
                decreases r + 1 - ox,
            {
                proof {
                    assert(ox * ox <= r * r && oy * oy <= r * r && ox * ox >= 0 && oy * oy >= 0) by (nonlinear_arith)
                        requires
                            -r <= ox <= r,
                            -r <= oy <= r,
                    ;
                }
                if ox * ox + oy * oy <= r * r {
                    self.set(cx + ox, cy + oy, c);
                }
                ox = ox + 1;
            }
            oy = oy + 1;
        }
    }

    /// Whitens the square of half-side `pad` around (`cx`, `cy`) outside the
    /// disk of radius `radius + 4` that holds the seal and its sigil, then
    /// restamps the seal ring, whose pixels are `seal`, in black.
    pub fn clear_seal_annulus(&mut self, cx: i32, cy: i32, radius: i32, pad: i32, seal: &[(i32, i32)])
        requires
            old(self).wf(),
            i32::MIN <= cx - pad <= i32::MAX,
            i32::MIN <= cx + pad <= i32::MAX,
            i32::MIN <= cy - pad <= i32::MAX,
            i32::MIN <= cy + pad <= i32::MAX,
            2 * pad * pad <= i32::MAX,
            radius + 4 <= i32::MAX,
            (radius + 4) * (radius + 4) <= i32::MAX,
        ensures
            final(self).wf(),
            same_frame(old(self).px@, final(self).px@),
            forall|px: int, py: int|
                on_screen(px, py) ==> #[trigger] final(self).px@[offset(px, py)] == if holds_point(seal@, px, py) {
                    BLACK
                } else if in_annulus(px, py, cx as int, cy as int, radius + 4, pad as int) {
                    WHITE
                } else {
                    old(self).px@[offset(px, py)]
                },
    {
        let ghost p0 = self.px@;
        let inner = radius + 4;
        proof {
            assert(pad * pad <= 1073741823) by (nonlinear_arith)
                requires
                    2 * pad * pad <= i32::MAX,
            ;
            assert(inner * inner >= 0) by (nonlinear_arith);
        }
        let x0 = if cx - pad > 0 { cx - pad } else { 0 };
        let y0 = if cy - pad > 0 { cy - pad } else { 0 };
        let x1 = if cx + pad < W { cx + pad } else { W };
        let y1 = if cy + pad < H { cy + pad } else { H };
        let mut yy = y0;
        while yy < y1
            invariant
                self.wf(),
                inner == radius + 4,
                inner * inner <= i32::MAX,
                inner * inner >= 0,
                2 * pad * pad <= i32::MAX,
                pad * pad <= 1073741823,
                y0 <= yy,
                y1 > y0 ==> yy <= y1,
                y1 <= y0 ==> yy == y0,
                y0 == if cy - pad > 0 { cy - pad } else { 0 },
                x0 == if cx - pad > 0 { cx - pad } else { 0 },
                y1 == if cy + pad < H { cy + pad } else { H as int },
                x1 == if cx + pad < W { cx + pad } else { W as int },
                same_frame(p0, self.px@),
                forall|px: int, py: int|
                    on_screen(px, py) ==> #[trigger] self.px@[offset(px, py)] == if in_annulus(px, py, cx as int, cy as int, inner as int, pad as int) && py < yy {
                        WHITE
                    } else {
                        p0[offset(px, py)]
                    },
            decreases y1 - yy,
        {
            let mut xx = x0;
            while xx < x1
                invariant
                    self.wf(),
                    inner == radius + 4,
                    inner * inner <= i32::MAX,
                    inner * inner >= 0,
                    2 * pad * pad <= i32::MAX,
                    pad * pad <= 1073741823,
                    y0 <= yy < y1,
                    x0 <= xx,
                    x1 > x0 ==> xx <= x1,
                    x1 <= x0 ==> xx == x0,
                    y0 == if cy - pad > 0 { cy - pad } else { 0 },
                    x0 == if cx - pad > 0 { cx - pad } else { 0 },
                    y1 == if cy + pad < H { cy + pad } else { H as int },
                    x1 == if cx + pad < W { cx + pad } else { W as int },
                    same_frame(p0, self.px@),
                    forall|px: int, py: int|
                        on_screen(px, py) ==> #[trigger] self.px@[offset(px, py)] == if in_annulus(px, py, cx as int, cy as int, inner as int, pad as int)
                            && (py < yy || (py == yy && px < xx)) {
                            WHITE
                        } else {
                            p0[offset(px, py)]
                        },
                decreases x1 - xx,
            {
                proof {
                    assert((xx - cx) * (xx - cx) <= pad * pad && (yy - cy) * (yy - cy) <= pad * pad) by (nonlinear_arith)
                        requires
                            cx - pad <= xx < cx + pad,
                            cy - pad <= yy < cy + pad,
                    ;
                    assert((xx - cx) * (xx - cx) >= 0 && (yy - cy) * (yy - cy) >= 0) by (nonlinear_arith);
                }
                let d2 = (xx - cx) * (xx - cx) + (yy - cy) * (yy - cy);
                if d2 > inner * inner {
                    self.set(xx, yy, WHITE);
                }
                xx = xx + 1;
            }
            yy = yy + 1;
        }
        let ghost p1 = self.px@;
        let mut k: usize = 0;
        while k < seal.len()
            invariant
                self.wf(),
                k <= seal@.len(),
                same_frame(p0, self.px@),
                forall|px: int, py: int|
                    on_screen(px, py) ==> #[trigger] self.px@[offset(px, py)] == if exists|m: int|
                        0 <= m < k && #[trigger] seal@[m] == (px as i32, py as i32) {
                        BLACK
                    } else {
                        p1[offset(px, py)]
                    },
                forall|px: int, py: int|
                    on_screen(px, py) ==> #[trigger] p1[offset(px, py)] == if in_annulus(px, py, cx as int, cy as int, radius + 4, pad as int) {
                        WHITE
                    } else {
                        p0[offset(px, py)]
                    },
            decreases seal@.len() - k,
        {
            let (sx, sy) = seal[k];
            let ghost pa = self.px@;
            self.set(sx, sy, BLACK);
            proof {
                assert forall|px: int, py: int|
                    on_screen(px, py) implies #[trigger] self.px@[offset(px, py)] == if exists|m: int|
                        0 <= m < k + 1 && #[trigger] seal@[m] == (px as i32, py as i32) {
                        BLACK
                    } else {
                        p1[offset(px, py)]
                    } by {
                    if px == sx && py == sy {
                        assert(seal@[k as int] == (px as i32, py as i32));
                    }
                    if exists|m: int| 0 <= m < k + 1 && #[trigger] seal@[m] == (px as i32, py as i32) {
                        let m = choose|m: int| 0 <= m < k + 1 && #[trigger] seal@[m] == (px as i32, py as i32);
                        if m == k {
                            assert(px == sx && py == sy);
                        }
                    }
                }
            }
            k = k + 1;
        }
    }

    /// Stamps the glyph with rows `rows` at (`x`, `y`): each set bit `col`
    /// of row `row` fills the `scale` by `scale` block at
    /// (`x + col * scale`, `y + row * scale`) with `c`.
    pub fn stamp_glyph(&mut self, x: i32, y: i32, rows: [u8; 8], scale: i32, c: u16)
        requires
            old(self).wf(),
            glyph_fits(x as int, y as int, scale as int),
        ensures
            final(self).wf(),
            same_frame(old(self).px@, final(self).px@),
            forall|px: int, py: int|
                on_screen(px, py) ==> #[trigger] final(self).px@[offset(px, py)] == if glyph_covers(rows@, x as int, y as int, scale as int, px, py) {
                    c
                } else {
                    old(self).px@[offset(px, py)]
                },
    {
        let ghost p0 = self.px@;
        let ghost g = rows@;
        let ghost sc = scale as int;
        let mut row: usize = 0;
        while row < 8
            invariant
                self.wf(),
                sc == scale,
                g == rows@,
                row <= 8,
                glyph_fits(x as int, y as int, sc),
                same_frame(p0, self.px@),
                forall|px: int, py: int|
                    on_screen(px, py) ==> #[trigger] self.px@[offset(px, py)] == if glyph_covers_before(g, x as int, y as int, sc, px, py, row * 8) {
                        c
                    } else {
                        p0[offset(px, py)]
                    },
            decreases 8 - row,
        {
            let bits = rows[row];
            let mut col: u8 = 0;
            while col < 8
                invariant
                    self.wf(),
                    sc == scale,
                    g == rows@,
                    row < 8,
                    col <= 8,
                    bits == g[row as int],
                    glyph_fits(x as int, y as int, sc),
                    same_frame(p0, self.px@),
                    forall|px: int, py: int|
                        on_screen(px, py) ==> #[trigger] self.px@[offset(px, py)] == if glyph_covers_before(g, x as int, y as int, sc, px, py, row * 8 + col) {
                            c
                        } else {
                            p0[offset(px, py)]
                        },
                decreases 8 - col,
            {
                proof {
                    lemma_glyph_pixel_bounds(x as int, y as int, sc, col as int, row as int);
                }
                let bx = x + (col as i32) * scale;
                let by = y + (row as i32) * scale;
                let ghost lim = row * 8 + col;
                if bits & (1u8 << col) != 0 {
                    self.fill_rect(bx, by, scale, scale, c);
                }
                proof {
                    assert forall|px: int, py: int| on_screen(px, py) implies #[trigger] self.px@[offset(px, py)] == if glyph_covers_before(
                        g,
                        x as int,
                        y as int,
                        sc,
                        px,
                        py,
                        lim + 1,
                    ) {
                        c
                    } else {
                        p0[offset(px, py)]
                    } by {
                        let here = glyph_pixel(g, row as int, col as int) && in_rect(px, py, x + col * sc, y + row * sc, sc, sc);
                        if here {
                            assert(glyph_covers_before(g, x as int, y as int, sc, px, py, lim + 1));
                        }
                        if glyph_covers_before(g, x as int, y as int, sc, px, py, lim + 1) && !glyph_covers_before(
                            g,
                            x as int,
                            y as int,
                            sc,
                            px,
                            py,
                            lim,
                        ) {
                            let (r2, c2) = choose|r2: int, c2: int|
                                #[trigger] glyph_pixel(g, r2, c2) && r2 * 8 + c2 < lim + 1 && in_rect(
                                    px,
                                    py,
                                    x + c2 * sc,
                                    y + r2 * sc,
                                    sc,
                                    sc,
                                );
                            assert(r2 * 8 + c2 == lim);
                            assert(r2 == row && c2 == col);
                        }
                        if glyph_covers_before(g, x as int, y as int, sc, px, py, lim) {
                            let (r2, c2) = choose|r2: int, c2: int|
                                #[trigger] glyph_pixel(g, r2, c2) && r2 * 8 + c2 < lim && in_rect(px, py, x + c2 * sc, y + r2 * sc, sc, sc);
                            assert(glyph_covers_before(g, x as int, y as int, sc, px, py, lim + 1));
                        }
                    }
                }
                col = col + 1;
            }
            row = row + 1;
        }
        proof {
            assert forall|px: int, py: int| on_screen(px, py) implies glyph_covers(g, x as int, y as int, sc, px, py)
                == glyph_covers_before(g, x as int, y as int, sc, px, py, 64) by {
                if glyph_covers(g, x as int, y as int, sc, px, py) {
                    let (r2, c2) = choose|r2: int, c2: int|
                        #[trigger] glyph_pixel(g, r2, c2) && in_rect(px, py, x + c2 * sc, y + r2 * sc, sc, sc);
                    assert(r2 * 8 + c2 < 64);
                }
            }
        }
    }

    /// Writes `s` with the 8x8 font at (`x`, `y`), each glyph pixel a
    /// `scale` by `scale` block, glyphs `8 * scale` apart; returns the width
    /// of the text.
    pub fn text(&mut self, x: i32, y: i32, s: &str, scale: i32, c: u16) -> (width: i32)
        requires
            old(self).wf(),
            text_fits(x as int, y as int, scale as int, s@.len() as int),
        ensures
            final(self).wf(),
            same_frame(old(self).px@, final(self).px@),
            width == 8 * scale * s@.len(),
            forall|px: int, py: int|
                on_screen(px, py) ==> #[trigger] final(self).px@[offset(px, py)] == if text_covers(s@, x as int, y as int, scale as int, px, py) {
                    c
                } else {
                    old(self).px@[offset(px, py)]
                },
    {
        let ghost p0 = self.px@;
        let ghost chars = s@;
        let ghost sc = scale as int;
        let n = s.unicode_len();
        let mut cx = x;
        let mut k: usize = 0;
        while k < n
            invariant
                self.wf(),
                n == chars.len(),
                chars == s@,
                sc == scale,
                text_fits(x as int, y as int, sc, n as int),
                k <= n,
                cx == x + k * 8 * sc,
                same_frame(p0, self.px@),
                forall|px: int, py: int|
                    on_screen(px, py) ==> #[trigger] self.px@[offset(px, py)] == if text_covers_before(chars, x as int, y as int, sc, px, py, k * 64) {
                        c
                    } else {
                        p0[offset(px, py)]
                    },
            decreases n - k,
        {
            let ch = s.get_char(k);
            let glyph = glyph_rows(ch);
            proof {
                lemma_glyph_fits_in_text(x as int, y as int, sc, n as int, k as int);
            }
            let ghost pm = self.px@;
            self.stamp_glyph(cx, y, glyph, scale, c);
            proof {
                assert forall|px: int, py: int| on_screen(px, py) implies #[trigger] self.px@[offset(px, py)] == if text_covers_before(
                    chars,
                    x as int,
                    y as int,
                    sc,
                    px,
                    py,
                    (k + 1) * 64,
                ) {
                    c
                } else {
                    p0[offset(px, py)]
                } by {
                    let g = glyph_of(chars[k as int]);
                    if glyph_covers(g, cx as int, y as int, sc, px, py) {
                        let (r, cl) = choose|r: int, cl: int|
                            #[trigger] glyph_pixel(g, r, cl) && in_rect(px, py, cx + cl * sc, y + r * sc, sc, sc);
                        assert(k * 64 + r * 8 + cl < (k + 1) * 64);
                        assert(text_covers_before(chars, x as int, y as int, sc, px, py, (k + 1) * 64));
                    }
                    if text_covers_before(chars, x as int, y as int, sc, px, py, k * 64) {
                        let (k2, r2, c2) = choose|k2: int, r2: int, c2: int|
                            0 <= k2 < chars.len() && #[trigger] glyph_pixel(glyph_of(chars[k2]), r2, c2) && k2 * 64 + r2 * 8 + c2
                                < k * 64 && in_rect(px, py, x + k2 * 8 * sc + c2 * sc, y + r2 * sc, sc, sc);
                        assert(text_covers_before(chars, x as int, y as int, sc, px, py, (k + 1) * 64));
                    }
                    if text_covers_before(chars, x as int, y as int, sc, px, py, (k + 1) * 64) && !text_covers_before(
                        chars,
                        x as int,
                        y as int,
                        sc,
                        px,
                        py,
                        k * 64,
                    ) {
                        let (k2, r2, c2) = choose|k2: int, r2: int, c2: int|
                            0 <= k2 < chars.len() && #[trigger] glyph_pixel(glyph_of(chars[k2]), r2, c2) && k2 * 64 + r2 * 8 + c2
                                < (k + 1) * 64 && in_rect(px, py, x + k2 * 8 * sc + c2 * sc, y + r2 * sc, sc, sc);
                        assert(k2 == k);
                        assert(glyph_covers(g, cx as int, y as int, sc, px, py));
                    }
                }
                assert((k + 1) * 8 * sc == k * 8 * sc + 8 * sc) by (nonlinear_arith);
            }
            cx = cx + 8 * scale;
            k = k + 1;
        }
        proof {
            assert forall|px: int, py: int| on_screen(px, py) implies text_covers(chars, x as int, y as int, sc, px, py)
                == text_covers_before(chars, x as int, y as int, sc, px, py, n * 64) by {
                if text_covers(chars, x as int, y as int, sc, px, py) {
                    let (k2, r2, c2) = choose|k2: int, r2: int, c2: int|
                        0 <= k2 < chars.len() && #[trigger] glyph_pixel(glyph_of(chars[k2]), r2, c2) && in_rect(
                            px,
                            py,
                            x + k2 * 8 * sc + c2 * sc,
                            y + r2 * sc,
                            sc,
                            sc,
                        );
                    assert(k2 * 64 + r2 * 8 + c2 < n * 64);
                }
            }
            assert(n * 8 * sc == 8 * sc * n) by (nonlinear_arith);
        }
        cx - x
    }
}

/// Between 0 and `b * sc`, for `0 <= a <= b`, lies `a * sc`.
proof fn lemma_scaled_between(sc: int, a: int, b: int)
    requires
        0 <= a <= b,
    ensures
        sc >= 0 ==> 0 <= a * sc <= b * sc,
        sc < 0 ==> b * sc <= a * sc <= 0,
{
    if sc >= 0 {
        assert(0 <= a * sc <= b * sc) by (nonlinear_arith)
            requires
                0 <= a <= b,
                sc >= 0,
        ;
    } else {
        assert(b * sc <= a * sc <= 0) by (nonlinear_arith)
            requires
                0 <= a <= b,
                sc < 0,
        ;
    }
}

/// The block of glyph pixel (`col`, `row`) of a glyph that fits stays
/// within `i32`.
proof fn lemma_glyph_pixel_bounds(x: int, y: int, sc: int, col: int, row: int)
    requires
        glyph_fits(x, y, sc),
        i32::MIN <= x <= i32::MAX,
        i32::MIN <= y <= i32::MAX,
        0 <= col < 8,
        0 <= row < 8,
    ensures
        i32::MIN <= col * sc <= i32::MAX,
        i32::MIN <= row * sc <= i32::MAX,
        i32::MIN <= x + col * sc <= i32::MAX,
        i32::MIN <= y + row * sc <= i32::MAX,
        i32::MIN <= x + col * sc + sc <= i32::MAX,
        i32::MIN <= y + row * sc + sc <= i32::MAX,
{
    lemma_scaled_between(sc, col, 8);
    lemma_scaled_between(sc, row, 8);
    lemma_scaled_between(sc, col + 1, 8);
    lemma_scaled_between(sc, row + 1, 8);
    assert((col + 1) * sc == col * sc + sc) by (nonlinear_arith);
    assert((row + 1) * sc == row * sc + sc) by (nonlinear_arith);
}

/// Glyph `k` of a text of `n` glyphs that fits starts within `i32` and is a
/// glyph that fits.
proof fn lemma_glyph_fits_in_text(x: int, y: int, sc: int, n: int, k: int)
    requires
        text_fits(x, y, sc, n),
        i32::MIN <= x <= i32::MAX,
        0 <= k < n,
    ensures
        i32::MIN <= x + k * 8 * sc <= i32::MAX,
        i32::MIN <= 8 * sc <= i32::MAX,
        glyph_fits(x + k * 8 * sc, y, sc),
{
    lemma_scaled_between(8 * sc, k, n);
    lemma_scaled_between(8 * sc, k + 1, n);
    lemma_scaled_between(8 * sc, 1, n);
    assert(k * 8 * sc == k * (8 * sc)) by (nonlinear_arith);
    assert(8 * sc * n == n * (8 * sc)) by (nonlinear_arith);
    assert((k + 1) * (8 * sc) == k * 8 * sc + 8 * sc) by (nonlinear_arith);
}

/// The settle frame of an activation: the effect annulus is cleared, the
/// seal restamped from `seal`, and the element's name written under it.
pub fn effect_settle(fb: &mut Fb, cx: i32, cy: i32, radius: i32, element: &str, seal: &[(i32, i32)])
    requires
        old(fb).wf(),
        element.spec_bytes().len() * 24 <= i32::MAX,
        i32::MIN <= radius + EFFECT_REACH <= i32::MAX,
        i32::MIN <= cx - (radius + EFFECT_REACH) <= i32::MAX,
        i32::MIN <= cx + (radius + EFFECT_REACH) <= i32::MAX,
        i32::MIN <= cy - (radius + EFFECT_REACH) <= i32::MAX,
        i32::MIN <= cy + (radius + EFFECT_REACH) <= i32::MAX,
        2 * (radius + EFFECT_REACH) * (radius + EFFECT_REACH) <= i32::MAX,
        (radius + 4) * (radius + 4) <= i32::MAX,
        i32::MIN <= cy + radius <= i32::MAX,
        i32::MIN <= cy + radius + 40 <= i32::MAX,
        i32::MIN <= cx - (element.spec_bytes().len() * 24) / 2,
        text_fits(cx - (element.spec_bytes().len() * 24) / 2, cy + radius + 40, 6, element@.len() as int),
    ensures
        final(fb).wf(),
        same_frame(old(fb).px@, final(fb).px@),
        forall|px: int, py: int|
            on_screen(px, py) ==> #[trigger] final(fb).px@[offset(px, py)] == if text_covers(
                element@,
                cx - (element.spec_bytes().len() * 24) / 2,
                cy + radius + 40,
                6,
                px,
                py,
            ) {
                BLACK
            } else if holds_point(seal@, px, py) {
                BLACK
            } else if in_annulus(px, py, cx as int, cy as int, radius + 4, radius + EFFECT_REACH) {
                WHITE
            } else {
                old(fb).px@[offset(px, py)]
            },
{
    let pad = radius + EFFECT_REACH;
    fb.clear_seal_annulus(cx, cy, radius, pad, seal);
    let ghost p1 = fb.px@;
    let len = element.len() as i32;
    let tx = cx - len * 3 * 8 / 2;
    proof {
        assert(len * 3 * 8 / 2 == (element.spec_bytes().len() * 24) / 2);
    }
    fb.text(tx, cy + radius + 40, element, 6, BLACK);
}

} // verus!
