//! Finished frames: fitting them into a surface, what is done to their pixels on the way, and
//! which way they go there.

use crate::color::{color_of, parse_color};
use crate::lamp::TOP;
use crate::model::{DotShape, Dots, OutputMode, Pass, Scaling};
use crate::num::{
    abs_of, at_most, clamp_of, floor_of, from_int, less, max_of, min_of, num, opposite_of,
    product_of, quotient_of, round_of, sum_of, to_byte_of, Num,
};
use crate::output::{full_color, resolved_output};
use crate::raster::{pixel, Rgba};
use crate::state::{Engine, ImageData, State};
use crate::waves::{sqrt, sqrt_of, HALF, ONE, TWO};
use vstd::prelude::*;

verus! {

/// Pixels across one tile of the dots grille: one dot with its surround.
pub const GRILLE_TILE: u32 = 64;

/// 3.0: how many surface pixels a canvas pixel has to cover to be shown as a dot.
pub const LEAST_DOT: u64 = 0x4008_0000_0000_0000;

/// 16.0: the part of the pitch that a dot's edge is softened over, as a divisor.
pub const SOFT_EDGE: u64 = 0x4030_0000_0000_0000;

/// What the rows of a frame read back are aligned to, in bytes.
pub const ROW_ALIGNMENT: u64 = 256;

/// The scale that fits a canvas into a surface.
pub open spec fn fit_scale(show: [u32; 2], target: [u32; 2], scaling: Scaling) -> Num {
    let scale = min_of(
        quotient_of(from_int(target[0] as int), from_int(show[0] as int)),
        quotient_of(from_int(target[1] as int), from_int(show[1] as int)),
    );
    if scaling == Scaling::PixelPerfect && at_most(num(ONE), scale) {
        floor_of(scale)
    } else {
        scale
    }
}

/// How far from the near edge a scaled canvas side is centered in a surface side.
pub open spec fn centered(show: u32, target: u32, scale: Num, scaling: Scaling) -> Num {
    let room = quotient_of(
        sum_of(
            from_int(target as int),
            opposite_of(product_of(from_int(show as int), scale)),
        ),
        num(TWO),
    );
    if scaling == Scaling::PixelPerfect {
        floor_of(room)
    } else {
        room
    }
}

/// Where a `show` sized canvas lands in a `target` sized surface: uniform scale, centered, as
/// `(scale, x, y)`. With [`Scaling::PixelPerfect`] the scale is a whole number whenever the
/// target is at least the show's size, and the offsets are whole pixels, so nearest-neighbor
/// sampling maps every canvas pixel to an equal block.
pub fn fit(show: [u32; 2], target: [u32; 2], scaling: Scaling) -> (r: (Num, Num, Num))
    ensures
        r.0 == fit_scale(show, target, scaling),
        r.1 == centered(show[0], target[0], r.0, scaling),
        r.2 == centered(show[1], target[1], r.0, scaling),
{
    let w = Num::from_u64(show[0] as u64);
    let h = Num::from_u64(show[1] as u64);
    let tw = Num::from_u64(target[0] as u64);
    let th = Num::from_u64(target[1] as u64);
    let fill = tw.over(w).min(th.over(h));
    if scaling == Scaling::PixelPerfect {
        let scale = if num(ONE).le(fill) {
            fill.floor()
        } else {
            fill
        };
        return (
            scale,
            tw.minus(w.times(scale)).over(num(TWO)).floor(),
            th.minus(h.times(scale)).over(num(TWO)).floor(),
        );
    }
    (fill, tw.minus(w.times(fill)).over(num(TWO)), th.minus(h.times(fill)).over(num(TWO)))
}

/// A color at an opacity.
pub open spec fn faded(color: [u8; 4], opacity: Num) -> [u8; 4] {
    let a = from_int(color[3] as int);
    let alpha = clamp_of(product_of(quotient_of(a, num(TOP)), opacity), num(0), num(ONE));
    [color[0], color[1], color[2], to_byte_of(round_of(product_of(alpha, num(TOP))))]
}

/// The color an item at some opacity is painted in.
pub fn fade(color: [u8; 4], opacity: Num) -> (r: [u8; 4])
    ensures
        r == faded(color, opacity),
{
    let a = Num::from_u64(color[3] as u64);
    let alpha = a.over(num(TOP)).times(opacity).clamp(num(0), num(ONE));
    [color[0], color[1], color[2], alpha.times(num(TOP)).round().to_u8()]
}

/// How much of a sheet cell's side lies in the image.
pub open spec fn kept_side(side: u32, start: u32, whole: u32) -> u32 {
    let left: int = if whole > start {
        whole - start
    } else {
        0
    };
    if side < left {
        side
    } else {
        left as u32
    }
}

fn keep_side(side: u32, start: u32, whole: u32) -> (r: u32)
    ensures
        r == kept_side(side, start, whole),
{
    let left: u32 = if whole > start {
        whole - start
    } else {
        0
    };
    if side < left {
        side
    } else {
        left
    }
}

/// The bytes of a sheet cell of some image, row by row.
pub open spec fn cell_bytes(data: ImageData, x: u32, y: u32, w: u32, n: nat) -> Seq<u8> {
    Seq::new(
        4 * n,
        |i: int|
            pixel(
                data.width,
                data.height,
                data.pixels@,
                x + (i / 4) % (w as int),
                y + (i / 4) / (w as int),
            )[i % 4],
    )
}

/// One sheet cell `[x, y, width, height]` as an image of its own, so sampling at its edges
/// never reads neighboring cells. A cell that reaches past the image is cut off there.
pub fn cut_cell(data: &ImageData, cell: [u32; 4]) -> (r: Rgba)
    ensures
        r.width == kept_side(cell[2], cell[0], data.width),
        r.height == kept_side(cell[3], cell[1], data.height),
        r.pixels@ == cell_bytes(*data, cell[0], cell[1], r.width, (r.width * r.height) as nat),
{
    let x: u32 = cell[0];
    let y: u32 = cell[1];
    let w: u32 = keep_side(cell[2], x, data.width);
    let h: u32 = keep_side(cell[3], y, data.height);
    let mut pixels: Vec<u8> = Vec::new();
    let mut row: u32 = 0;
    assert(0 * (w as int) == 0);
    assert(pixels@ =~= cell_bytes(*data, x, y, w, 0));
    while row < h
        invariant
            row <= h,
            w == kept_side(cell[2], x, data.width),
            h == kept_side(cell[3], y, data.height),
            pixels@ == cell_bytes(*data, x, y, w, (row * w) as nat),
        decreases h - row,
    {
        let mut column: u32 = 0;
        while column < w
            invariant
                column <= w,
                row < h,
                w == kept_side(cell[2], x, data.width),
                h == kept_side(cell[3], y, data.height),
                pixels@ == cell_bytes(*data, x, y, w, (row * w + column) as nat),
            decreases w - column,
        {
            let px = byte_pixel(data, x + column, y + row);
            let ghost was = pixels@;
            pixels.push(px[0]);
            pixels.push(px[1]);
            pixels.push(px[2]);
            pixels.push(px[3]);
            proof {
                let k = row * w + column;
                assert(k % (w as int) == column && k / (w as int) == row) by (nonlinear_arith)
                    requires
                        k == row * w + column,
                        0 <= column < w,
                        0 <= row,
                ;
                let next = cell_bytes(*data, x, y, w, (k + 1) as nat);
                assert(was.len() == 4 * k);
                assert forall|i: int| 0 <= i < next.len() implies pixels@[i] == next[i] by {
                    if i < 4 * k {
                        assert(pixels@[i] == was[i]);
                    } else {
                        assert(i / 4 == k && i % 4 == i - 4 * k);
                    }
                }
                assert(pixels@ =~= next);
            }
            column = column + 1;
        }
        proof {
            assert((row + 1) * w == row * w + w) by (nonlinear_arith);
        }
        row = row + 1;
    }
    assert(row * w == w * h) by (nonlinear_arith)
        requires
            row == h,
    ;
    Rgba { width: w, height: h, pixels }
}

fn byte_pixel(data: &ImageData, x: u32, y: u32) -> (r: [u8; 4])
    requires
        x < data.width,
        y < data.height,
    ensures
        r == pixel(data.width, data.height, data.pixels@, x as int, y as int),
{
    assert(0 <= y * data.width + x < 0x1_0000_0000 * 0x1_0000_0000) by (nonlinear_arith)
        requires
            0 <= x < data.width <= 0xFFFF_FFFF,
            0 <= y <= 0xFFFF_FFFF,
    ;
    let i: u128 = 4 * (y as u128 * data.width as u128 + x as u128);
    if i + 4 <= data.pixels.len() as u128 {
        let k: usize = i as usize;
        [data.pixels[k], data.pixels[k + 1], data.pixels[k + 2], data.pixels[k + 3]]
    } else {
        [0, 0, 0, 0]
    }
}

/// The bytes a row of a frame takes when it is read back.
pub fn row_stride(width: u32) -> (r: u64)
    ensures
        r % ROW_ALIGNMENT == 0,
        4 * width <= r < 4 * width + ROW_ALIGNMENT,
{
    (4 * width as u64 + (ROW_ALIGNMENT - 1)) / ROW_ALIGNMENT * ROW_ALIGNMENT
}

/// The bytes of a frame without what its rows are padded with.
pub open spec fn packed(mapped: Seq<u8>, row: int, stride: int, n: nat) -> Seq<u8> {
    Seq::new(n, |i: int| mapped[(i / row) * stride + i % row])
}

/// Takes the padding off the rows of a frame that was read back.
pub fn pack_rows(mapped: &[u8], width: u32, height: u32, stride: u64) -> (r: Vec<u8>)
    requires
        4 * width <= stride,
        height * stride <= mapped@.len(),
    ensures
        r@ == packed(mapped@, 4 * width, stride as int, (height * (4 * width)) as nat),
{
    let row: u64 = 4 * width as u64;
    let total: usize = mapped.len();
    let mut out: Vec<u8> = Vec::new();
    let mut y: u32 = 0;
    assert(0 * (row as int) == 0);
    assert(out@ =~= packed(mapped@, row as int, stride as int, 0));
    while y < height
        invariant
            y <= height,
            row == 4 * width,
            row <= stride,
            height * stride <= mapped@.len(),
            total == mapped@.len(),
            out@ == packed(mapped@, row as int, stride as int, (y * row) as nat),
        decreases height - y,
    {
        assert((y + 1) * stride <= height * stride) by (nonlinear_arith)
            requires
                y < height,
                stride >= 0,
        ;
        assert(y * stride + stride == (y + 1) * stride) by (nonlinear_arith);
        assert(y * stride >= 0) by (nonlinear_arith)
            requires
                y >= 0,
                stride >= 0,
        ;
        assert(y * stride + stride <= total);
        let start: usize = y as usize * stride as usize;
        let mut i: usize = 0;
        while i < row as usize
            invariant
                i <= row,
                start == y * stride,
                start + stride <= total == mapped@.len(),
                row <= stride,
                row <= usize::MAX,
                out@ == packed(mapped@, row as int, stride as int, (y * row + i) as nat),
            decreases row - i,
        {
            let ghost was = out@;
            out.push(mapped[start + i]);
            proof {
                let k = y * row + i;
                assert(k % (row as int) == i && k / (row as int) == y) by (nonlinear_arith)
                    requires
                        k == y * row + i,
                        0 <= i < row,
                        0 <= y,
                ;
                assert(out@ =~= packed(mapped@, row as int, stride as int, (k + 1) as nat));
            }
            i = i + 1;
        }
        assert((y + 1) * row == y * row + row) by (nonlinear_arith);
        y = y + 1;
    }
    out
}

/// How far a grille pixel is from the middle of its tile, along one side.
pub open spec fn off_center(i: int) -> Num {
    let at = from_int(i);
    let n = from_int(GRILLE_TILE as int);
    sum_of(sum_of(at, num(HALF)), opposite_of(quotient_of(n, num(TWO))))
}

/// How dark a pixel of the grille is: 0 inside the dot, full outside, a soft step in between.
pub open spec fn grille_alpha(size: Num, shape: DotShape, x: int, y: int) -> u8 {
    let n = from_int(GRILLE_TILE as int);
    let dx = off_center(x);
    let dy = off_center(y);
    let radius = quotient_of(product_of(size, n), num(TWO));
    let distance = match shape {
        DotShape::Square => max_of(abs_of(dx), abs_of(dy)),
        DotShape::Round => sqrt_of(sum_of(product_of(dx, dx), product_of(dy, dy))),
    };
    let soft = quotient_of(n, num(SOFT_EDGE));
    let cover = clamp_of(
        sum_of(quotient_of(sum_of(distance, opposite_of(radius)), soft), num(HALF)),
        num(0),
        num(ONE),
    );
    to_byte_of(round_of(product_of(cover, num(TOP))))
}

/// One tile of the grille, as the alpha of its black pixels.
pub open spec fn grille(size: Num, shape: DotShape, n: nat) -> Seq<u8> {
    Seq::new(
        4 * n,
        |i: int|
            if i % 4 == 3 {
                grille_alpha(
                    size,
                    shape,
                    (i / 4) % (GRILLE_TILE as int),
                    (i / 4) / (GRILLE_TILE as int),
                )
            } else {
                0
            },
    )
}

/// One tile of the grille a dots pass lays over the frame: black with a transparent dot-shaped
/// hole, its edge softened over a sixteenth of the pitch so dots stay round at a few surface
/// pixels each.
pub fn grille_tile(size: Num, shape: DotShape) -> (r: Rgba)
    ensures
        r.width == GRILLE_TILE,
        r.height == GRILLE_TILE,
        r.pixels@ == grille(size, shape, (GRILLE_TILE * GRILLE_TILE) as nat),
{
    let n = Num::from_u64(GRILLE_TILE as u64);
    let radius = size.times(n).over(num(TWO));
    let soft = n.over(num(SOFT_EDGE));
    let half = n.over(num(TWO));
    let mut pixels: Vec<u8> = Vec::new();
    let mut k: u32 = 0;
    assert(pixels@ =~= grille(size, shape, 0));
    while k < GRILLE_TILE * GRILLE_TILE
        invariant
            k <= GRILLE_TILE * GRILLE_TILE,
            n == from_int(GRILLE_TILE as int),
            radius == quotient_of(product_of(size, n), num(TWO)),
            soft == quotient_of(n, num(SOFT_EDGE)),
            half == quotient_of(n, num(TWO)),
            pixels@ == grille(size, shape, k as nat),
        decreases GRILLE_TILE * GRILLE_TILE - k,
    {
        let x: u32 = k % GRILLE_TILE;
        let y: u32 = k / GRILLE_TILE;
        let dx = Num::from_u64(x as u64).plus(num(HALF)).minus(half);
        let dy = Num::from_u64(y as u64).plus(num(HALF)).minus(half);
        let distance = match shape {
            DotShape::Square => dx.abs().max(dy.abs()),
            DotShape::Round => sqrt(dx.times(dx).plus(dy.times(dy))),
        };
        let cover = distance.minus(radius).over(soft).plus(num(HALF)).clamp(num(0), num(ONE));
        let alpha: u8 = cover.times(num(TOP)).round().to_u8();
        let ghost was = pixels@;
        pixels.push(0);
        pixels.push(0);
        pixels.push(0);
        pixels.push(alpha);
        proof {
            let next = grille(size, shape, (k + 1) as nat);
            assert(alpha == grille_alpha(size, shape, x as int, y as int));
            assert forall|i: int| 0 <= i < next.len() implies pixels@[i] == next[i] by {
                if i < 4 * k {
                    assert(pixels@[i] == was[i]);
                } else {
                    assert(i / 4 == k && i % 4 == i - 4 * k);
                }
            }
            assert(pixels@ =~= next);
        }
        k = k + 1;
    }
    Rgba { width: GRILLE_TILE, height: GRILLE_TILE, pixels }
}

/// How dots are laid over a frame.
#[derive(Clone, Copy, Debug)]
pub struct DotGrid {
    pub size: Num,
    pub shape: DotShape,
    /// Dots that are off still show: nothing gets darker than this color.
    pub unlit: Option<[u8; 4]>,
    /// How much of the frame, smoothly scaled, is added on top; `None` for none.
    pub glow: Option<Num>,
}

/// Which way a frame goes to a surface.
#[derive(Debug)]
pub enum Plan {
    /// As vector content at the surface's own resolution, clipped to the canvas.
    Vector,
    /// Rendered at the show's own size and drawn as an image.
    Native {
        /// Every canvas pixel becomes a crisp block.
        nearest: bool,
        /// What is laid over it, in order.
        dots: Vec<DotGrid>,
    },
}

/// A [`Plan`], by value.
pub ghost enum Way {
    Vector,
    Native { nearest: bool, dots: Seq<DotGrid> },
}

impl View for Plan {
    type V = Way;

    open spec fn view(&self) -> Way {
        match self {
            Plan::Vector => Way::Vector,
            Plan::Native { nearest, dots } => Way::Native { nearest: *nearest, dots: dots@ },
        }
    }
}

/// The dots as they are laid over a frame.
pub open spec fn dot_grid(dots: Dots) -> DotGrid {
    DotGrid {
        size: dots.size,
        shape: dots.shape,
        unlit: match dots.unlit {
            Some(text) => match color_of(text@) {
                Some(c) => Some([c[0], c[1], c[2], 255]),
                None => None,
            },
            None => None,
        },
        glow: if less(num(0), dots.glow) {
            Some(dots.glow)
        } else {
            None
        },
    }
}

/// Which way a frame goes: full color with smooth scaling stays vector content, so it is sharp
/// at any size. Gray output modes, pixel-perfect scaling and dots are made of canvas pixels.
/// Dots smaller than a few surface pixels are left out.
pub open spec fn planned(mode: OutputMode, scaling: Scaling, passes: Seq<Pass>, scale: Num) -> Way {
    if mode == OutputMode::Rgb && scaling == Scaling::Smooth && passes.len() == 0 {
        Way::Vector
    } else {
        let shown = passes.len() > 0 && at_most(num(LEAST_DOT), scale);
        Way::Native {
            nearest: scaling == Scaling::PixelPerfect || shown,
            dots: if shown {
                dot_grids(passes)
            } else {
                Seq::empty()
            },
        }
    }
}

/// The dots of every pass, in order.
pub open spec fn dot_grids(passes: Seq<Pass>) -> Seq<DotGrid> {
    passes.map_values(
        |pass: Pass|
            match pass {
                Pass::Dots(dots) => dot_grid(dots),
            },
    )
}

fn grid_of(dots: &Dots) -> (r: DotGrid)
    ensures
        r == dot_grid(*dots),
{
    let unlit: Option<[u8; 4]> = match &dots.unlit {
        Some(text) => match parse_color(text.as_str()) {
            Some(c) => Some([c[0], c[1], c[2], 255]),
            None => None,
        },
        None => None,
    };
    let glow: Option<Num> = if num(0).lt(dots.glow) {
        Some(dots.glow)
    } else {
        None
    };
    DotGrid { size: dots.size, shape: dots.shape, unlit, glow }
}

/// Which way a frame goes to a surface, drawn at `scale` surface pixels for a canvas pixel.
pub fn plan(mode: OutputMode, scaling: Scaling, passes: &Vec<Pass>, scale: Num) -> (r: Plan)
    ensures
        r@ == planned(mode, scaling, passes@, scale),
{
    if mode == OutputMode::Rgb && scaling == Scaling::Smooth && passes.len() == 0 {
        return Plan::Vector;
    }
    let mut dots: Vec<DotGrid> = Vec::new();
    let ghost all = dot_grids(passes@);
    // A dot needs a few surface pixels to be one.
    let shown: bool = passes.len() > 0 && num(LEAST_DOT).le(scale);
    if shown {
        let mut i: usize = 0;
        while i < passes.len()
            invariant
                i <= passes.len(),
                all == dot_grids(passes@),
                dots@ == all.take(i as int),
            decreases passes.len() - i,
        {
            match &passes[i] {
                Pass::Dots(own) => {
                    dots.push(grid_of(own));
                },
            }
            i = i + 1;
            assert(dots@ =~= all.take(i as int));
        }
        assert(dots@ =~= all);
    } else {
        assert(dots@ =~= Seq::<DotGrid>::empty());
    }
    Plan::Native { nearest: scaling == Scaling::PixelPerfect || shown, dots }
}

impl State {
    /// The background of the loaded show; opaque black where there is none.
    pub open spec fn background(self) -> [u8; 4] {
        match self.show {
            Some(show) => match color_of(show.background@) {
                Some(color) => color,
                None => [0, 0, 0, 255],
            },
            None => [0, 0, 0, 255],
        }
    }
}

impl Engine {
    /// The loaded show's declared background; opaque black when no show is loaded or the color
    /// string does not parse.
    pub fn background_color(&self) -> (r: [u8; 4])
        ensures
            r == self@.background(),
    {
        match &self.show {
            Some(show) => match parse_color(show.background.as_str()) {
                Some(color) => color,
                None => [0, 0, 0, 255],
            },
            None => [0, 0, 0, 255],
        }
    }

    /// The color for the area around the show: its background, after the show's output
    /// conversion.
    pub fn surround_color(&self) -> (r: [u8; 4])
        ensures
            r == (match resolved_output(self@.output()) {
                Some(color) => color,
                None => full_color(),
            }).converted(self@.background()),
    {
        self.output().apply_pixel(self.background_color())
    }
}

} // verus!
