//! Text drawn with bitmap fonts: styled glyph pages, and text laid out and copied from them.

use crate::font::{kerned, lines_from, lower_case, split, upper_case, BitmapFont, Face};
use crate::font::{is_lower_case, split_text, upper_case_of, line_views, Glyph};
use crate::model::Align;
use crate::num::{floor_of, from_int, num, sum_of, to_i64_of, Num};
use vstd::prelude::*;

verus! {

/// Straight-alpha RGBA8 pixels.
#[derive(Debug, PartialEq, Eq)]
pub struct Rgba {
    pub width: u32,
    pub height: u32,
    pub pixels: Vec<u8>,
}

/// The pixel at a place of an image; transparent outside it.
pub open spec fn pixel(width: u32, height: u32, pixels: Seq<u8>, x: int, y: int) -> [u8; 4] {
    let i = 4 * (y * width + x);
    if 0 <= x < width && 0 <= y < height && i + 4 <= pixels.len() {
        [pixels[i], pixels[i + 1], pixels[i + 2], pixels[i + 3]]
    } else {
        [0, 0, 0, 0]
    }
}

/// The pixels with one of them set; nothing outside the image.
pub open spec fn with_pixel(
    width: u32,
    height: u32,
    pixels: Seq<u8>,
    x: int,
    y: int,
    px: [u8; 4],
) -> Seq<u8> {
    let i = 4 * (y * width + x);
    if 0 <= x < width && 0 <= y < height && i + 4 <= pixels.len() {
        pixels.update(i, px[0]).update(i + 1, px[1]).update(i + 2, px[2]).update(i + 3, px[3])
    } else {
        pixels
    }
}

/// A color laid over another, straight alpha.
pub open spec fn over(src: [u8; 4], dst: [u8; 4]) -> [u8; 4] {
    let sa = src[3] as int;
    let da = (dst[3] as int * (255 - sa)) / 255;
    let a = sa + da;
    [
        ((src[0] * sa + dst[0] * da) / a) as u8,
        ((src[1] * sa + dst[1] * da) / a) as u8,
        ((src[2] * sa + dst[2] * da) / a) as u8,
        a as u8,
    ]
}

/// The pixels with a color laid over one of them.
pub open spec fn blended(
    width: u32,
    height: u32,
    pixels: Seq<u8>,
    x: int,
    y: int,
    src: [u8; 4],
) -> Seq<u8> {
    if src[3] == 0 {
        pixels
    } else if src[3] == 255 {
        with_pixel(width, height, pixels, x, y, src)
    } else {
        with_pixel(
            width,
            height,
            pixels,
            x,
            y,
            over(src, pixel(width, height, pixels, x, y)),
        )
    }
}

/// What was set at a place is read there, and everywhere else what was there.
pub proof fn lemma_set_get(
    width: u32,
    height: u32,
    pixels: Seq<u8>,
    x: int,
    y: int,
    px: [u8; 4],
    a: int,
    b: int,
)
    requires
        0 <= x < width,
        0 <= y < height,
        pixels.len() == 4 * (width * height),
        0 <= a < width,
        0 <= b < height,
    ensures
        pixel(width, height, with_pixel(width, height, pixels, x, y, px), x, y) == px,
        (a, b) != (x, y) ==> pixel(
            width,
            height,
            with_pixel(width, height, pixels, x, y, px),
            a,
            b,
        ) == pixel(width, height, pixels, a, b),
{
    let w = width as int;
    let h = height as int;
    assert(0 <= y * w + x < w * h) by (nonlinear_arith)
        requires
            0 <= x < w,
            0 <= y < h,
    ;
    assert(0 <= b * w + a < w * h) by (nonlinear_arith)
        requires
            0 <= a < w,
            0 <= b < h,
    ;
    if (a, b) != (x, y) {
        assert(b * w + a != y * w + x) by (nonlinear_arith)
            requires
                0 <= x < w,
                0 <= a < w,
                a != x || b != y,
        ;
    }
    assert([px[0], px[1], px[2], px[3]] =~= px);
}

impl Rgba {
    /// The pixel at a place; transparent outside the image.
    pub open spec fn at(self, x: int, y: int) -> [u8; 4] {
        pixel(self.width, self.height, self.pixels@, x, y)
    }

    /// A fully transparent image.
    pub fn transparent(width: u32, height: u32) -> (r: Rgba)
        requires
            4 * (width * height) <= usize::MAX,
        ensures
            r.width == width,
            r.height == height,
            r.pixels@ == Seq::new((4 * (width * height)) as nat, |i: int| 0u8),
    {
        assert(width * height >= 0) by (nonlinear_arith)
            requires
                width >= 0,
                height >= 0,
        ;
        let n: usize = 4 * (width as usize * height as usize);
        let pixels: Vec<u8> = vec![0u8; n];
        assert(pixels@ =~= Seq::new((4 * (width * height)) as nat, |i: int| 0u8));
        Rgba { width, height, pixels }
    }

    /// Where a pixel's bytes start, if it is in the image.
    fn index(&self, x: i64, y: i64) -> (r: Option<usize>)
        ensures
            match r {
                Some(i) => 0 <= x < self.width && 0 <= y < self.height && i == 4 * (y * self.width
                    + x) && i + 4 <= self.pixels@.len(),
                None => !(0 <= x < self.width && 0 <= y < self.height && 4 * (y * self.width + x)
                    + 4 <= self.pixels@.len()),
            },
    {
        if x < 0 || y < 0 || x >= self.width as i64 || y >= self.height as i64 {
            return None;
        }
        assert(0 <= y * self.width <= 0xFFFF_FFFF * 0xFFFF_FFFF) by (nonlinear_arith)
            requires
                0 <= y <= 0xFFFF_FFFF,
                0 <= self.width <= 0xFFFF_FFFF,
        ;
        let i: u128 = 4 * (y as u128 * self.width as u128 + x as u128);
        if i + 4 <= self.pixels.len() as u128 {
            Some(i as usize)
        } else {
            None
        }
    }

    pub fn get(&self, x: i64, y: i64) -> (r: [u8; 4])
        ensures
            r == self.at(x as int, y as int),
    {
        match self.index(x, y) {
            Some(i) => [self.pixels[i], self.pixels[i + 1], self.pixels[i + 2], self.pixels[i + 3]],
            None => [0, 0, 0, 0],
        }
    }

    pub fn set(&mut self, x: i64, y: i64, px: [u8; 4])
        ensures
            final(self).width == old(self).width,
            final(self).height == old(self).height,
            final(self).pixels@ == with_pixel(
                old(self).width,
                old(self).height,
                old(self).pixels@,
                x as int,
                y as int,
                px,
            ),
    {
        match self.index(x, y) {
            Some(i) => {
                self.pixels.set(i, px[0]);
                self.pixels.set(i + 1, px[1]);
                self.pixels.set(i + 2, px[2]);
                self.pixels.set(i + 3, px[3]);
            },
            None => {},
        }
    }

    /// Composite `src` over the pixel at (x, y), straight alpha.
    pub fn blend(&mut self, x: i64, y: i64, src: [u8; 4])
        ensures
            final(self).width == old(self).width,
            final(self).height == old(self).height,
            final(self).pixels@ == blended(
                old(self).width,
                old(self).height,
                old(self).pixels@,
                x as int,
                y as int,
                src,
            ),
    {
        let sa: u32 = src[3] as u32;
        if sa == 0 {
            return ;
        }
        if sa == 255 {
            self.set(x, y, src);
            return ;
        }
        let dst = self.get(x, y);
        assert(dst[3] * (255 - sa) <= 255 * 255) by (nonlinear_arith)
            requires
                0 <= dst[3] <= 255,
                0 <= 255 - sa <= 255,
        ;
        assert(0 <= dst[3] * (255 - sa)) by (nonlinear_arith)
            requires
                0 <= dst[3],
                0 <= 255 - sa,
        ;
        let da: u32 = dst[3] as u32 * (255 - sa) / 255;
        assert(da <= 255 - sa) by (nonlinear_arith)
            requires
                da == (dst[3] * (255 - sa)) / 255,
                dst[3] <= 255,
                255 - sa >= 0,
        ;
        let a: u32 = sa + da;
        let r: u8 = mixed(src[0], sa, dst[0], da);
        let g: u8 = mixed(src[1], sa, dst[1], da);
        let b: u8 = mixed(src[2], sa, dst[2], da);
        self.set(x, y, [r, g, b, a as u8]);
    }
}

fn mixed(s: u8, sa: u32, d: u8, da: u32) -> (r: u8)
    requires
        0 < sa,
        sa + da <= 255,
    ensures
        r == ((s * sa + d * da) / (sa + da) as int) as u8,
{
    assert(0 <= s * sa <= 255 * sa) by (nonlinear_arith)
        requires
            0 <= s <= 255,
            0 <= sa,
    ;
    assert(0 <= d * da <= 255 * da) by (nonlinear_arith)
        requires
            0 <= d <= 255,
            0 <= da,
    ;
    let total: u32 = s as u32 * sa + d as u32 * da;
    assert(total as int / (sa + da) as int <= 255) by (nonlinear_arith)
        requires
            total <= 255 * sa + 255 * da,
            sa + da > 0,
            total >= 0,
    ;
    (total / (sa + da)) as u8
}

/// One channel of a glyph, tinted.
pub open spec fn tinted(c: u8, t: u8) -> u8 {
    ((c * t) / 255) as u8
}

/// Whether a glyph pixel lies within `reach` of a place, in a square around it.
pub open spec fn near_ink(page: Rgba, x: int, y: int, reach: int) -> bool {
    exists|a: int, b: int|
        x - reach <= a <= x + reach && y - reach <= b <= y + reach && #[trigger] page.at(
            a,
            b,
        )[3] != 0
}

/// The pixel of a styled page: glyph colors tinted, and the border's color round them.
pub open spec fn styled_pixel(
    page: Rgba,
    color: [u8; 3],
    border: Option<([u8; 3], u32)>,
    x: int,
    y: int,
) -> [u8; 4] {
    let px = page.at(x, y);
    if px[3] != 0 {
        [tinted(px[0], color[0]), tinted(px[1], color[1]), tinted(px[2], color[2]), px[3]]
    } else {
        match border {
            Some((c, width)) => if near_ink(page, x, y, width as int) {
                [c[0], c[1], c[2], 255]
            } else {
                [0, 0, 0, 0]
            },
            None => [0, 0, 0, 0],
        }
    }
}

pub(crate) fn tint(c: u8, t: u8) -> (r: u8)
    ensures
        r == tinted(c, t),
{
    assert(0 <= c * t <= 255 * 255) by (nonlinear_arith)
        requires
            0 <= c <= 255,
            0 <= t <= 255,
    ;
    (c as u32 * t as u32 / 255) as u8
}

/// Pixels multiplied by a color, channel by channel.
pub open spec fn stained_bytes(pixels: Seq<u8>, color: [u8; 4]) -> Seq<u8> {
    Seq::new(pixels.len(), |i: int| tinted(pixels[i], color[i % 4]))
}

impl Rgba {
    /// The image multiplied by a color, channel by channel.
    pub fn stained(self, color: [u8; 4]) -> (r: Rgba)
        ensures
            r.width == self.width,
            r.height == self.height,
            r.pixels@ == stained_bytes(self.pixels@, color),
    {
        let ghost all = stained_bytes(self.pixels@, color);
        let mut pixels: Vec<u8> = Vec::new();
        let mut i: usize = 0;
        while i < self.pixels.len()
            invariant
                i <= self.pixels.len(),
                all == stained_bytes(self.pixels@, color),
                pixels@ == all.take(i as int),
            decreases self.pixels.len() - i,
        {
            pixels.push(tint(self.pixels[i], color[i % 4]));
            i = i + 1;
            assert(pixels@ =~= all.take(i as int));
        }
        assert(pixels@ =~= all);
        Rgba { width: self.width, height: self.height, pixels }
    }
}

fn has_ink_near(page: &Rgba, x: u32, y: u32, reach: u32) -> (r: bool)
    requires
        x < page.width,
        y < page.height,
    ensures
        r == near_ink(*page, x as int, y as int, reach as int),
{
    let x0: i64 = if x > reach {
        (x - reach) as i64
    } else {
        0
    };
    let y0: i64 = if y > reach {
        (y - reach) as i64
    } else {
        0
    };
    let far_x: i64 = x as i64 + reach as i64;
    let far_y: i64 = y as i64 + reach as i64;
    let x1: i64 = if far_x < page.width as i64 {
        far_x
    } else {
        page.width as i64 - 1
    };
    let y1: i64 = if far_y < page.height as i64 {
        far_y
    } else {
        page.height as i64 - 1
    };
    let mut b: i64 = y0;
    while b <= y1
        invariant
            0 <= y0 <= b <= y1 + 1,
            y1 < page.height,
            x1 < page.width,
            0 <= x0,
            x0 <= x1 + 1,
            x - reach <= x0,
            x1 <= x + reach,
            y - reach <= y0,
            y1 <= y + reach,
            forall|i: int, j: int|
                x0 <= i <= x1 && y0 <= j < b ==> (#[trigger] page.at(i, j))[3] == 0,
        decreases y1 + 1 - b,
    {
        let mut a: i64 = x0;
        while a <= x1
            invariant
                0 <= y0 <= b <= y1,
                y1 < page.height,
                x1 < page.width,
                0 <= x0 <= a <= x1 + 1,
                x - reach <= x0,
                x1 <= x + reach,
                y - reach <= y0,
                y1 <= y + reach,
                forall|i: int, j: int|
                    x0 <= i <= x1 && y0 <= j < b ==> (#[trigger] page.at(i, j))[3] == 0,
                forall|i: int| x0 <= i < a ==> (#[trigger] page.at(i, b as int))[3] == 0,
            decreases x1 + 1 - a,
        {
            if page.get(a, b)[3] != 0 {
                assert(page.at(a as int, b as int)[3] != 0);
                return true;
            }
            a = a + 1;
        }
        b = b + 1;
    }
    proof {
        if near_ink(*page, x as int, y as int, reach as int) {
            let (i, j) = choose|i: int, j: int|
                x - reach <= i <= x + reach && y - reach <= j <= y + reach && #[trigger] page.at(
                    i,
                    j,
                )[3] != 0;
            assert(0 <= i < page.width && 0 <= j < page.height);
            assert(x0 <= i <= x1 && y0 <= j <= y1);
        }
    }
    false
}

/// A registered font with its styled page images: glyph colors tinted, optionally surrounded
/// by a border.
#[derive(Debug)]
pub struct StyledFont<'a> {
    font: &'a BitmapFont,
    pages: Vec<Rgba>,
    /// Extra advance per glyph: a border widens every glyph by two border widths.
    extra_advance: i32,
}

/// A styled font, by value.
pub ghost struct Styled {
    pub face: Face,
    /// The width and height of each page.
    pub sizes: Seq<(u32, u32)>,
    /// The pixel at each place of each page.
    pub pages: Seq<spec_fn(int, int) -> [u8; 4]>,
    pub extra: i32,
}

/// The widths and heights of some images.
pub open spec fn sizes_of(pages: Seq<Rgba>) -> Seq<(u32, u32)> {
    pages.map_values(|page: Rgba| (page.width, page.height))
}

/// The pixels of an image, by place.
pub open spec fn look_of(page: Rgba) -> spec_fn(int, int) -> [u8; 4] {
    |x: int, y: int| page.at(x, y)
}

/// The pixels of the styled form of a page; transparent outside it.
pub open spec fn styled_look(page: Rgba, color: [u8; 3], border: Option<([u8; 3], u32)>) -> spec_fn(
    int,
    int,
) -> [u8; 4] {
    |x: int, y: int|
        if 0 <= x < page.width && 0 <= y < page.height {
            styled_pixel(page, color, border, x, y)
        } else {
            [0, 0, 0, 0]
        }
}

/// A font in a color, with or without a border.
pub open spec fn dressed(
    face: Face,
    pages: Seq<Rgba>,
    color: [u8; 3],
    border: Option<([u8; 3], u32)>,
) -> Styled {
    Styled {
        face,
        sizes: sizes_of(pages),
        pages: Seq::new(pages.len(), |i: int| styled_look(pages[i], color, border)),
        extra: extra_for(border),
    }
}

impl<'a> View for StyledFont<'a> {
    type V = Styled;

    closed spec fn view(&self) -> Styled {
        Styled {
            face: self.font@,
            sizes: sizes_of(self.pages@),
            pages: Seq::new(self.pages@.len(), |i: int| look_of(self.pages@[i])),
            extra: self.extra_advance,
        }
    }
}

/// A page is the styled form of another.
pub open spec fn is_styled(
    out: Rgba,
    page: Rgba,
    color: [u8; 3],
    border: Option<([u8; 3], u32)>,
) -> bool {
    &&& out.width == page.width
    &&& out.height == page.height
    &&& out.pixels@.len() == 4 * (page.width * page.height)
    &&& forall|x: int, y: int|
        0 <= x < page.width && 0 <= y < page.height ==> #[trigger] out.at(x, y) == styled_pixel(
            page,
            color,
            border,
            x,
            y,
        )
}

fn style_page(page: &Rgba, color: [u8; 3], border: Option<([u8; 3], u32)>) -> (out: Rgba)
    ensures
        is_styled(out, *page, color, border),
{
    let mut pixels: Vec<u8> = Vec::new();
    let width: u32 = page.width;
    let height: u32 = page.height;
    let ghost w = width as int;
    let mut y: u32 = 0;
    assert(0 * w == 0) by (nonlinear_arith);
    while y < height
        invariant
            y <= height,
            width == page.width,
            height == page.height,
            w == width,
            pixels@.len() == 4 * (y * w),
            forall|a: int, b: int|
                0 <= a < w && 0 <= b < y ==> #[trigger] pixel(width, height, pixels@, a, b)
                    == styled_pixel(*page, color, border, a, b),
        decreases height - y,
    {
        let mut x: u32 = 0;
        proof {
            assert forall|a: int, b: int|
                0 <= a < w && 0 <= b < height && b * w + a < y * w implies #[trigger] pixel(
                width,
                height,
                pixels@,
                a,
                b,
            ) == styled_pixel(*page, color, border, a, b) by {
                assert(b < y) by (nonlinear_arith)
                    requires
                        b * w + a < y * w,
                        0 <= a < w,
                ;
            }
        }
        while x < width
            invariant
                x <= width,
                y < height,
                width == page.width,
                height == page.height,
                w == width,
                pixels@.len() == 4 * (y * w + x),
                forall|a: int, b: int|
                    0 <= a < w && 0 <= b < height && b * w + a < y * w + x ==> #[trigger] pixel(
                        width,
                        height,
                        pixels@,
                        a,
                        b,
                    ) == styled_pixel(*page, color, border, a, b),
                forall|a: int, b: int|
                    0 <= a < w && 0 <= b < y ==> #[trigger] pixel(width, height, pixels@, a, b)
                        == styled_pixel(*page, color, border, a, b),
            decreases width - x,
        {
            let px = page.get(x as i64, y as i64);
            let out: [u8; 4] = if px[3] != 0 {
                [tint(px[0], color[0]), tint(px[1], color[1]), tint(px[2], color[2]), px[3]]
            } else {
                match border {
                    Some((c, reach)) => {
                        if has_ink_near(page, x, y, reach) {
                            [c[0], c[1], c[2], 255]
                        } else {
                            [0, 0, 0, 0]
                        }
                    },
                    None => [0, 0, 0, 0],
                }
            };
            let ghost was = pixels@;
            pixels.push(out[0]);
            pixels.push(out[1]);
            pixels.push(out[2]);
            pixels.push(out[3]);
            proof {
                assert([out[0], out[1], out[2], out[3]] =~= out);
                let at = y * w + x;
                assert forall|a: int, b: int|
                    0 <= a < w && 0 <= b < height && b * w + a < y * w + (x
                        + 1) implies #[trigger] pixel(width, height, pixels@, a, b)
                    == styled_pixel(*page, color, border, a, b) by {
                    assert(b * w >= 0) by (nonlinear_arith)
                        requires
                            b >= 0,
                            w >= 0,
                    ;
                    if b * w + a < at {
                        assert(pixel(width, height, was, a, b) == styled_pixel(
                            *page,
                            color,
                            border,
                            a,
                            b,
                        ));
                    } else {
                        assert(b * w + a == at);
                        assert(a == x && b == y) by (nonlinear_arith)
                            requires
                                b * w + a == y * w + x,
                                0 <= a < w,
                                0 <= x < w,
                        ;
                    }
                }
                assert forall|a: int, b: int| 0 <= a < w && 0 <= b < y implies #[trigger] pixel(
                    width,
                    height,
                    pixels@,
                    a,
                    b,
                ) == styled_pixel(*page, color, border, a, b) by {
                    assert(b * w + a < y * w + x) by (nonlinear_arith)
                        requires
                            0 <= a < w,
                            b + 1 <= y,
                            x >= 0,
                    ;
                }
            }
            x = x + 1;
        }
        proof {
            assert((y + 1) * w == y * w + w) by (nonlinear_arith);
            assert forall|a: int, b: int| 0 <= a < w && 0 <= b < y + 1 implies #[trigger] pixel(
                width,
                height,
                pixels@,
                a,
                b,
            ) == styled_pixel(*page, color, border, a, b) by {
                assert(b * w + a < y * w + w) by (nonlinear_arith)
                    requires
                        0 <= a < w,
                        b <= y,
                ;
            }
        }
        y = y + 1;
    }
    assert(y * w == w * height) by (nonlinear_arith)
        requires
            y == height,
    ;
    let out = Rgba { width, height, pixels };
    proof {
        assert forall|x: int, y: int|
            0 <= x < page.width && 0 <= y < page.height implies #[trigger] out.at(x, y)
            == styled_pixel(*page, color, border, x, y) by {
            assert(out.at(x, y) == pixel(width, height, pixels@, x, y));
        }
    }
    out
}

impl Styled {
    /// The glyph drawn for a character: the character itself, else its upper case form, else a
    /// space.
    pub open spec fn glyph(self, c: char) -> Option<Glyph> {
        let up = if lower_case(c) {
            upper_case(c)
        } else {
            None
        };
        if self.face.glyphs.contains_key(c) {
            Some(self.face.glyphs[c])
        } else if up is Some && self.face.glyphs.contains_key(up->0) {
            Some(self.face.glyphs[up->0])
        } else if self.face.glyphs.contains_key(' ') {
            Some(self.face.glyphs[' '])
        } else {
            None
        }
    }

    /// How far a character moves the pen behind another one.
    pub open spec fn advance(self, previous: char, c: char) -> int {
        match self.glyph(c) {
            Some(g) => g.xadvance + self.extra + kerned(self.face, previous, c),
            None => 0,
        }
    }

    /// Where the pen stands before character `n` of a line.
    pub open spec fn pen(self, line: Seq<char>, n: nat) -> int
        decreases n,
    {
        if n == 0 || n > line.len() {
            0
        } else {
            self.pen(line, (n - 1) as nat) + self.advance(before(line, n - 1), line[n - 1])
        }
    }

    pub open spec fn line_width(self, line: Seq<char>) -> int {
        self.pen(line, line.len())
    }

    /// The widest of the first `n` lines.
    pub open spec fn widest(self, lines: Seq<Seq<char>>, n: nat) -> int
        decreases n,
    {
        if n <= 1 || n > lines.len() {
            self.line_width(lines[0])
        } else {
            let w = self.widest(lines, (n - 1) as nat);
            let l = self.line_width(lines[n - 1]);
            if l > w {
                l
            } else {
                w
            }
        }
    }

    /// The tallest of a line height and the first `n` glyphs of a line.
    pub open spec fn tallest(self, line: Seq<char>, n: nat) -> int
        decreases n,
    {
        if n == 0 || n > line.len() {
            self.face.line_height as int
        } else {
            let t = self.tallest(line, (n - 1) as nat);
            match self.glyph(line[n - 1]) {
                Some(g) => if g.height + g.yoffset > t {
                    g.height + g.yoffset
                } else {
                    t
                },
                None => t,
            }
        }
    }

    /// The size of a text block.
    pub open spec fn block(self, text: Seq<char>) -> (int, int) {
        if text.len() == 0 {
            (0, 0)
        } else {
            let lines = text_lines(text);
            let last = lines.last();
            (
                self.widest(lines, lines.len()),
                (lines.len() - 1) * self.face.line_height + self.tallest(last, last.len()),
            )
        }
    }
}

/// The character before the one at `i`; a space before the first.
pub open spec fn before(line: Seq<char>, i: int) -> char {
    if i > 0 {
        line[i - 1]
    } else {
        ' '
    }
}

/// A line without the carriage return at its end.
pub open spec fn bare(line: Seq<char>) -> Seq<char> {
    if line.len() > 0 && line.last() == '\r' {
        line.drop_last()
    } else {
        line
    }
}

/// How many line feeds there are in a text, from `from` on.
pub open spec fn feeds(text: Seq<char>, from: int) -> nat
    decreases text.len() - from,
{
    if from < 0 || from >= text.len() {
        0
    } else if text[from] == '\n' {
        1 + feeds(text, from + 1)
    } else {
        feeds(text, from + 1)
    }
}

proof fn lemma_lines_counted(text: Seq<char>, start: int, pos: int)
    requires
        0 <= pos <= text.len(),
    ensures
        lines_from(text, start, pos).len() == feeds(text, pos) + 1,
    decreases text.len() - pos,
{
    if pos < text.len() {
        if text[pos] == '\n' {
            lemma_lines_counted(text, pos + 1, pos + 1);
        } else {
            lemma_lines_counted(text, start, pos + 1);
        }
    }
}

proof fn lemma_lines_behind(s: Seq<char>, o: int, b: Seq<char>, start: int, pos: int)
    requires
        0 <= o <= s.len(),
        b == s.skip(o),
        0 <= start <= pos <= b.len(),
    ensures
        lines_from(s, o + start, o + pos) == lines_from(b, start, pos),
    decreases b.len() - pos,
{
    if pos < b.len() {
        assert(b[pos] == s[o + pos]);
        if b[pos] == '\n' {
            lemma_lines_behind(s, o, b, pos + 1, pos + 1);
            assert(b.subrange(start, pos) =~= s.subrange(o + start, o + pos));
        } else {
            lemma_lines_behind(s, o, b, start, pos + 1);
        }
    } else {
        assert(b.subrange(start, b.len() as int) =~= s.subrange(o + start, s.len() as int));
    }
}

proof fn lemma_lines_joined(a: Seq<char>, b: Seq<char>, start: int, pos: int)
    requires
        0 <= start <= pos <= a.len(),
    ensures
        lines_from(a + seq!['\n'] + b, start, pos) == lines_from(a, start, pos) + split(b),
    decreases a.len() - pos,
{
    let s = a + seq!['\n'] + b;
    if pos < a.len() {
        assert(s[pos] == a[pos]);
        if a[pos] == '\n' {
            lemma_lines_joined(a, b, pos + 1, pos + 1);
            assert(s.subrange(start, pos) =~= a.subrange(start, pos));
            assert(lines_from(s, start, pos) =~= lines_from(a, start, pos) + split(b));
        } else {
            lemma_lines_joined(a, b, start, pos + 1);
        }
    } else {
        let o: int = a.len() as int + 1;
        assert(s[pos] == '\n');
        assert(b =~= s.skip(o));
        lemma_lines_behind(s, o, b, 0, 0);
        assert(s.subrange(start, pos) =~= a.subrange(start, a.len() as int));
        assert(lines_from(s, start, pos) =~= lines_from(a, start, pos) + split(b));
    }
}

/// The last line of a text is the end of the text.
proof fn lemma_last_line(s: Seq<char>, start: int, pos: int)
    requires
        0 <= start <= pos <= s.len(),
    ensures
        lines_from(s, start, pos).len() > 0,
        lines_from(s, start, pos).last().len() > 0 ==> lines_from(s, start, pos).last().last()
            == s.last(),
    decreases s.len() - pos,
{
    if pos < s.len() {
        if s[pos] == '\n' {
            lemma_last_line(s, pos + 1, pos + 1);
        } else {
            lemma_last_line(s, start, pos + 1);
        }
    }
}

/// A carriage return at the end of a text is at the end of its last line.
proof fn lemma_return_joins_last(a: Seq<char>, start: int, pos: int)
    requires
        0 <= start <= pos <= a.len(),
    ensures
        ({
            let all = lines_from(a, start, pos);
            lines_from(a.push('\r'), start, pos) == all.drop_last().push(all.last().push('\r'))
        }),
    decreases a.len() - pos,
{
    let s = a.push('\r');
    let all = lines_from(a, start, pos);
    lemma_last_line(a, start, pos);
    if pos < a.len() {
        assert(s[pos] == a[pos]);
        if a[pos] == '\n' {
            lemma_return_joins_last(a, pos + 1, pos + 1);
            lemma_last_line(a, pos + 1, pos + 1);
            assert(s.subrange(start, pos) =~= a.subrange(start, pos));
            assert(lines_from(s, start, pos) =~= all.drop_last().push(all.last().push('\r')));
        } else {
            lemma_return_joins_last(a, start, pos + 1);
        }
    } else {
        assert(s[pos] == '\r');
        assert(lines_from(s, start, pos) == lines_from(s, start, pos + 1));
        assert(s.subrange(start, s.len() as int) =~= a.subrange(start, a.len() as int).push('\r'));
        assert(lines_from(s, start, pos) =~= all.drop_last().push(all.last().push('\r')));
    }
}

impl Styled {
    proof fn lemma_widest_joined(self, a: Seq<Seq<char>>, b: Seq<Seq<char>>, n: nat)
        requires
            a.len() > 0,
            0 < n <= b.len(),
        ensures
            self.widest(a + b, a.len()) == self.widest(a, a.len()),
            self.widest(a + b, a.len() + n) == (if self.widest(b, n) > self.widest(a, a.len()) {
                self.widest(b, n)
            } else {
                self.widest(a, a.len())
            }),
        decreases n,
    {
        self.lemma_widest_start(a, b, a.len());
        assert((a + b)[(a.len() + n - 1) as int] == b[n - 1]);
        if n > 1 {
            self.lemma_widest_joined(a, b, (n - 1) as nat);
        }
    }

    proof fn lemma_widest_start(self, a: Seq<Seq<char>>, b: Seq<Seq<char>>, n: nat)
        requires
            0 < n <= a.len(),
        ensures
            self.widest(a + b, n) == self.widest(a, n),
        decreases n,
    {
        assert((a + b)[n - 1] == a[n - 1]);
        assert((a + b)[0] == a[0]);
        if n > 1 {
            self.lemma_widest_start(a, b, (n - 1) as nat);
        }
    }
}

/// Two texts one below the other are as wide as the wider one. Every line of the upper one
/// takes a line height, and the lower one takes what it takes alone: a line height where it is
/// empty. A carriage return before the line feed changes nothing.
pub proof fn lemma_joined_block(styled: Styled, a: Seq<char>, b: Seq<char>)
    ensures
        ({
            let joined = styled.block(a + seq!['\n'] + b);
            let upper = styled.block(a);
            let lower = styled.block(b);
            let high = styled.face.line_height as int;
            &&& joined.0 == (if lower.0 > upper.0 {
                lower.0
            } else {
                upper.0
            })
            &&& joined.1 == (feeds(a, 0) + 1) * high + (if b.len() == 0 {
                high
            } else {
                lower.1
            })
            &&& a.len() == 0 || a.last() != '\r' ==> styled.block(a + seq!['\r', '\n'] + b)
                == joined
        }),
{
    let s = a + seq!['\n'] + b;
    let high = styled.face.line_height as int;
    let upper = text_lines(a);
    let lower = text_lines(b);
    lemma_lines_joined(a, b, 0, 0);
    lemma_lines_counted(a, 0, 0);
    lemma_lines_counted(b, 0, 0);
    assert(text_lines(s) =~= upper + lower);
    styled.lemma_widest_joined(upper, lower, lower.len());
    assert(text_lines(s).last() == lower.last());
    let n = lower.len() as int;
    let m = upper.len() as int;
    assert((m + n - 1) * high == m * high + (n - 1) * high) by (nonlinear_arith);
    if a.len() == 0 {
        assert(upper[0].len() == 0);
        assert(styled.widest(upper, 1) == 0);
    }
    if b.len() == 0 {
        assert(lower[0].len() == 0);
        assert(styled.widest(lower, 1) == 0);
        assert((n - 1) * high == 0) by (nonlinear_arith)
            requires
                n == 1,
        ;
    }
    if a.len() == 0 || a.last() != '\r' {
        let returned = a.push('\r');
        let t = a + seq!['\r', '\n'] + b;
        assert(t =~= returned + seq!['\n'] + b);
        lemma_lines_joined(returned, b, 0, 0);
        lemma_return_joins_last(a, 0, 0);
        lemma_last_line(a, 0, 0);
        let last = split(a).last();
        assert(last.push('\r').drop_last() =~= last);
        assert(bare(last.push('\r')) == bare(last));
        assert(text_lines(returned) =~= upper);
        assert(text_lines(t) =~= text_lines(s));
    }
}

/// How many of the first `n` characters of a line have a glyph.
pub open spec fn with_glyph(styled: Styled, line: Seq<char>, n: nat) -> nat
    decreases n,
{
    if n == 0 || n > line.len() {
        0
    } else {
        with_glyph(styled, line, (n - 1) as nat) + (if styled.glyph(line[n - 1]) is Some {
            1nat
        } else {
            0nat
        })
    }
}

proof fn lemma_border_moves_pen(plain: Styled, bordered: Styled, w: int, line: Seq<char>, n: nat)
    requires
        bordered.face == plain.face,
        bordered.extra == plain.extra + 2 * w,
        n <= line.len(),
    ensures
        bordered.pen(line, n) == plain.pen(line, n) + 2 * w * with_glyph(plain, line, n),
    decreases n,
{
    if n > 0 {
        lemma_border_moves_pen(plain, bordered, w, line, (n - 1) as nat);
        let k = with_glyph(plain, line, (n - 1) as nat) as int;
        assert(2 * w * (k + 1) == 2 * w * k + 2 * w) by (nonlinear_arith);
        assert(bordered.glyph(line[n - 1]) == plain.glyph(line[n - 1]));
    } else {
        assert(2 * w * 0 == 0) by (nonlinear_arith);
    }
}

proof fn lemma_border_keeps_height(plain: Styled, bordered: Styled, line: Seq<char>, n: nat)
    requires
        bordered.face == plain.face,
    ensures
        bordered.tallest(line, n) == plain.tallest(line, n),
    decreases n,
{
    if 0 < n <= line.len() {
        lemma_border_keeps_height(plain, bordered, line, (n - 1) as nat);
        assert(bordered.glyph(line[n - 1]) == plain.glyph(line[n - 1]));
    }
}

/// A border widens a line by two border widths for every glyph in it, and makes no text
/// taller.
pub proof fn lemma_border_widens(
    face: Face,
    pages: Seq<Rgba>,
    color: [u8; 3],
    edge: [u8; 3],
    width: u32,
    line: Seq<char>,
)
    requires
        width <= 0x3FFF_FFFF,
    ensures
        ({
            let plain = dressed(face, pages, color, None);
            let bordered = dressed(face, pages, color, Some((edge, width)));
            &&& bordered.line_width(line) == plain.line_width(line) + 2 * width * with_glyph(
                plain,
                line,
                line.len(),
            )
            &&& bordered.block(line).1 == plain.block(line).1
        }),
{
    let plain = dressed(face, pages, color, None);
    let bordered = dressed(face, pages, color, Some((edge, width)));
    lemma_border_moves_pen(plain, bordered, width as int, line, line.len());
    if line.len() > 0 {
        let last = text_lines(line).last();
        lemma_border_keeps_height(plain, bordered, last, last.len());
    }
}

/// The lines of a text.
pub open spec fn text_lines(text: Seq<char>) -> Seq<Seq<char>> {
    split(text).map_values(|l: Seq<char>| bare(l))
}

pub(crate) fn split_lines(text: &str) -> (r: Vec<Vec<char>>)
    ensures
        line_views(r@) == text_lines(text@),
        r@.len() > 0,
{
    let raw = split_text(text);
    let ghost all = text_lines(text@);
    let mut out: Vec<Vec<char>> = Vec::new();
    let mut i: usize = 0;
    assert(line_views(out@) =~= all.take(0));
    while i < raw.len()
        invariant
            i <= raw.len(),
            line_views(raw@) == split(text@),
            all == text_lines(text@),
            out@.len() == i,
            line_views(out@) == all.take(i as int),
        decreases raw.len() - i,
    {
        assert(split(text@)[i as int] == raw@[i as int]@);
        let n: usize = raw[i].len();
        let line = if n > 0 && raw[i][n - 1] == '\r' {
            let cut = crate::font::part(&raw[i], 0, n - 1);
            assert(cut@ =~= raw@[i as int]@.drop_last());
            cut
        } else {
            let same = crate::font::part(&raw[i], 0, n);
            assert(same@ =~= raw@[i as int]@);
            same
        };
        let ghost was = line_views(out@);
        out.push(line);
        i = i + 1;
        assert(line_views(out@) =~= was.push(line@));
        assert(line_views(out@) =~= all.take(i as int));
    }
    assert(all.take(i as int) =~= all);
    out
}

/// A glyph to be copied, and where its top-left corner goes.
#[derive(Clone, Copy, Debug, PartialEq, Eq, Structural)]
pub struct Stamp {
    pub x: i128,
    pub y: i128,
    pub glyph: Glyph,
}

/// Truncated to 32 bits, held within their range.
pub open spec fn to_i32_of(n: Num) -> int {
    let v = to_i64_of(n) as int;
    if v > i32::MAX {
        i32::MAX as int
    } else if v < i32::MIN {
        i32::MIN as int
    } else {
        v
    }
}

fn to_i32(n: Num) -> (r: i128)
    ensures
        r == to_i32_of(n),
        i32::MIN <= r <= i32::MAX,
{
    let v: i64 = n.to_i64();
    if v > i32::MAX as i64 {
        i32::MAX as i128
    } else if v < i32::MIN as i64 {
        i32::MIN as i128
    } else {
        v as i128
    }
}

/// Whether a glyph covers any pixels.
pub open spec fn draws(g: Glyph) -> bool {
    g.width > 0 && g.height > 0
}

/// The box text is laid out in, and how.
pub ghost struct Setting {
    pub width: Num,
    pub height: Num,
    pub align: Align,
    /// Where the block starts.
    pub x: Num,
    pub y: Num,
    /// Whether every line is aligned on its own.
    pub per_line: bool,
}

/// A finished bitmap of text.
pub ghost struct Raster {
    pub width: u32,
    pub height: u32,
    pub pixels: Seq<u8>,
    /// The top-left corner from the container's origin.
    pub left: int,
    pub top: int,
    pub container: (Num, Num),
}

impl Styled {
    /// How a text is laid out in a container, or in its own size.
    pub open spec fn setting(self, text: Seq<char>, container: Option<[Num; 2]>, align: Align) -> Setting {
        let (w, h) = self.block(text);
        let width = match container {
            Some(c) => c[0],
            None => from_int(w),
        };
        let height = match container {
            Some(c) => c[1],
            None => from_int(h),
        };
        Setting {
            width,
            height,
            align,
            x: Align::start(align.left(), align.right(), from_int(w), width),
            y: Align::start(align.top(), align.bottom(), from_int(h), height),
            per_line: text_lines(text).len() > 1 && !align.left(),
        }
    }

    /// Where a line starts.
    pub open spec fn line_x(self, set: Setting, line: Seq<char>) -> int {
        to_i32_of(
            floor_of(
                if set.per_line {
                    Align::start(
                        set.align.left(),
                        set.align.right(),
                        from_int(self.line_width(line)),
                        set.width,
                    )
                } else {
                    set.x
                },
            ),
        )
    }

    pub open spec fn line_y(self, set: Setting, i: int) -> int {
        to_i32_of(floor_of(sum_of(set.y, from_int(i * self.face.line_height))))
    }

    /// The glyphs of the first `n` characters of a line that cover any pixels.
    pub open spec fn placed_line(self, line: Seq<char>, x: int, y: int, n: nat) -> Seq<Stamp>
        decreases n,
    {
        if n == 0 || n > line.len() {
            Seq::empty()
        } else {
            let rest = self.placed_line(line, x, y, (n - 1) as nat);
            match self.glyph(line[n - 1]) {
                Some(g) => if draws(g) {
                    rest.push(
                        Stamp {
                            x: (x + self.pen(line, (n - 1) as nat) + g.xoffset + kerned(
                                self.face,
                                before(line, n - 1),
                                line[n - 1],
                            )) as i128,
                            y: (y + g.yoffset) as i128,
                            glyph: g,
                        },
                    )
                } else {
                    rest
                },
                None => rest,
            }
        }
    }

    /// The glyphs of the first `n` lines.
    pub open spec fn placed(self, set: Setting, lines: Seq<Seq<char>>, n: nat) -> Seq<Stamp>
        decreases n,
    {
        if n == 0 || n > lines.len() {
            Seq::empty()
        } else {
            let line = lines[n - 1];
            self.placed(set, lines, (n - 1) as nat) + self.placed_line(
                line,
                self.line_x(set, line),
                self.line_y(set, n - 1),
                line.len(),
            )
        }
    }

    /// The pixels of a glyph's page.
    pub open spec fn page_pixel(self, g: Glyph, gx: int, gy: int) -> [u8; 4] {
        if 0 <= g.page < self.pages.len() {
            self.pages[g.page as int](g.x + gx, g.y + gy)
        } else {
            [0, 0, 0, 0]
        }
    }

    /// The first `n` pixels of a glyph laid over some pixels, row by row.
    pub open spec fn drawn_glyph(
        self,
        width: u32,
        height: u32,
        pixels: Seq<u8>,
        x: int,
        y: int,
        g: Glyph,
        n: nat,
    ) -> Seq<u8>
        decreases n,
    {
        if n == 0 {
            pixels
        } else {
            let gx = (n - 1) % g.width as int;
            let gy = (n - 1) / g.width as int;
            blended(
                width,
                height,
                self.drawn_glyph(width, height, pixels, x, y, g, (n - 1) as nat),
                x + gx,
                y + gy,
                self.page_pixel(g, gx, gy),
            )
        }
    }

    /// The first `n` of some glyphs drawn on a transparent bitmap.
    pub open spec fn drawn(
        self,
        width: u32,
        height: u32,
        list: Seq<Stamp>,
        left: int,
        top: int,
        n: nat,
    ) -> Seq<u8>
        decreases n,
    {
        if n == 0 || n > list.len() {
            Seq::new((4 * (width * height)) as nat, |i: int| 0u8)
        } else {
            let p = list[n - 1];
            self.drawn_glyph(
                width,
                height,
                self.drawn(width, height, list, left, top, (n - 1) as nat),
                p.x - left,
                p.y - top,
                p.glyph,
                (p.glyph.width * p.glyph.height) as nat,
            )
        }
    }

    /// A text laid out and drawn; nothing where it covers no pixels, or more than memory can
    /// hold.
    pub open spec fn raster(self, text: Seq<char>, container: Option<[Num; 2]>, align: Align) -> Option<
        Raster,
    > {
        let set = self.setting(text, container, align);
        let lines = text_lines(text);
        let list = self.placed(set, lines, lines.len());
        if list.len() == 0 {
            None
        } else {
            let b = extent(list, list.len());
            if b.fits() {
                let width = (b.x1 - b.x0) as u32;
                let height = (b.y1 - b.y0) as u32;
                Some(
                    Raster {
                        width,
                        height,
                        pixels: self.drawn(width, height, list, b.x0, b.y0, list.len()),
                        left: b.x0,
                        top: b.y0,
                        container: (set.width, set.height),
                    },
                )
            } else {
                None
            }
        }
    }

    /// How high the ink of the first `n` of some characters reaches and how far it falls,
    /// measured down from the top of their line.
    pub open spec fn ink_of(self, characters: Seq<char>, n: nat) -> Option<(int, int)>
        decreases n,
    {
        if n == 0 || n > characters.len() {
            None
        } else {
            let known = self.ink_of(characters, (n - 1) as nat);
            match self.glyph(characters[n - 1]) {
                Some(g) => if g.height > 0 {
                    let top = g.yoffset as int;
                    let bottom = g.yoffset + g.height;
                    match known {
                        Some((t, b)) => Some(
                            (
                                if top < t {
                                    top
                                } else {
                                    t
                                },
                                if bottom > b {
                                    bottom
                                } else {
                                    b
                                },
                            ),
                        ),
                        None => Some((top, bottom)),
                    }
                } else {
                    known
                },
                None => known,
            }
        }
    }
}

/// The box that glyphs cover.
pub ghost struct Extent {
    pub x0: int,
    pub y0: int,
    pub x1: int,
    pub y1: int,
}

impl Extent {
    /// Whether a bitmap of this size can be held.
    pub open spec fn fits(self) -> bool {
        &&& i64::MIN <= self.x0 && self.x1 <= i64::MAX
        &&& i64::MIN <= self.y0 && self.y1 <= i64::MAX
        &&& self.x1 - self.x0 <= u32::MAX
        &&& self.y1 - self.y0 <= u32::MAX
        &&& 4 * ((self.x1 - self.x0) * (self.y1 - self.y0)) <= usize::MAX
    }
}

/// The box that the first `n` of some glyphs cover.
pub open spec fn extent(list: Seq<Stamp>, n: nat) -> Extent
    decreases n,
{
    let p = list[n - 1];
    let own = Extent {
        x0: p.x as int,
        y0: p.y as int,
        x1: p.x + p.glyph.width,
        y1: p.y + p.glyph.height,
    };
    if n <= 1 || n > list.len() {
        Extent {
            x0: list[0].x as int,
            y0: list[0].y as int,
            x1: list[0].x + list[0].glyph.width,
            y1: list[0].y + list[0].glyph.height,
        }
    } else {
        let e = extent(list, (n - 1) as nat);
        Extent {
            x0: if own.x0 < e.x0 {
                own.x0
            } else {
                e.x0
            },
            y0: if own.y0 < e.y0 {
                own.y0
            } else {
                e.y0
            },
            x1: if own.x1 > e.x1 {
                own.x1
            } else {
                e.x1
            },
            y1: if own.y1 > e.y1 {
                own.y1
            } else {
                e.y1
            },
        }
    }
}

/// What one character can move the pen by at most.
pub const STRIDE: i128 = 0x2_0000_0000;

proof fn lemma_pen_bound(s: Styled, line: Seq<char>, n: nat)
    requires
        n <= line.len(),
    ensures
        -(n * STRIDE) <= s.pen(line, n) <= n * STRIDE,
    decreases n,
{
    if n > 0 {
        lemma_pen_bound(s, line, (n - 1) as nat);
        assert((n - 1) * STRIDE + STRIDE == n * STRIDE) by (nonlinear_arith);
    }
}

impl<'a> StyledFont<'a> {
    pub fn new(
        font: &'a BitmapFont,
        pages: &Vec<Rgba>,
        color: [u8; 3],
        border: Option<([u8; 3], u32)>,
    ) -> (r: StyledFont<'a>)
        ensures
            r@ == dressed(font@, pages@, color, border),
    {
        let mut out: Vec<Rgba> = Vec::new();
        let mut i: usize = 0;
        while i < pages.len()
            invariant
                i <= pages.len(),
                out@.len() == i,
                forall|k: int|
                    0 <= k < i ==> is_styled(#[trigger] out@[k], pages@[k], color, border),
            decreases pages.len() - i,
        {
            out.push(style_page(&pages[i], color, border));
            i = i + 1;
        }
        let extra: i32 = match border {
            Some((_, width)) => {
                if width > 0x3FFF_FFFF {
                    0x7FFF_FFFE
                } else {
                    2 * width as i32
                }
            },
            None => 0,
        };
        let styled = StyledFont { font, pages: out, extra_advance: extra };
        proof {
            let want = dressed(font@, pages@, color, border);
            assert forall|i: int| 0 <= i < pages@.len() implies #[trigger] styled@.pages[i]
                == want.pages[i] by {
                assert(is_styled(out@[i], pages@[i], color, border));
                assert(look_of(out@[i]) =~= styled_look(pages@[i], color, border));
            }
            assert(styled@.pages =~= want.pages);
            assert forall|i: int| 0 <= i < pages@.len() implies #[trigger] styled@.sizes[i]
                == want.sizes[i] by {
                assert(is_styled(out@[i], pages@[i], color, border));
            }
            assert(styled@.sizes =~= want.sizes);
        }
        styled
    }

    fn glyph(&self, c: char) -> (r: Option<Glyph>)
        ensures
            r == self@.glyph(c),
    {
        if let Some(g) = self.font.glyph(c) {
            return Some(g);
        }
        if is_lower_case(c) {
            if let Some(up) = upper_case_of(c) {
                if let Some(g) = self.font.glyph(up) {
                    return Some(g);
                }
            }
        }
        self.font.glyph(' ')
    }

    fn line_width(&self, line: &Vec<char>) -> (r: i128)
        ensures
            r == self@.line_width(line@),
            -0x2_0000_0000_0000_0000_0000_0000 <= r <= 0x2_0000_0000_0000_0000_0000_0000,
    {
        let mut width: i128 = 0;
        let mut previous: char = ' ';
        let mut i: usize = 0;
        while i < line.len()
            invariant
                i <= line.len(),
                width == self@.pen(line@, i as nat),
                previous == before(line@, i as int),
            decreases line.len() - i,
        {
            proof {
                lemma_pen_bound(self@, line@, i as nat);
                assert(i * STRIDE <= 0xFFFF_FFFF_FFFF_FFFF * 0x2_0000_0000) by (nonlinear_arith)
                    requires
                        0 <= i <= 0xFFFF_FFFF_FFFF_FFFF,
                        STRIDE == 0x2_0000_0000,
                ;
            }
            let c: char = line[i];
            if let Some(g) = self.glyph(c) {
                width = width + (g.xadvance as i128 + self.extra_advance as i128
                    + self.font.kerning(previous, c) as i128);
            }
            previous = c;
            i = i + 1;
        }
        proof {
            lemma_pen_bound(self@, line@, i as nat);
            assert(i * STRIDE <= 0xFFFF_FFFF_FFFF_FFFF * 0x2_0000_0000) by (nonlinear_arith)
                requires
                    0 <= i <= 0xFFFF_FFFF_FFFF_FFFF,
                    STRIDE == 0x2_0000_0000,
            ;
        }
        width
    }

    /// Size of a text block: the widest line; every line one line height except the last,
    /// which is as tall as its tallest glyph when that exceeds the line height.
    pub fn measure(&self, text: &str) -> (r: (i128, i128))
        ensures
            r.0 == self@.block(text@).0,
            r.1 == self@.block(text@).1,
            -0x8_0000_0000_0000_0000_0000_0000 < r.0 < 0x8_0000_0000_0000_0000_0000_0000,
            -0x8_0000_0000_0000_0000_0000_0000 < r.1 < 0x8_0000_0000_0000_0000_0000_0000,
    {
        if text.unicode_len() == 0 {
            return (0, 0);
        }
        let lines = split_lines(text);
        let ghost all = text_lines(text@);
        assert(all[0] == lines@[0]@);
        let mut width: i128 = self.line_width(&lines[0]);
        let mut i: usize = 1;
        while i < lines.len()
            invariant
                1 <= i <= lines.len(),
                line_views(lines@) == all,
                width == self@.widest(all, i as nat),
                -0x2_0000_0000_0000_0000_0000_0000 <= width
                    <= 0x2_0000_0000_0000_0000_0000_0000,
            decreases lines.len() - i,
        {
            assert(all[i as int] == lines@[i as int]@);
            let w: i128 = self.line_width(&lines[i]);
            if w > width {
                width = w;
            }
            i = i + 1;
        }
        let last = &lines[lines.len() - 1];
        assert(all.last() == last@);
        let mut tall: i128 = self.font.line_height() as i128;
        let mut k: usize = 0;
        while k < last.len()
            invariant
                k <= last.len(),
                tall == self@.tallest(last@, k as nat),
                -0x2_0000_0000 <= tall <= 0x2_0000_0000,
            decreases last.len() - k,
        {
            if let Some(g) = self.glyph(last[k]) {
                let t: i128 = g.height as i128 + g.yoffset as i128;
                if t > tall {
                    tall = t;
                }
            }
            k = k + 1;
        }
        let rows: i128 = (lines.len() - 1) as i128;
        let step: i128 = self.font.line_height() as i128;
        proof {
            assert(-0xFFFF_FFFF_FFFF_FFFF * 0x8000_0000 <= rows * step <= 0xFFFF_FFFF_FFFF_FFFF
                * 0x8000_0000) by (nonlinear_arith)
                requires
                    0 <= rows <= 0xFFFF_FFFF_FFFF_FFFF,
                    -0x8000_0000 <= step <= 0x8000_0000,
            ;
        }
        (width, rows * step + tall)
    }
}

/// What a border adds to every glyph's advance: twice its width.
pub open spec fn extra_for(border: Option<([u8; 3], u32)>) -> i32 {
    match border {
        Some((_, width)) => if width > 0x3FFF_FFFF {
            0x7FFF_FFFE
        } else {
            (2 * width) as i32
        },
        None => 0,
    }
}

proof fn lemma_placed_line_bound(s: Styled, line: Seq<char>, x: int, y: int, n: nat)
    requires
        n <= line.len() <= usize::MAX,
        i32::MIN <= x <= i32::MAX,
        i32::MIN <= y <= i32::MAX,
    ensures
        forall|i: int|
            0 <= i < s.placed_line(line, x, y, n).len() ==> sensible(
                #[trigger] s.placed_line(line, x, y, n)[i],
            ),
    decreases n,
{
    if n > 0 {
        lemma_placed_line_bound(s, line, x, y, (n - 1) as nat);
        lemma_pen_bound(s, line, (n - 1) as nat);
        assert((n - 1) * STRIDE <= 0xFFFF_FFFF_FFFF_FFFF * 0x2_0000_0000) by (nonlinear_arith)
            requires
                0 <= n - 1 <= 0xFFFF_FFFF_FFFF_FFFF,
                STRIDE == 0x2_0000_0000,
        ;
        let rest = s.placed_line(line, x, y, (n - 1) as nat);
        let all = s.placed_line(line, x, y, n);
        assert forall|i: int| 0 <= i < all.len() implies sensible(#[trigger] all[i]) by {
            if i < rest.len() {
                assert(all[i] == rest[i]);
            }
        }
    }
}

/// A placed glyph lies within reach of arithmetic.
pub open spec fn sensible(p: Stamp) -> bool {
    &&& -0x4_0000_0000_0000_0000_0000_0000 <= p.x <= 0x4_0000_0000_0000_0000_0000_0000
    &&& -0x4_0000_0000_0000_0000_0000_0000 <= p.y <= 0x4_0000_0000_0000_0000_0000_0000
    &&& draws(p.glyph)
}

/// The box of some glyphs, as numbers.
struct Bounds {
    x0: i128,
    y0: i128,
    x1: i128,
    y1: i128,
}

fn bounds(list: &Vec<Stamp>) -> (r: Bounds)
    requires
        list@.len() > 0,
        forall|i: int| 0 <= i < list@.len() ==> sensible(#[trigger] list@[i]),
    ensures
        ({
            let e = extent(list@, list@.len());
            r.x0 == e.x0 && r.y0 == e.y0 && r.x1 == e.x1 && r.y1 == e.y1
        }),
        r.x0 < r.x1,
        r.y0 < r.y1,
        -0x5_0000_0000_0000_0000_0000_0000 <= r.x0 && r.x1
            <= 0x5_0000_0000_0000_0000_0000_0000,
        -0x5_0000_0000_0000_0000_0000_0000 <= r.y0 && r.y1
            <= 0x5_0000_0000_0000_0000_0000_0000,
        forall|i: int|
            0 <= i < list@.len() ==> r.x0 <= (#[trigger] list@[i]).x < r.x1 && r.y0 <= list@[i].y
                < r.y1,
{
    let first = list[0];
    assert(sensible(list@[0]));
    let mut r = Bounds {
        x0: first.x,
        y0: first.y,
        x1: first.x + first.glyph.width as i128,
        y1: first.y + first.glyph.height as i128,
    };
    let mut i: usize = 1;
    while i < list.len()
        invariant
            1 <= i <= list.len(),
            forall|i: int| 0 <= i < list@.len() ==> sensible(#[trigger] list@[i]),
            ({
                let e = extent(list@, i as nat);
                r.x0 == e.x0 && r.y0 == e.y0 && r.x1 == e.x1 && r.y1 == e.y1
            }),
            r.x0 < r.x1,
            r.y0 < r.y1,
            -0x5_0000_0000_0000_0000_0000_0000 <= r.x0 && r.x1
                <= 0x5_0000_0000_0000_0000_0000_0000,
            -0x5_0000_0000_0000_0000_0000_0000 <= r.y0 && r.y1
                <= 0x5_0000_0000_0000_0000_0000_0000,
            forall|k: int|
                0 <= k < i ==> r.x0 <= (#[trigger] list@[k]).x < r.x1 && r.y0 <= list@[k].y
                    < r.y1,
        decreases list.len() - i,
    {
        let p = list[i];
        assert(sensible(list@[i as int]));
        let x1: i128 = p.x + p.glyph.width as i128;
        let y1: i128 = p.y + p.glyph.height as i128;
        if p.x < r.x0 {
            r.x0 = p.x;
        }
        if p.y < r.y0 {
            r.y0 = p.y;
        }
        if x1 > r.x1 {
            r.x1 = x1;
        }
        if y1 > r.y1 {
            r.y1 = y1;
        }
        i = i + 1;
    }
    r
}

/// A finished bitmap of text.
#[derive(Debug)]
pub struct TextRaster {
    pub image: Rgba,
    /// The top-left corner from the container's origin.
    pub offset: [i64; 2],
    /// The box the text was laid out in.
    pub container: [Num; 2],
}

impl View for TextRaster {
    type V = Raster;

    open spec fn view(&self) -> Raster {
        Raster {
            width: self.image.width,
            height: self.image.height,
            pixels: self.image.pixels@,
            left: self.offset[0] as int,
            top: self.offset[1] as int,
            container: (self.container[0], self.container[1]),
        }
    }
}

impl<'a> StyledFont<'a> {
    fn place_line(&self, line: &Vec<char>, x: i128, y: i128, out: &mut Vec<Stamp>)
        requires
            i32::MIN <= x <= i32::MAX,
            i32::MIN <= y <= i32::MAX,
        ensures
            final(out)@ == old(out)@ + self@.placed_line(line@, x as int, y as int, line@.len()),
    {
        let ghost was = out@;
        let mut pen: i128 = 0;
        let mut previous: char = ' ';
        let mut i: usize = 0;
        assert(was + Seq::<Stamp>::empty() =~= was);
        while i < line.len()
            invariant
                i <= line.len(),
                i32::MIN <= x <= i32::MAX,
                i32::MIN <= y <= i32::MAX,
                pen == self@.pen(line@, i as nat),
                previous == before(line@, i as int),
                out@ == was + self@.placed_line(line@, x as int, y as int, i as nat),
            decreases line.len() - i,
        {
            proof {
                lemma_pen_bound(self@, line@, i as nat);
                assert(i * STRIDE <= 0xFFFF_FFFF_FFFF_FFFF * 0x2_0000_0000) by (nonlinear_arith)
                    requires
                        0 <= i <= 0xFFFF_FFFF_FFFF_FFFF,
                        STRIDE == 0x2_0000_0000,
                ;
            }
            let c: char = line[i];
            let ghost here = self@.placed_line(line@, x as int, y as int, i as nat);
            if let Some(g) = self.glyph(c) {
                let kern: i128 = self.font.kerning(previous, c) as i128;
                if g.width > 0 && g.height > 0 {
                    let p = Stamp {
                        x: x + pen + g.xoffset as i128 + kern,
                        y: y + g.yoffset as i128,
                        glyph: g,
                    };
                    out.push(p);
                    assert((was + here).push(p) =~= was + here.push(p));
                }
                pen = pen + (g.xadvance as i128 + self.extra_advance as i128 + kern);
            }
            previous = c;
            i = i + 1;
        }
    }

    fn draw_glyph(&self, out: &mut Rgba, x: i64, y: i64, g: Glyph)
        requires
            draws(g),
            0 <= x <= 0x1_0000_0000,
            0 <= y <= 0x1_0000_0000,
        ensures
            final(out).width == old(out).width,
            final(out).height == old(out).height,
            final(out).pixels@ == self@.drawn_glyph(
                old(out).width,
                old(out).height,
                old(out).pixels@,
                x as int,
                y as int,
                g,
                (g.width * g.height) as nat,
            ),
    {
        let ghost was = *out;
        assert(0 < g.width * g.height <= 0x8000_0000 * 0x8000_0000) by (nonlinear_arith)
            requires
                0 < g.width <= 0x7FFF_FFFF,
                0 < g.height <= 0x7FFF_FFFF,
        ;
        let total: u64 = g.width as u64 * g.height as u64;
        let page: Option<&Rgba> = if 0 <= g.page && (g.page as u64) < self.pages.len() as u64 {
            Some(&self.pages[g.page as usize])
        } else {
            None
        };
        let mut n: u64 = 0;
        while n < total
            invariant
                n <= total,
                draws(g),
                0 <= x <= 0x1_0000_0000,
                0 <= y <= 0x1_0000_0000,
                total == g.width * g.height,
                total <= 0x8000_0000 * 0x8000_0000,
                match page {
                    Some(p) => 0 <= g.page < self@.pages.len() && look_of(*p) == self@.pages[g.page as int],
                    None => !(0 <= g.page < self@.pages.len()),
                },
                out.width == was.width,
                out.height == was.height,
                out.pixels@ == self@.drawn_glyph(
                    was.width,
                    was.height,
                    was.pixels@,
                    x as int,
                    y as int,
                    g,
                    n as nat,
                ),
            decreases total - n,
        {
            let gx: i64 = (n % g.width as u64) as i64;
            proof {
                assert(n as int / g.width as int <= n) by (nonlinear_arith)
                    requires
                        g.width >= 1,
                        n >= 0,
                ;
                assert(n as int / g.width as int >= 0) by (nonlinear_arith)
                    requires
                        g.width >= 1,
                        n >= 0,
                ;
            }
            let gy: i64 = (n / g.width as u64) as i64;
            let px: [u8; 4] = match page {
                Some(p) => p.get(g.x as i64 + gx, g.y as i64 + gy),
                None => [0, 0, 0, 0],
            };
            out.blend(x + gx, y + gy, px);
            n = n + 1;
        }
    }

    /// Lay out and rasterize `text` in a container of `container` size (the measured block
    /// size when `None`), aligned per `align`: the block within the container and, for
    /// multi-line text, each line within the container's width. Glyphs may overhang the
    /// container.
    pub fn rasterize(&self, text: &str, container: Option<[Num; 2]>, align: Align) -> (r: Option<
        TextRaster,
    >)
        ensures
            match r {
                Some(raster) => self@.raster(text@, container, align) == Some(raster@),
                None => self@.raster(text@, container, align) is None,
            },
    {
        let (block_w, block_h) = self.measure(text);
        let bw = Num::from_wide(block_w);
        let bh = Num::from_wide(block_h);
        let (cw, ch): (Num, Num) = match container {
            Some(c) => (c[0], c[1]),
            None => (bw, bh),
        };
        let (bx, by) = align.offset(bw, bh, cw, ch);
        let lines = split_lines(text);
        let per_line = lines.len() > 1 && !align.is_left();
        let ghost set = self@.setting(text@, container, align);
        let ghost all = text_lines(text@);
        assert(lines@.len() == all.len());
        let mut list: Vec<Stamp> = Vec::new();
        let mut i: usize = 0;
        while i < lines.len()
            invariant
                i <= lines.len(),
                line_views(lines@) == all,
                set.x == bx,
                set.y == by,
                set.width == cw,
                set.align == align,
                set.per_line == per_line,
                list@ == self@.placed(set, all, i as nat),
                forall|k: int| 0 <= k < list@.len() ==> sensible(#[trigger] list@[k]),
            decreases lines.len() - i,
        {
            let line = &lines[i];
            assert(all[i as int] == line@);
            let start = if per_line {
                align.offset(Num::from_wide(self.line_width(line)), num(0), cw, num(0)).0
            } else {
                bx
            };
            let x0: i128 = to_i32(start.floor());
            proof {
                let lh = self@.face.line_height as int;
                assert(-0xFFFF_FFFF_FFFF_FFFF * 0x8000_0000 <= i * lh <= 0xFFFF_FFFF_FFFF_FFFF
                    * 0x8000_0000) by (nonlinear_arith)
                    requires
                        0 <= i <= 0xFFFF_FFFF_FFFF_FFFF,
                        -0x8000_0000 <= lh <= 0x8000_0000,
                ;
            }
            let down: i128 = i as i128 * self.font.line_height() as i128;
            let y0: i128 = to_i32(by.plus(Num::from_wide(down)).floor());
            let ghost before_line = list@;
            self.place_line(line, x0, y0, &mut list);
            proof {
                lemma_placed_line_bound(self@, line@, x0 as int, y0 as int, line@.len());
                let added = self@.placed_line(line@, x0 as int, y0 as int, line@.len());
                assert forall|k: int| 0 <= k < list@.len() implies sensible(#[trigger] list@[k]) by {
                    if k >= before_line.len() {
                        assert(list@[k] == added[k - before_line.len()]);
                    }
                }
            }
            i = i + 1;
        }
        if list.len() == 0 {
            return None;
        }
        let b = bounds(&list);
        let (w, h): (i128, i128) = (b.x1 - b.x0, b.y1 - b.y0);
        if b.x0 < i64::MIN as i128 || b.x1 > i64::MAX as i128 || b.y0 < i64::MIN as i128 || b.y1
            > i64::MAX as i128 || w > u32::MAX as i128 || h > u32::MAX as i128 {
            return None;
        }
        assert(0 < w * h <= 0xFFFF_FFFF * 0xFFFF_FFFF) by (nonlinear_arith)
            requires
                0 < w <= 0xFFFF_FFFF,
                0 < h <= 0xFFFF_FFFF,
        ;
        if 4 * (w * h) > usize::MAX as i128 {
            return None;
        }
        let width: u32 = w as u32;
        let height: u32 = h as u32;
        let mut image = Rgba::transparent(width, height);
        let mut k: usize = 0;
        while k < list.len()
            invariant
                k <= list.len(),
                forall|i: int| 0 <= i < list@.len() ==> sensible(#[trigger] list@[i]),
                forall|i: int|
                    0 <= i < list@.len() ==> b.x0 <= (#[trigger] list@[i]).x && b.y0 <= list@[i].y,
                forall|i: int|
                    0 <= i < list@.len() ==> (#[trigger] list@[i]).x - b.x0 <= 0x1_0000_0000
                        && list@[i].y - b.y0 <= 0x1_0000_0000,
                image.width == width,
                image.height == height,
                image.pixels@ == self@.drawn(
                    width,
                    height,
                    list@,
                    b.x0 as int,
                    b.y0 as int,
                    k as nat,
                ),
            decreases list.len() - k,
        {
            let p = list[k];
            assert(sensible(list@[k as int]));
            self.draw_glyph(&mut image, (p.x - b.x0) as i64, (p.y - b.y0) as i64, p.glyph);
            k = k + 1;
        }
        let raster = TextRaster {
            image,
            offset: [b.x0 as i64, b.y0 as i64],
            container: [cw, ch],
        };
        Some(raster)
    }

    /// How high the ink of `characters` reaches and how far it falls, measured down from the
    /// top of their line.
    pub fn ink(&self, characters: &Vec<char>) -> (r: Option<(i64, i64)>)
        ensures
            match r {
                Some((top, bottom)) => self@.ink_of(characters@, characters@.len()) == Some(
                    (top as int, bottom as int),
                ),
                None => self@.ink_of(characters@, characters@.len()) is None,
            },
    {
        let mut out: Option<(i64, i64)> = None;
        let mut i: usize = 0;
        while i < characters.len()
            invariant
                i <= characters.len(),
                match out {
                    Some((top, bottom)) => self@.ink_of(characters@, i as nat) == Some(
                        (top as int, bottom as int),
                    ),
                    None => self@.ink_of(characters@, i as nat) is None,
                },
            decreases characters.len() - i,
        {
            if let Some(g) = self.glyph(characters[i]) {
                if g.height > 0 {
                    let top: i64 = g.yoffset as i64;
                    let bottom: i64 = g.yoffset as i64 + g.height as i64;
                    out = match out {
                        Some((t, b)) => Some(
                            (
                                if top < t {
                                    top
                                } else {
                                    t
                                },
                                if bottom > b {
                                    bottom
                                } else {
                                    b
                                },
                            ),
                        ),
                        None => Some((top, bottom)),
                    };
                }
            }
            i = i + 1;
        }
        out
    }

    /// The height of a line.
    pub fn line(&self) -> (r: i32)
        ensures
            r == self@.face.line_height,
    {
        self.font.line_height()
    }
}

} // verus!
