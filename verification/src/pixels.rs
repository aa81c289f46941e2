//! What becomes of the pixels of a text.

use crate::font::Glyph;
use crate::raster::{over, pixel, with_pixel, Styled};
use vstd::arithmetic::div_mod::{lemma_fundamental_div_mod, lemma_fundamental_div_mod_converse};
use vstd::prelude::*;

verus! {

/// A color laid over another: over nothing it is itself, over what hides all it hides all, and
/// every channel lies between the two. Its weight is its opacity, to within the rounding down.
pub proof fn lemma_over(src: [u8; 4], dst: [u8; 4], i: int)
    requires
        0 <= i < 3,
        0 < src[3] < 255,
    ensures
        ({
            let r = over(src, dst);
            let (s, d, a) = (src[i] as int, dst[i] as int, src[3] as int);
            &&& dst[3] == 0 ==> r == src
            &&& dst[3] == 255 ==> r[3] == 255 && {
                let exact = s * a + d * (255 - a);
                255 * r[i] <= exact < 255 * r[i] + 255
            }
            &&& r[3] >= src[3]
            &&& (s <= r[i] <= d) || (d <= r[i] <= s)
        }),
{
    let r = over(src, dst);
    let (s, d, a) = (src[i] as int, dst[i] as int, src[3] as int);
    let da = (dst[3] as int * (255 - a)) / 255;
    assert(0 <= da <= 255 - a) by (nonlinear_arith)
        requires
            da == (dst[3] as int * (255 - a)) / 255,
            0 <= dst[3] <= 255,
            0 < a < 255,
    ;
    assert(dst[3] == 0 ==> da == 0) by (nonlinear_arith)
        requires
            da == (dst[3] as int * (255 - a)) / 255,
    ;
    assert(dst[3] == 255 ==> da == 255 - a) by (nonlinear_arith)
        requires
            da == (dst[3] as int * (255 - a)) / 255,
    ;
    let t = a + da;
    lemma_mixed(s, d, a, da);
    assert(r[i] == (s * a + d * da) / t);
    if dst[3] == 0 {
        assert forall|k: int| 0 <= k < 3 implies #[trigger] r[k] == src[k] by {
            lemma_mixed(src[k] as int, dst[k] as int, a, 0);
            assert(dst[k] * 0 == 0);
        }
        assert(r =~= src);
    }
}

/// A mean of two bytes, rounded down.
proof fn lemma_mixed(s: int, d: int, a: int, b: int)
    requires
        0 <= s <= 255,
        0 <= d <= 255,
        0 < a,
        0 <= b,
        a + b <= 255,
    ensures
        ({
            let m = (s * a + d * b) / (a + b);
            &&& (s <= m <= d) || (d <= m <= s)
            &&& 0 <= m <= 255
            &&& b == 0 ==> m == s
            &&& (a + b) * m <= s * a + d * b < (a + b) * m + (a + b)
        }),
{
    let t = a + b;
    let n = s * a + d * b;
    let m = n / t;
    let rest = n - t * m;
    assert(0 <= rest < t) by (nonlinear_arith)
        requires
            m == n / t,
            rest == n - t * m,
            t > 0,
    ;
    assert((s <= m <= d) || (d <= m <= s)) by (nonlinear_arith)
        requires
            n == s * a + d * b,
            t == a + b,
            a > 0,
            b >= 0,
            0 <= n - t * m < t,
    ;
    assert(b == 0 ==> m == s) by (nonlinear_arith)
        requires
            n == s * a + d * b,
            t == a + b,
            a > 0,
            0 <= n - t * m < t,
    ;
}

/// Two places of an image have different pixels.
proof fn lemma_places_apart(width: int, x: int, y: int, a: int, b: int)
    requires
        0 <= x < width,
        0 <= a < width,
        (x, y) != (a, b),
    ensures
        y * width + x != b * width + a,
{
    if y * width + x == b * width + a {
        lemma_fundamental_div_mod_converse(y * width + x, width, y, x);
        lemma_fundamental_div_mod_converse(b * width + a, width, b, a);
    }
}

/// An image of some size holds all its pixels.
pub open spec fn filled_in(width: u32, height: u32, pixels: Seq<u8>) -> bool {
    pixels.len() == 4 * (width * height)
}

proof fn lemma_place_held(width: u32, height: u32, x: int, y: int)
    requires
        0 <= x < width,
        0 <= y < height,
    ensures
        0 <= y * width + x < width * height,
{
    assert(0 <= y * width + x < width * height) by (nonlinear_arith)
        requires
            0 <= x < width,
            0 <= y < height,
    ;
}

/// A pixel set is there afterwards, and no other one changes.
pub proof fn lemma_pixel_set(
    width: u32,
    height: u32,
    pixels: Seq<u8>,
    x: int,
    y: int,
    px: [u8; 4],
    a: int,
    b: int,
)
    requires
        filled_in(width, height, pixels),
    ensures
        ({
            let after = with_pixel(width, height, pixels, x, y, px);
            &&& filled_in(width, height, after)
            &&& pixel(width, height, after, a, b) == (if (a, b) == (x, y) && 0 <= x < width && 0
                <= y < height {
                px
            } else {
                pixel(width, height, pixels, a, b)
            })
        }),
{
    let after = with_pixel(width, height, pixels, x, y, px);
    if 0 <= x < width && 0 <= y < height {
        lemma_place_held(width, height, x, y);
        if 0 <= a < width && 0 <= b < height {
            lemma_place_held(width, height, a, b);
            if (a, b) != (x, y) {
                lemma_places_apart(width as int, x, y, a, b);
            }
        }
    }
    assert(pixel(width, height, after, a, b) =~= if (a, b) == (x, y) && 0 <= x < width && 0 <= y
        < height {
        px
    } else {
        pixel(width, height, pixels, a, b)
    });
}

/// What a pixel is after a color was laid over it.
pub open spec fn laid(src: [u8; 4], dst: [u8; 4]) -> [u8; 4] {
    if src[3] == 0 {
        dst
    } else if src[3] == 255 {
        src
    } else {
        over(src, dst)
    }
}

/// A glyph is stamped whole: each of its pixels is laid over the pixel it comes to lie on, so far
/// right and down as it is in the glyph; the pixels that it does not reach stay as they were.
pub proof fn lemma_glyph_stamped(
    styled: Styled,
    width: u32,
    height: u32,
    pixels: Seq<u8>,
    x: int,
    y: int,
    g: Glyph,
    a: int,
    b: int,
)
    requires
        filled_in(width, height, pixels),
        g.width > 0 && g.height > 0,
        0 <= a < width,
        0 <= b < height,
    ensures
        ({
            let after = styled.drawn_glyph(
                width,
                height,
                pixels,
                x,
                y,
                g,
                (g.width * g.height) as nat,
            );
            let was = pixel(width, height, pixels, a, b);
            pixel(width, height, after, a, b) == if x <= a < x + g.width && y <= b < y + g.height {
                laid(styled.page_pixel(g, a - x, b - y), was)
            } else {
                was
            }
        }),
{
    let n = (g.width * g.height) as nat;
    assert(g.width * g.height >= 0) by (nonlinear_arith)
        requires
            g.width > 0,
            g.height > 0,
    ;
    lemma_stamped_part(styled, width, height, pixels, x, y, g, a, b, n);
    if x <= a < x + g.width && y <= b < y + g.height {
        let (i, j) = (a - x, b - y);
        assert(0 <= j * g.width + i < g.width * g.height) by (nonlinear_arith)
            requires
                0 <= i < g.width,
                0 <= j < g.height,
        ;
    } else if a >= x && b >= y + g.height {
        let (i, j) = (a - x, b - y);
        assert(j * g.width + i >= g.width * g.height) by (nonlinear_arith)
            requires
                0 <= i,
                j >= g.height,
                g.width > 0,
        ;
    }
}

#[verifier::rlimit(40)]
proof fn lemma_stamped_part(
    styled: Styled,
    width: u32,
    height: u32,
    pixels: Seq<u8>,
    x: int,
    y: int,
    g: Glyph,
    a: int,
    b: int,
    n: nat,
)
    requires
        filled_in(width, height, pixels),
        g.width > 0 && g.height > 0,
        0 <= a < width,
        0 <= b < height,
        n <= g.width * g.height,
    ensures
        ({
            let after = styled.drawn_glyph(width, height, pixels, x, y, g, n);
            let was = pixel(width, height, pixels, a, b);
            let (i, j) = (a - x, b - y);
            &&& filled_in(width, height, after)
            &&& pixel(width, height, after, a, b) == (if 0 <= i < g.width && 0 <= j && j * g.width
                + i < n {
                laid(styled.page_pixel(g, i, j), was)
            } else {
                was
            })
        }),
    decreases n,
{
    let (i, j) = (a - x, b - y);
    let w = g.width as int;
    if n == 0 {
        if 0 <= i && 0 <= j {
            assert(j * w + i >= 0) by (nonlinear_arith)
                requires
                    0 <= i,
                    0 <= j,
                    w > 0,
            ;
        }
    } else {
        let m = (n - 1) as nat;
        lemma_stamped_part(styled, width, height, pixels, x, y, g, a, b, m);
        let part = styled.drawn_glyph(width, height, pixels, x, y, g, m);
        let (gx, gy) = (m as int % w, m as int / w);
        lemma_fundamental_div_mod(m as int, w);
        assert(0 <= gx < w && 0 <= gy && gy * w + gx == m) by (nonlinear_arith)
            requires
                m == w * gy + gx,
                gx == m as int % w,
                gy == m as int / w,
                w > 0,
                m >= 0,
        ;
        let src = styled.page_pixel(g, gx, gy);
        let there = pixel(width, height, part, x + gx, y + gy);
        lemma_pixel_set(width, height, part, x + gx, y + gy, src, a, b);
        lemma_pixel_set(width, height, part, x + gx, y + gy, over(src, there), a, b);
        if (a, b) == (x + gx, y + gy) {
            assert(j * w + i == m);
        } else if 0 <= i < w {
            lemma_places_apart(w, i, j, gx, gy);
        }
    }
}

} // verus!
