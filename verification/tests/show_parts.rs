//! Easings, filaments, paths, segments, fonts, outputs and the cache.

use cuelight::font::{tokenize, BitmapFont};
use cuelight::frame::fit;
use cuelight::lamp::{brightness, color, settled, shown, temperature, Filament, AMBIENT};
use cuelight::lru::ByteLru;
use cuelight::num::{num, Num};
use cuelight::path::bounds;
use cuelight::raster::{Rgba, StyledFont};
use cuelight::segments::{mask, masks, polygons, Look, DOT, LEANEST, THICKEST};
use cuelight::{
    Align, Easing, Justify, Output, OutputColor, OutputMode, PathData, PathElement, Scaling,
    SegmentStyle,
};

fn n(x: f64) -> Num {
    num(x.to_bits())
}

fn f(x: Num) -> f64 {
    f64::from_bits(x.bits)
}

fn p(x: f64, y: f64) -> [Num; 2] {
    [n(x), n(y)]
}

const ALL: [Easing; 13] = [
    Easing::Linear,
    Easing::QuadIn,
    Easing::QuadOut,
    Easing::QuadInOut,
    Easing::CubicIn,
    Easing::CubicOut,
    Easing::CubicInOut,
    Easing::Step,
    Easing::BackIn,
    Easing::BackOut,
    Easing::BackInOut,
    Easing::ElasticOut,
    Easing::BounceOut,
];

fn ease(kind: Easing, t: f64) -> f64 {
    f(kind.apply(n(t)))
}

#[test]
fn every_easing_starts_at_0_and_ends_at_1() {
    for kind in ALL {
        assert!(ease(kind, 0.0).abs() < 1e-12, "{kind:?} at 0");
        assert!((ease(kind, 1.0) - 1.0).abs() < 1e-12, "{kind:?} at 1");
        // Time outside the segment holds the ends.
        assert_eq!(ease(kind, -1.0), ease(kind, 0.0));
        assert_eq!(ease(kind, 2.0), ease(kind, 1.0));
    }
}

#[test]
fn overshooting_kinds_leave_the_range_and_bounce_does_not() {
    let range = |kind: Easing| {
        let values = (0..=200).map(|i| ease(kind, f64::from(i) / 200.0));
        values.fold((f64::MAX, f64::MIN), |(lo, hi), v| (lo.min(v), hi.max(v)))
    };
    let (lo, hi) = range(Easing::BackOut);
    assert!(lo >= 0.0 && hi > 1.09 && hi < 1.11, "back_out {lo}..{hi}");
    assert!(range(Easing::BackIn).0 < -0.09);
    let (lo, hi) = range(Easing::BackInOut);
    assert!(lo < -0.05 && hi > 1.05);
    assert!(range(Easing::ElasticOut).1 > 1.2);
    let (lo, hi) = range(Easing::BounceOut);
    assert!(lo >= 0.0 && hi <= 1.0, "bounce_out {lo}..{hi}");
}

#[test]
fn easings_have_their_curves() {
    assert_eq!(ease(Easing::QuadIn, 0.5), 0.25);
    assert_eq!(ease(Easing::QuadOut, 0.5), 0.75);
    assert_eq!(ease(Easing::CubicIn, 0.5), 0.125);
    assert_eq!(ease(Easing::CubicInOut, 0.25), 0.0625);
    assert_eq!(ease(Easing::Step, 0.99), 0.0);
    assert_eq!(ease(Easing::Step, 1.0), 1.0);
}

// Two 2x3 glyphs on a 4x3 page: 'A' solid, 'B' only its left column.
const FNT: &str = r#"info face="Test Font" size=3
common lineHeight=4 base=3 scaleW=4 scaleH=3 pages=1
page id=0 file="test_0.png"
chars count=3
char id=32 x=0 y=0 width=0 height=0 xoffset=0 yoffset=0 xadvance=2 page=0 chnl=15 //
char id=65 x=0 y=0 width=2 height=3 xoffset=0 yoffset=0 xadvance=3 page=0 chnl=15 // A
char id=66 x=2 y=0 width=2 height=3 xoffset=0 yoffset=1 xadvance=3 page=0 chnl=15 // B
kernings count=1
kerning first=65 second=66 amount=-1
"#;

fn page() -> Rgba {
    let mut page = Rgba::transparent(4, 3);
    for y in 0..3 {
        page.set(0, y, [255, 255, 255, 255]);
        page.set(1, y, [255, 255, 255, 255]);
        page.set(2, y, [255, 255, 255, 255]);
    }
    page
}

fn font() -> BitmapFont {
    BitmapFont::parse(FNT).unwrap()
}

fn styled(font: &BitmapFont, border: Option<([u8; 3], u32)>) -> StyledFont<'_> {
    StyledFont::new(font, &vec![page()], [255, 0, 0], border)
}

#[test]
fn parses_bmfont_text_format() {
    let font = BitmapFont::parse(FNT).unwrap();
    assert_eq!(font.line_height(), 4);
    assert_eq!(font.pages(), ["test_0.png"]);
    let glyphs = (0..=0x10FFFF)
        .filter_map(char::from_u32)
        .filter(|c| font.glyph(*c).is_some())
        .count();
    assert_eq!(glyphs, 3);
    assert_eq!(font.glyph('B').unwrap().yoffset, 1);
    assert_eq!(font.kerning('A', 'B'), -1);
}

#[test]
fn bad_font_descriptions_are_refused() {
    assert!(BitmapFont::parse("").is_err());
    assert!(BitmapFont::parse("common lineHeight=x pages=1").is_err());
    assert!(BitmapFont::parse("common lineHeight=4 pages=1\nchar id=65 x=0").is_err());
    assert_eq!(font().kerning('B', 'A'), 0);
}

#[test]
fn tokenizer_handles_quotes_and_comments() {
    assert_eq!(
        tokenize(r#"info face="BM army" size=-12 // = comment "x"#),
        [
            ("info".into(), "".into()),
            ("face".into(), "BM army".into()),
            ("size".into(), "-12".into())
        ]
    );
}

#[test]
fn measure_uses_advance_kerning_and_line_height() {
    let font = font();
    let font = styled(&font, None);
    // A (3) + B (3 - 1 kerning)
    assert_eq!(font.measure("AB"), (5, 4));
    // last line: B is 3 tall at yoffset 1 -> 4, the line height
    assert_eq!(font.measure("A\nB"), (3, 8));
    assert_eq!(font.measure(""), (0, 0));
}

#[test]
fn missing_lowercase_falls_back_to_uppercase() {
    let font = font();
    let font = styled(&font, None);
    assert_eq!(font.measure("a"), font.measure("A"));
    // Kerning looks at the characters as written.
    assert_eq!(font.measure("ab"), (6, 4));
}

#[test]
fn rasterizes_tinted_glyphs() {
    let font = font();
    let font = styled(&font, None);
    let raster = font.rasterize("A", None, Align::TopLeft).unwrap();
    assert_eq!((raster.image.width, raster.image.height), (2, 3));
    assert_eq!(raster.offset, [0, 0]);
    assert_eq!(raster.container, p(3.0, 4.0));
    assert_eq!(raster.image.get(0, 0), [255, 0, 0, 255]);
}

#[test]
fn border_surrounds_glyphs_and_widens_advance() {
    let font = font();
    let font = styled(&font, Some(([0, 0, 255], 1)));
    assert_eq!(font.measure("A"), (5, 4));
    // Only the glyph rectangle is copied, so the border shows where the page leaves room
    // inside it; here 'B''s rectangle includes the border pixels around 'A''s column 1.
    let bitmap = font.rasterize("B", None, Align::TopLeft).unwrap().image;
    assert_eq!(bitmap.get(0, 0), [255, 0, 0, 255]);
    assert_eq!(bitmap.get(1, 0), [0, 0, 255, 255]);
}

#[test]
fn aligns_block_and_lines_in_container() {
    let font = font();
    let font = styled(&font, None);
    let raster = font
        .rasterize("A", Some(p(9.0, 8.0)), Align::Center)
        .unwrap();
    assert_eq!(raster.container, p(9.0, 8.0));
    // block 3x4 centered in 9x8
    assert_eq!(raster.offset, [3, 2]);
    let raster = font
        .rasterize("A", Some(p(9.0, 8.0)), Align::BottomRight)
        .unwrap();
    assert_eq!(raster.offset, [6, 4]);
    // Multi-line, centered: the narrow second line centers on its own.
    let raster = font.rasterize("AA\nA", None, Align::Center).unwrap();
    assert_eq!(raster.offset, [0, 0]);
    // line widths 6 and 3: the second line starts at floor(1.5)
    assert_eq!(raster.image.get(0, 4), [0, 0, 0, 0]);
    assert_eq!(raster.image.get(1, 4), [255, 0, 0, 255]);
}

#[test]
fn ink_is_measured_from_the_top_of_the_line() {
    let font = font();
    let font = styled(&font, None);
    assert_eq!(font.ink(&vec!['A']), Some((0, 3)));
    assert_eq!(font.ink(&vec!['A', 'B']), Some((0, 4)));
    assert_eq!(font.ink(&vec![' ']), None);
    assert_eq!(font.line(), 4);
}

fn bulb() -> Filament {
    Filament::default()
}

fn heat(lamp: Filament, from: f64, power: f64, elapsed: f64) -> f64 {
    f(temperature(lamp, n(from), n(power), n(elapsed)))
}

fn light(lamp: Filament, t: f64) -> f64 {
    f(brightness(lamp, n(t)))
}

fn ambient() -> f64 {
    f(num(AMBIENT))
}

#[test]
fn a_cold_bulb_reaches_full_brightness_in_a_few_tens_of_milliseconds() {
    let cold = ambient();
    let at = |ms: f64| light(bulb(), heat(bulb(), cold, 1.0, ms / 1000.0));
    assert!(at(0.0) < 0.001, "{}", at(0.0));
    assert!(at(10.0) < 0.5, "still coming up at 10 ms: {}", at(10.0));
    assert!(at(35.0) > 0.85, "much of the way by 35 ms: {}", at(35.0));
    assert!(at(60.0) > 0.98, "there by 60 ms: {}", at(60.0));
}

#[test]
fn it_loses_its_light_faster_than_its_heat() {
    let hot = f(settled(bulb(), n(1.0)));
    let dark = |ms: f64| light(bulb(), heat(bulb(), hot, 0.0, ms / 1000.0));
    let warm = |ms: f64| heat(bulb(), hot, 0.0, ms / 1000.0);
    assert!(dark(30.0) < 0.1, "dim fast: {}", dark(30.0));
    assert!(
        warm(30.0) > 1500.0,
        "but still hot enough to glow: {}",
        warm(30.0)
    );
    assert!(dark(400.0) < 0.001, "and out in the end: {}", dark(400.0));
}

#[test]
fn a_warm_bulb_comes_up_quicker_than_a_cold_one() {
    let cold = light(bulb(), heat(bulb(), ambient(), 1.0, 0.010));
    let warm = light(bulb(), heat(bulb(), 2000.0, 1.0, 0.010));
    assert!(warm > cold * 2.0, "cold {cold}, warm {warm}");
}

#[test]
fn a_lamp_at_full_power_is_a_warm_white_not_an_orange() {
    // The raw blackbody curve puts 2700 K at a saturated orange. Read against the reference it
    // is a warm white, which is what one looks like standing next to it.
    let [r, g, b] = color(n(2700.0));
    assert_eq!(r, 255);
    assert!(g > 220, "green {g}");
    assert!(b > 160, "blue {b}");
}

#[test]
fn a_cooler_lamp_stays_warmer_than_a_hotter_one() {
    // Each lamp is read against the same reference, so a small cool bulb and a big hot one
    // still differ at full power.
    let cool = color(n(2300.0));
    let hot = color(n(2900.0));
    assert!(cool[2] < hot[2], "cool {cool:?} hot {hot:?}");
}

#[test]
fn a_dim_filament_shows_more_than_its_light() {
    // Linear light straight into an opacity reads as black; through the display transfer, the
    // afterglow is visible.
    let lamp = bulb();
    let cooling = heat(lamp, f(settled(lamp, n(1.0))), 0.0, 0.02);
    let light = light(lamp, cooling);
    let seen = f(shown(lamp, n(cooling)));
    assert!(light < 0.05, "light {light}");
    assert!(seen > 3.0 * light, "light {light} shown as {seen}");
}

#[test]
fn a_dim_filament_is_redder_than_a_bright_one() {
    let [hot_r, _, hot_b] = color(settled(bulb(), n(1.0)));
    let [dim_r, _, dim_b] = color(n(1400.0));
    assert_eq!((hot_r, dim_r), (255, 255), "red is pinned at these");
    assert!(dim_b < hot_b, "the blue goes first: {dim_b} vs {hot_b}");
}

#[test]
fn a_quick_filament_is_as_good_as_instant() {
    let quick = Filament {
        heating: n(0.0005),
        cooling: n(0.0005),
        ..bulb()
    };
    let at = light(quick, heat(quick, ambient(), 1.0, 0.005));
    assert!(at > 0.99, "{at}");
}

#[test]
fn a_hotter_filament_glows_whiter() {
    let small = bulb();
    let big = Filament {
        full: n(2900.0),
        ..bulb()
    };
    let [_, _, small_b] = color(settled(small, n(1.0)));
    let [_, _, big_b] = color(settled(big, n(1.0)));
    assert!(big_b > small_b, "{big_b} vs {small_b}");
}

#[test]
fn a_filament_starts_where_it_stands() {
    assert_eq!(heat(bulb(), 1500.0, 1.0, 0.0), 1500.0);
    assert_eq!(light(bulb(), ambient()), 0.0);
}

#[test]
fn evicts_least_recently_used_by_bytes() {
    let mut cache = ByteLru::new(100);
    cache.insert("label", 1, 40);
    cache.insert("score 1", 2, 40);
    // touching the label makes the old score the eviction candidate
    assert_eq!(cache.get(&"label"), Some(&1));
    cache.insert("score 2", 3, 40);
    assert_eq!(cache.get(&"score 1"), None);
    assert_eq!(cache.get(&"label"), Some(&1));
    assert_eq!(cache.get(&"score 2"), Some(&3));
    assert_eq!(cache.bytes(), 80);
}

#[test]
fn replacing_a_key_updates_the_byte_count() {
    let mut cache = ByteLru::new(100);
    cache.insert("a", 1, 60);
    cache.insert("a", 2, 10);
    assert_eq!((cache.bytes(), cache.len()), (10, 1));
}

#[test]
fn an_oversized_entry_is_kept_alone() {
    let mut cache = ByteLru::new(100);
    cache.insert("small", 1, 10);
    cache.insert("huge", 2, 500);
    assert_eq!(cache.get(&"huge"), Some(&2));
    assert_eq!(cache.len(), 1);
}

fn gray4(tint: [u8; 3]) -> OutputColor {
    OutputColor {
        mode: OutputMode::Gray4,
        tint,
    }
}

#[test]
fn rgb_passes_through() {
    let mut px = [10, 20, 30, 40];
    OutputColor::rgb().apply(&mut px);
    assert_eq!(px, [10, 20, 30, 40]);
}

#[test]
fn gray4_quantizes_luminance_and_tints() {
    let orange = gray4([255, 88, 32]);
    assert_eq!(orange.apply_pixel([255, 255, 255, 255]), [255, 88, 32, 255]);
    assert_eq!(orange.apply_pixel([0, 0, 0, 255]), [0, 0, 0, 255]);
    // #404040 has luminance 64/255 -> level round(3.76) = 4 of 15.
    assert_eq!(orange.level([64, 64, 64]), Some(4));
    assert_eq!(orange.apply_pixel([64, 64, 64, 255]), [68, 23, 9, 255]);
    // Pure green is bright, pure blue dark.
    assert_eq!(orange.level([0, 255, 0]), Some(11));
    assert_eq!(orange.level([0, 0, 255]), Some(1));
}

#[test]
fn gray2_has_four_levels() {
    let white = OutputColor {
        mode: OutputMode::Gray2,
        tint: [255, 255, 255],
    };
    assert_eq!(
        white.apply_pixel([128, 128, 128, 255]),
        [170, 170, 170, 255]
    );
}

#[test]
fn whole_frames_are_converted_pixel_by_pixel() {
    let mut frame = [255, 255, 255, 7, 0, 0, 0, 9, 1, 2];
    gray4([255, 88, 32]).apply(&mut frame);
    assert_eq!(frame, [255, 88, 32, 7, 0, 0, 0, 9, 1, 2]);
}

#[test]
fn tint_parses_and_defaults_to_white() {
    let output = Output {
        mode: Some(OutputMode::Gray4),
        tint: Some("#FF5820".into()),
        scaling: None,
        passes: None,
    };
    assert_eq!(
        OutputColor::from_output(&output),
        Some(gray4([255, 88, 32]))
    );
    let output = Output {
        mode: Some(OutputMode::Gray4),
        tint: None,
        scaling: None,
        passes: None,
    };
    assert_eq!(
        OutputColor::from_output(&output),
        Some(gray4([255, 255, 255]))
    );
    let output = Output {
        mode: Some(OutputMode::Gray4),
        tint: Some("orange".into()),
        scaling: None,
        passes: None,
    };
    assert_eq!(OutputColor::from_output(&output), None);
}

#[test]
fn parses_absolute_and_relative_commands() {
    let path = PathData::parse("M10,10 l20 0 v10 H10 z").unwrap();
    assert_eq!(
        path.elements(),
        &[
            PathElement::MoveTo(p(10.0, 10.0)),
            PathElement::LineTo(p(30.0, 10.0)),
            PathElement::LineTo(p(30.0, 20.0)),
            PathElement::LineTo(p(10.0, 20.0)),
            PathElement::Close,
        ]
    );
    assert_eq!(
        bounds(path.elements()),
        Some([n(10.0), n(10.0), n(20.0), n(10.0)])
    );
}

#[test]
fn implicit_lines_after_move_and_smooth_curves() {
    let path = PathData::parse("M0 0 10 0 10 10 C 10 20 0 20 0 10 S -10 0 0 0").unwrap();
    assert_eq!(path.elements()[1], PathElement::LineTo(p(10.0, 0.0)));
    assert_eq!(path.elements()[2], PathElement::LineTo(p(10.0, 10.0)));
    assert_eq!(
        path.elements()[4],
        PathElement::CubicTo(p(0.0, 0.0), p(-10.0, 0.0), p(0.0, 0.0))
    );
    let quad = PathData::parse("M0 0 Q 5 10 10 0 T 20 0").unwrap();
    assert_eq!(
        quad.elements()[2],
        PathElement::QuadTo(p(15.0, -10.0), p(20.0, 0.0))
    );
}

#[test]
fn arcs_become_cubics_that_end_on_the_point() {
    let path = PathData::parse("M0 0 A 10 10 0 0 1 20 0").unwrap();
    // A half circle: two quarter-turn cubics.
    assert_eq!(path.elements().len(), 3);
    match path.elements()[2] {
        PathElement::CubicTo(_, _, end) => assert_eq!(end, p(20.0, 0.0)),
        other => panic!("{other:?}"),
    }
    // The middle lands on the circle's top: sweep flag 1 goes clockwise as seen on a y-down
    // canvas, over the chord.
    match path.elements()[1] {
        PathElement::CubicTo(_, _, [x, y]) => {
            let (x, y) = (f(x), f(y));
            assert!(
                (x - 10.0).abs() < 1e-9 && (y + 10.0).abs() < 1e-9,
                "{x} {y}"
            );
        }
        other => panic!("{other:?}"),
    }
    // Flags run together, as authoring tools write them.
    assert!(PathData::parse("M0 0a10 10 0 0120 0").is_ok());
}

#[test]
fn rejects_bad_data() {
    assert!(PathData::parse("").is_err());
    assert!(PathData::parse("L 10 10").is_err());
    assert!(PathData::parse("M 10").is_err());
    assert!(PathData::parse("M 10 10 X 5").is_err());
    assert!(PathData::parse("M 10 10 L 1 2 3").is_err());
    assert!(PathData::parse("M 1e 2").is_err());
}

#[test]
fn path_problems_say_where_they_are() {
    assert_eq!(
        PathData::parse("M 10 10 X 5").unwrap_err(),
        "unknown path command 'X'"
    );
    assert_eq!(PathData::parse("M 1 2").unwrap().as_str(), "M 1 2");
}

#[test]
fn path_elements_are_placed_point_by_point() {
    let e = PathElement::QuadTo(p(1.0, 2.0), p(3.0, 4.0));
    assert_eq!(
        e.map(|q| [q[0].times(n(2.0)).plus(n(10.0)), q[1].times(n(3.0)).plus(n(20.0))]),
        PathElement::QuadTo(p(12.0, 26.0), p(16.0, 32.0))
    );
    assert_eq!(e.points(), vec![p(1.0, 2.0), p(3.0, 4.0)]);
}

#[test]
fn fit_letterboxes_smoothly_by_default() {
    assert_eq!(
        fit([128, 32], [300, 100], Scaling::Smooth),
        (n(300.0 / 128.0), n(0.0), n(12.5))
    );
}

#[test]
fn pixel_perfect_fit_uses_whole_pixels() {
    // 300 / 128 = 2.34 -> 2x, centered on whole pixels.
    assert_eq!(
        fit([128, 32], [300, 100], Scaling::PixelPerfect),
        (n(2.0), n(22.0), n(18.0))
    );
    // Smaller than the show: shrink (fractionally), never zero.
    assert_eq!(
        fit([128, 32], [64, 64], Scaling::PixelPerfect),
        (n(0.5), n(0.0), n(24.0))
    );
}

fn cell(c: [f64; 4]) -> [Num; 4] {
    [n(c[0]), n(c[1]), n(c[2]), n(c[3])]
}

fn shapes(style: SegmentStyle, mask: u16, c: [f64; 4], snap: bool, look: Look) -> Vec<Vec<[f64; 2]>> {
    polygons(style, mask, cell(c), snap, look)
        .iter()
        .map(|bar| bar.iter().map(|q| [f(q[0]), f(q[1])]).collect())
        .collect()
}

#[test]
fn masks_follow_the_bit_layout() {
    assert_eq!(mask(SegmentStyle::Alpha14, 'x'), 0x5500);
    assert_eq!(mask(SegmentStyle::Alpha14, ' '), 0);
    assert_eq!(mask(SegmentStyle::Numeric7, '8'), 0x7F);
    assert_eq!(mask(SegmentStyle::Numeric7, 'A'), 0);
}

#[test]
fn one_polygon_per_lit_segment() {
    let cell = [0.0, 0.0, 8.0, 16.0];
    // '1' in 14 segments: b, c and the upper right diagonal
    assert_eq!(
        shapes(SegmentStyle::Alpha14, 0x0406, cell, false, Look::default()).len(),
        3
    );
    assert_eq!(
        shapes(SegmentStyle::Numeric7, 0x7F, cell, false, Look::default()).len(),
        7
    );
    assert_eq!(
        shapes(SegmentStyle::Numeric7, 0x80, cell, false, Look::default()).len(),
        1
    );
}

#[test]
fn snapped_bars_cover_whole_pixel_rows_and_columns() {
    // A 12x18 cell: bars come out 1.2 thick and the middle one centered on the boundary
    // between rows 8 and 9.
    let cell = [3.0, 2.0, 12.0, 18.0];
    let whole = |v: f64| v.fract() == 0.0;
    for (bit, horizontal) in [(0, true), (6, true), (3, true), (1, false), (4, false)] {
        let bar = &shapes(
            SegmentStyle::Numeric7,
            1 << bit,
            cell,
            true,
            Look::default(),
        )[0];
        // Points 1 and 5 are the two long edges at one end of the bar.
        let axis = usize::from(horizontal);
        let (one, other) = (bar[1][axis], bar[5][axis]);
        assert!(
            whole(one) && whole(other),
            "segment {bit}: {one} and {other}"
        );
        assert_eq!((one - other).abs(), 1.0, "segment {bit}");
        // Flat ends, on the grid as well.
        let along = 1 - axis;
        assert_eq!(bar[0][along], bar[1][along]);
        assert!(
            whole(bar[0][along]) && whole(bar[3][along]),
            "segment {bit}"
        );
    }
    let loose = &shapes(SegmentStyle::Numeric7, 1 << 6, cell, false, Look::default())[0];
    assert!(!whole(loose[1][1]));
}

#[test]
fn masks_justify_cut_and_fold_dots() {
    let seven = SegmentStyle::Numeric7;
    assert_eq!(masks(seven, "12", 4, Justify::Left), [0x06, 0x5B, 0, 0]);
    assert_eq!(masks(seven, "12", 4, Justify::Right), [0, 0, 0x06, 0x5B]);
    // too long: left keeps the start, right keeps the end
    assert_eq!(masks(seven, "123", 2, Justify::Left), [0x06, 0x5B]);
    assert_eq!(masks(seven, "123", 2, Justify::Right), [0x5B, 0x4F]);
    // the separator lights the previous cell's dot
    assert_eq!(
        masks(seven, "1,2", 3, Justify::Right),
        [0, 0x06 | 0x80, 0x5B]
    );
    assert_eq!(masks(seven, ".", 1, Justify::Left), [0x80]);
}

#[test]
fn a_slant_leans_the_cell_and_keeps_the_baseline() {
    let cell = [0.0, 0.0, 20.0, 40.0];
    let upright = shapes(SegmentStyle::Numeric7, 1 << 0, cell, false, Look::default());
    let leaning = shapes(
        SegmentStyle::Numeric7,
        1 << 0,
        cell,
        false,
        Look {
            slant: n(10.0),
            ..Look::default()
        },
    );
    // The top bar sits well above the baseline, so it moves right by its height times the
    // lean.
    let lean = 10f64.to_radians().tan();
    for (a, b) in upright[0].iter().zip(&leaning[0]) {
        let expected = a[0] - (a[1] - 40.0) * lean;
        assert!((b[0] - expected).abs() < 1e-9, "{a:?} -> {b:?}");
        assert_eq!(a[1], b[1], "a shear moves nothing vertically");
    }
    assert!(
        leaning[0][0][0] > upright[0][0][0] + 5.0,
        "and it is visible"
    );
}

#[test]
fn thickness_widens_the_bars_and_the_gaps_with_them() {
    let cell = [0.0, 0.0, 20.0, 40.0];
    let thin = shapes(SegmentStyle::Numeric7, 1 << 1, cell, false, Look::default());
    let fat = shapes(
        SegmentStyle::Numeric7,
        1 << 1,
        cell,
        false,
        Look {
            thickness: n(0.2),
            ..Look::default()
        },
    );
    let width = |bar: &Vec<[f64; 2]>| {
        let xs: Vec<f64> = bar.iter().map(|p| p[0]).collect();
        xs.iter().cloned().fold(f64::MIN, f64::max) - xs.iter().cloned().fold(f64::MAX, f64::min)
    };
    assert!(width(&fat[0]) > width(&thin[0]) * 1.5, "the bar is fatter");
    // The gaps follow, so the fat one starts further in from the edge.
    let right = |bar: &Vec<[f64; 2]>| bar.iter().map(|p| p[0]).fold(f64::MIN, f64::max);
    assert!(right(&fat[0]) < right(&thin[0]), "and pulled off the edge");
}

#[test]
fn a_fat_display_keeps_a_gap_between_its_segments() {
    // Whatever is asked for, and whatever shape the cell is, the bars stay inside it and stay
    // apart: a digit drawn out of bars that touch is no longer readable as one.
    for cell @ [x, y, w, h] in [
        [0.0, 0.0, 20.0, 40.0],
        [0.0, 0.0, 40.0, 20.0],
        [5.0, 7.0, 24.0, 24.0],
    ] {
        for thickness in [f(num(THICKEST)), 0.3, 1.0, 40.0] {
            let look = Look {
                thickness: n(thickness),
                ..Look::default()
            };
            let bar = |bit: u16| {
                shapes(SegmentStyle::Numeric7, 1 << bit, cell, false, look)
                    .pop()
                    .expect("one bar")
            };
            let span = |bar: Vec<[f64; 2]>, axis: usize| {
                bar.iter().fold((f64::MAX, f64::MIN), |(lo, hi), p| {
                    (lo.min(p[axis]), hi.max(p[axis]))
                })
            };
            let gap = w.min(h) / 50.0;
            // f and b, the two uprights, left and right of the cell.
            let (_, left) = span(bar(5), 0);
            let (right, _) = span(bar(1), 0);
            assert!(right - left > gap, "{cell:?} at {thickness}: uprights");
            // a and g, the top row and the middle one.
            let (top, above) = span(bar(0), 1);
            let (below, _) = span(bar(6), 1);
            assert!(below - above > gap, "{cell:?} at {thickness}: rows");
            // and none of it leaves the cell.
            let (_, bottom) = span(bar(3), 1);
            assert!(top > y && bottom < y + h, "{cell:?} at {thickness}");
            let (outer_left, _) = span(bar(5), 0);
            let (_, outer_right) = span(bar(1), 0);
            assert!(
                outer_left > x && outer_right < x + w,
                "{cell:?} at {thickness}"
            );
        }
    }
}

#[test]
fn a_snapped_slant_is_a_staircase_with_no_diagonal_left() {
    // A cell the size a small display gives a character, where one smeared edge is most of the
    // character.
    let cell = [0.0, 0.0, 8.0, 14.0];
    let look = Look {
        slant: n(12.0),
        ..Look::default()
    };
    for bar in shapes(SegmentStyle::Numeric7, 0x7F | DOT, cell, true, look) {
        // Every corner on the grid, and every edge between two of them level or upright: a
        // diagonal edge is what the renderer smears across two columns, whole-pixel corners or
        // not.
        for &[px, py] in &bar {
            assert_eq!((px.fract(), py.fract()), (0.0, 0.0), "{px}, {py}");
        }
        for edge in bar
            .windows(2)
            .chain(std::iter::once(&[*bar.last().unwrap(), bar[0]][..]))
        {
            let ([ax, ay], [bx, by]) = (edge[0], edge[1]);
            assert!(
                ax == bx || ay == by,
                "{:?} to {:?} is a diagonal",
                edge[0],
                edge[1]
            );
        }
    }
    // The steps lean the way the slant says: the top of a cell sits to the right of its
    // baseline.
    let leftmost = |bar: &Vec<[f64; 2]>| bar.iter().map(|p| p[0]).fold(f64::MAX, f64::min);
    let upright = shapes(SegmentStyle::Numeric7, 1 << 0, cell, true, Look::default());
    let leaning = shapes(SegmentStyle::Numeric7, 1 << 0, cell, true, look);
    assert!(leftmost(&leaning[0]) > leftmost(&upright[0]));
    // Off the grid it shears by the exact amount instead.
    let loose = shapes(SegmentStyle::Numeric7, 1 << 0, cell, false, look);
    assert!(loose[0].iter().any(|[px, _]| px.fract() != 0.0));
}

#[test]
fn a_lean_past_the_cap_is_still_a_display() {
    // Beyond the cap a strip would step further than the one above it is wide, and the
    // staircase would come apart.
    let cell = [0.0, 0.0, 8.0, 14.0];
    let steps = |slant: f64| {
        let look = Look {
            slant: n(slant),
            ..Look::default()
        };
        let bar = shapes(SegmentStyle::Numeric7, 1 << 1, cell, true, look)
            .pop()
            .expect("one bar");
        // The left side of the outline, one step per pixel row.
        let mut xs: Vec<f64> = bar[..bar.len() / 2].iter().map(|p| p[0]).collect();
        xs.dedup();
        xs.windows(2)
            .map(|w| (w[1] - w[0]).abs())
            .fold(0.0, f64::max)
    };
    let leanest = f(num(LEANEST));
    assert!(steps(leanest) <= 1.0, "{}", steps(leanest));
    assert_eq!(steps(80.0), steps(leanest), "clamped to the cap");
}

#[test]
fn growing_a_segment_only_makes_it_wider() {
    let cell = [0.0, 0.0, 20.0, 40.0];
    let plain = shapes(SegmentStyle::Numeric7, 1 << 0, cell, false, Look::default());
    let grown = shapes(
        SegmentStyle::Numeric7,
        1 << 0,
        cell,
        false,
        Look {
            grow: n(4.0),
            ..Look::default()
        },
    );
    let height = |bar: &Vec<[f64; 2]>| {
        let ys: Vec<f64> = bar.iter().map(|p| p[1]).collect();
        ys.iter().cloned().fold(f64::MIN, f64::max) - ys.iter().cloned().fold(f64::MAX, f64::min)
    };
    assert!((height(&grown[0]) - height(&plain[0]) - 4.0).abs() < 1e-9);
}
