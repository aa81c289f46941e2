//! Draw lists, and what becomes of them.

use cuelight::font::BitmapFont;
use cuelight::frame::{cut_cell, fade, grille_tile, pack_rows, plan, row_stride, Plan};
use cuelight::model::{Fill, Glow, Gradient, Stop, Tile};
use cuelight::names::NameMap;
use cuelight::num::{num, Num};
use cuelight::outline::{OutlineFace, OutlineGlyph};
use cuelight::paint::{Brush, Command, Picture, Region};
use cuelight::shape::{rect_path, sheet_cell, ResolvedGradientKind};
use cuelight::{
    Align, Binding, Blend, Border, DigitDisplay, DotShape, Dots, Easing, Engine, FontStyle,
    Justify, Layer, LayerKind, NumberFormat, Output, OutputMode, Pass, PathData, PathElement,
    Property, Reel, ReelCells, ResolvedLayer, ResolvedShape, Scaling, SegmentStyle, Shape, Sheet,
    Show, Stroke, Transform, Triggers, Value, Vector, VectorPath,
};
use std::collections::HashMap;

fn n(x: f64) -> Num {
    num(x.to_bits())
}

fn f(x: Num) -> f64 {
    f64::from_bits(x.bits)
}

fn layer(name: &str, kind: LayerKind) -> Layer {
    Layer {
        name: name.into(),
        kind,
        x: n(0.0),
        y: n(0.0),
        opacity: n(1.0),
        scale: n(1.0),
        scale_x: n(1.0),
        scale_y: n(1.0),
        rotation: n(0.0),
        anchor: None,
        visible: true,
        overflow: false,
        blend: Blend::Normal,
        bindings: vec![],
        timelines: vec![],
    }
}

fn show(layers: Vec<Layer>) -> Show {
    Show {
        format: 1,
        name: "test".into(),
        size: [128, 32],
        background: "#102030".into(),
        output: Output::default(),
        fonts: NameMap::new(),
        variables: NameMap::new(),
        values: NameMap::new(),
        layers,
        scenes: vec![],
    }
}

fn square() -> Shape {
    Shape::Rect {
        rect: [n(0.0), n(0.0), n(10.0), n(20.0)],
        radius: None,
    }
}

fn shape(name: &str, shape: Shape, fill: &str) -> Layer {
    layer(
        name,
        LayerKind::Shape {
            shape,
            fill: Fill::Color(fill.into()),
            stroke: None,
        },
    )
}

fn bind(property: Property, variable: &str) -> Binding {
    Binding {
        property,
        variable: variable.into(),
        scale: n(1.0),
        offset: n(0.0),
        decimals: None,
        format: NumberFormat::Plain,
        prefix: String::new(),
        suffix: String::new(),
        map: None,
        default: None,
        threshold: None,
        debounce: None,
        curve: vec![],
        transition: None,
    }
}

fn p(x: f64, y: f64) -> [Num; 2] {
    [n(x), n(y)]
}

fn running(show: Show) -> Engine {
    let mut engine = Engine::new(0);
    engine.load_show("{}", Ok(show), "{}").unwrap();
    engine
}

fn drawn(layers: Vec<Layer>) -> Vec<ResolvedLayer> {
    running(show(layers)).resolved_layers().unwrap()
}

fn group(name: &str, children: Vec<Layer>, clip: Option<Shape>) -> Layer {
    layer(
        name,
        LayerKind::Group {
            children,
            clip,
            gain: n(1.0),
        },
    )
}

fn image(name: &str, image: &str) -> Layer {
    layer(
        name,
        LayerKind::Image {
            image: image.into(),
            size: None,
            sheet: None,
            frame: n(0.0),
            tint: None,
            repeat: None,
        },
    )
}

#[test]
fn a_rect_lands_on_the_canvas() {
    let mut a = shape("a", square(), "#11223344");
    a.x = n(5.0);
    a.y = n(7.0);
    a.scale = n(2.0);
    a.opacity = n(0.5);
    let list = drawn(vec![a]);
    assert_eq!(list.len(), 1);
    assert_eq!(list[0].color, [0x11, 0x22, 0x33, 0x44]);
    assert_eq!(list[0].opacity, n(0.5));
    assert_eq!(list[0].transform, Transform::identity());
    assert_eq!(
        list[0].shape,
        ResolvedShape::Rect {
            x: n(5.0),
            y: n(7.0),
            width: n(20.0),
            height: n(40.0)
        }
    );
}

#[test]
fn groups_place_fade_and_bleed_their_children() {
    let mut child = shape("child", square(), "#FFFFFF");
    child.x = n(3.0);
    child.opacity = n(0.5);
    let mut g = group("g", vec![child], None);
    g.x = n(10.0);
    g.scale = n(2.0);
    g.opacity = n(0.5);
    g.overflow = true;
    let list = drawn(vec![g]);
    assert_eq!(list[0].opacity, n(0.25));
    assert!(list[0].overflow);
    assert_eq!(
        list[0].shape,
        ResolvedShape::Rect {
            x: n(16.0),
            y: n(0.0),
            width: n(20.0),
            height: n(40.0)
        }
    );
}

#[test]
fn a_turned_layer_keeps_its_shape_and_carries_its_placement() {
    let mut a = shape("a", square(), "#FFFFFF");
    a.x = n(4.0);
    a.rotation = n(90.0);
    a.anchor = Some(Align::Center);
    let list = drawn(vec![a]);
    assert_eq!(
        list[0].shape,
        ResolvedShape::Rect {
            x: n(0.0),
            y: n(0.0),
            width: n(10.0),
            height: n(20.0)
        }
    );
    // The middle of the box lands on the layer's place.
    let [x, y] = list[0].transform.apply(p(5.0, 10.0));
    assert!((f(x) - 4.0).abs() < 1e-9 && f(y).abs() < 1e-9);
    // A quarter turn, clockwise on a canvas whose y grows down.
    let [x, y] = list[0].transform.apply(p(6.0, 10.0));
    assert!((f(x) - 4.0).abs() < 1e-9 && (f(y) - 1.0).abs() < 1e-9);
}

#[test]
fn maps_of_the_plane_compose() {
    let move_then_scale = Transform::scale(n(2.0), n(3.0)).after(Transform::translate(n(1.0), n(1.0)));
    assert_eq!(move_then_scale.apply(p(1.0, 1.0)), p(4.0, 6.0));
    assert_eq!(Transform::translate(n(5.0), n(6.0)).plain(), Some((n(1.0), n(5.0), n(6.0))));
    assert_eq!(Transform::scale(n(2.0), n(2.0)).plain(), Some((n(2.0), n(0.0), n(0.0))));
    assert_eq!(Transform::scale(n(2.0), n(3.0)).plain(), None);
    assert_eq!(Transform::scale(n(-1.0), n(-1.0)).plain(), None);
    assert_eq!(Transform::rotate(n(30.0)).plain(), None);
}

#[test]
fn clips_and_blends_bracket_a_group() {
    let mut g = group("g", vec![shape("a", square(), "#FFFFFF")], Some(square()));
    g.blend = Blend::Add;
    let shapes: Vec<ResolvedShape> = drawn(vec![g]).into_iter().map(|l| l.shape).collect();
    assert_eq!(shapes.len(), 5);
    assert_eq!(shapes[0], ResolvedShape::BlendBegin { blend: Blend::Add });
    assert!(matches!(&shapes[1], ResolvedShape::ClipBegin { shape } if matches!(**shape, ResolvedShape::Rect { .. })));
    assert!(matches!(shapes[2], ResolvedShape::Rect { .. }));
    assert_eq!(shapes[3], ResolvedShape::ClipEnd);
    assert_eq!(shapes[4], ResolvedShape::BlendEnd);
}

#[test]
fn strokes_and_corners_make_paths() {
    let mut a = shape("a", square(), "#000000");
    if let LayerKind::Shape { stroke, .. } = &mut a.kind {
        *stroke = Some(Stroke {
            color: "#00FF00".into(),
            width: n(2.0),
        });
    }
    a.scale = n(3.0);
    match &drawn(vec![a])[0].shape {
        ResolvedShape::Path { elements, stroke } => {
            assert_eq!(elements.len(), 5);
            assert_eq!(elements[2], PathElement::LineTo(p(30.0, 60.0)));
            assert_eq!(*stroke, Some(([0, 255, 0, 255], n(6.0))));
        }
        other => panic!("{other:?}"),
    }
    assert_eq!(rect_path([n(0.0), n(0.0), n(10.0), n(20.0)], Some(n(3.0))).len(), 10);
    // A radius is held to half the shorter side.
    assert_eq!(
        rect_path([n(0.0), n(0.0), n(10.0), n(20.0)], Some(n(99.0)))[0],
        PathElement::MoveTo(p(5.0, 0.0))
    );
}

#[test]
fn a_gradient_is_placed_with_its_shape() {
    let mut a = shape("a", square(), "");
    if let LayerKind::Shape { fill, .. } = &mut a.kind {
        *fill = Fill::Gradient(Gradient::Radial {
            center: p(1.0, 2.0),
            radius: n(4.0),
            stops: vec![
                Stop { at: n(0.0), color: "#FF0000".into() },
                Stop { at: n(1.0), color: "#0000FF80".into() },
            ],
        });
    }
    a.x = n(10.0);
    a.scale = n(2.0);
    let list = drawn(vec![a]);
    let gradient = list[0].gradient.as_ref().unwrap();
    assert_eq!(list[0].color, [255, 0, 0, 255]);
    assert_eq!(
        gradient.kind,
        ResolvedGradientKind::Radial {
            center: p(12.0, 4.0),
            radius: n(8.0)
        }
    );
    assert_eq!(gradient.stops, vec![(n(0.0), [255, 0, 0, 255]), (n(1.0), [0, 0, 255, 128])]);
}

#[test]
fn images_draw_cells_tiles_and_tints() {
    let mut a = image("a", "art");
    if let LayerKind::Image { sheet, frame, tint, repeat, size, .. } = &mut a.kind {
        *sheet = Some(Sheet { cell: [4, 4], columns: 2 });
        *frame = n(3.7);
        *tint = Some("#FF8000".into());
        *size = Some(p(20.0, 10.0));
        *repeat = Some(Tile { size: None, offset: p(1.0, 2.0) });
    }
    let mut engine = running(show(vec![a, image("missing", "nothing")]));
    assert_eq!(engine.resolved_layers().unwrap().len(), 0);
    engine.set_image("art", 8, 8, vec![0; 256]).unwrap();
    let list = engine.resolved_layers().unwrap();
    assert_eq!(list.len(), 1);
    assert_eq!(list[0].color, [255, 128, 0, 255]);
    match &list[0].shape {
        ResolvedShape::Image { source, width, tile, .. } => {
            assert_eq!(*source, Some([4, 4, 4, 4]));
            assert_eq!(*width, n(20.0));
            let tile = tile.unwrap();
            assert_eq!((tile.width, tile.height, tile.offset), (n(4.0), n(4.0), p(1.0, 2.0)));
        }
        other => panic!("{other:?}"),
    }
}

#[test]
fn a_sheet_has_only_the_cells_that_fit() {
    let sheet = Sheet { cell: [4, 4], columns: 9 };
    assert_eq!(sheet_cell(sheet, 8, 8, n(1.0)), [4, 0, 4, 4]);
    assert_eq!(sheet_cell(sheet, 8, 8, n(99.0)), [4, 4, 4, 4]);
    assert_eq!(sheet_cell(sheet, 8, 8, n(-1.0)), [0, 0, 4, 4]);
    assert_eq!(sheet_cell(sheet, 8, 8, n(f64::NAN)), [0, 0, 4, 4]);
    assert_eq!(sheet_cell(Sheet { cell: [0, 0], columns: 0 }, 8, 8, n(2.0)), [0, 2, 1, 1]);
}

fn artwork() -> Vector {
    Vector {
        width: n(10.0),
        height: n(20.0),
        paths: vec![VectorPath {
            elements: vec![PathElement::MoveTo(p(0.0, 0.0)), PathElement::LineTo(p(10.0, 20.0))],
            fill: Some([200, 100, 50, 255]),
            stroke: Some(([255, 255, 255, 255], n(1.0))),
        }],
    }
}

#[test]
fn vector_artwork_scales_to_its_size_and_takes_a_tint() {
    let mut a = image("a", "logo");
    if let LayerKind::Image { size, tint, .. } = &mut a.kind {
        *size = Some(p(20.0, 80.0));
        *tint = Some("#FF0000".into());
    }
    let mut engine = running(show(vec![a]));
    engine.set_vector("logo", artwork()).unwrap();
    let list = engine.resolved_layers().unwrap();
    assert_eq!(list[0].color, [200, 0, 0, 255]);
    match &list[0].shape {
        ResolvedShape::Path { elements, stroke } => {
            assert_eq!(elements[1], PathElement::LineTo(p(20.0, 80.0)));
            assert_eq!(*stroke, Some(([255, 0, 0, 255], n(3.0))));
        }
        other => panic!("{other:?}"),
    }
}

fn digits(count: u32, text: &str, display: DigitDisplay) -> Layer {
    layer(
        "digits",
        LayerKind::Digits {
            digits: count,
            size: p(40.0, 20.0),
            text: text.into(),
            justify: Justify::Right,
            display,
        },
    )
}

#[test]
fn a_segment_row_lights_what_it_shows() {
    let display = |unlit: Option<String>| DigitDisplay::Segments {
        style: SegmentStyle::Numeric7,
        fill: "#FF0000".into(),
        unlit,
        slant: n(0.0),
        thickness: None,
        glow: None,
    };
    let list = drawn(vec![digits(4, "81", display(None))]);
    // Seven segments for the eight, two for the one.
    assert_eq!(list.len(), 9);
    assert!(list.iter().all(|l| l.color == [255, 0, 0, 255]));
    let list = drawn(vec![digits(1, "8", display(Some("#202020".into())))]);
    // The dot is the one dark segment of an eight.
    assert_eq!(list.iter().filter(|l| l.color == [0x20, 0x20, 0x20, 255]).count(), 1);
}

fn reel(font: Option<&str>, cells: Option<ReelCells>) -> Reel {
    Reel {
        charset: "012".into(),
        font: font.map(str::to_owned),
        cells,
        duration: n(1.0),
        ease: Easing::Linear,
        direction: None,
        step: None,
        turns: 0,
        window: 1,
        offset: vec![],
        stagger: n(0.0),
        spin: Triggers(vec![]),
    }
}

#[test]
fn a_reel_shows_its_symbols_through_windows() {
    let names = vec!["a".into(), "b".into(), "c".into()];
    let row = digits(2, "12", DigitDisplay::Reel(reel(None, Some(ReelCells::Images(names)))));
    let mut engine = running(show(vec![row]));
    for name in ["a", "b", "c"] {
        engine.set_image(name, 10, 10, vec![0; 400]).unwrap();
    }
    engine.advance_frame(n(0.1));
    let list = engine.resolved_layers().unwrap();
    let shapes: Vec<&ResolvedShape> = list.iter().map(|l| &l.shape).collect();
    // Each cell: its window, the symbol it stands on and the one behind it.
    assert_eq!(shapes.len(), 8);
    match shapes[0] {
        ResolvedShape::ClipBegin { shape } => assert_eq!(
            **shape,
            ResolvedShape::Rect {
                x: n(0.0),
                y: n(0.0),
                width: n(20.0),
                height: n(20.0)
            }
        ),
        other => panic!("{other:?}"),
    }
    match shapes[1] {
        ResolvedShape::Image { image, x, y, width, .. } => {
            assert_eq!(image, "b");
            assert_eq!((f(*x), f(*y), f(*width)), (0.0, 0.0, 20.0));
        }
        other => panic!("{other:?}"),
    }
    match shapes[2] {
        ResolvedShape::Image { image, y, .. } => assert_eq!((image.as_str(), f(*y)), ("c", 20.0)),
        other => panic!("{other:?}"),
    }
    assert_eq!(*shapes[3], ResolvedShape::ClipEnd);
    assert!(matches!(shapes[5], ResolvedShape::Image { image, .. } if image == "c"));
}

const FNT: &str = "common lineHeight=4 base=3 scaleW=4 scaleH=3 pages=1
page id=0 file=\"p.png\"
char id=65 x=0 y=0 width=2 height=3 xoffset=0 yoffset=0 xadvance=3 page=0
";

fn style(size: Option<f64>) -> FontStyle {
    FontStyle {
        file: "font".into(),
        size: size.map(n),
        color: "#FF0000".into(),
        border: None,
        shadow: Some(cuelight::model::Shadow {
            color: "#0000FF80".into(),
            offset: p(1.0, 2.0),
        }),
    }
}

fn text(words: &str, align: Align) -> Layer {
    layer(
        "text",
        LayerKind::Text {
            text: words.into(),
            font: "big".into(),
            size: None,
            align,
        },
    )
}

#[test]
fn bitmap_text_draws_its_shadow_first() {
    let mut s = show(vec![text("A", Align::TopLeft)]);
    s.fonts.insert("big".into(), style(None));
    let mut engine = running(s);
    assert_eq!(engine.resolved_layers().unwrap().len(), 0, "no font yet");
    let font = BitmapFont::parse(FNT).unwrap();
    engine.set_font("font", font, vec![(4, 3, vec![255; 48])]).unwrap();
    let list = engine.resolved_layers().unwrap();
    assert_eq!(list.len(), 2);
    assert!((f(list[0].opacity) - 128.0 / 255.0).abs() < 1e-12);
    assert_eq!(list[1].opacity, n(1.0));
    match (&list[0].shape, &list[1].shape) {
        (ResolvedShape::Bitmap { image: behind, x, y, .. }, ResolvedShape::Bitmap { image, width, .. }) => {
            assert_eq!((f(*x), f(*y), f(*width)), (1.0, 2.0, 2.0));
            assert_eq!(behind.pixels[..4], [0, 0, 255, 255]);
            assert_eq!(image.pixels[..4], [255, 0, 0, 255]);
        }
        other => panic!("{other:?}"),
    }
}

#[test]
fn outline_text_is_a_run_of_glyphs() {
    let mut layer = text("AA", Align::TopLeft);
    layer.scale = n(2.0);
    let mut s = show(vec![layer]);
    let mut look = style(Some(10.0));
    look.border = Some(Border { color: "#00FF00".into(), width: 1 });
    s.fonts.insert("big".into(), look);
    let mut engine = Engine::new(0);
    engine.accept_outline_font("font", vec![1], None).unwrap();
    engine.load_show("{}", Ok(s), "{}").unwrap();
    assert_eq!(engine.resolved_layers().unwrap().len(), 0, "not measured yet");
    // These bytes are no font, so every character is glyph 0.
    let glyph = OutlineGlyph { advance: n(6.0), bounds: Some((n(0.0), n(7.0))) };
    let mut glyphs = HashMap::new();
    glyphs.insert(0, glyph);
    engine.set_face(
        "big",
        OutlineFace { ascent: n(8.0), descent: n(-2.0), leading: n(0.0), glyphs },
    );
    let list = engine.resolved_layers().unwrap();
    assert_eq!(list.len(), 2);
    assert_eq!((list[0].color, list[1].color), ([0, 0, 255, 128], [255, 0, 0, 255]));
    match &list[1].shape {
        ResolvedShape::GlyphRun { size, glyphs, border, .. } => {
            assert_eq!(*size, n(20.0));
            assert_eq!(glyphs.len(), 2);
            assert_eq!((f(glyphs[1].x), f(glyphs[1].y), glyphs[1].id), (12.0, 16.0, 0));
            assert_eq!(*border, Some(([0, 255, 0, 255], n(2.0))));
        }
        other => panic!("{other:?}"),
    }
    // The orders: a border is a stroke of twice its width under the fill.
    let orders = engine.picture().unwrap();
    assert_eq!(orders.len(), 4);
    assert!(matches!(&orders[2], Command::Glyphs { outline: Some(w), .. } if *w == n(4.0)));
    assert!(matches!(&orders[3], Command::Glyphs { outline: None, color: [255, 0, 0, 255], .. }));
}

#[test]
fn orders_follow_the_draw_list() {
    let mut a = shape("a", square(), "#FF000080");
    a.opacity = n(0.5);
    a.blend = Blend::Screen;
    let path = shape(
        "b",
        Shape::Path { path: PathData::parse("M0 0 L5 0 L5 5 Z").unwrap() },
        "#00000000",
    );
    let g = group("g", vec![a, path], Some(Shape::Circle { circle: [n(1.0), n(2.0), n(3.0)] }));
    let mut engine = running(show(vec![g]));
    let orders = engine.picture().unwrap();
    assert_eq!(orders.len(), 5);
    assert!(matches!(
        &orders[0],
        Command::Clip { region: Region::Circle { radius, .. }, .. } if *radius == n(3.0)
    ));
    assert_eq!(orders[1], Command::Blend { blend: Blend::Screen });
    match &orders[2] {
        Command::Fill { region, brush, .. } => {
            assert_eq!(*region, Region::Rect { x0: n(0.0), y0: n(0.0), x1: n(10.0), y1: n(20.0) });
            assert_eq!(*brush, Brush::Solid([255, 0, 0, 64]));
        }
        other => panic!("{other:?}"),
    }
    assert_eq!((&orders[3], &orders[4]), (&Command::Pop, &Command::Pop));
}

#[test]
fn pictures_are_named_or_carried() {
    let mut engine = running(show(vec![image("a", "art")]));
    engine.set_image("art", 1, 1, vec![0; 4]).unwrap();
    let orders = engine.picture().unwrap();
    assert!(matches!(
        &orders[0],
        Command::Draw { picture: Picture::Named { image, source: None, tint: [255, 255, 255, 255] }, .. } if image == "art"
    ));
}

#[test]
fn colors_fade_with_opacity() {
    assert_eq!(fade([1, 2, 3, 255], n(0.5)), [1, 2, 3, 128]);
    assert_eq!(fade([1, 2, 3, 100], n(9.0)), [1, 2, 3, 255]);
    assert_eq!(fade([1, 2, 3, 100], n(-1.0)), [1, 2, 3, 0]);
}

#[test]
fn a_cell_is_cut_out_of_its_image() {
    let mut engine = Engine::new(0);
    let pixels: Vec<u8> = (0..36).collect();
    engine.set_image("art", 3, 3, pixels).unwrap();
    let cell = cut_cell(engine.image("art").unwrap(), [1, 1, 2, 2]);
    assert_eq!((cell.width, cell.height), (2, 2));
    assert_eq!(cell.pixels, [16, 17, 18, 19, 20, 21, 22, 23, 28, 29, 30, 31, 32, 33, 34, 35]);
    let edge = cut_cell(engine.image("art").unwrap(), [2, 2, 5, 5]);
    assert_eq!((edge.width, edge.height, edge.pixels.len()), (1, 1, 4));
    assert_eq!(cut_cell(engine.image("art").unwrap(), [9, 9, 1, 1]).pixels.len(), 0);
}

#[test]
fn an_image_is_multiplied_by_a_tint() {
    let mut art = cuelight::raster::Rgba::transparent(1, 1);
    art.set(0, 0, [200, 100, 50, 255]);
    assert_eq!(art.stained([255, 128, 0, 255]).pixels, [200, 50, 0, 255]);
}

#[test]
fn rows_lose_their_padding() {
    assert_eq!((row_stride(0), row_stride(1), row_stride(64), row_stride(65)), (0, 256, 256, 512));
    let mapped = [1, 2, 3, 4, 0, 0, 5, 6, 7, 8, 0, 0];
    assert_eq!(pack_rows(&mapped, 1, 2, 6), [1, 2, 3, 4, 5, 6, 7, 8]);
}

#[test]
fn the_grille_has_a_hole_for_every_dot() {
    let tile = grille_tile(n(1.0), DotShape::Round);
    assert_eq!((tile.width, tile.height), (64, 64));
    assert_eq!(tile.get(32, 32), [0, 0, 0, 0]);
    assert_eq!(tile.get(0, 0), [0, 0, 0, 255]);
    let square = grille_tile(n(0.5), DotShape::Square);
    assert_eq!(square.get(20, 20), [0, 0, 0, 0]);
    assert_eq!(square.get(10, 32), [0, 0, 0, 255]);
}

#[test]
fn frames_go_the_way_their_pixels_need() {
    assert!(matches!(plan(OutputMode::Rgb, Scaling::Smooth, &vec![], n(2.0)), Plan::Vector));
    assert!(matches!(
        plan(OutputMode::Gray4, Scaling::Smooth, &vec![], n(2.0)),
        Plan::Native { nearest: false, dots } if dots.is_empty()
    ));
    assert!(matches!(
        plan(OutputMode::Rgb, Scaling::PixelPerfect, &vec![], n(2.0)),
        Plan::Native { nearest: true, dots } if dots.is_empty()
    ));
    let dots = || {
        vec![Pass::Dots(Dots {
            unlit: Some("#101010".into()),
            glow: n(0.5),
            ..Dots::default()
        })]
    };
    assert!(matches!(
        plan(OutputMode::Rgb, Scaling::Smooth, &dots(), n(2.9)),
        Plan::Native { nearest: false, dots } if dots.is_empty()
    ));
    match plan(OutputMode::Rgb, Scaling::Smooth, &dots(), n(3.0)) {
        Plan::Native { nearest: true, dots: grids } => {
            assert_eq!(grids.len(), 1);
            assert_eq!(grids[0].unlit, Some([16, 16, 16, 255]));
            assert_eq!(grids[0].glow, Some(n(0.5)));
            assert_eq!(grids[0].size, n(0.8));
        }
        other => panic!("{other:?}"),
    }
    let mut two = dots();
    two.push(Pass::Dots(Dots { size: n(0.25), ..Dots::default() }));
    match plan(OutputMode::Rgb, Scaling::Smooth, &two, n(3.0)) {
        Plan::Native { nearest: true, dots: grids } => {
            assert_eq!((grids.len(), grids[0].size, grids[1].size), (2, n(0.8), n(0.25)));
        }
        other => panic!("{other:?}"),
    }
}

#[test]
fn the_surround_is_the_converted_background() {
    let mut s = show(vec![]);
    s.output = Output {
        mode: Some(OutputMode::Gray2),
        ..Output::default()
    };
    let engine = running(s);
    assert_eq!(engine.background_color(), [0x10, 0x20, 0x30, 255]);
    assert_eq!(engine.surround_color(), [0, 0, 0, 255]);
}

#[test]
fn bound_text_is_formatted_and_worded() {
    let mut layer = text("", Align::TopLeft);
    let mut b = bind(Property::Text, "score");
    b.format = NumberFormat::Thousands;
    b.prefix = "Score ".into();
    b.suffix = "!".into();
    layer.bindings = vec![b];
    let mut s = show(vec![layer]);
    s.fonts.insert("big".into(), style(None));
    let mut engine = running(s);
    engine.set_variable("score", Value::Number(n(1234567.0)));
    let values = engine.values().unwrap();
    let shown = values.iter().find(|v| v.1 == Property::Text).unwrap();
    assert_eq!(shown.2, Value::Text("Score 1,234,567!".into()));
}

#[test]
fn bitmaps_of_text_keep_the_revision_of_their_pixels() {
    let mut s = show(vec![text("A", Align::TopLeft), text("B", Align::TopLeft), text("A", Align::TopLeft)]);
    s.fonts.insert("big".into(), style(None));
    s.layers[1].bindings = vec![bind(Property::Text, "word")];
    let mut engine = running(s);
    engine
        .set_font("font", BitmapFont::parse(FNT).unwrap(), vec![(4, 3, (0..48).map(|i| 200 + i).collect())])
        .unwrap();
    engine.set_image("other", 1, 1, vec![0; 4]).unwrap();
    let revisions = |engine: &mut Engine| -> Vec<u64> {
        engine
            .resolved_layers()
            .unwrap()
            .into_iter()
            .map(|l| match l.shape {
                ResolvedShape::Bitmap { image, .. } => image.revision(),
                other => panic!("{other:?}"),
            })
            .collect()
    };
    engine.set_variable("word", Value::Text("AA".into()));
    // Each text behind its shadow.
    assert_eq!(revisions(&mut engine), [2, 3, 4, 5, 2, 3]);
    assert_eq!(revisions(&mut engine), [2, 3, 4, 5, 2, 3]);
    engine.set_variable("word", Value::Text("AAA".into()));
    assert_eq!(revisions(&mut engine), [2, 3, 6, 7, 2, 3]);
    // A text that comes back comes back under its number, and one that looks the same has its
    // own: the font has no space.
    engine.set_variable("word", Value::Text("AA".into()));
    assert_eq!(revisions(&mut engine), [2, 3, 4, 5, 2, 3]);
    engine.set_variable("word", Value::Text("A A".into()));
    assert_eq!(revisions(&mut engine), [2, 3, 8, 9, 2, 3]);
    engine.set_image("other", 1, 1, vec![0; 4]).unwrap();
    assert_eq!(engine.image("other").unwrap().revision(), 10);
    assert_eq!(engine.image("other").unwrap().clone().revision(), 10);
    match engine.picture().unwrap().remove(0) {
        Command::Draw { picture: Picture::Pixels { image }, .. } => assert_eq!(image.revision(), 2),
        other => panic!("{other:?}"),
    }
    // Another font forgets them all.
    engine
        .set_font("font", BitmapFont::parse(FNT).unwrap(), vec![(4, 3, vec![9; 48])])
        .unwrap();
    assert_eq!(revisions(&mut engine), [11, 12, 13, 14, 11, 12]);
}

#[test]
fn gradient_stops_are_in_single_precision() {
    let stop = |at: f64| Stop { at: n(at), color: "#FF0000".into() };
    let gradient = Gradient::Linear {
        from: p(0.0, 0.0),
        to: p(1.0, 0.0),
        stops: vec![stop(0.1), stop(0.5), stop(1e-46), stop(1e300), stop(-0.3)],
    };
    let resolved = cuelight::shape::resolve_gradient(&gradient, n(0.0), n(0.0), n(1.0)).unwrap();
    let at: Vec<f64> = resolved.stops.iter().map(|s| f(s.0)).collect();
    assert_eq!(at, [0.1f32 as f64, 0.5, 0.0, f64::INFINITY, -0.3f32 as f64]);
    for x in [1.0e-45, 3.0e-39, 1.1754943e-38, 0.7, 16777217.0, 16777219.0, 3.4028235677973366e38, 3.5e38] {
        assert_eq!(f(n(x).single()), x as f32 as f64, "{x:e}");
    }
    assert!(f(n(f64::NAN).single()).is_nan());
}

#[test]
fn vector_artwork_tiles_its_box() {
    let mut a = image("a", "logo");
    if let LayerKind::Image { size, repeat, .. } = &mut a.kind {
        *size = Some(p(20.0, 30.0));
        *repeat = Some(Tile { size: Some(p(10.0, 10.0)), offset: p(3.0, 0.0) });
    }
    let mut engine = running(show(vec![a]));
    engine.set_vector("logo", artwork()).unwrap();
    let list = engine.resolved_layers().unwrap();
    // Three tiles beside each other, the first cut by the edge, in three rows.
    assert_eq!(list.len(), 11);
    match &list[0].shape {
        ResolvedShape::ClipBegin { shape } => assert_eq!(
            **shape,
            ResolvedShape::Rect { x: n(0.0), y: n(0.0), width: n(20.0), height: n(30.0) }
        ),
        other => panic!("{other:?}"),
    }
    assert_eq!(list[10].shape, ResolvedShape::ClipEnd);
    let starts: Vec<[Num; 2]> = list[1..10]
        .iter()
        .map(|l| match &l.shape {
            ResolvedShape::Path { elements, .. } => match elements[0] {
                PathElement::MoveTo(at) => at,
                other => panic!("{other:?}"),
            },
            other => panic!("{other:?}"),
        })
        .collect();
    assert_eq!(starts[..4], [p(-7.0, 0.0), p(3.0, 0.0), p(13.0, 0.0), p(-7.0, 10.0)]);
    assert_eq!(starts[8], p(13.0, 20.0));
}

#[test]
fn a_halo_is_one_picture_under_the_lit_segments() {
    let display = |strength: f64| DigitDisplay::Segments {
        style: SegmentStyle::Numeric7,
        fill: "#FF0000".into(),
        unlit: Some("#202020".into()),
        slant: n(0.0),
        thickness: None,
        glow: Some(Glow { size: n(0.1), strength: n(strength) }),
    };
    let list = drawn(vec![digits(2, "8.1", display(1.0))]);
    // Dark: five of the one and its dot. Lit: seven and a dot, and two.
    assert_eq!(list.len(), 6 + 10 + 10);
    assert!(list[..6].iter().all(|l| l.color == [0x20, 0x20, 0x20, 255]));
    assert_eq!(list[6].shape, ResolvedShape::BlendBegin { blend: Blend::Normal });
    assert_eq!(list[15].shape, ResolvedShape::BlendEnd);
    assert!(list[16..].iter().all(|l| matches!(l.shape, ResolvedShape::Polygon { .. })));
    let brightness = |list: &[ResolvedLayer]| -> Vec<f64> {
        // What the rings so far add up to.
        let mut dark = 1.0;
        list[7..15]
            .iter()
            .map(|l| {
                assert!(matches!(l.shape, ResolvedShape::Path { .. }));
                dark *= 1.0 - f64::from(l.color[3]) / 255.0;
                1.0 - dark
            })
            .collect()
    };
    let bright = brightness(&list);
    for (i, b) in bright.iter().enumerate() {
        let share = (i + 1) as f64 / 8.0;
        assert!((b - share * share).abs() < 0.02, "{i}: {b}");
    }
    assert_eq!(list[14].color, [255, 0, 0, 255]);
    let mut faint = digits(2, "8.1", display(0.5));
    faint.opacity = n(0.5);
    let bright = brightness(&drawn(vec![faint]));
    assert!((bright[7] - 0.25).abs() < 0.02, "{}", bright[7]);
}

#[test]
fn only_what_overflows_leaves_the_canvas() {
    let mut free = shape("free", square(), "#00FF00");
    free.overflow = true;
    let mut lit = shape("lit", square(), "#0000FF");
    lit.blend = Blend::Screen;
    let layers = || {
        vec![shape("a", square(), "#FF0000"), shape("b", square(), "#FF0000")]
    };
    let mut all = layers();
    all.push(free);
    all.push(lit);
    all.push(shape("c", square(), "#FF0000"));
    let mut engine = running(show(all));
    let canvas = |c: &Command| {
        *c == Command::Clip {
            region: Region::Rect { x0: n(0.0), y0: n(0.0), x1: n(128.0), y1: n(32.0) },
            placement: Transform::identity(),
        }
    };
    let orders = engine.presented().unwrap();
    let said: Vec<char> = orders
        .iter()
        .map(|c| match c {
            c if canvas(c) => '(',
            Command::Pop => ')',
            Command::Blend { blend: Blend::Screen } => '[',
            Command::Fill { .. } => 'f',
            other => panic!("{other:?}"),
        })
        .collect();
    assert_eq!(said.iter().collect::<String>(), "(ff)f[(f))(f)");
    let mut plain = running(show(layers()));
    assert_eq!(plain.picture().unwrap().len(), 2);
    assert_eq!(plain.presented().unwrap().len(), 4);
    assert!(Engine::new(0).presented().is_err());
}

/// A font file that holds a character map and nothing else.
fn font_with(encoding: u16, subtable: &[u8]) -> Vec<u8> {
    let mut cmap: Vec<u8> = vec![0, 0, 0, 1, 0, 3];
    cmap.extend(encoding.to_be_bytes());
    cmap.extend(12u32.to_be_bytes());
    cmap.extend(subtable);
    let mut font: Vec<u8> = vec![0, 1, 0, 0, 0, 1, 0, 16, 0, 0, 0, 0];
    font.extend(b"cmap");
    font.extend(0u32.to_be_bytes());
    font.extend(28u32.to_be_bytes());
    font.extend((cmap.len() as u32).to_be_bytes());
    font.extend(cmap);
    font
}

#[test]
fn characters_find_their_glyphs_in_the_font() {
    // Format 12: 'A' and 'B' are glyphs 5 and 6.
    let mut groups: Vec<u8> = vec![0, 12, 0, 0];
    for word in [28u32, 0, 1, 0x41, 0x42, 5] {
        groups.extend(word.to_be_bytes());
    }
    // Format 4, as symbol fonts have it: U+F041 is glyph 9, and so 'A' is.
    let mut symbols: Vec<u8> = vec![];
    for word in [4u16, 32, 0, 4, 4, 1, 0, 0xF041, 0xFFFF, 0, 0xF041, 0xFFFF] {
        symbols.extend(word.to_be_bytes());
    }
    for word in [9u16.wrapping_sub(0xF041), 1, 0, 0] {
        symbols.extend(word.to_be_bytes());
    }
    let face = || {
        let measures = |advance: f64, high: f64| OutlineGlyph {
            advance: n(advance),
            bounds: Some((n(0.0), n(high))),
        };
        let glyphs = [(0, measures(1.0, 1.0)), (5, measures(6.0, 7.0)), (9, measures(4.0, 3.0))];
        OutlineFace {
            ascent: n(8.0),
            descent: n(-2.0),
            leading: n(0.0),
            glyphs: glyphs.into_iter().collect(),
        }
    };
    let ids = |bytes: Vec<u8>, words: &str| -> Vec<(u32, f64)> {
        let mut s = show(vec![text(words, Align::TopLeft)]);
        let mut plain = style(Some(10.0));
        plain.shadow = None;
        s.fonts.insert("big".into(), plain);
        let mut engine = Engine::new(0);
        engine.set_outline_font("font", bytes).unwrap();
        engine.load_show("{}", Ok(s), "{}").unwrap();
        engine.set_face("big", face());
        match &engine.resolved_layers().unwrap()[0].shape {
            ResolvedShape::GlyphRun { glyphs, .. } => {
                glyphs.iter().map(|g| (g.id, f(g.x))).collect()
            }
            other => panic!("{other:?}"),
        }
    };
    let plain = font_with(10, &groups);
    assert_eq!(ids(plain.clone(), "A?A"), [(5, 0.0), (0, 6.0), (5, 7.0)]);
    assert_eq!(ids(font_with(0, &symbols), "AA"), [(9, 0.0), (9, 4.0)]);
    // Ink is what every character has.
    let inked = |words: &str| face().ink(&plain, &words.chars().collect());
    assert_eq!(inked("A"), Some((n(1.0), n(8.0))));
    assert_eq!(inked("A?"), None);
    // Glyph 6 is in the font, and nothing is known of it.
    assert_eq!(inked("B"), None);
    assert_eq!(face().ink_among(&vec![9, 5]), Some((n(1.0), n(8.0))));
    let laid = face().arrange(&vec![vec![5], vec![9, 9]], false, None, Align::TopRight);
    assert_eq!(laid.container, p(8.0, 20.0));
    assert_eq!((laid.glyphs[0].x, laid.glyphs[0].y), (n(2.0), n(8.0)));
}
