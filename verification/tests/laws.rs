//! What holds of several calls together, on concrete values.

use cuelight::cells::cells;
use cuelight::color::{color_text, parse_color};
use cuelight::font::{tokenize, BitmapFont};
use cuelight::hear::frame_key;
use cuelight::lamp::{temperature, Filament};
use cuelight::model::{sample_keys, Choice, Fill, Pick};
use cuelight::lru::ByteLru;
use cuelight::names::NameMap;
use cuelight::num::{num, Num};
use cuelight::pick::{pick_one, scramble};
use cuelight::raster::{Rgba, StyledFont};
use cuelight::segments::{alpha14_mask, polygons, Look};
use cuelight::tree::Root;
use cuelight::{
    Blend, Easing, Engine, Error, Event, Justify, Key, Layer, LayerKind, Output, OutputColor, OutputMode,
    PathData, PathElement, Property, Retrigger, Scaling, Scene, SegmentStyle, Shape, Show, Timeline, Track,
    Transition, Triggers, Value,
};

fn n(x: f64) -> Num {
    num(x.to_bits())
}

fn f(x: Num) -> f64 {
    f64::from_bits(x.bits)
}

fn on(names: &[&str]) -> Triggers {
    Triggers(names.iter().map(|s| s.to_string()).collect())
}

fn layer(name: &str, kind: LayerKind) -> Layer {
    Layer {
        name: name.into(),
        kind,
        x: n(0.0),
        y: n(0.0),
        opacity: n(1.0),
        scale: n(1.0),
        scale_x: n(1.0),
        scale_y: n(1.0),
        rotation: n(0.0),
        anchor: None,
        visible: true,
        overflow: false,
        blend: Blend::Normal,
        bindings: vec![],
        timelines: vec![],
    }
}

fn rect(name: &str) -> Layer {
    layer(
        name,
        LayerKind::Shape {
            shape: Shape::Rect {
                rect: [n(0.0), n(0.0), n(10.0), n(10.0)],
                radius: None,
            },
            fill: Fill::Color("#FF0000".into()),
            stroke: None,
        },
    )
}

fn group(name: &str, children: Vec<Layer>) -> Layer {
    layer(
        name,
        LayerKind::Group {
            children,
            clip: None,
            gain: n(1.0),
        },
    )
}

fn audio(name: &str, sounds: &[&str], trigger: &[&str]) -> Layer {
    layer(
        name,
        LayerKind::Audio {
            sound: Choice(sounds.iter().map(|s| s.to_string()).collect()),
            pick: Pick::InOrder,
            trigger: on(trigger),
            autoplay: false,
            looping: false,
            delay: n(0.0),
            repeat: None,
            on_end: None,
            stop: on(&[]),
            rest: n(0.0),
            retrigger: Retrigger::Restart,
            voices: 4,
            gain: n(1.0),
            bus: None,
            duck: None,
        },
    )
}

fn show(layers: Vec<Layer>) -> Show {
    Show {
        format: 1,
        name: "test".into(),
        size: [128, 32],
        background: "#000000".into(),
        output: Output::default(),
        fonts: NameMap::new(),
        variables: NameMap::new(),
        values: NameMap::new(),
        layers,
        scenes: vec![],
    }
}

fn scene(name: &str, trigger: &[&str], layers: Vec<Layer>) -> Scene {
    Scene {
        name: name.into(),
        trigger: on(trigger),
        output: None,
        layers,
    }
}

fn running(show: Show) -> Engine {
    let mut engine = Engine::new(0);
    engine.load_show("{}", Ok(show), "{}").unwrap();
    engine
}

fn run(engine: &mut Engine, dt: f64) {
    engine.advance_frame(n(dt));
}

fn key(t: f64, v: f64) -> Key {
    Key {
        t: n(t),
        v: n(v),
        ease: Easing::Linear,
    }
}

fn timeline(name: &str, trigger: &[&str], property: Property, keys: Vec<Key>) -> Timeline {
    Timeline {
        name: name.into(),
        trigger: on(trigger),
        when: None,
        whilst: None,
        autoplay: false,
        looping: false,
        delay: n(0.0),
        repeat: None,
        on_end: None,
        hold: false,
        tracks: vec![Track { property, keys }],
    }
}

#[test]
fn easings_meet_their_ends_exactly() {
    let all = [
        Easing::Linear,
        Easing::QuadIn,
        Easing::QuadOut,
        Easing::QuadInOut,
        Easing::CubicIn,
        Easing::CubicOut,
        Easing::CubicInOut,
        Easing::Step,
        Easing::BackIn,
        Easing::BackOut,
        Easing::BackInOut,
        Easing::ElasticOut,
        Easing::BounceOut,
    ];
    for ease in all {
        if ease != Easing::BackOut {
            assert_eq!(f(ease.apply(n(0.0))), 0.0, "{ease:?}");
        }
        if ease != Easing::BackIn {
            assert_eq!(f(ease.apply(n(1.0))), 1.0, "{ease:?}");
        }
    }
}

#[test]
fn plays_never_share_an_id() {
    let mut a = audio("a", &["s"], &["go"]);
    if let LayerKind::Audio { retrigger, .. } = &mut a.kind {
        *retrigger = Retrigger::Overlap;
    }
    let mut engine = running(show(vec![a]));
    engine.set_sound("s", n(1.0)).unwrap();
    let mut seen: Vec<u64> = vec![];
    let mut latest = 0;
    for step in 0..20 {
        engine.trigger("go");
        if step == 10 {
            engine.restart();
        }
        run(&mut engine, 0.3);
        let ids: Vec<u64> = engine.voices().unwrap().iter().map(|v| v.id).collect();
        for (i, id) in ids.iter().enumerate() {
            assert!(!ids[..i].contains(id), "two plays share {id}");
            assert!(seen.contains(id) || *id > latest, "{id} was given out before");
        }
        latest = latest.max(ids.iter().copied().max().unwrap_or(0));
        seen.extend(ids);
    }
}

#[test]
fn a_trigger_nobody_listens_to_changes_nothing() {
    let mut layer = rect("box");
    layer.timelines = vec![timeline("t", &["go"], Property::X, vec![key(0.0, 0.0), key(1.0, 1.0)])];
    let mut engine = running(show(vec![layer]));
    engine.trigger("go");
    run(&mut engine, 0.25);
    let before = engine.values().unwrap();
    engine.trigger("nothing");
    assert_eq!(engine.values().unwrap(), before);
    assert_eq!(engine.drain_events(), vec![]);
}

#[test]
fn a_host_trigger_is_not_echoed_and_events_are_capped() {
    let mut layer = rect("box");
    let mut tl = timeline("t", &["go"], Property::X, vec![key(0.0, 0.0), key(0.01, 1.0)]);
    tl.on_end = Some("go".into());
    layer.timelines = vec![tl];
    let mut engine = running(show(vec![layer]));
    engine.trigger("go");
    assert_eq!(engine.drain_events(), vec![]);
    run(&mut engine, 10.0);
    let events = engine.drain_events();
    assert_eq!(events.len(), 256);
    assert!(events.iter().all(|e| *e == Event::Trigger("go".into())));
}

#[test]
fn a_frame_lands_exactly_on_its_instant() {
    let mut engine = running(show(vec![rect("box")]));
    engine.advance_to(n(1.0 / 3.0));
    assert_eq!(f(engine.time()), 1.0 / 3.0);
    engine.advance_to(n(0.1));
    assert_eq!(f(engine.time()), 1.0 / 3.0, "never backwards");
}

#[test]
fn entering_a_scene_leaves_nothing_of_the_last_one() {
    let mut first = audio("first", &["s"], &["go"]);
    if let LayerKind::Audio { looping, .. } = &mut first.kind {
        *looping = true;
    }
    let mut s = show(vec![audio("own", &["s"], &["go"])]);
    s.scenes = vec![scene("one", &["one"], vec![first]), scene("two", &["two"], vec![])];
    let mut engine = running(s);
    engine.set_sound("s", n(10.0)).unwrap();
    engine.trigger("go");
    assert_eq!(engine.voices().unwrap().len(), 2);
    engine.trigger("two");
    let left: Vec<String> = engine.voices().unwrap().into_iter().map(|v| v.layer).collect();
    assert_eq!(left, ["own"]);
    engine.trigger("one");
    assert_eq!(engine.voices().unwrap().len(), 1, "it does not come back by itself");
}

#[test]
fn loading_keeps_assets_and_starts_over() {
    let mut s = show(vec![rect("box")]);
    s.variables.insert("v".into(), Value::Number(n(1.0)));
    let mut engine = running(show(vec![]));
    engine.set_image("art", 1, 1, vec![1, 2, 3, 4]).unwrap();
    engine.set_sound("s", n(1.0)).unwrap();
    engine.set_variable("old", Value::Bool(true));
    run(&mut engine, 3.0);
    engine.load_show("{}", Ok(s), "{}").unwrap();
    assert_eq!(f(engine.time()), 0.0);
    assert_eq!(engine.image("art").unwrap().pixels, [1, 2, 3, 4]);
    assert_eq!(engine.sound_duration("s"), Some(n(1.0)));
    assert_eq!(engine.variable("old"), None);
    assert_eq!(engine.variable("v"), Some(&Value::Number(n(1.0))));
}

#[test]
fn a_newer_format_is_refused_whatever_else_is_wrong() {
    let mut engine = Engine::new(0);
    assert_eq!(
        engine.load_show("{\"format\": 7, \"name\": 3}", Err("bad name".into()), ""),
        Err(Error::UnsupportedFormat { found: 7, supported: 1 })
    );
}

#[test]
fn frame_names_tell_layers_apart() {
    let roots = [Root::Show, Root::Scene(0), Root::Scene(1), Root::Scene(11)];
    let paths: [&[usize]; 5] = [&[], &[1], &[11], &[1, 1], &[1, 11]];
    let mut names = vec![];
    for root in roots {
        for path in paths {
            names.push(frame_key(root, path));
        }
    }
    for i in 0..names.len() {
        for j in 0..i {
            assert_ne!(names[i], names[j]);
        }
    }
    assert_eq!(frame_key(Root::Show, &[2, 0]), "video show/2/0");
}

#[test]
fn colors_survive_being_written() {
    for c in [[0, 0, 0, 255], [1, 2, 3, 4], [255, 254, 253, 0]] {
        assert_eq!(parse_color(&color_text(c)), Some(c));
    }
    assert_eq!(parse_color("#12345"), None);
    assert_eq!(parse_color("123456"), None);
}

#[test]
fn a_scramble_holds_everything_once() {
    for round in 0..5 {
        let mut order = scramble(9, 42, round);
        assert_eq!(order, scramble(9, 42, round), "the same every time");
        order.sort();
        assert_eq!(order, (0..9).collect::<Vec<u64>>());
    }
    let names = Choice(vec!["a".into(), "b".into()]);
    assert_eq!(pick_one(&names, Pick::InOrder, 5, 0), "b");
    assert_eq!(pick_one(&Choice::one("a".into()), Pick::Random, 5, 0), "a");
}

#[test]
fn rows_of_cells_have_their_length() {
    assert_eq!(cells("12", 4, Justify::Right), [None, None, Some('1'), Some('2')]);
    assert_eq!(cells("1234", 2, Justify::Left), [Some('1'), Some('2')]);
    assert_eq!(cells("1234", 2, Justify::Right), [Some('3'), Some('4')]);
}

#[test]
fn keys_hold_beyond_their_ends() {
    let keys = vec![key(1.0, 10.0), key(3.0, 30.0)];
    assert_eq!(sample_keys(&keys, n(0.0)), Some(n(10.0)));
    assert_eq!(sample_keys(&keys, n(2.0)), Some(n(20.0)));
    assert_eq!(sample_keys(&keys, n(9.0)), Some(n(30.0)));
    assert_eq!(sample_keys(&vec![], n(9.0)), None);
}

#[test]
fn a_move_arrives_where_it_is_going() {
    let t = Transition {
        duration: n(1.0),
        model: None,
        kelvin: None,
        heating: None,
        cooling: None,
        ease: Easing::QuadOut,
        wrap: None,
        direction: None,
        step: Some(n(10.0)),
        offset: vec![],
    };
    assert_eq!(f(t.move_time()), 1.0);
    // Three moves of ten at most, one second each.
    assert_eq!(t.value_at(n(0.0), n(25.0), n(0.0)), n(0.0));
    assert_eq!(t.value_at(n(0.0), n(25.0), n(3.0)), n(25.0));
    assert_eq!(t.value_at(n(0.0), n(25.0), n(99.0)), n(25.0));
}

#[test]
fn an_output_overrides_only_what_it_sets() {
    let base = Output {
        mode: Some(OutputMode::Gray4),
        tint: Some("#FF0000".into()),
        scaling: None,
        passes: None,
    };
    let over = Output {
        mode: None,
        tint: Some("#00FF00".into()),
        scaling: Some(Scaling::PixelPerfect),
        passes: None,
    };
    let both = over.over(&base);
    assert_eq!(both.mode, Some(OutputMode::Gray4));
    assert_eq!(both.tint.as_deref(), Some("#00FF00"));
    assert_eq!(both.scaling, Some(Scaling::PixelPerfect));
}

#[test]
fn paths_start_with_a_move_and_arcs_end_on_their_point() {
    for d in ["M1 2 L3 4", "m 5 5 a 3 4 10 1 0 7 8", "M0 0 A0 5 0 0 0 9 9"] {
        assert!(matches!(PathData::parse(d).unwrap().elements()[0], PathElement::MoveTo(_)));
    }
    let arc = PathData::parse("M5 5 A3 4 10 1 0 12 13").unwrap();
    match arc.elements().last() {
        Some(PathElement::CubicTo(_, _, end)) => assert_eq!((f(end[0]), f(end[1])), (12.0, 13.0)),
        other => panic!("{other:?}"),
    }
    let flat = PathData::parse("M0 0 A0 5 0 0 0 9 9").unwrap();
    assert_eq!(flat.elements()[1], PathElement::LineTo([n(9.0), n(9.0)]));
}

#[test]
fn names_are_kept_in_order() {
    let mut map = NameMap::new();
    for name in ["b", "a", "c", "a"] {
        map.insert(name.into(), Value::Text(name.into()));
    }
    let names: Vec<&str> = (0..map.len()).map(|i| map.name_at(i).as_str()).collect();
    assert_eq!(names, ["a", "b", "c"]);
    map.remove("b");
    assert!(!map.contains("b"));
    assert_eq!(map.get("a"), Some(&Value::Text("a".into())));
}

#[test]
fn every_layer_tree_is_listed() {
    let mut s = show(vec![rect("a")]);
    s.scenes = vec![scene("one", &[], vec![rect("b"), rect("c")]), scene("two", &[], vec![])];
    let sizes: Vec<usize> = s.layer_trees().iter().map(|t| t.len()).collect();
    assert_eq!(sizes, [1, 2, 0]);
}

#[test]
fn white_space_of_any_kind_parts_words() {
    assert_eq!(
        tokenize("char\tid=65\u{a0}x=1"),
        [
            ("char".into(), "".into()),
            ("id".into(), "65".into()),
            ("x".into(), "1".into())
        ]
    );
}

#[test]
fn heat_starts_where_it_stands_for_any_lamp() {
    let lamp = Filament {
        heating: n(0.5),
        ..Filament::default()
    };
    assert_eq!(temperature(lamp, n(1234.5), n(0.7), n(0.0)), n(1234.5));
}

#[test]
fn a_hidden_group_takes_its_layers_with_it() {
    let mut g = group("g", vec![rect("r")]);
    g.visible = false;
    let mut engine = running(show(vec![g]));
    assert_eq!(engine.resolved_layers().unwrap(), vec![]);
    assert_eq!(engine.picture().unwrap(), vec![]);
}

#[test]
fn only_hex_digits_write_a_color() {
    assert_eq!(parse_color("#FF5820"), Some([255, 88, 32, 255]));
    assert_eq!(parse_color("#FF582080"), Some([255, 88, 32, 128]));
    for wrong in ["orange", "FF5820", "#FF58", "#GG0000", "#+F0000", "#F+0000", "#0000-1"] {
        assert_eq!(parse_color(wrong), None, "{wrong}");
    }
}

#[test]
fn gentle_easings_stay_within_and_the_others_miss_by_a_rounding() {
    let gentle = [
        Easing::Linear,
        Easing::QuadIn,
        Easing::QuadOut,
        Easing::QuadInOut,
        Easing::CubicIn,
        Easing::CubicOut,
        Easing::CubicInOut,
        Easing::Step,
        Easing::BounceOut,
    ];
    for ease in gentle {
        for i in -4..=1028 {
            let y = f(ease.apply(n(f64::from(i) / 1024.0)));
            assert!((0.0..=1.0).contains(&y), "{ease:?} at {i}: {y}");
        }
    }
    assert_eq!(f(Easing::BackIn.apply(n(1.0))), 1.0 - f64::EPSILON);
    assert_eq!(f(Easing::BackOut.apply(n(0.0))), f64::EPSILON);
}

#[test]
fn levels_run_from_black_to_white_and_convert_once() {
    for (mode, max) in [(OutputMode::Gray2, 3), (OutputMode::Gray4, 15)] {
        let output = OutputColor { mode, tint: [255, 255, 255] };
        assert_eq!(output.max_level(), Some(max));
        assert_eq!(output.level([0, 0, 0]), Some(0));
        assert_eq!(output.level([255, 255, 255]), Some(max));
        let mut last = Some(0);
        for c in 0..=255u8 {
            let level = output.level([c, c, 10]);
            assert!(last <= level && level <= Some(max));
            last = level;
            let once = output.apply_pixel([c, 7, 255 - c, c]);
            assert_eq!(output.apply_pixel(once), once);
            assert_eq!(once[3], c);
        }
    }
    assert_eq!(OutputColor::rgb().level([1, 2, 3]), None);
}

fn face() -> BitmapFont {
    BitmapFont::parse(
        "common lineHeight=4 pages=1\npage id=0 file=\"a\"\nchar id=65 x=0 y=0 width=2 height=5 \
         xoffset=0 yoffset=1 xadvance=3 page=0\n",
    )
    .unwrap()
}

#[test]
fn a_joined_text_measures_as_its_parts() {
    let font = face();
    let page = Rgba::transparent(4, 6);
    let plain = StyledFont::new(&font, &vec![page], [255, 0, 0], None);
    assert_eq!(plain.measure("AA"), (6, 6));
    assert_eq!(plain.measure("A\nAA"), (6, 10));
    assert_eq!(plain.measure("A\r\nAA"), (6, 10));
    assert_eq!(plain.measure("AA\n"), (6, 8));
    let page = Rgba::transparent(4, 6);
    let bordered = StyledFont::new(&font, &vec![page], [255, 0, 0], Some(([0, 0, 0], 2)));
    // Four pixels for each of two glyphs; what has no glyph adds nothing.
    assert_eq!(bordered.measure("AxA"), (14, 6));
}

#[test]
fn a_display_past_its_caps_is_one_at_them() {
    let look = |thickness: f64, slant: f64| Look {
        thickness: n(thickness),
        slant: n(slant),
        grow: n(0.0),
    };
    let cell = [n(0.0), n(0.0), n(20.0), n(40.0)];
    let draw = |look: Look, snap: bool| polygons(SegmentStyle::Alpha14, 0x7FFF, cell, snap, look);
    for snap in [false, true] {
        assert_eq!(draw(look(0.9, 10.0), snap), draw(look(0.2, 10.0), snap));
        assert_eq!(draw(look(0.1, 80.0), snap), draw(look(0.1, 45.0), snap));
        assert_eq!(draw(look(0.1, -80.0), snap), draw(look(0.1, -45.0), snap));
    }
    let heights = |list: Vec<Vec<[Num; 2]>>| -> Vec<Vec<Num>> {
        list.iter().map(|points| points.iter().map(|p| p[1]).collect()).collect()
    };
    assert_eq!(heights(draw(look(0.1, 20.0), false)), heights(draw(look(0.1, 0.0), false)));
}

#[test]
fn characters_of_a_display_look_different() {
    let plain: Vec<char> = ('0'..='9').chain('A'..='Z').collect();
    for (i, c) in plain.iter().enumerate() {
        assert_ne!(alpha14_mask(*c), 0);
        assert_eq!(alpha14_mask(*c), alpha14_mask(c.to_ascii_lowercase()));
        assert!(plain[..i].iter().all(|d| alpha14_mask(*d) != alpha14_mask(*c)));
    }
    assert_eq!((alpha14_mask('.'), alpha14_mask(','), alpha14_mask('#')), (0x80, 0x80, 0));
}

#[test]
fn a_cache_finds_what_was_stored_last() {
    let mut cache = ByteLru::new(usize::MAX);
    cache.insert("a", 1, usize::MAX - 10);
    cache.insert("b", 2, 10);
    // What is replaced no longer counts.
    cache.insert("a", 3, usize::MAX - 10);
    assert_eq!(cache.get(&"a"), Some(&3));
    assert_eq!(cache.get(&"b"), Some(&2));
    assert_eq!((cache.len(), cache.bytes()), (2, usize::MAX));
}

#[test]
fn a_path_element_is_mapped_point_by_point() {
    let p = |x: f64, y: f64| [n(x), n(y)];
    let swap = |q: [Num; 2]| [q[1], q[0]];
    assert_eq!(
        PathElement::CubicTo(p(1.0, 2.0), p(3.0, 4.0), p(5.0, 6.0)).map(swap),
        PathElement::CubicTo(p(2.0, 1.0), p(4.0, 3.0), p(6.0, 5.0))
    );
    assert_eq!(PathElement::Close.map(swap), PathElement::Close);
    let mut seen = vec![];
    PathElement::QuadTo(p(1.0, 2.0), p(3.0, 4.0)).map(|q| {
        seen.push(q);
        q
    });
    assert_eq!(seen, [p(1.0, 2.0), p(3.0, 4.0)]);
}
