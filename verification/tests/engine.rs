//! The engine driven the way a host drives it.

use cuelight::model::{Choice, Duck, Fill, Model, Pick, ShowValue, Tile, ValueTimeline, When};
use cuelight::names::NameMap;
use cuelight::num::{num, Num};
use cuelight::uploads::{first_of, RANGE, RANGES};
use cuelight::{
    Binding, Blend, Direction, Easing, Engine, Error, Event, Key, Layer, LayerKind, NumberFormat,
    Output, Property, Retrigger, Scene, Shape, Show, Timeline, Track, Transition, Triggers, Value,
};

fn n(x: f64) -> Num {
    num(x.to_bits())
}

fn f(x: Num) -> f64 {
    f64::from_bits(x.bits)
}

fn on(names: &[&str]) -> Triggers {
    Triggers(names.iter().map(|s| s.to_string()).collect())
}

fn layer(name: &str, kind: LayerKind) -> Layer {
    Layer {
        name: name.into(),
        kind,
        x: n(0.0),
        y: n(0.0),
        opacity: n(1.0),
        scale: n(1.0),
        scale_x: n(1.0),
        scale_y: n(1.0),
        rotation: n(0.0),
        anchor: None,
        visible: true,
        overflow: false,
        blend: Blend::Normal,
        bindings: vec![],
        timelines: vec![],
    }
}

fn rect(name: &str) -> Layer {
    layer(
        name,
        LayerKind::Shape {
            shape: Shape::Rect {
                rect: [n(0.0), n(0.0), n(10.0), n(10.0)],
                radius: None,
            },
            fill: Fill::Color("#FF0000".into()),
            stroke: None,
        },
    )
}

fn group(name: &str, children: Vec<Layer>) -> Layer {
    layer(
        name,
        LayerKind::Group {
            children,
            clip: None,
            gain: n(1.0),
        },
    )
}

fn audio(name: &str, sounds: &[&str], trigger: &[&str]) -> Layer {
    layer(
        name,
        LayerKind::Audio {
            sound: Choice(sounds.iter().map(|s| s.to_string()).collect()),
            pick: Pick::InOrder,
            trigger: on(trigger),
            autoplay: false,
            looping: false,
            delay: n(0.0),
            repeat: None,
            on_end: None,
            stop: on(&[]),
            rest: n(0.0),
            retrigger: Retrigger::Restart,
            voices: 4,
            gain: n(1.0),
            bus: None,
            duck: None,
        },
    )
}

fn clip(name: &str, video: &str) -> Layer {
    layer(
        name,
        LayerKind::Video {
            video: Choice::one(video.into()),
            pick: Pick::InOrder,
            size: None,
            trigger: on(&[]),
            autoplay: false,
            looping: false,
            delay: n(0.0),
            repeat: None,
            on_end: None,
            stop: on(&[]),
            rest: n(0.0),
            retrigger: Retrigger::Restart,
            voices: 1,
            gain: n(1.0),
            bus: None,
            duck: None,
        },
    )
}

fn key(t: f64, v: f64) -> Key {
    Key {
        t: n(t),
        v: n(v),
        ease: Easing::Linear,
    }
}

fn timeline(name: &str, trigger: &[&str], property: Property, keys: Vec<Key>) -> Timeline {
    Timeline {
        name: name.into(),
        trigger: on(trigger),
        when: None,
        whilst: None,
        autoplay: false,
        looping: false,
        delay: n(0.0),
        repeat: None,
        on_end: None,
        hold: false,
        tracks: vec![Track { property, keys }],
    }
}

fn bind(property: Property, variable: &str) -> Binding {
    Binding {
        property,
        variable: variable.into(),
        scale: n(1.0),
        offset: n(0.0),
        decimals: None,
        format: NumberFormat::Plain,
        prefix: String::new(),
        suffix: String::new(),
        map: None,
        default: None,
        threshold: None,
        debounce: None,
        curve: vec![],
        transition: None,
    }
}

fn ease(duration: f64) -> Transition {
    Transition {
        duration: n(duration),
        model: None,
        kelvin: None,
        heating: None,
        cooling: None,
        ease: Easing::Linear,
        wrap: None,
        direction: None,
        step: None,
        offset: vec![],
    }
}

fn show(layers: Vec<Layer>) -> Show {
    Show {
        format: 1,
        name: "test".into(),
        size: [128, 32],
        background: "#000000".into(),
        output: Output::default(),
        fonts: NameMap::new(),
        variables: NameMap::new(),
        values: NameMap::new(),
        layers,
        scenes: vec![],
    }
}

fn scene(name: &str, trigger: &[&str], layers: Vec<Layer>) -> Scene {
    Scene {
        name: name.into(),
        trigger: on(trigger),
        output: None,
        layers,
    }
}

fn running(show: Show) -> Engine {
    let mut engine = Engine::new(0);
    engine.load_show("{}", Ok(show), "{}").unwrap();
    engine
}

fn run(engine: &mut Engine, dt: f64) {
    engine.advance_frame(n(dt));
}

fn value(engine: &Engine, name: &str, property: Property) -> Value {
    engine
        .values()
        .unwrap()
        .into_iter()
        .find(|v| v.0 == name && v.1 == property)
        .unwrap()
        .2
}

fn number(engine: &Engine, name: &str, property: Property) -> f64 {
    match value(engine, name, property) {
        Value::Number(x) => f(x),
        other => panic!("{other:?}"),
    }
}

fn fired(engine: &mut Engine) -> Vec<String> {
    engine
        .drain_events()
        .into_iter()
        .map(|e| match e {
            Event::Trigger(name) => name,
        })
        .collect()
}

/// `(sound, position, gain)` of what is heard.
fn heard(engine: &Engine) -> Vec<(String, f64, f64)> {
    engine
        .voices()
        .unwrap()
        .into_iter()
        .map(|v| (v.sound, f(v.position), f(v.gain)))
        .collect()
}

#[test]
fn without_a_show_there_is_nothing_to_ask_for() {
    let mut engine = Engine::new(0);
    assert_eq!(engine.resolved_layers(), Err(Error::NoShow));
    assert_eq!(engine.voices(), Err(Error::NoShow));
    assert_eq!(engine.videos(), Err(Error::NoShow));
    assert_eq!(engine.values(), Err(Error::NoShow));
    assert_eq!(engine.picture(), Err(Error::NoShow));
    assert_eq!(engine.background_color(), [0, 0, 0, 255]);
    engine.trigger("go");
    run(&mut engine, 1.0);
    assert_eq!(fired(&mut engine), Vec::<String>::new());
}

#[test]
fn a_layer_resolves_to_what_the_show_says() {
    let mut layer = rect("box");
    layer.x = n(12.0);
    let engine = running(show(vec![layer]));
    assert_eq!(number(&engine, "box", Property::X), 12.0);
    assert_eq!(number(&engine, "box", Property::Opacity), 1.0);
    assert_eq!(value(&engine, "box", Property::Visible), Value::Bool(true));
    assert!(engine.values().unwrap().iter().all(|v| v.1 != Property::Text));
}

#[test]
fn a_binding_follows_its_variable() {
    let mut layer = rect("box");
    let mut b = bind(Property::X, "pos");
    b.scale = n(2.0);
    b.offset = n(1.0);
    layer.bindings = vec![b];
    let mut engine = running(show(vec![layer]));
    assert_eq!(number(&engine, "box", Property::X), 0.0, "nothing set yet");
    engine.set_variable("pos", Value::Number(n(10.0)));
    assert_eq!(number(&engine, "box", Property::X), 21.0);
    assert_eq!(engine.variable("pos"), Some(&Value::Number(n(10.0))));
    engine.set_variable("pos", Value::Bool(true));
    assert_eq!(number(&engine, "box", Property::X), 3.0);
    engine.set_variable("pos", Value::Text("3".into()));
    assert_eq!(number(&engine, "box", Property::X), 1.0, "text counts as nothing");
}

#[test]
fn a_threshold_a_curve_and_a_map_shape_what_is_bound() {
    let mut layer = rect("box");
    let mut x = bind(Property::X, "a");
    x.threshold = Some(n(5.0));
    let mut y = bind(Property::Y, "a");
    y.curve = vec![key(0.0, 0.0), key(10.0, 100.0)];
    let mut shown = bind(Property::Visible, "mode");
    let mut map = NameMap::new();
    map.insert("off".into(), Value::Bool(false));
    shown.map = Some(map);
    shown.default = Some(Value::Bool(true));
    layer.bindings = vec![x, y, shown];
    let mut engine = running(show(vec![layer]));
    engine.set_variable("a", Value::Number(n(4.0)));
    assert_eq!(number(&engine, "box", Property::X), 0.0);
    assert_eq!(number(&engine, "box", Property::Y), 40.0);
    engine.set_variable("a", Value::Number(n(6.0)));
    assert_eq!(number(&engine, "box", Property::X), 1.0);
    engine.set_variable("mode", Value::Text("off".into()));
    assert_eq!(value(&engine, "box", Property::Visible), Value::Bool(false));
    assert_eq!(engine.resolved_layers().unwrap().len(), 0);
    engine.set_variable("mode", Value::Text("other".into()));
    assert_eq!(engine.resolved_layers().unwrap().len(), 1);
}

#[test]
fn a_trigger_plays_a_timeline_and_its_end_is_reported() {
    let mut layer = rect("box");
    let mut tl = timeline("slide", &["go"], Property::X, vec![key(0.0, 0.0), key(1.0, 100.0)]);
    tl.on_end = Some("done".into());
    layer.timelines = vec![tl];
    let mut engine = running(show(vec![layer]));
    engine.trigger("other");
    run(&mut engine, 0.5);
    assert_eq!(number(&engine, "box", Property::X), 0.0);
    engine.trigger("go");
    run(&mut engine, 0.25);
    assert_eq!(number(&engine, "box", Property::X), 25.0);
    run(&mut engine, 0.5);
    assert_eq!(number(&engine, "box", Property::X), 75.0);
    assert_eq!(fired(&mut engine), Vec::<String>::new());
    run(&mut engine, 0.5);
    // Finished: the property goes back to what it was.
    assert_eq!(number(&engine, "box", Property::X), 0.0);
    assert_eq!(fired(&mut engine), vec!["done".to_string()]);
    assert_eq!(fired(&mut engine), Vec::<String>::new());
    assert!((f(engine.time()) - 1.75).abs() < 1e-12);
}

#[test]
fn a_running_timeline_is_stronger_than_a_binding() {
    let mut layer = rect("box");
    layer.x = n(1.0);
    layer.bindings = vec![bind(Property::X, "pos")];
    layer.timelines = vec![timeline("slide", &["go"], Property::X, vec![key(0.0, 50.0), key(1.0, 50.0)])];
    let mut engine = running(show(vec![layer]));
    assert_eq!(number(&engine, "box", Property::X), 1.0);
    engine.set_variable("pos", Value::Number(n(7.0)));
    assert_eq!(number(&engine, "box", Property::X), 7.0);
    engine.trigger("go");
    run(&mut engine, 0.5);
    assert_eq!(number(&engine, "box", Property::X), 50.0);
}

#[test]
fn a_timeline_holds_loops_delays_and_repeats() {
    let keys = || vec![key(0.0, 0.0), key(1.0, 10.0)];
    let mut hold = timeline("hold", &["go"], Property::X, keys());
    hold.hold = true;
    let mut looped = timeline("loop", &["go"], Property::Y, keys());
    looped.looping = true;
    let mut late = timeline("late", &["go"], Property::Rotation, keys());
    late.delay = n(1.0);
    late.repeat = Some(n(2.0));
    let mut layer = rect("box");
    layer.timelines = vec![hold, looped, late];
    let mut engine = running(show(vec![layer]));
    engine.trigger("go");
    run(&mut engine, 0.5);
    assert_eq!(number(&engine, "box", Property::Rotation), 0.0);
    run(&mut engine, 1.0);
    assert_eq!(number(&engine, "box", Property::X), 10.0, "held");
    assert_eq!(number(&engine, "box", Property::Y), 5.0, "wrapped");
    assert_eq!(number(&engine, "box", Property::Rotation), 5.0);
    run(&mut engine, 1.0);
    assert_eq!(number(&engine, "box", Property::Rotation), 5.0, "second play");
    run(&mut engine, 1.0);
    assert_eq!(number(&engine, "box", Property::Rotation), 0.0, "over");
}

#[test]
fn one_long_frame_lands_where_many_short_ones_do() {
    let build = || {
        let mut a = rect("a");
        let mut first = timeline("first", &["go"], Property::X, vec![key(0.0, 0.0), key(0.7, 10.0)]);
        first.on_end = Some("next".into());
        a.timelines = vec![first];
        let mut b = rect("b");
        b.timelines = vec![timeline("second", &["next"], Property::X, vec![key(0.0, 0.0), key(2.0, 20.0)])];
        let mut engine = running(show(vec![a, b]));
        engine.trigger("go");
        engine
    };
    let mut once = build();
    run(&mut once, 1.5);
    let mut often = build();
    for _ in 0..15 {
        run(&mut often, 0.1);
    }
    let (a, b) = (number(&once, "b", Property::X), number(&often, "b", Property::X));
    assert!((a - 8.0).abs() < 1e-9 && (b - 8.0).abs() < 1e-6, "{a} and {b}");
    assert_eq!(fired(&mut once), fired(&mut often));
}

#[test]
fn going_backwards_does_nothing() {
    let mut engine = running(show(vec![rect("box")]));
    run(&mut engine, 2.0);
    engine.advance_to(n(1.0));
    assert_eq!(f(engine.time()), 2.0);
}

#[test]
fn scenes_switch_by_trigger_and_take_their_timelines_with_them() {
    let mut moving = rect("moving");
    let mut tl = timeline("slide", &[], Property::X, vec![key(0.0, 0.0), key(10.0, 100.0)]);
    tl.autoplay = true;
    moving.timelines = vec![tl];
    let mut s = show(vec![rect("always")]);
    s.scenes = vec![
        scene("first", &["one"], vec![moving]),
        scene("second", &["two", "zwei"], vec![rect("still")]),
    ];
    assert_eq!(s.triggers(), vec!["one", "two", "zwei"]);
    let mut engine = running(s);
    assert_eq!(engine.active_scene(), Some("first"));
    run(&mut engine, 1.0);
    assert_eq!(number(&engine, "moving", Property::X), 10.0);
    engine.trigger("zwei");
    assert_eq!(engine.active_scene(), Some("second"));
    let names: Vec<String> = engine.resolved_layers().unwrap().into_iter().map(|l| l.name).collect();
    assert_eq!(names, ["always", "still"]);
    engine.trigger("one");
    run(&mut engine, 0.5);
    assert_eq!(number(&engine, "moving", Property::X), 5.0, "started over");
}

#[test]
fn a_restart_puts_everything_back() {
    let mut layer = rect("box");
    layer.bindings = vec![bind(Property::X, "pos")];
    let mut s = show(vec![layer]);
    s.variables.insert("pos".into(), Value::Number(n(3.0)));
    s.scenes = vec![scene("a", &["a"], vec![]), scene("b", &["b"], vec![])];
    let mut engine = running(s);
    engine.set_image("art", 1, 1, vec![1, 2, 3, 4]).unwrap();
    engine.set_variable("pos", Value::Number(n(9.0)));
    engine.trigger("b");
    run(&mut engine, 1.0);
    engine.restart();
    assert_eq!(f(engine.time()), 0.0);
    assert_eq!(engine.active_scene(), Some("a"));
    assert_eq!(number(&engine, "box", Property::X), 3.0);
    assert!(engine.image("art").is_some(), "assets stay");
}

#[test]
fn a_condition_plays_a_timeline_on_its_rising_edge() {
    let mut layer = rect("box");
    let mut tl = timeline("pop", &[], Property::X, vec![key(0.0, 0.0), key(1.0, 10.0)]);
    tl.when = Some(When {
        variable: "lit".into(),
        map: None,
        default: None,
        threshold: None,
    });
    layer.timelines = vec![tl];
    let mut engine = running(show(vec![layer]));
    run(&mut engine, 0.1);
    engine.set_variable("lit", Value::Bool(true));
    run(&mut engine, 0.0);
    run(&mut engine, 0.5);
    assert_eq!(number(&engine, "box", Property::X), 5.0);
    run(&mut engine, 1.0);
    run(&mut engine, 0.5);
    assert_eq!(number(&engine, "box", Property::X), 0.0, "once for each edge");
}

#[test]
fn a_transition_eases_toward_a_new_value() {
    let mut layer = rect("box");
    let mut b = bind(Property::X, "pos");
    b.transition = Some(ease(1.0));
    layer.bindings = vec![b];
    let mut s = show(vec![layer]);
    s.variables.insert("pos".into(), Value::Number(n(0.0)));
    let mut engine = running(s);
    run(&mut engine, 0.1);
    engine.set_variable("pos", Value::Number(n(100.0)));
    run(&mut engine, 0.0);
    assert_eq!(number(&engine, "box", Property::X), 0.0);
    run(&mut engine, 0.25);
    assert!((number(&engine, "box", Property::X) - 25.0).abs() < 1e-9);
    run(&mut engine, 1.0);
    assert_eq!(number(&engine, "box", Property::X), 100.0, "there");
}

#[test]
fn a_wrapped_value_takes_the_short_way_round() {
    let mut layer = rect("box");
    let mut b = bind(Property::Rotation, "angle");
    let mut t = ease(1.0);
    t.wrap = Some(n(360.0));
    t.direction = Some(Direction::Shortest);
    b.transition = Some(t);
    layer.bindings = vec![b];
    let mut s = show(vec![layer]);
    s.variables.insert("angle".into(), Value::Number(n(350.0)));
    let mut engine = running(s);
    run(&mut engine, 0.1);
    engine.set_variable("angle", Value::Number(n(10.0)));
    run(&mut engine, 0.0);
    run(&mut engine, 0.25);
    let x = number(&engine, "box", Property::Rotation);
    assert!((x.rem_euclid(360.0) - 355.0).abs() < 1e-9, "{x}");
}

#[test]
fn a_debounced_value_has_to_hold() {
    let mut layer = rect("box");
    let mut b = bind(Property::X, "pos");
    b.debounce = Some(n(0.5));
    layer.bindings = vec![b];
    let mut s = show(vec![layer]);
    s.variables.insert("pos".into(), Value::Number(n(1.0)));
    let mut engine = running(s);
    run(&mut engine, 0.1);
    engine.set_variable("pos", Value::Number(n(2.0)));
    run(&mut engine, 0.1);
    assert_eq!(number(&engine, "box", Property::X), 1.0);
    run(&mut engine, 0.2);
    assert_eq!(number(&engine, "box", Property::X), 1.0);
    run(&mut engine, 0.5);
    assert_eq!(number(&engine, "box", Property::X), 2.0);
}

#[test]
fn a_lamp_follows_its_filament() {
    let mut layer = rect("bulb");
    let mut b = bind(Property::Opacity, "power");
    let mut t = ease(0.0);
    t.model = Some(Model::Incandescent);
    b.transition = Some(t);
    layer.bindings = vec![b];
    let mut s = show(vec![layer]);
    s.variables.insert("power".into(), Value::Number(n(0.0)));
    let mut engine = running(s);
    run(&mut engine, 0.1);
    assert!(number(&engine, "bulb", Property::Opacity) < 0.01);
    engine.set_variable("power", Value::Number(n(1.0)));
    run(&mut engine, 0.0);
    run(&mut engine, 0.005);
    let early = number(&engine, "bulb", Property::Opacity);
    run(&mut engine, 0.2);
    let late = number(&engine, "bulb", Property::Opacity);
    assert!(early < 0.6 && late > 0.98, "{early} then {late}");
}

#[test]
fn a_show_animates_values_of_its_own() {
    let mut layer = rect("box");
    layer.bindings = vec![bind(Property::X, "wave")];
    let mut s = show(vec![layer]);
    s.values.insert(
        "wave".into(),
        ShowValue {
            timelines: vec![ValueTimeline {
                name: "w".into(),
                trigger: on(&["go"]),
                autoplay: false,
                looping: false,
                delay: n(0.0),
                repeat: None,
                on_end: Some("flat".into()),
                hold: false,
                keys: vec![key(0.0, 0.0), key(2.0, 8.0)],
            }],
        },
    );
    let mut engine = running(s);
    engine.trigger("go");
    run(&mut engine, 0.5);
    assert_eq!(number(&engine, "box", Property::X), 2.0);
    assert_eq!(engine.value("wave"), Some(Value::Number(n(2.0))));
    run(&mut engine, 2.0);
    assert_eq!(fired(&mut engine), vec!["flat".to_string()]);
}

#[test]
fn sounds_play_from_their_trigger_to_their_end() {
    let mut song = audio("song", &["tune"], &["go"]);
    if let LayerKind::Audio { delay, on_end, stop, gain, .. } = &mut song.kind {
        *delay = n(0.5);
        *on_end = Some("over".into());
        *stop = on(&["hush"]);
        *gain = n(0.5);
    }
    let s = show(vec![group("all", vec![song])]);
    assert!(s.has_sound());
    assert_eq!(s.triggers(), vec!["go", "hush"]);
    let mut engine = running(s);
    if let Some(Layer { .. }) = engine.show().map(|s| &s.layers[0]) {}
    engine.set_sound("tune", n(2.0)).unwrap();
    assert_eq!(engine.sound_duration("tune"), Some(n(2.0)));
    engine.trigger("go");
    run(&mut engine, 0.25);
    assert_eq!(heard(&engine), vec![], "still waiting");
    run(&mut engine, 0.5);
    assert_eq!(heard(&engine), vec![("tune".to_string(), 0.25, 0.5)]);
    run(&mut engine, 2.0);
    assert_eq!(heard(&engine), vec![]);
    assert_eq!(fired(&mut engine), vec!["over".to_string()]);
    engine.trigger("go");
    run(&mut engine, 1.0);
    assert_eq!(heard(&engine).len(), 1);
    engine.trigger("hush");
    assert_eq!(heard(&engine), vec![]);
}

#[test]
fn a_second_trigger_does_what_the_layer_says() {
    let sound = |how: Retrigger| {
        let mut a = audio("a", &["s"], &["go"]);
        if let LayerKind::Audio { retrigger, voices, .. } = &mut a.kind {
            *retrigger = how;
            *voices = 2;
        }
        let mut engine = running(show(vec![a]));
        engine.set_sound("s", n(4.0)).unwrap();
        engine.trigger("go");
        run(&mut engine, 1.0);
        engine.trigger("go");
        run(&mut engine, 1.0);
        engine
    };
    let positions = |e: &Engine| heard(e).iter().map(|v| v.1).collect::<Vec<f64>>();
    assert_eq!(positions(&sound(Retrigger::Restart)), [1.0]);
    assert_eq!(positions(&sound(Retrigger::Ignore)), [2.0]);
    let mut overlap = sound(Retrigger::Overlap);
    assert_eq!(positions(&overlap), [2.0, 1.0]);
    overlap.trigger("go");
    assert_eq!(positions(&overlap), [1.0, 0.0], "the oldest makes room");
    let mut queue = sound(Retrigger::Queue);
    assert_eq!(positions(&queue), [2.0]);
    run(&mut queue, 3.0);
    assert_eq!(positions(&queue), [1.0], "the next one, from where the first ended");
}

#[test]
fn plays_pick_their_sounds_in_turn() {
    let mut engine = running(show(vec![audio("a", &["x", "y", "z"], &["go"])]));
    for name in ["x", "y", "z"] {
        engine.set_sound(name, n(1.0)).unwrap();
    }
    let mut order = vec![];
    for _ in 0..4 {
        engine.trigger("go");
        order.push(heard(&engine)[0].0.clone());
        run(&mut engine, 2.0);
    }
    assert_eq!(order, ["x", "y", "z", "x"]);
}

#[test]
fn shuffled_plays_go_through_the_whole_list() {
    let mut a = audio("a", &["x", "y", "z"], &["go"]);
    if let LayerKind::Audio { pick, .. } = &mut a.kind {
        *pick = Pick::Shuffle;
    }
    let mut engine = running(show(vec![a]));
    engine.set_seed(99);
    for name in ["x", "y", "z"] {
        engine.set_sound(name, n(1.0)).unwrap();
    }
    for _ in 0..3 {
        let mut round = vec![];
        for _ in 0..3 {
            engine.trigger("go");
            round.push(heard(&engine)[0].0.clone());
            run(&mut engine, 2.0);
        }
        round.sort();
        assert_eq!(round, ["x", "y", "z"]);
    }
}

#[test]
fn a_rest_drops_what_comes_too_soon() {
    let mut a = audio("a", &["x"], &["go"]);
    if let LayerKind::Audio { rest, .. } = &mut a.kind {
        *rest = n(1.0);
    }
    let mut engine = running(show(vec![a]));
    engine.set_sound("x", n(5.0)).unwrap();
    engine.trigger("go");
    run(&mut engine, 0.5);
    engine.trigger("go");
    run(&mut engine, 0.25);
    assert_eq!(heard(&engine)[0].1, 0.75, "the first one still plays");
    run(&mut engine, 0.75);
    engine.trigger("go");
    run(&mut engine, 0.25);
    assert_eq!(heard(&engine)[0].1, 0.25);
}

#[test]
fn music_ducks_under_a_voice() {
    let mut music = audio("music", &["m"], &["play"]);
    if let LayerKind::Audio { duck, .. } = &mut music.kind {
        *duck = Some(Duck {
            under: "speech".into(),
            to: n(0.25),
            attack: n(1.0),
            release: n(1.0),
        });
    }
    let mut voice = audio("voice", &["v"], &["say"]);
    if let LayerKind::Audio { bus, .. } = &mut voice.kind {
        *bus = Some("speech".into());
    }
    let mut engine = running(show(vec![music, voice]));
    engine.set_sound("m", n(100.0)).unwrap();
    engine.set_sound("v", n(2.0)).unwrap();
    let level = |e: &Engine| heard(e).iter().find(|v| v.0 == "m").unwrap().2;
    engine.trigger("play");
    run(&mut engine, 1.0);
    assert_eq!(level(&engine), 1.0);
    engine.trigger("say");
    run(&mut engine, 0.5);
    assert!((level(&engine) - 0.625).abs() < 1e-6, "{}", level(&engine));
    run(&mut engine, 1.0);
    assert!((level(&engine) - 0.25).abs() < 1e-6, "down");
    run(&mut engine, 5.0);
    assert!((level(&engine) - 1.0).abs() < 1e-6, "and up again");
    let buses: Vec<Option<String>> = engine.voices().unwrap().into_iter().map(|v| v.bus).collect();
    assert_eq!(buses, [Some("main".to_string())]);
}

#[test]
fn a_hidden_group_is_neither_seen_nor_heard() {
    let mut g = group("g", vec![rect("r"), audio("a", &["s"], &["go"])]);
    g.bindings = vec![bind(Property::Visible, "on")];
    let mut engine = running(show(vec![g]));
    engine.set_sound("s", n(5.0)).unwrap();
    engine.set_variable("on", Value::Bool(true));
    engine.trigger("go");
    assert_eq!((engine.resolved_layers().unwrap().len(), heard(&engine).len()), (1, 1));
    engine.set_variable("on", Value::Bool(false));
    assert_eq!((engine.resolved_layers().unwrap().len(), heard(&engine).len()), (0, 0));
}

#[test]
fn a_video_shows_the_frame_handed_over_for_it() {
    let mut clip = clip("clip", "film");
    if let LayerKind::Video { trigger, looping, .. } = &mut clip.kind {
        *trigger = on(&["go"]);
        *looping = true;
    }
    let mut s = show(vec![]);
    s.scenes = vec![scene("only", &[], vec![group("g", vec![rect("r"), clip])])];
    assert!(!s.has_sound());
    let mut engine = running(s);
    engine.set_video("film", n(4.0), [n(64.0), n(48.0)]).unwrap();
    engine.set_sound("film", n(4.0)).unwrap();
    engine.trigger("go");
    run(&mut engine, 5.0);
    let videos = engine.videos().unwrap();
    assert_eq!(videos.len(), 1);
    assert_eq!(videos[0].frame, "video scene 0/0/1");
    assert_eq!(f(videos[0].position), 1.0);
    assert!(videos[0].looping);
    assert_eq!(heard(&engine), vec![("film".to_string(), 1.0, 1.0)]);
    assert_eq!(engine.resolved_layers().unwrap().len(), 1, "no frame yet");
    engine.set_image("video scene 0/0/1", 2, 2, vec![0; 16]).unwrap();
    let layers = engine.resolved_layers().unwrap();
    assert_eq!(layers.len(), 2);
    match &layers[1].shape {
        cuelight::ResolvedShape::Image { image, width, height, .. } => {
            assert_eq!(image, "video scene 0/0/1");
            assert_eq!((f(*width), f(*height)), (64.0, 48.0));
        }
        other => panic!("{other:?}"),
    }
}

#[test]
fn bad_assets_are_refused_by_name() {
    let mut engine = Engine::new(0);
    assert_eq!(
        engine.set_image("art", 2, 2, vec![0; 15]),
        Err(Error::InvalidImage("\"art\": 15 bytes for 2x2, expected 16".into()))
    );
    assert!(matches!(engine.set_sound("s", n(0.0)), Err(Error::InvalidSound(_))));
    assert!(matches!(engine.set_sound("s", n(f64::NAN)), Err(Error::InvalidSound(_))));
    assert!(matches!(
        engine.set_video("v", n(1.0), [n(0.0), n(1.0)]),
        Err(Error::InvalidVideo(_))
    ));
    match engine.set_outline_font("f", vec![1, 2, 3]) {
        Err(Error::InvalidFont(text)) => assert!(text.starts_with("\"f\": "), "{text}"),
        other => panic!("{other:?}"),
    }
    assert!(!engine.has_font("f"));
    assert_eq!(engine.accept_outline_font("f", vec![1, 2, 3], None), Ok(()));
    assert!(engine.has_font("f"));
    assert!(engine.image("art").is_none());
    engine.set_image("art", 1, 1, vec![9, 8, 7, 6]).unwrap();
    let first = engine.image("art").unwrap().revision();
    engine.set_image("art", 1, 1, vec![9, 8, 7, 6]).unwrap();
    assert_ne!(engine.image("art").unwrap().revision(), first);
}

#[test]
fn errors_say_what_they_are_about() {
    let said = [
        (Error::NoShow, "no show loaded"),
        (Error::InvalidShow("x".into()), "invalid show: x"),
        (
            Error::UnsupportedFormat { found: 9, supported: 1 },
            "show format 9 is newer than this engine supports (up to 1)",
        ),
        (Error::InvalidColor("red".into()), "invalid color literal \"red\""),
        (Error::InvalidImage("x".into()), "invalid image: x"),
        (Error::InvalidFont("x".into()), "invalid font: x"),
        (Error::InvalidSound("x".into()), "invalid sound: x"),
        (Error::InvalidVideo("x".into()), "invalid video: x"),
    ];
    for (error, words) in said {
        assert_eq!(error.message(), words);
    }
}

#[test]
fn engines_number_their_uploads_in_ranges() {
    let mut engine = Engine::new(1000);
    engine.set_image("a", 1, 1, vec![0; 4]).unwrap();
    assert_eq!(engine.image("a").unwrap().revision(), 1001);
}

#[test]
fn engines_of_different_ranges_share_no_number() {
    let mut a = Engine::new(0);
    let mut b = Engine::new(100);
    for engine in [&mut a, &mut b] {
        engine.set_image("p", 1, 1, vec![0; 4]).unwrap();
        engine.set_image("q", 1, 1, vec![0; 4]).unwrap();
        engine.set_image("q", 1, 1, vec![0; 4]).unwrap();
        assert!(engine.set_image("p", 1, 1, vec![0; 3]).is_err());
        engine.accept_outline_font("f", vec![1], None).unwrap();
    }
    let numbers = |engine: &Engine| {
        [
            engine.image("p").unwrap().revision(),
            engine.image("q").unwrap().revision(),
            engine.outline_font("f").unwrap().revision(),
        ]
    };
    assert_eq!(numbers(&a), [1, 3, 4]);
    assert_eq!(numbers(&b), [101, 103, 104]);
}

#[test]
fn a_tiled_image_reports_where_its_pattern_starts() {
    let i = layer(
        "i",
        LayerKind::Image {
            image: "p".into(),
            size: None,
            sheet: None,
            frame: n(0.0),
            tint: None,
            repeat: Some(Tile { size: None, offset: [n(3.0), n(0.0)] }),
        },
    );
    let list = running(show(vec![i])).values().unwrap();
    let of = |p: Property| list.iter().find(|v| v.1 == p).map(|v| &v.2);
    assert!(list.iter().all(|v| v.0 == "i"));
    assert_eq!(of(Property::TileX), Some(&Value::Number(n(3.0))));
    assert_eq!(of(Property::TileY), Some(&Value::Number(n(0.0))));
    for lacked in [Property::Text, Property::Font, Property::Video, Property::Sound, Property::Gain] {
        assert_eq!(of(lacked), None);
    }
}

#[test]
fn a_soundtrack_steps_back_like_a_sound() {
    let mut v = clip("v", "c");
    if let LayerKind::Video { autoplay, bus, duck, .. } = &mut v.kind {
        *autoplay = true;
        *bus = Some("bed".into());
        *duck = Some(Duck {
            under: "main".into(),
            to: n(0.5),
            attack: n(0.1),
            release: n(0.1),
        });
    }
    let mut a = audio("a", &["b"], &[]);
    if let LayerKind::Audio { autoplay, .. } = &mut a.kind {
        *autoplay = true;
    }
    let mut engine = Engine::new(0);
    engine.set_sound("c", n(5.0)).unwrap();
    engine.set_sound("b", n(5.0)).unwrap();
    engine.set_video("c", n(5.0), [n(8.0), n(8.0)]).unwrap();
    engine.load_show("{}", Ok(show(vec![v, a])), "{}").unwrap();
    run(&mut engine, 1.0);
    let list = engine.voices().unwrap();
    let said: Vec<_> = list
        .iter()
        .map(|v| (v.layer.as_str(), v.sound.as_str(), f(v.position), f(v.gain), v.bus.as_deref()))
        .collect();
    assert_eq!(
        said,
        [("v", "c", 1.0, 0.5, Some("bed")), ("a", "b", 1.0, 1.0, Some("main"))]
    );
}

#[test]
fn engines_of_a_process_have_ranges_of_their_own() {
    assert_eq!(first_of(0), Some(0));
    let (a, b) = (first_of(1).unwrap(), first_of(2).unwrap());
    assert_eq!(b - a, RANGE);
    assert!(first_of(RANGES - 1).unwrap().checked_add(RANGE - 1).is_some());
    assert_eq!(first_of(RANGES), None);
}

#[test]
fn a_chain_keeps_its_schedule_at_any_frame_rate() {
    let chain = || {
        let mut a = rect("a");
        let mut first = timeline("first", &["go"], Property::X, vec![key(0.0, 0.0), key(0.3, 3.0)]);
        first.on_end = Some("next".into());
        let mut second = timeline("second", &["next"], Property::Y, vec![key(0.0, 0.0), key(1.0, 10.0)]);
        second.delay = n(0.25);
        a.timelines = vec![first, second];
        let mut engine = running(show(vec![a]));
        engine.trigger("go");
        engine
    };
    let y = |engine: &Engine| {
        let values = engine.values().unwrap();
        let found = values.iter().find(|v| v.1 == Property::Y).map(|v| match v.2 {
            Value::Number(y) => f(y),
            _ => panic!(),
        });
        found.unwrap()
    };
    // The second one runs from 0.3 + 0.25 on.
    let mut coarse = chain();
    coarse.advance_to(n(1.05));
    assert!((y(&coarse) - 5.0).abs() < 1e-9, "{}", y(&coarse));
    let mut fine = chain();
    for i in 1..=105 {
        fine.advance_to(n(f64::from(i) / 100.0));
    }
    assert!((y(&fine) - 5.0).abs() < 1e-9, "{}", y(&fine));
}
