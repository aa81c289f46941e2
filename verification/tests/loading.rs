//! Loading shows: what is refused, and what is warned about.

use cuelight::json::{ignored_fields, Json};
use cuelight::model::{
    Choice, Duck, Fill, Gradient, Model, Pick, Shadow, ShowValue, Stop, ValueTimeline, When,
};
use cuelight::names::NameMap;
use cuelight::num::{num, Num};
use cuelight::validate::validate;
use cuelight::{
    Align, Binding, Blend, DigitDisplay, Direction, Dots, Easing, Engine, Error, FontStyle,
    Justify, Key, Layer, LayerKind, NumberFormat, Output, OutputMode, Pass, PathData, Property,
    Reel, Retrigger, Scene, Shape, Show, Stroke, Timeline, Track, Transition, Triggers, Value,
};

fn n(x: f64) -> Num {
    num(x.to_bits())
}

fn f(x: Num) -> f64 {
    f64::from_bits(x.bits)
}

fn layer(name: &str, kind: LayerKind) -> Layer {
    Layer {
        name: name.into(),
        kind,
        x: n(0.0),
        y: n(0.0),
        opacity: n(1.0),
        scale: n(1.0),
        scale_x: n(1.0),
        scale_y: n(1.0),
        rotation: n(0.0),
        anchor: None,
        visible: true,
        overflow: false,
        blend: Blend::Normal,
        bindings: vec![],
        timelines: vec![],
    }
}

fn show(layers: Vec<Layer>) -> Show {
    Show {
        format: 1,
        name: "test".into(),
        size: [128, 32],
        background: "#102030".into(),
        output: Output::default(),
        fonts: NameMap::new(),
        variables: NameMap::new(),
        values: NameMap::new(),
        layers,
        scenes: vec![],
    }
}

fn square() -> Shape {
    Shape::Rect {
        rect: [n(0.0), n(0.0), n(10.0), n(20.0)],
        radius: None,
    }
}

fn shape(name: &str, shape: Shape, fill: &str) -> Layer {
    layer(
        name,
        LayerKind::Shape {
            shape,
            fill: Fill::Color(fill.into()),
            stroke: None,
        },
    )
}

fn bind(property: Property, variable: &str) -> Binding {
    Binding {
        property,
        variable: variable.into(),
        scale: n(1.0),
        offset: n(0.0),
        decimals: None,
        format: NumberFormat::Plain,
        prefix: String::new(),
        suffix: String::new(),
        map: None,
        default: None,
        threshold: None,
        debounce: None,
        curve: vec![],
        transition: None,
    }
}

fn key(t: f64, v: f64) -> Key {
    Key {
        t: n(t),
        v: n(v),
        ease: Easing::Linear,
    }
}

fn rect() -> Layer {
    shape("box", square(), "#FF0000")
}

/// What a show with one layer is refused for.
fn refused(layer: Layer) -> String {
    match validate(&show(vec![layer])) {
        Err(Error::InvalidShow(text)) => text,
        other => panic!("{other:?}"),
    }
}

fn bound(b: Binding) -> Layer {
    let mut layer = rect();
    layer.bindings = vec![b];
    layer
}

fn ease(duration: f64) -> Transition {
    Transition {
        duration: n(duration),
        model: None,
        kelvin: None,
        heating: None,
        cooling: None,
        ease: Easing::Linear,
        wrap: None,
        direction: None,
        step: None,
        offset: vec![],
    }
}

fn eased(change: fn(&mut Transition)) -> Layer {
    let mut t = ease(1.0);
    change(&mut t);
    let mut b = bind(Property::X, "v");
    b.transition = Some(t);
    bound(b)
}

fn timeline() -> Timeline {
    Timeline {
        name: "tl".into(),
        trigger: Triggers(vec![]),
        when: None,
        whilst: None,
        autoplay: false,
        looping: false,
        delay: n(0.0),
        repeat: None,
        on_end: None,
        hold: false,
        tracks: vec![Track {
            property: Property::X,
            keys: vec![],
        }],
    }
}

fn timed(change: fn(&mut Timeline)) -> Layer {
    let mut tl = timeline();
    change(&mut tl);
    let mut layer = rect();
    layer.timelines = vec![tl];
    layer
}

fn condition(variable: &str, threshold: Option<f64>) -> Option<When> {
    Some(When {
        variable: variable.into(),
        map: None,
        default: None,
        threshold: threshold.map(n),
    })
}

#[test]
fn a_sound_show_is_accepted() {
    assert_eq!(validate(&show(vec![rect()])), Ok(()));
    let mut engine = Engine::new(0);
    assert_eq!(engine.load_show("{}", Ok(show(vec![rect()])), "{}"), Ok(()));
    assert_eq!(engine.load_warnings(), Vec::<String>::new().as_slice());
    assert_eq!(engine.show().unwrap().name, "test");
}

#[test]
fn documents_that_are_none_are_refused() {
    let mut engine = Engine::new(0);
    match engine.load_show("{", Ok(show(vec![])), "{}") {
        Err(Error::InvalidShow(text)) => {
            assert_eq!(text, "EOF while parsing an object at line 1 column 1")
        }
        other => panic!("{other:?}"),
    }
    assert_eq!(
        engine.load_show("{\"format\": 2}", Err("never read".into()), "{}"),
        Err(Error::UnsupportedFormat {
            found: 2,
            supported: 1
        })
    );
    assert_eq!(
        engine.load_show("{\"format\": 1}", Err("missing field".into()), "{}"),
        Err(Error::InvalidShow("missing field".into()))
    );
    let mut zero = show(vec![]);
    zero.format = 0;
    assert_eq!(
        engine.load_show("{}", Ok(zero), "{}"),
        Err(Error::InvalidShow("format 0 does not exist".into()))
    );
    let mut dark = show(vec![]);
    dark.background = "dark".into();
    assert_eq!(
        engine.load_show("{}", Ok(dark), "{}"),
        Err(Error::InvalidColor("dark".into()))
    );
    assert!(engine.show().is_none());
}

#[test]
fn a_refused_show_leaves_the_loaded_one_running() {
    let mut engine = Engine::new(0);
    engine.load_show("{}", Ok(show(vec![rect()])), "{}").unwrap();
    engine.advance_frame(n(1.0));
    assert!(engine.load_show("[", Ok(show(vec![])), "{}").is_err());
    assert_eq!(f(engine.time()), 1.0);
    assert_eq!(engine.resolved_layers().unwrap().len(), 1);
}

#[test]
fn outputs_are_checked() {
    let with = |output: Output| {
        let mut s = show(vec![]);
        s.scenes = vec![Scene {
            name: "s".into(),
            trigger: Triggers(vec![]),
            output: Some(output),
            layers: vec![],
        }];
        Engine::new(0).load_show("{}", Ok(s), "{}")
    };
    let dots = |dots: Dots| {
        with(Output {
            passes: Some(vec![Pass::Dots(dots)]),
            ..Output::default()
        })
    };
    assert_eq!(
        with(Output {
            mode: Some(OutputMode::Gray4),
            tint: Some("x".into()),
            ..Output::default()
        }),
        Err(Error::InvalidColor("x".into()))
    );
    assert_eq!(dots(Dots::default()), Ok(()));
    assert_eq!(
        dots(Dots { size: n(1.5), ..Dots::default() }),
        Err(Error::InvalidShow("a dots pass needs a size above 0, up to 1".into()))
    );
    assert_eq!(
        dots(Dots { glow: n(-0.5), ..Dots::default() }),
        Err(Error::InvalidShow("a dots pass needs a glow from 0 to 1".into()))
    );
    assert_eq!(
        dots(Dots { unlit: Some("no".into()), ..Dots::default() }),
        Err(Error::InvalidColor("no".into()))
    );
}

fn style(file: &str, size: Option<f64>) -> FontStyle {
    FontStyle {
        file: file.into(),
        size: size.map(n),
        color: "#FFFFFF".into(),
        border: None,
        shadow: None,
    }
}

#[test]
fn font_styles_have_to_suit_their_fonts() {
    let load = |size: Option<f64>, outline: bool| {
        let mut engine = Engine::new(0);
        if outline {
            engine.accept_outline_font("file", vec![1], None).unwrap();
        } else {
            let font = cuelight::BitmapFont::parse("common lineHeight=4 pages=0\n").unwrap();
            engine.set_font("file", font, vec![]).unwrap();
        }
        let mut s = show(vec![]);
        s.fonts.insert("big".into(), style("file", size));
        engine.load_show("{}", Ok(s), "{}")
    };
    let wrong = |what: &str| Err(Error::InvalidShow(format!("font style \"big\" {what}")));
    assert_eq!(load(Some(12.0), true), Ok(()));
    assert_eq!(load(Some(0.0), true), wrong("needs a size above 0"));
    assert_eq!(load(None, true), wrong("uses an outline font and needs a size"));
    assert_eq!(load(None, false), Ok(()));
    assert_eq!(
        load(Some(12.0), false),
        wrong("uses a bitmap font, which has one fixed size: remove size")
    );
}

#[test]
fn font_style_colors_and_shadows_are_checked() {
    let mut s = show(vec![]);
    let mut look = style("file", None);
    look.shadow = Some(Shadow {
        color: "#000000".into(),
        offset: [n(0.0), n(f64::INFINITY)],
    });
    s.fonts.insert("big".into(), look);
    assert_eq!(
        validate(&s),
        Err(Error::InvalidShow("font style \"file\" needs a finite shadow offset".into()))
    );
    let mut s = show(vec![]);
    let mut look = style("file", None);
    look.color = "blue".into();
    s.fonts.insert("big".into(), look);
    assert_eq!(validate(&s), Err(Error::InvalidColor("blue".into())));
}

#[test]
fn paint_is_checked() {
    let gradient = |stops: Vec<(f64, &str)>, radius: f64| {
        let mut layer = rect();
        if let LayerKind::Shape { fill, .. } = &mut layer.kind {
            *fill = Fill::Gradient(Gradient::Radial {
                center: [n(0.0), n(0.0)],
                radius: n(radius),
                stops: stops
                    .into_iter()
                    .map(|(at, color)| Stop { at: n(at), color: color.into() })
                    .collect(),
            });
        }
        refused(layer)
    };
    let head = "the gradient of layer \"box\" ";
    assert_eq!(gradient(vec![], 1.0), format!("{head}needs a stop"));
    assert_eq!(
        gradient(vec![(f64::NAN, "#000000")], 1.0),
        format!("{head}needs finite stop positions")
    );
    assert_eq!(
        gradient(vec![(1.0, "#000000"), (0.0, "#000000")], 1.0),
        format!("{head}needs its stops in order")
    );
    assert_eq!(gradient(vec![(0.0, "#000000")], 0.0), format!("{head}needs a radius above 0"));
    assert_eq!(
        gradient(vec![(0.0, "red")], 1.0),
        format!("{head}has a stop that is not a color: \"red\"")
    );
    let mut layer = rect();
    if let LayerKind::Shape { stroke, .. } = &mut layer.kind {
        *stroke = Some(Stroke { color: "#000000".into(), width: n(0.0) });
    }
    assert_eq!(refused(layer), "layer \"box\" needs a stroke width above 0");
}

#[test]
fn a_text_layer_uses_a_declared_style() {
    let text = layer(
        "words",
        LayerKind::Text {
            text: String::new(),
            font: "big".into(),
            size: None,
            align: Align::TopLeft,
        },
    );
    assert_eq!(refused(text), "layer \"words\" uses undeclared font style \"big\"");
}

#[test]
fn reels_are_checked() {
    let spoiled = |change: fn(&mut Reel)| {
        let mut reel = Reel {
            charset: "ab".into(),
            font: None,
            cells: Some(cuelight::ReelCells::Images(vec!["a".into(), "b".into()])),
            duration: n(1.0),
            ease: Easing::Linear,
            direction: None,
            step: None,
            turns: 0,
            window: 1,
            offset: vec![],
            stagger: n(0.0),
            spin: Triggers(vec![]),
        };
        change(&mut reel);
        let row = layer(
            "row",
            LayerKind::Digits {
                digits: 2,
                size: [n(2.0), n(2.0)],
                text: String::new(),
                justify: Justify::Left,
                display: DigitDisplay::Reel(reel),
            },
        );
        refused(row).replace("reel of layer \"row\" ", "")
    };
    assert_eq!(spoiled(|r| r.charset.clear()), "needs a charset with a character in it");
    assert_eq!(spoiled(|r| r.duration = n(0.0)), "needs a duration above 0");
    assert_eq!(spoiled(|r| r.stagger = n(-1.0)), "needs a stagger of 0 or more");
    assert_eq!(
        spoiled(|r| r.cells = None),
        "needs a font for its characters, or cells to draw instead"
    );
    assert_eq!(
        spoiled(|r| r.charset.push('c')),
        "needs one cell for every character of its charset"
    );
    assert_eq!(spoiled(|r| r.window = 0), "needs a window of at least one character");
    assert_eq!(
        spoiled(|r| r.step = Some(n(0.0))),
        "needs a step above 0, or none at all to travel in one move"
    );
    assert_eq!(
        spoiled(|r| r.offset = vec![key(1.0, 0.0), key(0.0, 0.0)]),
        "needs offset keys in time order, from 0 on"
    );
    assert_eq!(
        spoiled(|r| r.offset = vec![key(0.0, 0.0), key(1.0, 2.0)]),
        "needs an offset that starts and ends at 0"
    );
}

#[test]
fn timelines_are_checked() {
    let head = "timeline \"tl\" of layer \"box\" ";
    assert_eq!(
        refused(timed(|t| t.tracks[0].property = Property::Frame)),
        "layer \"box\" has no Frame property"
    );
    assert_eq!(
        refused(timed(|t| {
            t.looping = true;
            t.repeat = Some(n(2.0));
        })),
        format!("{head}sets both loop and repeat")
    );
    assert_eq!(
        refused(timed(|t| t.tracks[0].property = Property::Visible)),
        format!("{head}animates Visible, which can only be bound")
    );
    assert_eq!(
        refused(timed(|t| {
            t.when = condition("a", None);
            t.whilst = condition("b", None);
        })),
        format!("{head}sets both when and while, which want different things of the same condition")
    );
    assert_eq!(
        refused(timed(|t| t.whilst = condition("", None))),
        format!("{head}needs a variable in its condition")
    );
    assert_eq!(
        refused(timed(|t| t.when = condition("a", Some(f64::NAN)))),
        format!("{head}needs a finite threshold in its condition")
    );
}

#[test]
fn bindings_are_checked() {
    let spoiled = |change: fn(&mut Binding)| {
        let mut b = bind(Property::X, "v");
        change(&mut b);
        refused(bound(b)).replace("the X binding of layer \"box\" ", "")
    };
    assert_eq!(spoiled(|b| b.threshold = Some(n(f64::INFINITY))), "needs a finite threshold");
    assert_eq!(spoiled(|b| b.decimals = Some(16)), "asks for more decimals than a number has");
    assert_eq!(spoiled(|b| b.debounce = Some(n(-1.0))), "needs a debounce of 0 or more");
    assert_eq!(
        spoiled(|b| {
            b.curve = vec![key(0.0, 0.0)];
            b.threshold = Some(n(1.0));
        }),
        "sets both curve and threshold, which are the same job"
    );
    assert_eq!(spoiled(|b| b.curve = vec![key(f64::NAN, 0.0)]), "needs finite curve keys");
    assert_eq!(
        spoiled(|b| b.curve = vec![key(1.0, 0.0), key(0.0, 0.0)]),
        "needs its curve keys in order of input"
    );
    assert_eq!(
        spoiled(|b| b.property = Property::Sound),
        "layer \"box\" has no Sound property"
    );
}

#[test]
fn transitions_are_checked() {
    let head = "transition of the X binding of layer \"box\" ";
    let cases: [(fn(&mut Transition), &str); 9] = [
        (
            |t| {
                t.model = Some(Model::Incandescent);
            },
            "follows a model, which decides its own timing, shape and way round",
        ),
        (|t| t.kelvin = Some(n(2700.0)), "shapes a filament without naming a model to follow"),
        (
            |t| {
                t.duration = n(0.0);
                t.model = Some(Model::Incandescent);
                t.heating = Some(n(0.0));
            },
            "needs a kelvin, heating and cooling above 0",
        ),
        (|t| t.duration = n(0.0), "needs a duration above 0"),
        (|t| t.wrap = Some(n(0.0)), "needs a wrap above 0"),
        (|t| t.direction = Some(Direction::Forward), "sets a direction, which needs wrap"),
        (|t| t.step = Some(n(-1.0)), "needs a step above 0"),
        (|t| t.offset = vec![key(-1.0, 0.0)], "needs offset keys in time order, from 0 on"),
        (|t| t.offset = vec![key(0.0, 1.0)], "needs an offset that starts and ends at 0"),
    ];
    for (change, what) in cases {
        assert_eq!(refused(eased(change)), format!("{head}{what}"));
    }
    let mut b = bind(Property::Visible, "v");
    b.transition = Some(ease(1.0));
    assert_eq!(
        refused(bound(b)),
        "transition of the Visible binding of layer \"box\" is on a binding that cannot be eased"
    );
}

#[test]
fn mapped_values_have_to_be_usable() {
    let mut art = layer(
        "art",
        LayerKind::Image {
            image: "a".into(),
            size: None,
            sheet: None,
            frame: n(0.0),
            tint: None,
            repeat: None,
        },
    );
    let mut b = bind(Property::Tint, "v");
    b.default = Some(Value::Number(n(1e16)));
    art.bindings = vec![b];
    assert_eq!(
        refused(art),
        "tint binding of layer \"art\" maps to Number(1e16), not a color"
    );
    let mut words = layer(
        "words",
        LayerKind::Text {
            text: String::new(),
            font: "big".into(),
            size: None,
            align: Align::TopLeft,
        },
    );
    let mut b = bind(Property::Font, "v");
    let mut map = NameMap::new();
    map.insert("a".into(), Value::Text("big".into()));
    map.insert("b".into(), Value::Text("tiny".into()));
    b.map = Some(map);
    words.bindings = vec![b];
    let mut s = show(vec![words]);
    s.fonts.insert("big".into(), style("file", None));
    assert_eq!(
        validate(&s),
        Err(Error::InvalidShow(
            "font binding of layer \"words\" maps to Text(\"tiny\"), not a declared font style".into()
        ))
    );
}

#[test]
fn anchors_tints_and_ducks_are_checked() {
    let mut g = layer(
        "g",
        LayerKind::Group {
            children: vec![],
            clip: None,
            gain: n(1.0),
        },
    );
    g.anchor = Some(Align::Center);
    assert_eq!(refused(g), "layer \"g\" has an anchor, but no content box");
    let art = layer(
        "art",
        LayerKind::Image {
            image: "a".into(),
            size: None,
            sheet: None,
            frame: n(0.0),
            tint: Some("mud".into()),
            repeat: None,
        },
    );
    assert_eq!(validate(&show(vec![art])), Err(Error::InvalidColor("mud".into())));
    let spoiled = |change: fn(&mut Duck)| {
        let mut d = Duck {
            under: "speech".into(),
            to: n(0.5),
            attack: n(0.0),
            release: n(0.0),
        };
        change(&mut d);
        let mut a = audio();
        if let LayerKind::Audio { duck, .. } = &mut a.kind {
            *duck = Some(d);
        }
        refused(a).replace("the duck of layer \"song\" ", "")
    };
    assert_eq!(spoiled(|d| d.under.clear()), "needs a bus to listen to");
    assert_eq!(spoiled(|d| d.to = n(-1.0)), "needs a gain of 0 or more to duck to");
    assert_eq!(
        spoiled(|d| d.release = n(f64::NAN)),
        "needs an attack and release of 0 or more"
    );
}

fn audio() -> Layer {
    layer(
        "song",
        LayerKind::Audio {
            sound: Choice(vec!["tune".into()]),
            pick: Pick::InOrder,
            trigger: Triggers(vec![]),
            autoplay: false,
            looping: false,
            delay: n(0.0),
            repeat: None,
            on_end: None,
            stop: Triggers(vec![]),
            rest: n(0.0),
            retrigger: Retrigger::Restart,
            voices: 1,
            gain: n(1.0),
            bus: None,
            duck: None,
        },
    )
}

#[test]
fn playheads_are_checked() {
    let spoiled = |change: fn(&mut LayerKind)| {
        let mut a = audio();
        change(&mut a.kind);
        refused(a).replace("audio layer \"song\" ", "")
    };
    assert_eq!(
        spoiled(|k| if let LayerKind::Audio { looping, repeat, .. } = k {
            *looping = true;
            *repeat = Some(n(1.0));
        }),
        "sets both loop and repeat"
    );
    assert_eq!(
        spoiled(|k| if let LayerKind::Audio { delay, .. } = k {
            *delay = n(-1.0);
        }),
        "needs a delay of 0 or more"
    );
    assert_eq!(
        spoiled(|k| if let LayerKind::Audio { repeat, .. } = k {
            *repeat = Some(n(f64::NAN));
        }),
        "needs a repeat of 0 or more"
    );
    assert_eq!(
        spoiled(|k| if let LayerKind::Audio { gain, .. } = k {
            *gain = n(-1.0);
        }),
        "needs a gain of 0 or more"
    );
    assert_eq!(
        spoiled(|k| if let LayerKind::Audio { retrigger, voices, .. } = k {
            *retrigger = Retrigger::Overlap;
            *voices = 0;
        }),
        "needs at least one voice to overlap"
    );
    assert_eq!(
        spoiled(|k| if let LayerKind::Audio { sound, .. } = k {
            sound.0.clear();
        }),
        "names nothing to play"
    );
    assert_eq!(
        spoiled(|k| if let LayerKind::Audio { rest, .. } = k {
            *rest = n(-1.0);
        }),
        "needs a rest of 0 or more"
    );
}

#[test]
fn nested_layers_and_scenes_are_checked_too() {
    let mut bad = rect();
    bad.bindings = vec![bind(Property::Text, "v")];
    let mut s = show(vec![]);
    s.scenes = vec![Scene {
        name: "s".into(),
        trigger: Triggers(vec![]),
        output: None,
        layers: vec![layer(
            "g",
            LayerKind::Group {
                children: vec![bad],
                clip: None,
                gain: n(1.0),
            },
        )],
    }];
    assert_eq!(
        validate(&s),
        Err(Error::InvalidShow("layer \"box\" has no Text property".into()))
    );
}

#[test]
fn quiet_bindings_are_warned_about() {
    let mut b = bind(Property::X, "pos");
    b.prefix = "x".into();
    let mut engine = Engine::new(0);
    engine.load_show("{}", Ok(show(vec![bound(b)])), "{}").unwrap();
    assert_eq!(
        engine.load_warnings(),
        [
            "the X binding of layer \"box\" has words round its value, which only a text binding shows",
            "the X binding of layer \"box\" reads variable \"pos\", which the show does not \
             declare; it does nothing until a host sets that variable",
        ]
    );
    let mut art = layer(
        "art",
        LayerKind::Image {
            image: "a".into(),
            size: None,
            sheet: None,
            frame: n(0.0),
            tint: None,
            repeat: None,
        },
    );
    let mut b = bind(Property::Tint, "hue");
    b.curve = vec![key(0.0, 0.0)];
    art.bindings = vec![b];
    let mut s = show(vec![art]);
    s.variables.insert("hue".into(), Value::Text("pinkish".into()));
    engine.load_show("{}", Ok(s), "{}").unwrap();
    assert_eq!(
        engine.load_warnings(),
        [
            "the Tint binding of layer \"art\" has a curve, which only bends a number; this \
             property never holds one",
            "the Tint binding of layer \"art\" reads variable \"hue\", which starts at \
             \"pinkish\", not a color like \"#RRGGBB\"; values it cannot use leave the property alone",
        ]
    );
}

#[test]
fn ignored_fields_are_named_by_their_paths() {
    let given = "{\"name\":\"a\",\"typo\":1,\"$schema\":\"x\",\"gone\":null,\
                 \"layers\":[{\"x\":1},{\"y\":2,\"deep\":{\"more\":[]}}]}";
    let kept = "{\"name\":\"a\",\"layers\":[{\"x\":1.0},{\"y\":2.0}]}";
    let mut out = vec![];
    ignored_fields(&Json::read(given).unwrap(), &Json::read(kept).unwrap(), "", &mut out);
    assert_eq!(out, ["layers[1].deep", "typo"]);
    let mut engine = Engine::new(0);
    engine.load_show(given, Ok(show(vec![])), kept).unwrap();
    assert_eq!(engine.load_warnings(), ["layers[1].deep", "typo"]);
}

#[test]
fn json_is_read_value_by_value() {
    assert_eq!(
        Json::read("[null, true, 7, -1, 1.5, \"t\", {\"b\": 1, \"a\": 2}]").unwrap(),
        Json::List(vec![
            Json::Null,
            Json::Bool(true),
            Json::Number(Some(7)),
            Json::Number(None),
            Json::Number(None),
            Json::Text("t".into()),
            Json::Object(vec![
                ("a".into(), Json::Number(Some(2))),
                ("b".into(), Json::Number(Some(1))),
            ]),
        ])
    );
    assert_eq!(Json::read("{\"format\": 3}").unwrap().whole_member("format"), Some(3));
    assert_eq!(Json::read("{\"format\": \"3\"}").unwrap().whole_member("format"), None);
}

#[test]
fn a_shape_has_exactly_one_form() {
    let r = [n(0.0), n(0.0), n(1.0), n(1.0)];
    assert_eq!(
        Shape::from_parts(Some(r), Some(n(2.0)), None, None),
        Ok(Shape::Rect { rect: r, radius: Some(n(2.0)) })
    );
    let c = [n(0.0), n(0.0), n(1.0)];
    assert_eq!(Shape::from_parts(None, None, Some(c), None), Ok(Shape::Circle { circle: c }));
    assert_eq!(
        Shape::from_parts(None, None, None, None),
        Err("a shape needs one of rect, circle or path".to_string())
    );
    assert_eq!(
        Shape::from_parts(Some(r), None, None, Some(PathData::parse("M0 0").unwrap())),
        Err("a shape takes one of rect, circle or path, not several".to_string())
    );
}

#[test]
fn a_sheet_on_vector_artwork_is_warned_about() {
    let art = || {
        layer(
            "art",
            LayerKind::Image {
                image: "logo".into(),
                size: None,
                sheet: Some(cuelight::Sheet { cell: [4, 4], columns: 2 }),
                frame: n(0.0),
                tint: None,
                repeat: None,
            },
        )
    };
    let mut engine = Engine::new(0);
    engine.load_show("{}", Ok(show(vec![art()])), "{}").unwrap();
    assert_eq!(engine.load_warnings().len(), 0, "nothing registered yet");
    let logo = cuelight::Vector { width: n(1.0), height: n(1.0), paths: vec![] };
    engine.set_vector("logo", logo).unwrap();
    engine.load_show("{}", Ok(show(vec![art()])), "{}").unwrap();
    assert_eq!(
        engine.load_warnings(),
        ["layer \"art\" asks for a cell of a sheet, which only pixels have; \"logo\" is vector artwork"]
    );
}

#[test]
fn a_value_cannot_both_loop_and_repeat() {
    let load = |looping: bool, repeat: Option<f64>| {
        let mut s = show(vec![]);
        s.values.insert(
            "level".into(),
            ShowValue {
                timelines: vec![ValueTimeline {
                    name: "up".into(),
                    trigger: Triggers(vec![]),
                    autoplay: false,
                    looping,
                    delay: n(0.0),
                    repeat: repeat.map(n),
                    on_end: None,
                    hold: false,
                    keys: vec![],
                }],
            },
        );
        Engine::new(0).load_show("{}", Ok(s), "{}")
    };
    assert_eq!(load(true, None), Ok(()));
    assert_eq!(load(false, Some(2.0)), Ok(()));
    assert_eq!(
        load(true, Some(2.0)),
        Err(Error::InvalidShow(
            "timeline \"up\" of value \"level\" sets both loop and repeat".into()
        ))
    );
}
