# cuelight

An embeddable multimedia engine: shows, layers and timelines driven by triggers and variables,
with its logic verified in [Verus](https://github.com/verus-lang/verus).

- **Shows** are trees of typed layers: groups, shapes, text, images, digit rows, video and sound.
- **Timelines** animate layer properties with keyframes and easing, on load or by trigger.
- **Variables and triggers** are the only inputs. Hosts push named values and fire named events;
  content binds properties to variables and reacts to triggers. Everything is data.
- The engine opens no window and no device. It says what to draw and what to play.

## Layout

- `src/` is the engine. Every function in it is verified against its contract, but for a few
  small ones whose contracts are believed: they call the standard library, `serde_json` or
  `skrifa` (in `text`, `font`, `path`, `state`, `json` and `outline`), and say of the call what
  its documentation says.
  - numbers and text: `num` (IEEE doubles by their bits), `arith`, `order`, `big`, `decimal`,
    `debug`, `waves` (roots, exponentials and circle functions), `lists`, `text`, `names`, `value`
  - the show model: `model`, `easing`, `lamp`, `color`, `output`, `path`, `pick`, `tree`,
    `sites`, `survey`
  - loading: `json`, `load`, `validate`, `warn`
  - running: `state`, `assets`, `bind`, `play`, `follow`, `clock`
  - what comes out: `hear`, `shape`, `draw`, `walk`, `paint`, `frame`, `cells`, `segments`,
    `font`, `raster`, `outline`, `lru`
  - what holds of it all: `laws`, `ids`, `uploads`, `letters`, `listen`,
    `schedule`, `nesting`
- `tests/` runs it.
- `app/` is the host side: show documents as JSON, outline font files, vello and wgpu, PNG files.

## How it is specified

An `Engine` is viewed as a `State`, plain data. Each call has a function of `State` as its
meaning, and the contract of the call says that the view after it is that function of the view
before it. Draw lists, sounds and property values are functions of the state as well. The laws
are proof functions over these.

Arithmetic is that of IEEE doubles, rounded to nearest with ties to even, and its operations are
specified over the integers. Roots are exactly rounded. Sines, exponentials and the like are
fixed sequences of such operations, so that a show comes out the same on every machine.
