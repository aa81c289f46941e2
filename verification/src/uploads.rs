//! The numbers that tell one upload, or one bitmap of text, from another.

use crate::lists::reversed;
use crate::lru::{
    distinct, evicted, lemma_evicted, lemma_place, lemma_weight_push, lemma_weight_remove, place,
    stored, touched, weight, ByteLru, Cached,
};
use crate::names::{inserted, lemma_stored, lookup, other_than, removed};
use crate::draw::items_of;
use crate::shape::{Drawn, Item, Lettered, Lettering, ResolvedLayer, ResolvedShape};
use crate::state::{Bits, FontData, ImageData, Problem, RegisteredFont, State};
use vstd::prelude::*;

verus! {

/// Budget for the bitmaps of text whose numbers are remembered. Every distinct string is its own
/// bitmap, so a changing number in a large font adds up quickly; the least recently used ones go
/// first, which keeps static labels.
pub const MAX_RASTER_BYTES: usize = 0x200_0000;

/// What a bitmap of text counts for: its pixels and what is written, and no more than it takes
/// to pass the budget.
pub open spec fn raster_bytes(label: Lettered, pixels: nat) -> nat {
    let n = label.style.len() + label.text.len() + pixels;
    if n > MAX_RASTER_BYTES {
        MAX_RASTER_BYTES as nat + 1
    } else {
        n
    }
}

/// The number of a bitmap of text, what is remembered with it, and the latest number given out:
/// a text that is known keeps its number, another one takes the next.
pub open spec fn numbered_text(
    known: Seq<Cached<Lettered, u64>>,
    label: Lettered,
    pixels: nat,
    revision: u64,
) -> (u64, Seq<Cached<Lettered, u64>>, u64) {
    match place(known, label, 0) {
        Some(i) => (known[i].value, touched(known, i), revision),
        None => {
            let number = revision.wrapping_add(1);
            let all = stored(known, label, number, raster_bytes(label, pixels));
            (number, evicted(all, MAX_RASTER_BYTES as nat), number)
        },
    }
}

/// The numbers of the bitmaps of text drawn last.
#[derive(Debug)]
pub struct TextNumbers {
    cache: ByteLru<Lettering, u64>,
}

impl View for TextNumbers {
    type V = Seq<Cached<Lettered, u64>>;

    closed spec fn view(&self) -> Seq<Cached<Lettered, u64>> {
        self.cache@
    }
}

impl TextNumbers {
    #[verifier::type_invariant]
    spec fn wf(self) -> bool {
        &&& self.cache.wf()
        &&& self.cache.limit() == MAX_RASTER_BYTES
        &&& weight(self.cache@) <= MAX_RASTER_BYTES + 1
    }

    pub(crate) fn new() -> (r: TextNumbers)
        ensures
            r@ == Seq::<Cached<Lettered, u64>>::empty(),
    {
        TextNumbers { cache: ByteLru::new(MAX_RASTER_BYTES) }
    }

    /// The number of a bitmap of text, and the latest number given out.
    pub(crate) fn number(&mut self, label: &Lettering, pixels: usize, revision: u64) -> (r: (u64, u64))
        ensures
            (r.0, final(self)@, r.1) == numbered_text(
                old(self)@,
                label@,
                pixels as nat,
                revision,
            ),
    {
        proof {
            use_type_invariant(&*self);
        }
        let ghost known = self@;
        let mut cache: ByteLru<Lettering, u64> = ByteLru::new(MAX_RASTER_BYTES);
        std::mem::swap(&mut cache, &mut self.cache);
        let found: Option<u64> = match cache.get(label) {
            Some(number) => Some(*number),
            None => None,
        };
        if let Some(number) = found {
            proof {
                let i = place(known, label@, 0)->0;
                lemma_place(known, label@, 0);
                lemma_weight_remove(known, i);
                lemma_weight_push(known.remove(i), known[i]);
            }
            self.cache = cache;
            return (number, revision);
        }
        let number: u64 = revision.wrapping_add(1);
        let style: usize = label.style.as_str().unicode_len();
        let text: usize = label.text.as_str().unicode_len();
        let all: u128 = style as u128 + text as u128 + pixels as u128;
        let bytes: usize = if all > MAX_RASTER_BYTES as u128 {
            MAX_RASTER_BYTES + 1
        } else {
            all as usize
        };
        proof {
            lemma_place(known, label@, 0);
            let entry = Cached { key: label@, value: number, bytes: bytes as nat };
            let after = known.push(entry);
            assert(stored(known, label@, number, bytes as nat) == after);
            lemma_evicted(after, MAX_RASTER_BYTES as nat);
            let left = evicted(after, MAX_RASTER_BYTES as nat);
            if left.len() == 1 {
                assert(left =~= Seq::<Cached<Lettered, u64>>::empty().push(entry));
                lemma_weight_push(Seq::<Cached<Lettered, u64>>::empty(), entry);
            }
        }
        cache.insert(label.copy(), number, bytes);
        self.cache = cache;
        (number, number)
    }
}

/// A draw list with its bitmaps numbered, so far.
pub ghost struct Numbering {
    pub items: Seq<Item>,
    /// What is remembered.
    pub known: Seq<Cached<Lettered, u64>>,
    /// The latest number given out.
    pub revision: u64,
}

impl Numbering {
    /// With one more item.
    pub open spec fn and(self, item: Item) -> Numbering {
        match item.shape {
            Drawn::Bitmap { label, content, x, y, width, height } => {
                let (number, known, revision) = numbered_text(
                    self.known,
                    label,
                    content.pixels.len(),
                    self.revision,
                );
                let content = Bits { revision: number, ..content };
                let shape = Drawn::Bitmap { label, content, x, y, width, height };
                Numbering { items: self.items.push(Item { shape, ..item }), known, revision }
            },
            _ => Numbering { items: self.items.push(item), ..self },
        }
    }
}

/// A draw list with its bitmaps numbered: texts that are `known` keep their number, others take
/// the next one behind `revision`.
pub open spec fn numbered(
    items: Seq<Item>,
    known: Seq<Cached<Lettered, u64>>,
    revision: u64,
) -> Numbering
    decreases items.len(),
{
    if items.len() == 0 {
        Numbering { items: Seq::empty(), known, revision }
    } else {
        numbered(items.drop_last(), known, revision).and(items.last())
    }
}

impl State {
    /// The draw list.
    pub open spec fn resolved(self) -> Result<Seq<Item>, Problem> {
        match self.draw_list() {
            Ok(items) => Ok(numbered(items, self.rasters, self.revision).items),
            Err(problem) => Err(problem),
        }
    }

    /// What drawing leaves behind: the texts it drew, and the numbers it gave out.
    pub open spec fn once_drawn(self) -> State {
        match self.draw_list() {
            Ok(items) => {
                let n = numbered(items, self.rasters, self.revision);
                State { rasters: n.known, revision: n.revision, ..self }
            },
            Err(_) => self,
        }
    }
}

/// Numbers the bitmaps of a draw list. Gives the list, and the latest number.
pub(crate) fn number_bitmaps(list: Vec<ResolvedLayer>, known: &mut TextNumbers, revision: u64) -> (r: (
    Vec<ResolvedLayer>,
    u64,
))
    ensures
        ({
            let n = numbered(items_of(list@), old(known)@, revision);
            items_of(r.0@) == n.items && final(known)@ == n.known && r.1 == n.revision
        }),
{
    let ghost all = items_of(list@);
    let ghost before = known@;
    let mut back = reversed(list);
    assert(all =~= items_of(back@).reverse());
    let mut out: Vec<ResolvedLayer> = Vec::new();
    let mut latest: u64 = revision;
    let ghost mut n: int = 0;
    proof {
        assert(all.skip(0) =~= all);
        assert(items_of(out@) =~= Seq::<Item>::empty());
    }
    while back.len() > 0
        invariant
            n + back@.len() == all.len(),
            n >= 0,
            items_of(back@).reverse() == all.skip(n),
            numbered(all.take(n), before, revision) == (Numbering {
                items: items_of(out@),
                known: known@,
                revision: latest,
            }),
        decreases back.len(),
    {
        let ghost rest = back@;
        let ghost so_far = numbered(all.take(n), before, revision);
        if let Some(layer) = back.pop() {
            let ghost item = layer@;
            let ghost done = out@;
            proof {
                assert(items_of(rest).reverse()[0] == item);
                assert(all.skip(n)[0] == all[n]);
                assert(all.take(n + 1).drop_last() =~= all.take(n));
                assert(all.take(n + 1).last() == item);
            }
            let ResolvedLayer {
                name,
                shape,
                color,
                gradient,
                opacity,
                blend,
                overflow,
                transform,
            } = layer;
            let shape = match shape {
                ResolvedShape::Bitmap { label, image, x, y, width, height } => {
                    let (number, given): (u64, u64) = known.number(
                        &label,
                        image.pixels.len(),
                        latest,
                    );
                    latest = given;
                    let image = ImageData { revision: number, ..image };
                    ResolvedShape::Bitmap { label, image, x, y, width, height }
                },
                other => other,
            };
            out.push(
                ResolvedLayer {
                    name,
                    shape,
                    color,
                    gradient,
                    opacity,
                    blend,
                    overflow,
                    transform,
                },
            );
            proof {
                assert(items_of(out@) =~= items_of(done).push(out@.last()@));
                assert(items_of(out@) =~= so_far.and(item).items);
                assert(items_of(back@).reverse() =~= items_of(rest).reverse().skip(1));
                assert(all.skip(n).skip(1) =~= all.skip(n + 1));
                n = n + 1;
            }
        }
    }
    assert(all.take(n) =~= all);
    (out, latest)
}

/// The numbers that images are stored under.
pub open spec fn image_numbers(images: Seq<(Seq<char>, ImageData)>) -> Seq<u64> {
    images.map_values(|e: (Seq<char>, ImageData)| e.1.revision)
}

/// The numbers that outline fonts are stored under.
pub open spec fn font_numbers(fonts: Seq<(Seq<char>, FontData)>) -> Seq<u64> {
    fonts.map_values(|e: (Seq<char>, FontData)| e.1.revision)
}

/// The numbers of bitmaps of text.
pub open spec fn bitmap_numbers(list: Seq<Cached<Lettered, u64>>) -> Seq<u64> {
    list.map_values(|e: Cached<Lettered, u64>| e.value)
}

/// Numbers behind `first`, up to `last`, none twice.
pub open spec fn own(numbers: Seq<u64>, first: u64, last: u64) -> bool {
    numbers.no_duplicates() && forall|x: u64| #[trigger]
        numbers.contains(x) ==> first < x <= last
}

/// Two lists without a common number.
pub open spec fn apart(a: Seq<u64>, b: Seq<u64>) -> bool {
    forall|x: u64| #[trigger] a.contains(x) ==> !b.contains(x)
}

impl State {
    /// Whether something the engine holds has this number.
    pub open spec fn holds_number(self, x: u64) -> bool {
        image_numbers(self.images).contains(x) || font_numbers(self.outline_fonts).contains(x)
            || bitmap_numbers(self.rasters).contains(x)
    }

    /// Everything the engine holds is numbered behind `first`, up to its latest number, and no
    /// two things share a number.
    pub open spec fn numbered_from(self, first: u64) -> bool {
        &&& first <= self.revision
        &&& distinct(self.rasters)
        &&& own(image_numbers(self.images), first, self.revision)
        &&& own(font_numbers(self.outline_fonts), first, self.revision)
        &&& own(bitmap_numbers(self.rasters), first, self.revision)
        &&& apart(image_numbers(self.images), font_numbers(self.outline_fonts))
        &&& apart(image_numbers(self.images), bitmap_numbers(self.rasters))
        &&& apart(font_numbers(self.outline_fonts), bitmap_numbers(self.rasters))
    }
}

/// How many numbers a range holds.
pub const RANGE: u64 = 0x10_0000_0000;

/// How many ranges there are.
pub const RANGES: u64 = 0x1000_0000;

/// The number before the range of the `n`th engine of a process; `None` where there is no range
/// left for it.
pub open spec fn range_start(n: u64) -> Option<u64> {
    if n < RANGES {
        Some((n * RANGE) as u64)
    } else {
        None
    }
}

/// What the `n`th engine of a process numbers its uploads behind. See
/// [`Engine::new`](crate::Engine::new).
pub fn first_of(n: u64) -> (r: Option<u64>)
    ensures
        r == range_start(n),
{
    if n < RANGES {
        Some(n * RANGE)
    } else {
        None
    }
}

/// The ranges of two engines do not meet, and there is room for the last one.
pub proof fn lemma_ranges_apart(m: u64, n: u64)
    requires
        m < n,
        range_start(n) is Some,
    ensures
        range_start(m) is Some,
        range_start(m)->0 + RANGE <= range_start(n)->0,
        range_start(n)->0 + RANGE - 1 <= u64::MAX,
{
    assert(m * RANGE + RANGE <= n * RANGE) by (nonlinear_arith)
        requires
            m + 1 <= n,
    ;
}

/// The engines of a process never hold a common number, as long as neither has used up its
/// range: a cache they share cannot mistake what one holds for what another holds.
pub proof fn lemma_process_apart(m: u64, a: State, n: u64, b: State, x: u64)
    requires
        m != n,
        range_start(m) is Some && a.numbered_from(range_start(m)->0),
        range_start(n) is Some && b.numbered_from(range_start(n)->0),
        a.revision <= range_start(m)->0 + RANGE,
        b.revision <= range_start(n)->0 + RANGE,
    ensures
        !(a.holds_number(x) && b.holds_number(x)),
{
    if m < n {
        lemma_ranges_apart(m, n);
    } else {
        lemma_ranges_apart(n, m);
    }
    lemma_engines_apart(a, range_start(m)->0, b, range_start(n)->0, x);
}

/// Two uploads of a process have different numbers, whatever they are named and whatever they
/// hold: a later one to the same engine, and one to another engine at any time, as long as no
/// engine has used up its range.
pub proof fn lemma_uploads_differ(
    m: u64,
    a: State,
    n: u64,
    b: State,
    name: Seq<char>,
    other: Seq<char>,
    image: ImageData,
    other_image: ImageData,
)
    requires
        range_start(m) is Some && range_start(m)->0 <= a.revision < range_start(m)->0 + RANGE,
        range_start(n) is Some && range_start(n)->0 <= b.revision < range_start(n)->0 + RANGE,
        a.revision < u64::MAX && b.revision < u64::MAX,
        m == n ==> a.with_image(name, image.width, image.height, image.pixels).revision
            <= b.revision,
    ensures
        a.with_image(name, image.width, image.height, image.pixels).revision != b.with_image(
            other,
            other_image.width,
            other_image.height,
            other_image.pixels,
        ).revision,
{
    if m < n {
        lemma_ranges_apart(m, n);
    } else if n < m {
        lemma_ranges_apart(n, m);
    }
}

/// A new engine has given out no number yet.
pub proof fn lemma_new_numbers(first: u64)
    ensures
        (State { revision: first, ..State::empty() }).numbered_from(first),
{
    let s = State { revision: first, ..State::empty() };
    assert(image_numbers(s.images).len() == 0);
    assert(font_numbers(s.outline_fonts).len() == 0);
    assert(bitmap_numbers(s.rasters).len() == 0);
}

/// What registers nothing and draws nothing keeps every number: a step of the clock, a trigger,
/// a restart. Another show takes away those of texts only.
pub proof fn lemma_kept_numbers(a: State, b: State, first: u64)
    requires
        b.images == a.images && b.outline_fonts == a.outline_fonts,
        b.rasters == a.rasters || b.rasters.len() == 0,
        b.revision == a.revision,
        a.numbered_from(first),
    ensures
        b.numbered_from(first),
{
    if b.rasters.len() == 0 {
        assert(bitmap_numbers(b.rasters).len() == 0);
    }
}

/// An image that is stored takes a number that nothing has had before, and nothing else
/// changes its own.
pub proof fn lemma_image_numbered(
    s: State,
    first: u64,
    name: Seq<char>,
    width: u32,
    height: u32,
    pixels: Vec<u8>,
)
    requires
        s.numbered_from(first),
        s.revision < u64::MAX,
    ensures
        ({
            let next = s.with_image(name, width, height, pixels);
            &&& next.numbered_from(first)
            &&& next.revision == s.revision + 1
            &&& !s.holds_number(next.revision)
            &&& lookup(next.images, name) == Some(
                ImageData { width, height, pixels, revision: next.revision },
            )
            &&& forall|other: Seq<char>|
                other != name ==> #[trigger] lookup(next.images, other) == lookup(s.images, other)
        }),
{
    let next = s.with_image(name, width, height, pixels);
    let data = ImageData { width, height, pixels, revision: next.revision };
    let number = |e: (Seq<char>, ImageData)| e.1.revision;
    lemma_inserted_numbers(s.images, name, data, number);
    lemma_stored(s.images, name, data, name);
    assert forall|other: Seq<char>| other != name implies #[trigger] lookup(next.images, other)
        == lookup(s.images, other) by {
        lemma_stored(s.images, name, data, other);
    }
}

/// An outline font that is registered takes a number that nothing has had before.
pub proof fn lemma_font_numbered(s: State, first: u64, name: Seq<char>, bytes: Vec<u8>)
    requires
        s.numbered_from(first),
        s.revision < u64::MAX,
    ensures
        ({
            let next = s.with_outline_font(name, bytes);
            &&& next.numbered_from(first)
            &&& next.revision == s.revision + 1
            &&& !s.holds_number(next.revision)
            &&& lookup(next.outline_fonts, name) == Some(
                FontData { data: std::sync::Arc::new(bytes), revision: next.revision },
            )
        }),
{
    let next = s.with_outline_font(name, bytes);
    let data = FontData { data: std::sync::Arc::new(bytes), revision: next.revision };
    let number = |e: (Seq<char>, FontData)| e.1.revision;
    lemma_inserted_numbers(s.outline_fonts, name, data, number);
    lemma_stored(s.outline_fonts, name, data, name);
    assert(bitmap_numbers(next.rasters).len() == 0);
}

/// A bitmap font takes no number, and takes away only that of an outline font it replaces.
pub proof fn lemma_font_replaced(s: State, first: u64, name: Seq<char>, data: RegisteredFont)
    requires
        s.numbered_from(first),
    ensures
        s.with_font(name, data).numbered_from(first),
{
    let number = |e: (Seq<char>, FontData)| e.1.revision;
    let kept = removed(s.outline_fonts, name);
    lemma_filtered_numbers(s.outline_fonts, other_than(name), number);
    assert(font_numbers(kept) == kept.map_values(number));
    assert(bitmap_numbers(s.with_font(name, data).rasters).len() == 0);
}

proof fn lemma_filtered_numbers<T>(
    list: Seq<T>,
    keep: spec_fn(T) -> bool,
    number: spec_fn(T) -> u64,
)
    ensures
        forall|x: u64| #[trigger]
            list.filter(keep).map_values(number).contains(x) ==> list.map_values(number).contains(
                x,
            ),
        list.map_values(number).no_duplicates() ==> list.filter(keep).map_values(
            number,
        ).no_duplicates(),
    decreases list.len(),
{
    reveal_with_fuel(Seq::filter, 1);
    let all = list.map_values(number);
    let part = list.filter(keep).map_values(number);
    if list.len() > 0 {
        let most = list.drop_last();
        let before = most.map_values(number);
        let rest = most.filter(keep).map_values(number);
        lemma_filtered_numbers(most, keep, number);
        assert(all =~= before.push(number(list.last())));
        if keep(list.last()) {
            assert(part =~= rest.push(number(list.last())));
        } else {
            assert(part =~= rest);
        }
        assert forall|x: u64| part.contains(x) implies all.contains(x) by {
            let i = choose|i: int| 0 <= i < part.len() && part[i] == x;
            if i < rest.len() {
                assert(rest[i] == x);
                assert(rest.contains(x));
                assert(before.contains(x));
                let j = choose|j: int| 0 <= j < before.len() && before[j] == x;
                assert(all[j] == x);
            } else {
                assert(all.last() == x);
            }
        }
        if all.no_duplicates() {
            assert forall|i: int, j: int| 0 <= i < before.len() && 0 <= j < before.len() && i
                != j implies before[i] != before[j] by {
                assert(all[i] == before[i] && all[j] == before[j]);
            }
            assert forall|i: int, j: int| 0 <= i < j < part.len() implies part[i] != part[j] by {
                assert(part[i] == rest[i]);
                if j < rest.len() {
                    assert(part[j] == rest[j]);
                } else {
                    assert(rest.contains(rest[i]));
                    assert(before.contains(rest[i]));
                    let k = choose|k: int| 0 <= k < before.len() && before[k] == rest[i];
                    assert(all[k] != all.last());
                }
            }
        }
    } else {
        assert(part.len() == 0);
    }
}

proof fn lemma_inserted_numbers<V>(
    entries: Seq<(Seq<char>, V)>,
    name: Seq<char>,
    value: V,
    number: spec_fn((Seq<char>, V)) -> u64,
)
    ensures
        ({
            let was = entries.map_values(number);
            let now = inserted(entries, name, value).map_values(number);
            let own = number((name, value));
            &&& forall|x: u64| #[trigger] now.contains(x) ==> x == own || was.contains(x)
            &&& now.contains(own)
            &&& was.no_duplicates() && !was.contains(own) ==> now.no_duplicates()
        }),
    decreases entries.len(),
{
    let was = entries.map_values(number);
    let all = inserted(entries, name, value);
    let now = all.map_values(number);
    let own = number((name, value));
    if entries.len() == 0 {
        assert(now =~= seq![own]);
        assert(now[0] == own);
    } else {
        let rest = entries.drop_first();
        let tail = rest.map_values(number);
        assert(was =~= seq![was[0]] + tail);
        assert forall|x: u64| tail.contains(x) implies was.contains(x) by {
            let i = choose|i: int| 0 <= i < tail.len() && tail[i] == x;
            assert(was[i + 1] == x);
        }
        if was.no_duplicates() {
            assert forall|i: int, j: int| 0 <= i < tail.len() && 0 <= j < tail.len() && i
                != j implies tail[i] != tail[j] by {
                assert(tail[i] == was[i + 1] && tail[j] == was[j + 1]);
            }
        }
        assert(was[0] == number(entries[0]));
        assert(was.contains(was[0]));
        let (head, end) = if entries[0].0 == name {
            (own, tail)
        } else if crate::text::before(name, entries[0].0) {
            (own, was)
        } else {
            lemma_inserted_numbers(rest, name, value, number);
            (was[0], inserted(rest, name, value).map_values(number))
        };
        assert(now =~= seq![head] + end);
        assert(now[0] == head);
        if head != own || entries[0].0 != name && !crate::text::before(name, entries[0].0) {
            let at = choose|i: int| 0 <= i < end.len() && end[i] == own;
            assert(now[at + 1] == own);
        }
        assert forall|x: u64| now.contains(x) implies x == own || was.contains(x) by {
            let i = choose|i: int| 0 <= i < now.len() && now[i] == x;
            if i > 0 {
                assert(end[i - 1] == x);
                assert(end.contains(x));
            }
        }
        if was.no_duplicates() && !was.contains(own) {
            assert(!tail.contains(own));
            assert forall|i: int, j: int| 0 <= i < j < now.len() implies now[i] != now[j] by {
                assert(now[j] == end[j - 1]);
                assert(end.contains(end[j - 1]));
                if i > 0 {
                    assert(now[i] == end[i - 1]);
                } else if end != was && head == was[0] {
                    // The first entry stands alone in the list it came from.
                    if tail.contains(was[0]) {
                        let k = choose|k: int| 0 <= k < tail.len() && tail[k] == was[0];
                        assert(was[k + 1] == was[0]);
                    }
                }
            }
        }
    }
}

/// A text that is remembered was known before, or its number is new.
pub open spec fn known_or_new(
    e: Cached<Lettered, u64>,
    known: Seq<Cached<Lettered, u64>>,
    first: u64,
    last: u64,
) -> bool {
    known.contains(e) || first < e.value <= last
}

/// A text has a number among those that are remembered.
pub open spec fn knows(known: Seq<Cached<Lettered, u64>>, label: Lettered, number: u64) -> bool {
    exists|i: int| 0 <= i < known.len() && (#[trigger] known[i]).key == label && known[i].value
        == number
}

/// Texts and numbers that go together one to one.
pub open spec fn one_to_one(known: Seq<Cached<Lettered, u64>>) -> bool {
    distinct(known) && bitmap_numbers(known).no_duplicates()
}

proof fn lemma_numbered_text(
    known: Seq<Cached<Lettered, u64>>,
    label: Lettered,
    pixels: nat,
    revision: u64,
)
    requires
        one_to_one(known),
        forall|i: int| 0 <= i < known.len() ==> (#[trigger] known[i]).value <= revision,
        revision < u64::MAX,
    ensures
        ({
            let (number, now, latest) = numbered_text(known, label, pixels, revision);
            &&& revision <= latest <= revision + 1
            &&& one_to_one(now)
            &&& forall|i: int| 0 <= i < now.len() ==> (#[trigger] now[i]).value <= latest
            &&& forall|e: Cached<Lettered, u64>| #[trigger]
                now.contains(e) ==> known.contains(e) || e.key == label && e.value == number && number
                    > revision
            &&& knows(known, label, number) || number > revision
            &&& number <= latest
        }),
{
    let (number, now, latest) = numbered_text(known, label, pixels, revision);
    lemma_place(known, label, 0);
    match place(known, label, 0) {
        Some(i) => {
            let last = now.len() - 1;
            let from = |a: int|
                if a == last {
                    i
                } else if a < i {
                    a
                } else {
                    a + 1
                };
            assert forall|a: int| 0 <= a < now.len() implies #[trigger] now[a] == known[from(a)]
                && 0 <= from(a) < known.len() by {}
            assert forall|a: int, b: int| 0 <= a < b < now.len() implies (#[trigger] now[a]).key
                != (#[trigger] now[b]).key by {
                assert(from(a) != from(b));
                assert(now[a] == known[from(a)] && now[b] == known[from(b)]);
            }
            let numbers = bitmap_numbers(now);
            assert forall|a: int, b: int| 0 <= a < b < numbers.len() implies numbers[a]
                != numbers[b] by {
                assert(now[a] == known[from(a)] && now[b] == known[from(b)]);
                assert(bitmap_numbers(known)[from(a)] == numbers[a]);
                assert(bitmap_numbers(known)[from(b)] == numbers[b]);
            }
            assert forall|e: Cached<Lettered, u64>| #[trigger] now.contains(
                e,
            ) implies known.contains(e) by {
                let a = choose|a: int| 0 <= a < now.len() && now[a] == e;
                assert(known[from(a)] == e);
            }
            assert(known[i].key == label);
        },
        None => {
            let bytes = raster_bytes(label, pixels);
            let all = stored(known, label, number, bytes);
            assert(all == known.push(Cached { key: label, value: number, bytes }));
            lemma_evicted(all, MAX_RASTER_BYTES as nat);
            let gone = all.len() - now.len();
            assert forall|a: int| 0 <= a < now.len() implies #[trigger] now[a] == all[gone + a] by {}
            assert forall|a: int, b: int| 0 <= a < b < now.len() implies (#[trigger] now[a]).key
                != (#[trigger] now[b]).key by {
                assert(now[a] == all[gone + a] && now[b] == all[gone + b]);
            }
            let numbers = bitmap_numbers(now);
            assert forall|a: int, b: int| 0 <= a < b < numbers.len() implies numbers[a]
                != numbers[b] by {
                assert(now[a] == all[gone + a] && now[b] == all[gone + b]);
                assert(bitmap_numbers(known)[gone + a] == numbers[a]);
                if gone + b < known.len() {
                    assert(bitmap_numbers(known)[gone + b] == numbers[b]);
                }
            }
            assert forall|e: Cached<Lettered, u64>| #[trigger] now.contains(
                e,
            ) implies known.contains(e) || e.key == label && e.value == number by {
                let a = choose|a: int| 0 <= a < now.len() && now[a] == e;
                if gone + a < known.len() {
                    assert(known[gone + a] == e);
                }
            }
        },
    }
}

/// The text and the number of a bitmap.
pub open spec fn shows(item: Item, label: Lettered, number: u64) -> bool {
    match item.shape {
        Drawn::Bitmap { label: own, content, .. } => own == label && content.revision == number,
        _ => false,
    }
}

proof fn lemma_numbering(items: Seq<Item>, known: Seq<Cached<Lettered, u64>>, revision: u64)
    requires
        one_to_one(known),
        forall|i: int| 0 <= i < known.len() ==> (#[trigger] known[i]).value <= revision,
        revision + items.len() <= u64::MAX,
    ensures
        ({
            let n = numbered(items, known, revision);
            &&& revision <= n.revision <= revision + items.len()
            &&& one_to_one(n.known)
            &&& forall|i: int| 0 <= i < n.known.len() ==> (#[trigger] n.known[i]).value <= n.revision
            &&& forall|e: Cached<Lettered, u64>| #[trigger]
                n.known.contains(e) ==> known_or_new(e, known, revision, n.revision)
            &&& n.items.len() == items.len()
            &&& forall|i: int, l: Lettered, x: u64|
                0 <= i < items.len() && #[trigger] shows(n.items[i], l, x) ==> x <= n.revision && (
                knows(known, l, x) || x > revision)
            &&& forall|i: int, l: Lettered, x: u64, e: Cached<Lettered, u64>|
                0 <= i < items.len() && #[trigger] shows(n.items[i], l, x)
                    && #[trigger] n.known.contains(e) && e.value == x ==> e.key == l
            &&& forall|i: int, j: int, l: Lettered, m: Lettered, x: u64|
                0 <= i < items.len() && 0 <= j < items.len() && #[trigger] shows(n.items[i], l, x)
                    && #[trigger] shows(n.items[j], m, x) ==> l == m
        }),
    decreases items.len(),
{
    let n = numbered(items, known, revision);
    if items.len() > 0 {
        let most = items.drop_last();
        let item = items.last();
        let m = numbered(most, known, revision);
        lemma_numbering(most, known, revision);
        let top = most.len() as int;
        assert forall|i: int| 0 <= i < top implies #[trigger] n.items[i] == m.items[i] by {}
        if let Drawn::Bitmap { label, content, .. } = item.shape {
            lemma_numbered_text(m.known, label, content.pixels.len(), m.revision);
            let number = numbered_text(m.known, label, content.pixels.len(), m.revision).0;
            assert(shows(n.items[top], label, number));
            assert forall|e: Cached<Lettered, u64>| #[trigger] n.known.contains(
                e,
            ) implies known_or_new(e, known, revision, n.revision) by {
                if m.known.contains(e) {
                    assert(known_or_new(e, known, revision, m.revision));
                }
            }
            // The number of this text was new, or stood for this text.
            assert(number > m.revision || exists|e: Cached<Lettered, u64>| #[trigger]
                m.known.contains(e) && e.key == label && e.value == number) by {
                if number <= m.revision {
                    let k = choose|k: int|
                        0 <= k < m.known.len() && (#[trigger] m.known[k]).key == label
                            && m.known[k].value == number;
                    assert(m.known.contains(m.known[k]));
                }
            }
            assert(knows(known, label, number) || number > revision) by {
                if number <= m.revision {
                    let e = choose|e: Cached<Lettered, u64>| #[trigger]
                        m.known.contains(e) && e.key == label && e.value == number;
                    assert(known_or_new(e, known, revision, m.revision));
                    if known.contains(e) {
                        let k = choose|k: int| 0 <= k < known.len() && known[k] == e;
                        assert(known[k].key == label);
                    }
                }
            }
            assert forall|i: int, l: Lettered, x: u64|
                0 <= i < items.len() && #[trigger] shows(n.items[i], l, x) implies x <= n.revision
                && (knows(known, l, x) || x > revision) by {
                if i < top {
                    assert(shows(m.items[i], l, x));
                }
            }
            assert forall|i: int, l: Lettered, x: u64, e: Cached<Lettered, u64>|
                0 <= i < items.len() && #[trigger] shows(n.items[i], l, x)
                    && #[trigger] n.known.contains(e) && e.value == x implies e.key == l by {
                if i < top {
                    assert(shows(m.items[i], l, x));
                    if !m.known.contains(e) {
                        assert(x > m.revision);
                    }
                } else if m.known.contains(e) {
                    lemma_one_label(m.known, e, label, number, m.revision);
                }
            }
            assert forall|i: int, j: int, l: Lettered, k: Lettered, x: u64|
                0 <= i < items.len() && 0 <= j < items.len() && #[trigger] shows(n.items[i], l, x)
                    && #[trigger] shows(n.items[j], k, x) implies l == k by {
                if i < top {
                    assert(shows(m.items[i], l, x));
                }
                if j < top {
                    assert(shows(m.items[j], k, x));
                }
            }
        } else {
            assert forall|i: int, l: Lettered, x: u64|
                0 <= i < items.len() && #[trigger] shows(n.items[i], l, x) implies i < top && shows(
                m.items[i],
                l,
                x,
            ) by {}
        }
    }
}

/// Where a number is remembered, it stands for one text.
proof fn lemma_one_label(
    known: Seq<Cached<Lettered, u64>>,
    e: Cached<Lettered, u64>,
    label: Lettered,
    number: u64,
    revision: u64,
)
    requires
        one_to_one(known),
        forall|i: int| 0 <= i < known.len() ==> (#[trigger] known[i]).value <= revision,
        known.contains(e) && e.value == number,
        number > revision || knows(known, label, number),
    ensures
        e.key == label,
{
    let i = choose|i: int| 0 <= i < known.len() && known[i] == e;
    assert(known[i].value <= revision);
    let j = choose|j: int|
        0 <= j < known.len() && (#[trigger] known[j]).key == label && known[j].value == number;
    assert(bitmap_numbers(known)[i] == bitmap_numbers(known)[j]);
}

/// Drawing gives each bitmap of text a number: the one this text has, or one that nothing has had
/// before. Two bitmaps of a draw list share a number only where they are of one text.
pub proof fn lemma_drawing_numbers(s: State, first: u64)
    requires
        s.numbered_from(first),
        s.draw_list() matches Ok(items) ==> s.revision + items.len() <= u64::MAX,
    ensures
        ({
            let next = s.once_drawn();
            &&& next.numbered_from(first)
            &&& s.revision <= next.revision
            &&& next.images == s.images && next.outline_fonts == s.outline_fonts
            &&& s.resolved() matches Ok(list) ==> {
                &&& forall|i: int, l: Lettered, x: u64|
                    0 <= i < list.len() && #[trigger] shows(list[i], l, x) ==> x <= next.revision && (
                    knows(s.rasters, l, x) || x > s.revision)
                &&& forall|i: int, j: int, l: Lettered, m: Lettered, x: u64|
                    0 <= i < list.len() && 0 <= j < list.len() && #[trigger] shows(list[i], l, x)
                        && #[trigger] shows(list[j], m, x) ==> l == m
            }
        }),
{
    if let Ok(items) = s.draw_list() {
        assert forall|i: int| 0 <= i < s.rasters.len() implies first < (#[trigger] s.rasters[i]).value
            <= s.revision by {
            assert(bitmap_numbers(s.rasters)[i] == s.rasters[i].value);
            assert(bitmap_numbers(s.rasters).contains(s.rasters[i].value));
        }
        lemma_numbering(items, s.rasters, s.revision);
        let next = s.once_drawn();
        let numbers = bitmap_numbers(next.rasters);
        assert forall|x: u64| #[trigger] numbers.contains(x) implies first < x <= next.revision
            && !image_numbers(s.images).contains(x) && !font_numbers(s.outline_fonts).contains(
            x,
        ) by {
            let i = choose|i: int| 0 <= i < numbers.len() && numbers[i] == x;
            let e = next.rasters[i];
            assert(next.rasters.contains(e));
            assert(known_or_new(e, s.rasters, s.revision, next.revision));
            if s.rasters.contains(e) {
                let j = choose|j: int| 0 <= j < s.rasters.len() && s.rasters[j] == e;
                assert(bitmap_numbers(s.rasters)[j] == x);
                assert(bitmap_numbers(s.rasters).contains(x));
            }
        }
    }
}

/// Engines whose ranges do not meet never hold a common number: a cache they share cannot
/// mistake what one holds for what another holds.
pub proof fn lemma_engines_apart(a: State, first_a: u64, b: State, first_b: u64, x: u64)
    requires
        a.numbered_from(first_a),
        b.numbered_from(first_b),
        a.revision <= first_b || b.revision <= first_a,
    ensures
        !(a.holds_number(x) && b.holds_number(x)),
{
}

} // verus!
