//! Which of several assets a play takes: a function of how many plays came before it.

use crate::model::{Choice, Pick};
use crate::text::owned;
use crate::tree::Root;
use vstd::prelude::*;

verus! {

/// Scatters the bits of a counter: the same input always gives the same output.
pub open spec fn mixed(x: u64) -> u64 {
    let a = x.wrapping_add(0x9e37_79b9_7f4a_7c15);
    let b = (a ^ (a >> 30)).wrapping_mul(0xbf58_476d_1ce4_e5b9);
    let c = (b ^ (b >> 27)).wrapping_mul(0x94d0_49bb_1331_11eb);
    c ^ (c >> 31)
}

/// Scatters the bits of a counter.
pub fn mix(x: u64) -> (r: u64)
    ensures
        r == mixed(x),
{
    let a: u64 = x.wrapping_add(0x9e37_79b9_7f4a_7c15);
    let b: u64 = (a ^ (a >> 30)).wrapping_mul(0xbf58_476d_1ce4_e5b9);
    let c: u64 = (b ^ (b >> 27)).wrapping_mul(0x94d0_49bb_1331_11eb);
    c ^ (c >> 31)
}

/// A path folded into a seed, from a starting value.
pub open spec fn path_seed(path: Seq<usize>, start: u64) -> u64
    decreases path.len(),
{
    if path.len() == 0 {
        start
    } else {
        mixed(path_seed(path.drop_last(), start) ^ (path.last() as u64).wrapping_add(1))
    }
}

/// Tells layers apart.
pub open spec fn layer_seed(root: Root, path: Seq<usize>) -> u64 {
    path_seed(
        path,
        mixed(
            match root {
                Root::Show => 0,
                Root::Scene(i) => (i as u64).wrapping_add(1),
            },
        ),
    )
}

/// Tells layers apart, so two of them picking from the same list do not pick in step.
pub fn seed_of(root: Root, path: &[usize]) -> (r: u64)
    ensures
        r == layer_seed(root, path@),
{
    let start: u64 = match root {
        Root::Show => 0,
        Root::Scene(i) => (i as u64).wrapping_add(1),
    };
    let mut acc: u64 = mix(start);
    let mut i: usize = 0;
    while i < path.len()
        invariant
            i <= path.len(),
            acc == path_seed(path@.take(i as int), mixed(start)),
        decreases path.len() - i,
    {
        assert(path@.take(i as int + 1).drop_last() =~= path@.take(i as int));
        acc = mix(acc ^ (path[i] as u64).wrapping_add(1));
        i = i + 1;
    }
    assert(path@.take(i as int) =~= path@);
    acc
}

/// Two places of a list swapped.
pub open spec fn swapped(order: Seq<u64>, i: int, j: int) -> Seq<u64> {
    order.update(i, order[j]).update(j, order[i])
}

/// A list whose places up to `i` are swapped with scattered earlier ones, from the end.
pub open spec fn shuffled(order: Seq<u64>, state: u64, i: nat) -> Seq<u64>
    decreases i,
{
    if i == 0 {
        order
    } else {
        let next = mixed(state);
        shuffled(swapped(order, i as int, next as int % (i as int + 1)), next, (i - 1) as nat)
    }
}

/// `0..count`.
pub open spec fn counted(count: nat) -> Seq<u64> {
    Seq::new(count, |i: int| i as u64)
}

/// `0..count` in a scrambled order, the same order every time for a given `seed` and `round`.
pub open spec fn scrambled(count: nat, seed: u64, round: u64) -> Seq<u64> {
    shuffled(
        counted(count),
        mixed(seed ^ mixed(round)),
        if count > 0 {
            (count - 1) as nat
        } else {
            0
        },
    )
}

/// `0..count` in a scrambled order.
pub fn scramble(count: usize, seed: u64, round: u64) -> (r: Vec<u64>)
    ensures
        r@ == scrambled(count as nat, seed, round),
{
    let mut order: Vec<u64> = Vec::new();
    let mut k: usize = 0;
    while k < count
        invariant
            k <= count,
            order@ == counted(k as nat),
        decreases count - k,
    {
        order.push(k as u64);
        k = k + 1;
        assert(order@ =~= counted(k as nat));
    }
    let ghost goal = scrambled(count as nat, seed, round);
    let mut state: u64 = mix(seed ^ mix(round));
    if count == 0 {
        return order;
    }
    let mut i: usize = count - 1;
    while i > 0
        invariant
            i < count,
            order@.len() == count,
            goal == shuffled(order@, state, i as nat),
        decreases i,
    {
        state = mix(state);
        let j: usize = (state % (i as u64 + 1)) as usize;
        let a: u64 = order[i];
        let b: u64 = order[j];
        let ghost was = order@;
        order.set(i, b);
        order.set(j, a);
        assert(order@ =~= swapped(was, i as int, j as int));
        i = i - 1;
    }
    order
}

/// Which of `count` assets the play numbered `ordinal` takes.
pub open spec fn picked(count: nat, how: Pick, ordinal: u64, seed: u64) -> int {
    if count <= 1 {
        0
    } else {
        match how {
            Pick::InOrder => ordinal as int % count as int,
            Pick::Random => mixed(seed ^ mixed(ordinal)) as int % count as int,
            Pick::Shuffle => scrambled(count, seed, (ordinal as int / count as int) as u64)[ordinal
                as int % count as int] as int,
        }
    }
}

proof fn lemma_shuffled(order: Seq<u64>, state: u64, i: nat, bound: nat)
    requires
        i < order.len() || i == 0,
        order.no_duplicates(),
        forall|k: int| 0 <= k < order.len() ==> #[trigger] order[k] < bound,
    ensures
        shuffled(order, state, i).len() == order.len(),
        shuffled(order, state, i).no_duplicates(),
        forall|k: int|
            0 <= k < order.len() ==> #[trigger] shuffled(order, state, i)[k] < bound,
    decreases i,
{
    if i > 0 {
        let next = mixed(state);
        let j = next as int % (i as int + 1);
        let swap = swapped(order, i as int, j);
        assert(swap.no_duplicates()) by {
            assert forall|a: int, b: int|
                0 <= a < swap.len() && 0 <= b < swap.len() && a != b implies swap[a] != swap[b] by {
                let pa = if a == i {
                    j
                } else if a == j {
                    i as int
                } else {
                    a
                };
                let pb = if b == i {
                    j
                } else if b == j {
                    i as int
                } else {
                    b
                };
                assert(swap[a] == order[pa] && swap[b] == order[pb]);
                assert(pa != pb);
            }
        }
        assert forall|k: int| 0 <= k < swap.len() implies #[trigger] swap[k] < bound by {
            let p = if k == i {
                j
            } else if k == j {
                i as int
            } else {
                k
            };
            assert(swap[k] == order[p]);
        }
        lemma_shuffled(swap, next, (i - 1) as nat, bound);
    }
}

/// A scrambled order holds every number below the count, each once.
pub proof fn lemma_scrambled(count: nat, seed: u64, round: u64)
    requires
        count <= u64::MAX,
    ensures
        scrambled(count, seed, round).len() == count,
        scrambled(count, seed, round).no_duplicates(),
        forall|k: int| 0 <= k < count ==> #[trigger] scrambled(count, seed, round)[k] < count,
{
    let order = counted(count);
    assert(order.no_duplicates());
    lemma_shuffled(
        order,
        mixed(seed ^ mixed(round)),
        if count > 0 {
            (count - 1) as nat
        } else {
            0
        },
        count,
    );
}

/// Within one round of a shuffle nothing repeats, and a pick is always one of the assets.
pub proof fn lemma_shuffle_round(count: nat, seed: u64, a: u64, b: u64)
    requires
        1 < count <= u64::MAX,
        a != b,
        a as int / count as int == b as int / count as int,
    ensures
        0 <= picked(count, Pick::Shuffle, a, seed) < count,
        picked(count, Pick::Shuffle, a, seed) != picked(count, Pick::Shuffle, b, seed),
{
    let round = (a as int / count as int) as u64;
    lemma_scrambled(count, seed, round);
    vstd::arithmetic::div_mod::lemma_fundamental_div_mod(a as int, count as int);
    vstd::arithmetic::div_mod::lemma_fundamental_div_mod(b as int, count as int);
    assert(a as int % count as int != b as int % count as int);
}

/// In order, plays one list length apart take the same asset.
pub proof fn lemma_in_order_wraps(count: nat, seed: u64, a: u64, b: u64)
    requires
        count > 1,
        b == a + count,
    ensures
        picked(count, Pick::InOrder, a, seed) == picked(count, Pick::InOrder, b, seed),
{
    vstd::arithmetic::div_mod::lemma_mod_add_multiples_vanish(a as int, count as int);
}

/// Which of `names` the play numbered `ordinal` on a layer takes.
pub fn pick_one(names: &Choice, how: Pick, ordinal: u64, seed: u64) -> (r: String)
    ensures
        r@ == names.name_at(picked(names.0@.len(), how, ordinal, seed)),
{
    let len: usize = names.len();
    if len <= 1 {
        return owned(names.first());
    }
    let count: u64 = len as u64;
    proof {
        assert(ordinal % count < count);
    }
    let index: u64 = match how {
        Pick::InOrder => ordinal % count,
        Pick::Random => mix(seed ^ mix(ordinal)) % count,
        Pick::Shuffle => {
            let round: u64 = ordinal / count;
            let order = scramble(len, seed, round);
            proof {
                lemma_scrambled(len as nat, seed, round);
            }
            order[(ordinal % count) as usize]
        },
    };
    owned(names.get(index as usize))
}

} // verus!
