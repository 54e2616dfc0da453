//! The generator that a simulation run draws from.
//!
//! While a run is active every draw comes from its generator; outside a run each
//! draw is made from a generator seeded on the spot.

use rand::rngs::StdRng;
use rand::seq::SliceRandom;
use rand::{Rng, SeedableRng};
use std::ops::Range;
use vstd::prelude::*;

verus! {

/// `rand::rngs::StdRng`, the generator of the `rand` crate, carried as an opaque value.
#[verifier::external_type_specification]
#[verifier::external_body]
pub struct ExStdRng(rand::rngs::StdRng);

/// The generator that `rand::SeedableRng::seed_from_u64` makes of a seed.
pub uninterp spec fn fresh_generator(seed: u64) -> StdRng;

/// `rand::SeedableRng::seed_from_u64`: the seed alone decides which generator it is.
#[verifier::external_body]
fn seeded(seed: u64) -> (r: StdRng)
    ensures
        r == fresh_generator(seed),
{
    StdRng::seed_from_u64(seed)
}

/// `rand::SeedableRng::from_rng` on `rand::rng`: a generator seeded by the thread's
/// generator, which the operating system seeds. Nothing is claimed of the stream.
#[verifier::external_body]
fn unseeded() -> StdRng {
    StdRng::from_rng(&mut rand::rng())
}

/// The value that `rand::Rng::random_range` draws from `start..end`.
pub uninterp spec fn draw_of(generator: StdRng, start: usize, end: usize) -> usize;

/// The generator once `rand::Rng::random_range` has drawn from `start..end`.
pub uninterp spec fn after_draw(generator: StdRng, start: usize, end: usize) -> StdRng;

/// `rand::Rng::random_range` on `start..end`: a value of the range. The value, and the state
/// that the generator is left in, are decided by the state that it was in and the range. An
/// empty range would panic, so it is left out.
#[verifier::external_body]
fn draw(rng: &mut StdRng, start: usize, end: usize) -> (r: usize)
    requires
        start < end,
    ensures
        start <= r < end,
        r == draw_of(*old(rng), start, end),
        *final(rng) == after_draw(*old(rng), start, end),
{
    rng.random_range(start..end)
}

/// The 32 bits that `rand::Rng::random` draws.
pub uninterp spec fn bits_of(generator: StdRng) -> u32;

/// The generator once `rand::Rng::random` has drawn 32 bits.
pub uninterp spec fn after_bits(generator: StdRng) -> StdRng;

/// `rand::Rng::random` for `u32`: 32 bits. They, and the state that the generator is left in,
/// are decided by the state that it was in.
#[verifier::external_body]
fn draw_bits(rng: &mut StdRng) -> (r: u32)
    ensures
        r == bits_of(*old(rng)),
        *final(rng) == after_bits(*old(rng)),
{
    rng.random()
}

/// The order in which `rand::seq::SliceRandom::shuffle` puts a slice of `len` items: at each
/// place, the place that its item comes from.
pub uninterp spec fn shuffled_order(generator: StdRng, len: usize) -> Seq<usize>;

/// The generator once `rand::seq::SliceRandom::shuffle` has rearranged a slice of `len` items.
pub uninterp spec fn after_shuffle(generator: StdRng, len: usize) -> StdRng;

/// `items` with, at each place, the item of the place that `order` gives.
pub open spec fn arranged<T>(items: Seq<T>, order: Seq<usize>) -> Seq<T> {
    Seq::new(items.len(), |i: int| items[order[i] as int])
}

/// `rand::seq::SliceRandom::shuffle`: rearranges `items` by swaps, so every item is
/// kept as often as it was there. Which places are swapped, and the state that the generator
/// is left in, are decided by the state that it was in and the number of items.
#[verifier::external_body]
fn shuffle_with<T>(rng: &mut StdRng, items: &mut Vec<T>)
    ensures
        final(items)@.to_multiset() == old(items)@.to_multiset(),
        final(items)@ == arranged(
            old(items)@,
            shuffled_order(*old(rng), old(items)@.len() as usize),
        ),
        *final(rng) == after_shuffle(*old(rng), old(items)@.len() as usize),
{
    items.shuffle(rng)
}

/// What a shuffle with a fresh generator of `seed` makes of `items`.
pub open spec fn seeded_shuffle_of(seed: u64, items: Seq<usize>) -> Seq<usize> {
    arranged(items, shuffled_order(fresh_generator(seed), items.len() as usize))
}

/// Shuffles with a generator of its own: the arrangement is fixed by the seed and the number
/// of items.
pub(crate) fn seeded_shuffle(seed: u64, items: &mut Vec<usize>)
    ensures
        final(items)@ == seeded_shuffle_of(seed, old(items)@),
        final(items)@.to_multiset() == old(items)@.to_multiset(),
{
    let mut generator = seeded(seed);
    shuffle_with(&mut generator, items);
}

/// `r` is drawn from `start..end` by a run with the generator `from`, which leaves it as `to`.
/// Outside a run any index of the range may come, and there is still no run.
pub open spec fn draws_index(
    from: Option<StdRng>,
    start: usize,
    end: usize,
    r: usize,
    to: Option<StdRng>,
) -> bool {
    &&& start <= r < end
    &&& match from {
        Some(g) => r == draw_of(g, start, end) && to == Some(after_draw(g, start, end)),
        None => to is None,
    }
}

/// `r` is drawn as 32 bits by a run with the generator `from`, which leaves it as `to`.
/// Outside a run any bits may come, and there is still no run.
pub open spec fn draws_bits(from: Option<StdRng>, r: u32, to: Option<StdRng>) -> bool {
    match from {
        Some(g) => r == bits_of(g) && to == Some(after_bits(g)),
        None => to is None,
    }
}

/// `after` is what a run with the generator `from`, which leaves it as `to`, makes of `before`
/// when it shuffles. Outside a run any arrangement may come, and there is still no run.
pub open spec fn shuffles<T>(
    from: Option<StdRng>,
    before: Seq<T>,
    after: Seq<T>,
    to: Option<StdRng>,
) -> bool {
    &&& after.to_multiset() == before.to_multiset()
    &&& match from {
        Some(g) => after == arranged(before, shuffled_order(g, before.len() as usize)) && to
            == Some(after_shuffle(g, before.len() as usize)),
        None => to is None,
    }
}

/// The generator slot of a run.
pub struct RunRng {
    slot: Option<StdRng>,
}

impl RunRng {
    /// The generator of the run, if one is active.
    pub closed spec fn generator(&self) -> Option<StdRng> {
        self.slot
    }

    /// Whether a run is active.
    pub open spec fn active(&self) -> bool {
        self.generator() is Some
    }

    /// A slot with no run active.
    pub fn new() -> (r: RunRng)
        ensures
            !r.active(),
    {
        RunRng { slot: None }
    }
}

/// Starts a run: draws come from a generator seeded with `seed`, or by the operating
/// system if there is none.
pub fn enter_run(rng: &mut RunRng, seed: Option<u64>)
    ensures
        final(rng).active(),
        seed matches Some(s) ==> final(rng).generator() == Some(fresh_generator(s)),
{
    let fresh = match seed {
        Some(s) => seeded(s),
        None => unseeded(),
    };
    rng.slot = Some(fresh);
}

/// Ends the run.
pub fn exit_run(rng: &mut RunRng)
    ensures
        !final(rng).active(),
{
    rng.slot = None;
}

/// Draws an index of `range`.
pub fn random_usize_range(rng: &mut RunRng, range: Range<usize>) -> (r: usize)
    requires
        range.start < range.end,
    ensures
        draws_index(
            old(rng).generator(),
            range.start,
            range.end,
            r,
            final(rng).generator(),
        ),
{
    match rng.slot.take() {
        Some(mut generator) => {
            let r: usize = draw(&mut generator, range.start, range.end);
            rng.slot = Some(generator);
            r
        },
        None => {
            let mut generator = unseeded();
            draw(&mut generator, range.start, range.end)
        },
    }
}

/// Draws 32 bits, from which a caller may make a sample of any distribution.
pub fn random_bits(rng: &mut RunRng) -> (r: u32)
    ensures
        draws_bits(old(rng).generator(), r, final(rng).generator()),
{
    match rng.slot.take() {
        Some(mut generator) => {
            let r: u32 = draw_bits(&mut generator);
            rng.slot = Some(generator);
            r
        },
        None => {
            let mut generator = unseeded();
            draw_bits(&mut generator)
        },
    }
}

/// Rearranges `items` at random.
pub fn shuffle<T>(rng: &mut RunRng, items: &mut Vec<T>)
    ensures
        shuffles(old(rng).generator(), old(items)@, final(items)@, final(rng).generator()),
{
    match rng.slot.take() {
        Some(mut generator) => {
            shuffle_with(&mut generator, items);
            rng.slot = Some(generator);
        },
        None => {
            let mut generator = unseeded();
            shuffle_with(&mut generator, items);
        },
    }
}

/// Two runs with one generator draw alike, and go on with one generator: an index of a range,
/// bits, or an arrangement of as many items.
pub proof fn law_one_generator_draws_alike<T>(
    generator: StdRng,
    start: usize,
    end: usize,
    i: usize,
    j: usize,
    a: u32,
    b: u32,
    before: Seq<T>,
    x: Seq<T>,
    y: Seq<T>,
    to: Option<StdRng>,
    until: Option<StdRng>,
)
    ensures
        draws_index(Some(generator), start, end, i, to) && draws_index(
            Some(generator),
            start,
            end,
            j,
            until,
        ) ==> i == j && to == until,
        draws_bits(Some(generator), a, to) && draws_bits(Some(generator), b, until) ==> a == b && to
            == until,
        shuffles(Some(generator), before, x, to) && shuffles(Some(generator), before, y, until)
            ==> x == y && to == until,
{
}

/// Something that a run asks of its generator.
pub enum Request {
    Index { start: usize, end: usize },
    Bits,
    Order { len: usize },
}

/// The generator that a run with `seed` is left with after `requests`.
pub open spec fn generator_after(seed: u64, requests: Seq<Request>) -> StdRng
    decreases requests.len(),
{
    if requests.len() == 0 {
        fresh_generator(seed)
    } else {
        let before = generator_after(seed, requests.drop_last());
        match requests.last() {
            Request::Index { start, end } => after_draw(before, start, end),
            Request::Bits => after_bits(before),
            Request::Order { len } => after_shuffle(before, len),
        }
    }
}

/// The seed and what was asked for decide a run: whatever it has drawn so far, the next draw
/// is a function of both, and so is the generator that is left.
pub proof fn law_seed_and_requests_decide_the_draws<T>(
    seed: u64,
    requests: Seq<Request>,
    start: usize,
    end: usize,
    i: usize,
    bits: u32,
    before: Seq<T>,
    after: Seq<T>,
    to: Option<StdRng>,
)
    ensures
        ({
            let g = generator_after(seed, requests);
            &&& draws_index(Some(g), start, end, i, to) ==> i == draw_of(g, start, end) && to
                == Some(generator_after(seed, requests.push(Request::Index { start, end })))
            &&& draws_bits(Some(g), bits, to) ==> bits == bits_of(g) && to == Some(
                generator_after(seed, requests.push(Request::Bits)),
            )
            &&& shuffles(Some(g), before, after, to) ==> {
                let len = before.len() as usize;
                &&& after == arranged(before, shuffled_order(g, len))
                &&& to == Some(generator_after(seed, requests.push(Request::Order { len })))
            }
        }),
{
    assert(requests.push(Request::Index { start, end }).drop_last() == requests);
    assert(requests.push(Request::Bits).drop_last() == requests);
    assert(requests.push(Request::Order { len: before.len() as usize }).drop_last() == requests);
}

} // verus!
