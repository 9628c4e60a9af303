//! Random numbers, as the `rand` crate draws them.
use rand::{Rng, SeedableRng};
use rand::rngs::{StdRng, ThreadRng};
use rand::seq::SliceRandom;
use vstd::prelude::*;

verus! {

/// `rand`'s standard generator, which can be seeded.
#[verifier::external_type_specification]
#[verifier::external_body]
pub struct ExStdRng(StdRng);

/// `rand`'s handle to the generator of the current thread, which the
/// system seeds.
#[verifier::external_type_specification]
#[verifier::external_body]
pub struct ExThreadRng(ThreadRng);

/// `SeedableRng::seed_from_u64`: a generator whose output is fixed by
/// `seed`. Nothing is claimed of the numbers it will give.
#[verifier::external_body]
fn seeded(seed: u64) -> StdRng {
    StdRng::seed_from_u64(seed)
}

/// `rand::thread_rng`: the generator of the current thread. Nothing is
/// claimed of the numbers it will give.
#[verifier::external_body]
fn of_thread() -> ThreadRng {
    rand::thread_rng()
}

/// `Rng::gen_range` on a half-open range of `usize`: some number of the
/// range. The range must not be empty.
#[verifier::external_body]
fn seeded_below(rng: &mut StdRng, low: usize, high: usize) -> (r: usize)
    requires
        low < high,
    ensures
        low <= r < high,
{
    rng.gen_range(low..high)
}

/// `Rng::gen_range` on a half-open range of `usize`: some number of the
/// range. The range must not be empty.
#[verifier::external_body]
fn thread_below(rng: &mut ThreadRng, low: usize, high: usize) -> (r: usize)
    requires
        low < high,
    ensures
        low <= r < high,
{
    rng.gen_range(low..high)
}

/// `SliceRandom::choose` on a slice: one of its elements, or `None` where
/// it has none.
#[verifier::external_body]
fn pick<'a>(options: &'a Vec<(Vec<u8>, usize)>, rng: &mut ThreadRng) -> (r: Option<
    &'a (Vec<u8>, usize),
>)
    ensures
        match r {
            Some(chosen) => exists|i: int| 0 <= i < options.len() && options[i] == *chosen,
            None => options.len() == 0,
        },
{
    options.choose(rng)
}

/// Where random numbers come from: a generator fixed by a seed, or the
/// generator of the current thread.
pub enum Source {
    Seeded(StdRng),
    Thread(ThreadRng),
}

impl Source {
    /// The generator fixed by `seed`, or that of the current thread where
    /// there is no seed.
    pub fn new(seed: Option<u64>) -> (r: Self)
        ensures
            seed is Some <==> r is Seeded,
    {
        match seed {
            Some(s) => Source::Seeded(seeded(s)),
            None => Source::Thread(of_thread()),
        }
    }

    /// Some number from `low` up to, but not including, `high`.
    pub fn below(&mut self, low: usize, high: usize) -> (r: usize)
        requires
            low < high,
        ensures
            low <= r < high,
            *old(self) is Seeded <==> *final(self) is Seeded,
    {
        match self {
            Source::Seeded(rng) => seeded_below(rng, low, high),
            Source::Thread(rng) => thread_below(rng, low, high),
        }
    }
}

/// One of `options`, chosen by the generator of the current thread, or
/// `None` where there is none to choose.
pub fn choose_move(options: &Vec<(Vec<u8>, usize)>) -> (r: Option<&(Vec<u8>, usize)>)
    ensures
        match r {
            Some(chosen) => exists|i: int| 0 <= i < options.len() && options[i] == *chosen,
            None => options.len() == 0,
        },
{
    let mut rng = of_thread();
    pick(options, &mut rng)
}

} // verus!
