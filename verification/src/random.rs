//! The random source that every roll draws from, with a ghost record of what was drawn.

use bevy_turborand::prelude::Rng;
use bevy_turborand::TurboRand;
use vstd::prelude::*;

verus! {

/// The generator of `turborand`, carried through as an opaque value.
#[verifier::external_type_specification]
#[verifier::external_body]
pub struct ExRng(bevy_turborand::prelude::Rng);

/// Calls `TurboRand::u8` with the inclusive range `low..=high`.
///
/// The generator adds to the lower bound an offset smaller than the width of the
/// range, so the result lies within the bounds. It panics on an empty range, which
/// the precondition excludes. Which value of the range comes back is left open.
#[verifier::external_body]
fn draw_between(source: &mut Rng, low: u8, high: u8) -> (r: u8)
    requires
        low <= high,
    ensures
        low <= r <= high,
{
    source.u8(low..=high)
}

/// A random source together with the sequence of values drawn from it so far.
///
/// The record is ghost state: contracts use it to say which draws a roll consumed
/// and how its result follows from them.
pub struct DiceRng {
    source: Rng,
    drawn: Ghost<Seq<u8>>,
}

impl View for DiceRng {
    type V = Seq<u8>;

    /// Every value drawn so far, oldest first.
    closed spec fn view(&self) -> Seq<u8> {
        self.drawn@
    }
}

impl DiceRng {
    /// Wraps a generator; nothing has been drawn from the new source.
    pub fn new(source: Rng) -> (r: Self)
        ensures
            r@ == Seq::<u8>::empty(),
    {
        DiceRng { source, drawn: Ghost(Seq::empty()) }
    }

    /// The draws made between an earlier state of this source and this one.
    pub open spec fn since(&self, earlier: &DiceRng) -> Seq<u8> {
        self@.skip(earlier@.len() as int)
    }

    /// Whether this state is reached from `earlier` by drawing only.
    pub open spec fn follows(&self, earlier: &DiceRng) -> bool {
        self@ == earlier@ + self.since(earlier)
    }

    /// Draws one value from the inclusive range `low..=high` and records it.
    pub fn draw(&mut self, low: u8, high: u8) -> (r: u8)
        requires
            low <= high,
        ensures
            low <= r <= high,
            final(self)@ == old(self)@.push(r),
    {
        let r = draw_between(&mut self.source, low, high);
        self.drawn = Ghost(self.drawn@.push(r));
        r
    }
}

} // verus!
