//! The random numbers behind the shuffle.
use vstd::prelude::*;

verus! {

/// The first state and the increment of the generator that
/// `oorandom::Rand64::new` makes from a seed.
pub uninterp spec fn rand64_seeded(seed: u128) -> (u128, u128);

/// What `oorandom::Rand64::rand_range` gives for a generator with this state and
/// increment and the range `start..end`: the generator's next state, and the
/// number that was drawn.
pub uninterp spec fn rand64_range(state: u128, inc: u128, start: u64, end: u64) -> (u128, u64);

/// Calls `oorandom::Rand64::new` and reads the state of the new generator. The
/// pair depends on the seed alone, and its increment is odd, as `new` builds it
/// by shifting left and setting the lowest bit.
#[verifier::external_body]
fn rand64_new(seed: u128) -> (r: (u128, u128))
    ensures
        r == rand64_seeded(seed),
        r.1 % 2 == 1,
{
    oorandom::Rand64::new(seed).state()
}

/// Calls `oorandom::Rand64::rand_range` on a generator with the given state and
/// increment. The number drawn lies in the range, and it and the next state
/// depend on the four arguments alone. The increment, which a draw leaves as it
/// is, has to be odd: with an even one the generator can get stuck on numbers
/// that the draw rejects.
#[verifier::external_body]
fn rand64_draw(state: u128, inc: u128, start: u64, end: u64) -> (r: (u128, u64))
    requires
        inc % 2 == 1,
        start < end,
    ensures
        r == rand64_range(state, inc, start, end),
        start <= r.1 < end,
{
    let mut generator = oorandom::Rand64::from_state((state, inc));
    let drawn = generator.rand_range(start..end);
    (generator.state().0, drawn)
}

/// Calls `std::time::SystemTime::elapsed` on the Unix epoch: the microseconds
/// since then, or `None` for a clock that is set to an earlier time. Nothing is
/// claimed of the number.
#[verifier::external_body]
fn micros_since_epoch() -> (micros: Option<u128>) {
    match std::time::SystemTime::UNIX_EPOCH.elapsed() {
        Ok(since) => Some(since.as_micros()),
        Err(_) => None,
    }
}

/// A random number generator.
pub struct Rng {
    state: u128,
    inc: u128,
}

/// What a generator is made of: the point it has reached in its sequence, and
/// the increment that selects the sequence.
pub ghost struct RngState {
    pub state: u128,
    pub inc: u128,
}

impl View for Rng {
    type V = RngState;

    closed spec fn view(&self) -> RngState {
        RngState { state: self.state, inc: self.inc }
    }
}

impl RngState {
    /// The generator that starts from a seed.
    pub open spec fn seeded(seed: u128) -> RngState {
        RngState { state: rand64_seeded(seed).0, inc: rand64_seeded(seed).1 }
    }

    /// The number that is drawn next from `start..end`.
    pub open spec fn drawn(self, start: u64, end: u64) -> u64 {
        rand64_range(self.state, self.inc, start, end).1
    }

    /// The generator after a draw from `start..end`.
    pub open spec fn after(self, start: u64, end: u64) -> RngState {
        RngState { state: rand64_range(self.state, self.inc, start, end).0, inc: self.inc }
    }
}

impl Rng {
    #[verifier::type_invariant]
    spec fn well_formed(self) -> bool {
        self.inc % 2 == 1
    }

    /// The generator that starts from `seed`.
    pub fn with_seed(seed: u128) -> (rng: Rng)
        ensures
            rng@ == RngState::seeded(seed),
    {
        let (state, inc) = rand64_new(seed);
        Rng { state, inc }
    }

    /// Draws a number from `start..end`.
    pub fn rand_range(&mut self, start: u64, end: u64) -> (drawn: u64)
        requires
            start < end,
        ensures
            drawn == old(self)@.drawn(start, end),
            final(self)@ == old(self)@.after(start, end),
            start <= drawn < end,
    {
        proof {
            use_type_invariant(&*self);
        }
        let (state, drawn) = rand64_draw(self.state, self.inc, start, end);
        self.state = state;
        drawn
    }
}

/// The seed for what the clock says: the microseconds since the Unix epoch, or
/// zero for a clock that is set to an earlier time.
pub open spec fn clock_seed(micros: Option<u128>) -> u128 {
    match micros {
        Some(micros) => micros,
        None => 0,
    }
}

/// Turns what the clock says into a seed.
pub fn seed_from_clock(micros: Option<u128>) -> (seed: u128)
    ensures
        seed == clock_seed(micros),
{
    match micros {
        Some(micros) => micros,
        None => 0,
    }
}

/// A generator that is seeded by the clock. What the clock says is left open.
pub fn seeded_rng() -> (rng: Rng)
    ensures
        exists|micros: Option<u128>| rng@ == RngState::seeded(#[trigger] clock_seed(micros)),
{
    Rng::with_seed(seed_from_clock(micros_since_epoch()))
}

/// A generator draws what the outside generator with the same state and increment
/// draws, its state then is the one after that draw, and its increment stays.
/// Seeding it gives the state and increment of the outside generator for that
/// seed.
pub proof fn law_generator_is_followed(rng: RngState, seed: u128, start: u64, end: u64)
    ensures
        (rng.after(start, end).state, rng.drawn(start, end)) == rand64_range(
            rng.state,
            rng.inc,
            start,
            end,
        ),
        rng.after(start, end).inc == rng.inc,
        (RngState::seeded(seed).state, RngState::seeded(seed).inc) == rand64_seeded(seed),
{
}

/// What the clock says is the seed: two times give the same seed only if they are
/// the same, and every seed is that of some time.
pub proof fn law_clock_is_the_seed(micros: u128, other: u128)
    ensures
        clock_seed(Some(micros)) == micros,
        clock_seed(Some(micros)) == clock_seed(Some(other)) ==> micros == other,
        clock_seed(None) == 0,
{
}

} // verus!
