//! The dice roller: a seedable random source and the `NdM+B` roll.

use rand::rngs::StdRng;
use rand::Rng;
use rand::SeedableRng;
use vstd::prelude::*;

verus! {

#[verifier::external_type_specification]
#[verifier::external_body]
pub struct ExStdRng(rand::rngs::StdRng);

/// Relies on `SeedableRng::from_rng` over `rand::rng()`: a generator seeded
/// from the thread-local generator.
#[verifier::external_body]
fn fresh_rng() -> StdRng {
    StdRng::from_rng(&mut rand::rng())
}

/// Relies on `SeedableRng::seed_from_u64`: a generator determined by the seed.
#[verifier::external_body]
fn seeded_rng(seed: u64) -> StdRng {
    StdRng::seed_from_u64(seed)
}

/// Relies on `Rng::random_range` over `1..=sides`: a draw in that range; it
/// panics only on an empty range, which `requires` leaves out.
#[verifier::external_body]
fn draw_in(rng: &mut StdRng, sides: u32) -> (r: u32)
    requires
        sides >= 1,
    ensures
        1 <= r <= sides,
{
    rng.random_range(1..=sides)
}

/// Whether `count` dice of `sides` sides plus `bonus` make a rollable spec:
/// at least one side, and the largest total fits in an `i32`.
pub open spec fn rollable(count: int, sides: int, bonus: int) -> bool {
    sides >= 1 && count >= 0 && bonus >= 0 && count * sides + bonus <= i32::MAX
}

/// The totals that a roll of `count` dice of `sides` sides plus `bonus` can give.
pub open spec fn in_roll_range(total: int, count: int, sides: int, bonus: int) -> bool {
    count + bonus <= total <= count * sides + bonus
}

/// The sum of a sequence of draws.
pub open spec fn sum(s: Seq<int>) -> int
    decreases s.len(),
{
    if s.len() == 0 {
        0
    } else {
        sum(s.drop_last()) + s.last()
    }
}

/// Whether the check that `count` dice of `sides` sides plus `bonus` can be
/// rolled, done in machine integers, agrees with `rollable`.
pub fn is_rollable(count: u32, sides: u32, bonus: u32) -> (r: bool)
    ensures
        r == rollable(count as int, sides as int, bonus as int),
{
    let cu = count as u64;
    let su = sides as u64;
    assert(cu * su <= 0xFFFF_FFFE_0000_0001) by (nonlinear_arith)
        requires
            cu <= 0xFFFF_FFFF,
            su <= 0xFFFF_FFFF,
    ;
    sides >= 1 && cu * su + (bonus as u64) <= 2147483647
}

/// A source of dice rolls. Each roller owns its generator, so two rollers
/// never share draws; `history` records every total it has produced and
/// `draws` every single die it has drawn.
pub struct Roller {
    rng: StdRng,
    totals: Ghost<Seq<int>>,
    dice: Ghost<Seq<int>>,
}

impl Roller {
    /// The totals rolled so far, oldest first.
    pub closed spec fn history(&self) -> Seq<int> {
        self.totals@
    }

    /// The single dice drawn so far, oldest first.
    pub closed spec fn draws(&self) -> Seq<int> {
        self.dice@
    }

    /// A roller seeded from the system's entropy.
    pub fn new() -> (r: Roller)
        ensures
            r.history() == Seq::<int>::empty(),
            r.draws() == Seq::<int>::empty(),
    {
        Roller { rng: fresh_rng(), totals: Ghost(Seq::empty()), dice: Ghost(Seq::empty()) }
    }

    /// A roller whose draws are fixed by `seed`, for reproducible runs.
    pub fn seeded(seed: u64) -> (r: Roller)
        ensures
            r.history() == Seq::<int>::empty(),
            r.draws() == Seq::<int>::empty(),
    {
        Roller { rng: seeded_rng(seed), totals: Ghost(Seq::empty()), dice: Ghost(Seq::empty()) }
    }

    /// Rolls `count` independent dice of `sides` sides, sums them and adds
    /// `bonus`: the `count` new draws, each in `[1, sides]`, are appended to
    /// `draws`, and the total to the history.
    pub fn roll_dice(&mut self, count: u32, sides: u32, bonus: u32) -> (r: i32)
        requires
            rollable(count as int, sides as int, bonus as int),
        ensures
            in_roll_range(r as int, count as int, sides as int, bonus as int),
            final(self).history() == old(self).history().push(r as int),
            final(self).draws().len() == old(self).draws().len() + count,
            final(self).draws().take(old(self).draws().len() as int) == old(self).draws(),
            forall|k: int|
                old(self).draws().len() <= k < final(self).draws().len() ==> 1 <= #[trigger] final(self).draws()[k]
                    <= sides,
            r == sum(final(self).draws().skip(old(self).draws().len() as int)) + bonus,
    {
        let ghost d0 = self.dice@;
        let mut total: u64 = 0;
        let mut k: u32 = 0;
        assert(self.dice@.skip(d0.len() as int) =~= Seq::<int>::empty());
        while k < count
            invariant
                k <= count,
                rollable(count as int, sides as int, bonus as int),
                k as int <= total <= (k as int) * (sides as int),
                self.totals == old(self).totals,
                self.dice@.len() == d0.len() + k,
                self.dice@.take(d0.len() as int) == d0,
                forall|m: int| d0.len() <= m < self.dice@.len() ==> 1 <= #[trigger] self.dice@[m] <= sides,
                total == sum(self.dice@.skip(d0.len() as int)),
            decreases count - k,
        {
            let d = draw_in(&mut self.rng, sides);
            proof {
                assert((k as int + 1) * (sides as int) == (k as int) * (sides as int) + sides as int)
                    by (nonlinear_arith);
                assert((k as int + 1) * (sides as int) <= (count as int) * (sides as int))
                    by (nonlinear_arith)
                    requires
                        k < count,
                ;
            }
            let ghost before = self.dice@;
            self.dice = Ghost(self.dice@.push(d as int));
            assert(self.dice@.skip(d0.len() as int).drop_last() =~= before.skip(d0.len() as int));
            assert(self.dice@.take(d0.len() as int) =~= before.take(d0.len() as int));
            total = total + d as u64;
            k = k + 1;
        }
        let r = (total + bonus as u64) as i32;
        self.totals = Ghost(self.totals@.push(r as int));
        r
    }
}

} // verus!
