//! The powers that reshape dice pools during setup.

use crate::dice::{DicePool, DicePoolType, DiceType};
use vstd::prelude::*;

verus! {

/// A single-use capability that changes the pools of an action.
#[derive(Clone, Copy, Debug, PartialEq, Eq, Structural)]
pub enum Power {
    /// Splits one die into two dice of half its size.
    SplitDice,
    /// Adds a pool that rolls the given die once.
    AddDice(DiceType),
    /// Turns one pool into an advantage pool.
    Advantage,
    /// Adds a constant pool of the given value.
    StaticBonus(u8),
}

/// What a power is aimed at.
#[derive(Clone, Copy, Debug, PartialEq, Eq, Structural)]
pub enum PowerTargetingType {
    /// One pool of an action.
    Single,
    /// An action as a whole, and none of its pools.
    Action,
}

impl Default for PowerTargetingType {
    fn default() -> (r: Self)
        ensures
            r == PowerTargetingType::Single,
    {
        PowerTargetingType::Single
    }
}

impl PowerTargetingType {
    /// How many pools a power of this kind is applied to.
    pub open spec fn arity(self) -> nat {
        match self {
            PowerTargetingType::Single => 1,
            PowerTargetingType::Action => 0,
        }
    }
}

impl DiceType {
    /// The die that a split replaces this one with, twice; `None` for the two
    /// smallest dice and for constants, which cannot be split.
    pub open spec fn halved(self) -> Option<DiceType> {
        match self {
            DiceType::D4 => Some(DiceType::D2),
            DiceType::D6 => Some(DiceType::D3),
            DiceType::D8 => Some(DiceType::D4),
            DiceType::D12 => Some(DiceType::D6),
            _ => None,
        }
    }

    /// The die that a split replaces this one with, if it can be split.
    pub fn half(&self) -> (r: Option<DiceType>)
        ensures
            r == self.halved(),
    {
        match self {
            DiceType::D4 => Some(DiceType::D2),
            DiceType::D6 => Some(DiceType::D3),
            DiceType::D8 => Some(DiceType::D4),
            DiceType::D12 => Some(DiceType::D6),
            _ => None,
        }
    }
}

/// The pools a slice of pool references stands for.
pub open spec fn pools_of(input: &[&DicePool]) -> Seq<DicePool> {
    input@.map_values(|p: &DicePool| *p)
}

/// What a split makes of one pool: two pools of the halved die in the same mode,
/// or the pool itself where the die has no half.
pub open spec fn split_pool(pool: DicePool) -> Seq<DicePool> {
    match pool.dice.halved() {
        Some(dice) => seq![DicePool { dice, pool: pool.pool }, DicePool { dice, pool: pool.pool }],
        None => seq![pool],
    }
}

/// What a split makes of each pool in turn.
pub open spec fn split_all(pools: Seq<DicePool>) -> Seq<DicePool>
    decreases pools.len(),
{
    if pools.len() == 0 {
        Seq::empty()
    } else {
        split_all(pools.drop_last()) + split_pool(pools.last())
    }
}

/// Each pool in turn, in advantage mode.
pub open spec fn with_advantage(pools: Seq<DicePool>) -> Seq<DicePool> {
    pools.map_values(|p: DicePool| DicePool { dice: p.dice, pool: DicePoolType::Advantage })
}

impl Power {
    /// Whether the power is aimed at one pool or at an action.
    pub open spec fn targeting(self) -> PowerTargetingType {
        match self {
            Power::AddDice(_) => PowerTargetingType::Action,
            Power::StaticBonus(_) => PowerTargetingType::Action,
            _ => PowerTargetingType::Single,
        }
    }

    /// Whether the power may be applied to `input`.
    ///
    /// A split takes exactly one pool whose die has a half. Advantage takes exactly
    /// one pool that rolls a die and is not in advantage mode yet. The two adding
    /// powers take no pool at all.
    pub open spec fn valid(self, input: Seq<DicePool>) -> bool {
        match self {
            Power::SplitDice => input.len() == 1 && input[0].dice.halved() is Some,
            Power::AddDice(_) => input.len() == 0,
            Power::Advantage => {
                &&& input.len() == 1
                &&& input[0].pool != DicePoolType::Advantage
                &&& !(input[0].dice is Static)
            },
            Power::StaticBonus(_) => input.len() == 0,
        }
    }

    /// The pools that take the place of `input` when the power is applied.
    pub open spec fn applied(self, input: Seq<DicePool>) -> Seq<DicePool> {
        match self {
            Power::SplitDice => split_all(input),
            Power::AddDice(dice) => seq![DicePool { dice, pool: DicePoolType::Single }],
            Power::Advantage => with_advantage(input),
            Power::StaticBonus(value) => seq![
                DicePool { dice: DiceType::Static { value }, pool: DicePoolType::Single },
            ],
        }
    }

    /// Tells what the power is aimed at.
    pub fn targets(&self) -> (r: PowerTargetingType)
        ensures
            r == self.targeting(),
    {
        match self {
            Power::AddDice(_) => PowerTargetingType::Action,
            Power::StaticBonus(_) => PowerTargetingType::Action,
            _ => PowerTargetingType::Single,
        }
    }

    /// Tells whether the power may be applied to the pools of `input`.
    pub fn valid_targets(&self, input: &[&DicePool]) -> (r: bool)
        ensures
            r == self.valid(pools_of(input)),
    {
        match self {
            Power::SplitDice => {
                input.len() == 1 && input[0].dice.half().is_some()
            },
            Power::AddDice(_) => input.len() == 0,
            Power::Advantage => {
                input.len() == 1 && input[0].pool != DicePoolType::Advantage && match input[0].dice {
                    DiceType::Static { value: _ } => false,
                    _ => true,
                }
            },
            Power::StaticBonus(_) => input.len() == 0,
        }
    }

    /// Makes the pools that take the place of `input`. Whether the power may be
    /// applied is for the caller to ask first; applied to other input, a split
    /// still splits what it can, advantage still marks every pool, and the adding
    /// powers still give their one pool.
    pub fn apply(&self, input: &[&DicePool]) -> (r: Vec<DicePool>)
        ensures
            r@ == self.applied(pools_of(input)),
    {
        let mut out: Vec<DicePool> = Vec::new();
        match self {
            Power::SplitDice => {
                let mut i: usize = 0;
                assert(pools_of(input).take(0).len() == 0);
                while i < input.len()
                    invariant
                        i <= input.len(),
                        out@ == split_all(pools_of(input).take(i as int)),
                    decreases input.len() - i,
                {
                    let pool = *input[i];
                    proof {
                        let next = pools_of(input).take(i + 1);
                        assert(next.drop_last() =~= pools_of(input).take(i as int));
                        assert(next.last() == pool);
                    }
                    match pool.dice.half() {
                        Some(dice) => {
                            out.push(DicePool { dice, pool: pool.pool });
                            out.push(DicePool { dice, pool: pool.pool });
                        },
                        None => {
                            out.push(pool);
                        },
                    }
                    assert(out@ =~= split_all(pools_of(input).take(i as int)) + split_pool(pool));
                    i = i + 1;
                }
                assert(pools_of(input).take(i as int) =~= pools_of(input));
            },
            Power::AddDice(dice) => {
                out.push(DicePool::new(*dice));
                assert(out@ =~= self.applied(pools_of(input)));
            },
            Power::Advantage => {
                let mut i: usize = 0;
                while i < input.len()
                    invariant
                        i <= input.len(),
                        out@ == with_advantage(pools_of(input)).take(i as int),
                    decreases input.len() - i,
                {
                    out.push((*input[i]).advantage());
                    assert(out@ =~= with_advantage(pools_of(input)).take(i + 1));
                    i = i + 1;
                }
                assert(with_advantage(pools_of(input)).take(i as int) =~= with_advantage(
                    pools_of(input),
                ));
            },
            Power::StaticBonus(value) => {
                out.push(DicePool::bonus(*value));
                assert(out@ =~= self.applied(pools_of(input)));
            },
        }
        out
    }
}

/// A power is valid only for as many pools as its targeting asks for.
pub proof fn lemma_valid_matches_arity(power: Power, input: Seq<DicePool>)
    requires
        power.valid(input),
    ensures
        input.len() == power.targeting().arity(),
{
}

/// A split is refused for a two-sided or three-sided die, for a constant, and for
/// any list that does not hold exactly one pool.
pub proof fn lemma_split_rejects(input: Seq<DicePool>)
    ensures
        input.len() != 1 ==> !Power::SplitDice.valid(input),
        input.len() == 1 && (input[0].dice == DiceType::D2 || input[0].dice == DiceType::D3
            || input[0].dice is Static) ==> !Power::SplitDice.valid(input),
{
}

/// A valid split yields exactly two pools: both of the halved die, both in the
/// mode of the pool that was split, and together as large as that pool at most.
pub proof fn lemma_split_applied(input: Seq<DicePool>)
    requires
        Power::SplitDice.valid(input),
    ensures
        Power::SplitDice.applied(input).len() == 2,
        forall|i: int|
            0 <= i < 2 ==> {
                &&& (#[trigger] Power::SplitDice.applied(input)[i]).pool == input[0].pool
                &&& Some(Power::SplitDice.applied(input)[i].dice) == input[0].dice.halved()
                &&& 2 * Power::SplitDice.applied(input)[i].dice.highest()
                    == input[0].dice.highest()
            },
{
    assert(input.drop_last() =~= Seq::<DicePool>::empty());
    assert(split_all(input) =~= split_pool(input[0])) by {
        reveal_with_fuel(split_all, 2);
    }
}

/// Advantage is refused for a pool that has it already, for a constant, and for
/// any list that does not hold exactly one pool.
pub proof fn lemma_advantage_rejects(input: Seq<DicePool>)
    ensures
        input.len() != 1 ==> !Power::Advantage.valid(input),
        input.len() == 1 && (input[0].pool == DicePoolType::Advantage || input[0].dice is Static)
            ==> !Power::Advantage.valid(input),
{
}

/// Valid advantage yields the one pool it was given, in advantage mode.
pub proof fn lemma_advantage_applied(input: Seq<DicePool>)
    requires
        Power::Advantage.valid(input),
    ensures
        Power::Advantage.applied(input) == seq![
            DicePool { dice: input[0].dice, pool: DicePoolType::Advantage },
        ],
{
    assert(Power::Advantage.applied(input) =~= seq![
        DicePool { dice: input[0].dice, pool: DicePoolType::Advantage },
    ]);
}

impl Default for Power {
    fn default() -> (r: Self)
        ensures
            r == Power::StaticBonus(1),
    {
        Power::StaticBonus(1)
    }
}

} // verus!
