//! Dice, dice pools and how they are rolled.

use crate::random::DiceRng;
use vstd::prelude::*;
use vstd::std_specs::iter::IteratorSpec;

verus! {

/// One die: a uniform die with a fixed number of sides, or a constant.
#[derive(Clone, Copy, Debug, PartialEq, Eq, Structural)]
pub enum DiceType {
    D2,
    D3,
    D4,
    D6,
    D8,
    D12,
    Static { value: u8 },
}

impl DiceType {
    /// The smallest value the die can show.
    pub open spec fn lowest(self) -> int {
        match self {
            DiceType::Static { value } => value as int,
            _ => 1,
        }
    }

    /// The largest value the die can show.
    pub open spec fn highest(self) -> int {
        match self {
            DiceType::D2 => 2,
            DiceType::D3 => 3,
            DiceType::D4 => 4,
            DiceType::D6 => 6,
            DiceType::D8 => 8,
            DiceType::D12 => 12,
            DiceType::Static { value } => value as int,
        }
    }

    /// The smallest value the die can show.
    pub fn min_roll(&self) -> (r: u8)
        ensures
            r == self.lowest(),
    {
        match self {
            DiceType::Static { value } => *value,
            _ => 1,
        }
    }

    /// The largest value the die can show.
    pub fn max_roll(&self) -> (r: u8)
        ensures
            r == self.highest(),
    {
        match self {
            DiceType::D2 => 2,
            DiceType::D3 => 3,
            DiceType::D4 => 4,
            DiceType::D6 => 6,
            DiceType::D8 => 8,
            DiceType::D12 => 12,
            DiceType::Static { value } => *value,
        }
    }
}

impl Default for DiceType {
    fn default() -> (r: Self)
        ensures
            r == DiceType::D12,
    {
        DiceType::D12
    }
}

/// Something that can be rolled against a random source.
///
/// A roll draws a fixed number of values; its result is a function of the values
/// drawn, so a contract can name the draws that a call consumed and say how the
/// result follows from them.
pub trait Roll {
    /// Whether the largest possible result fits the result type.
    spec fn rollable(&self) -> bool;

    /// How many values one roll draws from the source.
    spec fn draws(&self) -> nat;

    /// Whether `drawn` can be the values that one roll draws, in order.
    spec fn accepts(&self, drawn: Seq<u8>) -> bool;

    /// The result of a roll that drew `drawn`.
    spec fn value(&self, drawn: Seq<u8>) -> u8;

    /// Rolls once. The source advances by exactly the draws of this roll, and the
    /// result is their `value`.
    fn roll(&self, rng: &mut DiceRng) -> (r: u8)
        requires
            self.rollable(),
        ensures
            final(rng).follows(old(rng)),
            final(rng).since(old(rng)).len() == self.draws(),
            self.accepts(final(rng).since(old(rng))),
            r == self.value(final(rng).since(old(rng))),
    ;
}

impl Roll for DiceType {
    open spec fn rollable(&self) -> bool {
        true
    }

    open spec fn draws(&self) -> nat {
        if *self is Static {
            0
        } else {
            1
        }
    }

    open spec fn accepts(&self, drawn: Seq<u8>) -> bool {
        &&& drawn.len() == self.draws()
        &&& forall|i: int| 0 <= i < drawn.len() ==> 1 <= #[trigger] drawn[i] <= self.highest()
    }

    open spec fn value(&self, drawn: Seq<u8>) -> u8 {
        match *self {
            DiceType::Static { value } => value,
            _ => drawn[0],
        }
    }

    /// A uniform die draws once from `1..=sides`; a constant returns its value and
    /// leaves the source untouched.
    fn roll(&self, rng: &mut DiceRng) -> (r: u8)
        ensures
            self.lowest() <= r <= self.highest(),
            *self is Static ==> *final(rng) == *old(rng),
    {
        match self {
            DiceType::Static { value } => {
                assert(rng@.skip(rng@.len() as int) =~= Seq::<u8>::empty());
                assert(rng@ + Seq::<u8>::empty() =~= rng@);
                *value
            },
            _ => {
                let ghost before = rng@;
                let r = rng.draw(1, self.max_roll());
                assert(rng@.skip(before.len() as int) =~= seq![r]);
                assert(before + seq![r] =~= rng@);
                r
            },
        }
    }
}

/// How a pool turns its die into one value.
#[derive(Clone, Copy, Debug, PartialEq, Eq, Structural)]
pub enum DicePoolType {
    /// Roll the die once.
    Single,
    /// Roll the die twice and keep the larger value.
    Advantage,
}

impl Default for DicePoolType {
    fn default() -> (r: Self)
        ensures
            r == DicePoolType::Single,
    {
        DicePoolType::Single
    }
}

/// One die with its roll mode: the smallest unit that can be rolled for an action.
#[derive(Clone, Copy, Debug, PartialEq, Eq, Structural)]
pub struct DicePool {
    pub dice: DiceType,
    pub pool: DicePoolType,
}

impl Default for DicePool {
    fn default() -> (r: Self)
        ensures
            r == (DicePool { dice: DiceType::D12, pool: DicePoolType::Single }),
    {
        DicePool { dice: DiceType::D12, pool: DicePoolType::Single }
    }
}

impl DicePool {
    /// A pool that rolls `dice` once.
    pub fn new(dice: DiceType) -> (r: Self)
        ensures
            r == (DicePool { dice, pool: DicePoolType::Single }),
    {
        DicePool { dice, pool: DicePoolType::Single }
    }

    /// A single pool of a two-sided die.
    pub fn d2() -> (r: Self)
        ensures
            r == (DicePool { dice: DiceType::D2, pool: DicePoolType::Single }),
    {
        Self::new(DiceType::D2)
    }

    /// A single pool of a three-sided die.
    pub fn d3() -> (r: Self)
        ensures
            r == (DicePool { dice: DiceType::D3, pool: DicePoolType::Single }),
    {
        Self::new(DiceType::D3)
    }

    /// A single pool of a four-sided die.
    pub fn d4() -> (r: Self)
        ensures
            r == (DicePool { dice: DiceType::D4, pool: DicePoolType::Single }),
    {
        Self::new(DiceType::D4)
    }

    /// A single pool of a six-sided die.
    pub fn d6() -> (r: Self)
        ensures
            r == (DicePool { dice: DiceType::D6, pool: DicePoolType::Single }),
    {
        Self::new(DiceType::D6)
    }

    /// A single pool of a eight-sided die.
    pub fn d8() -> (r: Self)
        ensures
            r == (DicePool { dice: DiceType::D8, pool: DicePoolType::Single }),
    {
        Self::new(DiceType::D8)
    }

    /// A single pool of a twelve-sided die.
    pub fn d12() -> (r: Self)
        ensures
            r == (DicePool { dice: DiceType::D12, pool: DicePoolType::Single }),
    {
        Self::new(DiceType::D12)
    }

    /// A pool that always adds `value`.
    pub fn bonus(value: u8) -> (r: Self)
        ensures
            r == (DicePool { dice: DiceType::Static { value }, pool: DicePoolType::Single }),
    {
        Self::new(DiceType::Static { value })
    }

    /// The same die, rolled with advantage.
    pub fn advantage(self) -> (r: Self)
        ensures
            r == (DicePool { dice: self.dice, pool: DicePoolType::Advantage }),
    {
        DicePool { dice: self.dice, pool: DicePoolType::Advantage }
    }
}

impl Roll for DicePool {
    open spec fn rollable(&self) -> bool {
        true
    }

    open spec fn draws(&self) -> nat {
        match self.pool {
            DicePoolType::Single => self.dice.draws(),
            DicePoolType::Advantage => 2 * self.dice.draws(),
        }
    }

    open spec fn accepts(&self, drawn: Seq<u8>) -> bool {
        &&& drawn.len() == self.draws()
        &&& forall|i: int| 0 <= i < drawn.len() ==> 1 <= #[trigger] drawn[i] <= self.dice.highest()
    }

    open spec fn value(&self, drawn: Seq<u8>) -> u8 {
        match (self.dice, self.pool) {
            (DiceType::Static { value }, _) => value,
            (_, DicePoolType::Single) => drawn[0],
            (_, DicePoolType::Advantage) => if drawn[0] >= drawn[1] {
                drawn[0]
            } else {
                drawn[1]
            },
        }
    }

    /// A single pool rolls its die once. An advantage pool rolls it twice, one roll
    /// after the other, and returns the larger result.
    fn roll(&self, rng: &mut DiceRng) -> (r: u8)
        ensures
            self.dice.lowest() <= r <= self.dice.highest(),
            self.dice is Static ==> *final(rng) == *old(rng),
    {
        match self.pool {
            DicePoolType::Single => self.dice.roll(rng),
            DicePoolType::Advantage => {
                let ghost start = rng@;
                let first = self.dice.roll(rng);
                let ghost middle = rng@;
                let second = self.dice.roll(rng);
                proof {
                    let one = middle.skip(start.len() as int);
                    let two = rng@.skip(middle.len() as int);
                    assert(rng@.skip(start.len() as int) =~= one + two);
                    assert(start + (one + two) =~= rng@);
                }
                if first >= second {
                    first
                } else {
                    second
                }
            },
        }
    }
}

/// Whatever a pool draws, its roll lies within the range of its die. A constant
/// pool draws nothing and rolls its value.
pub proof fn lemma_pool_roll_in_range(pool: DicePool, drawn: Seq<u8>)
    requires
        pool.accepts(drawn),
    ensures
        pool.dice.lowest() <= pool.value(drawn) <= pool.dice.highest(),
        pool.dice is Static ==> drawn.len() == 0 && pool.value(drawn) == pool.dice.lowest(),
{
}

/// An advantage pool draws exactly twice, and its roll is the larger of the two
/// values drawn: it equals one of them and is below neither.
pub proof fn lemma_advantage_takes_larger(pool: DicePool, drawn: Seq<u8>)
    requires
        pool.pool == DicePoolType::Advantage,
        !(pool.dice is Static),
        pool.accepts(drawn),
    ensures
        drawn.len() == 2,
        pool.value(drawn) == drawn[0] || pool.value(drawn) == drawn[1],
        pool.value(drawn) >= drawn[0],
        pool.value(drawn) >= drawn[1],
        pool.dice.accepts(drawn.take(1)),
        pool.dice.accepts(drawn.skip(1)),
{
}

/// The pools an action starts with, in display order.
#[derive(Clone, Debug)]
pub struct InitialPools(Vec<DicePool>);

impl View for InitialPools {
    type V = Seq<DicePool>;

    closed spec fn view(&self) -> Seq<DicePool> {
        self.0@
    }
}

impl Default for InitialPools {
    fn default() -> (r: Self)
        ensures
            r@ == InitialPools::default_pools(),
    {
        let mut pools: Vec<DicePool> = Vec::new();
        pools.push(DicePool::default());
        assert(pools@ =~= InitialPools::default_pools());
        InitialPools(pools)
    }
}

impl InitialPools {
    /// What an action starts with when nothing else is said: one single
    /// twelve-sided pool.
    pub open spec fn default_pools() -> Seq<DicePool> {
        seq![DicePool { dice: DiceType::D12, pool: DicePoolType::Single }]
    }

    /// The given pools, in their order.
    pub fn new(pools: Vec<DicePool>) -> (r: Self)
        ensures
            r@ == pools@,
    {
        InitialPools(pools)
    }

    /// Walks the pools first to last.
    pub fn iter(&self) -> (it: core::slice::Iter<'_, DicePool>)
        ensures
            it.remaining() == self@.as_ref(),
    {
        let pools = self.0.as_slice();
        proof {
            vstd::std_specs::slice::axiom_spec_slice_iter(pools);
        }
        pools.iter()
    }

    /// The pools as an owned list, first to last.
    pub fn to_vec(&self) -> (r: Vec<DicePool>)
        ensures
            r@ == self@,
    {
        let mut out: Vec<DicePool> = Vec::new();
        let mut i: usize = 0;
        while i < self.0.len()
            invariant
                i <= self.0.len(),
                out@ == self.0@.take(i as int),
            decreases self.0.len() - i,
        {
            out.push(self.0[i]);
            assert(self.0@.take(i + 1) =~= self.0@.take(i as int).push(self.0@[i as int]));
            i = i + 1;
        }
        assert(self.0@.take(i as int) =~= self.0@);
        out
    }
}

/// How many values rolling every pool of a set draws.
pub open spec fn set_draws(pools: Seq<DicePool>) -> nat
    decreases pools.len(),
{
    if pools.len() == 0 {
        0
    } else {
        set_draws(pools.drop_last()) + pools.last().draws()
    }
}

/// Whether `drawn` can be the values drawn by rolling the pools of a set in order.
pub open spec fn set_accepts(pools: Seq<DicePool>, drawn: Seq<u8>) -> bool
    decreases pools.len(),
{
    if pools.len() == 0 {
        drawn.len() == 0
    } else {
        let cut = drawn.len() - pools.last().draws();
        &&& cut >= 0
        &&& set_accepts(pools.drop_last(), drawn.take(cut))
        &&& pools.last().accepts(drawn.skip(cut))
    }
}

/// The sum of the pools' results when rolling them in order drew `drawn`.
pub open spec fn set_sum(pools: Seq<DicePool>, drawn: Seq<u8>) -> int
    decreases pools.len(),
{
    if pools.len() == 0 {
        0
    } else {
        let cut = drawn.len() - pools.last().draws();
        set_sum(pools.drop_last(), drawn.take(cut)) + pools.last().value(drawn.skip(cut))
    }
}

/// What a pool set rolls when rolling its pools in order drew `drawn`: the sum of
/// the pools' results, and the sentinel 1 for the empty set. The sum fits the
/// result type for a set whose largest sum does.
pub open spec fn set_value(pools: Seq<DicePool>, drawn: Seq<u8>) -> u8 {
    if pools.len() == 0 {
        1
    } else {
        set_sum(pools, drawn) as u8
    }
}

/// The largest sum the pools of a set can roll.
pub open spec fn set_highest(pools: Seq<DicePool>) -> int
    decreases pools.len(),
{
    if pools.len() == 0 {
        0
    } else {
        set_highest(pools.drop_last()) + pools.last().dice.highest()
    }
}

/// The smallest sum the pools of a set can roll.
pub open spec fn set_lowest(pools: Seq<DicePool>) -> int
    decreases pools.len(),
{
    if pools.len() == 0 {
        0
    } else {
        set_lowest(pools.drop_last()) + pools.last().dice.lowest()
    }
}

/// Whatever the pools of a set draw, their sum lies between the smallest and the
/// largest sum of the set.
pub proof fn lemma_set_sum_in_range(pools: Seq<DicePool>, drawn: Seq<u8>)
    requires
        set_accepts(pools, drawn),
    ensures
        drawn.len() == set_draws(pools),
        set_lowest(pools) <= set_sum(pools, drawn) <= set_highest(pools),
    decreases pools.len(),
{
    if pools.len() > 0 {
        let cut = drawn.len() - pools.last().draws();
        lemma_set_sum_in_range(pools.drop_last(), drawn.take(cut));
        lemma_pool_roll_in_range(pools.last(), drawn.skip(cut));
    }
}

/// The empty set draws nothing and rolls 1; any other set that can be rolled
/// rolls the sum of its pools.
pub proof fn lemma_set_value(pools: Seq<DicePool>, drawn: Seq<u8>)
    requires
        set_accepts(pools, drawn),
        set_highest(pools) <= u8::MAX,
    ensures
        pools.len() == 0 ==> drawn.len() == 0 && set_value(pools, drawn) == 1,
        pools.len() > 0 ==> set_value(pools, drawn) == set_sum(pools, drawn),
{
    lemma_set_sum_in_range(pools, drawn);
    if pools.len() > 0 {
        lemma_set_lowest_not_negative(pools);
    }
}

/// No sum of a set is negative.
pub proof fn lemma_set_lowest_not_negative(pools: Seq<DicePool>)
    ensures
        0 <= set_lowest(pools),
    decreases pools.len(),
{
    if pools.len() > 0 {
        lemma_set_lowest_not_negative(pools.drop_last());
    }
}

/// The largest sum of a set is at least that of each of its prefixes.
pub proof fn lemma_set_highest_grows(pools: Seq<DicePool>, n: int)
    requires
        0 <= n <= pools.len(),
    ensures
        0 <= set_highest(pools.take(n)) <= set_highest(pools),
    decreases pools.len(),
{
    if n == 0 {
        assert(pools.take(0).len() == 0);
        if pools.len() > 0 {
            lemma_set_highest_grows(pools.drop_last(), 0);
            assert(pools.drop_last().take(0) =~= pools.take(0));
        }
    } else if n == pools.len() {
        assert(pools.take(n) =~= pools);
        lemma_set_highest_grows(pools.drop_last(), n - 1);
        assert(pools.drop_last().take(n - 1) =~= pools.drop_last());
    } else {
        lemma_set_highest_grows(pools.drop_last(), n);
        assert(pools.drop_last().take(n) =~= pools.take(n));
    }
}

/// The largest sum the pools can roll, where a roll result can hold it.
///
/// `None` tells that the set cannot be rolled: its largest sum exceeds `u8::MAX`.
pub fn highest_roll(pools: &Vec<DicePool>) -> (r: Option<u8>)
    ensures
        match r {
            Some(most) => most == set_highest(pools@),
            None => set_highest(pools@) > u8::MAX,
        },
{
    let mut most: u8 = 0;
    let mut i: usize = 0;
    assert(pools@.take(0).len() == 0);
    while i < pools.len()
        invariant
            i <= pools.len(),
            most == set_highest(pools@.take(i as int)),
        decreases pools.len() - i,
    {
        let top = pools[i].dice.max_roll();
        proof {
            let next = pools@.take(i + 1);
            assert(next.drop_last() =~= pools@.take(i as int));
            assert(next.last() == pools@[i as int]);
            lemma_set_highest_grows(pools@, i + 1);
        }
        if top > u8::MAX - most {
            return None;
        }
        most = most + top;
        i = i + 1;
    }
    assert(pools@.take(i as int) =~= pools@);
    Some(most)
}

/// A pool set rolls as the sum of its pools, and as the sentinel 1 when it is empty.
impl Roll for Vec<DicePool> {
    open spec fn rollable(&self) -> bool {
        set_highest(self@) <= u8::MAX
    }

    open spec fn draws(&self) -> nat {
        set_draws(self@)
    }

    open spec fn accepts(&self, drawn: Seq<u8>) -> bool {
        set_accepts(self@, drawn)
    }

    open spec fn value(&self, drawn: Seq<u8>) -> u8 {
        set_value(self@, drawn)
    }

    /// Rolls every pool once, first to last, and adds the results. An empty set
    /// draws nothing and rolls 1.
    fn roll(&self, rng: &mut DiceRng) -> (r: u8)
        ensures
            self@.len() == 0 ==> r == 1 && *final(rng) == *old(rng),
            self@.len() > 0 ==> r == set_sum(self@, final(rng).since(old(rng))),
            self@.len() > 0 ==> set_lowest(self@) <= r <= set_highest(self@),
    {
        if self.len() == 0 {
            assert(rng@.skip(rng@.len() as int) =~= Seq::<u8>::empty());
            assert(rng@ + Seq::<u8>::empty() =~= rng@);
            return 1;
        }
        let ghost start = rng@;
        let mut total: u8 = 0;
        let mut i: usize = 0;
        assert(self@.take(0).len() == 0);
        assert(rng@.skip(start.len() as int) =~= Seq::<u8>::empty());
        assert(start + Seq::<u8>::empty() =~= rng@);
        while i < self.len()
            invariant
                i <= self.len(),
                set_highest(self@) <= u8::MAX,
                rng@ == start + rng@.skip(start.len() as int),
                rng@.skip(start.len() as int).len() == set_draws(self@.take(i as int)),
                set_accepts(self@.take(i as int), rng@.skip(start.len() as int)),
                total == set_sum(self@.take(i as int), rng@.skip(start.len() as int)),
                set_lowest(self@.take(i as int)) <= total <= set_highest(self@.take(i as int)),
            decreases self.len() - i,
        {
            let ghost before = rng@;
            let ghost sofar = rng@.skip(start.len() as int);
            let rolled = self[i].roll(rng);
            proof {
                let next = self@.take(i + 1);
                let fresh = rng@.skip(before.len() as int);
                let all = rng@.skip(start.len() as int);
                assert(next.drop_last() =~= self@.take(i as int));
                assert(next.last() == self@[i as int]);
                assert(all =~= sofar + fresh);
                assert(start + all =~= rng@);
                assert(all.take(all.len() - fresh.len()) =~= sofar);
                assert(all.skip(all.len() - fresh.len()) =~= fresh);
                lemma_set_highest_grows(self@, i + 1);
            }
            total = total + rolled;
            i = i + 1;
        }
        assert(self@.take(i as int) =~= self@);
        total
    }
}

} // verus!
