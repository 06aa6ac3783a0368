//! Interior-point strategies: each narrows the digits that are free at one
//! level to the part from which the next digit is drawn.

use vstd::prelude::*;
use core::ops::Range;
use std::collections::BTreeMap;
use fastrand::Rng;
use crate::random::{flip, flip_of, seed_of};

verus! {

/// The limit that is used where none is chosen.
pub const DEFAULT_LIMIT: u32 = 1024;

/// How new digits are placed between two neighbours.
#[derive(Clone, Copy, Debug, PartialEq, Eq, Structural)]
pub enum Strategy {
    /// Always the digit next to the left neighbour.
    Boundary,
    /// A digit within the limit of the left neighbour.
    BoundaryPlus(u32),
    /// A digit within the limit of the right neighbour.
    BoundaryMinus(u32),
    /// At each level one of the two, chosen by a coin the first time the
    /// level is used and kept from then on.
    Boundaries(u32),
}

/// A strategy at work, with the choices it has made so far.
pub enum Allocator {
    /// Digits within the limit of the left neighbour.
    BoundaryPlus(u32),
    /// Digits within the limit of the right neighbour.
    BoundaryMinus(u32),
    /// One of the two at each level, as `choices` records: `true` for the
    /// left neighbour.
    Boundaries { limit: u32, choices: BTreeMap<u32, bool> },
}

/// The neighbour by which a strategy places its digits.
pub enum Lean {
    /// By the left neighbour.
    Left,
    /// By the right neighbour.
    Right,
    /// By either, as chosen level by level.
    Either,
}

/// What an allocator is: its lean, its limit, and the choices made so far.
pub struct AllocatorView {
    pub lean: Lean,
    pub limit: u32,
    pub choices: Map<u32, bool>,
}

impl View for Allocator {
    type V = AllocatorView;

    open spec fn view(&self) -> AllocatorView {
        match *self {
            Allocator::BoundaryPlus(limit) => AllocatorView {
                lean: Lean::Left,
                limit,
                choices: Map::empty(),
            },
            Allocator::BoundaryMinus(limit) => AllocatorView {
                lean: Lean::Right,
                limit,
                choices: Map::empty(),
            },
            Allocator::Boundaries { limit, choices } => AllocatorView {
                lean: Lean::Either,
                limit,
                choices: choices@,
            },
        }
    }
}

/// What the allocator is that carries out `strategy`, with no choice made
/// yet.
pub open spec fn started(strategy: Strategy) -> AllocatorView {
    match strategy {
        Strategy::Boundary => AllocatorView { lean: Lean::Left, limit: 1, choices: Map::empty() },
        Strategy::BoundaryPlus(limit) => AllocatorView {
            lean: Lean::Left,
            limit,
            choices: Map::empty(),
        },
        Strategy::BoundaryMinus(limit) => AllocatorView {
            lean: Lean::Right,
            limit,
            choices: Map::empty(),
        },
        Strategy::Boundaries(limit) => AllocatorView {
            lean: Lean::Either,
            limit,
            choices: Map::empty(),
        },
    }
}

impl AllocatorView {
    /// Whether a digit at `level` is placed by the left neighbour, for a
    /// generator that holds `seed`, with the allocator and the seed as they
    /// are afterwards: a level of `Either` that has no choice yet gets the
    /// coin that the generator flips.
    pub open spec fn choose_side(self, level: usize, seed: u64) -> (bool, AllocatorView, u64) {
        match self.lean {
            Lean::Left => (true, self, seed),
            Lean::Right => (false, self, seed),
            Lean::Either => if self.choices.contains_key(level as u32) {
                (self.choices[level as u32], self, seed)
            } else {
                (
                    flip_of(seed).0,
                    AllocatorView {
                        lean: self.lean,
                        limit: self.limit,
                        choices: self.choices.insert(level as u32, flip_of(seed).0),
                    },
                    flip_of(seed).1,
                )
            },
        }
    }

    /// The part of `range` from which a digit at `level` is drawn by a
    /// generator that holds `seed`, with the allocator and the seed as they
    /// are afterwards.
    pub open spec fn reduce(self, range: Range<u32>, level: usize, seed: u64) -> (
        Range<u32>,
        AllocatorView,
        u64,
    ) {
        let (left, next, seed) = self.choose_side(level, seed);
        (
            if left {
                plus_range(range, at_least_one_of(self.limit))
            } else {
                minus_range(range, at_least_one_of(self.limit))
            },
            next,
            seed,
        )
    }
}

/// The first `limit` digits of `range`.
pub open spec fn plus_range(range: Range<u32>, limit: u32) -> Range<u32> {
    Range {
        start: range.start,
        end: if range.start + limit < range.end {
            (range.start + limit) as u32
        } else {
            range.end
        },
    }
}

/// The last `limit` digits of `range`.
pub open spec fn minus_range(range: Range<u32>, limit: u32) -> Range<u32> {
    Range {
        start: if range.end - limit > range.start {
            (range.end - limit) as u32
        } else {
            range.start
        },
        end: range.end,
    }
}

/// The number of digits that a range is narrowed to under `limit`: a limit
/// of 0 would narrow every range to nothing, and narrows it to one digit.
pub open spec fn at_least_one_of(limit: u32) -> u32 {
    if limit == 0 {
        1u32
    } else {
        limit
    }
}

/// The limit of a strategy: 1 for `Boundary`, and its own for the others.
pub open spec fn limit_of(strategy: Strategy) -> u32 {
    match strategy {
        Strategy::Boundary => 1u32,
        Strategy::BoundaryPlus(limit) => limit,
        Strategy::BoundaryMinus(limit) => limit,
        Strategy::Boundaries(limit) => limit,
    }
}

impl Allocator {
    /// The limit that the allocator holds.
    pub open spec fn limit(&self) -> u32 {
        match *self {
            Allocator::BoundaryPlus(limit) => limit,
            Allocator::BoundaryMinus(limit) => limit,
            Allocator::Boundaries { limit, choices } => limit,
        }
    }

    /// The choices made so far: for each level that was used, whether it
    /// places digits by the left neighbour.
    pub open spec fn choices(&self) -> Map<u32, bool> {
        match *self {
            Allocator::BoundaryPlus(limit) => Map::empty(),
            Allocator::BoundaryMinus(limit) => Map::empty(),
            Allocator::Boundaries { limit, choices } => choices@,
        }
    }

    /// Whether digits at `level` are placed by the left neighbour. For
    /// `Boundaries` this is the choice recorded for the level.
    pub open spec fn leans_left(&self, level: usize) -> bool {
        match *self {
            Allocator::BoundaryPlus(limit) => true,
            Allocator::BoundaryMinus(limit) => false,
            Allocator::Boundaries { limit, choices } => choices@[level as u32],
        }
    }

    /// `made` is the allocator that carries out `strategy`, with no choice
    /// made yet: `Boundary` is `BoundaryPlus` with the limit 1, and each of
    /// the others keeps its limit as it is.
    pub open spec fn carries_out(strategy: Strategy, made: Allocator) -> bool {
        match strategy {
            Strategy::Boundary => made == Allocator::BoundaryPlus(1),
            Strategy::BoundaryPlus(limit) => made == Allocator::BoundaryPlus(limit),
            Strategy::BoundaryMinus(limit) => made == Allocator::BoundaryMinus(limit),
            Strategy::Boundaries(limit) => {
                &&& made is Boundaries
                &&& made.limit() == limit
                &&& made.choices() == Map::<u32, bool>::empty()
            },
        }
    }

    /// The allocator that carries out `strategy`, with no choice made yet.
    pub fn new(strategy: Strategy) -> (r: Allocator)
        ensures
            Allocator::carries_out(strategy, r),
            r@ == started(strategy),
    {
        match strategy {
            Strategy::Boundary => Allocator::BoundaryPlus(1),
            Strategy::BoundaryPlus(limit) => Allocator::BoundaryPlus(limit),
            Strategy::BoundaryMinus(limit) => Allocator::BoundaryMinus(limit),
            Strategy::Boundaries(limit) => Allocator::Boundaries {
                limit,
                choices: BTreeMap::new(),
            },
        }
    }

    /// The limit that the allocator holds, as a number of digits.
    pub fn step_size(&self) -> (r: usize)
        ensures
            r == (match *self {
                Allocator::BoundaryPlus(limit) => limit,
                Allocator::BoundaryMinus(limit) => limit,
                Allocator::Boundaries { limit, choices } => limit,
            }),
    {
        match self {
            Allocator::BoundaryPlus(limit) => *limit as usize,
            Allocator::BoundaryMinus(limit) => *limit as usize,
            Allocator::Boundaries { limit, .. } => *limit as usize,
        }
    }

    /// The allocator has made up its mind about `level`: `Boundaries` has a
    /// choice on record for it, and the other strategies never choose.
    pub open spec fn settled(&self, level: usize) -> bool {
        *self is Boundaries ==> self.choices().contains_key(level as u32)
    }

    /// The part of `range` from which a digit at `level` is drawn: as many
    /// digits as the limit says, at the start of the range or at its end, and
    /// one digit where the limit is 0.
    pub open spec fn narrowed(&self, range: Range<u32>, level: usize) -> Range<u32> {
        if self.leans_left(level) {
            plus_range(range, at_least_one_of(self.limit()))
        } else {
            minus_range(range, at_least_one_of(self.limit()))
        }
    }

    /// `next` is this allocator after later use: `BoundaryPlus` and
    /// `BoundaryMinus` are as they were, and `Boundaries` has the same limit
    /// and every choice made so far.
    #[verifier::opaque]
    pub open spec fn extends_to(&self, next: Allocator) -> bool {
        &&& !(*self is Boundaries) ==> next == *self
        &&& *self is Boundaries ==> next is Boundaries
        &&& next.limit() == self.limit()
        &&& self.choices().submap_of(next.choices())
    }

    /// `next` is this allocator after one use at `level`: `BoundaryPlus` and
    /// `BoundaryMinus` are as they were, and `Boundaries` has the same limit
    /// and the same choices, with one more where the level is new.
    pub open spec fn steps_to(&self, next: Allocator, level: usize) -> bool {
        &&& self.extends_to(next)
        &&& !(*self is Boundaries) ==> next == *self
        &&& *self is Boundaries ==> next is Boundaries && next.limit() == self.limit()
        &&& next.choices() == if *self is Boundaries && !self.choices().contains_key(
            level as u32,
        ) {
            self.choices().insert(level as u32, next.leans_left(level))
        } else {
            self.choices()
        }
    }

    /// Narrows `range`, the digits free at `level`, to the part from which the
    /// next digit is drawn: its first digits or its last, as many as the limit
    /// says. `Boundaries` flips a coin the first time a level is used and
    /// records it; `BoundaryPlus` and `BoundaryMinus` are left as they were.
    pub fn reduce_range(&mut self, range: Range<u32>, level: usize, rng: &mut Rng) -> (r: Range<
        u32,
    >)
        requires
            range.start < range.end,
        ensures
            (r, final(self)@, seed_of(*final(rng))) == old(self)@.reduce(
                range,
                level,
                seed_of(*old(rng)),
            ),
            !(*old(self) is Boundaries) ==> *final(self) == *old(self),
            old(self).steps_to(*final(self), level),
            final(self).settled(level),
            r == final(self).narrowed(range, level),
            range.start <= r.start < r.end <= range.end,
    {
        proof {
            reveal(Allocator::extends_to);
        }
        match self {
            Allocator::BoundaryPlus(limit) => narrow_plus(range, at_least_one(*limit)),
            Allocator::BoundaryMinus(limit) => narrow_minus(range, at_least_one(*limit)),
            Allocator::Boundaries { limit, choices } => {
                let key = level as u32;
                let known = match choices.get(&key) {
                    Some(choice) => Some(*choice),
                    None => None,
                };
                let choice = match known {
                    Some(choice) => choice,
                    None => {
                        let choice = flip(rng);
                        choices.insert(key, choice);
                        choice
                    },
                };
                if choice {
                    narrow_plus(range, at_least_one(*limit))
                } else {
                    narrow_minus(range, at_least_one(*limit))
                }
            },
        }
    }
}

/// Every allocator extends to itself.
pub proof fn lemma_extends_reflexive(a: Allocator)
    ensures
        a.extends_to(a),
{
    reveal(Allocator::extends_to);
}

/// Later use of later use is later use.
pub proof fn lemma_extends_transitive(a: Allocator, b: Allocator, c: Allocator)
    requires
        a.extends_to(b),
        b.extends_to(c),
    ensures
        a.extends_to(c),
{
    reveal(Allocator::extends_to);
    let x = a.choices();
    let y = b.choices();
    let z = c.choices();
    assert(x.submap_of(y));
    assert(y.submap_of(z));
    assert forall|k: u32| #[trigger] x.dom().contains(k) implies #[trigger] z.dom().contains(k)
        && x[k] == z[k] by {
        assert(y.dom().contains(k));
        assert(z.dom().contains(k));
    }
    assert(x.submap_of(z));
}

/// Later use changes nothing about a level that was settled: the same part
/// of a range is allowed there.
pub proof fn lemma_settled_stays(a: Allocator, b: Allocator, level: usize, range: Range<u32>)
    requires
        a.settled(level),
        a.extends_to(b),
    ensures
        b.settled(level),
        b.narrowed(range, level) == a.narrowed(range, level),
{
    reveal(Allocator::extends_to);
    if a is Boundaries {
        assert(a.choices().dom().contains(level as u32));
        assert(b.choices().dom().contains(level as u32));
    }
}

/// The number of digits that a range is narrowed to under `limit`.
pub fn at_least_one(limit: u32) -> (r: u32)
    ensures
        r == at_least_one_of(limit),
{
    if limit == 0 {
        1
    } else {
        limit
    }
}

/// The first `limit` digits of `range`.
pub fn narrow_plus(range: Range<u32>, limit: u32) -> (r: Range<u32>)
    ensures
        r == plus_range(range, limit),
{
    let end = match range.start.checked_add(limit) {
        Some(end) => if end < range.end {
            end
        } else {
            range.end
        },
        None => range.end,
    };
    Range { start: range.start, end }
}

/// The last `limit` digits of `range`.
pub fn narrow_minus(range: Range<u32>, limit: u32) -> (r: Range<u32>)
    ensures
        r == minus_range(range, limit),
{
    let start = if range.end > limit && range.end - limit > range.start {
        range.end - limit
    } else {
        range.start
    };
    Range { start, end: range.end }
}

} // verus!
