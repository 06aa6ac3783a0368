//! The generator of paths: it finds the level at which two neighbours leave
//! room, lets the strategy narrow the free digits there, and draws one.

use vstd::prelude::*;
use core::ops::Range;
use fastrand::Rng;
use itertools::{diff_with, Diff};
use crate::allocator::{started, Allocator, AllocatorView, Strategy, DEFAULT_LIMIT};
use crate::allocator::{lemma_extends_reflexive, lemma_extends_transitive};
use crate::allocator::lemma_settled_stays;
use crate::builder::Builder;
use vstd::slice::slice_to_vec;
use crate::gap::{all_before, allocated, ascending_after, ceiling_at, chain_end, chained};
use crate::gap::{alloc_level, digit_at, digits_of_each, has_room, lemma_chain_grows};
use crate::gap::{ceiling_digit, find_level, floor_digit, place};
use crate::gap::{lemma_allocated_between, lemma_allocated_leading_digit};
use crate::path::{agree_below, path_lt};
use crate::random::{draw, draw_of, fresh, reseed, seed_of};

verus! {

/// How the second of two paths first departs from the first.
#[derive(Clone, Copy, Debug, PartialEq, Eq, Structural)]
pub enum Divergence {
    /// Both hold a digit at this level, and the digits differ.
    Mismatch(usize),
    /// The second ends at this level and the first goes on.
    Shorter(usize),
    /// The first ends at this level and the second goes on.
    Longer(usize),
}

/// What `divergence` returns for two paths.
pub open spec fn divergence_of(left: Seq<u32>, right: Seq<u32>, r: Option<Divergence>) -> bool {
    match r {
        None => left == right,
        Some(Divergence::Mismatch(k)) => {
            &&& k < left.len()
            &&& k < right.len()
            &&& agree_below(left, right, k as int)
            &&& left[k as int] != right[k as int]
        },
        Some(Divergence::Shorter(k)) => {
            &&& k == right.len()
            &&& k < left.len()
            &&& agree_below(left, right, k as int)
        },
        Some(Divergence::Longer(k)) => {
            &&& k == left.len()
            &&& k < right.len()
            &&& agree_below(left, right, k as int)
        },
    }
}

/// Whether two digits are the same.
pub fn same_digit(p: u32, q: u32) -> (r: bool)
    ensures
        r == (p == q),
{
    p == q
}

/// `itertools::diff_with` on the digits of two paths: nothing where the paths
/// are equal, and else the first level at which `right` differs from `left`,
/// by a digit or by ending sooner or later.
#[verifier::external_body]
fn divergence(left: &[u32], right: &[u32]) -> (r: Option<Divergence>)
    ensures
        divergence_of(left@, right@, r),
{
    match diff_with(left, right, |p, q| same_digit(**p, **q)) {
        None => None,
        Some(Diff::FirstMismatch(level, _, _)) => Some(Divergence::Mismatch(level)),
        Some(Diff::Shorter(level, _)) => Some(Divergence::Shorter(level)),
        Some(Diff::Longer(level, _)) => Some(Divergence::Longer(level)),
    }
}

/// The level at which two paths first differ, and the length of both where
/// they are equal.
pub fn divergence_level(left: &[u32], right: &[u32]) -> (level: usize)
    ensures
        level <= left@.len(),
        level <= right@.len(),
        agree_below(left@, right@, level as int),
        level < left@.len() && level < right@.len() ==> left@[level as int] != right@[level as int],
{
    match divergence(left, right) {
        None => left.len(),
        Some(Divergence::Mismatch(level)) => level,
        Some(Divergence::Shorter(level)) => level,
        Some(Divergence::Longer(level)) => level,
    }
}

/// The last digit of `path`, a path allocated after `left` towards `right`,
/// lies in the part of the free digits that the allocator allows at that
/// level, about which it has made up its mind.
pub open spec fn favoured(allocator: Allocator, left: Seq<u32>, right: Seq<u32>, path: Seq<u32>) -> bool {
    let level = path.len() - 1;
    let free = Range { start: (digit_at(left, level) + 1) as u32, end: ceiling_at(right, level) };
    let part = allocator.narrowed(free, level as usize);
    &&& allocator.settled(level as usize)
    &&& part.start <= path[level] < part.end
}

/// `path` was generated after `left` towards `right` by an allocator that
/// was `before` and is `after`: it was allocated at the first level with
/// room, the allocator was used once at that level, and the digit there lies
/// in the part of the free digits that the allocator allows.
pub open spec fn drawn(
    before: Allocator,
    after: Allocator,
    left: Seq<u32>,
    right: Seq<u32>,
    path: Seq<u32>,
) -> bool {
    &&& allocated(left, right, 1, path)
    &&& before.steps_to(after, (path.len() - 1) as usize)
    &&& favoured(after, left, right, path)
}

/// Each path of a chain is favoured by the allocator.
pub open spec fn all_favoured(
    allocator: Allocator,
    left: Seq<u32>,
    right: Seq<u32>,
    paths: Seq<Seq<u32>>,
) -> bool {
    forall|i: int|
        0 <= i < paths.len() ==> favoured(
            allocator,
            if i == 0 {
                left
            } else {
                paths[i - 1]
            },
            right,
            #[trigger] paths[i],
        )
}

/// A path that the allocator favoured is favoured after later use too.
pub proof fn lemma_favoured_stays(
    a: Allocator,
    b: Allocator,
    left: Seq<u32>,
    right: Seq<u32>,
    path: Seq<u32>,
)
    requires
        favoured(a, left, right, path),
        a.extends_to(b),
    ensures
        favoured(b, left, right, path),
{
    let level = path.len() - 1;
    let free = Range { start: (digit_at(left, level) + 1) as u32, end: ceiling_at(right, level) };
    lemma_settled_stays(a, b, level as usize, free);
}

/// The paths of a chain stay favoured when the allocator is used again and
/// the path generated then is added.
proof fn lemma_favoured_grows(
    a: Allocator,
    b: Allocator,
    left: Seq<u32>,
    right: Seq<u32>,
    paths: Seq<Seq<u32>>,
    next: Seq<u32>,
)
    requires
        all_favoured(a, left, right, paths),
        a.extends_to(b),
        favoured(b, chain_end(left, paths), right, next),
    ensures
        all_favoured(b, left, right, paths.push(next)),
{
    let grown = paths.push(next);
    assert forall|i: int| 0 <= i < grown.len() implies favoured(
        b,
        if i == 0 {
            left
        } else {
            grown[i - 1]
        },
        right,
        #[trigger] grown[i],
    ) by {
        if i < paths.len() {
            assert(grown[i] == paths[i]);
            let from = if i == 0 {
                left
            } else {
                paths[i - 1]
            };
            assert(favoured(a, from, right, paths[i]));
            lemma_favoured_stays(a, b, from, right, paths[i]);
        }
    }
}

/// What a generator of paths is: its allocator, and the seed that its random
/// numbers follow from.
pub struct GeneratorView {
    pub allocator: AllocatorView,
    pub seed: u64,
}

/// The path that repeats `left` below `level`, with 0 where `left` has ended,
/// and holds `digit` at `level`.
pub open spec fn placed(left: Seq<u32>, level: int, digit: u32) -> Seq<u32> {
    Seq::new(
        (level + 1) as nat,
        |i: int|
            if i < level {
                digit_at(left, i)
            } else {
                digit
            },
    )
}

impl GeneratorView {
    /// The path that the generator makes next after `left` towards `right`,
    /// and the generator as it is afterwards: at the first level with room
    /// the allocator narrows the free digits, and a digit is drawn from what
    /// is left.
    pub open spec fn next(self, left: Seq<u32>, right: Seq<u32>) -> (Seq<u32>, GeneratorView) {
        let level = alloc_level(left, right, 1, 0);
        let free = Range { start: (digit_at(left, level) + 1) as u32, end: ceiling_at(right, level) };
        let (part, allocator, seed) = self.allocator.reduce(free, level as usize, self.seed);
        (
            placed(left, level, draw_of(seed, part.start, part.end).0),
            GeneratorView { allocator, seed: draw_of(seed, part.start, part.end).1 },
        )
    }

    /// The paths that the generator makes one after the other, the first
    /// after `left` and each of the others after the one before it, all
    /// towards `right`, and the generator as it is afterwards.
    pub open spec fn run(self, left: Seq<u32>, right: Seq<u32>, count: nat) -> (
        Seq<Seq<u32>>,
        GeneratorView,
    )
        decreases count,
    {
        if count == 0 {
            (Seq::empty(), self)
        } else {
            let (paths, generator) = self.run(left, right, (count - 1) as nat);
            let (path, after) = generator.next(chain_end(left, paths), right);
            (paths.push(path), after)
        }
    }
}

/// A generator of paths: a strategy and the random numbers it draws from.
pub struct Algorithm {
    rng: Rng,
    allocator: Allocator,
}

impl View for Algorithm {
    type V = GeneratorView;

    closed spec fn view(&self) -> GeneratorView {
        GeneratorView { allocator: self.allocator@, seed: seed_of(self.rng) }
    }
}

impl Algorithm {
    /// The strategy at work, with the choices made so far.
    pub closed spec fn allocator(&self) -> Allocator {
        self.allocator
    }

    /// The seed that the generator of random numbers holds.
    pub closed spec fn seed(&self) -> u64 {
        seed_of(self.rng)
    }

    /// What the view of the generator is made of.
    pub proof fn lemma_view(&self)
        ensures
            self@.allocator == self.allocator()@,
            self@.seed == self.seed(),
    {
    }

    /// A generator that places digits by `strategy`.
    pub fn with_strategy(strategy: Strategy) -> (r: Algorithm)
        ensures
            Allocator::carries_out(strategy, r.allocator()),
            r@.allocator == started(strategy),
    {
        Algorithm { rng: fresh(), allocator: Allocator::new(strategy) }
    }

    /// A generator with the strategy `Boundaries` at the default limit, whose
    /// random numbers start from `seed`.
    pub fn with_seed(seed: u64) -> (r: Algorithm)
        ensures
            Allocator::carries_out(Strategy::Boundaries(DEFAULT_LIMIT), r.allocator()),
            r.seed() == seed,
            r@ == (GeneratorView { allocator: started(Strategy::Boundaries(DEFAULT_LIMIT)), seed }),
    {
        let mut rng = fresh();
        reseed(&mut rng, seed);
        Algorithm { rng, allocator: Allocator::new(Strategy::Boundaries(DEFAULT_LIMIT)) }
    }

    /// Generates a path after `left`: at the first level with room between
    /// `left` and `right` it draws a digit from the part of the free digits
    /// that the strategy allows, and below that level it repeats `left`. The
    /// path comes before `right` wherever there is room between the two.
    pub fn generate_one(&mut self, left: &[u32], right: &[u32]) -> (path: Builder)
        ensures
            (path@, final(self)@) == old(self)@.next(left@, right@),
            drawn(old(self).allocator(), final(self).allocator(), left@, right@, path@),
            path@.len() <= left@.len() + 1 || path@.len() <= right@.len() + 1,
            path_lt(left@, path@),
            has_room(left@, right@) ==> path_lt(path@, right@) && has_room(path@, right@),
            digit_at(left@, 0) != u32::MAX ==> path@[0] != u32::MAX,
    {
        let start = divergence_level(left, right);
        let level = find_level(left, right, 1, start);
        let free = Range { start: floor_digit(left, level) + 1, end: ceiling_digit(right, level) };
        let part = self.allocator.reduce_range(free, level, &mut self.rng);
        let digit = draw(&mut self.rng, part.start, part.end);
        let path = place(left, level, digit);
        proof {
            assert(path@ =~= placed(left@, level as int, digit));
            reveal(allocated);
            lemma_allocated_between(left@, right@, 1, path@);
            if digit_at(left@, 0) != u32::MAX {
                lemma_allocated_leading_digit(left@, right@, 1, path@);
            }
        }
        path
    }

    /// Generates `count` paths in ascending order, the first after `left` and
    /// each of the others after the one before it, as `generate_one` does.
    /// All come before `right` wherever there is room between `left` and
    /// `right`.
    #[verifier::rlimit(40)]
    pub fn generate(&mut self, left: &[u32], right: &[u32], count: usize) -> (paths: Vec<Builder>)
        ensures
            paths@.len() == count,
            (digits_of_each(paths@), final(self)@) == old(self)@.run(left@, right@, count as nat),
            chained(left@, right@, digits_of_each(paths@)),
            ascending_after(left@, digits_of_each(paths@)),
            has_room(left@, right@) ==> all_before(digits_of_each(paths@), right@),
            old(self).allocator().extends_to(final(self).allocator()),
            all_favoured(final(self).allocator(), left@, right@, digits_of_each(paths@)),
    {
        let mut paths: Vec<Builder> = Vec::new();
        let mut last: Vec<u32> = slice_to_vec(left);
        proof {
            assert(digits_of_each(paths@) =~= Seq::<Seq<u32>>::empty());
            lemma_extends_reflexive(self.allocator());
        }
        while paths.len() < count
            invariant
                paths@.len() <= count,
                last@ == chain_end(left@, digits_of_each(paths@)),
                chained(left@, right@, digits_of_each(paths@)),
                ascending_after(left@, digits_of_each(paths@)),
                has_room(left@, right@) ==> all_before(digits_of_each(paths@), right@)
                    && has_room(last@, right@),
                old(self).allocator().extends_to(self.allocator()),
                all_favoured(self.allocator(), left@, right@, digits_of_each(paths@)),
                (digits_of_each(paths@), self@) == old(self)@.run(
                    left@,
                    right@,
                    paths@.len() as nat,
                ),
            decreases count - paths@.len(),
        {
            let ghost before = paths@;
            let ghost prior = self.allocator();
            let path = self.generate_one(last.as_slice(), right);
            assert(prior.extends_to(self.allocator()));
            last = path.digits();
            paths.push(path);
            proof {
                assert(digits_of_each(paths@) =~= digits_of_each(before).push(path@));
                lemma_chain_grows(left@, right@, digits_of_each(before), path@);
                lemma_extends_transitive(old(self).allocator(), prior, self.allocator());
                lemma_favoured_grows(
                    prior,
                    self.allocator(),
                    left@,
                    right@,
                    digits_of_each(before),
                    path@,
                );
            }
        }
        paths
    }
}

impl Default for Algorithm {
    /// A generator with the strategy `Boundaries` at the default limit.
    fn default() -> (r: Algorithm)
        ensures
            Allocator::carries_out(Strategy::Boundaries(DEFAULT_LIMIT), r.allocator()),
            r@.allocator == started(Strategy::Boundaries(DEFAULT_LIMIT)),
    {
        Algorithm::with_strategy(Strategy::Boundaries(DEFAULT_LIMIT))
    }
}

} // verus!
