//! Where a new path goes: the level at which two neighbours leave room, and
//! the proofs that a path placed there lies between them.

use vstd::prelude::*;
use crate::builder::Builder;
use crate::position::Position;
use crate::path::{agree_below, path_lt, LEVEL0_END};
use crate::path::{lemma_path_lt_level, lemma_path_lt_transitive, lemma_precedes};

verus! {

/// The digit of `path` at `level`, and 0 where the path has ended.
pub open spec fn digit_at(path: Seq<u32>, level: int) -> u32 {
    if 0 <= level < path.len() {
        path[level]
    } else {
        0
    }
}

/// The bound of the digits at `level` where nothing else bounds them.
pub open spec fn end_bound(level: int) -> u32 {
    if level == 0 {
        LEVEL0_END
    } else {
        u32::MAX
    }
}

/// The digit of `right` at `level`, and the level's bound where `right` has
/// ended.
pub open spec fn ceiling_at(right: Seq<u32>, level: int) -> u32 {
    if 0 <= level < right.len() {
        right[level]
    } else {
        end_bound(level)
    }
}

/// The number of digits at `level` that lie strictly between the digit of
/// `left` and the ceiling of `right`. It is negative where they cross.
pub open spec fn room_at(left: Seq<u32>, right: Seq<u32>, level: int) -> int {
    ceiling_at(right, level) - digit_at(left, level) - 1
}

/// The first level from `from` on with room for `need` digits between `left`
/// and `right`. Past the end of both paths every level has
/// `LEVEL0_END - 1` digits or more.
pub open spec fn alloc_level(left: Seq<u32>, right: Seq<u32>, need: int, from: int) -> int
    decreases left.len() + right.len() - from,
{
    if room_at(left, right, from) >= need || (from >= left.len() && from >= right.len()) || from
        < 0 {
        from
    } else {
        alloc_level(left, right, need, from + 1)
    }
}

/// `path` was placed at `level` between `left` and `right`: below the level it
/// repeats `left`, with 0 where `left` has ended, and at the level it holds a
/// digit strictly between the two.
pub open spec fn placed_at(left: Seq<u32>, right: Seq<u32>, level: int, path: Seq<u32>) -> bool {
    &&& 0 <= level
    &&& path.len() == level + 1
    &&& forall|i: int| 0 <= i < level ==> path[i] == digit_at(left, i)
    &&& digit_at(left, level) < path[level] < ceiling_at(right, level)
}

/// `path` was placed at the first level with room for `need` digits.
#[verifier::opaque]
pub open spec fn allocated(left: Seq<u32>, right: Seq<u32>, need: int, path: Seq<u32>) -> bool {
    placed_at(left, right, alloc_level(left, right, need, 0), path)
}

/// `right` is `left` followed by one or more zeros. Of all pairs with
/// `left` before `right` these alone leave no room: a path is never ended
/// with the digit 0.
pub open spec fn zero_extension(left: Seq<u32>, right: Seq<u32>) -> bool {
    &&& left.len() < right.len()
    &&& agree_below(left, right, left.len() as int)
    &&& forall|i: int| left.len() <= i < right.len() ==> right[i] == 0
}

/// There is room between `left` and `right`.
#[verifier::opaque]
pub open spec fn has_room(left: Seq<u32>, right: Seq<u32>) -> bool {
    path_lt(left, right) && !zero_extension(left, right)
}

/// The level that `alloc_level` gives is not below `from` nor past the end of
/// both paths, it has the room unless it is past both ends, and no level
/// before it has.
pub proof fn lemma_alloc_level(left: Seq<u32>, right: Seq<u32>, need: int, from: int)
    requires
        0 <= from,
    ensures
        from <= alloc_level(left, right, need, from),
        alloc_level(left, right, need, from) <= from || alloc_level(left, right, need, from)
            <= left.len() || alloc_level(left, right, need, from) <= right.len(),
        forall|i: int|
            from <= i < alloc_level(left, right, need, from) ==> room_at(left, right, i) < need,
        need <= LEVEL0_END - 1 ==> room_at(
            left,
            right,
            alloc_level(left, right, need, from),
        ) >= need,
    decreases left.len() + right.len() - from,
{
    if room_at(left, right, from) >= need || (from >= left.len() && from >= right.len()) {
    } else {
        lemma_alloc_level(left, right, need, from + 1);
    }
}

/// Levels without room can be skipped: the search gives the same level from
/// any level before which there is no room.
pub proof fn lemma_alloc_level_skip(left: Seq<u32>, right: Seq<u32>, need: int, from: int)
    requires
        0 <= from,
        from <= left.len() || from <= right.len(),
        forall|i: int| 0 <= i < from ==> room_at(left, right, i) < need,
    ensures
        alloc_level(left, right, need, 0) == alloc_level(left, right, need, from),
    decreases from,
{
    if from > 0 {
        lemma_alloc_level_skip(left, right, need, from - 1);
        assert(room_at(left, right, from - 1) < need);
    }
}

/// A path placed between `left` and `right` comes after `left`.
pub proof fn lemma_placed_after_left(
    left: Seq<u32>,
    right: Seq<u32>,
    level: int,
    path: Seq<u32>,
)
    requires
        placed_at(left, right, level, path),
    ensures
        path_lt(left, path),
{
    if level < left.len() {
        lemma_precedes(left, path, level);
    } else {
        lemma_precedes(left, path, left.len() as int);
    }
}

/// A path placed between `left` and `right` comes before `right`, where there
/// is room between the two.
pub proof fn lemma_placed_before_right(
    left: Seq<u32>,
    right: Seq<u32>,
    level: int,
    path: Seq<u32>,
)
    requires
        placed_at(left, right, level, path),
        has_room(left, right),
    ensures
        path_lt(path, right),
{
    reveal(has_room);
    let j = lemma_path_lt_level(left, right);
    if level <= j {
        lemma_precedes(path, right, level);
    } else if j < left.len() {
        lemma_precedes(path, right, j);
    } else {
        lemma_zeros_end(left, right, level, path, j);
    }
}

/// Where `left` is the start of `right` and `path` goes on from `left` with
/// zeros as far as `right` does up to level `at`, `path` comes before `right`
/// unless `right` is `left` and zeros.
proof fn lemma_zeros_end(left: Seq<u32>, right: Seq<u32>, level: int, path: Seq<u32>, at: int)
    requires
        placed_at(left, right, level, path),
        left.len() <= at <= level,
        at <= right.len(),
        left.len() < right.len(),
        agree_below(left, right, left.len() as int),
        agree_below(path, right, at),
        forall|i: int| left.len() <= i < at ==> right[i] == 0,
        !zero_extension(left, right),
    ensures
        path_lt(path, right),
    decreases level - at,
{
    if at == right.len() {
        assert(zero_extension(left, right));
    } else if at == level {
        lemma_precedes(path, right, level);
    } else if right[at] != 0 {
        lemma_precedes(path, right, at);
    } else {
        lemma_zeros_end(left, right, level, path, at + 1);
    }
}

/// A path placed between `left` and `right` leaves room before `right`
/// again, so that the next path can be placed after it.
pub proof fn lemma_placed_leaves_room(
    left: Seq<u32>,
    right: Seq<u32>,
    level: int,
    path: Seq<u32>,
)
    requires
        placed_at(left, right, level, path),
        has_room(left, right),
    ensures
        has_room(path, right),
{
    reveal(has_room);
    lemma_placed_before_right(left, right, level, path);
    if zero_extension(path, right) {
        assert(path[level] == right[level]);
    }
}

/// The leading digit of an allocated path is never `u32::MAX`, unless `left`
/// begins with it.
pub proof fn lemma_allocated_leading_digit(
    left: Seq<u32>,
    right: Seq<u32>,
    need: int,
    path: Seq<u32>,
)
    requires
        allocated(left, right, need, path),
        digit_at(left, 0) != u32::MAX,
    ensures
        path[0] != u32::MAX,
{
    reveal(allocated);
}

/// A path allocated between `left` and `right` comes after `left`, and
/// where there is room between the two it comes before `right` and leaves
/// room before it.
pub proof fn lemma_allocated_between(
    left: Seq<u32>,
    right: Seq<u32>,
    need: int,
    path: Seq<u32>,
)
    requires
        allocated(left, right, need, path),
    ensures
        path_lt(left, path),
        has_room(left, right) ==> path_lt(path, right) && has_room(path, right),
{
    reveal(allocated);
    let level = alloc_level(left, right, need, 0);
    lemma_placed_after_left(left, right, level, path);
    if has_room(left, right) {
        lemma_placed_before_right(left, right, level, path);
        lemma_placed_leaves_room(left, right, level, path);
    }
}

/// Where there is room between two paths, there is a path between them.
pub proof fn lemma_room_holds_a_path(left: Seq<u32>, right: Seq<u32>)
    requires
        has_room(left, right),
    ensures
        exists|path: Seq<u32>|
            #![trigger allocated(left, right, 1, path)]
            allocated(left, right, 1, path) && path_lt(left, path) && path_lt(path, right),
{
    let level = alloc_level(left, right, 1, 0);
    lemma_alloc_level(left, right, 1, 0);
    let digit = (digit_at(left, level) + 1) as u32;
    let path = Seq::new((level + 1) as nat, |i: int| if i < level {
        digit_at(left, i)
    } else {
        digit
    });
    assert(placed_at(left, right, level, path));
    assert(allocated(left, right, 1, path)) by {
        reveal(allocated);
    }
    lemma_allocated_between(left, right, 1, path);
}

/// An allocated path is at most one level longer than the longer of its
/// neighbours.
pub proof fn lemma_allocated_length(left: Seq<u32>, right: Seq<u32>, need: int, path: Seq<u32>)
    requires
        allocated(left, right, need, path),
    ensures
        1 <= path.len(),
        path.len() <= left.len() + 1 || path.len() <= right.len() + 1,
{
    reveal(allocated);
    lemma_alloc_level(left, right, need, 0);
}

/// The digits of each builder of a sequence.
pub open spec fn digits_of_each(paths: Seq<Builder>) -> Seq<Seq<u32>> {
    Seq::new(paths.len(), |i: int| paths[i]@)
}

/// The paths were allocated one after the other: the first after `left`,
/// each of the others after the one before it, all towards `right`.
pub open spec fn chained(left: Seq<u32>, right: Seq<u32>, paths: Seq<Seq<u32>>) -> bool {
    forall|i: int|
        0 <= i < paths.len() ==> allocated(
            if i == 0 {
                left
            } else {
                paths[i - 1]
            },
            right,
            1,
            #[trigger] paths[i],
        )
}

/// The paths come after `left` and in ascending order.
pub open spec fn ascending_after(left: Seq<u32>, paths: Seq<Seq<u32>>) -> bool {
    &&& forall|i: int| 0 <= i < paths.len() ==> path_lt(left, #[trigger] paths[i])
    &&& forall|i: int, j: int|
        0 <= i < j < paths.len() ==> path_lt(#[trigger] paths[i], #[trigger] paths[j])
}

/// The paths all come before `right`.
pub open spec fn all_before(paths: Seq<Seq<u32>>, right: Seq<u32>) -> bool {
    forall|i: int| 0 <= i < paths.len() ==> path_lt(#[trigger] paths[i], right)
}

/// The path from which the next of a chain is allocated.
pub open spec fn chain_end(left: Seq<u32>, paths: Seq<Seq<u32>>) -> Seq<u32> {
    if paths.len() == 0 {
        left
    } else {
        paths.last()
    }
}

/// A chain stays one when a path allocated after its end is added.
proof fn lemma_chained_push(left: Seq<u32>, right: Seq<u32>, paths: Seq<Seq<u32>>, next: Seq<u32>)
    requires
        chained(left, right, paths),
        allocated(chain_end(left, paths), right, 1, next),
    ensures
        chained(left, right, paths.push(next)),
{
    let grown = paths.push(next);
    assert forall|i: int| 0 <= i < grown.len() implies allocated(
        if i == 0 {
            left
        } else {
            grown[i - 1]
        },
        right,
        1,
        #[trigger] grown[i],
    ) by {
        if i < paths.len() {
            assert(grown[i] == paths[i]);
            if i > 0 {
                assert(grown[i - 1] == paths[i - 1]);
            }
        }
    }
}

/// Paths in ascending order stay so when one that comes after the last is
/// added.
proof fn lemma_ascending_push(left: Seq<u32>, paths: Seq<Seq<u32>>, next: Seq<u32>)
    requires
        ascending_after(left, paths),
        path_lt(chain_end(left, paths), next),
    ensures
        ascending_after(left, paths.push(next)),
{
    let grown = paths.push(next);
    let end = chain_end(left, paths);
    assert forall|i: int| 0 <= i < grown.len() implies path_lt(left, #[trigger] grown[i]) by {
        if i == paths.len() && paths.len() > 0 {
            assert(path_lt(left, paths[paths.len() - 1]));
            lemma_path_lt_transitive(left, end, next);
        }
    }
    assert forall|i: int, j: int| 0 <= i < j < grown.len() implies path_lt(
        #[trigger] grown[i],
        #[trigger] grown[j],
    ) by {
        if j == paths.len() && i < paths.len() - 1 {
            assert(path_lt(paths[i], paths[paths.len() - 1]));
            lemma_path_lt_transitive(paths[i], end, next);
        }
    }
}

/// Paths before `right` stay so when another is added.
proof fn lemma_before_push(paths: Seq<Seq<u32>>, right: Seq<u32>, next: Seq<u32>)
    requires
        all_before(paths, right),
        path_lt(next, right),
    ensures
        all_before(paths.push(next), right),
{
    let grown = paths.push(next);
    assert forall|i: int| 0 <= i < grown.len() implies path_lt(#[trigger] grown[i], right) by {
        if i < paths.len() {
            assert(grown[i] == paths[i]);
        }
    }
}

/// A chain stays one, in ascending order and before `right`, when a path
/// allocated after its end is added.
pub proof fn lemma_chain_grows(
    left: Seq<u32>,
    right: Seq<u32>,
    paths: Seq<Seq<u32>>,
    next: Seq<u32>,
)
    requires
        chained(left, right, paths),
        ascending_after(left, paths),
        has_room(left, right) ==> all_before(paths, right) && has_room(
            chain_end(left, paths),
            right,
        ),
        allocated(chain_end(left, paths), right, 1, next),
    ensures
        chained(left, right, paths.push(next)),
        ascending_after(left, paths.push(next)),
        has_room(left, right) ==> all_before(paths.push(next), right) && has_room(
            chain_end(left, paths.push(next)),
            right,
        ),
{
    lemma_allocated_between(chain_end(left, paths), right, 1, next);
    lemma_chained_push(left, right, paths, next);
    lemma_ascending_push(left, paths, next);
    if has_room(left, right) {
        lemma_before_push(paths, right, next);
    }
}

/// The digit of `path` at `level`, and 0 where the path has ended.
pub fn floor_digit(path: &[u32], level: usize) -> (digit: u32)
    ensures
        digit == digit_at(path@, level as int),
{
    if level < path.len() {
        path[level]
    } else {
        0
    }
}

/// The digit of `right` at `level`, and the level's bound where `right` has
/// ended.
pub fn ceiling_digit(right: &[u32], level: usize) -> (digit: u32)
    ensures
        digit == ceiling_at(right@, level as int),
{
    if level < right.len() {
        right[level]
    } else {
        Position::end_bound(level)
    }
}

/// Finds the first level with room for `need` digits between `left` and
/// `right`, searching from `start`, before which there is none.
pub fn find_level(left: &[u32], right: &[u32], need: u32, start: usize) -> (level: usize)
    requires
        1 <= need <= LEVEL0_END - 1,
        start <= left@.len() || start <= right@.len(),
        forall|i: int| 0 <= i < start ==> room_at(left@, right@, i) < need,
    ensures
        level == alloc_level(left@, right@, need as int, 0),
        level <= left@.len() || level <= right@.len(),
        room_at(left@, right@, level as int) >= need,
{
    let mut level = start;
    let longest = if left.len() > right.len() {
        left.len()
    } else {
        right.len()
    };
    loop
        invariant
            1 <= need <= LEVEL0_END - 1,
            left@.len() <= longest,
            right@.len() <= longest,
            level <= left@.len() || level <= right@.len(),
            forall|i: int| 0 <= i < level ==> room_at(left@, right@, i) < need,
        ensures
            room_at(left@, right@, level as int) >= need,
        decreases left@.len() + right@.len() - level,
    {
        let floor = floor_digit(left, level);
        let ceiling = ceiling_digit(right, level);
        if ceiling > floor && ceiling - floor > need {
            break ;
        }
        assert(level < left@.len() || level < right@.len());
        level += 1;
    }
    proof {
        lemma_alloc_level_skip(left@, right@, need as int, level as int);
    }
    level
}

/// Puts together the path that repeats `left` below `level`, with 0 where
/// `left` has ended, and holds `digit` at `level`.
pub fn place(left: &[u32], level: usize, digit: u32) -> (path: Builder)
    ensures
        path@.len() == level + 1,
        forall|i: int| 0 <= i < level ==> path@[i] == digit_at(left@, i),
        path@[level as int] == digit,
{
    let mut path = Builder::from_digits(left);
    path.truncate(level);
    while path.len() < level
        invariant
            path@.len() <= level,
            path@.len() < level ==> path@.len() >= left@.len(),
            forall|i: int| 0 <= i < path@.len() ==> path@[i] == digit_at(left@, i),
        decreases level - path@.len(),
    {
        path.push(0);
    }
    path.push(digit);
    path
}

} // verus!
