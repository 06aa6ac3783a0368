//! Paths made without a strategy: one between two neighbours, or many at
//! once, spread evenly over the room between them.

use vstd::prelude::*;
use crate::builder::Builder;
use crate::gap::{all_before, alloc_level, allocated, ascending_after, digit_at, digits_of_each};
use crate::gap::{ceiling_digit, find_level, floor_digit, place};
use crate::gap::{has_room, placed_at, room_at, zero_extension};
use crate::gap::{lemma_placed_after_left, lemma_placed_before_right};
use crate::path::{agree_below, compare, path_lt, Rank, LEVEL0_END};
use crate::path::lemma_precedes;
use crate::random::{draw, fresh};

verus! {

/// The digits of each share where the room at a level is dealt out in
/// `count` equal shares.
pub open spec fn share_size(left: Seq<u32>, right: Seq<u32>, count: int) -> int {
    room_at(left, right, alloc_level(left, right, count, 0)) / count
}

/// `path` is the one of `count` paths that holds share `i`: it was placed at
/// the first level with room for `count` digits, and its digit there lies in
/// the `i`-th of the equal shares into which the free digits are dealt out
/// from the left.
pub open spec fn holds_share(
    left: Seq<u32>,
    right: Seq<u32>,
    count: int,
    i: int,
    path: Seq<u32>,
) -> bool {
    let level = alloc_level(left, right, count, 0);
    let first = digit_at(left, level) + 1;
    let size = share_size(left, right, count);
    &&& allocated(left, right, count, path)
    &&& first + i * size <= path[level] < first + (i + 1) * size
}

/// Each of the paths holds the share of its index.
pub open spec fn dealt_out(
    left: Seq<u32>,
    right: Seq<u32>,
    count: int,
    paths: Seq<Seq<u32>>,
) -> bool {
    forall|i: int| 0 <= i < paths.len() ==> holds_share(left, right, count, i, #[trigger] paths[i])
}

/// The shares lie one after the other inside the room they divide.
proof fn lemma_shares(room: int, count: int, i: int, j: int)
    requires
        1 <= count <= room,
        0 <= i < j <= count,
    ensures
        room / count >= 1,
        (i + 1) * (room / count) <= j * (room / count),
        j * (room / count) <= room,
        0 <= i * (room / count) < (i + 1) * (room / count),
        (i + 1) * (room / count) == i * (room / count) + room / count,
{
    let size = room / count;
    assert(size >= 1 && count * size <= room) by (nonlinear_arith)
        requires
            1 <= count <= room,
            size == room / count,
    ;
    assert((i + 1) * size <= j * size && j * size <= count * size && 0 <= i * size < (i + 1)
        * size && (i + 1) * size == i * size + size) by (nonlinear_arith)
        requires
            0 <= i < j <= count,
            size >= 1,
    ;
}

/// Of two paths placed at one level next to the same neighbours, the one
/// with the smaller digit comes first.
proof fn lemma_siblings(left: Seq<u32>, right: Seq<u32>, level: int, p: Seq<u32>, q: Seq<u32>)
    requires
        placed_at(left, right, level, p),
        placed_at(left, right, level, q),
        p[level] < q[level],
    ensures
        path_lt(p, q),
{
    lemma_precedes(p, q, level);
}

/// Paths that hold the shares of their indices stay so, in ascending order
/// and before `right`, when the path of the next share is added.
proof fn lemma_deal_grows(
    left: Seq<u32>,
    right: Seq<u32>,
    count: int,
    paths: Seq<Seq<u32>>,
    next: Seq<u32>,
)
    requires
        1 <= count <= LEVEL0_END - 1,
        paths.len() < count,
        dealt_out(left, right, count, paths),
        ascending_after(left, paths),
        has_room(left, right) ==> all_before(paths, right),
        holds_share(left, right, count, paths.len() as int, next),
    ensures
        dealt_out(left, right, count, paths.push(next)),
        ascending_after(left, paths.push(next)),
        has_room(left, right) ==> all_before(paths.push(next), right),
{
    reveal(allocated);
    let grown = paths.push(next);
    let level = alloc_level(left, right, count, 0);
    crate::gap::lemma_alloc_level(left, right, count, 0);
    let room = room_at(left, right, level);
    lemma_placed_after_left(left, right, level, next);
    assert forall|i: int| 0 <= i < grown.len() implies path_lt(left, #[trigger] grown[i]) by {
        if i < paths.len() {
            assert(grown[i] == paths[i]);
        }
    }
    assert forall|i: int, j: int| 0 <= i < j < grown.len() implies path_lt(
        #[trigger] grown[i],
        #[trigger] grown[j],
    ) by {
        if j == paths.len() {
            assert(holds_share(left, right, count, i, paths[i]));
            lemma_shares(room, count, i, j);
            lemma_siblings(left, right, level, paths[i], next);
        } else {
            assert(path_lt(paths[i], paths[j]));
        }
    }
    assert forall|i: int| 0 <= i < grown.len() implies holds_share(
        left,
        right,
        count,
        i,
        #[trigger] grown[i],
    ) by {
        if i < paths.len() {
            assert(grown[i] == paths[i]);
        }
    }
    if has_room(left, right) {
        lemma_placed_before_right(left, right, level, next);
        assert forall|i: int| 0 <= i < grown.len() implies path_lt(#[trigger] grown[i], right) by {
            if i < paths.len() {
                assert(grown[i] == paths[i]);
            }
        }
    }
}

/// Whether `right` is `left` followed by one or more zeros.
pub fn is_zero_extension(left: &[u32], right: &[u32]) -> (r: bool)
    ensures
        r == zero_extension(left@, right@),
{
    if left.len() >= right.len() {
        return false;
    }
    let mut i: usize = 0;
    while i < left.len()
        invariant
            i <= left@.len() < right@.len(),
            agree_below(left@, right@, i as int),
        decreases left@.len() - i,
    {
        if left[i] != right[i] {
            return false;
        }
        i += 1;
    }
    while i < right.len()
        invariant
            left@.len() <= i <= right@.len(),
            agree_below(left@, right@, left@.len() as int),
            forall|k: int| left@.len() <= k < i ==> right@[k] == 0,
        decreases right@.len() - i,
    {
        if right[i] != 0 {
            return false;
        }
        i += 1;
    }
    true
}

/// Generates a path strictly between `left` and `right`, at the first level
/// with room, or nothing where there is no room between the two: where
/// `left` does not come before `right`, and where `right` is `left` followed
/// by zeros.
pub fn between(left: &[u32], right: &[u32]) -> (r: Option<Builder>)
    ensures
        r is Some <==> has_room(left@, right@),
        r matches Some(path) ==> ({
            &&& allocated(left@, right@, 1, path@)
            &&& path_lt(left@, path@)
            &&& path_lt(path@, right@)
            &&& digit_at(left@, 0) != u32::MAX ==> path@[0] != u32::MAX
        }),
{
    proof {
        reveal(has_room);
    }
    if compare(left, right) != Rank::Before || is_zero_extension(left, right) {
        return None;
    }
    let mut rng = fresh();
    let level = find_level(left, right, 1, 0);
    let digit = draw(&mut rng, floor_digit(left, level) + 1, ceiling_digit(right, level));
    let path = place(left, level, digit);
    proof {
        reveal(allocated);
        lemma_placed_after_left(left@, right@, level as int, path@);
        lemma_placed_before_right(left@, right@, level as int, path@);
    }
    Some(path)
}

/// Generates `count` paths at once, strictly between `left` and `right` and
/// in ascending order: at the first level with room for that many digits the
/// free digits are dealt out in `count` equal shares, and one digit is drawn
/// from each. Nothing is generated where there is no room between `left` and
/// `right`, nor where `count` is `LEVEL0_END` or more.
pub fn generate(count: u32, left: &[u32], right: &[u32]) -> (paths: Vec<Builder>)
    ensures
        paths@.len() == (if has_room(left@, right@) && count < LEVEL0_END {
            count
        } else {
            0
        }),
        dealt_out(left@, right@, count as int, digits_of_each(paths@)),
        ascending_after(left@, digits_of_each(paths@)),
        all_before(digits_of_each(paths@), right@),
{
    let mut paths: Vec<Builder> = Vec::new();
    assert(digits_of_each(paths@) =~= Seq::<Seq<u32>>::empty());
    proof {
        reveal(has_room);
    }
    if count == 0 || count >= LEVEL0_END || compare(left, right) != Rank::Before
        || is_zero_extension(left, right) {
        return paths;
    }
    let mut rng = fresh();
    let level = find_level(left, right, count, 0);
    let first = floor_digit(left, level) + 1;
    let size = (ceiling_digit(right, level) - first) / count;
    let mut i: u32 = 0;
    while i < count
        invariant
            1 <= count <= LEVEL0_END - 1,
            i <= count,
            paths@.len() == i,
            level == alloc_level(left@, right@, count as int, 0),
            first == digit_at(left@, level as int) + 1,
            room_at(left@, right@, level as int) >= count,
            size == share_size(left@, right@, count as int),
            dealt_out(left@, right@, count as int, digits_of_each(paths@)),
            ascending_after(left@, digits_of_each(paths@)),
            has_room(left@, right@),
            all_before(digits_of_each(paths@), right@),
        decreases count - i,
    {
        proof {
            lemma_shares(room_at(left@, right@, level as int), count as int, i as int, i + 1);
        }
        let low = first + i * size;
        let digit = draw(&mut rng, low, low + size);
        let path = place(left, level, digit);
        let ghost before = paths@;
        paths.push(path);
        i += 1;
        proof {
            reveal(allocated);
            assert(digits_of_each(paths@) =~= digits_of_each(before).push(path@));
            lemma_deal_grows(left@, right@, count as int, digits_of_each(before), path@);
        }
    }
    paths
}

} // verus!
