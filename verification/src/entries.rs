//! The model of a store: its entries as a sequence in the order of their
//! positions, and what inserting and removing do to it.

use vstd::prelude::*;
use crate::position::{first_view, last_view, position_lt, PositionView};
use crate::position::{lemma_position_lt_asymmetric, lemma_position_lt_transitive};
use crate::position::lemma_position_trichotomy;

verus! {

/// One character and its position.
pub type Entry = (PositionView, char);

/// The character that stands at the opening sentinel.
pub const START_OF_TEXT: char = '\u{2402}';

/// The character that stands at the closing sentinel.
pub const END_OF_TEXT: char = '\u{2403}';

/// The entries stand in the strict order of their positions.
pub open spec fn sorted(entries: Seq<Entry>) -> bool {
    forall|i: int, j: int|
        0 <= i < j < entries.len() ==> position_lt(#[trigger] entries[i].0, #[trigger] entries[j].0)
}

/// Some entry stands at `p`.
pub open spec fn contains(entries: Seq<Entry>, p: PositionView) -> bool {
    exists|i: int| 0 <= i < entries.len() && #[trigger] entries[i].0 == p
}

/// The number of entries whose position comes before `p`: in a sorted
/// sequence the index at which `p` stands or would stand.
pub open spec fn slot_of(entries: Seq<Entry>, p: PositionView) -> int
    decreases entries.len(),
{
    if entries.len() == 0 {
        0
    } else {
        slot_of(entries.drop_last(), p) + if position_lt(entries.last().0, p) {
            1int
        } else {
            0int
        }
    }
}

/// `k` parts the entries into those before `p` and the others.
pub open spec fn parts_at(entries: Seq<Entry>, p: PositionView, k: int) -> bool {
    &&& 0 <= k <= entries.len()
    &&& forall|i: int| 0 <= i < k ==> position_lt(#[trigger] entries[i].0, p)
    &&& forall|i: int| k <= i < entries.len() ==> !position_lt(#[trigger] entries[i].0, p)
}

/// The entries with `ch` at `p`, where no entry stood.
pub open spec fn placed(entries: Seq<Entry>, p: PositionView, ch: char) -> Seq<Entry> {
    entries.insert(slot_of(entries, p), (p, ch))
}

/// The entries without the one at `p`.
pub open spec fn removed(entries: Seq<Entry>, p: PositionView) -> Seq<Entry> {
    if contains(entries, p) {
        entries.remove(slot_of(entries, p))
    } else {
        entries
    }
}

/// `p` lies strictly between the two sentinels.
pub open spec fn inside(p: PositionView) -> bool {
    position_lt(first_view(), p) && position_lt(p, last_view())
}

/// The entry starts or ends a line: it holds a line feed or is a sentinel.
pub open spec fn marks_line(e: Entry) -> bool {
    e.1 == '\n' || e.0 == first_view() || e.0 == last_view()
}

/// The positions of the entries that start or end a line, in order.
pub open spec fn newline_index(entries: Seq<Entry>) -> Seq<PositionView>
    decreases entries.len(),
{
    if entries.len() == 0 {
        Seq::empty()
    } else if marks_line(entries.last()) {
        newline_index(entries.drop_last()).push(entries.last().0)
    } else {
        newline_index(entries.drop_last())
    }
}

/// The entries of a store: sorted, with the opening sentinel first and the
/// closing sentinel last.
pub open spec fn bounded(entries: Seq<Entry>) -> bool {
    &&& sorted(entries)
    &&& entries.len() >= 2
    &&& entries.first() == (first_view(), START_OF_TEXT)
    &&& entries.last() == (last_view(), END_OF_TEXT)
}

/// In a sorted sequence `slot_of` parts the entries.
pub proof fn lemma_slot_parts(entries: Seq<Entry>, p: PositionView)
    requires
        sorted(entries),
    ensures
        parts_at(entries, p, slot_of(entries, p)),
    decreases entries.len(),
{
    if entries.len() > 0 {
        let rest = entries.drop_last();
        lemma_slot_parts(rest, p);
        let k = slot_of(rest, p);
        if position_lt(entries.last().0, p) {
            assert forall|i: int| 0 <= i < entries.len() - 1 implies position_lt(
                #[trigger] entries[i].0,
                p,
            ) by {
                lemma_position_lt_transitive(entries[i].0, entries.last().0, p);
            }
            if k < rest.len() {
                assert(!position_lt(rest[k].0, p));
            }
        } else {
            assert forall|i: int| k <= i < entries.len() implies !position_lt(
                #[trigger] entries[i].0,
                p,
            ) by {
                if i < rest.len() {
                    assert(!position_lt(rest[i].0, p));
                }
            }
        }
        assert forall|i: int| 0 <= i < slot_of(entries, p) implies position_lt(
            #[trigger] entries[i].0,
            p,
        ) by {
            if i < k {
                assert(position_lt(rest[i].0, p));
            }
        }
    }
}

/// In a sorted sequence only `slot_of` parts the entries.
pub proof fn lemma_slot_is(entries: Seq<Entry>, p: PositionView, k: int)
    requires
        sorted(entries),
        parts_at(entries, p, k),
    ensures
        slot_of(entries, p) == k,
{
    lemma_slot_parts(entries, p);
    let s = slot_of(entries, p);
    if s < k {
        assert(position_lt(entries[s].0, p));
    } else if k < s {
        assert(position_lt(entries[k].0, p));
    }
}

/// In a sorted sequence the entry at `p`, where there is one, stands at
/// `slot_of`.
pub proof fn lemma_slot_holds(entries: Seq<Entry>, p: PositionView)
    requires
        sorted(entries),
    ensures
        contains(entries, p) <==> slot_of(entries, p) < entries.len() && entries[slot_of(
            entries,
            p,
        )].0 == p,
{
    lemma_slot_parts(entries, p);
    let s = slot_of(entries, p);
    if contains(entries, p) {
        let i = choose|i: int| 0 <= i < entries.len() && #[trigger] entries[i].0 == p;
        if i < s {
            assert(position_lt(entries[i].0, p));
            lemma_position_lt_asymmetric(p, p);
        } else if s < i {
            assert(position_lt(entries[s].0, entries[i].0));
        }
    }
}

/// Placing a character at a free position keeps the entries sorted.
pub proof fn lemma_placed_sorted(entries: Seq<Entry>, p: PositionView, ch: char)
    requires
        sorted(entries),
        !contains(entries, p),
    ensures
        sorted(placed(entries, p, ch)),
        contains(placed(entries, p, ch), p),
        slot_of(placed(entries, p, ch), p) == slot_of(entries, p),
{
    lemma_slot_parts(entries, p);
    let k = slot_of(entries, p);
    let grown = placed(entries, p, ch);
    assert forall|i: int, j: int| 0 <= i < j < grown.len() implies position_lt(
        #[trigger] grown[i].0,
        #[trigger] grown[j].0,
    ) by {
        if j == k {
            assert(position_lt(entries[i].0, p));
        } else if i == k {
            assert(!position_lt(entries[j - 1].0, p));
            assert(entries[j - 1].0 != p);
            lemma_position_trichotomy(entries[j - 1].0, p);
        } else {
            let a = if i < k {
                i
            } else {
                i - 1
            };
            let b = if j < k {
                j
            } else {
                j - 1
            };
            assert(position_lt(entries[a].0, entries[b].0));
        }
    }
    assert(grown[k].0 == p);
    assert forall|i: int| 0 <= i < k implies position_lt(#[trigger] grown[i].0, p) by {
        assert(position_lt(entries[i].0, p));
    }
    assert forall|i: int| k <= i < grown.len() implies !position_lt(#[trigger] grown[i].0, p) by {
        if i > k {
            assert(position_lt(grown[k].0, grown[i].0));
            lemma_position_lt_asymmetric(p, grown[i].0);
        } else {
            if position_lt(p, p) {
                lemma_position_lt_asymmetric(p, p);
            }
        }
    }
    lemma_slot_is(grown, p, k);
}

/// Removing an entry keeps the others sorted.
pub proof fn lemma_removed_sorted(entries: Seq<Entry>, p: PositionView)
    requires
        sorted(entries),
    ensures
        sorted(removed(entries, p)),
        !contains(removed(entries, p), p),
{
    lemma_slot_holds(entries, p);
    if contains(entries, p) {
        let k = slot_of(entries, p);
        let rest = removed(entries, p);
        assert(0 <= k < entries.len()) by {
            lemma_slot_parts(entries, p);
        }
        assert(rest.len() == entries.len() - 1);
        assert forall|i: int, j: int| 0 <= i < j < rest.len() implies position_lt(
            #[trigger] rest[i].0,
            #[trigger] rest[j].0,
        ) by {
            let a = if i < k {
                i
            } else {
                i + 1
            };
            let b = if j < k {
                j
            } else {
                j + 1
            };
            assert(position_lt(entries[a].0, entries[b].0));
        }
        if contains(rest, p) {
            let i = choose|i: int| 0 <= i < rest.len() && #[trigger] rest[i].0 == p;
            let a = if i < k {
                i
            } else {
                i + 1
            };
            if a < k {
                assert(position_lt(entries[a].0, entries[k].0));
            } else {
                assert(position_lt(entries[k].0, entries[a].0));
            }
            lemma_position_lt_asymmetric(p, p);
        }
    }
}

/// Placing a character strictly between the sentinels keeps them first and
/// last.
pub proof fn lemma_placed_bounded(entries: Seq<Entry>, p: PositionView, ch: char)
    requires
        bounded(entries),
        inside(p),
        !contains(entries, p),
    ensures
        bounded(placed(entries, p, ch)),
        0 < slot_of(entries, p) < entries.len(),
{
    lemma_placed_sorted(entries, p, ch);
    lemma_slot_parts(entries, p);
    let k = slot_of(entries, p);
    if k == 0 {
        assert(!position_lt(entries[0].0, p));
    }
    if k == entries.len() {
        assert(position_lt(entries[entries.len() - 1].0, p));
        lemma_position_lt_asymmetric(p, last_view());
    }
}

/// Removing an entry other than the sentinels keeps them first and last.
pub proof fn lemma_removed_bounded(entries: Seq<Entry>, p: PositionView)
    requires
        bounded(entries),
        p != first_view(),
        p != last_view(),
    ensures
        bounded(removed(entries, p)),
        contains(entries, p) ==> 0 < slot_of(entries, p) < entries.len() - 1,
{
    lemma_removed_sorted(entries, p);
    lemma_slot_holds(entries, p);
    lemma_slot_parts(entries, p);
    if contains(entries, p) {
        let k = slot_of(entries, p);
        let rest = removed(entries, p);
        assert(rest.first() == entries.first());
        assert(rest.last() == entries.last());
    }
}

/// What is placed at a free position can be removed again, which gives the
/// entries back, and after that there is nothing left to remove at that
/// position.
pub proof fn lemma_place_then_remove(entries: Seq<Entry>, p: PositionView, ch: char)
    requires
        sorted(entries),
        !contains(entries, p),
    ensures
        contains(placed(entries, p, ch), p),
        placed(entries, p, ch)[slot_of(placed(entries, p, ch), p)] == (p, ch),
        removed(placed(entries, p, ch), p) == entries,
        !contains(removed(placed(entries, p, ch), p), p),
        removed(removed(placed(entries, p, ch), p), p) == entries,
{
    lemma_placed_sorted(entries, p, ch);
    lemma_slot_parts(entries, p);
    let k = slot_of(entries, p);
    assert(placed(entries, p, ch).remove(k) =~= entries);
}

/// Two characters placed at different free positions give the same entries
/// in either order.
pub proof fn lemma_place_commutes(
    entries: Seq<Entry>,
    p: PositionView,
    a: char,
    q: PositionView,
    b: char,
)
    requires
        sorted(entries),
        !contains(entries, p),
        !contains(entries, q),
        p != q,
    ensures
        placed(placed(entries, p, a), q, b) == placed(placed(entries, q, b), p, a),
{
    lemma_position_trichotomy(p, q);
    if position_lt(p, q) {
        lemma_place_in_order(entries, p, a, q, b);
    } else {
        lemma_place_in_order(entries, q, b, p, a);
    }
}

/// `lemma_place_commutes` for `p` before `q`.
proof fn lemma_place_in_order(
    entries: Seq<Entry>,
    p: PositionView,
    a: char,
    q: PositionView,
    b: char,
)
    requires
        sorted(entries),
        !contains(entries, p),
        !contains(entries, q),
        position_lt(p, q),
    ensures
        placed(placed(entries, p, a), q, b) == placed(placed(entries, q, b), p, a),
{
    lemma_slot_parts(entries, p);
    lemma_slot_parts(entries, q);
    lemma_placed_sorted(entries, p, a);
    lemma_placed_sorted(entries, q, b);
    let sp = slot_of(entries, p);
    let sq = slot_of(entries, q);
    if sq < sp {
        assert(position_lt(entries[sq].0, p));
        lemma_position_lt_transitive(entries[sq].0, p, q);
    }
    let with_p = placed(entries, p, a);
    let with_q = placed(entries, q, b);
    assert forall|i: int| 0 <= i < sq + 1 implies position_lt(#[trigger] with_p[i].0, q) by {
        if i < sp {
            assert(position_lt(entries[i].0, q));
        } else if i > sp {
            assert(position_lt(entries[i - 1].0, q));
        }
    }
    assert forall|i: int| sq + 1 <= i < with_p.len() implies !position_lt(
        #[trigger] with_p[i].0,
        q,
    ) by {
        assert(!position_lt(entries[i - 1].0, q));
    }
    lemma_slot_is(with_p, q, sq + 1);
    assert forall|i: int| 0 <= i < sp implies position_lt(#[trigger] with_q[i].0, p) by {
        assert(position_lt(entries[i].0, p));
    }
    assert forall|i: int| sp <= i < with_q.len() implies !position_lt(
        #[trigger] with_q[i].0,
        p,
    ) by {
        if i < sq {
            assert(!position_lt(entries[i].0, p));
        } else if i == sq {
            lemma_position_lt_asymmetric(p, q);
        } else {
            assert(!position_lt(entries[i - 1].0, p));
        }
    }
    lemma_slot_is(with_q, p, sp);
    assert(with_p.insert(sq + 1, (q, b)) =~= with_q.insert(sp, (p, a)));
}

/// Two sorted sequences that hold the same entries are the same sequence:
/// what a store shows depends on the entries it holds alone, not on the
/// order in which they came.
pub proof fn lemma_same_entries(a: Seq<Entry>, b: Seq<Entry>)
    requires
        sorted(a),
        sorted(b),
        forall|e: Entry| a.contains(e) <==> b.contains(e),
    ensures
        a == b,
    decreases a.len(),
{
    if a.len() == 0 {
        if b.len() > 0 {
            assert(b.contains(b[0]));
        }
        assert(a =~= b);
    } else {
        let x = a.last();
        assert(a.contains(x));
        assert(b.contains(x));
        let j = choose|j: int| 0 <= j < b.len() && b[j] == x;
        let y = b.last();
        assert(b.contains(y));
        assert(a.contains(y));
        let i = choose|i: int| 0 <= i < a.len() && a[i] == y;
        if j < b.len() - 1 {
            assert(position_lt(b[j].0, b[b.len() - 1].0));
            if i < a.len() - 1 {
                assert(position_lt(a[i].0, a[a.len() - 1].0));
            }
            lemma_position_lt_asymmetric(x.0, y.0);
        }
        assert(x == y);
        let short_a = a.drop_last();
        let short_b = b.drop_last();
        assert forall|e: Entry| short_a.contains(e) <==> short_b.contains(e) by {
            if short_a.contains(e) {
                let k = choose|k: int| 0 <= k < short_a.len() && short_a[k] == e;
                assert(a[k] == e);
                assert(position_lt(a[k].0, a[a.len() - 1].0));
                lemma_position_lt_asymmetric(e.0, x.0);
                assert(a.contains(e));
                assert(b.contains(e));
                let m = choose|m: int| 0 <= m < b.len() && b[m] == e;
                assert(short_b[m] == e);
            }
            if short_b.contains(e) {
                let k = choose|k: int| 0 <= k < short_b.len() && short_b[k] == e;
                assert(b[k] == e);
                assert(position_lt(b[k].0, b[b.len() - 1].0));
                lemma_position_lt_asymmetric(e.0, y.0);
                assert(b.contains(e));
                assert(a.contains(e));
                let m = choose|m: int| 0 <= m < a.len() && a[m] == e;
                assert(short_a[m] == e);
            }
        }
        assert forall|i: int, j: int| 0 <= i < j < short_a.len() implies position_lt(
            #[trigger] short_a[i].0,
            #[trigger] short_a[j].0,
        ) by {
            assert(position_lt(a[i].0, a[j].0));
        }
        assert forall|i: int, j: int| 0 <= i < j < short_b.len() implies position_lt(
            #[trigger] short_b[i].0,
            #[trigger] short_b[j].0,
        ) by {
            assert(position_lt(b[i].0, b[j].0));
        }
        lemma_same_entries(short_a, short_b);
        assert(a =~= short_a.push(x));
        assert(b =~= short_b.push(y));
    }
}

/// What taking out the entry at index `k` does to the place of another
/// position `q`.
pub proof fn lemma_slot_after_remove(entries: Seq<Entry>, k: int, q: PositionView)
    requires
        sorted(entries),
        0 <= k < entries.len(),
        entries[k].0 != q,
    ensures
        sorted(entries.remove(k)),
        slot_of(entries.remove(k), q) == slot_of(entries, q) - (if position_lt(entries[k].0, q) {
            1int
        } else {
            0int
        }),
        contains(entries.remove(k), q) <==> contains(entries, q),
{
    let rest = entries.remove(k);
    let s = slot_of(entries, q);
    lemma_slot_parts(entries, q);
    assert forall|i: int, j: int| 0 <= i < j < rest.len() implies position_lt(
        #[trigger] rest[i].0,
        #[trigger] rest[j].0,
    ) by {
        let a = if i < k {
            i
        } else {
            i + 1
        };
        let b = if j < k {
            j
        } else {
            j + 1
        };
        assert(position_lt(entries[a].0, entries[b].0));
    }
    let t = if position_lt(entries[k].0, q) {
        s - 1
    } else {
        s
    };
    if position_lt(entries[k].0, q) {
        if k >= s {
            assert(!position_lt(entries[k].0, q));
        }
    } else {
        if k < s {
            assert(position_lt(entries[k].0, q));
        }
    }
    assert forall|i: int| 0 <= i < t implies position_lt(#[trigger] rest[i].0, q) by {
        let a = if i < k {
            i
        } else {
            i + 1
        };
        assert(position_lt(entries[a].0, q));
    }
    assert forall|i: int| t <= i < rest.len() implies !position_lt(#[trigger] rest[i].0, q) by {
        let a = if i < k {
            i
        } else {
            i + 1
        };
        assert(!position_lt(entries[a].0, q));
    }
    lemma_slot_is(rest, q, t);
    if contains(entries, q) {
        let i = choose|i: int| 0 <= i < entries.len() && #[trigger] entries[i].0 == q;
        let a = if i < k {
            i
        } else {
            i - 1
        };
        assert(rest[a].0 == q);
    }
    if contains(rest, q) {
        let i = choose|i: int| 0 <= i < rest.len() && #[trigger] rest[i].0 == q;
        let a = if i < k {
            i
        } else {
            i + 1
        };
        assert(entries[a].0 == q);
    }
}

/// What placing a character at the free position `p` does to the place of
/// another position `q`.
pub proof fn lemma_slot_after_place(entries: Seq<Entry>, p: PositionView, ch: char, q: PositionView)
    requires
        sorted(entries),
        !contains(entries, p),
        p != q,
    ensures
        sorted(placed(entries, p, ch)),
        slot_of(placed(entries, p, ch), q) == slot_of(entries, q) + (if position_lt(p, q) {
            1int
        } else {
            0int
        }),
        contains(placed(entries, p, ch), q) <==> contains(entries, q),
{
    let grown = placed(entries, p, ch);
    let k = slot_of(entries, p);
    let s = slot_of(entries, q);
    lemma_placed_sorted(entries, p, ch);
    lemma_slot_parts(entries, p);
    lemma_slot_parts(entries, q);
    lemma_position_trichotomy(p, q);
    let t = if position_lt(p, q) {
        s + 1
    } else {
        s
    };
    if position_lt(p, q) {
        lemma_position_lt_asymmetric(p, q);
        if s < k {
            assert(position_lt(entries[s].0, p));
            lemma_position_lt_transitive(entries[s].0, p, q);
        }
    } else {
        lemma_position_lt_asymmetric(q, p);
        if k < s {
            assert(position_lt(entries[k].0, q));
            lemma_position_lt_transitive(entries[k].0, q, p);
        }
    }
    assert forall|i: int| 0 <= i < t implies position_lt(#[trigger] grown[i].0, q) by {
        if i < k {
            assert(position_lt(entries[i].0, q));
        } else if i > k {
            assert(position_lt(entries[i - 1].0, q));
        }
    }
    assert forall|i: int| t <= i < grown.len() implies !position_lt(#[trigger] grown[i].0, q) by {
        if i < k {
            assert(!position_lt(entries[i].0, q));
        } else if i > k {
            assert(!position_lt(entries[i - 1].0, q));
        }
    }
    lemma_slot_is(grown, q, t);
    if contains(entries, q) {
        let i = choose|i: int| 0 <= i < entries.len() && #[trigger] entries[i].0 == q;
        let a = if i < k {
            i
        } else {
            i + 1
        };
        assert(grown[a].0 == q);
    }
    if contains(grown, q) {
        let i = choose|i: int| 0 <= i < grown.len() && #[trigger] grown[i].0 == q;
        let a = if i < k {
            i
        } else {
            i - 1
        };
        assert(entries[a].0 == q);
    }
}

/// Two removals give the same entries in either order.
pub proof fn lemma_remove_commutes(entries: Seq<Entry>, p: PositionView, q: PositionView)
    requires
        sorted(entries),
    ensures
        removed(removed(entries, p), q) == removed(removed(entries, q), p),
{
    lemma_slot_holds(entries, p);
    lemma_slot_holds(entries, q);
    lemma_slot_parts(entries, p);
    lemma_slot_parts(entries, q);
    lemma_removed_sorted(entries, p);
    lemma_removed_sorted(entries, q);
    if p != q && contains(entries, p) && contains(entries, q) {
        let sp = slot_of(entries, p);
        let sq = slot_of(entries, q);
        lemma_slot_after_remove(entries, sp, q);
        lemma_slot_after_remove(entries, sq, p);
        lemma_position_trichotomy(p, q);
        if position_lt(p, q) {
            lemma_position_lt_asymmetric(p, q);
        } else {
            lemma_position_lt_asymmetric(q, p);
        }
        lemma_slot_parts(entries, p);
        lemma_slot_parts(entries, q);
        if sp < sq {
            assert(position_lt(entries[sp].0, entries[sq].0));
            assert(entries.remove(sp).remove(sq - 1) =~= entries.remove(sq).remove(sp));
        } else if sq < sp {
            assert(position_lt(entries[sq].0, entries[sp].0));
            assert(entries.remove(sp).remove(sq) =~= entries.remove(sq).remove(sp - 1));
        }
    } else if p != q && contains(entries, p) {
        lemma_slot_after_remove(entries, slot_of(entries, p), q);
    } else if p != q && contains(entries, q) {
        lemma_slot_after_remove(entries, slot_of(entries, q), p);
    }
}

/// Placing a character and removing the entry at another position give the
/// same entries in either order.
pub proof fn lemma_place_remove_commute(
    entries: Seq<Entry>,
    p: PositionView,
    ch: char,
    q: PositionView,
)
    requires
        sorted(entries),
        !contains(entries, p),
        p != q,
    ensures
        removed(placed(entries, p, ch), q) == placed(removed(entries, q), p, ch),
{
    lemma_slot_after_place(entries, p, ch, q);
    lemma_slot_holds(entries, q);
    lemma_slot_parts(entries, p);
    lemma_slot_parts(entries, q);
    if contains(entries, q) {
        let sp = slot_of(entries, p);
        let sq = slot_of(entries, q);
        lemma_slot_after_remove(entries, sq, p);
        lemma_position_trichotomy(p, q);
        if position_lt(p, q) {
            lemma_position_lt_asymmetric(p, q);
            assert(entries.insert(sp, (p, ch)).remove(sq + 1) =~= entries.remove(sq).insert(
                sp,
                (p, ch),
            ));
        } else {
            lemma_position_lt_asymmetric(q, p);
            assert(entries.insert(sp, (p, ch)).remove(sq) =~= entries.remove(sq).insert(
                sp - 1,
                (p, ch),
            ));
        }
    }
}

/// A position strictly between two neighbours is free, and its place is
/// between them.
pub proof fn lemma_between_neighbours(entries: Seq<Entry>, k: int, p: PositionView)
    requires
        sorted(entries),
        0 < k < entries.len(),
        position_lt(entries[k - 1].0, p),
        position_lt(p, entries[k].0),
    ensures
        !contains(entries, p),
        slot_of(entries, p) == k,
{
    assert forall|i: int| 0 <= i < k implies position_lt(#[trigger] entries[i].0, p) by {
        if i < k - 1 {
            assert(position_lt(entries[i].0, entries[k - 1].0));
            lemma_position_lt_transitive(entries[i].0, entries[k - 1].0, p);
        }
    }
    assert forall|i: int| k <= i < entries.len() implies !position_lt(#[trigger] entries[i].0, p) by {
        if i > k {
            assert(position_lt(entries[k].0, entries[i].0));
            lemma_position_lt_transitive(p, entries[k].0, entries[i].0);
        }
        lemma_position_lt_asymmetric(p, entries[i].0);
    }
    lemma_slot_is(entries, p, k);
    lemma_slot_holds(entries, p);
    lemma_position_lt_asymmetric(p, entries[k].0);
}

/// The line index of two sequences put together is that of the first
/// followed by that of the second.
pub proof fn lemma_newline_index_concat(a: Seq<Entry>, b: Seq<Entry>)
    ensures
        newline_index(a + b) == newline_index(a) + newline_index(b),
    decreases b.len(),
{
    if b.len() == 0 {
        assert(a + b =~= a);
        assert(newline_index(a) + newline_index(b) =~= newline_index(a));
    } else {
        lemma_newline_index_concat(a, b.drop_last());
        assert((a + b).drop_last() =~= a + b.drop_last());
        assert((a + b).last() == b.last());
        if marks_line(b.last()) {
            assert(newline_index(a + b) =~= newline_index(a) + newline_index(b));
        }
    }
}

/// The line index of a single entry.
pub proof fn lemma_newline_index_one(e: Entry)
    ensures
        newline_index(seq![e]) == (if marks_line(e) {
            seq![e.0]
        } else {
            Seq::<PositionView>::empty()
        }),
{
    reveal_with_fuel(newline_index, 2);
    assert(seq![e].drop_last() =~= Seq::<Entry>::empty());
    if marks_line(e) {
        assert(Seq::<PositionView>::empty().push(e.0) =~= seq![e.0]);
    }
}

/// An entry added at index `k` enters the line index, where it marks a line,
/// behind the marks of the entries before `k`.
pub proof fn lemma_newline_index_insert(entries: Seq<Entry>, k: int, e: Entry)
    requires
        0 <= k <= entries.len(),
    ensures
        newline_index(entries.take(k)).len() <= newline_index(entries).len(),
        newline_index(entries.insert(k, e)) == (if marks_line(e) {
            newline_index(entries).insert(newline_index(entries.take(k)).len() as int, e.0)
        } else {
            newline_index(entries)
        }),
{
    let head = entries.take(k);
    let tail = entries.skip(k);
    assert(entries =~= head + tail);
    assert(entries.insert(k, e) =~= (head + seq![e]) + tail);
    lemma_newline_index_concat(head, tail);
    lemma_newline_index_concat(head, seq![e]);
    lemma_newline_index_concat(head + seq![e], tail);
    lemma_newline_index_one(e);
    let n = newline_index(head);
    let m = newline_index(tail);
    if marks_line(e) {
        assert((n + seq![e.0]) + m =~= (n + m).insert(n.len() as int, e.0));
    } else {
        assert((n + Seq::<PositionView>::empty()) + m =~= n + m);
    }
}

/// An entry taken out at index `k` leaves the line index, where it marked a
/// line, from behind the marks of the entries before `k`.
pub proof fn lemma_newline_index_remove(entries: Seq<Entry>, k: int)
    requires
        0 <= k < entries.len(),
    ensures
        marks_line(entries[k]) ==> newline_index(entries.take(k)).len() < newline_index(
            entries,
        ).len(),
        newline_index(entries.remove(k)) == (if marks_line(entries[k]) {
            newline_index(entries).remove(newline_index(entries.take(k)).len() as int)
        } else {
            newline_index(entries)
        }),
{
    let head = entries.take(k);
    let tail = entries.skip(k + 1);
    let e = entries[k];
    assert(entries =~= (head + seq![e]) + tail);
    assert(entries.remove(k) =~= head + tail);
    lemma_newline_index_concat(head, tail);
    lemma_newline_index_concat(head, seq![e]);
    lemma_newline_index_concat(head + seq![e], tail);
    lemma_newline_index_one(e);
    let n = newline_index(head);
    let m = newline_index(tail);
    if marks_line(e) {
        assert(n + m =~= ((n + seq![e.0]) + m).remove(n.len() as int));
    } else {
        assert((n + Seq::<PositionView>::empty()) + m =~= n + m);
    }
}

/// The line index of the entries before `k + 1` is that of the entries
/// before `k`, with the position of entry `k` added where it marks a line.
pub proof fn lemma_newline_index_step(entries: Seq<Entry>, k: int)
    requires
        0 <= k < entries.len(),
    ensures
        newline_index(entries.take(k + 1)) == (if marks_line(entries[k]) {
            newline_index(entries.take(k)).push(entries[k].0)
        } else {
            newline_index(entries.take(k))
        }),
{
    assert(entries.take(k + 1).drop_last() =~= entries.take(k));
}

} // verus!
