//! The store of one replica: the characters in the order of their positions,
//! between two sentinels, and the index of the positions that hold a line
//! feed.

use vstd::prelude::*;
use crate::algorithm::{drawn, Algorithm, GeneratorView};
use crate::allocator::{lemma_extends_reflexive, started, Allocator, Strategy, DEFAULT_LIMIT};
use crate::entries::{bounded, contains, inside, marks_line, newline_index, placed, removed};
use crate::entries::{slot_of, sorted, Entry, END_OF_TEXT, START_OF_TEXT};
use crate::entries::{lemma_newline_index_insert, lemma_newline_index_remove};
use crate::entries::{lemma_newline_index_one, lemma_newline_index_step};
use crate::entries::{lemma_placed_bounded, lemma_removed_bounded, lemma_slot_holds};
use crate::entries::{lemma_between_neighbours, lemma_slot_is, lemma_slot_parts};
use crate::entries::{lemma_place_commutes, lemma_place_remove_commute};
use crate::entries::{lemma_place_then_remove, lemma_remove_commutes, lemma_same_entries};
use crate::gap::{alloc_level, allocated, has_room, lemma_allocated_between};
use crate::path::{Rank, MAX_LEVELS};
use crate::position::{first_view, last_view, position_lt, Position, PositionView};
use crate::position::{lemma_first_before_last, lemma_first_is_least};
use crate::position::lemma_position_lt_asymmetric;
use crate::position::{lemma_position_lt_transitive, lemma_position_trichotomy};

verus! {

/// What a store holds: its entries in order with both sentinels, the positions
/// that start or end a line, and the site and clock of the replica.
#[verifier::ext_equal]
pub struct StorageView {
    pub entries: Seq<Entry>,
    pub newlines: Seq<PositionView>,
    pub site: u16,
    pub clock: u16,
}

/// The store of one replica.
pub struct Storage {
    pub(crate) characters: Vec<(Position, char)>,
    pub(crate) newlines: Vec<Position>,
    pub(crate) algorithm: Algorithm,
    pub(crate) clock: u16,
    pub(crate) site: u16,
}

/// The entries that a vector of characters with their positions stands for.
pub open spec fn entries_of(characters: Seq<(Position, char)>) -> Seq<Entry> {
    Seq::new(characters.len(), |i: int| (characters[i].0@, characters[i].1))
}

/// What a vector of positions stands for.
pub open spec fn positions_of(positions: Seq<Position>) -> Seq<PositionView> {
    Seq::new(positions.len(), |i: int| positions[i]@)
}

/// The entries are sorted between the sentinels, and the line index holds
/// the positions of the sentinels and of the line feeds, no more and no less.
pub open spec fn well_formed(view: StorageView) -> bool {
    bounded(view.entries) && view.newlines == newline_index(view.entries)
}

/// The clock after `clock`: one more, and 0 after the last value.
pub open spec fn clock_after(clock: u16) -> u16 {
    if clock == u16::MAX {
        0u16
    } else {
        (clock + 1) as u16
    }
}

/// The store with `ch` at the free position `p`.
pub open spec fn with_entry(view: StorageView, p: PositionView, ch: char) -> StorageView {
    StorageView {
        entries: placed(view.entries, p, ch),
        newlines: newline_index(placed(view.entries, p, ch)),
        site: view.site,
        clock: view.clock,
    }
}

/// The store without the entry at `p`.
pub open spec fn without_entry(view: StorageView, p: PositionView) -> StorageView {
    StorageView {
        entries: removed(view.entries, p),
        newlines: newline_index(removed(view.entries, p)),
        site: view.site,
        clock: view.clock,
    }
}

/// The store with its clock advanced.
pub open spec fn ticked(view: StorageView) -> StorageView {
    StorageView {
        entries: view.entries,
        newlines: view.newlines,
        site: view.site,
        clock: clock_after(view.clock),
    }
}

/// An entry stands at `before`, and one stands before it.
pub open spec fn anchored(entries: Seq<Entry>, before: PositionView) -> bool {
    contains(entries, before) && before != first_view()
}

/// The position of the entry that stands before the one at `before`.
pub open spec fn left_of(entries: Seq<Entry>, before: PositionView) -> PositionView {
    entries[slot_of(entries, before) - 1].0
}

/// The position that the replica makes next, with the digits of `path`.
pub open spec fn made_here(view: StorageView, path: Seq<u32>) -> PositionView {
    PositionView { path, site: view.site, clock: clock_after(view.clock) }
}

/// `next` is `view` after the replica has inserted `ch` with a new position
/// whose path is `path`, allocated between the entry at `before` and the one
/// before it.
pub open spec fn inserted(
    view: StorageView,
    before: PositionView,
    ch: char,
    path: Seq<u32>,
    next: StorageView,
) -> bool {
    &&& allocated(left_of(view.entries, before).path, before.path, 1, path)
    &&& path.len() <= MAX_LEVELS
    &&& inside(made_here(view, path))
    &&& !contains(view.entries, made_here(view, path))
    &&& next == ticked(with_entry(view, made_here(view, path), ch))
}

/// The position that the replica would make next with the digits of `path`
/// cannot be taken in: the path is too long for a position, or the position
/// does not lie strictly between the sentinels, or an entry stands at it.
pub open spec fn refused(view: StorageView, path: Seq<u32>) -> bool {
    ||| path.len() > MAX_LEVELS
    ||| !inside(made_here(view, path))
    ||| contains(view.entries, made_here(view, path))
}

/// What `Storage::insert` returns and leaves behind, for a store that holds
/// `view` and has the generator `generator`: without an anchor nothing
/// happens; with one the generator makes its next path between the anchor and
/// the entry before it, and the character goes in at the new position unless
/// that is refused.
pub open spec fn after_insert(
    view: StorageView,
    generator: GeneratorView,
    ch: char,
    before: PositionView,
) -> (bool, StorageView, GeneratorView) {
    if !anchored(view.entries, before) {
        (false, view, generator)
    } else {
        let (path, next) = generator.next(left_of(view.entries, before).path, before.path);
        if refused(view, path) {
            (false, view, next)
        } else {
            (true, ticked(with_entry(view, made_here(view, path), ch)), next)
        }
    }
}

/// There is room between the entry at `before` and the one before it, at a
/// level that a position can hold.
pub open spec fn roomy(entries: Seq<Entry>, before: PositionView) -> bool {
    &&& has_room(left_of(entries, before).path, before.path)
    &&& alloc_level(left_of(entries, before).path, before.path, 1, 0) < MAX_LEVELS
}

/// The store after it has taken in the entries one by one, each as
/// `insert_at` does: an entry is left out where its position is taken by then
/// or does not lie strictly between the sentinels.
pub open spec fn merged(view: StorageView, entries: Seq<Entry>) -> StorageView
    decreases entries.len(),
{
    if entries.len() == 0 {
        view
    } else {
        let before = merged(view, entries.drop_last());
        if inside(entries.last().0) && !contains(before.entries, entries.last().0) {
            with_entry(before, entries.last().0, entries.last().1)
        } else {
            before
        }
    }
}

/// The store that holds the sentinels alone, for site 0 at clock 0.
pub open spec fn empty_view() -> StorageView {
    StorageView {
        entries: seq![(first_view(), START_OF_TEXT), (last_view(), END_OF_TEXT)],
        newlines: seq![first_view(), last_view()],
        site: 0,
        clock: 0,
    }
}

/// The store that holds the sentinels alone is well formed.
pub proof fn lemma_empty_well_formed()
    ensures
        well_formed(empty_view()),
{
    let entries = empty_view().entries;
    lemma_first_before_last();
    assert(entries.drop_last() =~= seq![(first_view(), START_OF_TEXT)]);
    lemma_newline_index_one((first_view(), START_OF_TEXT));
    assert(marks_line(entries.last()));
    assert(newline_index(entries) == newline_index(entries.drop_last()).push(last_view()));
    assert(seq![first_view()].push(last_view()) =~= seq![first_view(), last_view()]);
}

/// What is inserted at a free position between the sentinels can be removed
/// again, which gives back its character and the store as it was; after
/// that there is nothing at the position to remove.
pub proof fn lemma_insert_then_remove(view: StorageView, p: PositionView, ch: char)
    requires
        well_formed(view),
        inside(p),
        !contains(view.entries, p),
    ensures
        well_formed(with_entry(view, p, ch)),
        contains(with_entry(view, p, ch).entries, p),
        with_entry(view, p, ch).entries[slot_of(with_entry(view, p, ch).entries, p)] == (p, ch),
        without_entry(with_entry(view, p, ch), p) == view,
        !contains(without_entry(with_entry(view, p, ch), p).entries, p),
{
    lemma_placed_bounded(view.entries, p, ch);
    lemma_place_then_remove(view.entries, p, ch);
}

/// Removing an entry other than the sentinels takes one position out of the
/// line index where the entry holds a line feed, and none where it does not.
pub proof fn lemma_line_feed_removed(view: StorageView, p: PositionView)
    requires
        well_formed(view),
        contains(view.entries, p),
        p != first_view(),
        p != last_view(),
    ensures
        well_formed(without_entry(view, p)),
        without_entry(view, p).newlines.len() == view.newlines.len() - (if view.entries[slot_of(
            view.entries,
            p,
        )].1 == '\n' {
            1int
        } else {
            0int
        }),
{
    lemma_removed_bounded(view.entries, p);
    lemma_slot_holds(view.entries, p);
    lemma_newline_index_remove(view.entries, slot_of(view.entries, p));
}

/// Two characters inserted at different free positions give the same store
/// in either order.
pub proof fn lemma_inserts_commute(
    view: StorageView,
    p: PositionView,
    a: char,
    q: PositionView,
    b: char,
)
    requires
        sorted(view.entries),
        !contains(view.entries, p),
        !contains(view.entries, q),
        p != q,
    ensures
        with_entry(with_entry(view, p, a), q, b) == with_entry(with_entry(view, q, b), p, a),
{
    lemma_place_commutes(view.entries, p, a, q, b);
}

/// Two removals give the same store in either order.
pub proof fn lemma_removes_commute(view: StorageView, p: PositionView, q: PositionView)
    requires
        sorted(view.entries),
    ensures
        without_entry(without_entry(view, p), q) == without_entry(without_entry(view, q), p),
{
    lemma_remove_commutes(view.entries, p, q);
}

/// An insert at a free position and a removal at another position give the
/// same store in either order.
pub proof fn lemma_insert_remove_commute(
    view: StorageView,
    p: PositionView,
    ch: char,
    q: PositionView,
)
    requires
        sorted(view.entries),
        !contains(view.entries, p),
        p != q,
    ensures
        without_entry(with_entry(view, p, ch), q) == with_entry(without_entry(view, q), p, ch),
{
    lemma_place_remove_commute(view.entries, p, ch, q);
}

/// No two of the entries share a position.
pub open spec fn apart(entries: Seq<Entry>) -> bool {
    forall|i: int, j: int|
        0 <= i < j < entries.len() ==> (#[trigger] entries[i]).0 != (#[trigger] entries[j]).0
}

/// What a store holds after it has taken in entries with positions of their
/// own: what it held before, and each of the entries whose position lies
/// between the sentinels and was free.
pub proof fn lemma_merged_holds(view: StorageView, entries: Seq<Entry>)
    requires
        well_formed(view),
        apart(entries),
    ensures
        well_formed(merged(view, entries)),
        merged(view, entries).site == view.site,
        merged(view, entries).clock == view.clock,
        forall|e: Entry| #[trigger]
            merged(view, entries).entries.contains(e) <==> view.entries.contains(e) || (
            entries.contains(e) && inside(e.0) && !contains(view.entries, e.0)),
    decreases entries.len(),
{
    let after = merged(view, entries);
    if entries.len() > 0 {
        let init = entries.drop_last();
        let last = entries.last();
        let before = merged(view, init);
        assert forall|i: int, j: int| 0 <= i < j < init.len() implies (#[trigger] init[i]).0 != (
        #[trigger] init[j]).0 by {
            assert(entries[i].0 != entries[j].0);
        }
        lemma_merged_holds(view, init);
        let taken = contains(before.entries, last.0);
        if taken {
            let k = choose|k: int| 0 <= k < before.entries.len() && #[trigger] before.entries[k].0
                == last.0;
            let x = before.entries[k];
            assert(before.entries.contains(x));
            if !view.entries.contains(x) {
                assert(init.contains(x));
                let m = choose|m: int| 0 <= m < init.len() && init[m] == x;
                assert(entries[m].0 != entries[entries.len() - 1].0);
            }
            let v = choose|v: int| 0 <= v < view.entries.len() && view.entries[v] == x;
            assert(view.entries[v].0 == last.0);
        }
        if contains(view.entries, last.0) {
            let v = choose|v: int| 0 <= v < view.entries.len() && #[trigger] view.entries[v].0
                == last.0;
            assert(view.entries.contains(view.entries[v]));
            assert(before.entries.contains(view.entries[v]));
            let k = choose|k: int| 0 <= k < before.entries.len() && before.entries[k]
                == view.entries[v];
            assert(before.entries[k].0 == last.0);
        }
        assert(taken == contains(view.entries, last.0));
        if inside(last.0) && !taken {
            lemma_placed_bounded(before.entries, last.0, last.1);
            lemma_slot_parts(before.entries, last.0);
            let at = slot_of(before.entries, last.0);
            assert forall|e: Entry| #[trigger]
                after.entries.contains(e) <==> view.entries.contains(e) || (entries.contains(e)
                && inside(e.0) && !contains(view.entries, e.0)) by {
                if after.entries.contains(e) {
                    let i = choose|i: int| 0 <= i < after.entries.len() && after.entries[i] == e;
                    if i < at {
                        assert(before.entries[i] == e);
                        assert(before.entries.contains(e));
                    } else if i > at {
                        assert(before.entries[i - 1] == e);
                        assert(before.entries.contains(e));
                    } else {
                        assert(e == last);
                        assert(entries[entries.len() - 1] == e);
                    }
                    if before.entries.contains(e) && !view.entries.contains(e) {
                        let m = choose|m: int| 0 <= m < init.len() && init[m] == e;
                        assert(entries[m] == e);
                    }
                }
                if before.entries.contains(e) {
                    let i = choose|i: int| 0 <= i < before.entries.len() && before.entries[i]
                        == e;
                    if i < at {
                        assert(after.entries[i] == e);
                    } else {
                        assert(after.entries[i + 1] == e);
                    }
                }
                if entries.contains(e) && inside(e.0) && !contains(view.entries, e.0) {
                    let m = choose|m: int| 0 <= m < entries.len() && entries[m] == e;
                    if m < init.len() {
                        assert(init[m] == e);
                        assert(init.contains(e));
                    } else {
                        assert(after.entries[at] == e);
                    }
                }
            }
        } else {
            assert forall|e: Entry| #[trigger]
                after.entries.contains(e) <==> view.entries.contains(e) || (entries.contains(e)
                && inside(e.0) && !contains(view.entries, e.0)) by {
                if before.entries.contains(e) && !view.entries.contains(e) {
                    let m = choose|m: int| 0 <= m < init.len() && init[m] == e;
                    assert(entries[m] == e);
                }
                if entries.contains(e) && inside(e.0) && !contains(view.entries, e.0) {
                    let m = choose|m: int| 0 <= m < entries.len() && entries[m] == e;
                    if m < init.len() {
                        assert(init[m] == e);
                        assert(init.contains(e));
                    }
                }
            }
        }
    }
}

/// The order in which entries come in does not matter: a store that takes in
/// the same entries, each with a position of its own, in two different
/// orders holds the same in the end.
pub proof fn lemma_merge_any_order(view: StorageView, one: Seq<Entry>, other: Seq<Entry>)
    requires
        well_formed(view),
        apart(one),
        apart(other),
        forall|e: Entry| one.contains(e) <==> other.contains(e),
    ensures
        merged(view, one) == merged(view, other),
{
    lemma_merged_holds(view, one);
    lemma_merged_holds(view, other);
    let a = merged(view, one);
    let b = merged(view, other);
    assert forall|e: Entry| a.entries.contains(e) <==> b.entries.contains(e) by {
        assert(one.contains(e) <==> other.contains(e));
    }
    lemma_same_entries(a.entries, b.entries);
}

impl View for Storage {
    type V = StorageView;

    open(crate) spec fn view(&self) -> StorageView {
        StorageView {
            entries: entries_of(self.characters@),
            newlines: positions_of(self.newlines@),
            site: self.site,
            clock: self.clock,
        }
    }
}

impl Storage {
    /// The store is well formed.
    pub open spec fn wf(&self) -> bool {
        well_formed(self@)
    }

    /// The strategy of the store's generator, with the choices made so far.
    pub open(crate) spec fn allocator(&self) -> Allocator {
        self.algorithm.allocator()
    }

    /// The seed that the store's generator holds.
    pub open(crate) spec fn seed(&self) -> u64 {
        self.algorithm.seed()
    }

    /// The store's generator of paths: its allocator and its seed.
    pub open(crate) spec fn generator(&self) -> GeneratorView {
        self.algorithm@
    }

    /// The generator of the store is made of its allocator and its seed.
    pub proof fn lemma_generator(&self)
        ensures
            self.generator().allocator == self.allocator()@,
            self.generator().seed == self.seed(),
    {
        self.algorithm.lemma_view();
    }

    fn with_algorithm(algorithm: Algorithm) -> (r: Storage)
        ensures
            r@ == empty_view(),
            r.wf(),
            r.algorithm == algorithm,
            r.generator() == algorithm@,
    {
        let mut characters: Vec<(Position, char)> = Vec::new();
        characters.push((Position::first(), START_OF_TEXT));
        characters.push((Position::last(), END_OF_TEXT));
        let mut newlines: Vec<Position> = Vec::new();
        newlines.push(Position::first());
        newlines.push(Position::last());
        let r = Storage { characters, newlines, algorithm, clock: 0, site: 0 };
        proof {
            assert(r@.entries =~= empty_view().entries);
            assert(r@.newlines =~= empty_view().newlines);
            lemma_empty_well_formed();
        }
        r
    }

    /// An empty store for site 0 whose generator places digits by
    /// `strategy`.
    pub fn with_strategy(strategy: Strategy) -> (r: Storage)
        ensures
            r@ == empty_view(),
            r.wf(),
            Allocator::carries_out(strategy, r.allocator()),
            r.generator().allocator == started(strategy),
    {
        Storage::with_algorithm(Algorithm::with_strategy(strategy))
    }

    /// An empty store for site 0 whose generator draws its random numbers
    /// from `seed` on.
    pub fn with_seed(seed: u64) -> (r: Storage)
        ensures
            r@ == empty_view(),
            r.wf(),
            Allocator::carries_out(Strategy::Boundaries(DEFAULT_LIMIT), r.allocator()),
            r.seed() == seed,
            r.generator() == (GeneratorView {
                allocator: started(Strategy::Boundaries(DEFAULT_LIMIT)),
                seed,
            }),
    {
        Storage::with_algorithm(Algorithm::with_seed(seed))
    }

    /// The site of this replica.
    pub fn site_id(&self) -> (r: u16)
        ensures
            r == self@.site,
    {
        self.site
    }

    /// The clock of this replica: the clock of the position it made last.
    pub fn clock(&self) -> (r: u16)
        ensures
            r == self@.clock,
    {
        self.clock
    }

    /// Makes this the store of `site`.
    pub fn set_site(&mut self, site: u16)
        ensures
            final(self)@ == (StorageView {
                entries: old(self)@.entries,
                newlines: old(self)@.newlines,
                site,
                clock: old(self)@.clock,
            }),
            final(self).allocator() == old(self).allocator(),
            final(self).seed() == old(self).seed(),
            final(self).generator() == old(self).generator(),
    {
        self.site = site;
    }

    /// The number of entries, sentinels included.
    pub fn len(&self) -> (r: usize)
        ensures
            r == self@.entries.len(),
    {
        self.characters.len()
    }

    /// Advances the clock by one, wrapping to 0 after the last value, and
    /// returns it.
    pub fn next_clock(&mut self) -> (r: u16)
        ensures
            final(self)@ == ticked(old(self)@),
            r == final(self)@.clock,
            final(self).allocator() == old(self).allocator(),
            final(self).seed() == old(self).seed(),
            final(self).generator() == old(self).generator(),
    {
        self.clock = after(self.clock);
        self.clock
    }

    /// Finds the index at which `pos` stands or would stand, and whether an
    /// entry stands at it.
    pub fn search(&self, pos: &Position) -> (r: (usize, bool))
        requires
            self.wf(),
        ensures
            r.0 == slot_of(self@.entries, pos@),
            r.0 <= self@.entries.len(),
            r.1 == contains(self@.entries, pos@),
            r.1 ==> r.0 < self@.entries.len() && self@.entries[r.0 as int].0 == pos@,
    {
        let ghost entries = self@.entries;
        let mut low: usize = 0;
        let mut high: usize = self.characters.len();
        while low < high
            invariant
                low <= high <= self.characters@.len(),
                entries == entries_of(self.characters@),
                sorted(entries),
                forall|i: int| 0 <= i < low ==> position_lt(#[trigger] entries[i].0, pos@),
                forall|i: int|
                    high <= i < entries.len() ==> !position_lt(#[trigger] entries[i].0, pos@),
            decreases high - low,
        {
            let middle = low + (high - low) / 2;
            let ghost m = entries[middle as int].0;
            match self.characters[middle].0.rank(pos) {
                Rank::Before => {
                    proof {
                        assert forall|i: int| 0 <= i < middle + 1 implies position_lt(
                            #[trigger] entries[i].0,
                            pos@,
                        ) by {
                            if i < middle {
                                assert(position_lt(entries[i].0, entries[middle as int].0));
                                lemma_position_lt_transitive(entries[i].0, m, pos@);
                            }
                        }
                    }
                    low = middle + 1;
                },
                _ => {
                    proof {
                        assert forall|i: int| middle <= i < entries.len() implies !position_lt(
                            #[trigger] entries[i].0,
                            pos@,
                        ) by {
                            if i > middle && position_lt(entries[i].0, pos@) {
                                assert(position_lt(entries[middle as int].0, entries[i].0));
                                lemma_position_lt_transitive(m, entries[i].0, pos@);
                            }
                        }
                    }
                    high = middle;
                },
            }
        }
        proof {
            lemma_slot_is(entries, pos@, low as int);
            lemma_slot_holds(entries, pos@);
        }
        let found = low < self.characters.len() && self.characters[low].0.rank(pos) == Rank::Same;
        (low, found)
    }

    /// Counts the entries before index `k` that start or end a line.
    fn marks_before(&self, k: usize) -> (r: usize)
        requires
            k <= self@.entries.len(),
        ensures
            r == newline_index(self@.entries.take(k as int)).len(),
            r <= k,
    {
        let ghost entries = self@.entries;
        let mut count: usize = 0;
        let mut i: usize = 0;
        assert(entries.take(0) =~= Seq::<Entry>::empty());
        while i < k
            invariant
                i <= k <= self.characters@.len(),
                entries == entries_of(self.characters@),
                count == newline_index(entries.take(i as int)).len(),
                count <= i,
            decreases k - i,
        {
            proof {
                lemma_newline_index_step(entries, i as int);
            }
            let at_first = self.characters[i].0.level() == 0 && self.characters[i].0.site_id() == 0
                && self.characters[i].0.clock() == 0;
            let at_last = self.characters[i].0.rank(&Position::last()) == Rank::Same;
            proof {
                if at_first {
                    assert(entries[i as int].0.path =~= first_view().path);
                    assert(entries[i as int].0 =~= first_view());
                }
            }
            if self.characters[i].1 == '\n' || at_first || at_last {
                count += 1;
            }
            i += 1;
        }
        count
    }

    /// Takes in the character `ch` at `pos`, a position made here or by
    /// another replica. It is refused where an entry stands at `pos` already,
    /// and where `pos` does not lie strictly between the sentinels; the store
    /// is then left as it was.
    pub fn insert_at(&mut self, pos: Position, ch: char) -> (ok: bool)
        requires
            old(self).wf(),
        ensures
            final(self).wf(),
            ok == (inside(pos@) && !contains(old(self)@.entries, pos@)),
            final(self)@ == (if ok {
                with_entry(old(self)@, pos@, ch)
            } else {
                old(self)@
            }),
            final(self).allocator() == old(self).allocator(),
            final(self).seed() == old(self).seed(),
            final(self).generator() == old(self).generator(),
    {
        let (k, found) = self.search(&pos);
        let ghost entries = self@.entries;
        proof {
            lemma_slot_parts(entries, pos@);
            lemma_position_trichotomy(first_view(), pos@);
            lemma_position_trichotomy(pos@, last_view());
            if position_lt(pos@, last_view()) {
                lemma_position_lt_asymmetric(pos@, last_view());
            }
            if position_lt(first_view(), pos@) {
                lemma_position_lt_asymmetric(first_view(), pos@);
            }
        }
        if found || k == 0 || k == self.characters.len() {
            proof {
                if !found && k == self.characters.len() {
                    assert(position_lt(entries[k - 1].0, pos@));
                }
                if !found && k == 0 {
                    assert(!position_lt(entries[0].0, pos@));
                }
            }
            return false;
        }
        proof {
            assert(position_lt(entries[0].0, pos@));
            assert(!position_lt(entries[entries.len() - 1].0, pos@));
            assert(entries[entries.len() - 1].0 == last_view());
            assert(inside(pos@));
            lemma_placed_bounded(entries, pos@, ch);
            lemma_newline_index_insert(entries, k as int, (pos@, ch));
        }
        if ch == '\n' {
            let at = self.marks_before(k);
            let ghost before = self.newlines@;
            self.newlines.insert(at, pos.clone());
            assert(positions_of(self.newlines@) =~= positions_of(before).insert(at as int, pos@));
        }
        let ghost before = self.characters@;
        self.characters.insert(k, (pos, ch));
        assert(entries_of(self.characters@) =~= entries_of(before).insert(k as int, (pos@, ch)));
        true
    }

    /// Inserts `ch` before the entry at `before`, with a new position of this
    /// site at the next clock whose path is generated between that entry and
    /// the one before it. It is refused, and the store left as it was, where
    /// no entry stands at `before` or none stands before it, and the
    /// generator is then not used. With such an anchor a path is generated,
    /// and the insert is refused only where that path is too long, or the new
    /// position is taken or does not lie between the sentinels. None of
    /// these happens where the two neighbours leave room at a level that a
    /// position can hold: the new entry then stands directly before the one
    /// at `before`.
    #[verifier::rlimit(40)]
    pub fn insert(&mut self, ch: char, before: &Position) -> (ok: bool)
        requires
            old(self).wf(),
        ensures
            final(self).wf(),
            (ok, final(self)@, final(self).generator()) == after_insert(
                old(self)@,
                old(self).generator(),
                ch,
                before@,
            ),
            old(self).allocator().extends_to(final(self).allocator()),
            ok ==> anchored(old(self)@.entries, before@) && (exists|path: Seq<u32>|
                #[trigger] inserted(old(self)@, before@, ch, path, final(self)@) && drawn(
                    old(self).allocator(),
                    final(self).allocator(),
                    left_of(old(self)@.entries, before@).path,
                    before@.path,
                    path,
                )),
            !ok ==> final(self)@ == old(self)@,
            !anchored(old(self)@.entries, before@) ==> final(self).allocator() == old(
                self,
            ).allocator(),
            !ok && anchored(old(self)@.entries, before@) ==> (exists|path: Seq<u32>|
                #[trigger] refused(old(self)@, path) && drawn(
                    old(self).allocator(),
                    final(self).allocator(),
                    left_of(old(self)@.entries, before@).path,
                    before@.path,
                    path,
                )),
            anchored(old(self)@.entries, before@) && roomy(old(self)@.entries, before@) ==> ok
                && final(self)@.entries.len() == old(self)@.entries.len() + 1
                && final(self)@.entries[slot_of(old(self)@.entries, before@)].1 == ch
                && final(self)@.entries[slot_of(old(self)@.entries, before@) + 1].0 == before@,
    {
        let (k, found) = self.search(before);
        let ghost entries = self@.entries;
        proof {
            lemma_extends_reflexive(self.allocator());
            lemma_slot_holds(entries, before@);
        }
        if !found || k == 0 {
            return false;
        }
        proof {
            assert(position_lt(entries[0].0, entries[k as int].0));
            lemma_position_lt_asymmetric(first_view(), before@);
        }
        let path = self.algorithm.generate_one(
            self.characters[k - 1].0.path(),
            self.characters[k].0.path(),
        );
        let clock = after(self.clock);
        let ghost left = entries[k - 1].0;
        let ghost p = made_here(self@, path@);
        proof {
            reveal(Allocator::extends_to);
            reveal(allocated);
            if roomy(entries, before@) {
                lemma_allocated_between(left.path, before@.path, 1, path@);
                lemma_between_neighbours(entries, k as int, p);
                lemma_first_is_least(left);
                if first_view() != left {
                    lemma_position_lt_transitive(first_view(), left, p);
                }
                assert(position_lt(before@, last_view()) || before@ == last_view()) by {
                    if (k as int) < entries.len() - 1 {
                        assert(position_lt(entries[k as int].0, entries[entries.len() - 1].0));
                    }
                }
                if before@ != last_view() {
                    lemma_position_lt_transitive(p, before@, last_view());
                }
            }
        }
        match Position::new(self.site, clock, path.as_slice()) {
            Err(_) => {
                assert(refused(old(self)@, path@));
                false
            },
            Ok(pos) => {
                if self.insert_at(pos, ch) {
                    self.clock = clock;
                    proof {
                        assert(inserted(old(self)@, before@, ch, path@, self@));
                    }
                    true
                } else {
                    assert(refused(old(self)@, path@));
                    false
                }
            },
        }
    }

    /// Takes in entries made here or by other replicas, one by one as
    /// `insert_at` does, and returns how many were taken in.
    pub fn merge(&mut self, entries: &Vec<(Position, char)>) -> (taken: usize)
        requires
            old(self).wf(),
        ensures
            final(self).wf(),
            final(self)@ == merged(old(self)@, entries_of(entries@)),
            final(self)@.entries.len() == old(self)@.entries.len() + taken,
            final(self).allocator() == old(self).allocator(),
            final(self).seed() == old(self).seed(),
            final(self).generator() == old(self).generator(),
    {
        let ghost source = entries_of(entries@);
        let mut taken: usize = 0;
        let mut i: usize = 0;
        assert(source.take(0) =~= Seq::<Entry>::empty());
        while i < entries.len()
            invariant
                i <= entries@.len(),
                taken <= i,
                source == entries_of(entries@),
                self.wf(),
                self@ == merged(old(self)@, source.take(i as int)),
                self@.entries.len() == old(self)@.entries.len() + taken,
                self.allocator() == old(self).allocator(),
                self.seed() == old(self).seed(),
                self.generator() == old(self).generator(),
            decreases entries@.len() - i,
        {
            assert(source.take(i + 1).drop_last() =~= source.take(i as int));
            proof {
                lemma_slot_parts(self@.entries, source[i as int].0);
            }
            if self.insert_at(entries[i].0.clone(), entries[i].1) {
                taken += 1;
            }
            i += 1;
        }
        assert(source.take(i as int) =~= source);
        taken
    }

    /// Removes the entry at `pos` and returns its character, or nothing where
    /// no entry stands at `pos` or `pos` is a sentinel; the store is then left
    /// as it was. The line index loses a position exactly where a line feed
    /// is removed.
    pub fn remove(&mut self, pos: &Position) -> (r: Option<char>)
        requires
            old(self).wf(),
        ensures
            final(self).wf(),
            r is Some <==> contains(old(self)@.entries, pos@) && pos@ != first_view() && pos@
                != last_view(),
            r matches Some(ch) ==> old(self)@.entries[slot_of(old(self)@.entries, pos@)] == (
                pos@,
                ch,
            ),
            final(self)@ == (if r is Some {
                without_entry(old(self)@, pos@)
            } else {
                old(self)@
            }),
            final(self)@.newlines.len() == old(self)@.newlines.len() - (if r == Some('\n') {
                1int
            } else {
                0int
            }),
            final(self).allocator() == old(self).allocator(),
            final(self).seed() == old(self).seed(),
            final(self).generator() == old(self).generator(),
    {
        let (k, found) = self.search(pos);
        let ghost entries = self@.entries;
        if !found || k == 0 || k == self.characters.len() - 1 {
            proof {
                lemma_slot_holds(entries, pos@);
                if found {
                    lemma_first_before_last();
                    if pos@ != first_view() && pos@ != last_view() {
                        lemma_removed_bounded(entries, pos@);
                    }
                }
            }
            return None;
        }
        proof {
            assert(position_lt(entries[0].0, entries[k as int].0));
            assert(position_lt(entries[k as int].0, entries[entries.len() - 1].0));
            lemma_position_lt_asymmetric(first_view(), pos@);
            lemma_position_lt_asymmetric(pos@, last_view());
            lemma_removed_bounded(entries, pos@);
            lemma_newline_index_remove(entries, k as int);
        }
        let ch = self.characters[k].1;
        if ch == '\n' {
            let at = self.marks_before(k);
            let ghost before = self.newlines@;
            self.newlines.remove(at);
            assert(positions_of(self.newlines@) =~= positions_of(before).remove(at as int));
        }
        let ghost before = self.characters@;
        self.characters.remove(k);
        assert(entries_of(self.characters@) =~= entries_of(before).remove(k as int));
        Some(ch)
    }
}

/// The clock after `clock`.
pub fn after(clock: u16) -> (r: u16)
    ensures
        r == clock_after(clock),
{
    if clock == u16::MAX {
        0
    } else {
        clock + 1
    }
}

impl Default for Storage {
    /// An empty store for site 0 with the strategy `Boundaries` at the
    /// default limit.
    fn default() -> (r: Storage)
        ensures
            r@ == empty_view(),
            r.wf(),
            Allocator::carries_out(Strategy::Boundaries(DEFAULT_LIMIT), r.allocator()),
            r.generator().allocator == started(Strategy::Boundaries(DEFAULT_LIMIT)),
    {
        Storage::with_algorithm(Algorithm::default())
    }
}

} // verus!
