//! The changes that replicas send each other, and what a store holds after
//! it has taken them in.

use vstd::prelude::*;
use crate::entries::{contains, inside, slot_of, sorted, Entry};
use crate::entries::{lemma_placed_bounded, lemma_removed_bounded, lemma_same_entries};
use crate::entries::{lemma_slot_holds, lemma_slot_parts};
use crate::position::{first_view, last_view, position_lt, Position, PositionView};
use crate::position::lemma_position_lt_asymmetric;
use crate::storage::{well_formed, with_entry, without_entry, Storage, StorageView};

verus! {

/// One change to a store.
pub enum Operation {
    /// The character was inserted at the position.
    Insert(Position, char),
    /// The entry at the position was removed.
    Remove(Position),
}

/// What an operation is.
pub enum OperationView {
    Insert(PositionView, char),
    Remove(PositionView),
}

impl View for Operation {
    type V = OperationView;

    open spec fn view(&self) -> OperationView {
        match *self {
            Operation::Insert(p, ch) => OperationView::Insert(p@, ch),
            Operation::Remove(p) => OperationView::Remove(p@),
        }
    }
}

/// What a vector of operations stands for.
pub open spec fn operations_of(operations: Seq<Operation>) -> Seq<OperationView> {
    Seq::new(operations.len(), |i: int| operations[i]@)
}

/// The position that an operation is about.
pub open spec fn target(operation: OperationView) -> PositionView {
    match operation {
        OperationView::Insert(p, ch) => p,
        OperationView::Remove(p) => p,
    }
}

/// Whether the entry at `p` can be removed: there is one, and it is no
/// sentinel.
pub open spec fn removable(view: StorageView, p: PositionView) -> bool {
    contains(view.entries, p) && p != first_view() && p != last_view()
}

/// The store after one operation, as `Storage::insert_at` and
/// `Storage::remove` carry it out: an insert is left out where the position
/// is taken or does not lie strictly between the sentinels, and a removal
/// where no entry stands at the position or the position is a sentinel.
pub open spec fn applied_one(view: StorageView, operation: OperationView) -> StorageView {
    match operation {
        OperationView::Insert(p, ch) => if inside(p) && !contains(view.entries, p) {
            with_entry(view, p, ch)
        } else {
            view
        },
        OperationView::Remove(p) => if removable(view, p) {
            without_entry(view, p)
        } else {
            view
        },
    }
}

/// The store after the operations, one by one in order.
pub open spec fn applied(view: StorageView, operations: Seq<OperationView>) -> StorageView
    decreases operations.len(),
{
    if operations.len() == 0 {
        view
    } else {
        applied_one(applied(view, operations.drop_last()), operations.last())
    }
}

/// Whether the operation changes the store: an insert at a free position
/// between the sentinels, or a removal of an entry that is no sentinel.
pub open spec fn takes_effect(view: StorageView, operation: OperationView) -> bool {
    match operation {
        OperationView::Insert(p, ch) => inside(p) && !contains(view.entries, p),
        OperationView::Remove(p) => removable(view, p),
    }
}

/// The number of the operations that change the store as they are applied
/// one by one in order.
pub open spec fn effects(view: StorageView, operations: Seq<OperationView>) -> nat
    decreases operations.len(),
{
    if operations.len() == 0 {
        0
    } else {
        effects(view, operations.drop_last()) + if takes_effect(
            applied(view, operations.drop_last()),
            operations.last(),
        ) {
            1nat
        } else {
            0nat
        }
    }
}

/// No two of the operations are about one position.
pub open spec fn unrelated(operations: Seq<OperationView>) -> bool {
    forall|i: int, j: int|
        0 <= i < j < operations.len() ==> target(#[trigger] operations[i]) != target(
            #[trigger] operations[j],
        )
}

/// Whether `e` is held after the operations by a store that held `view`: it
/// was held and is not removed, or it is inserted at a free position between
/// the sentinels.
pub open spec fn held_after(view: StorageView, operations: Seq<OperationView>, e: Entry) -> bool {
    ||| view.entries.contains(e) && !(operations.contains(OperationView::Remove(e.0))
        && removable(view, e.0))
    ||| operations.contains(OperationView::Insert(e.0, e.1)) && inside(e.0) && !contains(
        view.entries,
        e.0,
    )
}

/// An entry of a sorted sequence stands at its position alone.
proof fn lemma_one_at(entries: Seq<Entry>, e: Entry)
    requires
        sorted(entries),
        entries.contains(e),
    ensures
        contains(entries, e.0),
        entries[slot_of(entries, e.0)] == e,
        0 <= slot_of(entries, e.0) < entries.len(),
{
    let i = choose|i: int| 0 <= i < entries.len() && entries[i] == e;
    assert(entries[i].0 == e.0);
    lemma_slot_holds(entries, e.0);
    lemma_slot_parts(entries, e.0);
    let s = slot_of(entries, e.0);
    if i < s {
        assert(position_lt(entries[i].0, entries[s].0));
        lemma_position_lt_asymmetric(entries[i].0, entries[s].0);
    } else if s < i {
        assert(position_lt(entries[s].0, entries[i].0));
        lemma_position_lt_asymmetric(entries[s].0, entries[i].0);
    }
}

/// Operations about other positions leave the entry at a position as it was.
proof fn lemma_untouched(
    view: StorageView,
    operations: Seq<OperationView>,
    after: StorageView,
    p: PositionView,
)
    requires
        sorted(view.entries),
        sorted(after.entries),
        forall|e: Entry| #[trigger] after.entries.contains(e) <==> held_after(view, operations, e),
        forall|i: int| 0 <= i < operations.len() ==> target(#[trigger] operations[i]) != p,
    ensures
        contains(after.entries, p) <==> contains(view.entries, p),
        forall|e: Entry| e.0 == p ==> (#[trigger] after.entries.contains(e) <==> view.entries.contains(e)),
{
    assert forall|e: Entry| e.0 == p implies (#[trigger] after.entries.contains(e)
        <==> view.entries.contains(e)) by {
        if operations.contains(OperationView::Remove(e.0)) {
            let i = choose|i: int| 0 <= i < operations.len() && operations[i]
                == OperationView::Remove(e.0);
            assert(target(operations[i]) == p);
        }
        if operations.contains(OperationView::Insert(e.0, e.1)) {
            let i = choose|i: int| 0 <= i < operations.len() && operations[i]
                == OperationView::Insert(e.0, e.1);
            assert(target(operations[i]) == p);
        }
        assert(after.entries.contains(e) <==> held_after(view, operations, e));
    }
    if contains(after.entries, p) {
        let k = choose|k: int| 0 <= k < after.entries.len() && #[trigger] after.entries[k].0 == p;
        let e = after.entries[k];
        assert(after.entries.contains(e));
        assert(view.entries.contains(e));
        lemma_one_at(view.entries, e);
    }
    if contains(view.entries, p) {
        let k = choose|k: int| 0 <= k < view.entries.len() && #[trigger] view.entries[k].0 == p;
        let e = view.entries[k];
        assert(view.entries.contains(e));
        assert(after.entries.contains(e));
        lemma_one_at(after.entries, e);
    }
}

/// What a store holds after operations about positions of their own: see
/// `held_after`.
pub proof fn lemma_applied_holds(view: StorageView, operations: Seq<OperationView>)
    requires
        well_formed(view),
        unrelated(operations),
    ensures
        well_formed(applied(view, operations)),
        applied(view, operations).site == view.site,
        applied(view, operations).clock == view.clock,
        forall|e: Entry| #[trigger]
            applied(view, operations).entries.contains(e) <==> held_after(view, operations, e),
    decreases operations.len(),
{
    let after = applied(view, operations);
    if operations.len() == 0 {
        assert forall|e: Entry| #[trigger]
            after.entries.contains(e) <==> held_after(view, operations, e) by {
            if operations.contains(OperationView::Insert(e.0, e.1)) {
                let i = choose|i: int| 0 <= i < operations.len() && operations[i]
                    == OperationView::Insert(e.0, e.1);
            }
            if operations.contains(OperationView::Remove(e.0)) {
                let i = choose|i: int| 0 <= i < operations.len() && operations[i]
                    == OperationView::Remove(e.0);
            }
        }
    } else {
        let init = operations.drop_last();
        let last = operations.last();
        let p = target(last);
        let before = applied(view, init);
        assert forall|i: int, j: int| 0 <= i < j < init.len() implies target(#[trigger] init[i])
            != target(#[trigger] init[j]) by {
            assert(target(operations[i]) != target(operations[j]));
        }
        lemma_applied_holds(view, init);
        assert forall|i: int| 0 <= i < init.len() implies target(#[trigger] init[i]) != p by {
            assert(target(operations[i]) != target(operations[operations.len() - 1]));
        }
        lemma_untouched(view, init, before, p);
        match last {
            OperationView::Insert(q, ch) => {
                if inside(p) && !contains(before.entries, p) {
                    lemma_placed_bounded(before.entries, p, ch);
                }
            },
            OperationView::Remove(q) => {
                if removable(before, p) {
                    lemma_removed_bounded(before.entries, p);
                }
            },
        }
        assert forall|e: Entry| #[trigger]
            after.entries.contains(e) <==> held_after(view, operations, e) by {
            lemma_step(view, operations, e);
        }
    }
}

/// One entry of `lemma_applied_holds`, for the last of the operations.
proof fn lemma_step(view: StorageView, operations: Seq<OperationView>, e: Entry)
    requires
        well_formed(view),
        unrelated(operations),
        operations.len() > 0,
        well_formed(applied(view, operations.drop_last())),
        forall|x: Entry| #[trigger]
            applied(view, operations.drop_last()).entries.contains(x) <==> held_after(
                view,
                operations.drop_last(),
                x,
            ),
        contains(applied(view, operations.drop_last()).entries, target(operations.last()))
            <==> contains(view.entries, target(operations.last())),
    ensures
        applied(view, operations).entries.contains(e) <==> held_after(view, operations, e),
{
    let init = operations.drop_last();
    let last = operations.last();
    let p = target(last);
    let before = applied(view, init);
    let after = applied(view, operations);
    let at = slot_of(before.entries, p);
    lemma_slot_parts(before.entries, p);
    lemma_slot_holds(before.entries, p);
    assert(before.entries.contains(e) <==> held_after(view, init, e));
    // what the last operation adds to the list
    assert(operations.contains(OperationView::Insert(e.0, e.1)) <==> init.contains(
        OperationView::Insert(e.0, e.1),
    ) || last == OperationView::Insert(e.0, e.1)) by {
        lemma_contains_last(operations, OperationView::Insert(e.0, e.1));
    }
    assert(operations.contains(OperationView::Remove(e.0)) <==> init.contains(
        OperationView::Remove(e.0),
    ) || last == OperationView::Remove(e.0)) by {
        lemma_contains_last(operations, OperationView::Remove(e.0));
    }
    // no earlier operation is about the position of the last
    if e.0 == p {
        if init.contains(OperationView::Insert(e.0, e.1)) {
            let i = choose|i: int| 0 <= i < init.len() && init[i] == OperationView::Insert(
                e.0,
                e.1,
            );
            assert(target(operations[i]) != target(operations[operations.len() - 1]));
        }
        if init.contains(OperationView::Remove(e.0)) {
            let i = choose|i: int| 0 <= i < init.len() && init[i] == OperationView::Remove(e.0);
            assert(target(operations[i]) != target(operations[operations.len() - 1]));
        }
    }
    match last {
        OperationView::Insert(q, ch) => {
            if inside(p) && !contains(before.entries, p) {
                assert(after.entries == before.entries.insert(at, (p, ch)));
                if after.entries.contains(e) {
                    let i = choose|i: int| 0 <= i < after.entries.len() && after.entries[i] == e;
                    if i < at {
                        assert(before.entries[i] == e);
                    } else if i > at {
                        assert(before.entries[i - 1] == e);
                    }
                }
                if before.entries.contains(e) {
                    let i = choose|i: int| 0 <= i < before.entries.len() && before.entries[i]
                        == e;
                    if i < at {
                        assert(after.entries[i] == e);
                    } else {
                        assert(after.entries[i + 1] == e);
                    }
                    assert(before.entries[i].0 == e.0);
                }
                if e == (p, ch) {
                    assert(after.entries[at] == e);
                }
            } else {
                if before.entries.contains(e) {
                    let i = choose|i: int| 0 <= i < before.entries.len() && before.entries[i]
                        == e;
                    assert(before.entries[i].0 == e.0);
                }
            }
        },
        OperationView::Remove(q) => {
            if removable(before, p) {
                assert(after.entries == before.entries.remove(at));
                if after.entries.contains(e) {
                    let i = choose|i: int| 0 <= i < after.entries.len() && after.entries[i] == e;
                    if i < at {
                        assert(before.entries[i] == e);
                        assert(position_lt(before.entries[i].0, before.entries[at].0));
                        lemma_position_lt_asymmetric(e.0, p);
                    } else {
                        assert(before.entries[i + 1] == e);
                        assert(position_lt(before.entries[at].0, before.entries[i + 1].0));
                        lemma_position_lt_asymmetric(p, e.0);
                    }
                }
                if before.entries.contains(e) && e.0 != p {
                    let i = choose|i: int| 0 <= i < before.entries.len() && before.entries[i]
                        == e;
                    if i < at {
                        assert(after.entries[i] == e);
                    } else {
                        assert(after.entries[i - 1] == e);
                    }
                }
            } else {
                if view.entries.contains(e) && e.0 == p {
                    let i = choose|i: int| 0 <= i < view.entries.len() && view.entries[i] == e;
                    assert(view.entries[i].0 == p);
                }
            }
        },
    }
}

/// An element is in a sequence where it is among all but the last or is the
/// last.
proof fn lemma_contains_last<A>(seq: Seq<A>, x: A)
    requires
        seq.len() > 0,
    ensures
        seq.contains(x) <==> seq.drop_last().contains(x) || seq.last() == x,
{
    if seq.contains(x) {
        let i = choose|i: int| 0 <= i < seq.len() && seq[i] == x;
        if i < seq.len() - 1 {
            assert(seq.drop_last()[i] == x);
        }
    }
    if seq.drop_last().contains(x) {
        let i = choose|i: int| 0 <= i < seq.drop_last().len() && seq.drop_last()[i] == x;
        assert(seq[i] == x);
    }
    if seq.last() == x {
        assert(seq[seq.len() - 1] == x);
    }
}

/// The order in which operations are delivered does not matter: a store that
/// takes in the same operations, each about a position of its own, in two
/// different orders holds the same in the end.
pub proof fn lemma_apply_any_order(
    view: StorageView,
    one: Seq<OperationView>,
    other: Seq<OperationView>,
)
    requires
        well_formed(view),
        unrelated(one),
        unrelated(other),
        forall|operation: OperationView| one.contains(operation) <==> other.contains(operation),
    ensures
        applied(view, one) == applied(view, other),
{
    lemma_applied_holds(view, one);
    lemma_applied_holds(view, other);
    let a = applied(view, one);
    let b = applied(view, other);
    assert forall|e: Entry| a.entries.contains(e) <==> b.entries.contains(e) by {
        assert(one.contains(OperationView::Remove(e.0)) <==> other.contains(
            OperationView::Remove(e.0),
        ));
        assert(one.contains(OperationView::Insert(e.0, e.1)) <==> other.contains(
            OperationView::Insert(e.0, e.1),
        ));
        assert(a.entries.contains(e) <==> held_after(view, one, e));
        assert(b.entries.contains(e) <==> held_after(view, other, e));
    }
    lemma_same_entries(a.entries, b.entries);
}

impl Storage {
    /// Takes in the operations one by one in order, each as `insert_at` or
    /// `remove` does, and returns how many of them changed the store.
    pub fn apply(&mut self, operations: &Vec<Operation>) -> (done: usize)
        requires
            old(self).wf(),
        ensures
            final(self).wf(),
            final(self)@ == applied(old(self)@, operations_of(operations@)),
            done == effects(old(self)@, operations_of(operations@)),
            final(self).allocator() == old(self).allocator(),
            final(self).seed() == old(self).seed(),
    {
        let ghost source = operations_of(operations@);
        let mut done: usize = 0;
        let mut i: usize = 0;
        assert(source.take(0) =~= Seq::<OperationView>::empty());
        while i < operations.len()
            invariant
                i <= operations@.len(),
                done <= i,
                source == operations_of(operations@),
                self.wf(),
                self@ == applied(old(self)@, source.take(i as int)),
                done == effects(old(self)@, source.take(i as int)),
                self.allocator() == old(self).allocator(),
                self.seed() == old(self).seed(),
            decreases operations@.len() - i,
        {
            assert(source.take(i + 1).drop_last() =~= source.take(i as int));
            assert(source.take(i + 1).last() == operations@[i as int]@);
            let changed = match &operations[i] {
                Operation::Insert(position, ch) => self.insert_at(position.clone(), *ch),
                Operation::Remove(position) => self.remove(position).is_some(),
            };
            if changed {
                done += 1;
            }
            i += 1;
        }
        assert(source.take(i as int) =~= source);
        done
    }
}

} // verus!
