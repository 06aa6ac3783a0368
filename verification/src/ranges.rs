//! Views of a store over a span of positions: its characters, its text and
//! its lines.

use vstd::prelude::*;
use itertools::Itertools;
use crate::bulk::text_of;
use crate::entries::{bounded, Entry};
use crate::path::Rank;
use crate::position::{first_view, last_view, position_le, position_lt, Position, PositionView};
use crate::position::{lemma_first_before_last, lemma_position_lt_asymmetric};
use crate::position::lemma_position_lt_transitive;
use crate::storage::{entries_of, positions_of, Storage};
use crate::text::string_of;

verus! {

/// One end of a span.
pub enum Bound {
    /// The span reaches this position.
    Included(Position),
    /// The span stops short of this position.
    Excluded(Position),
    /// The span is open at this end; the sentinel there is left out.
    Unbounded,
}

/// What a bound is.
pub enum BoundView {
    Included(PositionView),
    Excluded(PositionView),
    Unbounded,
}

/// A span of positions, from `start` to `end`.
pub struct Span {
    pub start: Bound,
    pub end: Bound,
}

/// What a span is.
pub struct SpanView {
    pub start: BoundView,
    pub end: BoundView,
}

impl View for Bound {
    type V = BoundView;

    open spec fn view(&self) -> BoundView {
        match *self {
            Bound::Included(p) => BoundView::Included(p@),
            Bound::Excluded(p) => BoundView::Excluded(p@),
            Bound::Unbounded => BoundView::Unbounded,
        }
    }
}

impl View for Span {
    type V = SpanView;

    open spec fn view(&self) -> SpanView {
        SpanView { start: self.start@, end: self.end@ }
    }
}

/// The span that is open at both ends.
pub open spec fn all_view() -> SpanView {
    SpanView { start: BoundView::Unbounded, end: BoundView::Unbounded }
}

/// `p` lies within the span.
pub open spec fn covers(span: SpanView, p: PositionView) -> bool {
    &&& match span.start {
        BoundView::Included(start) => position_le(start, p),
        BoundView::Excluded(start) => position_lt(start, p),
        BoundView::Unbounded => true,
    }
    &&& match span.end {
        BoundView::Included(end) => position_le(p, end),
        BoundView::Excluded(end) => position_lt(p, end),
        BoundView::Unbounded => true,
    }
}

/// The entries whose positions lie within the span.
pub open spec fn entry_in(span: SpanView) -> spec_fn(Entry) -> bool {
    |e: Entry| covers(span, e.0)
}

/// The positions that lie within the span.
pub open spec fn position_in(span: SpanView) -> spec_fn(PositionView) -> bool {
    |p: PositionView| covers(span, p)
}

/// `seq` without its first element where the span is open at the start, and
/// without its last where the span is open at the end.
pub open spec fn trimmed<A>(seq: Seq<A>, span: SpanView) -> Seq<A> {
    let rest = if span.start is Unbounded && seq.len() > 0 {
        seq.drop_first()
    } else {
        seq
    };
    if span.end is Unbounded && rest.len() > 0 {
        rest.drop_last()
    } else {
        rest
    }
}

/// The entries of a store that a span shows: those within it, in order,
/// without the first where the span is open at the start and without the last
/// where it is open at the end.
pub open spec fn visible(entries: Seq<Entry>, span: SpanView) -> Seq<Entry> {
    trimmed(entries.filter(entry_in(span)), span)
}

/// The characters of the entries, in order.
pub open spec fn letters(entries: Seq<Entry>) -> Seq<char> {
    Seq::new(entries.len(), |i: int| entries[i].1)
}

/// Each element of `seq` but the last, paired with the one after it.
pub open spec fn windows(seq: Seq<PositionView>) -> Seq<(PositionView, PositionView)> {
    Seq::new(
        if seq.len() > 0 {
            (seq.len() - 1) as nat
        } else {
            0nat
        },
        |i: int| (seq[i], seq[i + 1]),
    )
}

/// What a vector of pairs of positions stands for.
pub open spec fn pairs_of(pairs: Seq<(Position, Position)>) -> Seq<(PositionView, PositionView)> {
    Seq::new(pairs.len(), |i: int| (pairs[i].0@, pairs[i].1@))
}

/// `itertools::Itertools::tuple_windows` on the positions: each position but
/// the last paired with the one after it, in order.
#[verifier::external_body]
pub(crate) fn neighbours(positions: &Vec<Position>) -> (pairs: Vec<(Position, Position)>)
    ensures
        pairs_of(pairs@) == windows(positions_of(positions@)),
{
    positions.iter().cloned().tuple_windows().collect()
}

/// Filtering one element more.
pub proof fn lemma_filter_step<A>(seq: Seq<A>, pred: spec_fn(A) -> bool, i: int)
    requires
        0 <= i < seq.len(),
    ensures
        seq.take(i + 1).filter(pred) == (if pred(seq[i]) {
            seq.take(i).filter(pred).push(seq[i])
        } else {
            seq.take(i).filter(pred)
        }),
{
    reveal(Seq::filter);
    assert(seq.take(i + 1).drop_last() =~= seq.take(i));
}

/// A filter that every element passes changes nothing.
pub proof fn lemma_filter_all<A>(seq: Seq<A>, pred: spec_fn(A) -> bool)
    requires
        forall|i: int| 0 <= i < seq.len() ==> pred(#[trigger] seq[i]),
    ensures
        seq.filter(pred) == seq,
    decreases seq.len(),
{
    reveal(Seq::filter);
    if seq.len() > 0 {
        lemma_filter_all(seq.drop_last(), pred);
        assert(seq.drop_last().push(seq.last()) =~= seq);
    }
}

/// Filters that agree on every element give the same.
pub proof fn lemma_filter_same<A>(seq: Seq<A>, p: spec_fn(A) -> bool, q: spec_fn(A) -> bool)
    requires
        forall|i: int| 0 <= i < seq.len() ==> p(#[trigger] seq[i]) == q(seq[i]),
    ensures
        seq.filter(p) == seq.filter(q),
    decreases seq.len(),
{
    reveal(Seq::filter);
    if seq.len() > 0 {
        lemma_filter_same(seq.drop_last(), p, q);
    }
}

/// A filter that no element passes leaves nothing.
pub proof fn lemma_filter_none<A>(seq: Seq<A>, pred: spec_fn(A) -> bool)
    requires
        forall|i: int| 0 <= i < seq.len() ==> !pred(#[trigger] seq[i]),
    ensures
        seq.filter(pred) == Seq::<A>::empty(),
    decreases seq.len(),
{
    reveal(Seq::filter);
    if seq.len() > 0 {
        lemma_filter_none(seq.drop_last(), pred);
    } else {
        assert(seq =~= Seq::<A>::empty());
    }
}

/// The filter of a single element.
pub proof fn lemma_filter_one<A>(x: A, pred: spec_fn(A) -> bool)
    ensures
        seq![x].filter(pred) == (if pred(x) {
            seq![x]
        } else {
            Seq::<A>::empty()
        }),
{
    reveal_with_fuel(Seq::filter, 2);
    assert(seq![x].drop_last() =~= Seq::<A>::empty());
    if pred(x) {
        assert(Seq::<A>::empty().push(x) =~= seq![x]);
    }
}

/// The entries that a span shows of a well-formed store: those within it,
/// but for the opening sentinel where the span is open at the start and the
/// closing sentinel where it is open at the end.
pub open spec fn shown_in(span: SpanView) -> spec_fn(Entry) -> bool {
    |e: Entry|
        {
            &&& covers(span, e.0)
            &&& span.start is Unbounded ==> e.0 != first_view()
            &&& span.end is Unbounded ==> e.0 != last_view()
        }
}

/// A span shows the entries of a store that lie within it, and leaves out a
/// sentinel exactly where it is open at that sentinel's end.
pub proof fn lemma_visible_without_sentinels(entries: Seq<Entry>, span: SpanView)
    requires
        bounded(entries),
    ensures
        visible(entries, span) == entries.filter(shown_in(span)),
{
    let p = entry_in(span);
    let q = shown_in(span);
    let first = entries.first();
    let last = entries.last();
    let middle = entries.subrange(1, entries.len() - 1);
    lemma_first_before_last();
    assert(entries =~= (seq![first] + middle) + seq![last]);
    Seq::filter_distributes_over_add(seq![first] + middle, seq![last], p);
    Seq::filter_distributes_over_add(seq![first], middle, p);
    Seq::filter_distributes_over_add(seq![first] + middle, seq![last], q);
    Seq::filter_distributes_over_add(seq![first], middle, q);
    lemma_filter_one(first, p);
    lemma_filter_one(last, p);
    lemma_filter_one(first, q);
    lemma_filter_one(last, q);
    assert forall|i: int| 0 <= i < middle.len() implies p(#[trigger] middle[i]) == q(middle[i]) by {
        assert(position_lt(entries[0].0, entries[i + 1].0));
        assert(position_lt(entries[i + 1].0, entries[entries.len() - 1].0));
        lemma_position_lt_asymmetric(first_view(), middle[i].0);
        lemma_position_lt_asymmetric(middle[i].0, last_view());
    }
    lemma_filter_same(middle, p, q);
    let f1 = seq![first].filter(p);
    let fm = middle.filter(p);
    let fl = seq![last].filter(p);
    assert(entries.filter(p) == (f1 + fm) + fl);
    assert(entries.filter(q) == (seq![first].filter(q) + fm) + seq![last].filter(q));
    if span.start is Unbounded && !p(first) {
        assert forall|i: int| 0 <= i < entries.len() implies !p(#[trigger] entries[i]) by {
            lemma_uncovered_start(entries, span, i);
        }
        lemma_filter_none(entries, p);
        assert forall|i: int| 0 <= i < entries.len() implies !q(#[trigger] entries[i]) by {
            assert(!p(entries[i]));
        }
        lemma_filter_none(entries, q);
    } else if span.end is Unbounded && !p(last) {
        assert forall|i: int| 0 <= i < entries.len() implies !p(#[trigger] entries[i]) by {
            lemma_uncovered_end(entries, span, i);
        }
        lemma_filter_none(entries, p);
        assert forall|i: int| 0 <= i < entries.len() implies !q(#[trigger] entries[i]) by {
            assert(!p(entries[i]));
        }
        lemma_filter_none(entries, q);
    } else {
        let rest = if span.start is Unbounded {
            fm + fl
        } else {
            (f1 + fm) + fl
        };
        if span.start is Unbounded {
            assert(((f1 + fm) + fl).drop_first() =~= fm + fl);
        }
        if span.end is Unbounded {
            if span.start is Unbounded {
                assert((fm + fl).drop_last() =~= fm);
                assert((Seq::<Entry>::empty() + fm) + Seq::<Entry>::empty() =~= fm);
            } else {
                assert(((f1 + fm) + fl).drop_last() =~= f1 + fm);
                assert((f1 + fm) + Seq::<Entry>::empty() =~= f1 + fm);
            }
        } else {
            if span.start is Unbounded {
                assert((Seq::<Entry>::empty() + fm) + fl =~= fm + fl);
            }
        }
    }
}

/// Where a span that is open at the start does not cover the first of the
/// entries, it covers none of them.
proof fn lemma_uncovered_start(entries: Seq<Entry>, span: SpanView, i: int)
    requires
        bounded(entries),
        span.start is Unbounded,
        !covers(span, entries[0].0),
        0 <= i < entries.len(),
    ensures
        !covers(span, entries[i].0),
{
    if i > 0 && covers(span, entries[i].0) {
        assert(position_lt(entries[0].0, entries[i].0));
        match span.end {
            BoundView::Included(end) => {
                if entries[i].0 != end {
                    lemma_position_lt_transitive(entries[0].0, entries[i].0, end);
                }
            },
            BoundView::Excluded(end) => {
                lemma_position_lt_transitive(entries[0].0, entries[i].0, end);
            },
            BoundView::Unbounded => {},
        }
    }
}

/// Where a span that is open at the end does not cover the last of the
/// entries, it covers none of them.
proof fn lemma_uncovered_end(entries: Seq<Entry>, span: SpanView, i: int)
    requires
        bounded(entries),
        span.end is Unbounded,
        !covers(span, entries[entries.len() - 1].0),
        0 <= i < entries.len(),
    ensures
        !covers(span, entries[i].0),
{
    let last = entries[entries.len() - 1].0;
    if i < entries.len() - 1 && covers(span, entries[i].0) {
        assert(position_lt(entries[i].0, last));
        match span.start {
            BoundView::Included(start) => {
                if entries[i].0 != start {
                    lemma_position_lt_transitive(start, entries[i].0, last);
                }
            },
            BoundView::Excluded(start) => {
                lemma_position_lt_transitive(start, entries[i].0, last);
            },
            BoundView::Unbounded => {},
        }
    }
}

/// The span that is open at both ends shows every entry of a store but the
/// sentinels: two entries fewer than the store holds, and its whole text.
pub proof fn lemma_all_visible(entries: Seq<Entry>)
    requires
        bounded(entries),
    ensures
        visible(entries, all_view()) == entries.subrange(1, entries.len() - 1),
        visible(entries, all_view()).len() == entries.len() - 2,
        letters(visible(entries, all_view())) == text_of(entries),
        forall|i: int|
            0 <= i < entries.len() - 2 ==> ({
                &&& (#[trigger] visible(entries, all_view())[i]).0 != first_view()
                &&& visible(entries, all_view())[i].0 != last_view()
            }),
{
    lemma_filter_all(entries, entry_in(all_view()));
    let shown = visible(entries, all_view());
    assert(shown =~= entries.subrange(1, entries.len() - 1));
    assert(letters(shown) =~= text_of(entries));
    assert forall|i: int| 0 <= i < entries.len() - 2 implies {
        &&& (#[trigger] shown[i]).0 != first_view()
        &&& shown[i].0 != last_view()
    } by {
        assert(position_lt(entries[0].0, entries[i + 1].0));
        assert(position_lt(entries[i + 1].0, entries[entries.len() - 1].0));
        lemma_position_lt_asymmetric(first_view(), entries[i + 1].0);
        lemma_position_lt_asymmetric(entries[i + 1].0, last_view());
    }
}

impl Span {
    /// The span that is open at both ends.
    pub fn all() -> (r: Span)
        ensures
            r@ == all_view(),
    {
        Span { start: Bound::Unbounded, end: Bound::Unbounded }
    }

    /// The span from `start` to `end`.
    pub fn new(start: Bound, end: Bound) -> (r: Span)
        ensures
            r@ == (SpanView { start: start@, end: end@ }),
    {
        Span { start, end }
    }

    /// The span from `start` up to `end`, without `end` itself.
    pub fn between(start: &Position, end: &Position) -> (r: Span)
        ensures
            r@ == (SpanView {
                start: BoundView::Included(start@),
                end: BoundView::Excluded(end@),
            }),
    {
        Span { start: Bound::Included(start.clone()), end: Bound::Excluded(end.clone()) }
    }

    /// Whether `pos` lies within the span.
    pub fn covers(&self, pos: &Position) -> (r: bool)
        ensures
            r == covers(self@, pos@),
    {
        let after_start = match &self.start {
            Bound::Included(start) => start.rank(pos) != Rank::After,
            Bound::Excluded(start) => start.rank(pos) == Rank::Before,
            Bound::Unbounded => true,
        };
        let before_end = match &self.end {
            Bound::Included(end) => pos.rank(end) != Rank::After,
            Bound::Excluded(end) => pos.rank(end) == Rank::Before,
            Bound::Unbounded => true,
        };
        after_start && before_end
    }

    /// Whether the span is open at the start.
    pub fn open_start(&self) -> (r: bool)
        ensures
            r == (self@.start is Unbounded),
    {
        match &self.start {
            Bound::Unbounded => true,
            _ => false,
        }
    }

    /// Whether the span is open at the end.
    pub fn open_end(&self) -> (r: bool)
        ensures
            r == (self@.end is Unbounded),
    {
        match &self.end {
            Bound::Unbounded => true,
            _ => false,
        }
    }
}

impl Storage {
    /// The entries that the span shows, in order. Where the span is open at an
    /// end, the sentinel at that end is left out.
    pub fn characters(&self, span: &Span) -> (r: Vec<(Position, char)>)
        ensures
            entries_of(r@) == visible(self@.entries, span@),
    {
        let ghost entries = self@.entries;
        let ghost pred = entry_in(span@);
        let mut shown: Vec<(Position, char)> = Vec::new();
        let mut i: usize = 0;
        proof {
            reveal(Seq::filter);
            assert(entries.take(0) =~= Seq::<Entry>::empty());
            assert(entries_of(shown@) =~= entries.take(0).filter(pred));
        }
        while i < self.characters.len()
            invariant
                i <= self.characters@.len(),
                entries == entries_of(self.characters@),
                pred == entry_in(span@),
                entries_of(shown@) == entries.take(i as int).filter(pred),
            decreases self.characters@.len() - i,
        {
            proof {
                lemma_filter_step(entries, pred, i as int);
            }
            if span.covers(&self.characters[i].0) {
                let ghost before = shown@;
                shown.push((self.characters[i].0.clone(), self.characters[i].1));
                assert(entries_of(shown@) =~= entries_of(before).push(entries[i as int]));
            }
            i += 1;
        }
        assert(entries.take(i as int) =~= entries);
        if span.open_start() && shown.len() > 0 {
            let ghost before = shown@;
            shown.remove(0);
            assert(entries_of(shown@) =~= entries_of(before).drop_first());
        }
        if span.open_end() && shown.len() > 0 {
            let ghost before = shown@;
            shown.pop();
            assert(entries_of(shown@) =~= entries_of(before).drop_last());
        }
        shown
    }

    /// The characters that the span shows, as a string.
    pub fn string(&self, span: &Span) -> (r: String)
        ensures
            r@ == letters(visible(self@.entries, span@)),
    {
        let shown = self.characters(span);
        let mut chars: Vec<char> = Vec::new();
        let mut i: usize = 0;
        while i < shown.len()
            invariant
                i <= shown@.len(),
                chars@ == letters(entries_of(shown@)).take(i as int),
            decreases shown@.len() - i,
        {
            chars.push(shown[i].1);
            assert(chars@ =~= letters(entries_of(shown@)).take(i + 1));
            i += 1;
        }
        assert(chars@ =~= letters(entries_of(shown@)));
        string_of(&chars)
    }

    /// The lines within the span: each position of the line index that lies
    /// within it, but the last, paired with the one after it. The line index
    /// holds the sentinels and the positions of the line feeds.
    pub fn lines(&self, span: &Span) -> (r: Vec<(Position, Position)>)
        ensures
            pairs_of(r@) == windows(self@.newlines.filter(position_in(span@))),
    {
        let ghost marks = self@.newlines;
        let ghost pred = position_in(span@);
        let mut within: Vec<Position> = Vec::new();
        let mut i: usize = 0;
        proof {
            reveal(Seq::filter);
            assert(marks.take(0) =~= Seq::<PositionView>::empty());
            assert(positions_of(within@) =~= marks.take(0).filter(pred));
        }
        while i < self.newlines.len()
            invariant
                i <= self.newlines@.len(),
                marks == positions_of(self.newlines@),
                pred == position_in(span@),
                positions_of(within@) == marks.take(i as int).filter(pred),
            decreases self.newlines@.len() - i,
        {
            proof {
                lemma_filter_step(marks, pred, i as int);
            }
            if span.covers(&self.newlines[i]) {
                let ghost before = within@;
                within.push(self.newlines[i].clone());
                assert(positions_of(within@) =~= positions_of(before).push(marks[i as int]));
            }
            i += 1;
        }
        assert(marks.take(i as int) =~= marks);
        neighbours(&within)
    }
}

} // verus!
