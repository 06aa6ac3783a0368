//! Loading many characters at once: at the end of a store, or into a new
//! one.

use vstd::prelude::*;
use crate::algorithm::{all_favoured, GeneratorView};
use crate::allocator::{started, Allocator, Strategy, DEFAULT_LIMIT};
use crate::batch::{dealt_out, generate};
use crate::builder::Builder;
use crate::entries::{bounded, marks_line, newline_index, sorted, Entry};
use crate::gap::{all_before, allocated, ascending_after, chained, digits_of_each};
use crate::gap::{has_room, lemma_allocated_length};
use crate::path::{path_lt, lemma_precedes, LEVEL0_END, MAX_LEVELS};
use crate::position::{first_view, last_view, position_lt, PathTooLong, Position, PositionView};
use crate::position::{lemma_first_before_last, lemma_position_lt_asymmetric};
use crate::position::lemma_position_lt_transitive;
use crate::entries::END_OF_TEXT;
use crate::position::lemma_first_is_least;
use crate::storage::{clock_after, empty_view, entries_of, positions_of, ticked};
use crate::storage::{Storage, StorageView};

verus! {

/// The text was too long for the digits of level 0.
#[derive(Clone, Copy, Debug, PartialEq, Eq, Structural)]
pub struct StringTooLarge;

/// The entries that hold the characters of `text` at positions of `site` and
/// `clock` with the given paths.
pub open spec fn body_of(paths: Seq<Seq<u32>>, site: u16, clock: u16, text: Seq<char>) -> Seq<
    Entry,
> {
    Seq::new(text.len(), |i: int| (PositionView { path: paths[i], site, clock }, text[i]))
}

/// The entries with `body` put in before the closing sentinel.
pub open spec fn spliced(entries: Seq<Entry>, body: Seq<Entry>) -> Seq<Entry> {
    entries.drop_last() + body + seq![entries.last()]
}

/// The store with `body` put in before the closing sentinel.
pub open spec fn with_body(view: StorageView, body: Seq<Entry>) -> StorageView {
    StorageView {
        entries: spliced(view.entries, body),
        newlines: newline_index(spliced(view.entries, body)),
        site: view.site,
        clock: view.clock,
    }
}

/// The characters between the sentinels, in order.
pub open spec fn text_of(entries: Seq<Entry>) -> Seq<char> {
    Seq::new((entries.len() - 2) as nat, |i: int| entries[i + 1].1)
}

/// The paths `[1]`, `[2]` and so on.
pub open spec fn dense_paths(count: nat) -> Seq<Seq<u32>> {
    Seq::new(count, |i: int| seq![(i + 1) as u32])
}

/// The body fits between the entries and the closing sentinel: it is sorted,
/// it starts after the last entry before the sentinel, and it ends before
/// the sentinel.
#[verifier::opaque]
pub open spec fn fits(entries: Seq<Entry>, body: Seq<Entry>) -> bool {
    &&& sorted(body)
    &&& forall|i: int|
        0 <= i < body.len() ==> position_lt(
            entries[entries.len() - 2].0,
            #[trigger] body[i].0,
        )
    &&& forall|i: int| 0 <= i < body.len() ==> position_lt(#[trigger] body[i].0, last_view())
}

/// A body that fits keeps the entries sorted between the sentinels, and adds
/// its characters at the end of the text.
pub proof fn lemma_spliced(entries: Seq<Entry>, body: Seq<Entry>)
    requires
        bounded(entries),
        fits(entries, body),
    ensures
        bounded(spliced(entries, body)),
        text_of(spliced(entries, body)) == text_of(entries) + Seq::new(
            body.len(),
            |i: int| body[i].1,
        ),
{
    reveal(fits);
    let all = spliced(entries, body);
    let n = entries.len();
    assert forall|i: int, j: int| 0 <= i < j < all.len() implies position_lt(
        #[trigger] all[i].0,
        #[trigger] all[j].0,
    ) by {
        if i < n - 1 {
            if j < n - 1 {
                assert(position_lt(entries[i].0, entries[j].0));
            } else {
                let through = entries[n - 2].0;
                let to = all[j].0;
                if j < n - 1 + body.len() {
                    assert(all[j] == body[j - (n - 1)]);
                    assert(position_lt(through, to));
                } else {
                    assert(position_lt(entries[n - 2].0, entries[n - 1].0));
                }
                if i < n - 2 {
                    assert(position_lt(entries[i].0, entries[n - 2].0));
                    lemma_position_lt_transitive(all[i].0, through, to);
                }
            }
        } else {
            assert(all[i] == body[i - (n - 1)]);
            if j < n - 1 + body.len() {
                assert(all[j] == body[j - (n - 1)]);
            }
        }
    }
    assert(text_of(all) =~= text_of(entries) + Seq::new(body.len(), |i: int| body[i].1));
}

/// The paths of a chain that starts at `left` are not much longer than
/// `left` and `right`: each can add one level.
pub proof fn lemma_chain_lengths(left: Seq<u32>, right: Seq<u32>, paths: Seq<Seq<u32>>, i: int)
    requires
        chained(left, right, paths),
        0 <= i < paths.len(),
    ensures
        paths[i].len() <= left.len() + i + 1 || paths[i].len() <= right.len() + i + 1,
    decreases i,
{
    let from = if i == 0 {
        left
    } else {
        paths[i - 1]
    };
    assert(allocated(from, right, 1, paths[i]));
    lemma_allocated_length(from, right, 1, paths[i]);
    if i > 0 {
        lemma_chain_lengths(left, right, paths, i - 1);
    }
}

/// The length of the first of the paths that is too long for a position,
/// where there is one.
pub open spec fn too_long(paths: Seq<Seq<u32>>) -> Option<nat>
    decreases paths.len(),
{
    if paths.len() == 0 {
        None
    } else {
        match too_long(paths.drop_last()) {
            Some(length) => Some(length),
            None => if paths.last().len() > MAX_LEVELS {
                Some(paths.last().len())
            } else {
                None
            },
        }
    }
}

/// Where none of the paths is too long, each fits a position.
pub proof fn lemma_none_too_long(paths: Seq<Seq<u32>>)
    ensures
        too_long(paths) is None <==> forall|i: int|
            0 <= i < paths.len() ==> (#[trigger] paths[i]).len() <= MAX_LEVELS,
        too_long(paths) matches Some(length) ==> length > MAX_LEVELS && exists|i: int|
            0 <= i < paths.len() && (#[trigger] paths[i]).len() == length,
    decreases paths.len(),
{
    if paths.len() > 0 {
        let init = paths.drop_last();
        lemma_none_too_long(init);
        if too_long(init) is None {
            if paths.last().len() <= MAX_LEVELS {
                assert forall|i: int| 0 <= i < paths.len() implies (#[trigger] paths[i]).len()
                    <= MAX_LEVELS by {
                    if i < init.len() {
                        assert(init[i] == paths[i]);
                    }
                }
            } else {
                assert(paths[paths.len() - 1].len() > MAX_LEVELS);
            }
        } else {
            let i = choose|i: int|
                0 <= i < init.len() && (#[trigger] init[i]).len() == too_long(init)->Some_0;
            assert(paths[i] == init[i]);
        }
    }
}

/// The first path that is too long among some of the paths is the first
/// among all of them.
pub proof fn lemma_too_long_stays(paths: Seq<Seq<u32>>, k: int)
    requires
        0 <= k <= paths.len(),
        too_long(paths.take(k)) is Some,
    ensures
        too_long(paths) == too_long(paths.take(k)),
    decreases paths.len() - k,
{
    if k < paths.len() {
        assert(paths.take(k + 1).drop_last() =~= paths.take(k));
        lemma_too_long_stays(paths, k + 1);
    } else {
        assert(paths.take(k) =~= paths);
    }
}

/// What `Storage::extend` does with the clock `clock` in place of the next:
/// the generator makes as many paths as the text has characters, one after
/// the other between the last entry and the closing sentinel, and the
/// characters go in with them unless one is too long.
pub open spec fn after_append(
    view: StorageView,
    generator: GeneratorView,
    text: Seq<char>,
    clock: u16,
) -> (Result<(), PathTooLong>, StorageView, GeneratorView) {
    let (paths, next) = generator.run(
        view.entries[view.entries.len() - 2].0.path,
        last_view().path,
        text.len(),
    );
    match too_long(paths) {
        Some(length) => (Err(PathTooLong(length as usize)), view, next),
        None => (Ok(()), with_body(view, body_of(paths, view.site, clock, text)), next),
    }
}

/// What `Storage::extend` returns and leaves behind, for a store that holds
/// `view` and has the generator `generator`.
pub open spec fn after_extend(view: StorageView, generator: GeneratorView, text: Seq<char>) -> (
    Result<(), PathTooLong>,
    StorageView,
    GeneratorView,
) {
    let (done, next, left) = after_append(view, generator, text, clock_after(view.clock));
    if done is Ok {
        (done, ticked(next), left)
    } else {
        (done, next, left)
    }
}

/// `r` is what `Storage::from` returns for `text` where the new store's
/// generator is `generator` to begin with.
pub open spec fn made_from(
    generator: GeneratorView,
    text: Seq<char>,
    r: Result<Storage, PathTooLong>,
) -> bool {
    let (done, view, next) = after_append(empty_view(), generator, text, 0);
    match r {
        Ok(storage) => done is Ok && storage@ == view && storage.generator() == next,
        Err(e) => done == Err::<(), PathTooLong>(e),
    }
}

/// What a vector of positions and a vector of characters stand for, entry by
/// entry.
pub open spec fn zipped(positions: Seq<Position>, chars: Seq<char>) -> Seq<Entry> {
    Seq::new(chars.len(), |i: int| (positions[i]@, chars[i]))
}

/// Makes a position of `site` at `clock` from each of the paths, or fails at
/// the first path that is too long.
pub fn positions_for(paths: &Vec<Builder>, site: u16, clock: u16) -> (r: Result<
    Vec<Position>,
    PathTooLong,
>)
    ensures
        r is Ok <==> forall|i: int| 0 <= i < paths@.len() ==> (#[trigger] paths@[i])@.len()
            <= MAX_LEVELS,
        r is Ok <==> too_long(digits_of_each(paths@)) is None,
        r matches Err(e) ==> too_long(digits_of_each(paths@)) == Some(e.0 as nat),
        r matches Ok(positions) ==> ({
            &&& positions@.len() == paths@.len()
            &&& forall|i: int|
                0 <= i < paths@.len() ==> (#[trigger] positions@[i])@ == (PositionView {
                    path: paths@[i]@,
                    site,
                    clock,
                })
        }),
        r matches Err(e) ==> exists|i: int|
            0 <= i < paths@.len() && (#[trigger] paths@[i])@.len() == e.0 && e.0 > MAX_LEVELS,
{
    let mut positions: Vec<Position> = Vec::new();
    let mut i: usize = 0;
    let ghost digits = digits_of_each(paths@);
    assert(digits.take(0) =~= Seq::<Seq<u32>>::empty());
    while i < paths.len()
        invariant
            i <= paths@.len(),
            positions@.len() == i,
            digits == digits_of_each(paths@),
            too_long(digits.take(i as int)) is None,
            forall|k: int| 0 <= k < i ==> (#[trigger] paths@[k])@.len() <= MAX_LEVELS,
            forall|k: int|
                0 <= k < i ==> (#[trigger] positions@[k])@ == (PositionView {
                    path: paths@[k]@,
                    site,
                    clock,
                }),
        decreases paths@.len() - i,
    {
        proof {
            assert(digits.take(i + 1).drop_last() =~= digits.take(i as int));
            assert(digits.take(i + 1).last() == paths@[i as int]@);
        }
        match Position::new(site, clock, paths[i].as_slice()) {
            Ok(position) => {
                positions.push(position);
            },
            Err(e) => {
                proof {
                    assert(paths@[i as int]@.len() == e.0);
                    lemma_too_long_stays(digits, i + 1);
                }
                return Err(e);
            },
        }
        i += 1;
    }
    assert(digits.take(i as int) =~= digits);
    Ok(positions)
}

/// The line index of a store ends with the closing sentinel, and so does the
/// line index after a body is put in before it.
proof fn lemma_splice_marks(entries: Seq<Entry>, body: Seq<Entry>)
    requires
        bounded(entries),
    ensures
        newline_index(entries) == newline_index(entries.drop_last()).push(last_view()),
        newline_index(spliced(entries, body)) == newline_index(entries.drop_last() + body).push(
            last_view(),
        ),
{
    let all = spliced(entries, body);
    assert(marks_line(entries.last()));
    assert(all.drop_last() =~= entries.drop_last() + body);
    assert(all.last() == entries.last());
}

/// An entry of a body that fits lies strictly between the sentinels, so that
/// it marks a line only where it holds a line feed.
proof fn lemma_fitting_entry(entries: Seq<Entry>, body: Seq<Entry>, i: int)
    requires
        bounded(entries),
        fits(entries, body),
        0 <= i < body.len(),
    ensures
        marks_line(body[i]) <==> body[i].1 == '\n',
{
    reveal(fits);
    let through = entries[entries.len() - 2].0;
    assert(position_lt(through, body[i].0));
    assert(position_lt(body[i].0, last_view()));
    lemma_first_is_least(through);
    if through != first_view() {
        lemma_position_lt_transitive(first_view(), through, body[i].0);
    }
    lemma_position_lt_asymmetric(first_view(), body[i].0);
    lemma_position_lt_asymmetric(body[i].0, last_view());
}

/// Paths in ascending order between the path of the last entry before the
/// closing sentinel and the path of that sentinel make a body that fits.
pub proof fn lemma_body_fits(
    entries: Seq<Entry>,
    paths: Seq<Seq<u32>>,
    site: u16,
    clock: u16,
    text: Seq<char>,
)
    requires
        bounded(entries),
        paths.len() == text.len(),
        ascending_after(entries[entries.len() - 2].0.path, paths),
        all_before(paths, last_view().path),
    ensures
        fits(entries, body_of(paths, site, clock, text)),
{
    reveal(fits);
    let body = body_of(paths, site, clock, text);
    assert forall|i: int, j: int| 0 <= i < j < body.len() implies position_lt(
        #[trigger] body[i].0,
        #[trigger] body[j].0,
    ) by {
        assert(path_lt(paths[i], paths[j]));
    }
    assert forall|i: int| 0 <= i < body.len() implies position_lt(
        entries[entries.len() - 2].0,
        #[trigger] body[i].0,
    ) by {
        assert(path_lt(entries[entries.len() - 2].0.path, paths[i]));
    }
    assert forall|i: int| 0 <= i < body.len() implies position_lt(
        #[trigger] body[i].0,
        last_view(),
    ) by {
        assert(path_lt(paths[i], last_view().path));
    }
}

/// There is room between the path of any position before the closing
/// sentinel and the path of that sentinel.
pub proof fn lemma_room_before_last(p: PositionView)
    requires
        position_lt(p, last_view()),
    ensures
        has_room(p.path, last_view().path),
{
    reveal(has_room);
    assert(last_view().path[0] == LEVEL0_END);
    if !path_lt(p.path, last_view().path) {
        assert(p.path == last_view().path);
    }
}

/// The number of characters as a number of digits, where level 0 has a
/// digit for each of them, and the failure where it has not.
pub fn level_zero_count(count: usize) -> (r: Result<u32, StringTooLarge>)
    ensures
        r is Err <==> count >= LEVEL0_END,
        r matches Ok(digits) ==> digits == count,
{
    if count >= LEVEL0_END as usize {
        Err(StringTooLarge)
    } else {
        Ok(count as u32)
    }
}

impl Storage {
    /// The characters between the sentinels, in order.
    pub open spec fn text(&self) -> Seq<char> {
        text_of(self@.entries)
    }

    /// Puts the characters at the positions before the closing sentinel.
    #[verifier::rlimit(40)]
    pub(crate) fn splice(&mut self, positions: &Vec<Position>, chars: &Vec<char>)
        requires
            old(self).wf(),
            positions@.len() == chars@.len(),
            fits(old(self)@.entries, zipped(positions@, chars@)),
        ensures
            final(self).wf(),
            final(self)@ == with_body(old(self)@, zipped(positions@, chars@)),
            final(self).allocator() == old(self).allocator(),
            final(self).seed() == old(self).seed(),
            final(self).generator() == old(self).generator(),
    {
        let ghost entries = self@.entries;
        let ghost body = zipped(positions@, chars@);
        let ghost head = entries.drop_last();
        let ghost old_newlines = positions_of(self.newlines@);
        proof {
            lemma_splice_marks(entries, body);
            assert(old_newlines.drop_last() =~= newline_index(head));
        }
        let last_entry = match self.characters.pop() {
            Some(entry) => entry,
            None => (Position::last(), END_OF_TEXT),
        };
        let last_mark = match self.newlines.pop() {
            Some(mark) => mark,
            None => Position::last(),
        };
        assert(entries_of(self.characters@) =~= head + body.take(0));
        assert(positions_of(self.newlines@) =~= old_newlines.drop_last());
        assert((last_entry.0@, last_entry.1) == entries.last());
        assert(last_mark@ == old_newlines.last());
        let mut i: usize = 0;
        while i < chars.len()
            invariant
                i <= chars@.len(),
                positions@.len() == chars@.len(),
                body == zipped(positions@, chars@),
                head == entries.drop_last(),
                bounded(entries),
                fits(entries, body),
                entries_of(self.characters@) == head + body.take(i as int),
                positions_of(self.newlines@) == newline_index(head + body.take(i as int)),
                self.clock == old(self).clock,
                self.site == old(self).site,
                self.algorithm == old(self).algorithm,
            decreases chars@.len() - i,
        {
            let ghost before = self.characters@;
            let ghost marks = self.newlines@;
            let ghost so_far = head + body.take(i as int);
            proof {
                lemma_fitting_entry(entries, body, i as int);
                assert(head + body.take(i + 1) =~= so_far.push(body[i as int]));
                assert(so_far.push(body[i as int]).drop_last() =~= so_far);
            }
            if chars[i] == '\n' {
                self.newlines.push(positions[i].clone());
                assert(positions_of(self.newlines@) =~= positions_of(marks).push(
                    body[i as int].0,
                ));
            }
            self.characters.push((positions[i].clone(), chars[i]));
            assert(entries_of(self.characters@) =~= entries_of(before).push(body[i as int]));
            i += 1;
        }
        let ghost before = entries_of(self.characters@);
        let ghost marks = positions_of(self.newlines@);
        self.characters.push(last_entry);
        self.newlines.push(last_mark);
        proof {
            assert(body.take(body.len() as int) =~= body);
            assert(entries_of(self.characters@) =~= before.push(entries.last()));
            assert(before.push(entries.last()) =~= spliced(entries, body));
            assert(positions_of(self.newlines@) =~= marks.push(last_view()));
            lemma_spliced(entries, body);
        }
    }

    /// Adds the characters of `text` before the closing sentinel, with new
    /// positions of this site at `clock`, and leaves the clock of the store
    /// as it is.
    #[verifier::rlimit(40)]
    fn append_at(&mut self, text: &str, clock: u16) -> (r: Result<(), PathTooLong>)
        requires
            old(self).wf(),
        ensures
            final(self).wf(),
            (r, final(self)@, final(self).generator()) == after_append(
                old(self)@,
                old(self).generator(),
                text@,
                clock,
            ),
            old(self).allocator().extends_to(final(self).allocator()),
            r is Err ==> final(self)@ == old(self)@,
            r matches Err(e) ==> e.0 > MAX_LEVELS && (exists|paths: Seq<Seq<u32>>|
                #[trigger] overlong(old(self)@, text@, paths, e.0) && all_favoured(
                    final(self).allocator(),
                    old(self)@.entries[old(self)@.entries.len() - 2].0.path,
                    last_view().path,
                    paths,
                )),
            r is Ok ==> (exists|paths: Seq<Seq<u32>>|
                #[trigger] appended(old(self)@, text@, paths, clock, final(self)@)
                    && all_favoured(
                    final(self).allocator(),
                    old(self)@.entries[old(self)@.entries.len() - 2].0.path,
                    last_view().path,
                    paths,
                )),
            r is Ok ==> final(self).text() == old(self).text() + text@,
            old(self)@.entries[old(self)@.entries.len() - 2].0.path.len() + text@.len()
                < MAX_LEVELS ==> r is Ok,
    {
        let chars = crate::text::chars_of(text);
        let last = Position::last();
        let ghost entries = self@.entries;
        let ghost left = entries[entries.len() - 2].0;
        proof {
            assert(position_lt(entries[entries.len() - 2].0, entries[entries.len() - 1].0));
            lemma_room_before_last(left);
        }
        let paths = self.algorithm.generate(
            self.characters[self.characters.len() - 2].0.path(),
            last.path(),
            chars.len(),
        );
        let ghost digits = digits_of_each(paths@);
        assert(all_favoured(self.allocator(), left.path, last_view().path, digits));
        proof {
            assert forall|i: int| 0 <= i < paths@.len() && left.path.len() + text@.len()
                < MAX_LEVELS implies (#[trigger] paths@[i])@.len() <= MAX_LEVELS by {
                lemma_chain_lengths(left.path, last_view().path, digits, i);
                assert(digits[i] == paths@[i]@);
            }
        }
        match positions_for(&paths, self.site, clock) {
            Err(e) => {
                proof {
                    let i = choose|i: int|
                        0 <= i < paths@.len() && (#[trigger] paths@[i])@.len() == e.0 && e.0
                            > MAX_LEVELS;
                    assert(digits[i] == paths@[i]@);
                    lemma_overlong(old(self)@, text@, digits, e.0, i);
                    assert(all_favoured(
                        self.allocator(),
                        old(self)@.entries[old(self)@.entries.len() - 2].0.path,
                        last_view().path,
                        digits,
                    ));
                }
                Err(e)
            },
            Ok(positions) => {
                proof {
                    lemma_body_fits(entries, digits, self.site, clock, chars@);
                    assert(zipped(positions@, chars@) =~= body_of(
                        digits,
                        self.site,
                        clock,
                        chars@,
                    ));
                    lemma_spliced(entries, zipped(positions@, chars@));
                }
                self.splice(&positions, &chars);
                proof {
                    assert(appended(old(self)@, text@, digits, clock, self@));
                    assert(Seq::new(
                        zipped(positions@, chars@).len(),
                        |i: int| zipped(positions@, chars@)[i].1,
                    ) =~= text@);
                }
                Ok(())
            },
        }
    }

    /// Adds the characters of `text` at the end, before the closing
    /// sentinel, with new positions of this site that share the next clock.
    /// Their paths are generated one after the other between the last entry
    /// and the sentinel. Where one of them is longer than a position can
    /// hold, nothing is added and the error holds its length; that cannot
    /// happen while the last path and the text together stay within
    /// `MAX_LEVELS`.
    #[verifier::rlimit(40)]
    pub fn extend(&mut self, text: &str) -> (r: Result<(), PathTooLong>)
        requires
            old(self).wf(),
        ensures
            final(self).wf(),
            (r, final(self)@, final(self).generator()) == after_extend(
                old(self)@,
                old(self).generator(),
                text@,
            ),
            old(self).allocator().extends_to(final(self).allocator()),
            r is Err ==> final(self)@ == old(self)@,
            r matches Err(e) ==> e.0 > MAX_LEVELS && (exists|paths: Seq<Seq<u32>>|
                #[trigger] overlong(old(self)@, text@, paths, e.0) && all_favoured(
                    final(self).allocator(),
                    old(self)@.entries[old(self)@.entries.len() - 2].0.path,
                    last_view().path,
                    paths,
                )),
            r is Ok ==> (exists|paths: Seq<Seq<u32>>|
                #[trigger] extended(old(self)@, text@, paths, final(self)@) && all_favoured(
                    final(self).allocator(),
                    old(self)@.entries[old(self)@.entries.len() - 2].0.path,
                    last_view().path,
                    paths,
                )),
            r is Ok ==> final(self).text() == old(self).text() + text@,
            old(self)@.entries[old(self)@.entries.len() - 2].0.path.len() + text@.len()
                < MAX_LEVELS ==> r is Ok,
    {
        let clock = crate::storage::after(self.clock);
        match self.append_at(text, clock) {
            Err(e) => Err(e),
            Ok(()) => {
                let ghost paths = choose|paths: Seq<Seq<u32>>|
                    #[trigger] appended(old(self)@, text@, paths, clock, self@) && all_favoured(
                        self.allocator(),
                        old(self)@.entries[old(self)@.entries.len() - 2].0.path,
                        last_view().path,
                        paths,
                    );
                self.clock = clock;
                assert(extended(old(self)@, text@, paths, self@));
                Ok(())
            },
        }
    }

    /// A store of site 0 with the strategy `Boundaries` at the default limit
    /// that holds the characters of `text`, at positions of clock 0 whose
    /// paths are generated one after the other between the sentinels. The
    /// clock of the store stays 0. It fails where one of the paths is longer
    /// than a position can hold, which cannot happen to a text of fewer than
    /// `MAX_LEVELS` characters.
    #[verifier::rlimit(40)]
    pub fn from(text: &str) -> (r: Result<Storage, PathTooLong>)
        ensures
            exists|generator: GeneratorView|
                generator.allocator == started(Strategy::Boundaries(DEFAULT_LIMIT))
                    && #[trigger] made_from(generator, text@, r),
            r matches Ok(storage) ==> storage.wf() && storage.text() == text@
                && storage.allocator() is Boundaries && storage.allocator().limit()
                == DEFAULT_LIMIT && (exists|paths: Seq<Seq<u32>>|
                #[trigger] appended(empty_view(), text@, paths, 0, storage@) && all_favoured(
                    storage.allocator(),
                    first_view().path,
                    last_view().path,
                    paths,
                )),
            r matches Err(e) ==> e.0 > MAX_LEVELS && (exists|paths: Seq<Seq<u32>>|
                #[trigger] overlong(empty_view(), text@, paths, e.0)),
            text@.len() < MAX_LEVELS ==> r is Ok,
    {
        let mut storage = Storage::default();
        let ghost generator = storage.generator();
        proof {
            reveal(Allocator::extends_to);
            assert(text_of(empty_view().entries) =~= Seq::<char>::empty());
        }
        match storage.append_at(text, 0) {
            Err(e) => {
                proof {
                    assert(made_from(generator, text@, Err::<Storage, PathTooLong>(e)));
                    let paths = choose|paths: Seq<Seq<u32>>|
                        #[trigger] overlong(empty_view(), text@, paths, e.0) && all_favoured(
                            storage.allocator(),
                            empty_view().entries[empty_view().entries.len() - 2].0.path,
                            last_view().path,
                            paths,
                        );
                    assert(overlong(empty_view(), text@, paths, e.0));
                }
                Err(e)
            },
            Ok(()) => {
                proof {
                    let paths = choose|paths: Seq<Seq<u32>>|
                        #[trigger] appended(empty_view(), text@, paths, 0, storage@)
                            && all_favoured(
                            storage.allocator(),
                            empty_view().entries[empty_view().entries.len() - 2].0.path,
                            last_view().path,
                            paths,
                        );
                    assert(empty_view().entries[empty_view().entries.len() - 2].0.path
                        == first_view().path);
                    assert(appended(empty_view(), text@, paths, 0, storage@));
                    assert(all_favoured(
                        storage.allocator(),
                        first_view().path,
                        last_view().path,
                        paths,
                    ));
                    assert(made_from(generator, text@, Ok::<Storage, PathTooLong>(storage)));
                }
                Ok(storage)
            },
        }
    }

    /// A store of site 0 that holds the characters of `text`, at positions
    /// of clock 0 with paths of one digit each, spread evenly over the digits
    /// of level 0. It fails where the text has `LEVEL0_END` characters or
    /// more.
    pub fn sparse(text: &str) -> (r: Result<Storage, StringTooLarge>)
        ensures
            r is Err <==> text@.len() >= LEVEL0_END,
            r matches Ok(storage) ==> storage.wf() && storage.text() == text@ && (exists|
                paths: Seq<Seq<u32>>,
            |
                paths.len() == text@.len() && dealt_out(
                    first_view().path,
                    last_view().path,
                    text@.len() as int,
                    paths,
                ) && #[trigger] with_body(empty_view(), body_of(paths, 0, 0, text@)) == storage@),
    {
        let chars = crate::text::chars_of(text);
        let count = match level_zero_count(chars.len()) {
            Ok(count) => count,
            Err(e) => {
                return Err(e);
            },
        };
        let mut storage = Storage::default();
        let first = Position::first();
        let last = Position::last();
        let paths = generate(count, first.path(), last.path());
        let ghost digits = digits_of_each(paths@);
        let ghost entries = storage@.entries;
        proof {
            lemma_first_before_last();
            lemma_room_before_last(first_view());
            assert forall|i: int| 0 <= i < paths@.len() implies (#[trigger] paths@[i])@.len()
                <= MAX_LEVELS by {
                assert(digits[i] == paths@[i]@);
                lemma_dealt_lengths(
                    first_view().path,
                    last_view().path,
                    chars@.len() as int,
                    digits,
                    i,
                );
            }
        }
        match positions_for(&paths, 0, 0) {
            Err(_) => Err(StringTooLarge),
            Ok(positions) => {
                proof {
                    lemma_body_fits(entries, digits, 0, 0, chars@);
                    assert(zipped(positions@, chars@) =~= body_of(digits, 0, 0, chars@));
                    lemma_spliced(entries, zipped(positions@, chars@));
                    assert(text_of(entries) =~= Seq::<char>::empty());
                    assert(Seq::new(
                        zipped(positions@, chars@).len(),
                        |i: int| zipped(positions@, chars@)[i].1,
                    ) =~= text@);
                }
                storage.splice(&positions, &chars);
                Ok(storage)
            },
        }
    }

    /// A store of site 0 that holds the characters of `text` at positions of
    /// clock 0 with the paths `[1]`, `[2]` and so on, which leave no room
    /// between them. It fails where the text has `LEVEL0_END` characters or
    /// more.
    pub fn dense(text: &str) -> (r: Result<Storage, StringTooLarge>)
        ensures
            r is Err <==> text@.len() >= LEVEL0_END,
            r matches Ok(storage) ==> storage.wf() && storage.text() == text@ && storage@
                == with_body(empty_view(), body_of(dense_paths(text@.len()), 0, 0, text@)),
    {
        let chars = crate::text::chars_of(text);
        if level_zero_count(chars.len()).is_err() {
            return Err(StringTooLarge);
        }
        let mut storage = Storage::default();
        let mut paths: Vec<Builder> = Vec::new();
        let mut digit: u32 = 0;
        assert(digits_of_each(paths@) =~= dense_paths(0));
        while paths.len() < chars.len()
            invariant
                chars@.len() < LEVEL0_END,
                paths@.len() <= chars@.len(),
                digit == paths@.len(),
                digits_of_each(paths@) == dense_paths(paths@.len()),
            decreases chars@.len() - paths@.len(),
        {
            digit += 1;
            let mut path = Builder::from_digits(Position::first().path());
            path.push(digit);
            let ghost before = paths@;
            paths.push(path);
            proof {
                assert(path@ =~= seq![digit]);
                assert forall|i: int| 0 <= i < paths@.len() implies digits_of_each(paths@)[i]
                    == dense_paths(paths@.len())[i] by {
                    if i < before.len() {
                        assert(digits_of_each(before)[i] == dense_paths(before.len())[i]);
                    }
                }
                assert(digits_of_each(paths@) =~= dense_paths(paths@.len()));
            }
        }
        let ghost digits = digits_of_each(paths@);
        let ghost entries = storage@.entries;
        proof {
            lemma_first_before_last();
            assert forall|i: int| 0 <= i < digits.len() implies path_lt(
                first_view().path,
                #[trigger] digits[i],
            ) by {
                lemma_precedes(first_view().path, digits[i], 0);
            }
            assert forall|i: int, j: int| 0 <= i < j < digits.len() implies path_lt(
                #[trigger] digits[i],
                #[trigger] digits[j],
            ) by {
                lemma_precedes(digits[i], digits[j], 0);
            }
            assert forall|i: int| 0 <= i < digits.len() implies path_lt(
                #[trigger] digits[i],
                last_view().path,
            ) by {
                lemma_precedes(digits[i], last_view().path, 0);
            }
            assert forall|i: int| 0 <= i < paths@.len() implies (#[trigger] paths@[i])@.len()
                <= MAX_LEVELS by {
                assert(digits[i] == paths@[i]@);
            }
        }
        match positions_for(&paths, 0, 0) {
            Err(_) => Err(StringTooLarge),
            Ok(positions) => {
                proof {
                    lemma_body_fits(entries, digits, 0, 0, chars@);
                    assert(zipped(positions@, chars@) =~= body_of(digits, 0, 0, chars@));
                    lemma_spliced(entries, zipped(positions@, chars@));
                    assert(text_of(entries) =~= Seq::<char>::empty());
                    assert(Seq::new(
                        zipped(positions@, chars@).len(),
                        |i: int| zipped(positions@, chars@)[i].1,
                    ) =~= text@);
                }
                storage.splice(&positions, &chars);
                Ok(storage)
            },
        }
    }
}

/// `next` is `view` after the replica has added the characters of `text` at
/// the end, at the next clock, with the given paths: a chain that starts at
/// the last entry before the closing sentinel and leads towards that
/// sentinel.
pub open spec fn extended(
    view: StorageView,
    text: Seq<char>,
    paths: Seq<Seq<u32>>,
    next: StorageView,
) -> bool {
    &&& paths.len() == text.len()
    &&& chained(view.entries[view.entries.len() - 2].0.path, last_view().path, paths)
    &&& next == ticked(with_body(view, body_of(paths, view.site, clock_after(view.clock), text)))
}

/// `next` is `view` after the characters of `text` were added at the end with
/// positions of its site at `clock` and the given paths: a chain that starts
/// at the last entry before the closing sentinel and leads towards that
/// sentinel.
pub open spec fn appended(
    view: StorageView,
    text: Seq<char>,
    paths: Seq<Seq<u32>>,
    clock: u16,
    next: StorageView,
) -> bool {
    &&& paths.len() == text.len()
    &&& chained(view.entries[view.entries.len() - 2].0.path, last_view().path, paths)
    &&& next == with_body(view, body_of(paths, view.site, clock, text))
}

/// The characters of `text` were not added to `view`: of the paths, a chain
/// that starts at the last entry before the closing sentinel and leads
/// towards that sentinel, one has `length` digits, more than a position can
/// hold.
#[verifier::opaque]
pub open spec fn overlong(
    view: StorageView,
    text: Seq<char>,
    paths: Seq<Seq<u32>>,
    length: usize,
) -> bool {
    &&& paths.len() == text.len()
    &&& chained(view.entries[view.entries.len() - 2].0.path, last_view().path, paths)
    &&& length > MAX_LEVELS
    &&& exists|i: int| 0 <= i < paths.len() && (#[trigger] paths[i]).len() == length
}

/// A chain with a path that is too long at index `i` is overlong.
proof fn lemma_overlong(
    view: StorageView,
    text: Seq<char>,
    paths: Seq<Seq<u32>>,
    length: usize,
    i: int,
)
    requires
        paths.len() == text.len(),
        chained(view.entries[view.entries.len() - 2].0.path, last_view().path, paths),
        length > MAX_LEVELS,
        0 <= i < paths.len(),
        paths[i].len() == length,
    ensures
        overlong(view, text, paths, length),
{
    reveal(overlong);
}

/// Paths that were dealt out between the sentinels hold one digit each.
pub proof fn lemma_dealt_lengths(
    left: Seq<u32>,
    right: Seq<u32>,
    count: int,
    paths: Seq<Seq<u32>>,
    i: int,
)
    requires
        dealt_out(left, right, count, paths),
        0 <= i < paths.len(),
    ensures
        paths[i].len() <= left.len() + 1 || paths[i].len() <= right.len() + 1,
{
    assert(crate::batch::holds_share(left, right, count, i, paths[i]));
    lemma_allocated_length(left, right, count, paths[i]);
}

} // verus!
