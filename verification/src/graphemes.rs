//! Grapheme clusters: the positions at which the user-perceived characters
//! of a store begin. The text is fed character by character into a small
//! buffer, which is cut wherever it comes to hold more than one cluster.

use vstd::prelude::*;
use unicode_segmentation::UnicodeSegmentation;
use crate::entries::Entry;
use crate::position::{Position, PositionView};
use crate::ranges::{entry_in, lemma_filter_step, pairs_of, windows, Span, SpanView};
use crate::ranges::neighbours;
use crate::storage::{entries_of, positions_of, Storage};
use crate::text::string_of;

verus! {

/// The byte offsets at which the extended grapheme clusters of a text begin
/// in its UTF-8 form, in order.
pub uninterp spec fn grapheme_offsets(text: Seq<char>) -> Seq<usize>;

/// `unicode_segmentation::UnicodeSegmentation::grapheme_indices` for extended
/// clusters: the byte offset of each cluster of the text, in order.
#[verifier::external_body]
fn grapheme_starts(text: &str) -> (offsets: Vec<usize>)
    ensures
        offsets@ == grapheme_offsets(text@),
{
    text.grapheme_indices(true).map(|(offset, _)| offset).collect()
}

/// The number of bytes of a character in UTF-8.
pub open spec fn utf8_len_of(ch: char) -> nat {
    if (ch as u32) < 0x80 {
        1
    } else if (ch as u32) < 0x800 {
        2
    } else if (ch as u32) < 0x1_0000 {
        3
    } else {
        4
    }
}

/// The number of characters at the start of `text` that it takes to fill
/// `bytes` bytes of its UTF-8 form: all of them where the text is shorter.
pub open spec fn chars_up_to(text: Seq<char>, bytes: nat) -> nat
    decreases text.len(),
{
    if bytes == 0 || text.len() == 0 {
        0
    } else {
        1 + chars_up_to(
            text.drop_first(),
            if bytes > utf8_len_of(text[0]) {
                (bytes - utf8_len_of(text[0])) as nat
            } else {
                0
            },
        )
    }
}

/// The number of characters of the first cluster of `buffer`, where the
/// clusters begin at `offsets` and there are two or more.
pub open spec fn first_cluster_of(buffer: Seq<char>, offsets: Seq<usize>) -> Option<nat> {
    if offsets.len() >= 2 {
        Some(chars_up_to(buffer, offsets[1] as nat))
    } else {
        None
    }
}

/// The number of characters of the first cluster of `buffer`, where it holds
/// two clusters or more.
pub open spec fn first_cluster(buffer: Seq<char>) -> Option<nat> {
    first_cluster_of(buffer, grapheme_offsets(buffer))
}

/// The positions at which clusters begin when the entries are read into
/// `buffer` one by one: the first entry read into an empty buffer, and
/// every entry with which the buffer comes to hold a second cluster. The
/// first cluster is then cut off the buffer.
pub open spec fn cluster_starts(entries: Seq<Entry>, buffer: Seq<char>) -> Seq<PositionView>
    decreases entries.len(),
{
    if entries.len() == 0 {
        Seq::empty()
    } else if buffer.len() == 0 {
        seq![entries[0].0] + cluster_starts(entries.drop_first(), seq![entries[0].1])
    } else {
        match first_cluster(buffer.push(entries[0].1)) {
            Some(cut) => seq![entries[0].0] + cluster_starts(
                entries.drop_first(),
                buffer.push(entries[0].1).skip(cut as int),
            ),
            None => cluster_starts(entries.drop_first(), buffer.push(entries[0].1)),
        }
    }
}

/// The entries that are read for the clusters of a span: those within it,
/// without the first where the span is open at the start. The last is kept:
/// it closes the last cluster.
pub open spec fn read_for_clusters(entries: Seq<Entry>, span: SpanView) -> Seq<Entry> {
    let within = entries.filter(entry_in(span));
    if span.start is Unbounded && within.len() > 0 {
        within.drop_first()
    } else {
        within
    }
}

/// The number of bytes of a character in UTF-8.
pub fn utf8_len(ch: char) -> (len: usize)
    ensures
        len == utf8_len_of(ch),
{
    let code = ch as u32;
    if code < 0x80 {
        1
    } else if code < 0x800 {
        2
    } else if code < 0x1_0000 {
        3
    } else {
        4
    }
}

/// Counts the characters at the start of `text` that it takes to fill
/// `bytes` bytes of its UTF-8 form.
pub fn count_chars(text: &Vec<char>, bytes: usize) -> (count: usize)
    ensures
        count == chars_up_to(text@, bytes as nat),
        count <= text@.len(),
{
    let mut count: usize = 0;
    let mut left: usize = bytes;
    assert(text@.skip(0) =~= text@);
    while count < text.len() && left > 0
        invariant
            count <= text@.len(),
            chars_up_to(text@, bytes as nat) == count + chars_up_to(
                text@.skip(count as int),
                left as nat,
            ),
        decreases text@.len() - count,
    {
        let len = utf8_len(text[count]);
        assert(text@.skip(count as int).drop_first() =~= text@.skip(count + 1));
        left = if left > len {
            left - len
        } else {
            0
        };
        count += 1;
    }
    count
}

/// The number of characters of the first cluster of `buffer`, where its
/// clusters begin at the byte offsets `offsets` and there are two or more.
pub fn cluster_length(buffer: &Vec<char>, offsets: &Vec<usize>) -> (r: Option<usize>)
    ensures
        r is Some <==> offsets@.len() >= 2,
        (match r {
            Some(cut) => first_cluster_of(buffer@, offsets@) == Some(cut as nat) && cut
                <= buffer@.len(),
            None => first_cluster_of(buffer@, offsets@) is None,
        }),
{
    if offsets.len() >= 2 {
        Some(count_chars(buffer, offsets[1]))
    } else {
        None
    }
}

/// The characters of `buffer` from index `cut` on.
pub fn cut_front(buffer: &Vec<char>, cut: usize) -> (rest: Vec<char>)
    requires
        cut <= buffer@.len(),
    ensures
        rest@ == buffer@.skip(cut as int),
{
    let mut rest: Vec<char> = Vec::new();
    let mut i: usize = cut;
    while i < buffer.len()
        invariant
            cut <= i <= buffer@.len(),
            rest@ == buffer@.subrange(cut as int, i as int),
        decreases buffer@.len() - i,
    {
        rest.push(buffer[i]);
        assert(rest@ =~= buffer@.subrange(cut as int, i + 1));
        i += 1;
    }
    assert(rest@ =~= buffer@.skip(cut as int));
    rest
}

impl Storage {
    /// The grapheme clusters within the span: for each, the position at
    /// which it begins and the position at which the next begins. Where the
    /// span is open at the end, the last cluster ends at the closing
    /// sentinel.
    pub fn graphemes(&self, span: &Span) -> (r: Vec<(Position, Position)>)
        ensures
            pairs_of(r@) == windows(
                cluster_starts(read_for_clusters(self@.entries, span@), Seq::empty()),
            ),
    {
        let ghost entries = self@.entries;
        let ghost pred = entry_in(span@);
        let mut read: Vec<(Position, char)> = Vec::new();
        let mut i: usize = 0;
        proof {
            reveal(Seq::filter);
            assert(entries.take(0) =~= Seq::<Entry>::empty());
            assert(entries_of(read@) =~= entries.take(0).filter(pred));
        }
        while i < self.characters.len()
            invariant
                i <= self.characters@.len(),
                entries == entries_of(self.characters@),
                pred == entry_in(span@),
                entries_of(read@) == entries.take(i as int).filter(pred),
            decreases self.characters@.len() - i,
        {
            proof {
                lemma_filter_step(entries, pred, i as int);
            }
            if span.covers(&self.characters[i].0) {
                let ghost before = read@;
                read.push((self.characters[i].0.clone(), self.characters[i].1));
                assert(entries_of(read@) =~= entries_of(before).push(entries[i as int]));
            }
            i += 1;
        }
        assert(entries.take(i as int) =~= entries);
        if span.open_start() && read.len() > 0 {
            let ghost before = read@;
            read.remove(0);
            assert(entries_of(read@) =~= entries_of(before).drop_first());
        }
        let starts = cluster_positions(&read);
        neighbours(&starts)
    }
}

/// Reads the entries into a buffer one by one and returns the positions at
/// which clusters begin.
pub fn cluster_positions(read: &Vec<(Position, char)>) -> (starts: Vec<Position>)
    ensures
        positions_of(starts@) == cluster_starts(entries_of(read@), Seq::empty()),
{
    let ghost source = entries_of(read@);
    let mut starts: Vec<Position> = Vec::new();
    let mut buffer: Vec<char> = Vec::new();
    let mut i: usize = 0;
    proof {
        assert(source.skip(0) =~= source);
        assert(positions_of(starts@) + cluster_starts(source.skip(0), buffer@) =~= cluster_starts(
            source,
            Seq::empty(),
        ));
    }
    while i < read.len()
        invariant
            i <= read@.len(),
            source == entries_of(read@),
            cluster_starts(source, Seq::empty()) == positions_of(starts@) + cluster_starts(
                source.skip(i as int),
                buffer@,
            ),
        decreases read@.len() - i,
    {
        let ghost rest = source.skip(i as int);
        let ghost found = positions_of(starts@);
        let ghost held = buffer@;
        proof {
            assert(rest.drop_first() =~= source.skip(i + 1));
            assert(rest[0] == source[i as int]);
        }
        let ghost before = starts@;
        if buffer.len() == 0 {
            buffer.push(read[i].1);
            starts.push(read[i].0.clone());
            proof {
                assert(buffer@ =~= seq![rest[0].1]);
                assert(positions_of(starts@) =~= found + seq![rest[0].0]);
                assert(found + (seq![rest[0].0] + cluster_starts(rest.drop_first(), buffer@))
                    =~= (found + seq![rest[0].0]) + cluster_starts(rest.drop_first(), buffer@));
            }
        } else {
            buffer.push(read[i].1);
            let text = string_of(&buffer);
            let offsets = grapheme_starts(text.as_str());
            match cluster_length(&buffer, &offsets) {
                Some(cut) => {
                    let ghost grown = buffer@;
                    buffer = cut_front(&buffer, cut);
                    starts.push(read[i].0.clone());
                    proof {
                        assert(grown == held.push(rest[0].1));
                        assert(first_cluster(grown) == Some(cut as nat));
                        assert(positions_of(starts@) =~= found + seq![rest[0].0]);
                        assert(found + (seq![rest[0].0] + cluster_starts(
                            rest.drop_first(),
                            buffer@,
                        )) =~= (found + seq![rest[0].0]) + cluster_starts(
                            rest.drop_first(),
                            buffer@,
                        ));
                    }
                },
                None => {
                    proof {
                        assert(buffer@ == held.push(rest[0].1));
                        assert(first_cluster(buffer@) is None);
                    }
                },
            }
        }
        i += 1;
    }
    proof {
        assert(source.skip(i as int) =~= Seq::<Entry>::empty());
        assert(positions_of(starts@) + Seq::<PositionView>::empty() =~= positions_of(starts@));
    }
    starts
}

} // verus!
