//! Positions: a path together with the site that made it and that site's
//! clock at the time. Positions are totally ordered by path, then site, then
//! clock, and never change once made.
//!
//! A `Position` keeps its digits behind a pointer, whatever their number.
//! Most positions are short, though, and those of up to three digits would
//! fit a packed form of sixteen bytes that holds site, clock and digits side
//! by side and keeps the leading digit `0xFFFF_FFFF` as the tag of all
//! others. `is_inline` reports whether the path would fit that form, and
//! `is_heap` whether it would spill: because it is longer, or because it
//! begins with the tag.

use vstd::prelude::*;
use vstd::slice::slice_to_vec;
use crate::path::{compare, path_lt, Rank, LEVEL0_END, MAX_LEVELS};
use crate::path::{lemma_path_lt_asymmetric, lemma_path_lt_transitive, lemma_path_trichotomy};

verus! {

/// The most digits of a path that would fit the packed form.
pub const INLINE: usize = 3;

/// The leading digit that the packed form would keep for its tag.
pub const HEAP_TAG: u32 = 0xFFFF_FFFF;

/// What a position is: its path, and the site and clock that made it.
#[verifier::ext_equal]
pub struct PositionView {
    pub path: Seq<u32>,
    pub site: u16,
    pub clock: u16,
}

/// The identifier of one character. The value is sixteen bytes wide: the
/// site, the clock and a pointer to the digits, which it owns.
#[derive(Debug, Eq, Ord, Hash)]
pub struct Position {
    digits: Box<Vec<u32>>,
    site: u16,
    clock: u16,
}

/// The path was longer than `MAX_LEVELS`; the field is its length.
#[derive(Clone, Copy, Debug, PartialEq, Eq, Structural)]
pub struct PathTooLong(pub usize);

/// The strict order on positions: by path, then by site, then by clock.
pub open spec fn position_lt(p: PositionView, q: PositionView) -> bool {
    ||| path_lt(p.path, q.path)
    ||| p.path == q.path && p.site < q.site
    ||| p.path == q.path && p.site == q.site && p.clock < q.clock
}

/// `position_lt` or equal.
pub open spec fn position_le(p: PositionView, q: PositionView) -> bool {
    p == q || position_lt(p, q)
}

/// The opening sentinel: the empty path of site 0 at clock 0.
pub open spec fn first_view() -> PositionView {
    PositionView { path: Seq::empty(), site: 0, clock: 0 }
}

/// The closing sentinel: the path `[LEVEL0_END]` of site 0 at clock 0.
pub open spec fn last_view() -> PositionView {
    PositionView { path: seq![LEVEL0_END], site: 0, clock: 0 }
}

/// Whether a path would not fit the packed form: it has more than `INLINE`
/// digits, or its leading digit is the tag.
pub open spec fn spills(path: Seq<u32>) -> bool {
    path.len() > INLINE || (path.len() > 0 && path[0] == HEAP_TAG)
}

impl View for Position {
    type V = PositionView;

    closed spec fn view(&self) -> PositionView {
        PositionView { path: self.digits@, site: self.site, clock: self.clock }
    }
}

impl Position {
    #[verifier::type_invariant]
    spec fn within_limit(self) -> bool {
        self.digits@.len() <= MAX_LEVELS
    }

    /// Makes the position of `site` at `clock` with the digits of `path`, or
    /// fails where the path has more than `MAX_LEVELS` digits.
    pub fn new(site: u16, clock: u16, path: &[u32]) -> (r: Result<Position, PathTooLong>)
        ensures
            path@.len() <= MAX_LEVELS ==> r is Ok && r->Ok_0@ == (PositionView {
                path: path@,
                site,
                clock,
            }),
            path@.len() > MAX_LEVELS ==> r == Err::<Position, PathTooLong>(
                PathTooLong(path.len()),
            ),
    {
        if path.len() > MAX_LEVELS {
            return Err(PathTooLong(path.len()));
        }
        Ok(Position { digits: Box::new(slice_to_vec(path)), site, clock })
    }

    /// The opening sentinel, which comes before every other position.
    pub fn first() -> (r: Position)
        ensures
            r@ == first_view(),
    {
        Position { digits: Box::new(Vec::new()), site: 0, clock: 0 }
    }

    /// The closing sentinel.
    pub fn last() -> (r: Position)
        ensures
            r@ == last_view(),
    {
        let mut digits: Vec<u32> = Vec::new();
        digits.push(LEVEL0_END);
        assert(digits@ =~= seq![LEVEL0_END]);
        Position { digits: Box::new(digits), site: 0, clock: 0 }
    }

    /// The exclusive upper bound of the digits at level 0: the digit of the
    /// closing sentinel.
    pub fn level_one_end_bound() -> (r: u32)
        ensures
            r == LEVEL0_END,
    {
        LEVEL0_END
    }

    /// The exclusive upper bound of the digits at `level` where no neighbour
    /// bounds them: `LEVEL0_END` at level 0, and the largest digit below.
    pub fn end_bound(level: usize) -> (r: u32)
        ensures
            r == (if level == 0 {
                LEVEL0_END
            } else {
                u32::MAX
            }),
    {
        if level == 0 {
            LEVEL0_END
        } else {
            u32::MAX
        }
    }

    /// The site that made this position.
    pub fn site_id(&self) -> (r: u16)
        ensures
            r == self@.site,
    {
        self.site
    }

    /// The clock of the site when it made this position.
    pub fn clock(&self) -> (r: u16)
        ensures
            r == self@.clock,
    {
        self.clock
    }

    /// The number of digits of the path.
    pub fn level(&self) -> (r: usize)
        ensures
            r == self@.path.len(),
            r <= MAX_LEVELS,
    {
        proof {
            use_type_invariant(self);
        }
        self.digits.len()
    }

    /// The digits of the path.
    pub fn path(&self) -> (r: &[u32])
        ensures
            r@ == self@.path,
            r@.len() <= MAX_LEVELS,
    {
        proof {
            use_type_invariant(self);
        }
        self.digits.as_slice()
    }

    /// Whether the path would not fit the packed form of three digits. It
    /// says nothing of where the digits lie: they are always kept behind a
    /// pointer.
    pub fn is_heap(&self) -> (r: bool)
        ensures
            r == spills(self@.path),
    {
        self.digits.len() > INLINE || (self.digits.len() > 0 && self.digits[0] == HEAP_TAG)
    }

    /// Whether the path would fit the packed form of three digits.
    pub fn is_inline(&self) -> (r: bool)
        ensures
            r == !spills(self@.path),
    {
        !self.is_heap()
    }

    /// How this position stands to `other` in the order of positions.
    pub fn rank(&self, other: &Position) -> (r: Rank)
        ensures
            r == Rank::Before <==> position_lt(self@, other@),
            r == Rank::Same <==> self@ == other@,
            r == Rank::After <==> position_lt(other@, self@),
    {
        proof {
            lemma_position_trichotomy(self@, other@);
            if position_lt(self@, other@) {
                lemma_position_lt_asymmetric(self@, other@);
            }
            if position_lt(other@, self@) {
                lemma_position_lt_asymmetric(other@, self@);
            }
        }
        match compare(self.digits.as_slice(), other.digits.as_slice()) {
            Rank::Before => Rank::Before,
            Rank::After => Rank::After,
            Rank::Same => {
                if self.site < other.site {
                    Rank::Before
                } else if self.site > other.site {
                    Rank::After
                } else if self.clock < other.clock {
                    Rank::Before
                } else if self.clock > other.clock {
                    Rank::After
                } else {
                    assert(self@ =~= other@);
                    Rank::Same
                }
            }
        }
    }
}

impl Clone for Position {
    /// A copy with digits of its own.
    fn clone(&self) -> (r: Position)
        ensures
            r@ == self@,
    {
        proof {
            use_type_invariant(self);
        }
        Position {
            digits: Box::new(slice_to_vec(self.digits.as_slice())),
            site: self.site,
            clock: self.clock,
        }
    }
}

/// No position comes before itself, and of two positions at most one comes
/// before the other.
pub proof fn lemma_position_lt_asymmetric(p: PositionView, q: PositionView)
    requires
        position_lt(p, q),
    ensures
        !position_lt(q, p),
        p != q,
{
    if path_lt(p.path, q.path) {
        lemma_path_lt_asymmetric(p.path, q.path);
    }
    if path_lt(q.path, p.path) {
        lemma_path_lt_asymmetric(q.path, p.path);
    }
}

/// The order on positions is transitive.
pub proof fn lemma_position_lt_transitive(p: PositionView, q: PositionView, r: PositionView)
    requires
        position_lt(p, q),
        position_lt(q, r),
    ensures
        position_lt(p, r),
{
    if path_lt(p.path, q.path) && path_lt(q.path, r.path) {
        lemma_path_lt_transitive(p.path, q.path, r.path);
    }
}

/// Any two positions are equal or one comes before the other.
pub proof fn lemma_position_trichotomy(p: PositionView, q: PositionView)
    ensures
        position_lt(p, q) || p == q || position_lt(q, p),
{
    lemma_path_trichotomy(p.path, q.path);
    if p.path == q.path && p.site == q.site && p.clock == q.clock {
        assert(p =~= q);
    }
}

/// The opening sentinel comes before every other position.
pub proof fn lemma_first_is_least(p: PositionView)
    ensures
        position_le(first_view(), p),
{
    lemma_position_trichotomy(first_view(), p);
    if position_lt(p, first_view()) {
        if path_lt(p.path, first_view().path) {
            let k = crate::path::lemma_path_lt_level(p.path, first_view().path);
        } else {
            assert(p.path =~= first_view().path);
        }
    }
}

/// The opening sentinel comes before the closing sentinel.
pub proof fn lemma_first_before_last()
    ensures
        position_lt(first_view(), last_view()),
        first_view() != last_view(),
{
    crate::path::lemma_precedes(first_view().path, last_view().path, 0);
    lemma_position_lt_asymmetric(first_view(), last_view());
}

/// Both sentinels would fit the packed form.
pub proof fn lemma_sentinels_packed()
    ensures
        !spills(first_view().path),
        !spills(last_view().path),
{
}

/// A path that begins with the tag spills, however short it is.
pub proof fn lemma_tag_spills(path: Seq<u32>)
    requires
        path.len() > 0,
        path[0] == HEAP_TAG,
    ensures
        spills(path),
{
}

/// The path of a position before the closing sentinel begins with a digit
/// below `LEVEL0_END`, and so never with the tag: it spills only where it
/// has more than `INLINE` digits.
pub proof fn lemma_leading_digit(p: PositionView)
    requires
        position_lt(p, last_view()),
        p.path.len() > 0,
    ensures
        p.path[0] < LEVEL0_END,
        spills(p.path) <==> p.path.len() > INLINE,
{
    if path_lt(p.path, last_view().path) {
        let k = crate::path::lemma_path_lt_level(p.path, last_view().path);
    }
}

} // verus!
