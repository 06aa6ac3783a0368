//! `==` and `<` on positions, by the order of positions.

use vstd::prelude::*;
use core::cmp::Ordering;
use vstd::std_specs::cmp::PartialEqSpecImpl;
use vstd::std_specs::cmp::PartialOrdSpecImpl;
use crate::path::Rank;
use crate::position::{position_lt, Position};

verus! {

impl PartialEq for Position {
    fn eq(&self, other: &Position) -> (r: bool) {
        self.rank(other) == Rank::Same
    }
}

impl PartialEqSpecImpl for Position {
    open spec fn obeys_eq_spec() -> bool {
        true
    }

    open spec fn eq_spec(&self, other: &Position) -> bool {
        self@ == other@
    }
}

impl PartialOrd for Position {
    fn partial_cmp(&self, other: &Position) -> (r: Option<Ordering>) {
        match self.rank(other) {
            Rank::Before => Some(Ordering::Less),
            Rank::Same => Some(Ordering::Equal),
            Rank::After => Some(Ordering::Greater),
        }
    }
}

impl PartialOrdSpecImpl for Position {
    open spec fn obeys_partial_cmp_spec() -> bool {
        true
    }

    open spec fn partial_cmp_spec(&self, other: &Position) -> Option<Ordering> {
        if position_lt(self@, other@) {
            Some(Ordering::Less)
        } else if self@ == other@ {
            Some(Ordering::Equal)
        } else {
            Some(Ordering::Greater)
        }
    }
}

} // verus!
