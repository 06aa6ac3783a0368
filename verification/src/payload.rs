//! The shape in which a position travels between replicas: the site by its
//! 128-bit name, the clock and the digits.

use vstd::prelude::*;
use crate::builder::Builder;
use crate::path::MAX_LEVELS;
use crate::position::{PathTooLong, Position};

verus! {

/// A position as it is sent to other replicas.
pub struct Payload {
    pub site: u128,
    pub clock: u16,
    pub path: Builder,
}

/// What a payload holds.
pub struct PayloadView {
    pub site: u128,
    pub clock: u16,
    pub path: Seq<u32>,
}

impl View for Payload {
    type V = PayloadView;

    open spec fn view(&self) -> PayloadView {
        PayloadView { site: self.site, clock: self.clock, path: self.path@ }
    }
}

impl Payload {
    /// The payload of `pos`, with the name that `uuid` gives for its site.
    pub fn from_position<F: FnOnce(u16) -> u128>(pos: &Position, uuid: F) -> (r: Payload)
        requires
            call_requires(uuid, (pos@.site,)),
        ensures
            call_ensures(uuid, (pos@.site,), r@.site),
            r@.clock == pos@.clock,
            r@.path == pos@.path,
    {
        Payload {
            site: uuid(pos.site_id()),
            clock: pos.clock(),
            path: Builder::from_digits(pos.path()),
        }
    }

    /// The position that the payload stands for, with the site that `site_id`
    /// gives for its name, or the failure of `Position::new` where the path
    /// is too long.
    pub fn into_position<F: FnOnce(u128) -> u16>(self, site_id: F) -> (r: Result<
        Position,
        PathTooLong,
    >)
        requires
            call_requires(site_id, (self@.site,)),
        ensures
            self@.path.len() <= MAX_LEVELS ==> r is Ok,
            r matches Ok(pos) ==> ({
                &&& call_ensures(site_id, (self@.site,), pos@.site)
                &&& pos@.clock == self@.clock
                &&& pos@.path == self@.path
            }),
            self@.path.len() > MAX_LEVELS ==> r == Err::<Position, PathTooLong>(
                PathTooLong(self@.path.len() as usize),
            ),
    {
        let site = site_id(self.site);
        Position::new(site, self.clock, self.path.as_slice())
    }
}

} // verus!
