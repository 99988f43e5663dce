//! What a node offers to others.
use vstd::prelude::*;

verus! {

/// A set of flags, one bit each.
#[derive(Clone, Copy, Debug, PartialEq, Eq, Structural)]
pub struct Capabilities {
    pub bits: u8,
}

impl Default for Capabilities {
    /// No flag.
    fn default() -> (r: Self)
        ensures
            r.bits == 0,
    {
        Capabilities { bits: 0 }
    }
}

impl Capabilities {
    /// The node relays for others.
    pub const RELAY_CAPABLE: u8 = 0x01;

    /// The node listens for WebSocket connections.
    pub const WS_LISTENER: u8 = 0x02;

    /// The node takes inbound IPv6 connections.
    pub const IPV6_INBOUND: u8 = 0x04;

    /// No flag.
    pub fn new() -> (r: Self)
        ensures
            r.bits == 0,
    {
        Capabilities { bits: 0 }
    }

    /// These flags and those of `flag`.
    pub fn with(self, flag: u8) -> (r: Self)
        ensures
            r.bits == self.bits | flag,
    {
        Capabilities { bits: self.bits | flag }
    }

    /// Whether any of the bits of `flag` is set.
    pub fn has(self, flag: u8) -> (r: bool)
        ensures
            r == (self.bits & flag != 0),
    {
        self.bits & flag != 0
    }

    /// Sets or clears the bits of `flag` and leaves the others.
    pub fn set(&mut self, flag: u8, enabled: bool)
        ensures
            final(self).bits == if enabled {
                old(self).bits | flag
            } else {
                old(self).bits & !flag
            },
    {
        if enabled {
            self.bits = self.bits | flag;
        } else {
            self.bits = self.bits & !flag;
        }
    }
}

/// A flag that was set is there, and any disjoint flag is as it was.
pub proof fn law_flag_set(bits: u8, flag: u8, other: u8)
    requires
        flag != 0,
        flag & other == 0,
    ensures
        (bits | flag) & flag != 0,
        ((bits | flag) & other != 0) == (bits & other != 0),
{
    assert((bits | flag) & flag != 0) by (bit_vector)
        requires
            flag != 0,
    ;
    assert(((bits | flag) & other != 0) == (bits & other != 0)) by (bit_vector)
        requires
            flag & other == 0,
    ;
}

/// A flag that was cleared is not there, and any disjoint flag is as it was.
pub proof fn law_flag_cleared(bits: u8, flag: u8, other: u8)
    requires
        flag & other == 0,
    ensures
        (bits & !flag) & flag == 0,
        ((bits & !flag) & other != 0) == (bits & other != 0),
{
    assert((bits & !flag) & flag == 0) by (bit_vector);
    assert(((bits & !flag) & other != 0) == (bits & other != 0)) by (bit_vector)
        requires
            flag & other == 0,
    ;
}

} // verus!
