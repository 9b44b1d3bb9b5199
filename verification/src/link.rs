//! What the carrier carries: one Ethernet frame between two addresses.

use vstd::prelude::*;

verus! {

/// An Ethernet address.
#[derive(Clone, Copy, Debug, PartialEq, Eq)]
pub struct Mac(pub [u8; 6]);

/// The address everyone listens to.
pub open spec fn broadcast() -> Mac {
    Mac([0xffu8, 0xffu8, 0xffu8, 0xffu8, 0xffu8, 0xffu8])
}

impl Mac {
    /// The address everyone listens to.
    #[must_use]
    pub fn broadcast() -> (mac: Mac)
        ensures
            mac == broadcast(),
    {
        Mac([0xff, 0xff, 0xff, 0xff, 0xff, 0xff])
    }
}

/// One Ethernet frame.
#[derive(Clone, Debug, PartialEq, Eq)]
pub struct Frame {
    pub destination: Mac,
    pub source: Mac,
    pub ethertype: u16,
    pub payload: Vec<u8>,
}

/// What a frame says.
#[verifier::ext_equal]
pub struct FrameView {
    pub destination: Mac,
    pub source: Mac,
    pub ethertype: u16,
    pub payload: Seq<u8>,
}

impl View for Frame {
    type V = FrameView;

    open spec fn view(&self) -> FrameView {
        FrameView {
            destination: self.destination,
            source: self.source,
            ethertype: self.ethertype,
            payload: self.payload@,
        }
    }
}

} // verus!
