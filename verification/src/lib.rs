//! Streams that are objects in an `EtherCAT` slave's dictionary. One object, an
//! index and a subindex on one station, is one Stream: reading it is a `CoE`
//! upload through the slave's mailbox, writing it a download, and a Stream longer
//! than one mailbox travels as an initiate and segments under a toggle.
//!
//! One frame from the master passes every slave in a ring, each reading and
//! writing its datagrams on the fly and incrementing a working counter to say it
//! did, and comes back. What is here is the datagram and the frame that carries
//! several ([`datagram`]), the mailbox and `CANopen` over it ([`mailbox`],
//! [`sdo`], [`client`]), a master that speaks them ([`transport`], [`poll`],
//! [`call`], [`transfer`], [`stream`]), and [`Slave`] and [`Segment`], a ring of
//! slaves on an in-process link.
//!
//! The origin URI names the link, the station and the object:
//! `ethercat://<link>/0x1001/0x2000/0`. A target is the same, or a bare
//! `0x<station>/0x<index>/<sub>`, or nothing for the configured object
//! ([`target`]).
//!
//! A function states, over the views of the types, what it gives back for every
//! input that its `requires` admits; the proof functions named `law_..` state what
//! holds across functions, the first of them that a read gives back what was
//! written ([`transfer::law_read_gives_back_what_was_written`]). Those in [`laws`]
//! say it in bytes, fields and numbers alone.

use vstd::prelude::*;

pub mod call;
pub mod client;
pub mod datagram;
pub mod error;
pub mod laws;
pub mod link;
pub mod mailbox;
pub mod poll;
pub mod sdo;
pub mod segment;
pub mod slave;
pub mod stream;
pub mod target;
pub mod text;
pub mod transfer;
pub mod transport;
pub mod wire;

pub use datagram::{Command, Datagram};
pub use error::Error;
pub use mailbox::Message;
pub use segment::Segment;
pub use slave::Slave;
pub use stream::Arrived;
pub use transport::{EtherCatTransport, Marks};

verus! {

/// The object a Stream travels as unless a target says otherwise: the first
/// manufacturer-specific index.
pub const STREAM_OBJECT: (u16, u8) = (0x2000, 0);

/// The station the loopback's one slave is configured at.
pub const LOOPBACK_STATION: u16 = 0x1001;

} // verus!
