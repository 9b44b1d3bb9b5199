//! What is refused, and why.

use vstd::prelude::*;

use crate::datagram::{DATAGRAM_DATA_MAX, FRAME_DATA_MAX};
use crate::text::{decimal, hex, put_decimal, put_hex};

verus! {

/// Every reason the library refuses something for.
#[derive(Debug, PartialEq, Eq)]
pub enum Error {
    /// A command code outside the fifteen.
    NoSuchCommand(u8),
    /// This many bytes of data, more than one datagram carries.
    DataTooLong(usize),
    /// A frame with no datagram.
    NoDatagram,
    /// This many bytes of datagrams, more than one frame carries.
    FrameTooLong(usize),
    /// Shorter than an `EtherCAT` header.
    ShortHeader,
    /// An `EtherCAT` header that is not type 1.
    NotTypeOne,
    /// An `EtherCAT` length past the end of the frame.
    LengthPastEnd,
    /// A datagram shorter than its header.
    ShortDatagram,
    /// A datagram length past the end.
    DatagramPastEnd,
    /// A datagram without its working counter.
    NoWorkingCounter,
    /// Bytes after the last datagram.
    TrailingBytes,
    /// A mailbox shorter than its headers.
    ShortMailbox,
    /// A mailbox length past the end.
    MailboxPastEnd,
    /// A mailbox protocol that is not `CoE`.
    NotCoe,
    /// A `CoE` service that is not an SDO.
    NotSdo(u8),
    /// An SDO shorter than its eight bytes.
    ShortSdo,
    /// An SDO command specifier that is none of the five.
    NoSuchSpecifier(u8),
    /// An SDO opening that neither carries its data nor says its size.
    NoSize,
    /// This many bytes to go expedited, where one to four can.
    NotExpedited(usize),
    /// This many bytes, more than the thirty-two bits of an SDO's size say.
    ObjectTooLong(usize),
    /// The slave gave up, with this code.
    Aborted(u32),
    /// The slave answered something else than it was asked.
    OutOfTurn,
    /// The ring did not answer before the deadline.
    NoAnswer,
    /// This station is not on the ring.
    NotOnRing(u16),
    /// This station is in this AL state, which is not operational.
    NotOperational(u16, u16),
    /// The mailbox answer did not come before the deadline.
    NoMailboxAnswer,
    /// A target that names no object.
    BadTarget(String),
}

/// A text as `std` writes it for a programmer: between quotes, with what would
/// not print there escaped.
pub uninterp spec fn debug_quoted(text: Seq<char>) -> Seq<char>;

/// `text` as the `Debug` of `str` in `std` writes it, through `format!`: the same
/// characters give the same quoted text. How each character is escaped is left
/// to `std`.
#[verifier::external_body]
fn quoted(text: &str) -> (r: String)
    ensures
        r@ == debug_quoted(text@),
{
    format!("{text:?}")
}

/// What is said of a target that names no object, given how it is quoted.
pub fn no_object(quoted: &str) -> (r: String)
    ensures
        r@ == quoted@ + " is not 0x<station>/0x<index>/<sub>"@,
{
    let mut out = String::new();
    out.append(quoted);
    out.append(" is not 0x<station>/0x<index>/<sub>");
    assert(out@ =~= quoted@ + " is not 0x<station>/0x<index>/<sub>"@);
    out
}

impl Error {
    /// The reason in words.
    pub open spec fn text(self) -> Seq<char> {
        match self {
            Error::NoSuchCommand(code) => "no EtherCAT command has code "@ + decimal(code as nat),
            Error::DataTooLong(n) => decimal(n as nat) + " bytes is over the "@
                + decimal(DATAGRAM_DATA_MAX as nat) + " one datagram carries"@,
            Error::NoDatagram => "a frame with no datagram"@,
            Error::FrameTooLong(n) => decimal(n as nat) + " bytes of datagrams is over the "@
                + decimal(FRAME_DATA_MAX as nat) + " one frame carries"@,
            Error::ShortHeader => "shorter than an EtherCAT header"@,
            Error::NotTypeOne => "an EtherCAT header that is not type 1"@,
            Error::LengthPastEnd => "an EtherCAT length past the end of the frame"@,
            Error::ShortDatagram => "a datagram shorter than its header"@,
            Error::DatagramPastEnd => "a datagram length past the end"@,
            Error::NoWorkingCounter => "a datagram without its working counter"@,
            Error::TrailingBytes => "bytes after the last datagram"@,
            Error::ShortMailbox => "a mailbox shorter than its headers"@,
            Error::MailboxPastEnd => "a mailbox length past the end"@,
            Error::NotCoe => "a mailbox protocol that is not CoE"@,
            Error::NotSdo(service) => "CoE service "@ + decimal(service as nat) + " is not an SDO"@,
            Error::ShortSdo => "shorter than an SDO"@,
            Error::NoSuchSpecifier(specifier) => "no SDO has command specifier "@
                + decimal(specifier as nat),
            Error::NoSize => "an SDO that neither carries its data nor says its size"@,
            Error::NotExpedited(n) => decimal(n as nat) + " bytes do not go expedited"@,
            Error::ObjectTooLong(n) => decimal(n as nat)
                + " bytes is over what an SDO's size says"@,
            Error::Aborted(code) => "the slave aborted with "@ + hex(code as nat, 8),
            Error::OutOfTurn => "the slave answered out of turn"@,
            Error::NoAnswer => "the ring did not answer before the deadline"@,
            Error::NotOnRing(station) => "station "@
                + hex(station as nat, 4) + " is not on the ring"@,
            Error::NotOperational(station, status) => "station "@
                + hex(station as nat, 4) + " is in AL state "@ + hex(status as nat, 4),
            Error::NoMailboxAnswer => "the mailbox answer did not come before the deadline"@,
            Error::BadTarget(target) => debug_quoted(target@)
                + " is not 0x<station>/0x<index>/<sub>"@,
        }
    }

    /// The reason in words.
    pub fn message(&self) -> (r: String)
        ensures
            r@ == self.text(),
    {
        let mut out = String::new();
        match self {
            Error::NoSuchCommand(code) => {
                out.append("no EtherCAT command has code ");
                put_decimal(&mut out, *code as u64);
            },
            Error::DataTooLong(n) => {
                put_decimal(&mut out, *n as u64);
                out.append(" bytes is over the ");
                put_decimal(&mut out, DATAGRAM_DATA_MAX as u64);
                out.append(" one datagram carries");
            },
            Error::NoDatagram => {
                out.append("a frame with no datagram");
            },
            Error::FrameTooLong(n) => {
                put_decimal(&mut out, *n as u64);
                out.append(" bytes of datagrams is over the ");
                put_decimal(&mut out, FRAME_DATA_MAX as u64);
                out.append(" one frame carries");
            },
            Error::ShortHeader => {
                out.append("shorter than an EtherCAT header");
            },
            Error::NotTypeOne => {
                out.append("an EtherCAT header that is not type 1");
            },
            Error::LengthPastEnd => {
                out.append("an EtherCAT length past the end of the frame");
            },
            Error::ShortDatagram => {
                out.append("a datagram shorter than its header");
            },
            Error::DatagramPastEnd => {
                out.append("a datagram length past the end");
            },
            Error::NoWorkingCounter => {
                out.append("a datagram without its working counter");
            },
            Error::TrailingBytes => {
                out.append("bytes after the last datagram");
            },
            Error::ShortMailbox => {
                out.append("a mailbox shorter than its headers");
            },
            Error::MailboxPastEnd => {
                out.append("a mailbox length past the end");
            },
            Error::NotCoe => {
                out.append("a mailbox protocol that is not CoE");
            },
            Error::NotSdo(service) => {
                out.append("CoE service ");
                put_decimal(&mut out, *service as u64);
                out.append(" is not an SDO");
            },
            Error::ShortSdo => {
                out.append("shorter than an SDO");
            },
            Error::NoSuchSpecifier(specifier) => {
                out.append("no SDO has command specifier ");
                put_decimal(&mut out, *specifier as u64);
            },
            Error::NoSize => {
                out.append("an SDO that neither carries its data nor says its size");
            },
            Error::NotExpedited(n) => {
                put_decimal(&mut out, *n as u64);
                out.append(" bytes do not go expedited");
            },
            Error::ObjectTooLong(n) => {
                put_decimal(&mut out, *n as u64);
                out.append(" bytes is over what an SDO's size says");
            },
            Error::Aborted(code) => {
                out.append("the slave aborted with ");
                put_hex(&mut out, *code as u32, 8);
            },
            Error::OutOfTurn => {
                out.append("the slave answered out of turn");
            },
            Error::NoAnswer => {
                out.append("the ring did not answer before the deadline");
            },
            Error::NotOnRing(station) => {
                out.append("station ");
                put_hex(&mut out, *station as u32, 4);
                out.append(" is not on the ring");
            },
            Error::NotOperational(station, status) => {
                out.append("station ");
                put_hex(&mut out, *station as u32, 4);
                out.append(" is in AL state ");
                put_hex(&mut out, *status as u32, 4);
            },
            Error::NoMailboxAnswer => {
                out.append("the mailbox answer did not come before the deadline");
            },
            Error::BadTarget(target) => {
                let target = quoted(target.as_str());
                return no_object(target.as_str());
            },
        }
        assert(out@ =~= self.text());
        out
    }
}

} // verus!
