//! The mailbox, and `CANopen` over `EtherCAT` in it: what a Stream larger than
//! one datagram travels as.
//!
//! A slave's mailbox is two windows of its memory the master writes and reads
//! with ordinary datagrams: a receive mailbox the master writes into and a
//! transmit mailbox it reads the answer from. What goes through them is a
//! six-byte mailbox header naming the protocol and a counter, then that
//! protocol's message; for `CoE` a two-byte header naming the service and then
//! an SDO ([`crate::sdo`]). A download of an object longer than one mailbox is
//! an initiate carrying the first bytes and then segments under a toggle.

use vstd::prelude::*;

use crate::datagram::bytes_of;
use crate::error::Error;
use crate::sdo::{law_sdo_decodes_back, sdo_in, Sdo, SdoView, Window};
use crate::wire::{get_u16, le16, part, put_bytes, put_u16, u16_at};

verus! {

/// Where the master writes: the receive mailbox's offset in a slave.
pub const RECEIVE_MAILBOX: u16 = 0x1000;

/// Where the master reads: the transmit mailbox's offset in a slave.
pub const TRANSMIT_MAILBOX: u16 = 0x1100;

/// The size of either mailbox.
pub const MAILBOX_SIZE: usize = 256;

/// Mailbox header, `CoE` header, and the SDO's eight bytes before data.
pub const INITIATE_OVERHEAD: usize = 6 + 2 + 8;

/// Mailbox header, `CoE` header, and the SDO's one command byte.
pub const SEGMENT_OVERHEAD: usize = 6 + 2 + 1;

/// The data an initiate carries beside its size.
pub const INITIATE_DATA: usize = MAILBOX_SIZE - INITIATE_OVERHEAD;

/// The data a segment carries.
pub const SEGMENT_DATA: usize = MAILBOX_SIZE - SEGMENT_OVERHEAD;

/// What one `CoE` SDO carries of an object: an initiate and a segment stretched
/// to the mailbox, and nothing expedited, for the initiate carries more.
pub open spec fn coe_window() -> Window {
    Window { expedited: 0, initiate: INITIATE_DATA, segment: SEGMENT_DATA }
}

/// What one `CoE` SDO carries of an object.
pub fn coe() -> (window: Window)
    ensures
        window == coe_window(),
{
    Window { expedited: 0, initiate: INITIATE_DATA, segment: SEGMENT_DATA }
}

/// The mailbox type that says `CoE`.
const TYPE_COE: u8 = 3;

/// The `CoE` service of an SDO request.
const SDO_REQUEST: u8 = 2;

/// The `CoE` service of an SDO response.
const SDO_RESPONSE: u8 = 3;

/// One mailbox message: a `CoE` SDO under a counter the slave uses to tell a
/// repeat from a new one.
#[derive(Clone, Debug, PartialEq, Eq)]
pub struct Message {
    pub counter: u8,
    pub sdo: Sdo,
}

/// What a message says.
pub struct MessageView {
    pub counter: u8,
    pub sdo: SdoView,
}

impl View for Message {
    type V = MessageView;

    open spec fn view(&self) -> MessageView {
        MessageView { counter: self.counter, sdo: self.sdo@ }
    }
}

/// What the mailbox header says the length is: the `CoE` header and the body,
/// or zero where sixteen bits cannot say it.
pub open spec fn length_said(body: Seq<u8>) -> int {
    if 2 + body.len() < 0x1_0000 {
        2int + body.len()
    } else {
        0
    }
}

/// The two headers and the body. The mailbox header is the length, a zero
/// station, a zero channel, and a byte with three bits of the counter over the
/// type of `CoE`; the `CoE` header has the service in its top four bits.
pub open spec fn mailbox_bytes(counter: u8, request: bool, body: Seq<u8>) -> Seq<u8> {
    le16(length_said(body)) + seq![0u8, 0u8, 0u8, (3 + 16 * (counter % 8)) as u8] + seq![
        0u8,
        if request {
            0x20u8
        } else {
            0x30u8
        },
    ] + body
}

/// The counter, whether the SDO is a request, and the bytes of the SDO that a
/// mailbox holds, or why it holds none.
#[verifier::opaque]
pub open spec fn mailbox_in(bytes: Seq<u8>) -> Result<(u8, bool, Seq<u8>), Error> {
    let length = u16_at(bytes, 0);
    let service = bytes[7] / 16;
    if bytes.len() < 8 {
        Err(Error::ShortMailbox)
    } else if length < 2 || bytes.len() < 6 + length {
        Err(Error::MailboxPastEnd)
    } else if bytes[5] % 16 != 3 {
        Err(Error::NotCoe)
    } else if service != 2 && service != 3 {
        Err(Error::NotSdo(service))
    } else {
        Ok((bytes[5] / 16, service == 2, bytes.subrange(8, 6 + length)))
    }
}

impl MessageView {
    /// The message as the mailbox holds it.
    pub open spec fn bytes(self) -> Seq<u8> {
        mailbox_bytes(self.counter, self.sdo.is_request(), self.sdo.bytes())
    }

    /// The message as the mailbox holds it, or why its SDO has no wire form.
    pub open spec fn encoded(self) -> Result<Seq<u8>, Error> {
        match self.sdo.encoded() {
            Ok(body) => Ok(self.bytes()),
            Err(e) => Err(e),
        }
    }
}

/// The message a mailbox holds, or why it holds none.
pub open spec fn message_in(bytes: Seq<u8>) -> Result<MessageView, Error> {
    match mailbox_in(bytes) {
        Ok((counter, request, body)) => match sdo_in(body, request) {
            Ok(sdo) => Ok(MessageView { counter, sdo }),
            Err(e) => Err(e),
        },
        Err(e) => Err(e),
    }
}

/// What the message in a result says.
pub open spec fn message_of(r: Result<Message, Error>) -> Result<MessageView, Error> {
    match r {
        Ok(message) => Ok(message@),
        Err(e) => Err(e),
    }
}

/// `body`, the bytes of an SDO, under the two headers.
pub fn wrap(counter: u8, request: bool, body: &[u8]) -> (out: Vec<u8>)
    ensures
        out@ == mailbox_bytes(counter, request, body@),
{
    let service = if request { SDO_REQUEST } else { SDO_RESPONSE };
    let mut out: Vec<u8> = Vec::new();
    put_u16(&mut out, if body.len() < 0x1_0000 - 2 { 2 + body.len() as u16 } else { 0 });
    put_u16(&mut out, 0);
    out.push(0);
    out.push(TYPE_COE + 16 * (counter % 8));
    put_u16(&mut out, 0x1000 * service as u16);
    put_bytes(&mut out, body);
    assert(out@ =~= mailbox_bytes(counter, request, body@));
    out
}

/// The counter, whether the SDO is a request, and the bytes of the SDO.
pub fn unwrap(bytes: &[u8]) -> (r: Result<(u8, bool, Vec<u8>), Error>)
    ensures
        match r {
            Ok((counter, request, body)) => mailbox_in(bytes@) == Ok::<(u8, bool, Seq<u8>), Error>(
                (counter, request, body@),
            ),
            Err(e) => mailbox_in(bytes@) == Err::<(u8, bool, Seq<u8>), Error>(e),
        },
{
    proof {
        reveal(mailbox_in);
    }
    if bytes.len() < 8 {
        return Err(Error::ShortMailbox);
    }
    let length = get_u16(bytes, 0) as usize;
    if length < 2 || bytes.len() - 6 < length {
        return Err(Error::MailboxPastEnd);
    }
    if bytes[5] % 16 != TYPE_COE {
        return Err(Error::NotCoe);
    }
    let counter = bytes[5] / 16;
    let service = (get_u16(bytes, 6) / 0x1000) as u8;
    let request = match service {
        SDO_REQUEST => true,
        SDO_RESPONSE => false,
        other => {
            return Err(Error::NotSdo(other));
        },
    };
    Ok((counter, request, part(bytes, 8, 6 + length)))
}

/// The message that carries `sdo` under `counter`, as the mailbox holds it.
pub fn encode_message(counter: u8, sdo: &Sdo) -> (r: Result<Vec<u8>, Error>)
    ensures
        bytes_of(r) == (MessageView { counter, sdo: sdo@ }).encoded(),
{
    match sdo.encode() {
        Ok(body) => Ok(wrap(counter, sdo.is_request(), body.as_slice())),
        Err(e) => Err(e),
    }
}

impl Message {
    /// The message as the mailbox holds it: header, `CoE` header, SDO; refused
    /// as [`Sdo::encode`] refuses.
    pub fn encode(&self) -> (r: Result<Vec<u8>, Error>)
        ensures
            bytes_of(r) == self@.encoded(),
    {
        encode_message(self.counter, &self.sdo)
    }

    /// The message a mailbox holds. Refused are fewer bytes than the headers, a
    /// length past the end, a protocol that is not `CoE`, a service that is not
    /// an SDO, and what [`Sdo::decode`] refuses.
    pub fn decode(bytes: &[u8]) -> (r: Result<Self, Error>)
        ensures
            message_of(r) == message_in(bytes@),
    {
        match unwrap(bytes) {
            Ok((counter, request, body)) => match Sdo::decode(body.as_slice(), request) {
                Ok(sdo) => Ok(Self { counter, sdo }),
                Err(e) => Err(e),
            },
            Err(e) => Err(e),
        }
    }
}

/// A body that sixteen bits can say the length of is found again under its
/// headers, whatever the rest of the mailbox holds, and so are what kind of SDO
/// it is and the counter's three low bits.
pub proof fn law_unwrap_gives_back_what_was_wrapped(
    counter: u8,
    request: bool,
    body: Seq<u8>,
    rest: Seq<u8>,
)
    requires
        body.len() <= 0xfffd,
    ensures
        mailbox_in(mailbox_bytes(counter, request, body) + rest) == Ok::<
            (u8, bool, Seq<u8>),
            Error,
        >((counter % 8, request, body)),
{
    reveal(mailbox_in);
    let held = mailbox_bytes(counter, request, body);
    let bytes = held + rest;
    let said = le16(length_said(body));
    assert(held.len() == 8 + body.len());
    assert(bytes[0] == said[0] && bytes[1] == said[1]);
    assert(bytes[5] == 3 + 16 * (counter % 8));
    assert(bytes[7] == if request {
        0x20u8
    } else {
        0x30u8
    });
    assert(u16_at(bytes, 0) == 2 + body.len());
    assert(bytes.subrange(8, 8int + body.len()) =~= body) by {
        assert forall|i: int| 0 <= i < body.len() implies #[trigger] bytes[8 + i] == body[i] by {
            assert(bytes[8 + i] == held[8 + i]);
        }
    }
}

/// A message decodes back as it was, whatever the rest of the mailbox holds.
/// The counter has three bits, and the length sixteen.
pub proof fn law_message_decodes_back(message: MessageView, rest: Seq<u8>)
    requires
        message.encoded() is Ok,
        message.counter < 8,
        message.sdo.bytes().len() <= 0xfffd,
    ensures
        message_in(message.bytes() + rest) == Ok::<MessageView, Error>(message),
{
    law_unwrap_gives_back_what_was_wrapped(
        message.counter,
        message.sdo.is_request(),
        message.sdo.bytes(),
        rest,
    );
    law_sdo_decodes_back(message.sdo);
}

} // verus!
