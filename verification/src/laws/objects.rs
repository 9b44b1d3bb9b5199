//! Service data objects and the mailbox that holds them.

use vstd::prelude::*;

use crate::mailbox::{coe, encode_message, mailbox_in, unwrap, wrap};
use crate::sdo::{sdo_in, Opening, Sdo, SdoView, Window};
use crate::{Error, Message};

verus! {

/// True where `bytes` begin with `first` and the address of an object.
pub open spec fn is_about(bytes: Seq<u8>, first: int, index: u16, subindex: u8) -> bool {
    &&& bytes.len() >= 8
    &&& bytes[0] == first
    &&& bytes[1] + 256 * bytes[2] == index
    &&& bytes[3] == subindex
}

/// True where `bytes` are zero from `at` on.
pub open spec fn ends_in_zeros(bytes: Seq<u8>, at: int) -> bool {
    forall|i: int| at <= i < bytes.len() ==> #[trigger] bytes[i] == 0
}

/// An opening that carries an object whole says in its first byte how many of its
/// four bytes are not the object's; fewer than one byte or more than four it does
/// not carry.
pub proof fn law_a_small_object_is_carried_whole(
    sdo: &Sdo,
    index: u16,
    subindex: u8,
    data: Vec<u8>,
    r: Result<Vec<u8>, Error>,
)
    requires
        call_ensures(Sdo::encode, (sdo,), r),
        ({
            ||| *sdo == Sdo::InitiateDownload {
                index,
                subindex,
                opening: Opening::Expedited { data },
            }
            ||| *sdo == Sdo::UploadOpened { index, subindex, opening: Opening::Expedited { data } }
        }),
    ensures
        data@.len() == 0 || data@.len() > 4 ==> r == Err::<Vec<u8>, Error>(
            Error::NotExpedited(data.len()),
        ),
        1 <= data@.len() <= 4 ==> r is Ok,
        r matches Ok(bytes) ==> {
            &&& bytes@.len() == 8
            &&& is_about(
                bytes@,
                if *sdo is InitiateDownload {
                    0x20int
                } else {
                    0x40
                } + 3 + 4 * (4 - data@.len()),
                index,
                subindex,
            )
            &&& forall|i: int| 0 <= i < data@.len() ==> bytes@[4 + i] == #[trigger] data@[i]
            &&& ends_in_zeros(bytes@, 4 + data@.len() as int)
        },
{
    reveal(SdoView::bytes);
}

/// An opening that carries the size of an object and its first bytes has the size
/// before them.
pub proof fn law_an_object_is_opened_by_its_size(
    sdo: &Sdo,
    index: u16,
    subindex: u8,
    size: u32,
    data: Vec<u8>,
    r: Result<Vec<u8>, Error>,
)
    requires
        call_ensures(Sdo::encode, (sdo,), r),
        ({
            ||| *sdo == Sdo::InitiateDownload {
                index,
                subindex,
                opening: Opening::Sized { size, data },
            }
            ||| *sdo == Sdo::UploadOpened {
                index,
                subindex,
                opening: Opening::Sized { size, data },
            }
        }),
    ensures
        r matches Ok(bytes) && {
            &&& bytes@.len() == 8 + data@.len()
            &&& is_about(
                bytes@,
                if *sdo is InitiateDownload {
                    0x21int
                } else {
                    0x41
                },
                index,
                subindex,
            )
            &&& bytes@[4] + 0x100 * bytes@[5] + 0x1_0000 * bytes@[6] + 0x100_0000 * bytes@[7]
                == size
            &&& bytes@.skip(8) == data@
        },
{
    reveal(SdoView::bytes);
    let bytes = r.unwrap()@;
    assert(bytes.skip(8) =~= data@);
}

/// A segment has its toggle, whether it is the last, and how many of its first
/// seven bytes are filled up, in its first byte; its data follows, and zeros fill
/// it up.
pub proof fn law_a_segment_is_encoded(
    sdo: &Sdo,
    toggle: bool,
    data: Vec<u8>,
    last: bool,
    r: Result<Vec<u8>, Error>,
)
    requires
        call_ensures(Sdo::encode, (sdo,), r),
        *sdo == (Sdo::DownloadSegment { toggle, data, last }) || *sdo == (Sdo::UploadData {
            toggle,
            data,
            last,
        }),
    ensures
        r matches Ok(bytes) && {
            let n = data@.len() as int;
            let filled = if n < 7 {
                7 - n
            } else {
                0
            };
            &&& bytes@.len() == 1 + n + filled
            &&& bytes@[0] / 32 == 0
            &&& bytes@[0] / 16 == 1 <==> toggle
            &&& bytes@[0] / 2 % 8 == filled
            &&& bytes@[0] % 2 == 1 <==> last
            &&& bytes@.subrange(1, 1 + n) == data@
            &&& ends_in_zeros(bytes@, 1 + n)
        },
{
    reveal(SdoView::bytes);
    let bytes = r.unwrap()@;
    assert(bytes.subrange(1, 1 + data@.len() as int) =~= data@);
}

/// What carries nothing of an object takes eight bytes, the last of them zeros but
/// for the code of an abort.
pub proof fn law_the_others_take_eight_bytes(sdo: &Sdo, r: Result<Vec<u8>, Error>)
    requires
        call_ensures(Sdo::encode, (sdo,), r),
    ensures
        *sdo matches Sdo::DownloadAccepted { index, subindex } ==> r matches Ok(bytes)
            && bytes@.len() == 8 && is_about(bytes@, 0x60, index, subindex) && ends_in_zeros(
            bytes@,
            4,
        ),
        *sdo matches Sdo::InitiateUpload { index, subindex } ==> r matches Ok(bytes)
            && bytes@.len() == 8 && is_about(bytes@, 0x40, index, subindex) && ends_in_zeros(
            bytes@,
            4,
        ),
        *sdo matches Sdo::SegmentAccepted { toggle } ==> r matches Ok(bytes) && bytes@.len() == 8
            && bytes@[0] == (if toggle {
            0x30int
        } else {
            0x20
        }) && ends_in_zeros(bytes@, 1),
        *sdo matches Sdo::UploadSegment { toggle } ==> r matches Ok(bytes) && bytes@.len() == 8
            && bytes@[0] == (if toggle {
            0x70int
        } else {
            0x60
        }) && ends_in_zeros(bytes@, 1),
        *sdo matches Sdo::Abort { index, subindex, code } ==> r matches Ok(bytes) && bytes@.len()
            == 8 && is_about(bytes@, 0x80, index, subindex) && bytes@[4] + 0x100 * bytes@[5]
            + 0x1_0000 * bytes@[6] + 0x100_0000 * bytes@[7] == code,
{
    reveal(SdoView::bytes);
}

/// A client opens a write, writes on, opens a read and reads on; all else is a
/// server's, or an abort.
pub proof fn law_a_client_asks_four_things(sdo: &Sdo, r: bool)
    requires
        call_ensures(Sdo::is_request, (sdo,), r),
    ensures
        *sdo is InitiateDownload || *sdo is DownloadSegment || *sdo is InitiateUpload
            || *sdo is UploadSegment ==> r,
        *sdo is DownloadAccepted || *sdo is SegmentAccepted || *sdo is UploadOpened
            || *sdo is UploadData || *sdo is Abort ==> !r,
{
}

/// Fewer than eight bytes are no SDO, nor is one whose first three bits say
/// nothing.
pub proof fn law_what_is_no_sdo(body: &[u8], request: bool, r: Result<Sdo, Error>)
    requires
        call_ensures(Sdo::decode, (body, request), r),
    ensures
        body@.len() < 8 ==> r == Err::<Sdo, Error>(Error::ShortSdo),
        body@.len() >= 8 && body@[0] >= 0xa0 ==> r == Err::<Sdo, Error>(
            Error::NoSuchSpecifier((body@[0] / 32) as u8),
        ),
{
    reveal(sdo_in);
}

/// A body that begins with three zero bits is a segment, of a write where the
/// client sends it and of a read where the server does; the bytes its first byte
/// says are filled up are cut from its end.
pub proof fn law_a_segment_is_decoded(body: &[u8], request: bool, r: Result<Sdo, Error>)
    requires
        call_ensures(Sdo::decode, (body, request), r),
        body@.len() >= 8,
        body@[0] < 0x20,
    ensures
        r matches Ok(sdo) && {
            let kept = body@.subrange(1, body@.len() - body@[0] / 2 % 8);
            &&& request ==> (sdo matches Sdo::DownloadSegment { toggle, data, last} && data@
                == kept && toggle == (body@[0] >= 16) && last == (body@[0] % 2 == 1))
            &&& !request ==> (sdo matches Sdo::UploadData { toggle, data, last } && data@ == kept
                && toggle == (body@[0] >= 16) && last == (body@[0] % 2 == 1))
        },
{
    reveal(sdo_in);
}

/// The object's address, whatever the rest of the body.
pub open spec fn address_in(body: Seq<u8>, index: u16, subindex: u8) -> bool {
    body[1] + 256 * body[2] == index && body[3] == subindex
}

/// True where `opening` is what `body` carries of an object after its address: all
/// of it, as many of four bytes as the first byte leaves, or all four where it does
/// not say; or the size and what follows it.
pub open spec fn is_opened_by(body: Seq<u8>, opening: Opening) -> bool {
    if body[0] / 2 % 2 == 1 {
        opening matches Opening::Expedited { data } && data@ == body.subrange(
            4,
            if body[0] % 2 == 1 {
                8 - body[0] / 4 % 4
            } else {
                8
            },
        )
    } else {
        &&& opening matches Opening::Sized { size, data }
        &&& size == body[4] + 0x100 * body[5] + 0x1_0000 * body[6] + 0x100_0000 * body[7]
        &&& data@ == body.skip(8)
    }
}

/// An opening is decoded with the object it is about and what it carries; one that
/// carries neither the object nor its size is refused.
pub proof fn law_an_opening_is_decoded(body: &[u8], request: bool, r: Result<Sdo, Error>)
    requires
        call_ensures(Sdo::decode, (body, request), r),
        body@.len() >= 8,
        request ==> 0x20 <= body@[0] < 0x40,
        !request ==> 0x40 <= body@[0] < 0x60,
    ensures
        body@[0] % 4 == 0 ==> r == Err::<Sdo, Error>(Error::NoSize),
        body@[0] % 4 != 0 && request ==> (r matches Ok(
            Sdo::InitiateDownload { index, subindex, opening },
        ) && address_in(body@, index, subindex) && is_opened_by(body@, opening)),
        body@[0] % 4 != 0 && !request ==> (r matches Ok(
            Sdo::UploadOpened { index, subindex, opening },
        ) && address_in(body@, index, subindex) && is_opened_by(body@, opening)),
{
    reveal(sdo_in);
}

/// The first three bits of the others, with who sends them, say what they are.
pub proof fn law_the_others_are_decoded(body: &[u8], request: bool, r: Result<Sdo, Error>)
    requires
        call_ensures(Sdo::decode, (body, request), r),
        body@.len() >= 8,
    ensures
        !request && 0x20 <= body@[0] < 0x40 ==> (r matches Ok(Sdo::SegmentAccepted { toggle })
            && toggle == (body@[0] >= 0x30)),
        request && 0x40 <= body@[0] < 0x60 ==> (r matches Ok(
            Sdo::InitiateUpload { index, subindex },
        ) && address_in(body@, index, subindex)),
        request && 0x60 <= body@[0] < 0x80 ==> (r matches Ok(Sdo::UploadSegment { toggle })
            && toggle == (body@[0] >= 0x70)),
        !request && 0x60 <= body@[0] < 0x80 ==> (r matches Ok(
            Sdo::DownloadAccepted { index, subindex },
        ) && address_in(body@, index, subindex)),
        0x80 <= body@[0] < 0xa0 ==> (r matches Ok(Sdo::Abort { index, subindex, code })
            && address_in(body@, index, subindex) && code == body@[4] + 0x100 * body@[5]
            + 0x1_0000 * body@[6] + 0x100_0000 * body@[7]),
{
    reveal(sdo_in);
}

/// A mailbox of 256 bytes holds 240 of an object behind its size, and 247 in a
/// segment; nothing goes expedited.
pub proof fn law_what_a_mailbox_carries(window: Window)
    requires
        call_ensures(coe, (), window),
    ensures
        window.expedited == 0,
        window.initiate == 240,
        window.segment == 247,
{
}

/// The body stands whole behind two headers of eight bytes in all.
pub proof fn law_a_body_is_wrapped(counter: u8, request: bool, body: &[u8], out: Vec<u8>)
    requires
        call_ensures(wrap, (counter, request, body), out),
    ensures
        out@.len() == 8 + body@.len(),
        body@.len() <= 65533 ==> out@[0] + 256 * out@[1] == 2 + body@.len(),
        body@.len() > 65533 ==> out@[0] == 0 && out@[1] == 0,
        out@[2] == 0 && out@[3] == 0 && out@[4] == 0,
        out@[5] == 3 + 16 * (counter % 8),
        out@[6] == 0,
        out@[7] == if request {
            0x20int
        } else {
            0x30
        },
        out@.skip(8) == body@,
{
    assert(out@.skip(8) =~= body@);
}

/// What a mailbox is refused for, in this order, and what it holds where it is not:
/// its station, its channel and the low bits of the service say nothing.
pub proof fn law_a_mailbox_is_unwrapped(
    bytes: &[u8],
    r: Result<(u8, bool, Vec<u8>), Error>,
)
    requires
        call_ensures(unwrap, (bytes,), r),
    ensures
        ({
            let b = bytes@;
            let length = b[0] + 256 * b[1];
            let whole = b.len() >= 8 && 2 <= length && 6 + length <= b.len();
            &&& b.len() < 8 ==> r == Err::<(u8, bool, Vec<u8>), Error>(Error::ShortMailbox)
            &&& b.len() >= 8 && (length < 2 || b.len() < 6 + length) ==> r == Err::<
                (u8, bool, Vec<u8>),
                Error,
            >(Error::MailboxPastEnd)
            &&& whole && b[5] % 16 != 3 ==> r == Err::<(u8, bool, Vec<u8>), Error>(Error::NotCoe)
            &&& whole && b[5] % 16 == 3 && !(0x20 <= b[7] < 0x40) ==> r == Err::<
                (u8, bool, Vec<u8>),
                Error,
            >(Error::NotSdo((b[7] / 16) as u8))
            &&& whole && b[5] % 16 == 3 && 0x20 <= b[7] < 0x40 ==> {
                &&& r matches Ok((counter, request, body))
                &&& counter == b[5] / 16
                &&& request == (b[7] < 0x30)
                &&& body@ == b.subrange(8, 6 + length)
            }
        }),
{
    reveal(mailbox_in);
}

/// A message is its SDO, wrapped as a request or a response, and has a wire form
/// where that has one.
pub proof fn law_a_message_is_its_sdo_wrapped(
    message: &Message,
    r: Result<Vec<u8>, Error>,
    s: Result<Vec<u8>, Error>,
    t: Result<Vec<u8>, Error>,
    request: bool,
    body: &[u8],
    out: Vec<u8>,
)
    requires
        call_ensures(Message::encode, (message,), r),
        call_ensures(encode_message, (message.counter, &message.sdo), s),
        call_ensures(Sdo::encode, (&message.sdo,), t),
        call_ensures(Sdo::is_request, (&message.sdo,), request),
        t is Ok ==> body@ == t.unwrap()@,
        call_ensures(wrap, (message.counter, request, body), out),
    ensures
        t matches Err(e) ==> r == Err::<Vec<u8>, Error>(e) && s == Err::<Vec<u8>, Error>(e),
        t is Ok ==> (r matches Ok(bytes) && bytes@ == out@),
        t is Ok ==> (s matches Ok(bytes) && bytes@ == out@),
{
}

/// A message is read as its SDO is, from what the headers leave, as a request or
/// as a response.
pub proof fn law_a_message_is_read_from_its_body(
    bytes: &[u8],
    r: Result<Message, Error>,
    s: Result<(u8, bool, Vec<u8>), Error>,
    body: &[u8],
    t: Result<Sdo, Error>,
)
    requires
        call_ensures(Message::decode, (bytes,), r),
        call_ensures(unwrap, (bytes,), s),
        s is Ok ==> body@ == s.unwrap().2@ && call_ensures(Sdo::decode, (body, s.unwrap().1), t),
    ensures
        s matches Err(e) ==> r == Err::<Message, Error>(e),
        s matches Ok((counter, _, _)) ==> match t {
            Err(e) => r == Err::<Message, Error>(e),
            Ok(sdo) => r matches Ok(message) && message.counter == counter && message.sdo@
                == sdo@,
        },
{
}

} // verus!
