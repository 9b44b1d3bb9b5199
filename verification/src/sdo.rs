//! The SDO, the service data object by which a dictionary is read and written,
//! as `CANopen` shapes it, with the data of an opening and of a segment
//! stretched to the mailbox rather than cut at eight bytes.
//!
//! The top three bits of the first byte are the command specifier; what one
//! means depends on whether the client asks or the server answers. An opening
//! carries the object whole and expedited, one to four bytes of it, or its size
//! and its first bytes. A segment carries more of it under a toggle, and says
//! how many of its first seven bytes are unused and whether it is the last.

use vstd::prelude::*;

use crate::datagram::bytes_of;
use crate::error::Error;
use crate::wire::{
    get_u16, get_u32, le16, le32, part, put_bytes, put_u16, put_u32, put_zeros, u16_at, u32_at,
    zeros,
};

verus! {

/// The toggle bit did not alternate.
pub const ABORT_TOGGLE: u32 = 0x0503_0000;

/// The command specifier is not valid or not known.
pub const ABORT_COMMAND: u32 = 0x0504_0001;

/// The object does not exist in the dictionary.
pub const ABORT_NO_OBJECT: u32 = 0x0602_0000;

/// How much of an object one SDO carries: expedited, beside its size in an
/// opening, and in a segment.
#[derive(Clone, Copy, Debug, PartialEq, Eq)]
pub struct Window {
    pub expedited: usize,
    pub initiate: usize,
    pub segment: usize,
}

/// What an opening carries of the object.
#[derive(Clone, Debug, PartialEq, Eq)]
pub enum Opening {
    /// All of it, one to four bytes.
    Expedited { data: Vec<u8> },
    /// Its size, and its first bytes.
    Sized { size: u32, data: Vec<u8> },
}

/// One SDO.
#[derive(Clone, Debug, PartialEq, Eq)]
pub enum Sdo {
    /// The client opens a write.
    InitiateDownload { index: u16, subindex: u8, opening: Opening },
    /// The server takes the opening.
    DownloadAccepted { index: u16, subindex: u8 },
    /// The client writes on.
    DownloadSegment { toggle: bool, data: Vec<u8>, last: bool },
    /// The server takes the segment.
    SegmentAccepted { toggle: bool },
    /// The client opens a read.
    InitiateUpload { index: u16, subindex: u8 },
    /// The server answers with the object, or its size and its first bytes.
    UploadOpened { index: u16, subindex: u8, opening: Opening },
    /// The client reads on.
    UploadSegment { toggle: bool },
    /// The server answers with more of the object.
    UploadData { toggle: bool, data: Vec<u8>, last: bool },
    /// Either side gives up.
    Abort { index: u16, subindex: u8, code: u32 },
}

/// What an opening says.
#[verifier::ext_equal]
pub enum OpeningView {
    Expedited { data: Seq<u8> },
    Sized { size: u32, data: Seq<u8> },
}

/// What an SDO says.
#[verifier::ext_equal]
pub enum SdoView {
    InitiateDownload { index: u16, subindex: u8, opening: OpeningView },
    DownloadAccepted { index: u16, subindex: u8 },
    DownloadSegment { toggle: bool, data: Seq<u8>, last: bool },
    SegmentAccepted { toggle: bool },
    InitiateUpload { index: u16, subindex: u8 },
    UploadOpened { index: u16, subindex: u8, opening: OpeningView },
    UploadSegment { toggle: bool },
    UploadData { toggle: bool, data: Seq<u8>, last: bool },
    Abort { index: u16, subindex: u8, code: u32 },
}

impl View for Opening {
    type V = OpeningView;

    open spec fn view(&self) -> OpeningView {
        match *self {
            Opening::Expedited { data } => OpeningView::Expedited { data: data@ },
            Opening::Sized { size, data } => OpeningView::Sized { size, data: data@ },
        }
    }
}

impl View for Sdo {
    type V = SdoView;

    open spec fn view(&self) -> SdoView {
        match *self {
            Sdo::InitiateDownload { index, subindex, opening } => SdoView::InitiateDownload {
                index,
                subindex,
                opening: opening@,
            },
            Sdo::DownloadAccepted { index, subindex } => SdoView::DownloadAccepted {
                index,
                subindex,
            },
            Sdo::DownloadSegment { toggle, data, last } => SdoView::DownloadSegment {
                toggle,
                data: data@,
                last,
            },
            Sdo::SegmentAccepted { toggle } => SdoView::SegmentAccepted { toggle },
            Sdo::InitiateUpload { index, subindex } => SdoView::InitiateUpload { index, subindex },
            Sdo::UploadOpened { index, subindex, opening } => SdoView::UploadOpened {
                index,
                subindex,
                opening: opening@,
            },
            Sdo::UploadSegment { toggle } => SdoView::UploadSegment { toggle },
            Sdo::UploadData { toggle, data, last } => SdoView::UploadData {
                toggle,
                data: data@,
                last,
            },
            Sdo::Abort { index, subindex, code } => SdoView::Abort { index, subindex, code },
        }
    }
}

impl OpeningView {
    /// The low bits of the first byte: that the size is said, that the data is
    /// expedited, and how many of its four bytes are unused.
    pub open spec fn bits(self) -> int {
        match self {
            OpeningView::Expedited { data } => 3 + 4 * (4 - data.len()),
            OpeningView::Sized { .. } => 1,
        }
    }

    /// What follows the object's address.
    pub open spec fn bytes(self) -> Seq<u8> {
        match self {
            OpeningView::Expedited { data } => data + zeros((4 - data.len()) as nat),
            OpeningView::Sized { size, data } => le32(size as int) + data,
        }
    }
}

/// How many of a segment's first seven bytes are unused.
pub open spec fn unused(data: Seq<u8>) -> nat {
    if data.len() < 7 {
        (7 - data.len()) as nat
    } else {
        0
    }
}

/// One bit.
pub open spec fn bit(b: bool) -> int {
    if b {
        1
    } else {
        0
    }
}

/// A segment, the client's or the server's.
pub open spec fn segment_bytes(toggle: bool, data: Seq<u8>, last: bool) -> Seq<u8> {
    seq![(16 * bit(toggle) + 2 * unused(data) + bit(last)) as u8] + data + zeros(unused(data))
}

/// An SDO about one object: the first byte, the object's address, and `rest`.
pub open spec fn addressed_bytes(first: int, index: u16, subindex: u8, rest: Seq<u8>) -> Seq<u8> {
    seq![first as u8] + le16(index as int) + seq![subindex] + rest
}

impl SdoView {
    /// True of what a client asks.
    pub open spec fn is_request(self) -> bool {
        ||| self is InitiateDownload
        ||| self is DownloadSegment
        ||| self is InitiateUpload
        ||| self is UploadSegment
    }

    /// The opening the SDO carries, where it carries one.
    pub open spec fn opening(self) -> Option<OpeningView> {
        match self {
            SdoView::InitiateDownload { opening, .. } => Some(opening),
            SdoView::UploadOpened { opening, .. } => Some(opening),
            _ => None,
        }
    }

    /// The SDO on the wire.
    #[verifier::opaque]
    pub open spec fn bytes(self) -> Seq<u8> {
        match self {
            SdoView::InitiateDownload { index, subindex, opening } => addressed_bytes(
                0x20 + opening.bits(),
                index,
                subindex,
                opening.bytes(),
            ),
            SdoView::DownloadAccepted { index, subindex } => addressed_bytes(
                0x60,
                index,
                subindex,
                zeros(4),
            ),
            SdoView::DownloadSegment { toggle, data, last } => segment_bytes(toggle, data, last),
            SdoView::SegmentAccepted { toggle } => seq![(0x20 + 16 * bit(toggle)) as u8] + zeros(7),
            SdoView::InitiateUpload { index, subindex } => addressed_bytes(
                0x40,
                index,
                subindex,
                zeros(4),
            ),
            SdoView::UploadOpened { index, subindex, opening } => addressed_bytes(
                0x40 + opening.bits(),
                index,
                subindex,
                opening.bytes(),
            ),
            SdoView::UploadSegment { toggle } => seq![(0x60 + 16 * bit(toggle)) as u8] + zeros(7),
            SdoView::UploadData { toggle, data, last } => segment_bytes(toggle, data, last),
            SdoView::Abort { index, subindex, code } => addressed_bytes(
                0x80,
                index,
                subindex,
                le32(code as int),
            ),
        }
    }

    /// The SDO on the wire, or why it has no wire form: what goes expedited is
    /// one to four bytes.
    pub open spec fn encoded(self) -> Result<Seq<u8>, Error> {
        match self.opening() {
            Some(OpeningView::Expedited { data }) => if 1 <= data.len() <= 4 {
                Ok(self.bytes())
            } else {
                Err(Error::NotExpedited(data.len() as usize))
            },
            _ => Ok(self.bytes()),
        }
    }
}

/// The opening `body` carries after its address.
pub open spec fn opening_in(body: Seq<u8>) -> Result<OpeningView, Error> {
    let sized = body[0] % 2 == 1;
    let expedited = body[0] / 2 % 2 == 1;
    if expedited {
        let used = if sized {
            4 - body[0] / 4 % 4
        } else {
            4
        };
        Ok(OpeningView::Expedited { data: body.subrange(4, 4 + used) })
    } else if sized {
        Ok(OpeningView::Sized { size: u32_at(body, 4) as u32, data: body.skip(8) })
    } else {
        Err(Error::NoSize)
    }
}

/// The SDO `body` holds, from the client where `request` is true, else from the
/// server, or why it holds none.
#[verifier::opaque]
pub open spec fn sdo_in(body: Seq<u8>, request: bool) -> Result<SdoView, Error> {
    let specifier = body[0] / 32;
    let toggle = body[0] / 16 % 2 == 1;
    let index = u16_at(body, 1) as u16;
    let subindex = body[3];
    let data = body.subrange(1, body.len() - body[0] / 2 % 8);
    let last = body[0] % 2 == 1;
    if body.len() < 8 {
        Err(Error::ShortSdo)
    } else if specifier == 0 {
        Ok(
            if request {
                SdoView::DownloadSegment { toggle, data, last }
            } else {
                SdoView::UploadData { toggle, data, last }
            },
        )
    } else if specifier == 1 && !request {
        Ok(SdoView::SegmentAccepted { toggle })
    } else if specifier == 2 && request {
        Ok(SdoView::InitiateUpload { index, subindex })
    } else if specifier == 1 || specifier == 2 {
        match opening_in(body) {
            Ok(opening) => Ok(
                if request {
                    SdoView::InitiateDownload { index, subindex, opening }
                } else {
                    SdoView::UploadOpened { index, subindex, opening }
                },
            ),
            Err(e) => Err(e),
        }
    } else if specifier == 3 {
        Ok(
            if request {
                SdoView::UploadSegment { toggle }
            } else {
                SdoView::DownloadAccepted { index, subindex }
            },
        )
    } else if specifier == 4 {
        Ok(SdoView::Abort { index, subindex, code: u32_at(body, 4) as u32 })
    } else {
        Err(Error::NoSuchSpecifier(specifier as u8))
    }
}

/// What the SDO in a result says.
pub open spec fn sdo_of(r: Result<Sdo, Error>) -> Result<SdoView, Error> {
    match r {
        Ok(sdo) => Ok(sdo@),
        Err(e) => Err(e),
    }
}

/// The first byte, the object's address.
fn put_address(out: &mut Vec<u8>, first: u8, index: u16, subindex: u8)
    ensures
        final(out)@ == old(out)@ + addressed_bytes(first as int, index, subindex, seq![]),
{
    out.push(first);
    put_u16(out, index);
    out.push(subindex);
    assert(out@ =~= old(out)@ + addressed_bytes(first as int, index, subindex, seq![]));
}

/// A segment at the end of `out`.
fn put_segment(out: &mut Vec<u8>, toggle: bool, data: &Vec<u8>, last: bool)
    ensures
        final(out)@ == old(out)@ + segment_bytes(toggle, data@, last),
{
    let unused: usize = if data.len() < 7 { 7 - data.len() } else { 0 };
    let toggled: u8 = if toggle { 16 } else { 0 };
    let ended: u8 = if last { 1 } else { 0 };
    out.push(toggled + 2 * unused as u8 + ended);
    put_bytes(out, data.as_slice());
    put_zeros(out, unused);
    assert(out@ =~= old(out)@ + segment_bytes(toggle, data@, last));
}

/// An acknowledgement or a question that is a toggle alone, at the end of
/// `out`.
fn put_toggle(out: &mut Vec<u8>, first: u8, toggle: bool)
    requires
        first <= 0x60,
    ensures
        final(out)@ == old(out)@ + (seq![(first + 16 * bit(toggle)) as u8] + zeros(7)),
{
    out.push(if toggle { first + 16 } else { first });
    put_zeros(out, 7);
    assert(out@ =~= old(out)@ + (seq![(first + 16 * bit(toggle)) as u8] + zeros(7)));
}

/// An SDO that opens a transfer, at the end of `out`.
fn put_opening(out: &mut Vec<u8>, first: u8, index: u16, subindex: u8, opening: &Opening) -> (r:
    Result<(), Error>)
    requires
        first <= 0x40,
    ensures
        match r {
            Ok(_) => {
                &&& opening@ matches OpeningView::Expedited { data } ==> 1 <= data.len() <= 4
                &&& final(out)@ == old(out)@ + addressed_bytes(
                    first + opening@.bits(),
                    index,
                    subindex,
                    opening@.bytes(),
                )
            },
            Err(e) => opening@ matches OpeningView::Expedited { data } && !(1 <= data.len() <= 4)
                && e == Error::NotExpedited(data.len() as usize),
        },
{
    match opening {
        Opening::Expedited { data } => {
            if data.len() < 1 || data.len() > 4 {
                return Err(Error::NotExpedited(data.len()));
            }
            let unused: usize = 4 - data.len();
            put_address(out, first + 3 + 4 * unused as u8, index, subindex);
            put_bytes(out, data.as_slice());
            put_zeros(out, unused);
        },
        Opening::Sized { size, data } => {
            put_address(out, first + 1, index, subindex);
            put_u32(out, *size);
            put_bytes(out, data.as_slice());
        },
    }
    assert(out@ =~= old(out)@ + addressed_bytes(
        first + opening@.bits(),
        index,
        subindex,
        opening@.bytes(),
    ));
    Ok(())
}

/// The opening `body` carries after its address.
fn get_opening(body: &[u8]) -> (r: Result<Opening, Error>)
    requires
        body@.len() >= 8,
    ensures
        match r {
            Ok(opening) => opening_in(body@) == Ok::<OpeningView, Error>(opening@),
            Err(e) => opening_in(body@) == Err::<OpeningView, Error>(e),
        },
{
    let first = body[0];
    let sized = first % 2 == 1;
    if first / 2 % 2 == 1 {
        let used: usize = if sized { 4 - (first / 4 % 4) as usize } else { 4 };
        Ok(Opening::Expedited { data: part(body, 4, 4 + used) })
    } else if sized {
        let data = part(body, 8, body.len());
        assert(data@ =~= body@.skip(8));
        Ok(Opening::Sized { size: get_u32(body, 4), data })
    } else {
        Err(Error::NoSize)
    }
}

impl Sdo {
    /// True of what a client asks.
    #[must_use]
    pub fn is_request(&self) -> (r: bool)
        ensures
            r == self@.is_request(),
    {
        match self {
            Sdo::InitiateDownload { .. } => true,
            Sdo::DownloadSegment { .. } => true,
            Sdo::InitiateUpload { .. } => true,
            Sdo::UploadSegment { .. } => true,
            _ => false,
        }
    }

    /// The SDO on the wire; an expedited opening of no bytes or of more than
    /// four is refused.
    pub fn encode(&self) -> (r: Result<Vec<u8>, Error>)
        ensures
            bytes_of(r) == self@.encoded(),
    {
        proof {
            reveal(SdoView::bytes);
        }
        let mut out: Vec<u8> = Vec::new();
        match self {
            Sdo::InitiateDownload { index, subindex, opening } => {
                match put_opening(&mut out, 0x20, *index, *subindex, opening) {
                    Ok(_) => {},
                    Err(e) => {
                        return Err(e);
                    },
                }
            },
            Sdo::DownloadAccepted { index, subindex } => {
                put_address(&mut out, 0x60, *index, *subindex);
                put_zeros(&mut out, 4);
            },
            Sdo::DownloadSegment { toggle, data, last } => {
                put_segment(&mut out, *toggle, data, *last);
            },
            Sdo::SegmentAccepted { toggle } => {
                put_toggle(&mut out, 0x20, *toggle);
            },
            Sdo::InitiateUpload { index, subindex } => {
                put_address(&mut out, 0x40, *index, *subindex);
                put_zeros(&mut out, 4);
            },
            Sdo::UploadOpened { index, subindex, opening } => {
                match put_opening(&mut out, 0x40, *index, *subindex, opening) {
                    Ok(_) => {},
                    Err(e) => {
                        return Err(e);
                    },
                }
            },
            Sdo::UploadSegment { toggle } => {
                put_toggle(&mut out, 0x60, *toggle);
            },
            Sdo::UploadData { toggle, data, last } => {
                put_segment(&mut out, *toggle, data, *last);
            },
            Sdo::Abort { index, subindex, code } => {
                put_address(&mut out, 0x80, *index, *subindex);
                put_u32(&mut out, *code);
            },
        }
        assert(out@ =~= self@.bytes());
        Ok(out)
    }

    /// The SDO `body` holds, from the client where `request` is true, else from
    /// the server. Refused are fewer than eight bytes, a command specifier that
    /// is none of the five, and an opening that neither carries its data nor
    /// says its size.
    pub fn decode(body: &[u8], request: bool) -> (r: Result<Sdo, Error>)
        ensures
            sdo_of(r) == sdo_in(body@, request),
    {
        proof {
            reveal(sdo_in);
        }
        if body.len() < 8 {
            return Err(Error::ShortSdo);
        }
        let first = body[0];
        let specifier = first / 32;
        let toggle = first / 16 % 2 == 1;
        let last = first % 2 == 1;
        let index = get_u16(body, 1);
        let subindex = body[3];
        if specifier == 0 {
            let data = part(body, 1, body.len() - (first / 2 % 8) as usize);
            if request {
                Ok(Sdo::DownloadSegment { toggle, data, last })
            } else {
                Ok(Sdo::UploadData { toggle, data, last })
            }
        } else if specifier == 1 && !request {
            Ok(Sdo::SegmentAccepted { toggle })
        } else if specifier == 2 && request {
            Ok(Sdo::InitiateUpload { index, subindex })
        } else if specifier == 1 || specifier == 2 {
            match get_opening(body) {
                Ok(opening) => if request {
                    Ok(Sdo::InitiateDownload { index, subindex, opening })
                } else {
                    Ok(Sdo::UploadOpened { index, subindex, opening })
                },
                Err(e) => Err(e),
            }
        } else if specifier == 3 {
            if request {
                Ok(Sdo::UploadSegment { toggle })
            } else {
                Ok(Sdo::DownloadAccepted { index, subindex })
            }
        } else if specifier == 4 {
            Ok(Sdo::Abort { index, subindex, code: get_u32(body, 4) })
        } else {
            Err(Error::NoSuchSpecifier(specifier))
        }
    }
}

/// A segment is read back as it was.
proof fn lemma_segment(toggle: bool, data: Seq<u8>, last: bool)
    ensures
        ({
            let body = segment_bytes(toggle, data, last);
            &&& body.len() >= 8
            &&& body[0] / 32 == 0
            &&& (body[0] / 16 % 2 == 1) == toggle
            &&& (body[0] % 2 == 1) == last
            &&& body.subrange(1, body.len() - body[0] / 2 % 8) == data
        }),
{
    let body = segment_bytes(toggle, data, last);
    assert(body[0] == 16 * bit(toggle) + 2 * unused(data) + bit(last));
    assert(body[0] / 2 % 8 == unused(data));
    assert(body.subrange(1, body.len() - unused(data)) =~= data);
}

/// An opening is read back as it was.
proof fn lemma_opening(first: int, index: u16, subindex: u8, opening: OpeningView)
    requires
        first == 0x20 || first == 0x40,
        opening matches OpeningView::Expedited { data } ==> 1 <= data.len() <= 4,
    ensures
        ({
            let body = addressed_bytes(first + opening.bits(), index, subindex, opening.bytes());
            &&& body.len() >= 8
            &&& body[0] / 32 == first / 32
            &&& u16_at(body, 1) == index
            &&& body[3] == subindex
            &&& opening_in(body) == Ok::<OpeningView, Error>(opening)
        }),
{
    let body = addressed_bytes(first + opening.bits(), index, subindex, opening.bytes());
    assert(body[0] == first + opening.bits());
    match opening {
        OpeningView::Expedited { data } => {
            assert(body[0] / 4 % 4 == 4 - data.len());
            assert(body.subrange(4, 4 + data.len() as int) =~= data);
        },
        OpeningView::Sized { size, data } => {
            assert(u32_at(body, 4) == size);
            assert(body.skip(8) =~= data);
        },
    }
}

/// Every SDO that has a wire form decodes back as it was, on the side it
/// belongs to.
pub proof fn law_sdo_decodes_back(sdo: SdoView)
    requires
        sdo.encoded() is Ok,
    ensures
        sdo_in(sdo.bytes(), sdo.is_request()) == Ok::<SdoView, Error>(sdo),
{
    reveal(SdoView::bytes);
    reveal(sdo_in);
    let body = sdo.bytes();
    match sdo {
        SdoView::InitiateDownload { index, subindex, opening } => {
            lemma_opening(0x20, index, subindex, opening);
        },
        SdoView::UploadOpened { index, subindex, opening } => {
            lemma_opening(0x40, index, subindex, opening);
        },
        SdoView::DownloadSegment { toggle, data, last } => {
            lemma_segment(toggle, data, last);
        },
        SdoView::UploadData { toggle, data, last } => {
            lemma_segment(toggle, data, last);
        },
        SdoView::Abort { index, subindex, code } => {
            assert(u32_at(body, 4) == code);
        },
        _ => {},
    }
}

} // verus!
