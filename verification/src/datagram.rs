//! The `EtherCAT` datagram: a command, an index the master matches the answer
//! by, an address, the data, and the working counter every slave that acted on
//! it increments. Several ride in one Ethernet frame under the two-byte
//! `EtherCAT` header.
//!
//! The address is two things: for a position or a fixed command it is a
//! sixteen-bit station (a position every slave increments as the frame passes,
//! or the address a slave was configured with) and a sixteen-bit offset into
//! that slave's memory; for a logical command it is thirty-two bits into the
//! memory the fieldbus memory management units map.

use vstd::prelude::*;
use vstd::slice::slice_subrange;

use crate::error::Error;
use crate::wire::{get_u16, get_u32, le16, le32, part, put_bytes, put_u16, put_u32, u16_at, u32_at};

verus! {

/// The `EtherType` every `EtherCAT` frame carries.
pub const ETHERTYPE: u16 = 0x88a4;

/// What one standard Ethernet frame carries.
pub const MTU: usize = 1500;

/// What one standard frame carries after the `EtherCAT` header.
pub const FRAME_DATA_MAX: usize = MTU - 2;

/// The command, index, address, length and interrupt bytes before the data,
/// and the working counter after it.
pub const DATAGRAM_OVERHEAD: usize = 12;

/// The data one datagram carries when it is alone in a standard frame.
pub const DATAGRAM_DATA_MAX: usize = FRAME_DATA_MAX - DATAGRAM_OVERHEAD;

/// What a datagram asks of the slaves it reaches.
#[derive(Clone, Copy, Debug, PartialEq, Eq, Structural)]
pub enum Command {
    Nop,
    /// Auto increment physical read: the slave at position 0 answers.
    Aprd,
    Apwr,
    Aprw,
    /// Configured address physical read: the slave with that station answers.
    Fprd,
    Fpwr,
    Fprw,
    /// Broadcast: every slave answers, and the working counter counts them.
    Brd,
    Bwr,
    Brw,
    /// Logical: the memory the FMMUs map.
    Lrd,
    Lwr,
    Lrw,
    Armw,
    Frmw,
}

/// The code `command` has on the wire.
pub open spec fn code_of(command: Command) -> u8 {
    match command {
        Command::Nop => 0,
        Command::Aprd => 1,
        Command::Apwr => 2,
        Command::Aprw => 3,
        Command::Fprd => 4,
        Command::Fpwr => 5,
        Command::Fprw => 6,
        Command::Brd => 7,
        Command::Bwr => 8,
        Command::Brw => 9,
        Command::Lrd => 10,
        Command::Lwr => 11,
        Command::Lrw => 12,
        Command::Armw => 13,
        Command::Frmw => 14,
    }
}

/// The command with `code`, where there is one.
pub open spec fn command_of(code: u8) -> Option<Command> {
    match code {
        0 => Some(Command::Nop),
        1 => Some(Command::Aprd),
        2 => Some(Command::Apwr),
        3 => Some(Command::Aprw),
        4 => Some(Command::Fprd),
        5 => Some(Command::Fpwr),
        6 => Some(Command::Fprw),
        7 => Some(Command::Brd),
        8 => Some(Command::Bwr),
        9 => Some(Command::Brw),
        10 => Some(Command::Lrd),
        11 => Some(Command::Lwr),
        12 => Some(Command::Lrw),
        13 => Some(Command::Armw),
        14 => Some(Command::Frmw),
        _ => None,
    }
}

/// There are fifteen commands: each has a code below 15 that names it and no
/// other, and no other code names one.
pub proof fn law_codes_name_commands(command: Command, code: u8)
    ensures
        code_of(command) < 15,
        command_of(code_of(command)) == Some(command),
        command_of(code) is Some <==> code < 15,
        command_of(code) is Some ==> code_of(command_of(code).unwrap()) == code,
{
}

impl Command {
    /// The command a code names; a code outside the fifteen is refused.
    pub fn from_code(code: u8) -> (r: Result<Self, Error>)
        ensures
            r == match command_of(code) {
                Some(command) => Ok::<Command, Error>(command),
                None => Err(Error::NoSuchCommand(code)),
            },
    {
        Ok(
            match code {
                0 => Self::Nop,
                1 => Self::Aprd,
                2 => Self::Apwr,
                3 => Self::Aprw,
                4 => Self::Fprd,
                5 => Self::Fpwr,
                6 => Self::Fprw,
                7 => Self::Brd,
                8 => Self::Bwr,
                9 => Self::Brw,
                10 => Self::Lrd,
                11 => Self::Lwr,
                12 => Self::Lrw,
                13 => Self::Armw,
                14 => Self::Frmw,
                other => {
                    return Err(Error::NoSuchCommand(other));
                },
            },
        )
    }

    /// The code the command has on the wire.
    pub fn code(self) -> (r: u8)
        ensures
            r == code_of(self),
    {
        match self {
            Self::Nop => 0,
            Self::Aprd => 1,
            Self::Apwr => 2,
            Self::Aprw => 3,
            Self::Fprd => 4,
            Self::Fpwr => 5,
            Self::Fprw => 6,
            Self::Brd => 7,
            Self::Bwr => 8,
            Self::Brw => 9,
            Self::Lrd => 10,
            Self::Lwr => 11,
            Self::Lrw => 12,
            Self::Armw => 13,
            Self::Frmw => 14,
        }
    }

    /// A command that only writes, or does nothing, leaves the data as it is.
    pub open spec fn is_read(self) -> bool {
        !(self is Nop || self is Apwr || self is Fpwr || self is Bwr || self is Lwr)
    }

    /// A command that takes the data: every plain write, and every read with a
    /// write in one.
    pub open spec fn is_write(self) -> bool {
        ||| self is Apwr || self is Fpwr || self is Bwr || self is Lwr
        ||| self is Aprw || self is Fprw || self is Brw || self is Lrw
    }

    /// True where the slave fills the data in.
    #[must_use]
    pub fn reads(self) -> (r: bool)
        ensures
            r == self.is_read(),
    {
        matches!(
            self,
            Self::Aprd
                | Self::Aprw
                | Self::Fprd
                | Self::Fprw
                | Self::Brd
                | Self::Brw
                | Self::Lrd
                | Self::Lrw
                | Self::Armw
                | Self::Frmw
        )
    }

    /// True where the slave takes the data.
    #[must_use]
    pub fn writes(self) -> (r: bool)
        ensures
            r == self.is_write(),
    {
        matches!(
            self,
            Self::Apwr
                | Self::Aprw
                | Self::Fpwr
                | Self::Fprw
                | Self::Bwr
                | Self::Brw
                | Self::Lwr
                | Self::Lrw
        )
    }
}

/// One datagram.
#[derive(Clone, Debug, PartialEq, Eq)]
pub struct Datagram {
    pub command: Command,
    /// The master's mark, echoed so an answer is matched to its question.
    pub index: u8,
    pub address: u32,
    pub interrupt: u16,
    pub data: Vec<u8>,
    /// How many slaves acted on it: zero on the way out.
    pub working_counter: u16,
}

/// What a datagram says.
#[verifier::ext_equal]
pub struct DatagramView {
    pub command: Command,
    pub index: u8,
    pub address: u32,
    pub interrupt: u16,
    pub data: Seq<u8>,
    pub working_counter: u16,
}

impl View for Datagram {
    type V = DatagramView;

    open spec fn view(&self) -> DatagramView {
        DatagramView {
            command: self.command,
            index: self.index,
            address: self.address,
            interrupt: self.interrupt,
            data: self.data@,
            working_counter: self.working_counter,
        }
    }
}

impl DatagramView {
    /// The station half of a physical address.
    pub open spec fn station(self) -> u16 {
        (self.address % 0x1_0000) as u16
    }

    /// The offset half of a physical address.
    pub open spec fn offset(self) -> u16 {
        (self.address / 0x1_0000) as u16
    }

    /// The datagram with the station half of its address replaced.
    pub open spec fn with_station(self, station: u16) -> DatagramView {
        DatagramView { address: address_of(station, self.offset()), ..self }
    }

    /// The bytes the datagram takes in a frame.
    pub open spec fn size(self) -> nat {
        DATAGRAM_OVERHEAD as nat + self.data.len()
    }
}

/// The physical address made of a station and an offset.
pub open spec fn address_of(station: u16, offset: u16) -> u32 {
    (station + 0x1_0000 * offset) as u32
}

/// A datagram on its way out: nobody has marked it, nobody has acted on it.
pub open spec fn outgoing(command: Command, address: u32, data: Seq<u8>) -> DatagramView {
    DatagramView { command, index: 0, address, interrupt: 0, data, working_counter: 0 }
}

/// A physical address gives back the station and the offset it was made of, and
/// is made of the two it gives.
pub proof fn law_address_halves(d: DatagramView, station: u16, offset: u16)
    ensures
        d.address == address_of(station, offset) ==> d.station() == station && d.offset() == offset,
        d.address == address_of(d.station(), d.offset()),
        d.with_station(station).station() == station,
        d.with_station(station).offset() == d.offset(),
{
}

impl Datagram {
    /// A datagram, refusing data over [`DATAGRAM_DATA_MAX`].
    pub fn new(command: Command, address: u32, data: &[u8]) -> (r: Result<Self, Error>)
        ensures
            match r {
                Ok(d) => {
                    &&& data@.len() <= DATAGRAM_DATA_MAX
                    &&& d@ == outgoing(command, address, data@)
                },
                Err(e) => data@.len() > DATAGRAM_DATA_MAX && e == Error::DataTooLong(data.len()),
            },
    {
        if data.len() > DATAGRAM_DATA_MAX {
            return Err(Error::DataTooLong(data.len()));
        }
        let d = Self {
            command,
            index: 0,
            address,
            interrupt: 0,
            data: part(data, 0, data.len()),
            working_counter: 0,
        };
        assert(d@.data =~= data@);
        Ok(d)
    }

    /// A position or fixed command at `station`, `offset` into its memory;
    /// refused as [`Datagram::new`] refuses.
    pub fn at(command: Command, station: u16, offset: u16, data: &[u8]) -> (r: Result<Self, Error>)
        ensures
            match r {
                Ok(d) => data@.len() <= DATAGRAM_DATA_MAX && d@ == outgoing(
                    command,
                    address_of(station, offset),
                    data@,
                ),
                Err(e) => data@.len() > DATAGRAM_DATA_MAX && e == Error::DataTooLong(data.len()),
            },
    {
        Self::new(command, station as u32 + 0x1_0000 * offset as u32, data)
    }

    /// The station half of a physical address.
    #[must_use]
    pub fn station(&self) -> (r: u16)
        ensures
            r == self@.station(),
    {
        (self.address % 0x1_0000) as u16
    }

    /// The offset half of a physical address.
    #[must_use]
    pub fn offset(&self) -> (r: u16)
        ensures
            r == self@.offset(),
    {
        (self.address / 0x1_0000) as u16
    }

    /// The station half replaced, as a slave passing a position command
    /// increments it.
    pub fn set_station(&mut self, station: u16)
        ensures
            final(self)@ == old(self)@.with_station(station),
            final(self).data == old(self).data,
    {
        self.address = self.address / 0x1_0000 * 0x1_0000 + station as u32;
    }
}

/// What each datagram says.
pub open spec fn views(datagrams: Seq<Datagram>) -> Seq<DatagramView> {
    datagrams.map_values(|d: Datagram| d@)
}

/// One datagram on the wire. The top bit of the length says that another
/// follows.
#[verifier::opaque]
pub open spec fn datagram_bytes(d: DatagramView, more: bool) -> Seq<u8> {
    seq![code_of(d.command), d.index] + le32(d.address as int) + le16(
        d.data.len() + if more {
            0x8000int
        } else {
            0
        },
    ) + le16(d.interrupt as int) + d.data + le16(d.working_counter as int)
}

/// Datagrams one after the other, all but the last saying that more follow.
pub open spec fn body_bytes(ds: Seq<DatagramView>) -> Seq<u8>
    decreases ds.len(),
{
    if ds.len() == 0 {
        seq![]
    } else {
        datagram_bytes(ds[0], ds.len() > 1) + body_bytes(ds.skip(1))
    }
}

/// The bytes `ds` take in a frame.
pub open spec fn body_size(ds: Seq<DatagramView>) -> nat
    decreases ds.len(),
{
    if ds.len() == 0 {
        0
    } else {
        ds[0].size() + body_size(ds.skip(1))
    }
}

/// The payload of the frame that carries `ds`: the header is type 1 in the top
/// four bits and the length below them.
pub open spec fn payload_bytes(ds: Seq<DatagramView>) -> Seq<u8> {
    le16(0x1000int + body_size(ds)) + body_bytes(ds)
}

/// `n`, or the largest `usize` where it is over that.
pub open spec fn capped(n: nat) -> usize {
    if n > usize::MAX {
        usize::MAX
    } else {
        n as usize
    }
}

/// The payload that carries `ds`, or why there is none.
pub open spec fn encoded(ds: Seq<DatagramView>) -> Result<Seq<u8>, Error> {
    if ds.len() == 0 {
        Err(Error::NoDatagram)
    } else if body_size(ds) > FRAME_DATA_MAX {
        Err(Error::FrameTooLong(capped(body_size(ds))))
    } else {
        Ok(payload_bytes(ds))
    }
}

/// The bytes in a result.
pub open spec fn bytes_of(r: Result<Vec<u8>, Error>) -> Result<Seq<u8>, Error> {
    match r {
        Ok(bytes) => Ok(bytes@),
        Err(e) => Err(e),
    }
}

/// What the datagrams in a result say.
pub open spec fn views_of(r: Result<Vec<Datagram>, Error>) -> Result<Seq<DatagramView>, Error> {
    match r {
        Ok(ds) => Ok(views(ds@)),
        Err(e) => Err(e),
    }
}

/// The bytes `datagrams` take in a frame, capped.
fn length_of(datagrams: &[Datagram]) -> (length: usize)
    ensures
        length == capped(body_size(views(datagrams@))),
{
    let mut length: usize = 0;
    let mut n: usize = datagrams.len();
    let ghost ds = views(datagrams@);
    assert(ds.skip(n as int) =~= seq![]);
    while n > 0
        invariant
            n <= datagrams.len(),
            ds == views(datagrams@),
            length == capped(body_size(ds.skip(n as int))),
        decreases n,
    {
        n = n - 1;
        assert(ds.skip(n as int).skip(1) =~= ds.skip(n + 1));
        assert(ds.skip(n as int)[0] == datagrams@[n as int]@);
        length = length.saturating_add(DATAGRAM_OVERHEAD).saturating_add(datagrams[n].data.len());
    }
    assert(ds.skip(0) =~= ds);
    length
}

/// `datagrams` as the payload of one frame, under the `EtherCAT` header; no
/// datagrams, or more than one frame carries, are refused.
pub fn encode(datagrams: &[Datagram]) -> (r: Result<Vec<u8>, Error>)
    ensures
        bytes_of(r) == encoded(views(datagrams@)),
{
    let ghost ds = views(datagrams@);
    if datagrams.len() == 0 {
        return Err(Error::NoDatagram);
    }
    let length = length_of(datagrams);
    if length > FRAME_DATA_MAX {
        return Err(Error::FrameTooLong(length));
    }
    let mut out: Vec<u8> = Vec::with_capacity(2 + length);
    put_u16(&mut out, 0x1000 + length as u16);
    let last = datagrams.len() - 1;
    let mut n: usize = 0;
    assert(ds.skip(0) =~= ds);
    while n < datagrams.len()
        invariant
            n <= datagrams.len(),
            last == datagrams.len() - 1,
            ds == views(datagrams@),
            body_size(ds.skip(n as int)) <= FRAME_DATA_MAX,
            out@ + body_bytes(ds.skip(n as int)) == payload_bytes(ds),
        decreases datagrams.len() - n,
    {
        let datagram = &datagrams[n];
        let ghost before = out@;
        assert(ds.skip(n as int)[0] == datagram@);
        assert(ds.skip(n as int).skip(1) =~= ds.skip(n + 1));
        let more: u16 = if n < last { 0x8000 } else { 0 };
        out.push(datagram.command.code());
        out.push(datagram.index);
        put_u32(&mut out, datagram.address);
        put_u16(&mut out, datagram.data.len() as u16 + more);
        put_u16(&mut out, datagram.interrupt);
        put_bytes(&mut out, datagram.data.as_slice());
        put_u16(&mut out, datagram.working_counter);
        n = n + 1;
        proof {
            reveal(datagram_bytes);
            let one = datagram_bytes(datagram@, n - 1 < last);
            assert(out@ =~= before + one);
            assert(before + (one + body_bytes(ds.skip(n as int))) =~= out@ + body_bytes(
                ds.skip(n as int),
            ));
        }
    }
    assert(ds.skip(n as int) =~= seq![]);
    assert(out@ =~= out@ + body_bytes(ds.skip(n as int)));
    Ok(out)
}

/// The first datagram in `body`, and whether it says that another follows.
#[verifier::opaque]
pub open spec fn first_in(body: Seq<u8>) -> Result<(DatagramView, bool), Error> {
    let len = u16_at(body, 6);
    let end = 10 + len % 0x800;
    if body.len() < 10 {
        Err(Error::ShortDatagram)
    } else if body.len() < end {
        Err(Error::DatagramPastEnd)
    } else if body.len() < end + 2 {
        Err(Error::NoWorkingCounter)
    } else {
        match command_of(body[0]) {
            None => Err(Error::NoSuchCommand(body[0])),
            Some(command) => Ok(
                (
                    DatagramView {
                        command,
                        index: body[1],
                        address: u32_at(body, 2) as u32,
                        interrupt: u16_at(body, 8) as u16,
                        data: body.subrange(10, end),
                        working_counter: u16_at(body, end) as u16,
                    },
                    len >= 0x8000,
                ),
            ),
        }
    }
}

/// The datagrams in `body`, up to the first that says no other follows, which
/// has to end where `body` does.
pub open spec fn datagrams_in(body: Seq<u8>) -> Result<Seq<DatagramView>, Error>
    decreases body.len(),
{
    proof {
        reveal(first_in);
    }
    match first_in(body) {
        Err(e) => Err(e),
        Ok((d, more)) => {
            let rest = body.skip(d.size() as int);
            if more {
                match datagrams_in(rest) {
                    Ok(ds) => Ok(seq![d] + ds),
                    Err(e) => Err(e),
                }
            } else if rest.len() > 0 {
                Err(Error::TrailingBytes)
            } else {
                Ok(seq![d])
            }
        },
    }
}

/// The datagrams one frame's payload carries, or why it carries none. The top
/// four bits of the header are the type, the eleven lowest the length; what
/// follows that length is padding.
pub open spec fn decoded(payload: Seq<u8>) -> Result<Seq<DatagramView>, Error> {
    let header = u16_at(payload, 0);
    let length = header % 0x800;
    if payload.len() < 2 {
        Err(Error::ShortHeader)
    } else if header / 0x1000 != 1 {
        Err(Error::NotTypeOne)
    } else if payload.len() < 2 + length {
        Err(Error::LengthPastEnd)
    } else {
        datagrams_in(payload.subrange(2, 2 + length))
    }
}

/// `seen` put before the datagrams in a result.
spec fn after(seen: Seq<DatagramView>, r: Result<Seq<DatagramView>, Error>) -> Result<
    Seq<DatagramView>,
    Error,
> {
    match r {
        Ok(ds) => Ok(seen + ds),
        Err(e) => Err(e),
    }
}

/// The datagrams one frame's payload carries. Refused are a header that is not
/// type 1, a length past the end, a command no slave knows, a last datagram
/// that says more follow, and bytes after the last datagram.
pub fn decode(payload: &[u8]) -> (r: Result<Vec<Datagram>, Error>)
    ensures
        views_of(r) == decoded(payload@),
{
    if payload.len() < 2 {
        return Err(Error::ShortHeader);
    }
    let header = get_u16(payload, 0);
    if header / 0x1000 != 1 {
        return Err(Error::NotTypeOne);
    }
    let length = (header % 0x800) as usize;
    if payload.len() - 2 < length {
        return Err(Error::LengthPastEnd);
    }
    let body = slice_subrange(payload, 2, 2 + length);
    let mut datagrams: Vec<Datagram> = Vec::new();
    let mut at: usize = 0;
    assert(body@.skip(0) =~= body@);
    assert(views(datagrams@) =~= seq![]);
    assert(decoded(payload@) =~= after(views(datagrams@), datagrams_in(body@.skip(0))));
    loop
        invariant
            body.len() == length < 0x800,
            at <= length,
            decoded(payload@) == after(views(datagrams@), datagrams_in(body@.skip(at as int))),
        decreases length - at,
    {
        let ghost rest = body@.skip(at as int);
        let ghost seen = views(datagrams@);
        proof {
            reveal(first_in);
        }
        if length - at < 10 {
            return Err(Error::ShortDatagram);
        }
        let len = get_u16(body, at + 6);
        let data_len = (len % 0x800) as usize;
        let more = len >= 0x8000;
        if length - at < 10 + data_len {
            return Err(Error::DatagramPastEnd);
        }
        if length - at < 12 + data_len {
            return Err(Error::NoWorkingCounter);
        }
        let command = match Command::from_code(body[at]) {
            Ok(command) => command,
            Err(e) => {
                return Err(e);
            },
        };
        let datagram = Datagram {
            command,
            index: body[at + 1],
            address: get_u32(body, at + 2),
            interrupt: get_u16(body, at + 8),
            data: part(body, at + 10, at + 10 + data_len),
            working_counter: get_u16(body, at + 10 + data_len),
        };
        assert(datagram@.data =~= rest.subrange(10, 10 + data_len));
        assert(first_in(rest) == Ok::<(DatagramView, bool), Error>((datagram@, more)));
        let ghost d = datagram@;
        datagrams.push(datagram);
        assert(views(datagrams@) =~= seen.push(d));
        at = at + DATAGRAM_OVERHEAD + data_len;
        assert(rest.skip(d.size() as int) =~= body@.skip(at as int));
        if !more {
            if at != length {
                return Err(Error::TrailingBytes);
            }
            assert(seen + seq![d] =~= views(datagrams@));
            return Ok(datagrams);
        }
        proof {
            match datagrams_in(body@.skip(at as int)) {
                Ok(ds) => {
                    assert(seen + (seq![d] + ds) =~= views(datagrams@) + ds);
                },
                Err(e) => {},
            }
        }
    }
}

/// The wire form of a datagram, whatever follows it, is read back as it was.
proof fn lemma_first_in(d: DatagramView, more: bool, rest: Seq<u8>)
    requires
        d.data.len() < 0x800,
    ensures
        datagram_bytes(d, more).len() == d.size(),
        first_in(datagram_bytes(d, more) + rest) == Ok::<(DatagramView, bool), Error>((d, more)),
        (datagram_bytes(d, more) + rest).skip(d.size() as int) == rest,
{
    reveal(datagram_bytes);
    reveal(first_in);
    let one = datagram_bytes(d, more);
    let body = one + rest;
    let n = d.data.len() as int;
    let len = n + if more {
        0x8000int
    } else {
        0
    };
    law_codes_name_commands(d.command, 0);
    assert(body[0] == code_of(d.command));
    assert(body[1] == d.index);
    assert(u32_at(body, 2) == d.address);
    assert(u16_at(body, 6) == len);
    assert(u16_at(body, 8) == d.interrupt);
    assert(body.subrange(10, 10 + n) =~= d.data);
    assert(u16_at(body, 10 + n) == d.working_counter);
    assert(body.skip(12 + n) =~= rest);
}

/// A datagram is read back as it was, and what follows it is read on.
proof fn lemma_read_on(d: DatagramView, more: bool, rest: Seq<u8>)
    requires
        d.data.len() < 0x800,
    ensures
        datagram_bytes(d, more).len() == d.size(),
        datagrams_in(datagram_bytes(d, more) + rest) == if more {
            after(seq![d], datagrams_in(rest))
        } else if rest.len() > 0 {
            Err(Error::TrailingBytes)
        } else {
            Ok(seq![d])
        },
{
    lemma_first_in(d, more, rest);
    let body = datagram_bytes(d, more) + rest;
    assert(first_in(body) == Ok::<(DatagramView, bool), Error>((d, more)));
}

/// Datagrams one after the other are read back as they were.
proof fn lemma_datagrams_in(ds: Seq<DatagramView>)
    requires
        ds.len() > 0,
        forall|i: int| 0 <= i < ds.len() ==> #[trigger] ds[i].data.len() < 0x800,
    ensures
        datagrams_in(body_bytes(ds)) == Ok::<Seq<DatagramView>, Error>(ds),
        body_bytes(ds).len() == body_size(ds),
    decreases ds.len(),
{
    let rest = ds.skip(1);
    let one = datagram_bytes(ds[0], ds.len() > 1);
    lemma_read_on(ds[0], ds.len() > 1, body_bytes(rest));
    assert(body_bytes(ds) == one + body_bytes(rest));
    assert(body_size(ds) == ds[0].size() + body_size(rest));
    if ds.len() > 1 {
        assert forall|i: int| 0 <= i < rest.len() implies #[trigger] rest[i].data.len() < 0x800 by {
            assert(rest[i] == ds[i + 1]);
        }
        lemma_datagrams_in(rest);
        assert(seq![ds[0]] + rest =~= ds);
    } else {
        assert(body_bytes(rest).len() == 0);
        assert(body_size(rest) == 0);
        assert(seq![ds[0]] =~= ds);
    }
}

/// No datagram takes more than all of them.
proof fn lemma_size_bounds(ds: Seq<DatagramView>, i: int)
    requires
        0 <= i < ds.len(),
    ensures
        ds[i].size() <= body_size(ds),
    decreases ds.len(),
{
    if i > 0 {
        lemma_size_bounds(ds.skip(1), i - 1);
        assert(ds.skip(1)[i - 1] == ds[i]);
    }
}

/// What is encoded decodes back: every datagram, in order, field by field,
/// whatever padding the frame carries after it.
pub proof fn law_decode_gives_back_what_was_encoded(ds: Seq<DatagramView>, padding: Seq<u8>)
    requires
        encoded(ds) is Ok,
    ensures
        decoded(encoded(ds).unwrap() + padding) == Ok::<Seq<DatagramView>, Error>(ds),
        decoded(encoded(ds).unwrap()) == Ok::<Seq<DatagramView>, Error>(ds),
{
    assert forall|i: int| 0 <= i < ds.len() implies #[trigger] ds[i].data.len() < 0x800 by {
        lemma_size_bounds(ds, i);
    }
    lemma_datagrams_in(ds);
    lemma_under_header(body_bytes(ds), padding);
    lemma_under_header(body_bytes(ds), seq![]);
    let payload = payload_bytes(ds);
    assert(payload + seq![] =~= payload);
}

/// The header names the bytes under it, whatever follows them.
proof fn lemma_under_header(body: Seq<u8>, padding: Seq<u8>)
    requires
        body.len() < 0x800,
    ensures
        decoded(le16(0x1000int + body.len()) + body + padding) == datagrams_in(body),
{
    let payload = le16(0x1000int + body.len()) + body + padding;
    assert(u16_at(payload, 0) == 0x1000 + body.len());
    assert(payload.subrange(2, 2int + body.len()) =~= body);
}

/// A frame that decodes carries at least one datagram, and its datagrams take
/// the length its header gives.
pub proof fn law_decoded_fills_the_length(payload: Seq<u8>)
    requires
        decoded(payload) is Ok,
    ensures
        decoded(payload).unwrap().len() > 0,
        body_size(decoded(payload).unwrap()) == u16_at(payload, 0) % 0x800,
{
    lemma_filled(payload.subrange(2, 2 + u16_at(payload, 0) % 0x800));
}

/// Datagrams fill the bytes they are read from.
proof fn lemma_filled(body: Seq<u8>)
    requires
        datagrams_in(body) is Ok,
    ensures
        datagrams_in(body).unwrap().len() > 0,
        body_size(datagrams_in(body).unwrap()) == body.len(),
    decreases body.len(),
{
    reveal(first_in);
    let (d, more) = first_in(body).unwrap();
    let ds = datagrams_in(body).unwrap();
    let rest = body.skip(d.size() as int);
    if more {
        lemma_filled(rest);
        assert(ds.skip(1) =~= datagrams_in(rest).unwrap());
    } else {
        assert(ds.skip(1) =~= seq![]);
        assert(body_size(ds.skip(1)) == 0);
    }
}

/// True of datagrams whose lengths have their four reserved bits clear.
pub open spec fn is_plain(body: Seq<u8>) -> bool
    decreases body.len(),
{
    proof {
        reveal(first_in);
    }
    match first_in(body) {
        Ok((d, more)) => {
            &&& u16_at(body, 6) == d.data.len() + if more {
                0x8000int
            } else {
                0
            }
            &&& more ==> is_plain(body.skip(d.size() as int))
        },
        Err(_) => false,
    }
}

/// A datagram with its reserved bits clear is written as it was read.
proof fn lemma_first_rebuilt(body: Seq<u8>)
    requires
        first_in(body) is Ok,
        ({
            let (d, more) = first_in(body).unwrap();
            u16_at(body, 6) == d.data.len() + if more {
                0x8000int
            } else {
                0
            }
        }),
    ensures
        ({
            let (d, more) = first_in(body).unwrap();
            &&& d.size() <= body.len()
            &&& datagram_bytes(d, more) == body.take(d.size() as int)
        }),
{
    reveal(first_in);
    reveal(datagram_bytes);
    let (d, more) = first_in(body).unwrap();
    let n = d.data.len() as int;
    law_codes_name_commands(d.command, body[0]);
    assert(le32(d.address as int) =~= body.subrange(2, 6));
    assert(le16(u16_at(body, 6)) =~= body.subrange(6, 8));
    assert(le16(d.interrupt as int) =~= body.subrange(8, 10));
    assert(le16(d.working_counter as int) =~= body.subrange(10 + n, 12 + n));
    assert(datagram_bytes(d, more) =~= body.take(d.size() as int));
}

/// Datagrams with their reserved bits clear are written as they were read.
proof fn lemma_rebuilt(body: Seq<u8>)
    requires
        datagrams_in(body) is Ok,
        is_plain(body),
    ensures
        datagrams_in(body).unwrap().len() > 0,
        body_bytes(datagrams_in(body).unwrap()) == body,
    decreases body.len(),
{
    let (d, more) = first_in(body).unwrap();
    let ds = datagrams_in(body).unwrap();
    let rest = body.skip(d.size() as int);
    lemma_first_rebuilt(body);
    if more {
        lemma_rebuilt(rest);
        assert(ds.skip(1) =~= datagrams_in(rest).unwrap());
    } else {
        assert(ds.skip(1) =~= seq![]);
        assert(body_bytes(ds.skip(1)) =~= seq![]);
    }
    assert(ds[0] == d);
    assert(body.take(d.size() as int) + rest =~= body);
}

/// A frame without padding, its reserved bits clear, and no longer than one frame
/// carries, is encoded as it was before it was decoded.
pub proof fn law_encode_gives_back_what_was_decoded(payload: Seq<u8>)
    requires
        decoded(payload) is Ok,
        u16_at(payload, 0) == 0x1000 + payload.len() - 2,
        payload.len() - 2 <= FRAME_DATA_MAX,
        is_plain(payload.skip(2)),
    ensures
        encoded(decoded(payload).unwrap()) == Ok::<Seq<u8>, Error>(payload),
{
    let body = payload.skip(2);
    assert(payload.subrange(2, payload.len() as int) =~= body);
    lemma_rebuilt(body);
    law_decoded_fills_the_length(payload);
    assert(le16(u16_at(payload, 0)) =~= payload.take(2));
    assert(payload.take(2) + body =~= payload);
}

} // verus!
