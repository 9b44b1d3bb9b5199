//! Numbers, datagrams and frames on the wire.

use vstd::prelude::*;

use crate::datagram::{
    body_bytes, body_size, code_of, datagram_bytes, datagrams_in, decode, decoded, encode, encoded,
    first_in, views, DatagramView,
};
use crate::link::Mac;
use crate::wire::{fitted, get_u16, get_u32, part, put_bytes, put_u16, put_u32, put_zeros};
use crate::{Command, Datagram, Error};

verus! {

/// A number is put behind what was there, its low byte first.
pub proof fn law_numbers_are_put_low_byte_first(out: &mut Vec<u8>, x: u16)
    requires
        call_ensures(put_u16, (out, x), ()),
    ensures
        ({
            let n = old(out)@.len() as int;
            &&& final(out)@.len() == n + 2
            &&& final(out)@.take(n) == old(out)@
            &&& final(out)@[n] + 256 * final(out)@[n + 1] == x
        }),
{
    assert(final(out)@.take(old(out)@.len() as int) =~= old(out)@);
}

/// A number of four bytes is put behind what was there, its low byte first.
pub proof fn law_long_numbers_are_put_low_byte_first(out: &mut Vec<u8>, x: u32)
    requires
        call_ensures(put_u32, (out, x), ()),
    ensures
        ({
            let n = old(out)@.len() as int;
            let then = final(out)@;
            &&& then.len() == n + 4
            &&& then.take(n) == old(out)@
            &&& then[n] + 0x100 * then[n + 1] + 0x1_0000 * then[n + 2] + 0x100_0000 * then[n + 3]
                == x
        }),
{
    assert(final(out)@.take(old(out)@.len() as int) =~= old(out)@);
}

/// What is put as a number is what is got of it, wherever in the bytes it stands.
pub proof fn law_numbers_are_got_as_they_were_put(
    bytes: &[u8],
    at: usize,
    short: u16,
    long: u32,
)
    requires
        at + 4 <= bytes@.len(),
        call_ensures(get_u16, (bytes, at), short),
        call_ensures(get_u32, (bytes, at), long),
    ensures
        short % 256 == bytes@[at as int],
        short / 256 == bytes@[at + 1],
        long % 0x1_0000 == short,
        long / 0x1_0000 % 0x100 == bytes@[at + 2],
        long / 0x100_0000 == bytes@[at + 3],
{
}

/// Zeros are put behind what was there, as many as were asked for.
pub proof fn law_zeros_are_put(out: &mut Vec<u8>, n: usize)
    requires
        call_ensures(put_zeros, (out, n), ()),
    ensures
        final(out)@.len() == old(out)@.len() + n,
        final(out)@.take(old(out)@.len() as int) == old(out)@,
        forall|i: int|
            old(out)@.len() <= i < final(out)@.len() ==> #[trigger] final(out)@[i] == 0,
{
    assert(final(out)@.take(old(out)@.len() as int) =~= old(out)@);
}

/// Bytes are put behind what was there, in their order.
pub proof fn law_bytes_are_put(out: &mut Vec<u8>, bytes: &[u8])
    requires
        call_ensures(put_bytes, (out, bytes), ()),
    ensures
        final(out)@.len() == old(out)@.len() + bytes@.len(),
        forall|i: int| 0 <= i < old(out)@.len() ==> #[trigger] final(out)@[i] == old(out)@[i],
        forall|i: int|
            0 <= i < bytes@.len() ==> final(out)@[old(out)@.len() + i] == #[trigger] bytes@[i],
{
}

/// A part of bytes is those from one place up to another, in their order.
pub proof fn law_a_part_is_what_stands_there(bytes: &[u8], from: usize, to: usize, r: Vec<u8>)
    requires
        from <= to <= bytes@.len(),
        call_ensures(part, (bytes, from, to), r),
    ensures
        r@.len() == to - from,
        forall|i: int| 0 <= i < r@.len() ==> #[trigger] r@[i] == bytes@[from + i],
{
}

/// Everyone listens to the address of six bytes 0xff.
pub proof fn law_everyone_is_addressed_by_ones(mac: Mac)
    requires
        call_ensures(Mac::broadcast, (), mac),
    ensures
        mac.0@ == seq![0xffu8, 0xffu8, 0xffu8, 0xffu8, 0xffu8, 0xffu8],
{
    assert(mac.0@ =~= seq![0xffu8, 0xffu8, 0xffu8, 0xffu8, 0xffu8, 0xffu8]);
}

/// Bytes cut or padded to a length keep those there is room for, and zeros follow
/// where there are too few.
pub proof fn law_fitted_keeps_the_first_bytes(bytes: Seq<u8>, n: nat)
    ensures
        fitted(bytes, n).len() == n,
        forall|i: int|
            0 <= i < n && i < bytes.len() ==> #[trigger] fitted(bytes, n)[i] == bytes[i],
        forall|i: int| bytes.len() <= i < n ==> #[trigger] fitted(bytes, n)[i] == 0,
{
}

/// The commands have the codes they have on the wire.
pub proof fn law_each_command_has_its_code(command: Command, r: u8)
    requires
        call_ensures(Command::code, (command,), r),
    ensures
        command is Nop ==> r == 0,
        command is Aprd ==> r == 1,
        command is Apwr ==> r == 2,
        command is Aprw ==> r == 3,
        command is Fprd ==> r == 4,
        command is Fpwr ==> r == 5,
        command is Fprw ==> r == 6,
        command is Brd ==> r == 7,
        command is Bwr ==> r == 8,
        command is Brw ==> r == 9,
        command is Lrd ==> r == 10,
        command is Lwr ==> r == 11,
        command is Lrw ==> r == 12,
        command is Armw ==> r == 13,
        command is Frmw ==> r == 14,
{
}

/// The codes on the wire name the commands they name, and no other code names one.
pub proof fn law_each_code_names_its_command(code: u8, r: Result<Command, Error>)
    requires
        call_ensures(Command::from_code, (code,), r),
    ensures
        code == 0 ==> r == Ok::<Command, Error>(Command::Nop),
        code == 1 ==> r == Ok::<Command, Error>(Command::Aprd),
        code == 2 ==> r == Ok::<Command, Error>(Command::Apwr),
        code == 3 ==> r == Ok::<Command, Error>(Command::Aprw),
        code == 4 ==> r == Ok::<Command, Error>(Command::Fprd),
        code == 5 ==> r == Ok::<Command, Error>(Command::Fpwr),
        code == 6 ==> r == Ok::<Command, Error>(Command::Fprw),
        code == 7 ==> r == Ok::<Command, Error>(Command::Brd),
        code == 8 ==> r == Ok::<Command, Error>(Command::Bwr),
        code == 9 ==> r == Ok::<Command, Error>(Command::Brw),
        code == 10 ==> r == Ok::<Command, Error>(Command::Lrd),
        code == 11 ==> r == Ok::<Command, Error>(Command::Lwr),
        code == 12 ==> r == Ok::<Command, Error>(Command::Lrw),
        code == 13 ==> r == Ok::<Command, Error>(Command::Armw),
        code == 14 ==> r == Ok::<Command, Error>(Command::Frmw),
        code > 14 ==> r == Err::<Command, Error>(Error::NoSuchCommand(code)),
{
}

/// Of every three commands of one kind of address the first has the slave fill the
/// data in, the second has it take the data, and the third both; a multiple write
/// has it filled in, and the command that asks nothing does neither.
pub proof fn law_commands_read_and_write(command: Command, code: u8, reads: bool, writes: bool)
    requires
        call_ensures(Command::code, (command,), code),
        call_ensures(Command::reads, (command,), reads),
        call_ensures(Command::writes, (command,), writes),
    ensures
        reads <==> code != 0 && (code % 3 != 2 || code == 14),
        writes <==> code != 0 && code < 13 && code % 3 != 1,
{
}

/// A datagram says what it was made of, to nobody's count yet, and carries up to
/// 1486 bytes.
pub proof fn law_a_new_datagram_says_what_it_was_made_of(
    command: Command,
    address: u32,
    data: &[u8],
    r: Result<Datagram, Error>,
)
    requires
        call_ensures(Datagram::new, (command, address, data), r),
    ensures
        data@.len() > 1486 ==> r == Err::<Datagram, Error>(Error::DataTooLong(data.len())),
        data@.len() <= 1486 ==> r is Ok,
        r matches Ok(d) ==> {
            &&& d.command == command
            &&& d.index == 0
            &&& d.address == address
            &&& d.interrupt == 0
            &&& d.data@ == data@
            &&& d.working_counter == 0
        },
{
}

/// A datagram at a station has the station in the low half of its address and the
/// offset in the high half, and is otherwise as any other.
pub proof fn law_a_datagram_at_a_station_is_addressed_there(
    command: Command,
    station: u16,
    offset: u16,
    data: &[u8],
    r: Result<Datagram, Error>,
)
    requires
        call_ensures(Datagram::at, (command, station, offset, data), r),
    ensures
        data@.len() > 1486 ==> r == Err::<Datagram, Error>(Error::DataTooLong(data.len())),
        data@.len() <= 1486 ==> r is Ok,
        r matches Ok(d) ==> {
            &&& d.address == station + 0x1_0000 * offset
            &&& d.command == command
            &&& d.index == 0 && d.interrupt == 0 && d.working_counter == 0
            &&& d.data@ == data@
        },
{
}

/// The halves of an address are what it is made of.
pub proof fn law_an_address_is_its_halves(d: &Datagram, station: u16, offset: u16)
    requires
        call_ensures(Datagram::station, (d,), station),
        call_ensures(Datagram::offset, (d,), offset),
    ensures
        d.address == station + 0x1_0000 * offset,
{
}

/// A station replaced leaves all of a datagram but the low half of its address.
pub proof fn law_a_station_is_replaced_alone(d: &mut Datagram, station: u16)
    requires
        call_ensures(Datagram::set_station, (d, station), ()),
    ensures
        final(d).address % 0x1_0000 == station,
        final(d).address / 0x1_0000 == old(d).address / 0x1_0000,
        final(d).command == old(d).command,
        final(d).index == old(d).index,
        final(d).interrupt == old(d).interrupt,
        final(d).data@ == old(d).data@,
        final(d).working_counter == old(d).working_counter,
{
}

/// True where `d` stands in `bytes` from `at` on, and says that more follow where
/// `more` is true.
pub open spec fn stands_at(bytes: Seq<u8>, at: int, d: Datagram, code: u8, more: bool) -> bool {
    let n = d.data@.len() as int;
    &&& 0 <= at && at + 12 + n <= bytes.len()
    &&& bytes[at] == code
    &&& bytes[at + 1] == d.index
    &&& bytes[at + 2] + 0x100 * bytes[at + 3] + 0x1_0000 * bytes[at + 4] + 0x100_0000 * bytes[at
        + 5] == d.address
    &&& bytes[at + 6] + 0x100 * bytes[at + 7] == n + if more {
        0x8000int
    } else {
        0
    }
    &&& bytes[at + 8] + 0x100 * bytes[at + 9] == d.interrupt
    &&& bytes.subrange(at + 10, at + 10 + n) == d.data@
    &&& bytes[at + 10 + n] + 0x100 * bytes[at + 11 + n] == d.working_counter
}

/// The bytes of one datagram, each at its place.
proof fn lemma_stands(bytes: Seq<u8>, at: int, d: Datagram, code: u8, more: bool)
    requires
        d.data@.len() < 0x800,
        0 <= at,
        at + 12 + d.data@.len() <= bytes.len(),
        bytes.subrange(at, at + 12 + d.data@.len()) == datagram_bytes(d@, more),
        code == code_of(d.command),
    ensures
        stands_at(bytes, at, d, code, more),
{
    reveal(datagram_bytes);
    let one = datagram_bytes(d@, more);
    let n = d.data@.len() as int;
    assert forall|i: int| 0 <= i < 12 + n implies #[trigger] bytes[at + i] == one[i] by {
        assert(bytes.subrange(at, at + 12 + n)[i] == bytes[at + i]);
    }
    assert(bytes[at + 0] == one[0]);
    assert(bytes[at + 1] == one[1]);
    assert(bytes[at + 2] == one[2]);
    assert(bytes[at + 3] == one[3]);
    assert(bytes[at + 4] == one[4]);
    assert(bytes[at + 5] == one[5]);
    assert(bytes[at + 6] == one[6]);
    assert(bytes[at + 7] == one[7]);
    assert(bytes[at + 8] == one[8]);
    assert(bytes[at + 9] == one[9]);
    assert(bytes[at + (10 + n)] == one[10 + n]);
    assert(bytes[at + (11 + n)] == one[11 + n]);
    assert forall|i: int| 0 <= i < n implies #[trigger] bytes.subrange(at + 10, at + 10 + n)[i]
        == d.data@[i] by {
        assert(bytes[at + (10 + i)] == one[10 + i]);
    }
    assert(bytes.subrange(at + 10, at + 10 + n) =~= d.data@);
}

/// One datagram is encoded under a header of type 1 that says how many bytes
/// follow, and each of its parts is at its place. More than 1498 bytes no frame
/// carries.
pub proof fn law_one_datagram_is_encoded_at_its_place(
    datagrams: &[Datagram],
    code: u8,
    r: Result<Vec<u8>, Error>,
)
    requires
        datagrams@.len() == 1,
        call_ensures(encode, (datagrams,), r),
        call_ensures(Command::code, (datagrams@[0].command,), code),
    ensures
        ({
            let n = datagrams@[0].data@.len();
            &&& 12 + n <= 1498 <==> r is Ok
            &&& 1498 < 12 + n <= usize::MAX ==> r == Err::<Vec<u8>, Error>(
                Error::FrameTooLong((12 + n) as usize),
            )
            &&& r matches Ok(payload) ==> {
                &&& payload@.len() == 14 + n
                &&& payload@[0] + 256 * payload@[1] == 0x1000 + 12 + n
                &&& stands_at(payload@, 2, datagrams@[0], code, false)
            }
        }),
{
    let ds = views(datagrams@);
    let d = datagrams@[0];
    let n = d.data@.len();
    assert(ds[0] == d@);
    assert(ds.skip(1).len() == 0);
    assert(body_size(ds.skip(1)) == 0);
    assert(body_size(ds) == 12 + n);
    assert(body_bytes(ds.skip(1)) == Seq::<u8>::empty());
    assert(body_bytes(ds) =~= datagram_bytes(d@, false));
    if 12 + n <= 1498 {
        let payload = encoded(ds).unwrap();
        assert(datagram_bytes(d@, false).len() == 12 + n) by {
            reveal(datagram_bytes);
        }
        assert(payload.subrange(2, 14 + n as int) =~= datagram_bytes(d@, false));
        lemma_stands(payload, 2, d, code, false);
    }
}

/// Several datagrams are encoded as the first, which says that more follow, and
/// then as the others would be without it; the header says how many bytes all of
/// them take.
pub proof fn law_the_first_is_encoded_before_the_others(
    datagrams: &[Datagram],
    others: &[Datagram],
    code: u8,
    r: Result<Vec<u8>, Error>,
    s: Result<Vec<u8>, Error>,
)
    requires
        datagrams@.len() > 1,
        others@ == datagrams@.skip(1),
        call_ensures(encode, (datagrams,), r),
        call_ensures(encode, (others,), s),
        call_ensures(Command::code, (datagrams@[0].command,), code),
    ensures
        s matches Ok(rest) ==> {
            let n = datagrams@[0].data@.len();
            let size = 12 + n + rest@.len() - 2;
            &&& size <= 1498 <==> r is Ok
            &&& 1498 < size <= usize::MAX ==> r == Err::<Vec<u8>, Error>(
                Error::FrameTooLong(size as usize),
            )
            &&& r matches Ok(payload) ==> {
                &&& payload@.len() == 2 + size
                &&& payload@[0] + 256 * payload@[1] == 0x1000 + size
                &&& stands_at(payload@, 2, datagrams@[0], code, true)
                &&& payload@.skip(14 + n as int) == rest@.skip(2)
            }
        },
        s matches Err(e) ==> e matches Error::FrameTooLong(m) && {
            let size = 12 + datagrams@[0].data@.len() + m;
            &&& m > 1498
            &&& r matches Err(Error::FrameTooLong(k))
            &&& size <= usize::MAX ==> k == size
        },
{
    let ds = views(datagrams@);
    let es = views(others@);
    let d = datagrams@[0];
    let n = d.data@.len();
    assert(ds[0] == d@);
    assert(ds.skip(1) =~= es);
    assert(body_size(ds) == 12 + n + body_size(es));
    assert(body_bytes(ds) == datagram_bytes(d@, true) + body_bytes(es));
    if body_size(ds) <= 1498 {
        let payload = encoded(ds).unwrap();
        let rest = encoded(es).unwrap();
        lemma_length(es);
        assert(datagram_bytes(d@, true).len() == 12 + n) by {
            reveal(datagram_bytes);
        }
        assert(payload.subrange(2, 14 + n as int) =~= datagram_bytes(d@, true));
        lemma_stands(payload, 2, d, code, true);
        assert(payload.skip(14 + n as int) =~= rest.skip(2));
    } else if body_size(es) <= 1498 {
        lemma_length(es);
    }
}

/// Datagrams take as many bytes as they are counted for.
proof fn lemma_length(ds: Seq<DatagramView>)
    ensures
        body_bytes(ds).len() == body_size(ds),
    decreases ds.len(),
{
    if ds.len() > 0 {
        reveal(datagram_bytes);
        lemma_length(ds.skip(1));
    }
}

/// Nothing is not encoded.
pub proof fn law_nothing_is_not_encoded(datagrams: &[Datagram], r: Result<Vec<u8>, Error>)
    requires
        datagrams@.len() == 0,
        call_ensures(encode, (datagrams,), r),
    ensures
        r == Err::<Vec<u8>, Error>(Error::NoDatagram),
{
}

/// A frame is refused for its header where that is not there, is not of type 1, or
/// says more bytes than follow; three of its bits say nothing.
pub proof fn law_a_frame_is_refused_for_its_header(
    payload: &[u8],
    r: Result<Vec<Datagram>, Error>,
)
    requires
        call_ensures(decode, (payload,), r),
    ensures
        payload@.len() < 2 ==> r == Err::<Vec<Datagram>, Error>(Error::ShortHeader),
        payload@.len() >= 2 && payload@[1] / 16 != 1 ==> r == Err::<Vec<Datagram>, Error>(
            Error::NotTypeOne,
        ),
        payload@.len() >= 2 && payload@[1] / 16 == 1 && payload@.len() < 2 + payload@[0] + 256 * (
        payload@[1] % 8) ==> r == Err::<Vec<Datagram>, Error>(Error::LengthPastEnd),
{
}

/// What the first datagram of a frame with enough bytes for its header says, and
/// what it is refused for.
pub proof fn law_the_first_datagram_is_decoded_from_its_place(
    payload: &[u8],
    r: Result<Vec<Datagram>, Error>,
)
    requires
        call_ensures(decode, (payload,), r),
        payload@.len() >= 2,
        payload@[1] / 16 == 1,
        payload@.len() >= 2 + payload@[0] + 256 * (payload@[1] % 8),
    ensures
        ({
            let p = payload@;
            let length = p[0] + 256 * (p[1] % 8);
            let n = p[8] + 256 * (p[9] % 8);
            &&& length < 10 ==> r == Err::<Vec<Datagram>, Error>(Error::ShortDatagram)
            &&& 10 <= length < 10 + n ==> r == Err::<Vec<Datagram>, Error>(Error::DatagramPastEnd)
            &&& 10 + n <= length < 12 + n ==> r == Err::<Vec<Datagram>, Error>(
                Error::NoWorkingCounter,
            )
            &&& 12 + n <= length && p[2] > 14 ==> r == Err::<Vec<Datagram>, Error>(
                Error::NoSuchCommand(p[2]),
            )
            &&& 12 + n < length && p[2] <= 14 && p[9] < 0x80 ==> r == Err::<Vec<Datagram>, Error>(
                Error::TrailingBytes,
            )
            &&& 12 + n == length && p[2] <= 14 && p[9] < 0x80 ==> {
                &&& r matches Ok(datagrams)
                &&& datagrams@.len() == 1
                &&& says(p, datagrams@[0]@)
            }
            &&& r matches Ok(datagrams) ==> {
                &&& datagrams@.len() > 0
                &&& says(p, datagrams@[0]@)
                &&& datagrams@.len() == 1 <==> p[9] < 0x80
            }
        }),
{
    let p = payload@;
    let length = p[0] + 256 * (p[1] % 8);
    lemma_low_bits(p[0], p[1]);
    let body = p.subrange(2, 2 + length);
    assert(decoded(p) == datagrams_in(body));
    lemma_first(p, length);
    if let Ok((d, more)) = first_in(body) {
        assert(body.skip(d.size() as int).len() == length - d.size());
        if more {
            lemma_at_least_one(body.skip(d.size() as int));
        }
        if let Ok(datagrams) = r {
            let ds = views(datagrams@);
            assert(Ok::<Seq<DatagramView>, Error>(ds) == datagrams_in(body));
            assert(ds.len() > 0 && ds[0] == d);
            assert(ds[0] == datagrams@[0]@);
        }
    }
}

/// Eleven bits of two bytes.
proof fn lemma_low_bits(low: u8, high: u8)
    ensures
        (low + 256 * high) % 0x800 == low + 256 * (high % 8),
        (low + 256 * high) / 0x1000 == high / 16,
        (low + 256 * high) / 0x8000 == high / 128,
{
}

/// What the first datagram in `length` bytes of the frame `p` says, and what it is
/// refused for.
proof fn lemma_first(p: Seq<u8>, length: int)
    requires
        0 <= length,
        2 + length <= p.len(),
    ensures
        ({
            let n = p[8] + 256 * (p[9] % 8);
            let r = first_in(p.subrange(2, 2 + length));
            &&& length < 10 ==> r == Err::<(DatagramView, bool), Error>(Error::ShortDatagram)
            &&& 10 <= length < 10 + n ==> r == Err::<(DatagramView, bool), Error>(
                Error::DatagramPastEnd,
            )
            &&& 10 + n <= length < 12 + n ==> r == Err::<(DatagramView, bool), Error>(
                Error::NoWorkingCounter,
            )
            &&& 12 + n <= length && p[2] > 14 ==> r == Err::<(DatagramView, bool), Error>(
                Error::NoSuchCommand(p[2]),
            )
            &&& 12 + n <= length && p[2] <= 14 ==> {
                &&& r matches Ok((d, more))
                &&& says(p, d)
                &&& d.data.len() == n
                &&& more == (p[9] >= 0x80)
            }
        }),
{
    reveal(first_in);
    let body = p.subrange(2, 2 + length);
    if length >= 10 {
        assert(body[6] == p[8] && body[7] == p[9] && body[0] == p[2]);
        lemma_low_bits(p[8], p[9]);
        let n = p[8] + 256 * (p[9] % 8);
        if length >= 12 + n && p[2] <= 14 {
            assert(body[1] == p[3] && body[2] == p[4] && body[3] == p[5]);
            assert(body[4] == p[6] && body[5] == p[7] && body[8] == p[10] && body[9] == p[11]);
            assert(body[10 + n] == p[12 + n] && body[10 + n + 1] == p[13 + n]);
            assert(body.subrange(10, 10 + n) =~= p.subrange(12, 12 + n));
        }
    }
}

/// What decodes has a datagram in it.
proof fn lemma_at_least_one(body: Seq<u8>)
    ensures
        datagrams_in(body) matches Ok(ds) ==> ds.len() > 0,
{
}

/// True where `d` is what the first datagram in the frame `p` says, part by part.
pub open spec fn says(p: Seq<u8>, d: DatagramView) -> bool {
    let n = p[8] + 256 * (p[9] % 8);
    &&& p[2] == 7 <==> d.command is Brd
    &&& p[2] == 8 <==> d.command is Bwr
    &&& p[2] == 9 <==> d.command is Brw
    &&& p[2] == 1 <==> d.command is Aprd
    &&& p[2] == 2 <==> d.command is Apwr
    &&& p[2] == 3 <==> d.command is Aprw
    &&& p[2] == 4 <==> d.command is Fprd
    &&& p[2] == 5 <==> d.command is Fpwr
    &&& p[2] == 6 <==> d.command is Fprw
    &&& p[2] == 10 <==> d.command is Lrd
    &&& p[2] == 11 <==> d.command is Lwr
    &&& p[2] == 12 <==> d.command is Lrw
    &&& p[2] == 13 <==> d.command is Armw
    &&& p[2] == 14 <==> d.command is Frmw
    &&& p[2] == 0 <==> d.command is Nop
    &&& d.index == p[3]
    &&& d.address == p[4] + 0x100 * p[5] + 0x1_0000 * p[6] + 0x100_0000 * p[7]
    &&& d.interrupt == p[10] + 0x100 * p[11]
    &&& d.data == p.subrange(12, 12 + n)
    &&& d.working_counter == p[12 + n] + 0x100 * p[13 + n]
}

/// A frame whose first datagram says that more follow is decoded as that datagram
/// and what the rest of the frame would be decoded as; where the rest is refused,
/// so is the frame.
pub proof fn law_the_others_are_decoded_after_the_first(
    payload: &[u8],
    rest: &[u8],
    r: Result<Vec<Datagram>, Error>,
    s: Result<Vec<Datagram>, Error>,
)
    requires
        call_ensures(decode, (payload,), r),
        call_ensures(decode, (rest,), s),
        payload@.len() >= 2,
        payload@[1] / 16 == 1,
        payload@.len() >= 2 + payload@[0] + 256 * (payload@[1] % 8),
        ({
            let p = payload@;
            let length = p[0] + 256 * (p[1] % 8);
            let n = p[8] + 256 * (p[9] % 8);
            &&& 12 + n <= length
            &&& p[2] <= 14
            &&& p[9] >= 0x80
            &&& rest@.len() == 2 + length - 12 - n
            &&& rest@[0] + 256 * rest@[1] == 0x1000 + length - 12 - n
            &&& rest@.skip(2) == p.subrange(14 + n, 2 + length)
        }),
    ensures
        s matches Err(e) ==> r == Err::<Vec<Datagram>, Error>(e),
        s matches Ok(others) ==> {
            &&& r matches Ok(datagrams)
            &&& datagrams@.len() == 1 + others@.len()
            &&& forall|i: int|
                0 <= i < others@.len() ==> datagrams@[i + 1]@ == (#[trigger] others@[i])@
        },
{
    let p = payload@;
    let length = p[0] + 256 * (p[1] % 8);
    let n = p[8] + 256 * (p[9] % 8);
    let body = p.subrange(2, 2 + length);
    lemma_low_bits(p[0], p[1]);
    lemma_low_bits(rest@[0], rest@[1]);
    lemma_first(p, length);
    let (d, more) = first_in(body).unwrap();
    let left = body.skip(d.size() as int);
    assert(left =~= p.subrange(14 + n, 2 + length));
    assert(rest@.subrange(2, rest@.len() as int) =~= rest@.skip(2));
    assert(decoded(p) == datagrams_in(body));
    assert(decoded(rest@) == datagrams_in(left));
    if let Ok(others) = s {
        if let Ok(datagrams) = r {
            assert(views(datagrams@) == seq![d] + views(others@));
            assert(views(datagrams@).len() == 1 + views(others@).len());
            assert forall|i: int| 0 <= i < others@.len() implies datagrams@[i + 1]@ == (
            #[trigger] others@[i])@ by {
                assert(views(datagrams@)[i + 1] == datagrams@[i + 1]@);
                assert(views(datagrams@)[i + 1] == views(others@)[i]);
            }
        }
    }
}

/// A datagram's view says what its fields say.
pub proof fn law_a_datagram_is_its_fields(d: Datagram)
    ensures
        d@.command == d.command,
        d@.index == d.index,
        d@.address == d.address,
        d@.interrupt == d.interrupt,
        d@.data == d.data@,
        d@.working_counter == d.working_counter,
{
}

} // verus!
