//! A slave, and a ring of them.

use vstd::prelude::*;

use crate::datagram::{decode, encode, views, DatagramView};
use crate::link::Frame;
use crate::mailbox::{law_message_decodes_back, message_in, MessageView};
use crate::sdo::{OpeningView, SdoView};
use crate::segment::{first_at, round, rounds};
use crate::slave::{law_answer_fits_the_mailbox, law_pass_keeps, SlaveView, TransferView};
use crate::{Command, Datagram, Error, Segment, Slave};

verus! {

/// A new slave has its station and four zero bytes as its device type, and nothing
/// waits in it.
pub proof fn law_a_new_slave_holds_its_device_type(station: u16, slave: Slave)
    requires
        call_ensures(Slave::new, (station,), slave),
    ensures
        slave@.station == station,
        forall|index: u16, subindex: u8|
            #[trigger] slave@.objects.contains_key((index, subindex)) <==> index == 0x1000
                && subindex == 0,
        slave@.objects[(0x1000, 0)] == seq![0u8, 0u8, 0u8, 0u8],
        slave@.outbox is None,
        slave@.download is None,
        slave@.upload is None,
{
}

/// An object given to a slave is what it holds there; every other it holds as it
/// did, and its station is the same.
pub proof fn law_an_object_is_held_as_it_was_given(
    before: Slave,
    index: u16,
    subindex: u8,
    bytes: Vec<u8>,
    slave: Slave,
    other: u16,
    sub: u8,
    was: Option<&[u8]>,
    is: Option<&[u8]>,
    stood: u16,
    stands: u16,
)
    requires
        call_ensures(Slave::with_object, (before, index, subindex, bytes), slave),
        call_ensures(Slave::object, (&before, other, sub), was),
        call_ensures(Slave::object, (&slave, other, sub), is),
        call_ensures(Slave::station, (&before,), stood),
        call_ensures(Slave::station, (&slave,), stands),
    ensures
        other == index && sub == subindex ==> (is matches Some(held) && held@ == bytes@),
        other != index || sub != subindex ==> (was is Some <==> is is Some) && (was is Some
            ==> is.unwrap()@ == was.unwrap()@),
        stands == stood,
        slave@.outbox == before@.outbox,
        slave@.download == before@.download,
        slave@.upload == before@.upload,
{
}

/// A datagram that passes a slave stays what it is, but for its data, its count and
/// a position; a position is one more behind every slave.
pub proof fn law_a_datagram_stays_what_it_is(slave: &mut Slave, datagram: &mut Datagram)
    requires
        call_ensures(Slave::pass, (slave, datagram), ()),
    ensures
        ({
            let d = *old(datagram);
            let on = *final(datagram);
            let position = d.command is Aprd || d.command is Apwr || d.command is Aprw;
            &&& on.command == d.command
            &&& on.index == d.index
            &&& on.interrupt == d.interrupt
            &&& on.data@.len() == d.data@.len()
            &&& on.address / 0x1_0000 == d.address / 0x1_0000
            &&& position ==> on.address % 0x1_0000 == (d.address % 0x1_0000 + 1) % 0x1_0000
            &&& !position ==> on.address == d.address
            &&& final(slave)@.station == old(slave)@.station
        }),
{
    law_pass_keeps(old(slave)@, old(datagram)@);
    reveal(SlaveView::pass);
}

/// Position commands are for the slave at position zero, fixed commands for the
/// one at their station, broadcasts for every slave, reads and writes alike; the
/// logical ones, the multiple writes and the command that asks nothing are for
/// nobody, and who a command is not for lets it be.
pub proof fn law_a_slave_lets_be_what_is_not_for_it(slave: &mut Slave, datagram: &mut Datagram)
    requires
        call_ensures(Slave::pass, (slave, datagram), ()),
        ({
            let station = old(datagram).address % 0x1_0000;
            match old(datagram).command {
                Command::Aprd | Command::Apwr | Command::Aprw => station != 0,
                Command::Fprd | Command::Fpwr | Command::Fprw => station != old(slave)@.station,
                Command::Brd | Command::Bwr | Command::Brw => false,
                Command::Nop | Command::Armw | Command::Frmw => true,
                Command::Lrd | Command::Lwr | Command::Lrw => true,
            }
        }),
    ensures
        final(slave)@ == old(slave)@,
        final(datagram).data@ == old(datagram).data@,
        final(datagram).working_counter == old(datagram).working_counter,
{
    reveal(SlaveView::pass);
}

/// True where `d` reads, and is for a slave at `station`.
pub open spec fn reads_from(d: Datagram, station: u16) -> bool {
    ||| d.command is Brd
    ||| d.command is Aprd && d.address % 0x1_0000 == 0
    ||| d.command is Fprd && d.address % 0x1_0000 == station
}

/// True where `d` writes, or reads and writes in one, and is for a slave at
/// `station`.
pub open spec fn writes_to(d: Datagram, station: u16) -> bool {
    ||| d.command is Bwr || d.command is Brw
    ||| (d.command is Apwr || d.command is Aprw) && d.address % 0x1_0000 == 0
    ||| (d.command is Fpwr || d.command is Fprw) && d.address % 0x1_0000 == station
}

/// A read finds the station at 0x0010, that the slave is operational at 0x0130, and
/// the message that waits at 0x1100, which then waits no more; it is counted. What
/// there is too little of is filled up with zeros. A read of anything else finds
/// nothing and is not counted.
pub proof fn law_a_read_finds_what_is_there(slave: &mut Slave, datagram: &mut Datagram)
    requires
        call_ensures(Slave::pass, (slave, datagram), ()),
        reads_from(*old(datagram), old(slave)@.station),
    ensures
        ({
            let d = *old(datagram);
            let on = *final(datagram);
            let before = old(slave)@;
            let after = final(slave)@;
            let offset = d.address / 0x1_0000;
            let counted = on.working_counter == (d.working_counter + 1) % 0x1_0000;
            let let_be = after == before && on.data@ == d.data@ && on.working_counter
                == d.working_counter;
            &&& offset == 0x0010 ==> {
                &&& counted && after == before
                &&& d.data@.len() >= 2 ==> on.data@[0] + 256 * on.data@[1] == before.station
                &&& d.data@.len() == 1 ==> on.data@[0] == before.station % 256
                &&& forall|i: int| 2 <= i < d.data@.len() ==> #[trigger] on.data@[i] == 0
            }
            &&& offset == 0x0130 ==> {
                &&& counted && after == before
                &&& d.data@.len() > 0 ==> on.data@[0] == 8
                &&& forall|i: int| 1 <= i < d.data@.len() ==> #[trigger] on.data@[i] == 0
            }
            &&& offset == 0x1100 ==> match before.outbox {
                None => let_be,
                Some(message) => {
                    &&& counted
                    &&& after.outbox is None
                    &&& after.objects == before.objects
                    &&& after.download == before.download
                    &&& after.upload == before.upload
                    &&& forall|i: int|
                        0 <= i < d.data@.len() ==> #[trigger] on.data@[i] == if i < message.len() {
                            message[i]
                        } else {
                            0
                        }
                },
            }
            &&& offset != 0x0010 && offset != 0x0130 && offset != 0x1100 ==> let_be
        }),
{
    reveal(SlaveView::pass);
}

/// A write into the mailbox at 0x1000 that it holds, 256 bytes at most, is taken and
/// counted, whether the command also reads or not; any other is let be. The data
/// goes on as it came.
pub proof fn law_a_write_is_taken_by_the_mailbox(slave: &mut Slave, datagram: &mut Datagram)
    requires
        call_ensures(Slave::pass, (slave, datagram), ()),
        writes_to(*old(datagram), old(slave)@.station),
    ensures
        ({
            let d = *old(datagram);
            let on = *final(datagram);
            let taken = d.address / 0x1_0000 == 0x1000 && d.data@.len() <= 256;
            &&& on.data@ == d.data@
            &&& taken ==> {
                &&& final(slave)@ == old(slave)@.receive(d.data@)
                &&& final(slave)@.outbox is Some
                &&& on.working_counter == (d.working_counter + 1) % 0x1_0000
            }
            &&& !taken ==> final(slave)@ == old(slave)@ && on.working_counter == d.working_counter
        }),
{
    reveal(SlaveView::pass);
    reveal(SlaveView::receive);
}

/// What the mailbox holds that is no message is answered with an abort under no
/// counter: its sixteen bytes say the length ten, that it is a response, the object
/// 0x0000:00 and the code 0x05040001. Nothing else of the slave changes.
pub proof fn law_what_is_no_message_is_aborted(slave: SlaveView, bytes: Seq<u8>)
    requires
        message_in(bytes) is Err,
    ensures
        ({
            let after = slave.receive(bytes);
            &&& after.outbox == Some(
                seq![
                    10u8,
                    0u8,
                    0u8,
                    0u8,
                    0u8,
                    3u8,
                    0u8,
                    0x30u8,
                    0x80u8,
                    0u8,
                    0u8,
                    0u8,
                    0x01u8,
                    0u8,
                    0x04u8,
                    0x05u8,
                ],
            )
            &&& after.station == slave.station
            &&& after.objects == slave.objects
            &&& after.download == slave.download
            &&& after.upload == slave.upload
        }),
{
    reveal(SlaveView::receive);
    reveal(SdoView::bytes);
    let said = slave.receive(bytes).outbox.unwrap();
    assert(said.len() == 16);
    assert(said =~= seq![
        10u8,
        0u8,
        0u8,
        0u8,
        0u8,
        3u8,
        0u8,
        0x30u8,
        0x80u8,
        0u8,
        0u8,
        0u8,
        0x01u8,
        0u8,
        0x04u8,
        0x05u8,
    ]);
}

/// A message is served, and the answer waits under the three low bits of its
/// counter.
pub proof fn law_a_message_is_answered_under_its_counter(slave: SlaveView, bytes: Seq<u8>)
    requires
        message_in(bytes) is Ok,
    ensures
        ({
            let asked = message_in(bytes).unwrap();
            let (served, answer) = slave.serve(asked.sdo);
            let after = slave.receive(bytes);
            &&& after.outbox matches Some(said)
            &&& message_in(said) == Ok::<MessageView, Error>(
                MessageView { counter: (asked.counter % 8) as u8, sdo: answer },
            )
            &&& said.len() <= 256
            &&& after.station == served.station
            &&& after.objects == served.objects
            &&& after.download == served.download
            &&& after.upload == served.upload
        }),
{
    reveal(SlaveView::receive);
    let asked = message_in(bytes).unwrap();
    let answer = slave.serve(asked.sdo).1;
    let low = (asked.counter % 8) as u8;
    let said = MessageView { counter: low, sdo: answer };
    law_answer_fits_the_mailbox(slave, asked.sdo, low);
    law_message_decodes_back(said, seq![]);
    assert(said.bytes() + seq![] =~= said.bytes());
    assert(low % 8 == asked.counter % 8);
    assert((MessageView { counter: asked.counter, sdo: answer }).bytes() == said.bytes());
}

/// Nothing that is asked moves a slave or changes what waits in it.
pub proof fn law_serving_moves_nobody(slave: SlaveView, asked: SdoView)
    ensures
        slave.serve(asked).0.station == slave.station,
        slave.serve(asked).0.outbox == slave.outbox,
{
    reveal(SlaveView::serve);
}

/// An object the slave does not hold is neither written nor read: the answer is an
/// abort with the code 0x06020000.
pub proof fn law_an_unknown_object_is_aborted(slave: SlaveView, index: u16, subindex: u8)
    requires
        !slave.objects.contains_key((index, subindex)),
    ensures
        forall|opening: OpeningView|
            #![trigger slave.serve(SdoView::InitiateDownload { index, subindex, opening })]
            slave.serve(SdoView::InitiateDownload { index, subindex, opening }) == (
                slave,
                SdoView::Abort { index, subindex, code: 0x0602_0000 },
            ),
        slave.serve(SdoView::InitiateUpload { index, subindex }) == (
            slave,
            SdoView::Abort { index, subindex, code: 0x0602_0000 },
        ),
{
    reveal(SlaveView::serve);
}

/// An object that comes whole, as an opening carries it, is held from then on;
/// what came beyond its size is not. Nothing else changes, and it is accepted.
pub proof fn law_a_whole_object_is_written_at_once(
    slave: SlaveView,
    index: u16,
    subindex: u8,
    opening: OpeningView,
    object: Seq<u8>,
)
    requires
        slave.objects.contains_key((index, subindex)),
        object.len() <= 240,
        ({
            ||| opening == OpeningView::Expedited { data: object }
            ||| opening matches OpeningView::Sized { size, data } && size == object.len()
                && size <= data.len() <= 240 && object == data.take(size as int)
        }),
    ensures
        ({
            let (after, answer) = slave.serve(
                SdoView::InitiateDownload { index, subindex, opening },
            );
            &&& answer == SdoView::DownloadAccepted { index, subindex }
            &&& after.objects.contains_key((index, subindex))
            &&& after.objects[(index, subindex)] == object
            &&& forall|other: (u16, u8)|
                other != (index, subindex) ==> {
                    &&& after.objects.contains_key(other) <==> slave.objects.contains_key(other)
                    &&& #[trigger] after.objects[other] == slave.objects[other]
                }
            &&& after.download == slave.download
            &&& after.upload == slave.upload
        }),
{
    reveal(SlaveView::serve);
    if let OpeningView::Expedited { data } = opening {
        assert(data.take(data.len() as int) =~= data);
    }
}

/// An opening that carries less than its size says begins a write of that object,
/// whose first segment has its toggle clear; nothing is held of it yet.
pub proof fn law_a_part_of_an_object_begins_a_write(
    slave: SlaveView,
    index: u16,
    subindex: u8,
    size: u32,
    data: Seq<u8>,
)
    requires
        slave.objects.contains_key((index, subindex)),
        size > data.len() || data.len() > 240,
    ensures
        ({
            let (after, answer) = slave.serve(
                SdoView::InitiateDownload {
                    index,
                    subindex,
                    opening: OpeningView::Sized { size, data },
                },
            );
            &&& answer == SdoView::DownloadAccepted { index, subindex }
            &&& after.objects == slave.objects
            &&& after.download == Some(TransferView { index, subindex, toggle: false, bytes: data })
            &&& after.upload == slave.upload
        }),
{
    reveal(SlaveView::serve);
}

/// A segment with the toggle the write waits for is taken behind what came before
/// it, and the next has the other toggle; the last has the object held as all that
/// came. One with the other toggle ends the write with an abort of the code
/// 0x05030000, and without a write there is none to go on with: 0x05040001.
pub proof fn law_a_segment_is_taken_in_turn(
    slave: SlaveView,
    toggle: bool,
    data: Seq<u8>,
    last: bool,
)
    ensures
        ({
            let (after, answer) = slave.serve(SdoView::DownloadSegment { toggle, data, last });
            &&& after.upload == slave.upload
            &&& slave.download is None ==> after == slave && answer == SdoView::Abort {
                index: 0,
                subindex: 0,
                code: 0x0504_0001,
            }
            &&& slave.download matches Some(write) ==> {
                let object = (write.index, write.subindex);
                &&& toggle != write.toggle ==> {
                    &&& answer == SdoView::Abort {
                        index: write.index,
                        subindex: write.subindex,
                        code: 0x0503_0000,
                    }
                    &&& after.download is None
                    &&& after.objects == slave.objects
                }
                &&& toggle == write.toggle ==> answer == SdoView::SegmentAccepted { toggle }
                &&& toggle == write.toggle && !last ==> {
                    &&& after.objects == slave.objects
                    &&& after.download matches Some(on)
                    &&& on.index == write.index && on.subindex == write.subindex
                    &&& on.toggle != toggle
                    &&& on.bytes == write.bytes + data
                }
                &&& toggle == write.toggle && last ==> {
                    &&& after.download is None
                    &&& after.objects.contains_key(object)
                    &&& after.objects[object] == write.bytes + data
                    &&& forall|other: (u16, u8)|
                        other != object ==> {
                            &&& after.objects.contains_key(other)
                                <==> slave.objects.contains_key(other)
                            &&& #[trigger] after.objects[other] == slave.objects[other]
                        }
                }
            }
        }),
{
    reveal(SlaveView::serve);
}

/// A read is opened with the size of the object and its first bytes, 240 at most;
/// where that is not all, what is left waits to be read on, the first segment with
/// its toggle clear. Reading changes no object.
pub proof fn law_a_read_is_opened_with_the_first_bytes(slave: SlaveView, index: u16, subindex: u8)
    requires
        slave.objects.contains_key((index, subindex)),
    ensures
        ({
            let object = slave.objects[(index, subindex)];
            let (after, answer) = slave.serve(SdoView::InitiateUpload { index, subindex });
            &&& answer matches SdoView::UploadOpened { index: i, subindex: s, opening }
            &&& i == index && s == subindex
            &&& opening matches OpeningView::Sized { size, data }
            &&& object.len() <= u32::MAX ==> size == object.len()
            &&& object.len() > u32::MAX ==> size == u32::MAX
            &&& object.len() <= 240 ==> data == object && after.upload == slave.upload
            &&& object.len() > 240 ==> {
                &&& data.len() == 240
                &&& after.upload matches Some(read)
                &&& read.index == index && read.subindex == subindex && !read.toggle
                &&& data + read.bytes == object
            }
            &&& after.objects == slave.objects
            &&& after.download == slave.download
        }),
{
    reveal(SlaveView::serve);
    let object = slave.objects[(index, subindex)];
    if object.len() > 240 {
        assert(object.take(240) + object.skip(240) =~= object);
    }
}

/// A read goes on with the next bytes, 247 at most, where the toggle is the one it
/// waits for; the last segment carries the last of them. The other toggle ends it
/// with an abort of the code 0x05030000, and without a read there is none to go on
/// with: 0x05040001.
pub proof fn law_a_read_goes_on_in_turn(slave: SlaveView, toggle: bool)
    ensures
        ({
            let (after, answer) = slave.serve(SdoView::UploadSegment { toggle });
            &&& after.objects == slave.objects
            &&& after.download == slave.download
            &&& slave.upload is None ==> after == slave && answer == SdoView::Abort {
                index: 0,
                subindex: 0,
                code: 0x0504_0001,
            }
            &&& slave.upload matches Some(read) ==> {
                &&& toggle != read.toggle ==> {
                    &&& answer == SdoView::Abort {
                        index: read.index,
                        subindex: read.subindex,
                        code: 0x0503_0000,
                    }
                    &&& after.upload is None
                }
                &&& toggle == read.toggle && read.bytes.len() <= 247 ==> {
                    &&& answer == SdoView::UploadData { toggle, data: read.bytes, last: true }
                    &&& after.upload is None
                }
                &&& toggle == read.toggle && read.bytes.len() > 247 ==> {
                    &&& answer matches SdoView::UploadData { toggle: t, data, last }
                    &&& t == toggle && !last && data.len() == 247
                    &&& after.upload matches Some(on)
                    &&& on.index == read.index && on.subindex == read.subindex
                    &&& on.toggle != toggle
                    &&& data + on.bytes == read.bytes
                }
            }
        }),
{
    reveal(SlaveView::serve);
    if let Some(read) = slave.upload {
        if read.bytes.len() > 247 {
            assert(read.bytes.take(247) + read.bytes.skip(247) =~= read.bytes);
        }
    }
}

/// What no client asks, and an abort, end both transfers, and are answered with an
/// abort of the code 0x05040001; the objects stay.
pub proof fn law_what_nobody_asks_ends_both_transfers(slave: SlaveView, asked: SdoView)
    requires
        asked is DownloadAccepted || asked is SegmentAccepted || asked is UploadOpened
            || asked is UploadData || asked is Abort,
    ensures
        ({
            let (after, answer) = slave.serve(asked);
            &&& answer == SdoView::Abort { index: 0, subindex: 0, code: 0x0504_0001 }
            &&& after.download is None
            &&& after.upload is None
            &&& after.objects == slave.objects
        }),
{
    reveal(SlaveView::serve);
}

/// Nobody changes nothing, and one slave alone does what it does.
pub proof fn law_a_ring_of_one_is_that_slave(slave: SlaveView, d: DatagramView)
    ensures
        round(seq![], d) == (Seq::<SlaveView>::empty(), d),
        round(seq![slave], d) == (seq![slave.pass(d).0], slave.pass(d).1),
{
    let one = seq![slave];
    assert(one.drop_last() =~= seq![]);
    assert(round(one.drop_last(), d) == (Seq::<SlaveView>::empty(), d));
    assert(Seq::<SlaveView>::empty().push(slave.pass(d).0) =~= seq![slave.pass(d).0]);
}

/// A datagram passes the slaves in their order: those behind get what those before
/// them let on.
pub proof fn law_slaves_are_passed_in_order(a: Seq<SlaveView>, b: Seq<SlaveView>, d: DatagramView)
    ensures
        ({
            let (first, on) = round(a, d);
            let (second, back) = round(b, on);
            round(a + b, d) == (first + second, back)
        }),
    decreases b.len(),
{
    let (first, on) = round(a, d);
    if b.len() == 0 {
        assert(a + b =~= a);
        assert(first + b =~= first);
    } else {
        let front = b.drop_last();
        law_slaves_are_passed_in_order(a, front, d);
        assert((a + b).drop_last() =~= a + front);
        let (second, reached) = round(front, on);
        let last = b.last().pass(reached).0;
        assert((first + second).push(last) =~= first + second.push(last));
    }
}

/// A frame of one datagram goes round as that datagram.
pub proof fn law_a_frame_of_one_goes_round(slaves: Seq<SlaveView>, d: DatagramView)
    ensures
        rounds(slaves, seq![]) == (slaves, Seq::<DatagramView>::empty()),
        rounds(slaves, seq![d]) == (round(slaves, d).0, seq![round(slaves, d).1]),
{
    let one = seq![d];
    assert(one.drop_last() =~= seq![]);
    assert(rounds(slaves, one.drop_last()) == (slaves, Seq::<DatagramView>::empty()));
    assert(Seq::<DatagramView>::empty().push(round(slaves, d).1) =~= seq![round(slaves, d).1]);
}

/// The datagrams of a frame go round in their order: the later ones find the slaves
/// as the earlier ones left them.
pub proof fn law_datagrams_go_round_in_order(
    slaves: Seq<SlaveView>,
    ds: Seq<DatagramView>,
    es: Seq<DatagramView>,
)
    ensures
        ({
            let (between, first) = rounds(slaves, ds);
            let (after, second) = rounds(between, es);
            rounds(slaves, ds + es) == (after, first + second)
        }),
    decreases es.len(),
{
    let (between, first) = rounds(slaves, ds);
    if es.len() == 0 {
        assert(ds + es =~= ds);
        assert(first + es =~= first);
    } else {
        let front = es.drop_last();
        law_datagrams_go_round_in_order(slaves, ds, front);
        assert((ds + es).drop_last() =~= ds + front);
        let (reached, second) = rounds(between, front);
        let last = round(reached, es.last()).1;
        assert((first + second).push(last) =~= first + second.push(last));
    }
}

/// One slave, and a broadcast that it acts on.
proof fn lemma_broadcast(slave: SlaveView, d: DatagramView)
    ensures
        (d.command is Bwr || d.command is Brw) && d.address / 0x1_0000 == 0x1000 && d.data.len()
            <= 256 ==> slave.pass(d) == (
            slave.receive(d.data),
            DatagramView { working_counter: ((d.working_counter + 1) % 0x1_0000) as u16, ..d },
        ),
        d.command is Brd && d.address / 0x1_0000 == 0x0010 ==> {
            &&& slave.pass(d).0 == slave
            &&& slave.pass(d).1.command is Brd
            &&& slave.pass(d).1.address == d.address
            &&& slave.pass(d).1.data.len() == d.data.len()
            &&& slave.pass(d).1.working_counter == (d.working_counter + 1) % 0x1_0000
            &&& d.data.len() >= 2 ==> slave.pass(d).1.data[0] + 256 * slave.pass(d).1.data[1]
                == slave.station
        },
{
    reveal(SlaveView::pass);
}

/// Every slave on the ring acts on a broadcast write into the mailbox, reading and
/// writing in one or writing alone: each has its receive mailbox written, and the
/// working counter comes back greater by the number of slaves. Nothing else of the
/// datagram changes.
pub proof fn law_a_broadcast_write_reaches_every_slave(slaves: Seq<SlaveView>, d: DatagramView)
    requires
        d.command is Bwr || d.command is Brw,
        d.address / 0x1_0000 == 0x1000,
        d.data.len() <= 256,
    ensures
        ({
            let (after, back) = round(slaves, d);
            &&& after.len() == slaves.len()
            &&& forall|i: int|
                0 <= i < slaves.len() ==> {
                    &&& #[trigger] after[i] == slaves[i].receive(d.data)
                    &&& after[i].outbox is Some
                }
            &&& back.working_counter == (d.working_counter + slaves.len()) % 0x1_0000
            &&& back == DatagramView { working_counter: back.working_counter, ..d }
        }),
    decreases slaves.len(),
{
    if slaves.len() > 0 {
        let front = slaves.drop_last();
        law_a_broadcast_write_reaches_every_slave(front, d);
        let (before, on) = round(front, d);
        lemma_broadcast(slaves.last(), on);
        let (after, back) = round(slaves, d);
        assert forall|i: int| 0 <= i < slaves.len() implies {
            &&& #[trigger] after[i] == slaves[i].receive(d.data)
            &&& after[i].outbox is Some
        } by {
            reveal(SlaveView::receive);
            if i < front.len() {
                assert(after[i] == before[i]);
                assert(front[i] == slaves[i]);
            }
        }
    }
}

/// Every slave on the ring acts on a broadcast read: the working counter comes back
/// greater by the number of slaves, no slave changes, and what comes back is what
/// the last of them wrote.
pub proof fn law_a_broadcast_read_reaches_every_slave(slaves: Seq<SlaveView>, d: DatagramView)
    requires
        d.command is Brd,
        d.address / 0x1_0000 == 0x0010,
    ensures
        ({
            let (after, back) = round(slaves, d);
            &&& after == slaves
            &&& back.command is Brd
            &&& back.address == d.address
            &&& back.data.len() == d.data.len()
            &&& back.working_counter == (d.working_counter + slaves.len()) % 0x1_0000
            &&& slaves.len() > 0 && d.data.len() >= 2 ==> back.data[0] + 256 * back.data[1]
                == slaves.last().station
        }),
    decreases slaves.len(),
{
    if slaves.len() > 0 {
        let front = slaves.drop_last();
        law_a_broadcast_read_reaches_every_slave(front, d);
        lemma_broadcast(slaves.last(), round(front, d).1);
        assert(front.push(slaves.last()) =~= slaves);
    }
}

/// A new ring has its slaves in their order, and nothing waits on it.
pub proof fn law_a_new_ring_is_at_rest(slaves: Vec<Slave>, ring: Segment)
    requires
        call_ensures(Segment::new, (slaves,), ring),
    ensures
        ring@.waiting.len() == 0,
        ring@.slaves.len() == slaves@.len(),
        forall|i: int| 0 <= i < slaves@.len() ==> ring@.slaves[i] == (#[trigger] slaves@[i])@,
{
}

/// Of the slaves at a station the first in the ring is the one looked at, and where
/// there is none nothing is seen.
pub proof fn law_the_first_slave_there_is_looked_at<R, F: FnOnce(&Slave) -> R>(
    ring: &Segment,
    station: u16,
    look: F,
    r: Option<R>,
)
    requires
        call_ensures(Segment::with_slave::<R, F>, (ring, station, look), r),
    ensures
        r is None <==> forall|i: int|
            0 <= i < ring@.slaves.len() ==> (#[trigger] ring@.slaves[i]).station != station,
        r matches Some(seen) ==> exists|i: int|
            {
                &&& 0 <= i < ring@.slaves.len()
                &&& (#[trigger] ring@.slaves[i]).station == station
                &&& forall|j: int| 0 <= j < i ==> (#[trigger] ring@.slaves[j]).station != station
                &&& ring.nth(i)@ == ring@.slaves[i]
                &&& call_ensures(look, (&ring.nth(i),), seen)
            },
{
    if r is Some {
        let i = choose|i: int|
            {
                &&& #[trigger] first_at(ring@.slaves, station, i)
                &&& ring.nth(i)@ == ring@.slaves[i]
                &&& call_ensures(look, (&ring.nth(i),), r->0)
            };
        assert(ring@.slaves[i].station == station);
    }
}

/// A frame of another type than 0x88a4, or one that is not well formed, is dropped
/// without a word.
pub proof fn law_what_is_no_frame_is_dropped(
    ring: &mut Segment,
    frame: &Frame,
    r: Result<(), Error>,
    payload: &[u8],
    s: Result<Vec<Datagram>, Error>,
)
    requires
        call_ensures(Segment::transmit, (ring, frame), r),
        payload@ == frame.payload@,
        call_ensures(decode, (payload,), s),
        frame.ethertype != 0x88a4 || s is Err,
    ensures
        r == Ok::<(), Error>(()),
        final(ring)@ == old(ring)@,
{
}

/// A frame that is well formed goes round, and what comes back of it waits behind
/// all that waited, addressed to who sent it by whom it was sent to. What comes
/// back that is no frame is refused, after it has gone round.
pub proof fn law_a_frame_comes_back_to_who_sent_it(
    ring: &mut Segment,
    frame: &Frame,
    r: Result<(), Error>,
    payload: &[u8],
    out: Vec<Datagram>,
    back: &[Datagram],
    s: Result<Vec<u8>, Error>,
)
    requires
        call_ensures(Segment::transmit, (ring, frame), r),
        frame.ethertype == 0x88a4,
        payload@ == frame.payload@,
        call_ensures(decode, (payload,), Ok::<Vec<Datagram>, Error>(out)),
        views(back@) == rounds(old(ring)@.slaves, views(out@)).1,
        call_ensures(encode, (back,), s),
    ensures
        final(ring)@.slaves == rounds(old(ring)@.slaves, views(out@)).0,
        s matches Err(e) ==> r == Err::<(), Error>(e) && final(ring)@.waiting
            == old(ring)@.waiting,
        s matches Ok(bytes) ==> {
            let n = old(ring)@.waiting.len() as int;
            let now = final(ring)@.waiting;
            &&& r == Ok::<(), Error>(())
            &&& now.len() == n + 1
            &&& now.take(n) == old(ring)@.waiting
            &&& now[n].destination == frame.source
            &&& now[n].source == frame.destination
            &&& now[n].ethertype == 0x88a4
            &&& now[n].payload == bytes@
        },
{
    let n = old(ring)@.waiting.len() as int;
    if s is Ok {
        assert(final(ring)@.waiting.take(n) =~= old(ring)@.waiting);
    }
}

/// The frame that has waited longest is the one received; without one there is
/// none.
pub proof fn law_frames_are_received_in_order(ring: &mut Segment, n: usize, r: Option<Frame>)
    requires
        call_ensures(Segment::waiting, (old(ring),), n),
        call_ensures(Segment::receive, (ring,), r),
    ensures
        final(ring)@.slaves == old(ring)@.slaves,
        n == 0 <==> r is None,
        n == old(ring)@.waiting.len(),
        r is None ==> final(ring)@.waiting.len() == 0,
        r matches Some(frame) ==> {
            let was = old(ring)@.waiting;
            &&& frame.destination == was[0].destination
            &&& frame.source == was[0].source
            &&& frame.ethertype == was[0].ethertype
            &&& frame.payload@ == was[0].payload
            &&& final(ring)@.waiting.len() == was.len() - 1
            &&& forall|i: int|
                0 <= i < was.len() - 1 ==> #[trigger] final(ring)@.waiting[i] == was[i + 1]
        },
{
}

} // verus!
