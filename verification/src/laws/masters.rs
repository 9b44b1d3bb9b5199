//! A master, its frames, and its calls.

use vstd::prelude::*;

use crate::call::{
    asked, call_outcome, called, law_call_on_a_clear_ring, lemma_the_one, the_one,
};
use crate::datagram::{decode, encode, views, DatagramView};
use crate::link::{Frame, FrameView, Mac};
use crate::mailbox::encode_message;
use crate::poll::{poll_datagrams, poll_reply, polling};
use crate::sdo::{Sdo, SdoView};
use crate::segment::{
    count_at, delivered, lemma_count_at, only_at, rounds, Segment, SegmentView,
};
use crate::slave::SlaveView;
use crate::transport::{
    answer_in, exchanged, first_answer, law_ring_answers, lemma_after, marked, EtherCatTransport,
    Marks, MasterView,
};
use crate::{Datagram, Error, Message};

verus! {

/// A new master speaks to its station about the object 0x2000:00, and waits for a
/// second; its marks begin with zero.
pub proof fn law_a_new_master_speaks_about_the_stream(
    link: String,
    source: Mac,
    station: u16,
    master: EtherCatTransport,
    marks: Marks,
    first: u8,
    configured: (u16, u16, u8),
)
    requires
        call_ensures(EtherCatTransport::new, (link, source, station), master),
        call_ensures(EtherCatTransport::configured, (&master,), configured),
        call_ensures(Marks::new, (), marks),
        call_ensures(Marks::next_index, (&marks,), first),
    ensures
        master@.link == link@,
        master@.source == source,
        master@.station == station,
        master@.index == 0x2000,
        master@.subindex == 0,
        master@.timeout == 1_000_000_000,
        configured == (station, 0x2000u16, 0u8),
        first == 0,
{
}

/// A master that is told of another object, or of another time to wait, changes in
/// nothing else; one that is cloned in nothing.
pub proof fn law_a_master_is_told_one_thing(
    master: EtherCatTransport,
    index: u16,
    subindex: u8,
    timeout: u128,
    about: EtherCatTransport,
    timed: EtherCatTransport,
    same: EtherCatTransport,
)
    requires
        call_ensures(EtherCatTransport::about, (master, index, subindex), about),
        call_ensures(EtherCatTransport::timing_out_after, (master, timeout), timed),
        call_ensures(EtherCatTransport::clone, (&master,), same),
    ensures
        about@.index == index && about@.subindex == subindex,
        about@.link == master@.link && about@.source == master@.source,
        about@.station == master@.station && about@.timeout == master@.timeout,
        timed@.timeout == timeout,
        timed@.link == master@.link && timed@.source == master@.source,
        timed@.station == master@.station,
        timed@.index == master@.index && timed@.subindex == master@.subindex,
        same@ == master@,
{
}

/// True where `out` is `given` with every datagram marked `mark`, and nothing else
/// of it changed.
pub open spec fn is_marked(given: Seq<DatagramView>, mark: u8, out: Seq<DatagramView>) -> bool {
    &&& out.len() == given.len()
    &&& forall|i: int|
        #![trigger out[i]]
        0 <= i < out.len() ==> {
            &&& out[i].index == mark
            &&& out[i].command == given[i].command
            &&& out[i].address == given[i].address
            &&& out[i].interrupt == given[i].interrupt
            &&& out[i].data == given[i].data
            &&& out[i].working_counter == given[i].working_counter
        }
}

/// What is marked is marked alike.
proof fn lemma_marked(given: Seq<DatagramView>, mark: u8, out: Seq<DatagramView>)
    requires
        is_marked(given, mark, out),
    ensures
        out == marked(given, mark),
{
    assert forall|i: int| 0 <= i < out.len() implies #[trigger] out[i] == marked(
        given,
        mark,
    )[i] by {}
    assert(out =~= marked(given, mark));
}

/// A frame carries its datagrams to everyone, from the master's address, under the
/// type 0x88a4, each with the next mark; the mark after it is one more, and after
/// 255 it is zero. The mark is spent where there is no such frame, too.
pub proof fn law_a_frame_is_marked(
    master: &EtherCatTransport,
    marks: &mut Marks,
    datagrams: Vec<Datagram>,
    r: Result<(u8, Frame), Error>,
    out: &[Datagram],
    s: Result<Vec<u8>, Error>,
)
    requires
        call_ensures(EtherCatTransport::open_exchange, (master, marks, datagrams), r),
        is_marked(views(datagrams@), old(marks)@, views(out@)),
        call_ensures(encode, (out,), s),
    ensures
        final(marks)@ == (old(marks)@ + 1) % 256,
        s matches Err(e) ==> r == Err::<(u8, Frame), Error>(e),
        s matches Ok(bytes) ==> {
            &&& r matches Ok((mark, frame))
            &&& mark == old(marks)@
            &&& forall|i: int| 0 <= i < 6 ==> #[trigger] frame.destination.0@[i] == 0xff
            &&& frame.source == master@.source
            &&& frame.ethertype == 0x88a4
            &&& frame.payload@ == bytes@
        },
{
    lemma_marked(views(datagrams@), old(marks)@, views(out@));
}

/// A frame answers to a mark where it is of the type 0x88a4, well formed, and its
/// first datagram has that mark. Where none came that does, the master waits on
/// until its time is up.
pub proof fn law_what_answers_to_a_mark(
    master: &EtherCatTransport,
    mark: u8,
    frame: Option<&Frame>,
    elapsed: u128,
    r: Result<Option<Vec<Datagram>>, Error>,
    payload: &[u8],
    s: Result<Vec<Datagram>, Error>,
)
    requires
        call_ensures(EtherCatTransport::listened, (master, mark, frame, elapsed), r),
        frame is Some ==> payload@ == frame.unwrap().payload@ && call_ensures(
            decode,
            (payload,),
            s,
        ),
    ensures
        ({
            let answers = frame is Some && frame.unwrap().ethertype == 0x88a4 && s is Ok
                && s.unwrap()@.len() > 0 && s.unwrap()@[0].index == mark;
            &&& answers ==> {
                &&& r matches Ok(Some(back))
                &&& back@.len() == s.unwrap()@.len()
                &&& forall|i: int|
                    0 <= i < back@.len() ==> (#[trigger] back@[i])@ == s.unwrap()@[i]@
                &&& answer_in(frame.unwrap()@, mark) == Some(views(s.unwrap()@))
            }
            &&& !answers && frame is Some ==> answer_in(frame.unwrap()@, mark) is None
            &&& !answers && elapsed >= master@.timeout ==> r == Err::<
                Option<Vec<Datagram>>,
                Error,
            >(Error::NoAnswer)
            &&& !answers && elapsed < master@.timeout ==> r == Ok::<
                Option<Vec<Datagram>>,
                Error,
            >(None)
        }),
{
    if frame is Some && s is Ok {
        let ds = s.unwrap();
        if ds@.len() > 0 {
            assert(views(ds@)[0] == ds@[0]@);
        }
        if let Ok(Some(back)) = r {
            assert forall|i: int| 0 <= i < back@.len() implies (#[trigger] back@[i])@
                == ds@[i]@ by {
                assert(views(back@)[i] == views(ds@)[i]);
            }
        }
    }
}

/// The frame that answers is the first that does: what waited before it is
/// dropped, what waits behind it waits on. Where none does, all are dropped.
pub proof fn law_the_first_that_answers_is_the_answer(waiting: Seq<FrameView>, mark: u8, k: int)
    ensures
        0 <= k < waiting.len() && answer_in(waiting[k], mark) is Some && (forall|i: int|
            0 <= i < k ==> answer_in(#[trigger] waiting[i], mark) is None) ==> {
            &&& first_answer(waiting, mark).0 == answer_in(waiting[k], mark)
            &&& first_answer(waiting, mark).1 == waiting.skip(k + 1)
        },
        (forall|i: int|
            0 <= i < waiting.len() ==> answer_in(#[trigger] waiting[i], mark) is None) ==> {
            &&& first_answer(waiting, mark).0 is None
            &&& first_answer(waiting, mark).1.len() == 0
        },
    decreases waiting.len(),
{
    if waiting.len() > 0 {
        let rest = waiting.skip(1);
        law_the_first_that_answers_is_the_answer(rest, mark, k - 1);
        assert(forall|i: int| 0 <= i < rest.len() ==> #[trigger] rest[i] == waiting[i + 1]);
        if 0 < k < waiting.len() {
            assert(rest.skip(k) =~= waiting.skip(k + 1));
        }
    }
}

/// An exchange transmits its frame, and gives back what is first to answer to its
/// mark; what waits behind that waits on. Nothing that one frame does not carry is
/// transmitted.
pub proof fn law_an_exchange_is_a_frame_and_its_answer(
    master: &EtherCatTransport,
    marks: &mut Marks,
    ring: &mut Segment,
    datagrams: Vec<Datagram>,
    r: Result<Vec<Datagram>, Error>,
    same: &mut Marks,
    s: Result<(u8, Frame), Error>,
    frame: &Frame,
    sent: &mut Segment,
    t: Result<(), Error>,
)
    requires
        call_ensures(EtherCatTransport::exchange, (master, marks, ring, datagrams), r),
        old(same)@ == old(marks)@,
        call_ensures(EtherCatTransport::open_exchange, (master, same, datagrams), s),
        s is Ok ==> *frame == s.unwrap().1,
        old(sent)@ == old(ring)@,
        call_ensures(Segment::transmit, (sent, frame), t),
    ensures
        final(marks)@ == (old(marks)@ + 1) % 256,
        s matches Err(e) ==> r == Err::<Vec<Datagram>, Error>(e) && final(ring)@ == old(ring)@,
        s matches Ok((mark, _)) ==> {
            let (answer, rest) = first_answer(final(sent)@.waiting, mark);
            &&& final(ring)@.slaves == final(sent)@.slaves
            &&& final(ring)@.waiting == rest
            &&& answer is None ==> r == Err::<Vec<Datagram>, Error>(Error::NoAnswer)
            &&& answer matches Some(back) ==> (r matches Ok(datagrams) && views(datagrams@)
                == back)
        },
{
}

/// True where no frame that waits on the ring answers to `mark`.
pub open spec fn nothing_answers(ring: SegmentView, mark: u8) -> bool {
    forall|i: int|
        0 <= i < ring.waiting.len() ==> answer_in(#[trigger] ring.waiting[i], mark) is None
}

/// Where nothing answers, the ring is unanswered.
pub(crate) proof fn lemma_unanswered(ring: SegmentView, mark: u8)
    requires
        nothing_answers(ring, mark),
    ensures
        ring.unanswered(mark),
{
    law_the_first_that_answers_is_the_answer(ring.waiting, mark, 0);
}

/// Where nothing that waits answers in its place, the answer to a frame is what
/// went round, and then nothing waits.
pub proof fn law_an_exchange_gives_back_what_went_round(
    master: &EtherCatTransport,
    marks: &mut Marks,
    ring: &mut Segment,
    datagrams: Vec<Datagram>,
    r: Result<Vec<Datagram>, Error>,
    out: &[Datagram],
    s: Result<Vec<u8>, Error>,
)
    requires
        call_ensures(EtherCatTransport::exchange, (master, marks, ring, datagrams), r),
        nothing_answers(old(ring)@, old(marks)@),
        is_marked(views(datagrams@), old(marks)@, views(out@)),
        call_ensures(encode, (out,), s),
    ensures
        s matches Err(e) ==> r == Err::<Vec<Datagram>, Error>(e) && final(ring)@ == old(ring)@,
        s is Ok ==> {
            let (slaves, back) = rounds(old(ring)@.slaves, views(out@));
            &&& r matches Ok(datagrams)
            &&& views(datagrams@) == back
            &&& final(ring)@.slaves == slaves
            &&& final(ring)@.waiting.len() == 0
        },
{
    lemma_unanswered(old(ring)@, old(marks)@);
    lemma_marked(views(datagrams@), old(marks)@, views(out@));
    law_ring_answers(old(ring)@, master.with(*old(marks)), views(datagrams@));
}

/// A count is a broadcast read of two bytes at 0x0130, and its working counter is
/// the number; where nothing that waits answers in its place, that is how many
/// slaves there are, in sixteen bits, and the ring stays as it was.
pub proof fn law_a_count_counts_the_slaves(
    out: Vec<Datagram>,
    back: &Vec<Datagram>,
    counted: u16,
    master: &EtherCatTransport,
    marks: &mut Marks,
    ring: &mut Segment,
    r: Result<u16, Error>,
)
    requires
        call_ensures(EtherCatTransport::open_count, (), out),
        call_ensures(EtherCatTransport::counted, (back,), counted),
        call_ensures(EtherCatTransport::count, (master, marks, ring), r),
    ensures
        out@.len() == 1,
        out@[0].command is Brd,
        out@[0].address == 0x0130_0000,
        out@[0].data@ == seq![0u8, 0u8],
        out@[0].working_counter == 0,
        back@.len() == 0 ==> counted == 0,
        back@.len() > 0 ==> counted == back@[0].working_counter,
        final(marks)@ == (old(marks)@ + 1) % 256,
        nothing_answers(old(ring)@, old(marks)@) ==> {
            &&& r matches Ok(n)
            &&& n == old(ring)@.slaves.len() % 0x1_0000
            &&& final(ring)@.slaves == old(ring)@.slaves
            &&& final(ring)@.waiting.len() == 0
        },
{
    assert(views(out@).len() == 1);
    assert(views(out@)[0] == out@[0]@);
    assert(out@[0].data@ =~= seq![0u8, 0u8]);
    if back@.len() > 0 {
        assert(views(back@)[0] == back@[0]@);
    }
    if nothing_answers(old(ring)@, old(marks)@) {
        lemma_unanswered(old(ring)@, old(marks)@);
    }
}

/// A call writes its message into the mailbox at 0x1000 and reads the two bytes of
/// the status at 0x0130, both at its station. The counter of the message is the
/// mark of the frame in three bits, but one where that is zero.
pub proof fn law_a_call_opens_with_a_message_and_a_status(
    marks: &Marks,
    station: u16,
    sdo: &Sdo,
    r: Result<Vec<Datagram>, Error>,
    counter: u8,
    s: Result<Vec<u8>, Error>,
)
    requires
        call_ensures(EtherCatTransport::open_call, (marks, station, sdo), r),
        1 <= counter <= 7,
        marks@ % 8 == counter || (marks@ % 8 == 0 && counter == 1),
        call_ensures(encode_message, (counter, sdo), s),
    ensures
        s matches Err(e) ==> r == Err::<Vec<Datagram>, Error>(e),
        s matches Ok(bytes) ==> {
            &&& bytes@.len() > 1486 ==> r == Err::<Vec<Datagram>, Error>(
                Error::DataTooLong(bytes.len()),
            )
            &&& bytes@.len() <= 1486 ==> {
                &&& r matches Ok(out)
                &&& out@.len() == 2
                &&& out@[0].command is Fpwr
                &&& out@[0].address == station + 0x1_0000 * 0x1000
                &&& out@[0].data@ == bytes@
                &&& out@[0].working_counter == 0 && out@[0].interrupt == 0
                &&& out@[1].command is Fprd
                &&& out@[1].address == station + 0x1_0000 * 0x0130
                &&& out@[1].data@ == seq![0u8, 0u8]
                &&& out@[1].working_counter == 0 && out@[1].interrupt == 0
            }
        },
{
    if let Ok(out) = r {
        assert(views(out@).len() == 2);
        assert(views(out@)[0] == out@[0]@);
        assert(views(out@)[1] == out@[1]@);
        assert(out@[1].data@ =~= seq![0u8, 0u8]);
    }
}

/// A call is accepted where every datagram came back counted once and the status is
/// 8, which is operational. Any other count says that the station is not on the
/// ring; any other status, below or above, is the one the station is refused with.
pub proof fn law_a_call_is_accepted_by_an_operational_station(
    station: u16,
    back: &Vec<Datagram>,
    r: Result<(), Error>,
)
    requires
        call_ensures(EtherCatTransport::accepted, (station, back), r),
        (forall|i: int| 0 <= i < back@.len() ==> (#[trigger] back@[i]).working_counter == 1)
            ==> back@.len() >= 2 && back@[1].data@.len() >= 2,
    ensures
        ({
            let once = forall|i: int|
                0 <= i < back@.len() ==> (#[trigger] back@[i]).working_counter == 1;
            let status = back@[1].data@[0] + 256 * back@[1].data@[1];
            &&& !once ==> r == Err::<(), Error>(Error::NotOnRing(station))
            &&& once && status != 8 ==> r == Err::<(), Error>(
                Error::NotOperational(station, status as u16),
            )
            &&& once && status == 8 ==> r == Ok::<(), Error>(())
        }),
{
    let ds = views(back@);
    assert(forall|i: int| 0 <= i < back@.len() ==> #[trigger] ds[i] == back@[i]@);
    let once = forall|i: int|
        0 <= i < back@.len() ==> (#[trigger] back@[i]).working_counter == 1;
    if once {
        assert forall|i: int| 0 <= i < ds.len() implies (#[trigger] ds[i]).working_counter
            == 1 by {
            assert(back@[i].working_counter == 1);
        }
        assert(ds[1] == back@[1]@);
    } else {
        let i = choose|i: int|
            0 <= i < back@.len() && (#[trigger] back@[i]).working_counter != 1;
        assert(ds[i].working_counter != 1);
    }
}

/// A poll reads the whole mailbox at 0x1100 of its station: 256 bytes.
pub proof fn law_a_poll_reads_the_mailbox(station: u16, out: Vec<Datagram>)
    requires
        call_ensures(EtherCatTransport::poll, (station,), out),
    ensures
        out@.len() == 1,
        out@[0].command is Fprd,
        out@[0].address == station + 0x1_0000 * 0x1100,
        out@[0].interrupt == 0,
        out@[0].data@.len() == 256,
        forall|i: int| 0 <= i < 256 ==> #[trigger] out@[0].data@[i] == 0,
        out@[0].working_counter == 0,
{
    assert(views(out@).len() == 1);
    assert(views(out@)[0] == out@[0]@);
}

/// What a poll that one slave counted brought back is the message it holds, or why
/// it holds none; any other is polled again until the time is up.
pub proof fn law_a_poll_counted_once_is_the_answer(
    master: &EtherCatTransport,
    back: &Vec<Datagram>,
    elapsed: u128,
    r: Result<Option<Sdo>, Error>,
    bytes: &[u8],
    s: Result<Message, Error>,
)
    requires
        back@.len() > 0,
        call_ensures(EtherCatTransport::polled, (master, back, elapsed), r),
        bytes@ == back@[0].data@,
        call_ensures(Message::decode, (bytes,), s),
    ensures
        back@[0].working_counter == 1 ==> match s {
            Err(e) => r == Err::<Option<Sdo>, Error>(e),
            Ok(message) => r matches Ok(Some(sdo)) && sdo@ == message.sdo@,
        },
        back@[0].working_counter != 1 && elapsed >= master@.timeout ==> r == Err::<
            Option<Sdo>,
            Error,
        >(Error::NoMailboxAnswer),
        back@[0].working_counter != 1 && elapsed < master@.timeout ==> r == Ok::<
            Option<Sdo>,
            Error,
        >(None),
{
    assert(views(back@)[0] == back@[0]@);
}

/// True where `rings` are what a ring becomes, poll by poll of `station`.
pub open spec fn are_polled(rings: Seq<SegmentView>, master: MasterView, station: u16) -> bool {
    forall|i: int|
        #![trigger rings[i]]
        0 < i < rings.len() ==> exchanged(
            rings[i - 1],
            master.after((i - 1) as nat),
            poll_datagrams(station),
        ).1 == rings[i]
}

/// What the poll at `i` brought back.
pub open spec fn brought(
    rings: Seq<SegmentView>,
    master: MasterView,
    station: u16,
    i: int,
) -> Result<Seq<DatagramView>, Error> {
    exchanged(rings[i], master.after(i as nat), poll_datagrams(station)).0
}

/// True where the poll at `i` brought back something that is not counted once.
pub open spec fn brought_nothing(
    rings: Seq<SegmentView>,
    master: MasterView,
    station: u16,
    i: int,
) -> bool {
    brought(rings, master, station, i) matches Ok(back) && back[0].working_counter != 1
}

/// Of the polls of a master that waits, the first that is answered is the last; a
/// poll that is refused is the last too; and where none of them is answered, the
/// answer did not come. Each spends a mark.
pub proof fn law_polls_end_with_the_first_that_is_answered(
    rings: Seq<SegmentView>,
    master: MasterView,
    station: u16,
    more: nat,
)
    requires
        1 < rings.len() <= more + 2,
        master.transport.timeout > 0,
        are_polled(rings, master, station),
        forall|i: int|
            0 <= i < rings.len() - 2 ==> #[trigger] brought_nothing(rings, master, station, i),
    ensures
        ({
            let n = rings.len() - 2;
            let (reply, after, cost) = polling(rings[0], master, station, more);
            match brought(rings, master, station, n) {
                Err(e) => reply == Err::<SdoView, Error>(e) && after == rings.last() && cost
                    == n + 1,
                Ok(back) => {
                    &&& back[0].working_counter == 1 ==> {
                        &&& poll_reply(back) == Some(reply)
                        &&& after == rings.last()
                        &&& cost == n + 1
                    }
                    &&& back[0].working_counter != 1 && n == more ==> {
                        &&& reply == Err::<SdoView, Error>(Error::NoMailboxAnswer)
                        &&& after == rings.last()
                        &&& cost == n + 1
                    }
                },
            }
        }),
    decreases more,
{
    lemma_first_poll(rings, master, station);
    lemma_one_poll(rings[0], master, station, more);
    if rings.len() > 2 {
        let n = rings.len() - 2;
        assert(brought_nothing(rings, master, station, 0));
        lemma_later_polls(rings, master, station);
        law_polls_end_with_the_first_that_is_answered(
            rings.skip(1),
            master.after(1),
            station,
            (more - 1) as nat,
        );
        assert(brought(rings.skip(1), master.after(1), station, n - 1) == brought(
            rings,
            master,
            station,
            n,
        ));
    }
}

/// The first poll of several.
proof fn lemma_first_poll(rings: Seq<SegmentView>, master: MasterView, station: u16)
    requires
        rings.len() > 1,
        are_polled(rings, master, station),
    ensures
        exchanged(rings[0], master, poll_datagrams(station)) == (
            brought(rings, master, station, 0),
            rings[1],
        ),
{
    assert(master.after(0) == master);
    assert(rings[1] == exchanged(rings[0], master.after(0), poll_datagrams(station)).1);
}

/// The polls after the first.
proof fn lemma_later_polls(rings: Seq<SegmentView>, master: MasterView, station: u16)
    requires
        rings.len() > 2,
        are_polled(rings, master, station),
        forall|i: int|
            0 <= i < rings.len() - 2 ==> #[trigger] brought_nothing(rings, master, station, i),
    ensures
        ({
            let rest = rings.skip(1);
            let then = master.after(1);
            &&& rest.len() == rings.len() - 1
            &&& rest[0] == rings[1]
            &&& rest.last() == rings.last()
            &&& are_polled(rest, then, station)
            &&& forall|i: int|
                0 <= i < rest.len() - 2 ==> #[trigger] brought_nothing(rest, then, station, i)
            &&& forall|i: int|
                0 <= i < rest.len() ==> #[trigger] brought(rest, then, station, i) == brought(
                    rings,
                    master,
                    station,
                    i + 1,
                )
        }),
{
    let rest = rings.skip(1);
    let then = master.after(1);
    assert forall|i: int| 0 <= i < rest.len() implies #[trigger] brought(rest, then, station, i)
        == brought(rings, master, station, i + 1) by {
        assert(rest[i] == rings[i + 1]);
        lemma_after(master, 1, i as nat);
    }
    assert forall|i: int| #![trigger rest[i]] 0 < i < rest.len() implies exchanged(
        rest[i - 1],
        then.after((i - 1) as nat),
        poll_datagrams(station),
    ).1 == rest[i] by {
        assert(rest[i] == rings[i + 1] && rest[i - 1] == rings[i]);
        lemma_after(master, 1, (i - 1) as nat);
    }
    assert forall|i: int| 0 <= i < rest.len() - 2 implies #[trigger] brought_nothing(
        rest,
        then,
        station,
        i,
    ) by {
        assert(brought_nothing(rings, master, station, i + 1));
        assert(brought(rest, then, station, i) == brought(rings, master, station, i + 1));
    }
}

/// One poll, and how polling goes on with it.
proof fn lemma_one_poll(ring: SegmentView, master: MasterView, station: u16, more: nat)
    ensures
        ({
            let (back, after) = exchanged(ring, master, poll_datagrams(station));
            let whole = polling(ring, master, station, more);
            match back {
                Err(e) => whole == (Err::<SdoView, Error>(e), after, 1nat),
                Ok(back) => {
                    &&& back[0].working_counter == 1 ==> poll_reply(back) is Some && whole == (
                        poll_reply(back).unwrap(),
                        after,
                        1nat,
                    )
                    &&& back[0].working_counter != 1 && (more == 0 || master.transport.timeout
                        == 0) ==> whole == (
                        Err::<SdoView, Error>(Error::NoMailboxAnswer),
                        after,
                        1nat,
                    )
                    &&& back[0].working_counter != 1 && more > 0 && master.transport.timeout
                        > 0 ==> {
                        let rest = polling(after, master.after(1), station, (more - 1) as nat);
                        whole == (rest.0, rest.1, rest.2 + 1)
                    }
                },
            }
        }),
{
    reveal(polling);
}

/// A master that does not wait polls once.
pub proof fn law_who_does_not_wait_polls_once(
    ring: SegmentView,
    master: MasterView,
    station: u16,
    more: nat,
)
    requires
        master.transport.timeout == 0 || more == 0,
    ensures
        ({
            let (back, after) = exchanged(ring, master, poll_datagrams(station));
            let (reply, then, cost) = polling(ring, master, station, more);
            &&& then == after
            &&& cost == 1
            &&& back matches Err(e) ==> reply == Err::<SdoView, Error>(e)
            &&& back matches Ok(back) ==> (back[0].working_counter != 1 ==> reply == Err::<
                SdoView,
                Error,
            >(Error::NoMailboxAnswer))
            &&& back matches Ok(back) ==> (back[0].working_counter == 1 ==> poll_reply(back)
                == Some(reply))
        }),
{
    lemma_one_poll(ring, master, station, more);
}

/// A call is its first frame, what is made of it, and, where that is accepted, the
/// polls for the answer: as many as frames wait, and one more.
pub proof fn law_a_call_is_a_frame_and_its_polls(
    master: &EtherCatTransport,
    marks: &mut Marks,
    ring: &mut Segment,
    station: u16,
    sdo: &Sdo,
    r: Result<Sdo, Error>,
    s: Result<Vec<Datagram>, Error>,
    datagrams: Vec<Datagram>,
    same: &mut Marks,
    sent: &mut Segment,
    t: Result<Vec<Datagram>, Error>,
    back: &Vec<Datagram>,
    there: Result<(), Error>,
)
    requires
        call_ensures(EtherCatTransport::call, (master, marks, ring, station, sdo), r),
        call_ensures(EtherCatTransport::open_call, (&*old(marks), station, sdo), s),
        s is Ok ==> datagrams == s.unwrap(),
        old(same)@ == old(marks)@,
        old(sent)@ == old(ring)@,
        call_ensures(EtherCatTransport::exchange, (master, same, sent, datagrams), t),
        t is Ok ==> *back == t.unwrap(),
        call_ensures(EtherCatTransport::accepted, (station, back), there),
    ensures
        s matches Err(e) ==> {
            &&& r == Err::<Sdo, Error>(e)
            &&& final(ring)@ == old(ring)@
            &&& final(marks)@ == old(marks)@
        },
        s is Ok ==> match (t, there) {
            (Err(e), _) => r == Err::<Sdo, Error>(e) && final(ring)@ == final(sent)@
                && final(marks)@ == final(same)@,
            (Ok(_), Err(e)) => r == Err::<Sdo, Error>(e) && final(ring)@ == final(sent)@
                && final(marks)@ == final(same)@,
            (Ok(_), Ok(_)) => {
                let (answer, after, cost) = polling(
                    final(sent)@,
                    master.with(*final(same)),
                    station,
                    final(sent)@.waiting.len(),
                );
                &&& final(ring)@ == after
                &&& final(marks)@ == (old(marks)@ + 1 + cost) % 256
                &&& answer matches Err(e) ==> r == Err::<Sdo, Error>(e)
                &&& answer matches Ok(said) ==> (r matches Ok(sdo) && sdo@ == said)
            },
        },
{
    reveal(called);
    reveal(asked);
    let (answer, after, cost) = called(old(ring)@, master.with(*old(marks)), station, sdo@);
    assert(master.with(*final(marks)).next_index == (old(marks)@ + cost) % 256);
    assert(master.with(*final(same)) == master.with(*old(marks)).after(1));
}

/// True where the slave at `k`, and no other, is at `station`.
pub open spec fn is_the_one(slaves: Seq<SlaveView>, station: u16, k: int) -> bool {
    &&& 0 <= k < slaves.len()
    &&& slaves[k].station == station
    &&& forall|i: int| 0 <= i < slaves.len() && i != k ==> (#[trigger] slaves[i]).station != station
}

/// The one slave at a station is the only one there.
pub(crate) proof fn lemma_the_only_one(slaves: Seq<SlaveView>, station: u16, k: int)
    requires
        is_the_one(slaves, station, k),
    ensures
        only_at(slaves, station, k),
        the_one(slaves, station) == k,
        count_at(slaves, station) == 1,
{
    assert(only_at(slaves, station, k));
    lemma_the_one(slaves, station, k);
}

/// Nobody at a station counts none there.
pub(crate) proof fn lemma_nobody(slaves: Seq<SlaveView>, station: u16)
    requires
        forall|i: int| 0 <= i < slaves.len() ==> (#[trigger] slaves[i]).station != station,
    ensures
        count_at(slaves, station) == 0,
{
    lemma_count_at(slaves, station);
}

/// Two at a station count not as one.
pub(crate) proof fn lemma_several(slaves: Seq<SlaveView>, station: u16, i: int, j: int)
    requires
        0 <= i < j < slaves.len(),
        slaves[i].station == station,
        slaves[j].station == station,
    ensures
        count_at(slaves, station) != 1,
        count_at(slaves, station) != 0,
{
    lemma_count_at(slaves, station);
    if count_at(slaves, station) == 1 {
        let k = choose|k: int| only_at(slaves, station, k);
        assert(slaves[i].station == station <==> i == k);
        assert(slaves[j].station == station <==> j == k);
    }
}

/// Where nothing that waits answers in its place, a call with what the mailbox
/// holds, to the one slave at a station, is answered by that slave, whose mailbox is
/// then empty; no other slave changes, and two marks are spent.
pub proof fn law_a_call_is_answered_by_the_one_slave_there(
    master: &EtherCatTransport,
    marks: &mut Marks,
    ring: &mut Segment,
    station: u16,
    sdo: &Sdo,
    r: Result<Sdo, Error>,
    body: Vec<u8>,
    k: int,
)
    requires
        call_ensures(EtherCatTransport::call, (master, marks, ring, station, sdo), r),
        call_ensures(Sdo::encode, (sdo,), Ok::<Vec<u8>, Error>(body)),
        body@.len() <= 248,
        nothing_answers(old(ring)@, old(marks)@),
        is_the_one(old(ring)@.slaves, station, k),
    ensures
        ({
            let before = old(ring)@.slaves;
            let after = final(ring)@.slaves;
            let (served, answer) = before[k].serve(sdo@);
            &&& r matches Ok(said)
            &&& said@ == answer
            &&& after.len() == before.len()
            &&& after[k].station == station
            &&& after[k].objects == served.objects
            &&& after[k].download == served.download
            &&& after[k].upload == served.upload
            &&& after[k].outbox is None
            &&& forall|i: int|
                0 <= i < before.len() && i != k ==> #[trigger] after[i] == before[i]
            &&& final(ring)@.waiting.len() == 0
            &&& final(marks)@ == (old(marks)@ + 2) % 256
        }),
{
    let before = old(ring)@;
    lemma_unanswered(before, old(marks)@);
    lemma_the_only_one(before.slaves, station, k);
    reveal(SlaveView::serve);
    reveal(call_outcome);
    law_call_on_a_clear_ring(before, master.with(*old(marks)), station, sdo@);
    assert(master.with(*final(marks)).next_index == (old(marks)@ + 2) % 256);
}

/// Where nothing that waits answers in its place, a call to a station nobody is at
/// is refused, and changes no slave.
pub proof fn law_a_call_to_nobody_is_refused(
    master: &EtherCatTransport,
    marks: &mut Marks,
    ring: &mut Segment,
    station: u16,
    sdo: &Sdo,
    r: Result<Sdo, Error>,
    body: Vec<u8>,
)
    requires
        call_ensures(EtherCatTransport::call, (master, marks, ring, station, sdo), r),
        call_ensures(Sdo::encode, (sdo,), Ok::<Vec<u8>, Error>(body)),
        body@.len() <= 248,
        nothing_answers(old(ring)@, old(marks)@),
        forall|i: int|
            0 <= i < old(ring)@.slaves.len() ==> (#[trigger] old(ring)@.slaves[i]).station
                != station,
    ensures
        r == Err::<Sdo, Error>(Error::NotOnRing(station)),
        final(ring)@.slaves == old(ring)@.slaves,
        final(ring)@.waiting.len() == 0,
        final(marks)@ == (old(marks)@ + 1) % 256,
{
    let before = old(ring)@;
    lemma_unanswered(before, old(marks)@);
    lemma_nobody(before.slaves, station);
    reveal(call_outcome);
    law_call_on_a_clear_ring(before, master.with(*old(marks)), station, sdo@);
    assert forall|bytes: Seq<u8>| #[trigger] delivered(before.slaves, station, bytes)
        == before.slaves by {
        assert(delivered(before.slaves, station, bytes) =~= before.slaves);
    }
    assert(master.with(*final(marks)).next_index == (old(marks)@ + 1) % 256);
}

/// Where nothing that waits answers in its place, a call to a station more than one
/// slave is at is refused.
pub proof fn law_a_call_to_several_is_refused(
    master: &EtherCatTransport,
    marks: &mut Marks,
    ring: &mut Segment,
    station: u16,
    sdo: &Sdo,
    r: Result<Sdo, Error>,
    body: Vec<u8>,
    i: int,
    j: int,
)
    requires
        call_ensures(EtherCatTransport::call, (master, marks, ring, station, sdo), r),
        call_ensures(Sdo::encode, (sdo,), Ok::<Vec<u8>, Error>(body)),
        body@.len() <= 248,
        nothing_answers(old(ring)@, old(marks)@),
        0 <= i < j < old(ring)@.slaves.len() <= 0xffff,
        old(ring)@.slaves[i].station == station,
        old(ring)@.slaves[j].station == station,
    ensures
        r == Err::<Sdo, Error>(Error::NotOnRing(station)),
        final(ring)@.waiting.len() == 0,
        final(marks)@ == (old(marks)@ + 1) % 256,
        forall|n: int|
            0 <= n < old(ring)@.slaves.len() && old(ring)@.slaves[n].station != station
                ==> #[trigger] final(ring)@.slaves[n] == old(ring)@.slaves[n],
{
    let before = old(ring)@;
    lemma_unanswered(before, old(marks)@);
    lemma_several(before.slaves, station, i, j);
    reveal(call_outcome);
    law_call_on_a_clear_ring(before, master.with(*old(marks)), station, sdo@);
    assert(master.with(*final(marks)).next_index == (old(marks)@ + 1) % 256);
}

/// What has no wire form is not called with; what no datagram carries, what no frame
/// carries beside a status, and what no mailbox holds, are refused, and no slave
/// changes.
pub proof fn law_a_call_with_too_much_is_refused(
    master: &EtherCatTransport,
    marks: &mut Marks,
    ring: &mut Segment,
    station: u16,
    sdo: &Sdo,
    r: Result<Sdo, Error>,
    s: Result<Vec<u8>, Error>,
)
    requires
        call_ensures(EtherCatTransport::call, (master, marks, ring, station, sdo), r),
        call_ensures(Sdo::encode, (sdo,), s),
        nothing_answers(old(ring)@, old(marks)@),
        old(ring)@.slaves.len() <= 0xffff,
    ensures
        s matches Err(e) ==> {
            &&& r == Err::<Sdo, Error>(e)
            &&& final(ring)@ == old(ring)@
            &&& final(marks)@ == old(marks)@
        },
        s matches Ok(body) ==> {
            let n = 8 + body@.len();
            &&& n > 1486 && n <= usize::MAX ==> {
                &&& r == Err::<Sdo, Error>(Error::DataTooLong(n as usize))
                &&& final(ring)@ == old(ring)@
                &&& final(marks)@ == old(marks)@
            }
            &&& 1472 < n <= 1486 ==> {
                &&& r == Err::<Sdo, Error>(Error::FrameTooLong((26 + n) as usize))
                &&& final(ring)@ == old(ring)@
                &&& final(marks)@ == (old(marks)@ + 1) % 256
            }
            &&& 256 < n <= 1472 ==> {
                &&& r == Err::<Sdo, Error>(Error::NotOnRing(station))
                &&& final(ring)@.slaves == old(ring)@.slaves
                &&& final(ring)@.waiting.len() == 0
                &&& final(marks)@ == (old(marks)@ + 1) % 256
            }
        },
{
    let before = old(ring)@;
    lemma_unanswered(before, old(marks)@);
    reveal(call_outcome);
    lemma_count_at(before.slaves, station);
    law_call_on_a_clear_ring(before, master.with(*old(marks)), station, sdo@);
    let cost = called(before, master.with(*old(marks)), station, sdo@).2;
    assert(master.with(*final(marks)).next_index == (old(marks)@ + cost) % 256);
}

} // verus!
