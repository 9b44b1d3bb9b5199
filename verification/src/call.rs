//! One mailbox call: what a master asks a station, what it makes of what comes
//! back, and the call as a whole on an in-process ring.

use vstd::prelude::*;

use crate::datagram::{
    address_of, body_size, encoded, outgoing, views, views_of, Command, Datagram, DatagramView,
    DATAGRAM_DATA_MAX, DATAGRAM_OVERHEAD, FRAME_DATA_MAX,
};
use crate::error::Error;
use crate::mailbox::{
    encode_message, message_in, MessageView, MAILBOX_SIZE, RECEIVE_MAILBOX, TRANSMIT_MAILBOX,
};
use crate::poll::{fetched, law_polling_keeps_the_ring, poll_datagrams, polling};
use crate::sdo::{sdo_of, Sdo, SdoView};
use crate::segment::{
    at_rest, count_at, delivered, kept, law_mailbox_write, law_one_there, law_status_read,
    law_what_goes_round_comes_back, lemma_count_at, lemma_kept, only_at, round, rounds, Segment,
    SegmentView,
};
use crate::slave::{law_mailbox_answers, law_receive_keeps, SlaveView, AL_STATUS, OPERATIONAL};
use crate::transport::{
    exchanged, law_exchange_keeps_the_ring, law_ring_answers, lemma_after, marked,
    EtherCatTransport, Marks, MasterView,
};
use crate::wire::{fitted, get_u16, le16, put_zeros, u16_at, zeros};

verus! {

/// The mailbox counter of a call: three bits of the next frame's mark, but never
/// zero.
pub open spec fn call_counter(next_index: u8) -> u8 {
    if next_index % 8 == 0 {
        1
    } else {
        next_index % 8
    }
}

/// What a call asks first: the message into the receive mailbox, and the AL
/// status in the same frame.
pub open spec fn call_datagrams(station: u16, message: Seq<u8>) -> Seq<DatagramView> {
    seq![
        outgoing(Command::Fpwr, address_of(station, RECEIVE_MAILBOX), message),
        outgoing(Command::Fprd, address_of(station, AL_STATUS), zeros(2)),
    ]
}

/// True where every datagram that came back was acted on by one slave.
pub open spec fn all_counted(back: Seq<DatagramView>) -> bool {
    forall|i: int| 0 <= i < back.len() ==> (#[trigger] back[i]).working_counter == 1
}

/// True where what came back of a call's first frame has the AL status in it, if
/// every datagram of it was acted on.
pub open spec fn tells(back: Seq<DatagramView>) -> bool {
    all_counted(back) ==> back.len() >= 2 && back[1].data.len() >= 2
}

/// What to make of what came back of a call's first frame: every datagram has to
/// have been acted on by one slave, and that slave to be operational.
pub open spec fn acceptance(station: u16, back: Seq<DatagramView>) -> Result<(), Error> {
    if !all_counted(back) {
        Err(Error::NotOnRing(station))
    } else if u16_at(back[1].data, 0) != OPERATIONAL {
        Err(Error::NotOperational(station, u16_at(back[1].data, 0) as u16))
    } else {
        Ok(())
    }
}

impl EtherCatTransport {
    /// What a mailbox call to `station` asks first. An SDO without a wire form,
    /// and a message no datagram carries, are refused.
    pub fn open_call(marks: &Marks, station: u16, sdo: &Sdo) -> (r: Result<Vec<Datagram>, Error>)
        ensures
            ({
                let message = MessageView {
                    counter: call_counter(marks@),
                    sdo: sdo@,
                };
                views_of(r) == match message.encoded() {
                    Ok(bytes) => if bytes.len() > DATAGRAM_DATA_MAX {
                        Err::<Seq<DatagramView>, Error>(Error::DataTooLong(bytes.len() as usize))
                    } else {
                        Ok(call_datagrams(station, bytes))
                    },
                    Err(e) => Err(e),
                }
            }),
    {
        let counter = if marks.next_index() % 8 == 0 { 1 } else { marks.next_index() % 8 };
        let message = match encode_message(counter, sdo) {
            Ok(message) => message,
            Err(e) => {
                return Err(e);
            },
        };
        let write = match Datagram::at(
            Command::Fpwr,
            station,
            RECEIVE_MAILBOX,
            message.as_slice(),
        ) {
            Ok(write) => write,
            Err(e) => {
                return Err(e);
            },
        };
        let mut two: Vec<u8> = Vec::new();
        put_zeros(&mut two, 2);
        assert(two@ =~= zeros(2));
        let status = match Datagram::at(Command::Fprd, station, AL_STATUS, two.as_slice()) {
            Ok(status) => status,
            Err(e) => {
                return Err(e);
            },
        };
        let mut datagrams: Vec<Datagram> = Vec::new();
        datagrams.push(write);
        datagrams.push(status);
        assert(views(datagrams@) =~= call_datagrams(station, message@));
        Ok(datagrams)
    }

    /// What to make of what came back of a call's first frame: every datagram
    /// has to have been acted on by one slave, and that slave to be operational.
    pub fn accepted(station: u16, back: &Vec<Datagram>) -> (r: Result<(), Error>)
        requires
            tells(views(back@)),
        ensures
            r == acceptance(station, views(back@)),
    {
        for i in 0..back.len()
            invariant
                forall|j: int| 0 <= j < i ==> (#[trigger] views(back@)[j]).working_counter == 1,
        {
            assert(views(back@)[i as int] == back@[i as int]@);
            if back[i].working_counter != 1 {
                return Err(Error::NotOnRing(station));
            }
        }
        assert(all_counted(views(back@)));
        assert(views(back@)[1] == back@[1]@);
        let status = get_u16(back[1].data.as_slice(), 0);
        if status != OPERATIONAL {
            return Err(Error::NotOperational(station, status));
        }
        Ok(())
    }

}

/// One datagram round, and two.
proof fn lemma_rounds(slaves: Seq<SlaveView>, a: DatagramView, b: DatagramView)
    ensures
        rounds(slaves, seq![a]) == (round(slaves, a).0, seq![round(slaves, a).1]),
        ({
            let (then, back) = round(slaves, a);
            rounds(slaves, seq![a, b]) == (round(then, b).0, seq![back, round(then, b).1])
        }),
{
    let none: Seq<DatagramView> = seq![];
    let one = seq![a];
    let two = seq![a, b];
    let (then, back) = round(slaves, a);
    assert(one.drop_last() =~= none);
    assert(one.last() == a);
    assert(rounds(slaves, none) == (slaves, none));
    assert(none.push(back) =~= seq![back]);
    assert(rounds(slaves, one) == (then, seq![back]));
    assert(two.drop_last() =~= one);
    assert(two.last() == b);
    assert(seq![back].push(round(then, b).1) =~= seq![back, round(then, b).1]);
    assert(rounds(slaves, two) == (round(then, b).0, seq![back, round(then, b).1]));
}

/// Writing a mailbox moves nobody.
proof fn lemma_delivered_stays(slaves: Seq<SlaveView>, station: u16, bytes: Seq<u8>)
    ensures
        delivered(slaves, station, bytes).len() == slaves.len(),
        count_at(delivered(slaves, station, bytes), station) == count_at(slaves, station),
    decreases slaves.len(),
{
    if slaves.len() > 0 {
        lemma_delivered_stays(slaves.drop_last(), station, bytes);
        law_receive_keeps(slaves.last(), bytes);
        assert(delivered(slaves, station, bytes).drop_last() =~= delivered(
            slaves.drop_last(),
            station,
            bytes,
        ));
    }
}

/// What comes back of a call's first frame.
proof fn lemma_call_written(slaves: Seq<SlaveView>, station: u16, message: Seq<u8>, index: u8)
    ensures
        ({
            let (then, backs) = rounds(slaves, marked(call_datagrams(station, message), index));
            let n = count_at(slaves, station);
            &&& backs.len() == 2
            &&& message.len() <= MAILBOX_SIZE ==> {
                &&& then == delivered(slaves, station, message)
                &&& backs[0].working_counter == n % 0x1_0000
                &&& backs[1].working_counter == n % 0x1_0000
                &&& n > 0 ==> backs[1].data == fitted(le16(OPERATIONAL as int), 2)
            }
            &&& message.len() > MAILBOX_SIZE ==> then == slaves && backs[0].working_counter == 0
        }),
{
    let ds = marked(call_datagrams(station, message), index);
    let a = ds[0];
    let b = ds[1];
    assert(ds =~= seq![a, b]);
    lemma_rounds(slaves, a, b);
    assert(a.station() == station && a.offset() == RECEIVE_MAILBOX);
    assert(b.station() == station && b.offset() == AL_STATUS);
    law_mailbox_write(slaves, a);
    lemma_count_at(slaves, station);
    lemma_delivered_stays(slaves, station, message);
    law_status_read(round(slaves, a).0, b);
}

/// The slave at `station`, where there is one.
pub open spec fn the_one(slaves: Seq<SlaveView>, station: u16) -> int {
    choose|k: int| only_at(slaves, station, k)
}

/// The slaves with the one at `k` as `slave`, its transmit mailbox read.
pub open spec fn with_read(slaves: Seq<SlaveView>, k: int, slave: SlaveView) -> Seq<SlaveView> {
    slaves.update(k, SlaveView { outbox: None, ..slave })
}

/// The first half of a call: whether the message was delivered to an operational
/// station, what the ring is then, and how many marks were spent.
#[verifier::opaque]
pub open spec fn asked(ring: SegmentView, master: MasterView, station: u16, sdo: SdoView) -> (
    Result<(), Error>,
    SegmentView,
    nat,
) {
    let message = MessageView { counter: call_counter(master.next_index), sdo };
    match message.encoded() {
        Err(e) => (Err(e), ring, 0),
        Ok(bytes) => if bytes.len() > DATAGRAM_DATA_MAX {
            (Err(Error::DataTooLong(bytes.len() as usize)), ring, 0)
        } else {
            let (back, after) = exchanged(ring, master, call_datagrams(station, bytes));
            match back {
                Err(e) => (Err(e), after, 1),
                Ok(back) => (acceptance(station, back), after, 1),
            }
        },
    }
}

/// What a mailbox call to `station` gives, what the ring is then, and how many
/// marks it spent: one exchange with the message and the AL status, and, where
/// the station is there and operational, polls for the answer.
#[verifier::opaque]
pub open spec fn called(ring: SegmentView, master: MasterView, station: u16, sdo: SdoView) -> (
    Result<SdoView, Error>,
    SegmentView,
    nat,
) {
    let (there, between, cost) = asked(ring, master, station, sdo);
    match there {
        Err(e) => (Err(e), between, cost),
        Ok(_) => {
            let (answer, after, polls) = fetched(between, master.after(cost), station);
            (answer, after, cost + polls)
        },
    }
}

/// True where what comes back of a call's first frame has the AL status in it, if
/// every datagram of it was acted on.
#[verifier::opaque]
pub open spec fn is_told(
    ring: SegmentView,
    master: MasterView,
    station: u16,
    sdo: SdoView,
) -> bool {
    let message = MessageView { counter: call_counter(master.next_index), sdo };
    ||| message.encoded() is Err
    ||| message.bytes().len() > DATAGRAM_DATA_MAX
    ||| match exchanged(ring, master, call_datagrams(station, message.bytes())).0 {
        Ok(back) => tells(back),
        Err(_) => true,
    }
}

/// True where a call can be made: no frame that waits answers in place of its
/// own, or one does that has the AL status in it.
pub open spec fn may_call(
    ring: SegmentView,
    master: MasterView,
    station: u16,
    sdo: SdoView,
) -> bool {
    ||| ring.unanswered(master.next_index)
    ||| is_told(ring, master, station, sdo)
}

/// True of a ring where no frame that waits answers to the mark `index`, and
/// where sixteen bits do not count as one the slaves at `station` that are more.
pub open spec fn clear(ring: SegmentView, index: u8, station: u16) -> bool {
    let n = count_at(ring.slaves, station);
    &&& ring.unanswered(index)
    &&& ring.slaves.len() < 0x1_0000 || n == 1 || n % 0x1_0000 != 1
}

/// What a mailbox call to `station` gives on a clear ring, what the ring is then,
/// and how many marks it spent. The one slave at the station serves the SDO;
/// where there is none, or more than one, or the mailbox does not hold the
/// message, the call is refused.
#[verifier::opaque]
pub open spec fn call_outcome(ring: SegmentView, next_index: u8, station: u16, sdo: SdoView) -> (
    Result<SdoView, Error>,
    SegmentView,
    nat,
) {
    let message = MessageView { counter: call_counter(next_index), sdo };
    let bytes = message.bytes();
    let size = 2 * DATAGRAM_OVERHEAD + bytes.len() + 2;
    match message.encoded() {
        Err(e) => (Err(e), ring, 0),
        Ok(_) => if bytes.len() > DATAGRAM_DATA_MAX {
            (Err(Error::DataTooLong(bytes.len() as usize)), ring, 0)
        } else if size > FRAME_DATA_MAX {
            (Err(Error::FrameTooLong(size as usize)), ring, 1)
        } else if bytes.len() > MAILBOX_SIZE {
            (Err(Error::NotOnRing(station)), at_rest(ring.slaves), 1)
        } else if count_at(ring.slaves, station) != 1 {
            (
                Err(Error::NotOnRing(station)),
                at_rest(delivered(ring.slaves, station, bytes)),
                1,
            )
        } else {
            let k = the_one(ring.slaves, station);
            let (served, answer) = ring.slaves[k].serve(sdo);
            (Ok(answer), at_rest(with_read(ring.slaves, k, served)), 2)
        },
    }
}

/// What comes back of a poll of the one slave at a station that a message was
/// delivered to.
proof fn lemma_call_polled(slaves: Seq<SlaveView>, station: u16, question: MessageView, index: u8)
    requires
        count_at(slaves, station) == 1,
        question.encoded() is Ok,
        question.counter < 8,
        question.bytes().len() <= MAILBOX_SIZE,
    ensures
        ({
            let k = the_one(slaves, station);
            let (served, answer) = slaves[k].serve(question.sdo);
            let (then, backs) = rounds(
                delivered(slaves, station, question.bytes()),
                marked(poll_datagrams(station), index),
            );
            &&& only_at(slaves, station, k)
            &&& backs.len() == 1
            &&& backs[0].working_counter == 1
            &&& message_in(backs[0].data) == Ok::<MessageView, Error>(
                MessageView { counter: question.counter, sdo: answer },
            )
            &&& then == with_read(slaves, k, served)
        }),
{
    let k = the_one(slaves, station);
    let bytes = question.bytes();
    let mid = delivered(slaves, station, bytes);
    let ds = marked(poll_datagrams(station), index);
    let q = ds[0];
    lemma_count_at(slaves, station);
    assert(only_at(slaves, station, k));
    assert(ds =~= seq![q]);
    lemma_rounds(mid, q, q);
    assert(q.station() == station && q.offset() == TRANSMIT_MAILBOX);
    law_mailbox_answers(slaves[k], question);
    assert forall|i: int| 0 <= i < mid.len() implies ((#[trigger] mid[i]).station == station <==> i
        == k) by {
        assert(slaves[i].station == station <==> i == k);
        law_receive_keeps(slaves[i], bytes);
    }
    law_one_there(mid, q, k);
    reveal(SlaveView::pass);
    let got = mid[k].pass(q);
    assert(mid[k] == slaves[k].receive(bytes));
    assert(got.1.working_counter == 1);
    let (served, answer) = slaves[k].serve(question.sdo);
    assert(got.0 =~= SlaveView { outbox: None, ..served });
    assert(mid.update(k, got.0) =~= with_read(slaves, k, served)) by {
        assert forall|i: int| 0 <= i < mid.len() && i != k implies #[trigger] mid[i]
            == slaves[i] by {
            assert(slaves[i].station == station <==> i == k);
        }
    }
}

/// The bytes a call's first frame, and a poll, take.
proof fn lemma_call_sizes(station: u16, message: Seq<u8>, index: u8)
    ensures
        body_size(marked(call_datagrams(station, message), index)) == 2 * DATAGRAM_OVERHEAD
            + message.len() + 2,
        body_size(marked(poll_datagrams(station), index)) == DATAGRAM_OVERHEAD + MAILBOX_SIZE,
{
    let ds = marked(call_datagrams(station, message), index);
    assert(ds.skip(1).len() == 1);
    assert(ds.skip(1)[0] == ds[1]);
    assert(ds.skip(1).skip(1).len() == 0);
    assert(body_size(ds.skip(1).skip(1)) == 0);
    assert(body_size(ds.skip(1)) == ds[1].size());
    let es = marked(poll_datagrams(station), index);
    assert(es.skip(1).len() == 0);
    assert(body_size(es.skip(1)) == 0);
}

/// What a call's own first frame comes back with has the AL status in it.
proof fn lemma_tells(slaves: Seq<SlaveView>, station: u16, message: Seq<u8>, index: u8)
    ensures
        tells(rounds(slaves, marked(call_datagrams(station, message), index)).1),
{
    let ds = marked(call_datagrams(station, message), index);
    law_what_goes_round_comes_back(slaves, ds);
    assert(rounds(slaves, ds).1[1].data.len() == ds[1].data.len());
}

/// A message for the one slave at a station, delivered, is answered by the poll
/// that follows.
proof fn lemma_polled(
    slaves: Seq<SlaveView>,
    master: MasterView,
    station: u16,
    message: MessageView,
)
    requires
        count_at(slaves, station) == 1,
        message.encoded() is Ok,
        message.counter < 8,
        message.bytes().len() <= MAILBOX_SIZE,
    ensures
        ({
            let k = the_one(slaves, station);
            let (served, answer) = slaves[k].serve(message.sdo);
            let ring = at_rest(delivered(slaves, station, message.bytes()));
            fetched(ring, master, station) == (
                Ok::<SdoView, Error>(answer),
                at_rest(with_read(slaves, k, served)),
                1nat,
            )
        }),
{
    let ring = at_rest(delivered(slaves, station, message.bytes()));
    lemma_call_sizes(station, message.bytes(), master.next_index);
    lemma_call_polled(slaves, station, message, master.next_index);
    law_ring_answers(ring, master, poll_datagrams(station));
    reveal(polling);
}

/// On a clear ring a call gives what [`call_outcome`] says.
pub proof fn law_call_on_a_clear_ring(
    ring: SegmentView,
    master: MasterView,
    station: u16,
    sdo: SdoView,
)
    requires
        clear(ring, master.next_index, station),
    ensures
        called(ring, master, station, sdo) == call_outcome(ring, master.next_index, station, sdo),
{
    reveal(called);
    reveal(asked);
    reveal(call_outcome);
    let slaves = ring.slaves;
    let index = master.next_index;
    let message = MessageView { counter: call_counter(index), sdo };
    let bytes = message.bytes();
    if message.encoded() is Ok && bytes.len() <= DATAGRAM_DATA_MAX {
        let ds = call_datagrams(station, bytes);
        lemma_call_sizes(station, bytes, index);
        lemma_call_written(slaves, station, bytes, index);
        lemma_count_at(slaves, station);
        law_ring_answers(ring, master, ds);
        let (then, backs) = rounds(slaves, marked(ds, index));
        if encoded(marked(ds, index)) is Ok {
            assert(backs.len() == 2);
            if backs[0].working_counter != 1 {
                assert(!all_counted(backs));
            } else {
                assert(backs[1].working_counter == 1);
                assert(all_counted(backs));
                lemma_polled(slaves, master.after(1), station, message);
            }
        }
    }
}

/// A call leaves as many slaves as there were, each at its station, and nothing
/// waiting for the master where nothing waited.
pub proof fn law_call_keeps_the_ring(
    ring: SegmentView,
    master: MasterView,
    station: u16,
    sdo: SdoView,
)
    ensures
        kept(ring, called(ring, master, station, sdo).1),
{
    reveal(called);
    reveal(asked);
    let message = MessageView { counter: call_counter(master.next_index), sdo };
    let between = asked(ring, master, station, sdo).1;
    let then = master.after(asked(ring, master, station, sdo).2);
    law_exchange_keeps_the_ring(ring, master, call_datagrams(station, message.bytes()));
    law_polling_keeps_the_ring(between, then, station, between.waiting.len());
    lemma_kept(ring, between, fetched(between, then, station).1);
}

impl EtherCatTransport {
    /// One mailbox call to `station`: the message into its receive mailbox, with
    /// its AL status read in the same frame, then its answer out of the transmit
    /// mailbox. Refused are an SDO no mailbox holds, and a station that is not
    /// there, is not operational, or does not answer.
    pub fn call(&self, marks: &mut Marks, ring: &mut Segment, station: u16, sdo: &Sdo) -> (r:
        Result<Sdo, Error>)
        requires
            may_call(old(ring)@, self.with(*old(marks)), station, sdo@),
        ensures
            ({
                let master = self.with(*old(marks));
                let (answer, after, cost) = called(old(ring)@, master, station, sdo@);
                &&& sdo_of(r) == answer
                &&& final(ring)@ == after
                &&& self.with(*final(marks)) == self.with(*old(marks)).after(cost)
            }),
            clear(old(ring)@, old(marks)@, station) ==> called(
                old(ring)@,
                self.with(*old(marks)),
                station,
                sdo@,
            ) == call_outcome(old(ring)@, old(marks)@, station, sdo@),
            final(ring)@.slaves.len() == old(ring)@.slaves.len(),
            old(ring)@.quiet() ==> final(ring)@.quiet(),
    {
        let ghost before = ring@;
        let ghost master = self.with(*marks);
        proof {
            reveal(called);
            let (_, between, cost) = asked(before, master, station, sdo@);
            lemma_after(master, cost, fetched(between, master.after(cost), station).2);
            law_call_keeps_the_ring(before, master, station, sdo@);
            if clear(before, master.next_index, station) {
                law_call_on_a_clear_ring(before, master, station, sdo@);
            }
        }
        match self.ask(marks, ring, station, sdo) {
            Ok(_) => self.fetch(marks, ring, station),
            Err(e) => Err(e),
        }
    }

    /// The first half of a call: the message delivered, the AL status read.
    fn ask(&self, marks: &mut Marks, ring: &mut Segment, station: u16, sdo: &Sdo) -> (r: Result<
        (),
        Error,
    >)
        requires
            may_call(old(ring)@, self.with(*old(marks)), station, sdo@),
        ensures
            ({
                let (there, after, cost) = asked(old(ring)@, self.with(*old(marks)), station, sdo@);
                &&& r == there
                &&& final(ring)@ == after
                &&& self.with(*final(marks)) == self.with(*old(marks)).after(cost)
            }),
    {
        let ghost before = ring@;
        let ghost master = self.with(*marks);
        let ghost message = MessageView { counter: call_counter(master.next_index), sdo: sdo@ };
        proof {
            reveal(asked);
            reveal(is_told);
            if before.unanswered(master.next_index) {
                law_ring_answers(before, master, call_datagrams(station, message.bytes()));
                lemma_tells(before.slaves, station, message.bytes(), master.next_index);
            }
        }
        let datagrams = match Self::open_call(marks, station, sdo) {
            Ok(datagrams) => datagrams,
            Err(e) => {
                return Err(e);
            },
        };
        match self.exchange(marks, ring, datagrams) {
            Ok(back) => Self::accepted(station, &back),
            Err(e) => Err(e),
        }
    }

}

/// The slave at a station is where it is.
pub(crate) proof fn lemma_the_one(slaves: Seq<SlaveView>, station: u16, k: int)
    requires
        only_at(slaves, station, k),
    ensures
        the_one(slaves, station) == k,
        count_at(slaves, station) == 1,
{
    lemma_count_at(slaves, station);
    let other = the_one(slaves, station);
    assert(only_at(slaves, station, other));
    assert(slaves[other].station == station <==> other == k);
}

/// A slave replaced by one at its station is still the one there.
pub(crate) proof fn lemma_still_there(
    slaves: Seq<SlaveView>,
    station: u16,
    k: int,
    slave: SlaveView,
)
    requires
        only_at(slaves, station, k),
        slave.station == station,
    ensures
        only_at(slaves.update(k, slave), station, k),
{
    let then = slaves.update(k, slave);
    assert forall|i: int| 0 <= i < then.len() implies ((#[trigger] then[i]).station == station
        <==> i == k) by {
        assert(slaves[i].station == station <==> i == k);
    }
}

/// Where no frame that waits answers in its place, a call with an SDO that the
/// mailbox holds, to the one slave at a station, is served by that slave.
pub proof fn law_call_is_served(
    ring: SegmentView,
    master: MasterView,
    station: u16,
    sdo: SdoView,
    k: int,
)
    requires
        ring.unanswered(master.next_index),
        only_at(ring.slaves, station, k),
        sdo.encoded() is Ok,
        sdo.bytes().len() + 8 <= MAILBOX_SIZE,
    ensures
        called(ring, master, station, sdo) == (
            Ok::<SdoView, Error>(ring.slaves[k].serve(sdo).1),
            at_rest(with_read(ring.slaves, k, ring.slaves[k].serve(sdo).0)),
            2nat,
        ),
{
    reveal(call_outcome);
    lemma_the_one(ring.slaves, station, k);
    law_call_on_a_clear_ring(ring, master, station, sdo);
}

/// On a clear ring a call with an SDO that the mailbox holds, to a station with no
/// slave or more than one, is refused for not being on the ring.
pub proof fn law_call_finds_nobody(
    ring: SegmentView,
    master: MasterView,
    station: u16,
    sdo: SdoView,
)
    requires
        clear(ring, master.next_index, station),
        count_at(ring.slaves, station) != 1,
        sdo.encoded() is Ok,
        sdo.bytes().len() + 8 <= MAILBOX_SIZE,
    ensures
        ({
            let message = MessageView { counter: call_counter(master.next_index), sdo };
            called(ring, master, station, sdo) == (
                Err::<SdoView, Error>(Error::NotOnRing(station)),
                at_rest(delivered(ring.slaves, station, message.bytes())),
                1nat,
            )
        }),
{
    reveal(call_outcome);
    law_call_on_a_clear_ring(ring, master, station, sdo);
}

} // verus!
