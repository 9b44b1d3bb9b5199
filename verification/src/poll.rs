//! The polls of a mailbox call: the transmit mailbox read until it answers, or
//! until the time is up.
//!
//! An in-process ring answers as the master transmits, so there a poll waits for
//! nothing, and what keeps a poll from its answer is only what waited on the ring
//! before. After as many polls as frames waited, and one more, no poll is ever
//! answered ([`law_more_polls_change_nothing`]), and that is when the time is up
//! there, for a master that waits at all.

use vstd::prelude::*;

use crate::datagram::{
    address_of, body_size, encoded, law_decode_gives_back_what_was_encoded, outgoing, views,
    Command, Datagram, DatagramView, DATAGRAM_OVERHEAD,
};
use crate::error::Error;
use crate::link::FrameView;
use crate::mailbox::{message_in, Message, MAILBOX_SIZE, TRANSMIT_MAILBOX};
use crate::sdo::{sdo_of, Sdo, SdoView};
use crate::segment::{
    kept, law_what_goes_round_comes_back, lemma_kept, round, rounds, Segment, SegmentView,
};
use crate::slave::SlaveView;
use crate::transport::{
    answer_in, exchanged, first_answer, law_exchange_keeps_the_ring, lemma_after, marked,
    EtherCatTransport, Marks, MasterView,
};
use crate::wire::{put_zeros, zeros};

verus! {

/// What a call asks then: the answer out of the transmit mailbox.
pub open spec fn poll_datagrams(station: u16) -> Seq<DatagramView> {
    seq![
        outgoing(
            Command::Fprd,
            address_of(station, TRANSMIT_MAILBOX),
            zeros(MAILBOX_SIZE as nat),
        ),
    ]
}

/// The SDO that came back of a poll, or why what came back holds none, where one
/// slave answered it.
pub open spec fn poll_reply(back: Seq<DatagramView>) -> Option<Result<SdoView, Error>> {
    if back[0].working_counter == 1 {
        Some(
            match message_in(back[0].data) {
                Ok(message) => Ok(message.sdo),
                Err(e) => Err(e),
            },
        )
    } else {
        None
    }
}

impl EtherCatTransport {
    /// What a mailbox call to `station` asks until it is answered.
    pub fn poll(station: u16) -> (r: Vec<Datagram>)
        ensures
            views(r@) == poll_datagrams(station),
    {
        let mut empty: Vec<u8> = Vec::new();
        put_zeros(&mut empty, MAILBOX_SIZE);
        assert(empty@ =~= zeros(MAILBOX_SIZE as nat));
        let mut datagrams: Vec<Datagram> = Vec::new();
        match Datagram::at(Command::Fprd, station, TRANSMIT_MAILBOX, empty.as_slice()) {
            Ok(read) => {
                datagrams.push(read);
            },
            Err(_) => {},
        }
        assert(views(datagrams@) =~= poll_datagrams(station));
        datagrams
    }

    /// What to make of what came back of a poll, `elapsed` nanoseconds after the
    /// first: the answer; nothing, to poll again; or that the answer does not
    /// come, where the time is up.
    pub fn polled(&self, back: &Vec<Datagram>, elapsed: u128) -> (r: Result<Option<Sdo>, Error>)
        requires
            back@.len() > 0,
        ensures
            match poll_reply(views(back@)) {
                Some(Ok(sdo)) => r matches Ok(Some(answer)) && answer@ == sdo,
                Some(Err(e)) => r == Err::<Option<Sdo>, Error>(e),
                None => r == if elapsed >= self@.timeout {
                    Err::<Option<Sdo>, Error>(Error::NoMailboxAnswer)
                } else {
                    Ok(None)
                },
            },
    {
        assert(views(back@)[0] == back@[0]@);
        if back[0].working_counter == 1 {
            match Message::decode(back[0].data.as_slice()) {
                Ok(message) => Ok(Some(message.sdo)),
                Err(e) => Err(e),
            }
        } else if elapsed >= self.timeout() {
            Err(Error::NoMailboxAnswer)
        } else {
            Ok(None)
        }
    }
}

/// What a poll of `station`, and `more` after it while they are not answered,
/// gives, what the ring is then, and how many marks it spent. A master that does
/// not wait polls once.
#[verifier::opaque]
pub open spec fn polling(ring: SegmentView, master: MasterView, station: u16, more: nat) -> (
    Result<SdoView, Error>,
    SegmentView,
    nat,
)
    decreases more,
{
    let (back, after) = exchanged(ring, master, poll_datagrams(station));
    match back {
        Err(e) => (Err(e), after, 1),
        Ok(back) => match poll_reply(back) {
            Some(reply) => (reply, after, 1),
            None => if more == 0 || master.transport.timeout == 0 {
                (Err(Error::NoMailboxAnswer), after, 1)
            } else {
                let (reply, end, cost) = polling(
                    after,
                    master.after(1),
                    station,
                    (more - 1) as nat,
                );
                (reply, end, cost + 1)
            },
        },
    }
}

/// The second half of a call: what was polled, what the ring is then, and how many
/// marks were spent. The polls are as many as frames wait, and one more, but for
/// those after the one that is answered.
pub open spec fn fetched(ring: SegmentView, master: MasterView, station: u16) -> (
    Result<SdoView, Error>,
    SegmentView,
    nat,
) {
    polling(ring, master, station, ring.waiting.len())
}

/// Polls leave as many slaves as there were, each at its station, and nothing
/// waiting for the master where nothing waited.
pub proof fn law_polling_keeps_the_ring(
    ring: SegmentView,
    master: MasterView,
    station: u16,
    more: nat,
)
    ensures
        kept(ring, polling(ring, master, station, more).1),
    decreases more,
{
    reveal(polling);
    let after = exchanged(ring, master, poll_datagrams(station)).1;
    law_exchange_keeps_the_ring(ring, master, poll_datagrams(station));
    if more > 0 {
        let left = (more - 1) as nat;
        law_polling_keeps_the_ring(after, master.after(1), station, left);
        lemma_kept(ring, after, polling(after, master.after(1), station, left).1);
    }
}

/// What answers an exchange has a datagram in it.
proof fn lemma_answer_has_one(ring: SegmentView, master: MasterView, ds: Seq<DatagramView>)
    ensures
        exchanged(ring, master, ds).0 matches Ok(back) ==> back.len() > 0,
{
    let out = marked(ds, master.next_index);
    if encoded(out) is Ok {
        let frame = master.transport.frame(encoded(out).unwrap());
        lemma_first_answer(ring.transmit(frame).waiting, master.next_index);
    }
}

/// The first answer has a datagram in it.
proof fn lemma_first_answer(waiting: Seq<FrameView>, index: u8)
    ensures
        first_answer(waiting, index).0 matches Some(back) ==> back.len() > 0,
    decreases waiting.len(),
{
    if waiting.len() > 0 && answer_in(waiting[0], index) is None {
        lemma_first_answer(waiting.skip(1), index);
    }
}

impl EtherCatTransport {
    /// The answer out of the transmit mailbox of `station`. Refused are a mailbox
    /// that does not answer, and what it holds that is no message.
    pub(crate) fn fetch(&self, marks: &mut Marks, ring: &mut Segment, station: u16) -> (r: Result<
        Sdo,
        Error,
    >)
        ensures
            ({
                let (answer, after, cost) = fetched(old(ring)@, self.with(*old(marks)), station);
                &&& sdo_of(r) == answer
                &&& final(ring)@ == after
                &&& self.with(*final(marks)) == self.with(*old(marks)).after(cost)
            }),
    {
        let ghost master = self.with(*marks);
        let ghost whole = fetched(ring@, master, station);
        let ghost mut spent: nat = 0;
        let mut left: usize = ring.waiting();
        loop
            invariant
                whole == fetched(old(ring)@, self.with(*old(marks)), station),
                master == self.with(*old(marks)),
                self.with(*marks) == master.after(spent),
                ({
                    let (reply, end, cost) = polling(
                        ring@,
                        self.with(*marks),
                        station,
                        left as nat,
                    );
                    whole == (reply, end, spent + cost)
                }),
            decreases left,
        {
            proof {
                reveal(polling);
                lemma_answer_has_one(ring@, self.with(*marks), poll_datagrams(station));
                lemma_after(master, spent, 1);
            }
            let back = match self.exchange(marks, ring, Self::poll(station)) {
                Ok(back) => back,
                Err(e) => {
                    return Err(e);
                },
            };
            let elapsed: u128 = if left == 0 { self.timeout() } else { 0 };
            match self.polled(&back, elapsed) {
                Ok(Some(answer)) => {
                    return Ok(answer);
                },
                Ok(None) => {
                    left = left - 1;
                },
                Err(e) => {
                    return Err(e);
                },
            }
            proof {
                spent = spent + 1;
            }
        }
    }
}

/// True of a frame that, whatever mark it answers to, answers that not one slave
/// acted.
spec fn is_dead(frame: FrameView) -> bool {
    forall|index: u8|
        (#[trigger] answer_in(frame, index)) matches Some(back) ==> back[0].working_counter != 1
}

/// True where no slave at `station` has anything in its transmit mailbox.
spec fn is_silent(slaves: Seq<SlaveView>, station: u16) -> bool {
    forall|i: int|
        0 <= i < slaves.len() && (#[trigger] slaves[i]).station == station
            ==> slaves[i].outbox is None
}

/// One slave, and a read of its transmit mailbox that is for it, or is not.
proof fn lemma_read_once(slave: SlaveView, d: DatagramView)
    requires
        d.command is Fprd,
        d.offset() == TRANSMIT_MAILBOX,
    ensures
        slave.pass(d).0.station == slave.station,
        slave.station == d.station() ==> slave.pass(d).0.outbox is None,
        slave.pass(d).1.station() == d.station(),
        slave.pass(d).1.offset() == d.offset(),
        slave.pass(d).1.command is Fprd,
        slave.station != d.station() || slave.outbox is None ==> slave.pass(d) == (slave, d),
{
    reveal(SlaveView::pass);
}

/// A poll takes what is in the transmit mailboxes at its station, and where there
/// is nothing comes back as it went.
proof fn lemma_poll_takes(slaves: Seq<SlaveView>, d: DatagramView)
    requires
        d.command is Fprd,
        d.offset() == TRANSMIT_MAILBOX,
    ensures
        is_silent(round(slaves, d).0, d.station()),
        round(slaves, d).0.len() == slaves.len(),
        round(slaves, d).1.station() == d.station(),
        round(slaves, d).1.offset() == d.offset(),
        round(slaves, d).1.command is Fprd,
        is_silent(slaves, d.station()) ==> round(slaves, d) == (slaves, d),
    decreases slaves.len(),
{
    if slaves.len() > 0 {
        let front = slaves.drop_last();
        let last = slaves.last();
        lemma_poll_takes(front, d);
        let on = round(front, d).1;
        lemma_read_once(last, on);
        let after = round(slaves, d).0;
        assert(after == round(front, d).0.push(last.pass(on).0));
        assert forall|i: int|
            0 <= i < after.len() && (#[trigger] after[i]).station == d.station() implies
            after[i].outbox is None by {
            if i < front.len() {
                assert(after[i] == round(front, d).0[i]);
            }
        }
        if is_silent(slaves, d.station()) {
            assert forall|i: int|
                0 <= i < front.len() && (#[trigger] front[i]).station == d.station() implies
                front[i].outbox is None by {
                assert(front[i] == slaves[i]);
            }
            assert(last == slaves[slaves.len() - 1]);
            assert(slaves =~= front.push(last));
        }
    }
}

/// Where a frame answers, so does the first that does, and those after it wait.
proof fn lemma_first_answer_at(waiting: Seq<FrameView>, index: u8, k: int) -> (p: int)
    requires
        0 <= k < waiting.len(),
        answer_in(waiting[k], index) is Some,
    ensures
        0 <= p <= k,
        first_answer(waiting, index) == (answer_in(waiting[p], index), waiting.skip(p + 1)),
        answer_in(waiting[p], index) is Some,
    decreases k,
{
    if answer_in(waiting[0], index) is Some {
        0
    } else {
        let rest = waiting.skip(1);
        assert(rest[k - 1] == waiting[k]);
        let p = lemma_first_answer_at(rest, index, k - 1);
        assert(rest.skip(p + 1) =~= waiting.skip(p + 2));
        assert(rest[p] == waiting[p + 1]);
        p + 1
    }
}

/// What waits on a ring with the frame of a poll that has gone round it.
spec fn with_poll(ring: SegmentView, master: MasterView, station: u16) -> Seq<FrameView> {
    let out = marked(poll_datagrams(station), master.next_index);
    ring.transmit(master.transport.frame(encoded(out).unwrap())).waiting
}

/// One poll: one of the frames that wait, or the frame of the poll, answers it, at
/// `p`; those after it wait on. Nothing is left in the transmit mailboxes, and
/// where nothing was there, not one slave acted on the poll.
proof fn lemma_poll_once(ring: SegmentView, master: MasterView, station: u16) -> (p: int)
    ensures
        ({
            let (back, after) = exchanged(ring, master, poll_datagrams(station));
            let all = with_poll(ring, master, station);
            &&& all == ring.waiting.push(all.last())
            &&& 0 <= p < all.len()
            &&& back matches Ok(back)
            &&& answer_in(all[p], master.next_index) == Some(back)
            &&& after.waiting == all.skip(p + 1)
            &&& is_silent(after.slaves, station)
            &&& is_silent(ring.slaves, station) ==> is_dead(all.last())
        }),
{
    let index = master.next_index;
    let out = marked(poll_datagrams(station), index);
    let d = out[0];
    assert(out.skip(1).len() == 0);
    assert(body_size(out.skip(1)) == 0);
    assert(body_size(out) == DATAGRAM_OVERHEAD + MAILBOX_SIZE);
    let none: Seq<DatagramView> = seq![];
    assert(out.drop_last() =~= none);
    assert(rounds(ring.slaves, none) == (ring.slaves, none));
    let (then, back) = round(ring.slaves, d);
    assert(none.push(back) =~= seq![back]);
    assert(rounds(ring.slaves, out) == (then, seq![back]));
    assert(d.station() == station && d.offset() == TRANSMIT_MAILBOX);
    lemma_poll_takes(ring.slaves, d);
    law_decode_gives_back_what_was_encoded(out, seq![]);
    law_what_goes_round_comes_back(ring.slaves, out);
    law_decode_gives_back_what_was_encoded(seq![back], seq![]);
    let all = with_poll(ring, master, station);
    assert(all =~= ring.waiting.push(all.last()));
    assert(rounds(ring.slaves, out).1[0].index == out[0].index);
    assert(answer_in(all.last(), index) == Some(seq![back]));
    lemma_first_answer_at(all, index, all.len() - 1)
}

/// Where all that waits is dead and nothing is in the transmit mailboxes, no poll
/// is answered.
proof fn lemma_never_answered(ring: SegmentView, master: MasterView, station: u16, more: nat)
    requires
        is_silent(ring.slaves, station),
        forall|i: int| 0 <= i < ring.waiting.len() ==> is_dead(#[trigger] ring.waiting[i]),
    ensures
        polling(ring, master, station, more).0 == Err::<SdoView, Error>(Error::NoMailboxAnswer),
    decreases more,
{
    reveal(polling);
    let (_, after) = exchanged(ring, master, poll_datagrams(station));
    let all = with_poll(ring, master, station);
    let p = lemma_poll_once(ring, master, station);
    assert forall|i: int| 0 <= i < all.len() implies is_dead(#[trigger] all[i]) by {
        if i < ring.waiting.len() {
            assert(all[i] == ring.waiting[i]);
        }
    }
    assert(is_dead(all[p]));
    if more > 0 {
        assert forall|i: int| 0 <= i < after.waiting.len() implies is_dead(
            #[trigger] after.waiting[i],
        ) by {
            assert(after.waiting[i] == all[p + 1 + i]);
        }
        lemma_never_answered(after, master.after(1), station, (more - 1) as nat);
    }
}

/// Where nothing is in the transmit mailboxes, and all that waits but for the first
/// `live` frames is dead, `live` polls are enough.
proof fn lemma_enough(
    ring: SegmentView,
    master: MasterView,
    station: u16,
    live: nat,
    a: nat,
    b: nat,
)
    requires
        is_silent(ring.slaves, station),
        forall|i: int| live <= i < ring.waiting.len() ==> is_dead(#[trigger] ring.waiting[i]),
        a + 1 >= live,
        b + 1 >= live,
    ensures
        polling(ring, master, station, a).0 == polling(ring, master, station, b).0,
    decreases live,
{
    if live == 0 {
        lemma_never_answered(ring, master, station, a);
        lemma_never_answered(ring, master, station, b);
    } else {
        reveal(polling);
        let (_, after) = exchanged(ring, master, poll_datagrams(station));
        let all = with_poll(ring, master, station);
        let p = lemma_poll_once(ring, master, station);
        let left: nat = if live > p + 1 {
            (live - (p + 1)) as nat
        } else {
            0
        };
        assert forall|i: int| left <= i < after.waiting.len() implies is_dead(
            #[trigger] after.waiting[i],
        ) by {
            assert(after.waiting[i] == all[p + 1 + i]);
            if p + 1 + i < ring.waiting.len() {
                assert(all[p + 1 + i] == ring.waiting[p + 1 + i]);
            }
        }
        if a > 0 && b > 0 {
            let then = master.after(1);
            lemma_enough(after, then, station, left, (a - 1) as nat, (b - 1) as nat);
        } else {
            if a > 0 {
                lemma_never_answered(after, master.after(1), station, (a - 1) as nat);
            }
            if b > 0 {
                lemma_never_answered(after, master.after(1), station, (b - 1) as nat);
            }
        }
    }
}

/// To poll on after as many polls as frames waited, and one more, changes nothing
/// of what a call gives: what was not answered by then never is.
pub proof fn law_more_polls_change_nothing(
    ring: SegmentView,
    master: MasterView,
    station: u16,
    more: nat,
)
    requires
        more >= ring.waiting.len(),
    ensures
        polling(ring, master, station, more).0 == fetched(ring, master, station).0,
{
    reveal(polling);
    let n = ring.waiting.len();
    let (_, after) = exchanged(ring, master, poll_datagrams(station));
    let p = lemma_poll_once(ring, master, station);
    if n > 0 {
        lemma_enough(
            after,
            master.after(1),
            station,
            after.waiting.len(),
            (more - 1) as nat,
            (n - 1) as nat,
        );
    } else if more > 0 {
        lemma_never_answered(after, master.after(1), station, (more - 1) as nat);
    }
}

} // verus!
