//! A ring of slaves on an in-process link: the frame the master transmits
//! passes every slave in order and is what the master receives next.

use std::collections::VecDeque;

use vstd::prelude::*;

use crate::datagram::{
    body_size, decode, decoded, encode, encoded, views, Datagram, DatagramView, ETHERTYPE,
};
use crate::error::Error;
use crate::link::{Frame, FrameView};
use crate::mailbox::{MAILBOX_SIZE, RECEIVE_MAILBOX};
use crate::slave::{
    law_pass_keeps, law_position_is_incremented, law_receive_keeps, Slave, SlaveView, AL_STATUS,
    OPERATIONAL,
};
use crate::wire::{fitted, le16};

verus! {

/// What each slave is.
pub open spec fn slave_views(slaves: Seq<Slave>) -> Seq<SlaveView> {
    slaves.map_values(|slave: Slave| slave@)
}

/// What each frame says.
pub open spec fn frame_views(frames: Seq<Frame>) -> Seq<FrameView> {
    frames.map_values(|frame: Frame| frame@)
}

/// A ring: its slaves in order, and the frames that wait for the master, the
/// first first.
#[verifier::ext_equal]
pub struct SegmentView {
    pub slaves: Seq<SlaveView>,
    pub waiting: Seq<FrameView>,
}

/// One datagram passes the slaves in order: what they are then, and what comes
/// back.
pub open spec fn round(slaves: Seq<SlaveView>, d: DatagramView) -> (Seq<SlaveView>, DatagramView)
    decreases slaves.len(),
{
    if slaves.len() == 0 {
        (slaves, d)
    } else {
        let (before, on) = round(slaves.drop_last(), d);
        let (last, back) = slaves.last().pass(on);
        (before.push(last), back)
    }
}

/// The datagrams of one frame pass the slaves, each round before the next.
pub open spec fn rounds(slaves: Seq<SlaveView>, ds: Seq<DatagramView>) -> (
    Seq<SlaveView>,
    Seq<DatagramView>,
)
    decreases ds.len(),
{
    if ds.len() == 0 {
        (slaves, ds)
    } else {
        let (before, backs) = rounds(slaves, ds.drop_last());
        let (after, back) = round(before, ds.last());
        (after, backs.push(back))
    }
}

impl SegmentView {
    /// Nothing waits for the master.
    pub open spec fn quiet(self) -> bool {
        self.waiting.len() == 0
    }

    /// The master transmits: what the ring is then. A frame that is not
    /// `EtherCAT`, or not well formed, is dropped. Any other passes the slaves,
    /// and comes back to who sent it, if what comes back still is a frame.
    pub open spec fn transmit(self, frame: FrameView) -> SegmentView {
        if frame.ethertype != ETHERTYPE {
            self
        } else {
            match decoded(frame.payload) {
                Err(_) => self,
                Ok(ds) => {
                    let (slaves, backs) = rounds(self.slaves, ds);
                    SegmentView {
                        slaves,
                        waiting: match encoded(backs) {
                            Ok(payload) => self.waiting.push(
                                FrameView {
                                    destination: frame.source,
                                    source: frame.destination,
                                    ethertype: frame.ethertype,
                                    payload,
                                },
                            ),
                            Err(_) => self.waiting,
                        },
                    }
                },
            }
        }
    }

    /// Why what comes back of a transmitted frame is no frame, where it is none.
    pub open spec fn refusal(self, frame: FrameView) -> Option<Error> {
        if frame.ethertype != ETHERTYPE {
            None
        } else {
            match decoded(frame.payload) {
                Err(_) => None,
                Ok(ds) => match encoded(rounds(self.slaves, ds).1) {
                    Ok(_) => None,
                    Err(e) => Some(e),
                },
            }
        }
    }
}

/// A ring of these slaves, with nothing waiting for the master.
pub open spec fn at_rest(slaves: Seq<SlaveView>) -> SegmentView {
    SegmentView { slaves, waiting: seq![] }
}

/// True where the ring `after` has as many slaves as `ring`, each at its station,
/// and nothing waits on it where nothing waited.
pub open spec fn kept(ring: SegmentView, after: SegmentView) -> bool {
    &&& after.slaves.len() == ring.slaves.len()
    &&& forall|i: int|
        0 <= i < ring.slaves.len() ==> (#[trigger] after.slaves[i]).station
            == ring.slaves[i].station
    &&& ring.quiet() ==> after.quiet()
}

/// What is kept twice is kept.
pub(crate) proof fn lemma_kept(a: SegmentView, b: SegmentView, c: SegmentView)
    requires
        kept(a, b),
        kept(b, c),
    ensures
        kept(a, c),
{
    assert forall|i: int| 0 <= i < a.slaves.len() implies (#[trigger] c.slaves[i]).station
        == a.slaves[i].station by {
        assert(b.slaves[i].station == a.slaves[i].station);
    }
}

/// A ring of slaves on an in-process link.
pub struct Segment {
    slaves: Vec<Slave>,
    to_master: VecDeque<Frame>,
}

impl View for Segment {
    type V = SegmentView;

    closed spec fn view(&self) -> SegmentView {
        SegmentView { slaves: slave_views(self.slaves@), waiting: frame_views(self.to_master@) }
    }
}

/// A round has as many slaves as before, each with its station, and keeps what a
/// slave keeps of a datagram.
proof fn lemma_round_keeps(slaves: Seq<SlaveView>, d: DatagramView)
    ensures
        round(slaves, d).0.len() == slaves.len(),
        forall|i: int|
            0 <= i < slaves.len() ==> (#[trigger] round(slaves, d).0[i]).station
                == slaves[i].station,
        round(slaves, d).1.command == d.command,
        round(slaves, d).1.index == d.index,
        round(slaves, d).1.data.len() == d.data.len(),
    decreases slaves.len(),
{
    if slaves.len() > 0 {
        let front = slaves.drop_last();
        lemma_round_keeps(front, d);
        law_pass_keeps(slaves.last(), round(front, d).1);
        assert forall|i: int| 0 <= i < slaves.len() implies (#[trigger] round(
            slaves,
            d,
        ).0[i]).station == slaves[i].station by {
            if i < front.len() {
                assert(front[i] == slaves[i]);
                assert(round(slaves, d).0[i] == round(front, d).0[i]);
            }
        }
    }
}

impl Segment {
    #[must_use]
    pub fn new(slaves: Vec<Slave>) -> (segment: Self)
        ensures
            segment@ == at_rest(slave_views(slaves@)),
    {
        let segment = Self { slaves, to_master: VecDeque::new() };
        assert(segment@.waiting =~= seq![]);
        segment
    }

    /// The slave at `i` in the ring.
    pub closed spec fn nth(&self, i: int) -> Slave {
        self.slaves@[i]
    }

    /// Look at the slave at `station`, where there is one: the first in the
    /// ring.
    pub fn with_slave<R, F: FnOnce(&Slave) -> R>(&self, station: u16, look: F) -> (r: Option<R>)
        requires
            forall|slave: &Slave| #[trigger] call_requires(look, (slave,)),
        ensures
            r is None <==> forall|i: int|
                0 <= i < self@.slaves.len() ==> #[trigger] self@.slaves[i].station != station,
            r is Some ==> exists|i: int|
                {
                    &&& #[trigger] first_at(self@.slaves, station, i)
                    &&& self.nth(i)@ == self@.slaves[i]
                    &&& call_ensures(look, (&self.nth(i),), r->0)
                },
    {
        let mut i: usize = 0;
        while i < self.slaves.len() && self.slaves[i].station() != station
            invariant
                i <= self.slaves.len(),
                forall|j: int| 0 <= j < i ==> #[trigger] self@.slaves[j].station != station,
                self@.slaves.len() == self.slaves@.len(),
            ensures
                i <= self.slaves.len(),
                i < self.slaves.len() ==> self.slaves@[i as int]@.station == station,
            decreases self.slaves.len() - i,
        {
            assert(self@.slaves[i as int] == self.slaves@[i as int]@);
            i = i + 1;
        }
        if i < self.slaves.len() {
            let slave = &self.slaves[i];
            assert(self@.slaves[i as int] == slave@);
            let seen = look(slave);
            assert(first_at(self@.slaves, station, i as int));
            assert(call_ensures(look, (slave,), seen));
            Some(seen)
        } else {
            assert(self@.slaves.len() == self.slaves@.len());
            None
        }
    }

    /// How many frames wait for the master.
    pub fn waiting(&self) -> (r: usize)
        ensures
            r == self@.waiting.len(),
    {
        self.to_master.len()
    }

    /// The frame that waits for the master longest, if any waits.
    pub fn receive(&mut self) -> (r: Option<Frame>)
        ensures
            final(self)@.slaves == old(self)@.slaves,
            match r {
                Some(frame) => {
                    &&& !old(self)@.quiet()
                    &&& frame@ == old(self)@.waiting[0]
                    &&& final(self)@.waiting == old(self)@.waiting.skip(1)
                },
                None => old(self)@.quiet() && final(self)@.quiet(),
            },
    {
        let r = self.to_master.pop_front();
        assert(r is Some ==> self@.waiting =~= old(self)@.waiting.skip(1));
        r
    }

    /// A frame that is not `EtherCAT`, or not well formed, is dropped: nothing
    /// comes back. Datagrams that come back over what a frame carries are
    /// refused, after they have passed.
    pub fn transmit(&mut self, frame: &Frame) -> (r: Result<(), Error>)
        ensures
            final(self)@ == old(self)@.transmit(frame@),
            r == match old(self)@.refusal(frame@) {
                Some(e) => Err::<(), Error>(e),
                None => Ok(()),
            },
    {
        let ghost before = self@;
        if frame.ethertype != ETHERTYPE {
            return Ok(());
        }
        let mut datagrams = match decode(frame.payload.as_slice()) {
            Ok(datagrams) => datagrams,
            Err(_) => {
                return Ok(());
            },
        };
        pass_all(&mut self.slaves, &mut datagrams);
        let payload = match encode(datagrams.as_slice()) {
            Ok(payload) => payload,
            Err(e) => {
                return Err(e);
            },
        };
        let back = Frame {
            destination: frame.source,
            source: frame.destination,
            ethertype: frame.ethertype,
            payload,
        };
        let ghost b = back@;
        self.to_master.push_back(back);
        assert(self@.waiting =~= before.waiting.push(b));
        Ok(())
    }
}

/// The slave at `i` is the first at `station`.
pub open spec fn first_at(slaves: Seq<SlaveView>, station: u16, i: int) -> bool {
    &&& 0 <= i < slaves.len()
    &&& slaves[i].station == station
    &&& forall|j: int| 0 <= j < i ==> #[trigger] slaves[j].station != station
}

/// One datagram passes every slave in order.
fn pass_round(slaves: &mut Vec<Slave>, datagram: &mut Datagram)
    ensures
        (slave_views(final(slaves)@), final(datagram)@) == round(
            slave_views(old(slaves)@),
            old(datagram)@,
        ),
{
    let ghost before = slave_views(slaves@);
    let ghost d = datagram@;
    let n = slaves.len();
    assert(before.take(0) =~= seq![]);
    assert(slave_views(slaves@).take(0) =~= seq![]);
    for k in 0..n
        invariant
            n == slaves@.len() == before.len(),
            (slave_views(slaves@).take(k as int), datagram@) == round(before.take(k as int), d),
            forall|i: int| k <= i < n ==> #[trigger] slaves@[i]@ == before[i],
    {
        let ghost now = slave_views(slaves@);
        assert(slaves@[k as int]@ == before[k as int]);
        slaves[k].pass(datagram);
        proof {
            let then = slave_views(slaves@);
            assert(before.take(k + 1).drop_last() =~= before.take(k as int));
            assert(before.take(k + 1).last() == before[k as int]);
            assert(then.take(k + 1) =~= now.take(k as int).push(slaves@[k as int]@));
        }
    }
    assert(before.take(n as int) =~= before);
    assert(slave_views(slaves@).take(n as int) =~= slave_views(slaves@));
}

/// The datagrams pass every slave, each round before the next.
fn pass_all(slaves: &mut Vec<Slave>, datagrams: &mut Vec<Datagram>)
    ensures
        (slave_views(final(slaves)@), views(final(datagrams)@)) == rounds(
            slave_views(old(slaves)@),
            views(old(datagrams)@),
        ),
{
    let ghost before = slave_views(slaves@);
    let ghost ds = views(datagrams@);
    let n = datagrams.len();
    assert(ds.take(0) =~= seq![]);
    for k in 0..n
        invariant
            n == datagrams@.len() == ds.len(),
            (slave_views(slaves@), views(datagrams@).take(k as int)) == rounds(
                before,
                ds.take(k as int),
            ),
            forall|i: int| k <= i < n ==> #[trigger] datagrams@[i]@ == ds[i],
    {
        let ghost now = views(datagrams@);
        assert(datagrams@[k as int]@ == ds[k as int]);
        pass_round(slaves, &mut datagrams[k]);
        proof {
            let then = views(datagrams@);
            assert(ds.take(k + 1).drop_last() =~= ds.take(k as int));
            assert(ds.take(k + 1).last() == ds[k as int]);
            assert(then.take(k + 1) =~= now.take(k as int).push(datagrams@[k as int]@));
        }
    }
    assert(ds.take(n as int) =~= ds);
    assert(views(datagrams@).take(n as int) =~= views(datagrams@));
}

/// All the datagrams of a frame round, with what they keep: there are as many
/// slaves and datagrams as before, each slave has its station, each datagram
/// its command, its mark and the length of its data.
proof fn lemma_rounds_keep(slaves: Seq<SlaveView>, ds: Seq<DatagramView>)
    ensures
        rounds(slaves, ds).0.len() == slaves.len(),
        rounds(slaves, ds).1.len() == ds.len(),
        forall|i: int|
            0 <= i < slaves.len() ==> (#[trigger] rounds(slaves, ds).0[i]).station
                == slaves[i].station,
        forall|i: int|
            #![trigger rounds(slaves, ds).1[i]]
            0 <= i < ds.len() ==> {
                &&& rounds(slaves, ds).1[i].command == ds[i].command
                &&& rounds(slaves, ds).1[i].index == ds[i].index
                &&& rounds(slaves, ds).1[i].data.len() == ds[i].data.len()
            },
    decreases ds.len(),
{
    if ds.len() > 0 {
        let front = ds.drop_last();
        lemma_rounds_keep(slaves, front);
        let (before, backs) = rounds(slaves, front);
        lemma_round_keeps(before, ds.last());
        let (after, back) = round(before, ds.last());
        assert(rounds(slaves, ds) == (after, backs.push(back)));
        assert forall|i: int| 0 <= i < slaves.len() implies (#[trigger] rounds(
            slaves,
            ds,
        ).0[i]).station == slaves[i].station by {
            assert(before[i].station == slaves[i].station);
            assert(after[i].station == before[i].station);
        }
        assert forall|i: int|
            #![trigger rounds(slaves, ds).1[i]]
            0 <= i < ds.len() implies {
            &&& rounds(slaves, ds).1[i].command == ds[i].command
            &&& rounds(slaves, ds).1[i].index == ds[i].index
            &&& rounds(slaves, ds).1[i].data.len() == ds[i].data.len()
        } by {
            if i < front.len() {
                assert(front[i] == ds[i]);
                assert(backs[i].index == front[i].index);
            }
        }
    }
}

/// Datagrams with the same lengths of data take the same bytes in a frame.
proof fn lemma_same_size(ds: Seq<DatagramView>, es: Seq<DatagramView>)
    requires
        ds.len() == es.len(),
        forall|i: int|
            0 <= i < ds.len() ==> (#[trigger] ds[i]).data.len() == (#[trigger] es[i]).data.len(),
    ensures
        body_size(ds) == body_size(es),
    decreases ds.len(),
{
    if ds.len() > 0 {
        let rest = ds.skip(1);
        let others = es.skip(1);
        assert forall|i: int| 0 <= i < rest.len() implies (#[trigger] rest[i]).data.len() == (
        #[trigger] others[i]).data.len() by {
            assert(rest[i] == ds[i + 1]);
            assert(others[i] == es[i + 1]);
        }
        lemma_same_size(rest, others);
        assert(ds[0].data.len() == es[0].data.len());
    }
}

/// A frame that was one going out is one coming back: what passes the ring
/// takes the same bytes, and the datagrams keep their order, commands, marks and
/// lengths. Every slave is still there, at its station.
pub proof fn law_what_goes_round_comes_back(slaves: Seq<SlaveView>, ds: Seq<DatagramView>)
    ensures
        rounds(slaves, ds).1.len() == ds.len(),
        body_size(rounds(slaves, ds).1) == body_size(ds),
        encoded(ds) is Ok ==> encoded(rounds(slaves, ds).1) is Ok,
        forall|i: int|
            #![trigger rounds(slaves, ds).1[i]]
            0 <= i < ds.len() ==> {
                &&& rounds(slaves, ds).1[i].command == ds[i].command
                &&& rounds(slaves, ds).1[i].index == ds[i].index
                &&& rounds(slaves, ds).1[i].data.len() == ds[i].data.len()
            },
        rounds(slaves, ds).0.len() == slaves.len(),
        forall|i: int|
            0 <= i < slaves.len() ==> (#[trigger] rounds(slaves, ds).0[i]).station
                == slaves[i].station,
{
    lemma_rounds_keep(slaves, ds);
    let backs = rounds(slaves, ds).1;
    assert forall|i: int| 0 <= i < ds.len() implies (#[trigger] backs[i]).data.len() == (
    #[trigger] ds[i]).data.len() by {
        assert(rounds(slaves, ds).1[i].data.len() == ds[i].data.len());
    }
    lemma_same_size(backs, ds);
}

/// How many slaves have `station`.
pub open spec fn count_at(slaves: Seq<SlaveView>, station: u16) -> nat
    decreases slaves.len(),
{
    if slaves.len() == 0 {
        0
    } else {
        count_at(slaves.drop_last(), station) + if slaves.last().station == station {
            1nat
        } else {
            0
        }
    }
}

/// The slave at `k` is the one at `station`.
pub open spec fn only_at(slaves: Seq<SlaveView>, station: u16, k: int) -> bool {
    &&& 0 <= k < slaves.len()
    &&& forall|i: int|
        0 <= i < slaves.len() ==> ((#[trigger] slaves[i]).station == station <==> i == k)
}

/// A command to a configured station.
pub open spec fn is_fixed(d: DatagramView) -> bool {
    d.command is Fprd || d.command is Fpwr || d.command is Fprw
}

/// A slave a fixed command is not for lets it by.
proof fn lemma_not_here(slave: SlaveView, d: DatagramView)
    requires
        is_fixed(d),
        slave.station != d.station(),
    ensures
        slave.pass(d) == (slave, d),
{
    reveal(SlaveView::pass);
}

/// A fixed command leaves a slave with the station it came with.
proof fn lemma_fixed_stays(slave: SlaveView, d: DatagramView)
    requires
        is_fixed(d),
    ensures
        is_fixed(slave.pass(d).1),
        slave.pass(d).1.station() == d.station(),
{
    reveal(SlaveView::pass);
}

/// A fixed command nobody has the station of comes back as it went.
pub proof fn law_nobody_there(slaves: Seq<SlaveView>, d: DatagramView)
    requires
        is_fixed(d),
        forall|i: int| 0 <= i < slaves.len() ==> (#[trigger] slaves[i]).station != d.station(),
    ensures
        round(slaves, d) == (slaves, d),
    decreases slaves.len(),
{
    if slaves.len() > 0 {
        let front = slaves.drop_last();
        assert forall|i: int| 0 <= i < front.len() implies (#[trigger] front[i]).station
            != d.station() by {
            assert(front[i] == slaves[i]);
        }
        law_nobody_there(front, d);
        assert(slaves[slaves.len() - 1].station != d.station());
        lemma_not_here(slaves.last(), d);
        assert(slaves =~= front.push(slaves.last()));
    }
}

/// A fixed command one slave has the station of passes that slave, and no other
/// changes it or is changed by it.
pub proof fn law_one_there(slaves: Seq<SlaveView>, d: DatagramView, k: int)
    requires
        is_fixed(d),
        only_at(slaves, d.station(), k),
    ensures
        round(slaves, d) == (slaves.update(k, slaves[k].pass(d).0), slaves[k].pass(d).1),
    decreases slaves.len(),
{
    let front = slaves.drop_last();
    let last = slaves.last();
    assert(forall|i: int| 0 <= i < front.len() ==> #[trigger] front[i] == slaves[i]);
    if k == front.len() {
        law_nobody_there(front, d);
        assert(slaves.update(k, last.pass(d).0) =~= front.push(last.pass(d).0));
    } else {
        assert(slaves[slaves.len() - 1].station != d.station());
        law_one_there(front, d, k);
        let on = slaves[k].pass(d).1;
        lemma_fixed_stays(slaves[k], d);
        lemma_not_here(last, on);
        assert(slaves.update(k, slaves[k].pass(d).0) =~= front.update(
            k,
            slaves[k].pass(d).0,
        ).push(last));
    }
}

/// A command to a position.
pub open spec fn is_position(d: DatagramView) -> bool {
    d.command is Aprd || d.command is Apwr || d.command is Aprw
}

/// The position of `d` when `n` slaves have passed it.
pub open spec fn position_after(d: DatagramView, n: nat) -> u16 {
    ((d.station() + n) % 0x1_0000) as u16
}

/// A station replaced is that station, and replaces the one before.
proof fn lemma_with_station(d: DatagramView, a: u16, b: u16)
    ensures
        d.with_station(a).station() == a,
        d.with_station(a).with_station(b) == d.with_station(b),
        d.with_station(d.station()) == d,
{
}

/// A slave that a position is not zero at increments it, and does nothing else.
proof fn lemma_passed_by(slave: SlaveView, d: DatagramView)
    requires
        is_position(d),
        d.station() != 0,
    ensures
        slave.pass(d) == (slave, d.with_station(position_after(d, 1))),
{
    reveal(SlaveView::pass);
}

/// Slaves that a position does not reach zero at only increment it.
proof fn lemma_counted_by(slaves: Seq<SlaveView>, d: DatagramView)
    requires
        is_position(d),
        forall|n: nat| n < slaves.len() ==> #[trigger] position_after(d, n) != 0,
    ensures
        round(slaves, d) == (slaves, d.with_station(position_after(d, slaves.len()))),
    decreases slaves.len(),
{
    if slaves.len() == 0 {
        lemma_with_station(d, 0, 0);
    } else {
        let front = slaves.drop_last();
        let at = position_after(d, front.len());
        lemma_counted_by(front, d);
        assert(at != 0);
        lemma_with_station(d, at, position_after(d, slaves.len()));
        lemma_passed_by(slaves.last(), d.with_station(at));
        assert(slaves =~= front.push(slaves.last()));
    }
}

/// A position finds the slave that many places from the first, counted down from
/// zero: that slave acts as on position zero, no other changes, and every slave
/// on the ring has incremented the position that comes back.
pub proof fn law_position_finds_its_slave(slaves: Seq<SlaveView>, d: DatagramView, k: int)
    requires
        is_position(d),
        0 <= k < slaves.len() <= 0x1_0000,
        d.station() == (0x1_0000 - k) % 0x1_0000,
    ensures
        ({
            let (served, on) = slaves[k].pass(d.with_station(0));
            round(slaves, d) == (
                slaves.update(k, served),
                on.with_station(position_after(d, slaves.len())),
            )
        }),
    decreases slaves.len(),
{
    let front = slaves.drop_last();
    let last = slaves.last();
    let here = d.with_station(0);
    let (served, on) = slaves[k].pass(here);
    let then = position_after(d, slaves.len());
    lemma_with_station(d, 0, 0);
    law_pass_keeps(slaves[k], here);
    if k == front.len() {
        assert forall|n: nat| n < front.len() implies #[trigger] position_after(d, n) != 0 by {}
        lemma_counted_by(front, d);
        assert(position_after(d, front.len()) == 0);
        law_position_is_incremented(last, here);
        assert(then == 1);
        lemma_with_station(on, 0, 0);
        assert(slaves.update(k, served) =~= front.push(served));
    } else {
        let at = position_after(d, front.len());
        law_position_finds_its_slave(front, d, k);
        assert(front[k] == slaves[k]);
        assert(at == front.len() - k);
        lemma_with_station(on, at, then);
        lemma_passed_by(last, on.with_station(at));
        assert(position_after(on.with_station(at), 1) == then);
        assert(slaves.update(k, served) =~= front.update(k, served).push(last));
    }
}

/// One slave has the station exactly where one is counted there.
pub proof fn lemma_count_at(slaves: Seq<SlaveView>, station: u16)
    ensures
        count_at(slaves, station) <= slaves.len(),
        count_at(slaves, station) == 0 <==> forall|i: int|
            0 <= i < slaves.len() ==> (#[trigger] slaves[i]).station != station,
        count_at(slaves, station) == 1 <==> exists|k: int| only_at(slaves, station, k),
    decreases slaves.len(),
{
    if slaves.len() > 0 {
        let front = slaves.drop_last();
        let end = slaves.len() - 1;
        lemma_count_at(front, station);
        assert(forall|i: int| 0 <= i < front.len() ==> #[trigger] front[i] == slaves[i]);
        assert forall|i: int| 0 <= i < front.len() && slaves[i].station == station implies (
        #[trigger] front[i]).station == station by {}
        if count_at(slaves, station) == 1 {
            if slaves[end].station == station {
                assert(count_at(front, station) == 0);
                assert forall|i: int| 0 <= i < slaves.len() implies ((
                #[trigger] slaves[i]).station == station <==> i == end) by {
                    if i < end {
                        assert(front[i].station != station);
                    }
                }
                assert(only_at(slaves, station, end));
            } else {
                let k = choose|k: int| only_at(front, station, k);
                assert forall|i: int| 0 <= i < slaves.len() implies ((
                #[trigger] slaves[i]).station == station <==> i == k) by {
                    if i < end {
                        assert(front[i].station == station <==> i == k);
                    }
                }
                assert(only_at(slaves, station, k));
            }
        }
        if exists|k: int| only_at(slaves, station, k) {
            let k = choose|k: int| only_at(slaves, station, k);
            if k == end {
                assert forall|i: int| 0 <= i < front.len() implies (
                #[trigger] front[i]).station != station by {
                    assert(slaves[i].station == station <==> i == k);
                }
                assert(count_at(front, station) == 0);
            } else {
                assert(slaves[end].station != station);
                assert forall|i: int| 0 <= i < front.len() implies ((
                #[trigger] front[i]).station == station <==> i == k) by {
                    assert(slaves[i].station == station <==> i == k);
                }
                assert(only_at(front, station, k));
            }
        }
        if count_at(slaves, station) == 0 {
            assert forall|i: int| 0 <= i < slaves.len() implies (
            #[trigger] slaves[i]).station != station by {
                if i < end {
                    assert(front[i].station != station);
                }
            }
        }
    }
}

/// Slaves at the same stations are counted alike.
pub(crate) proof fn lemma_same_stations(a: Seq<SlaveView>, b: Seq<SlaveView>, station: u16)
    requires
        a.len() == b.len(),
        forall|i: int|
            0 <= i < a.len() ==> (#[trigger] b[i]).station == (#[trigger] a[i]).station,
    ensures
        count_at(a, station) == count_at(b, station),
    decreases a.len(),
{
    if a.len() > 0 {
        assert(b.last().station == a.last().station);
        lemma_same_stations(a.drop_last(), b.drop_last(), station);
    }
}

/// Every slave at `station` has its receive mailbox written.
pub open spec fn delivered(slaves: Seq<SlaveView>, station: u16, bytes: Seq<u8>) -> Seq<SlaveView> {
    slaves.map_values(
        |slave: SlaveView|
            if slave.station == station {
                slave.receive(bytes)
            } else {
                slave
            },
    )
}

/// Writing a mailbox moves no slave.
pub proof fn law_delivery_moves_nobody(slaves: Seq<SlaveView>, station: u16, bytes: Seq<u8>)
    ensures
        delivered(slaves, station, bytes).len() == slaves.len(),
        forall|i: int|
            0 <= i < slaves.len() ==> (#[trigger] delivered(slaves, station, bytes)[i]).station
                == slaves[i].station,
{
    assert forall|i: int| 0 <= i < slaves.len() implies (#[trigger] delivered(
        slaves,
        station,
        bytes,
    )[i]).station == slaves[i].station by {
        law_receive_keeps(slaves[i], bytes);
    }
}

/// `d` after `n` slaves counted it.
pub open spec fn counted(d: DatagramView, n: nat) -> DatagramView {
    DatagramView { working_counter: ((d.working_counter + n) % 0x1_0000) as u16, ..d }
}

/// What the mailbox holds, written to a station, reaches every slave there, and
/// each counts; what it does not hold reaches none.
pub proof fn law_mailbox_write(slaves: Seq<SlaveView>, d: DatagramView)
    requires
        d.command is Fpwr,
        d.offset() == RECEIVE_MAILBOX,
    ensures
        round(slaves, d) == if d.data.len() <= MAILBOX_SIZE {
            (delivered(slaves, d.station(), d.data), counted(d, count_at(slaves, d.station())))
        } else {
            (slaves, d)
        },
    decreases slaves.len(),
{
    if slaves.len() == 0 {
        assert(delivered(slaves, d.station(), d.data) =~= slaves);
        assert(counted(d, 0) == d);
    } else {
        let front = slaves.drop_last();
        let on = round(front, d).1;
        law_mailbox_write(front, d);
        lemma_taken(slaves.last(), on);
        assert(slaves =~= front.push(slaves.last()));
        if d.data.len() <= MAILBOX_SIZE {
            assert(on == counted(d, count_at(front, d.station())));
            assert(counted(on, 1) == counted(d, count_at(front, d.station()) + 1));
            assert(delivered(slaves, d.station(), d.data) =~= delivered(
                front,
                d.station(),
                d.data,
            ).push(slaves.last().pass(on).0));
        }
    }
}

/// One slave, and a write into the receive mailbox at some station.
proof fn lemma_taken(slave: SlaveView, d: DatagramView)
    requires
        d.command is Fpwr,
        d.offset() == RECEIVE_MAILBOX,
    ensures
        slave.pass(d) == if slave.station == d.station() && d.data.len() <= MAILBOX_SIZE {
            (slave.receive(d.data), counted(d, 1))
        } else {
            (slave, d)
        },
{
    reveal(SlaveView::pass);
}

/// One slave, and a read of the AL status that is for it, or is not.
proof fn lemma_status(slave: SlaveView, d: DatagramView)
    requires
        d.command is Fprd || d.command is Brd,
        d.offset() == AL_STATUS,
    ensures
        slave.pass(d) == (
            slave,
            if slave.addressed(d) {
                DatagramView {
                    data: fitted(le16(OPERATIONAL as int), d.data.len()),
                    ..counted(d, 1)
                }
            } else {
                d
            },
        ),
{
    reveal(SlaveView::pass);
}

/// The AL status read at a station is filled in by every slave there, and each
/// counts. No slave is changed.
pub proof fn law_status_read(slaves: Seq<SlaveView>, d: DatagramView)
    requires
        d.command is Fprd,
        d.offset() == AL_STATUS,
    ensures
        round(slaves, d) == (
            slaves,
            if count_at(slaves, d.station()) == 0 {
                d
            } else {
                DatagramView {
                    data: fitted(le16(OPERATIONAL as int), d.data.len()),
                    ..counted(d, count_at(slaves, d.station()))
                }
            },
        ),
    decreases slaves.len(),
{
    if slaves.len() > 0 {
        let front = slaves.drop_last();
        law_status_read(front, d);
        lemma_status(slaves.last(), round(front, d).1);
        assert(slaves =~= front.push(slaves.last()));
    }
}

/// A broadcast read of the AL status is filled in by every slave, and the
/// working counter counts them. No slave is changed.
pub proof fn law_broadcast_counts(slaves: Seq<SlaveView>, d: DatagramView)
    requires
        d.command is Brd,
        d.offset() == AL_STATUS,
    ensures
        round(slaves, d) == (
            slaves,
            if slaves.len() == 0 {
                d
            } else {
                DatagramView {
                    data: fitted(le16(OPERATIONAL as int), d.data.len()),
                    ..counted(d, slaves.len())
                }
            },
        ),
    decreases slaves.len(),
{
    if slaves.len() > 0 {
        let front = slaves.drop_last();
        law_broadcast_counts(front, d);
        lemma_status(slaves.last(), round(front, d).1);
        assert(slaves =~= front.push(slaves.last()));
    }
}

} // verus!
