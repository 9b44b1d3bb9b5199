//! The master's side of one link, addressing one station's one object.
//!
//! What the master decides is apart from the link it decides it for: a function
//! here says what to transmit, and another what to make of what was received or
//! was not. [`EtherCatTransport::exchange`] and what is built on it drive those
//! on an in-process [`Segment`], which answers as the master transmits, so what
//! it does not answer at once it never answers.

use vstd::prelude::*;

use crate::datagram::{
    address_of, body_size, decode, decoded, encode, encoded,
    law_decode_gives_back_what_was_encoded, outgoing, views, views_of, Command, Datagram,
    DatagramView, ETHERTYPE,
};
use crate::error::Error;
use crate::link::{broadcast, Frame, FrameView, Mac};
use crate::segment::{
    at_rest, kept, law_broadcast_counts, law_what_goes_round_comes_back, round, rounds, Segment,
    SegmentView,
};
use crate::slave::{SlaveView, AL_STATUS};
use crate::target::{origin, origin_of, resolve, resolved};
use crate::text::chars_of;
use crate::wire::{put_zeros, zeros};
use crate::STREAM_OBJECT;

verus! {

/// The master's side of one link: the link's name, the address the master sends
/// from, the station and the object it speaks to, and how long it waits, in
/// nanoseconds. What marks its frames is in the [`Marks`] that it is used with.
pub struct EtherCatTransport {
    link: String,
    source: Mac,
    station: u16,
    index: u16,
    subindex: u8,
    timeout: u128,
}

/// The marks of a master's frames: the next one. A master and its clones share
/// one.
pub struct Marks {
    next_index: u8,
}

/// What a master is.
pub struct TransportView {
    pub link: Seq<char>,
    pub source: Mac,
    pub station: u16,
    pub index: u16,
    pub subindex: u8,
    pub timeout: u128,
}

/// A master, and the mark of its next frame.
pub struct MasterView {
    pub transport: TransportView,
    pub next_index: u8,
}

impl View for EtherCatTransport {
    type V = TransportView;

    closed spec fn view(&self) -> TransportView {
        TransportView {
            link: self.link@,
            source: self.source,
            station: self.station,
            index: self.index,
            subindex: self.subindex,
            timeout: self.timeout,
        }
    }
}

impl View for Marks {
    type V = u8;

    closed spec fn view(&self) -> u8 {
        self.next_index
    }
}

impl Marks {
    /// The marks of a new master begin with zero.
    #[must_use]
    pub fn new() -> (marks: Self)
        ensures
            marks@ == 0,
    {
        Self { next_index: 0 }
    }

    /// The mark of the next frame.
    pub fn next_index(&self) -> (r: u8)
        ensures
            r == self@,
    {
        self.next_index
    }
}

impl TransportView {
    /// The station and the object the master speaks to.
    pub open spec fn configured(self) -> (u16, u16, u8) {
        (self.station, self.index, self.subindex)
    }

    /// The frame that carries `payload` to everyone on the ring.
    pub open spec fn frame(self, payload: Seq<u8>) -> FrameView {
        FrameView { destination: broadcast(), source: self.source, ethertype: ETHERTYPE, payload }
    }
}

impl MasterView {
    /// The master after `n` more frames.
    pub open spec fn after(self, n: nat) -> MasterView {
        MasterView { next_index: ((self.next_index + n) % 0x100) as u8, ..self }
    }
}

impl Clone for EtherCatTransport {
    /// The same master again. Used with the same marks, the two never mark their
    /// frames alike before the marks have gone round.
    fn clone(&self) -> (master: Self)
        ensures
            master@ == self@,
    {
        Self {
            link: self.link.clone(),
            source: self.source,
            station: self.station,
            index: self.index,
            subindex: self.subindex,
            timeout: self.timeout,
        }
    }
}

impl EtherCatTransport {
    /// The master used with `marks`.
    pub open spec fn with(&self, marks: Marks) -> MasterView {
        MasterView { transport: self@, next_index: marks@ }
    }
}

impl EtherCatTransport {
    /// A master on the link called `link`, sending from `source`, speaking to
    /// `station` about [`STREAM_OBJECT`], and waiting for a second.
    #[must_use]
    pub fn new(link: String, source: Mac, station: u16) -> (master: Self)
        ensures
            master@ == (TransportView {
                link: link@,
                source,
                station,
                index: STREAM_OBJECT.0,
                subindex: STREAM_OBJECT.1,
                timeout: 1_000_000_000,
            }),
    {
        Self {
            link,
            source,
            station,
            index: STREAM_OBJECT.0,
            subindex: STREAM_OBJECT.1,
            timeout: 1_000_000_000,
        }
    }

    /// Speak about `index:subindex` instead.
    #[must_use]
    pub fn about(self, index: u16, subindex: u8) -> (master: Self)
        ensures
            master@ == (TransportView { index, subindex, ..self@ }),
    {
        Self { index, subindex, ..self }
    }

    /// Give up on a ring that stops answering, after `timeout` nanoseconds.
    #[must_use]
    pub fn timing_out_after(self, timeout: u128) -> (master: Self)
        ensures
            master@ == (TransportView { timeout, ..self@ }),
    {
        Self { timeout, ..self }
    }

    /// `ethercat://<link>/0x<station>/0x<index>/<sub>`.
    #[must_use]
    pub fn origin(&self, station: u16, index: u16, subindex: u8) -> (r: String)
        ensures
            r@ == origin_of(self@.link, station, index, subindex),
    {
        origin(self.link.as_str(), station, index, subindex)
    }

    /// The station and the object the master speaks to.
    pub fn configured(&self) -> (r: (u16, u16, u8))
        ensures
            r == self@.configured(),
    {
        (self.station, self.index, self.subindex)
    }

    /// The station and object a target names, or the configured ones.
    pub fn resolve(&self, target: &str) -> (r: Result<(u16, u16, u8), Error>)
        ensures
            match resolved(target@, self@.configured()) {
                Some(object) => r == Ok::<(u16, u16, u8), Error>(object),
                None => r matches Err(Error::BadTarget(said)) && said@ == target@,
            },
    {
        let text = chars_of(target);
        match resolve(text.as_slice(), self.configured()) {
            Some(object) => Ok(object),
            None => Err(Error::BadTarget(target.to_owned())),
        }
    }
}

/// `a` frames and then `b` are as many as both together.
pub(crate) proof fn lemma_after(master: MasterView, a: nat, b: nat)
    ensures
        master.after(a).after(b) == master.after(a + b),
{
}

/// The datagrams with the master's mark.
pub open spec fn marked(ds: Seq<DatagramView>, index: u8) -> Seq<DatagramView> {
    ds.map_values(|d: DatagramView| DatagramView { index, ..d })
}

/// What a frame answers to the one marked `index`: the datagrams it carries,
/// where it is `EtherCAT`, well formed, and has that mark on the first of them.
pub open spec fn answer_in(frame: FrameView, index: u8) -> Option<Seq<DatagramView>> {
    if frame.ethertype != ETHERTYPE {
        None
    } else {
        match decoded(frame.payload) {
            Ok(back) => if back.len() > 0 && back[0].index == index {
                Some(back)
            } else {
                None
            },
            Err(_) => None,
        }
    }
}

/// What was heard of the answer to the frame marked `index`, where a frame was
/// received.
pub open spec fn heard(frame: Option<&Frame>, index: u8) -> Option<Seq<DatagramView>> {
    match frame {
        Some(frame) => answer_in(frame@, index),
        None => None,
    }
}

/// The first of the waiting frames that answers, and the frames that wait after
/// it. What comes before it is dropped.
pub open spec fn first_answer(waiting: Seq<FrameView>, index: u8) -> (
    Option<Seq<DatagramView>>,
    Seq<FrameView>,
)
    decreases waiting.len(),
{
    if waiting.len() == 0 {
        (None, waiting)
    } else {
        match answer_in(waiting[0], index) {
            Some(back) => (Some(back), waiting.skip(1)),
            None => first_answer(waiting.skip(1), index),
        }
    }
}

impl EtherCatTransport {
    /// Mark the datagrams, and put them in the frame to transmit. The mark is
    /// spent even where more than one frame carries is refused.
    pub fn open_exchange(&self, marks: &mut Marks, datagrams: Vec<Datagram>) -> (r: Result<
        (u8, Frame),
        Error,
    >)
        ensures
            self.with(*final(marks)) == self.with(*old(marks)).after(1),
            ({
                let index = old(marks)@;
                match encoded(marked(views(datagrams@), index)) {
                    Ok(payload) => r matches Ok((mark, frame)) && mark == index && frame@
                        == self@.frame(payload),
                    Err(e) => r == Err::<(u8, Frame), Error>(e),
                }
            }),
    {
        let index = marks.next_index;
        marks.next_index = marks.next_index.wrapping_add(1);
        let ghost ds = views(datagrams@);
        let mut datagrams = datagrams;
        let n = datagrams.len();
        for i in 0..n
            invariant
                n == datagrams@.len() == ds.len(),
                forall|j: int| 0 <= j < i ==> #[trigger] datagrams@[j]@ == marked(ds, index)[j],
                forall|j: int| i <= j < n ==> #[trigger] datagrams@[j]@ == ds[j],
        {
            assert(datagrams@[i as int]@ == ds[i as int]);
            datagrams[i].index = index;
            assert(datagrams@[i as int]@ == marked(ds, index)[i as int]);
        }
        assert(views(datagrams@) =~= marked(ds, index));
        match encode(datagrams.as_slice()) {
            Ok(payload) => Ok(
                (
                    index,
                    Frame {
                        destination: Mac::broadcast(),
                        source: self.source,
                        ethertype: ETHERTYPE,
                        payload,
                    },
                ),
            ),
            Err(e) => Err(e),
        }
    }

    /// What `frame` answers to the one marked `index`.
    fn answer(frame: &Frame, index: u8) -> (r: Option<Vec<Datagram>>)
        ensures
            match answer_in(frame@, index) {
                Some(back) => r matches Some(datagrams) && views(datagrams@) == back,
                None => r is None,
            },
    {
        if frame.ethertype != ETHERTYPE {
            return None;
        }
        match decode(frame.payload.as_slice()) {
            Ok(back) => {
                assert(back@.len() > 0 ==> views(back@)[0] == back@[0]@);
                if back.len() > 0 && back[0].index == index {
                    Some(back)
                } else {
                    None
                }
            },
            Err(_) => None,
        }
    }

    /// What to make of what was received, or was not, `elapsed` nanoseconds
    /// after the frame marked `index` was transmitted: the answer to it; or,
    /// where that did not come, nothing, to receive again, until the time is up,
    /// and then that the ring does not answer, whatever else comes.
    pub fn listened(&self, index: u8, frame: Option<&Frame>, elapsed: u128) -> (r: Result<
        Option<Vec<Datagram>>,
        Error,
    >)
        ensures
            match heard(frame, index) {
                Some(back) => r matches Ok(Some(datagrams)) && views(datagrams@) == back,
                None => r == if elapsed >= self@.timeout {
                    Err::<Option<Vec<Datagram>>, Error>(Error::NoAnswer)
                } else {
                    Ok(None)
                },
            },
    {
        let answer = match frame {
            Some(frame) => Self::answer(frame, index),
            None => None,
        };
        if answer.is_some() {
            Ok(answer)
        } else if elapsed >= self.timeout {
            Err(Error::NoAnswer)
        } else {
            Ok(None)
        }
    }
}

impl SegmentView {
    /// No frame that waits for the master answers to the mark `index`.
    pub open spec fn unanswered(self, index: u8) -> bool {
        first_answer(self.waiting, index).0 is None
    }

    /// `frame` goes round: what the ring is when the master has its answer, or
    /// has found that there is none, and the answer.
    pub open spec fn exchange(self, frame: FrameView, index: u8) -> (
        SegmentView,
        Option<Seq<DatagramView>>,
    ) {
        let sent = self.transmit(frame);
        let (back, waiting) = first_answer(sent.waiting, index);
        (SegmentView { slaves: sent.slaves, waiting }, back)
    }
}

/// One exchange of a master on a ring: the datagrams that came back, or why none
/// did, and what the ring is then. Nothing is transmitted of no datagrams, and of
/// more than one frame carries.
pub open spec fn exchanged(ring: SegmentView, master: MasterView, ds: Seq<DatagramView>) -> (
    Result<Seq<DatagramView>, Error>,
    SegmentView,
) {
    match encoded(marked(ds, master.next_index)) {
        Ok(payload) => {
            let (after, back) = ring.exchange(master.transport.frame(payload), master.next_index);
            match back {
                Some(back) => (Ok(back), after),
                None => (Err(Error::NoAnswer), after),
            }
        },
        Err(e) => (Err(e), ring),
    }
}

/// Frames that do not answer are dropped for the one after them that does.
proof fn lemma_answered_last(waiting: Seq<FrameView>, frame: FrameView, index: u8)
    requires
        first_answer(waiting, index).0 is None,
        answer_in(frame, index) is Some,
    ensures
        first_answer(waiting.push(frame), index) == (
            answer_in(frame, index),
            Seq::<FrameView>::empty(),
        ),
    decreases waiting.len(),
{
    let all = waiting.push(frame);
    if waiting.len() == 0 {
        assert(all.skip(1) =~= Seq::<FrameView>::empty());
    } else {
        assert(all[0] == waiting[0]);
        assert(all.skip(1) =~= waiting.skip(1).push(frame));
        lemma_answered_last(waiting.skip(1), frame, index);
    }
}

/// Where no frame that waits answers to the master's mark, the frame it
/// transmits passes every slave and is the answer: what waited is dropped, and
/// nothing waits after it.
pub proof fn law_ring_answers(ring: SegmentView, master: MasterView, ds: Seq<DatagramView>)
    requires
        ring.unanswered(master.next_index),
    ensures
        ({
            let out = marked(ds, master.next_index);
            let (slaves, backs) = rounds(ring.slaves, out);
            exchanged(ring, master, ds) == match encoded(out) {
                Ok(_) => (Ok::<Seq<DatagramView>, Error>(backs), at_rest(slaves)),
                Err(e) => (Err(e), ring),
            }
        }),
{
    let index = master.next_index;
    let out = marked(ds, index);
    if encoded(out) is Ok {
        let frame = master.transport.frame(encoded(out).unwrap());
        let (slaves, backs) = rounds(ring.slaves, out);
        law_decode_gives_back_what_was_encoded(out, seq![]);
        law_what_goes_round_comes_back(ring.slaves, out);
        law_decode_gives_back_what_was_encoded(backs, seq![]);
        let waiting = ring.transmit(frame).waiting;
        assert(backs[0].index == out[0].index);
        assert(answer_in(waiting.last(), index) == Some(backs));
        assert(waiting =~= ring.waiting.push(waiting.last()));
        lemma_answered_last(ring.waiting, waiting.last(), index);
    }
}

/// An exchange leaves as many slaves as there were, each at its station, and
/// nothing waiting where nothing waited.
pub proof fn law_exchange_keeps_the_ring(
    ring: SegmentView,
    master: MasterView,
    ds: Seq<DatagramView>,
)
    ensures
        kept(ring, exchanged(ring, master, ds).1),
{
    let out = marked(ds, master.next_index);
    if encoded(out) is Ok {
        law_decode_gives_back_what_was_encoded(out, seq![]);
        law_what_goes_round_comes_back(ring.slaves, out);
        if ring.quiet() {
            law_ring_answers(ring, master, ds);
        }
    }
}

/// A frame a master made of datagrams that one frame carries is never refused.
proof fn lemma_never_refused(
    ring: SegmentView,
    master: MasterView,
    ds: Seq<DatagramView>,
    index: u8,
)
    requires
        encoded(marked(ds, index)) is Ok,
    ensures
        ring.refusal(master.transport.frame(encoded(marked(ds, index)).unwrap())) is None,
{
    let out = marked(ds, index);
    law_decode_gives_back_what_was_encoded(out, seq![]);
    law_what_goes_round_comes_back(ring.slaves, out);
}

impl EtherCatTransport {
    /// One frame round the ring: the datagrams as they came back, each with its
    /// working counter. Refused are no datagrams, more than one frame carries,
    /// and a ring that does not answer.
    pub fn exchange(&self, marks: &mut Marks, ring: &mut Segment, datagrams: Vec<Datagram>) -> (r:
        Result<Vec<Datagram>, Error>)
        ensures
            self.with(*final(marks)) == self.with(*old(marks)).after(1),
            (views_of(r), final(ring)@) == exchanged(
                old(ring)@,
                self.with(*old(marks)),
                views(datagrams@),
            ),
    {
        let ghost ds = views(datagrams@);
        let ghost master = self.with(*marks);
        let ghost before = ring@;
        let (index, frame) = match self.open_exchange(marks, datagrams) {
            Ok(opened) => opened,
            Err(e) => {
                return Err(e);
            },
        };
        proof {
            lemma_never_refused(before, master, ds, index);
        }
        match ring.transmit(&frame) {
            Ok(_) => {},
            Err(e) => {
                return Err(e);
            },
        }
        self.listen(ring, index)
    }

    /// Receive until the frame marked `index` is answered, or nothing waits.
    fn listen(&self, ring: &mut Segment, index: u8) -> (r: Result<Vec<Datagram>, Error>)
        ensures
            final(ring)@ == (SegmentView {
                slaves: old(ring)@.slaves,
                waiting: first_answer(old(ring)@.waiting, index).1,
            }),
            views_of(r) == match first_answer(old(ring)@.waiting, index).0 {
                Some(back) => Ok::<Seq<DatagramView>, Error>(back),
                None => Err(Error::NoAnswer),
            },
    {
        let ghost before = ring@;
        loop
            invariant
                ring@.slaves == before.slaves,
                first_answer(ring@.waiting, index) == first_answer(before.waiting, index),
                before == old(ring)@,
            decreases ring@.waiting.len(),
        {
            let ghost waiting = ring@.waiting;
            match ring.receive() {
                Some(frame) => match Self::answer(&frame, index) {
                    Some(back) => {
                        assert(ring@ =~= SegmentView {
                            slaves: before.slaves,
                            waiting: first_answer(before.waiting, index).1,
                        });
                        return Ok(back);
                    },
                    None => {
                        assert(ring@.waiting == waiting.skip(1));
                    },
                },
                None => {
                    assert(waiting.len() == 0);
                    assert(first_answer(waiting, index) == (None::<Seq<DatagramView>>, waiting));
                    assert(ring@.waiting =~= waiting);
                    return Err(Error::NoAnswer);
                },
            }
        }
    }
}

/// What asks how many slaves are on the ring.
pub open spec fn count_datagrams() -> Seq<DatagramView> {
    seq![outgoing(Command::Brd, address_of(0, AL_STATUS), zeros(2))]
}

/// The working counter of the first datagram that came back.
pub open spec fn count_in(back: Seq<DatagramView>) -> u16 {
    if back.len() > 0 {
        back[0].working_counter
    } else {
        0
    }
}

/// One frame carries a count.
proof fn lemma_count_fits(index: u8)
    ensures
        encoded(marked(count_datagrams(), index)) is Ok,
{
    let ds = marked(count_datagrams(), index);
    assert(ds.skip(1).len() == 0);
    assert(body_size(ds.skip(1)) == 0);
    assert(body_size(ds) == ds[0].size());
}

/// A count counts the slaves, and changes none.
proof fn lemma_count_round(slaves: Seq<SlaveView>, index: u8)
    ensures
        ({
            let (then, backs) = rounds(slaves, marked(count_datagrams(), index));
            &&& then == slaves
            &&& backs.len() == 1
            &&& backs[0].working_counter == slaves.len() % 0x1_0000
        }),
{
    let ds = marked(count_datagrams(), index);
    let none: Seq<DatagramView> = seq![];
    assert(ds.drop_last() =~= none);
    assert(rounds(slaves, none) == (slaves, none));
    let d = ds.last();
    assert(d.offset() == AL_STATUS);
    law_broadcast_counts(slaves, d);
    assert(rounds(slaves, ds) == (slaves, none.push(round(slaves, d).1)));
}

impl EtherCatTransport {
    /// What asks how many slaves are on the ring: a broadcast read.
    pub fn open_count() -> (r: Vec<Datagram>)
        ensures
            views(r@) == count_datagrams(),
    {
        let mut two: Vec<u8> = Vec::new();
        put_zeros(&mut two, 2);
        assert(two@ =~= zeros(2));
        let mut datagrams: Vec<Datagram> = Vec::new();
        match Datagram::at(Command::Brd, 0, AL_STATUS, two.as_slice()) {
            Ok(read) => {
                datagrams.push(read);
            },
            Err(_) => {},
        }
        assert(views(datagrams@) =~= count_datagrams());
        datagrams
    }

    /// How many slaves what came back says there are: its working counter.
    pub fn counted(back: &Vec<Datagram>) -> (r: u16)
        ensures
            r == count_in(views(back@)),
    {
        if back.len() > 0 {
            assert(views(back@)[0] == back@[0]@);
            back[0].working_counter
        } else {
            0
        }
    }

    /// How many slaves are on the ring: a broadcast read's working counter.
    /// Where no frame that waits answers in its place, that is how many there
    /// are, in sixteen bits.
    pub fn count(&self, marks: &mut Marks, ring: &mut Segment) -> (r: Result<u16, Error>)
        ensures
            self.with(*final(marks)) == self.with(*old(marks)).after(1),
            ({
                let master = self.with(*old(marks));
                let (back, after) = exchanged(old(ring)@, master, count_datagrams());
                &&& final(ring)@ == after
                &&& r == match back {
                    Ok(back) => Ok::<u16, Error>(count_in(back)),
                    Err(e) => Err(e),
                }
            }),
            old(ring)@.unanswered(old(marks)@) ==> {
                &&& r == Ok::<u16, Error>((old(ring)@.slaves.len() % 0x1_0000) as u16)
                &&& final(ring)@ == at_rest(old(ring)@.slaves)
            },
    {
        let datagrams = Self::open_count();
        proof {
            let index = marks@;
            lemma_count_fits(index);
            if ring@.unanswered(index) {
                law_ring_answers(ring@, self.with(*marks), count_datagrams());
                lemma_count_round(ring@.slaves, index);
            }
        }
        match self.exchange(marks, ring, datagrams) {
            Ok(back) => Ok(Self::counted(&back)),
            Err(e) => Err(e),
        }
    }

    /// How long the master waits, in nanoseconds.
    pub(crate) fn timeout(&self) -> (r: u128)
        ensures
            r == self@.timeout,
    {
        self.timeout
    }
}

} // verus!
