//! Streams: the object a target names is written with one, and the object the
//! master speaks to is read as one.

use vstd::prelude::*;

use crate::call::{clear, lemma_the_one, the_one};
use crate::error::Error;
use crate::link::Mac;
use crate::segment::{
    at_rest, count_at, lemma_same_stations, only_at, slave_views, Segment, SegmentView,
};
use crate::slave::{Slave, SlaveView};
use crate::target::{law_origin_names_its_object, origin_of, resolved};
use crate::transfer::{
    downloaded, law_read_gives_back_what_was_written, law_read_on_a_clear_ring,
    law_write_changes_one_object, law_write_keeps_the_ring, law_write_on_a_clear_ring,
    may_download, may_upload, uploaded, write_outcome,
};
use crate::transport::{lemma_after, EtherCatTransport, Marks, MasterView, TransportView};
use crate::{LOOPBACK_STATION, STREAM_OBJECT};

verus! {

/// A Stream, and where it came from.
#[derive(Clone, Debug, PartialEq, Eq)]
pub struct Arrived {
    pub origin_uri: String,
    pub bytes: Vec<u8>,
}

impl TransportView {
    /// The origin URI of the object the master speaks to.
    pub open spec fn origin(self) -> Seq<char> {
        origin_of(self.link, self.station, self.index, self.subindex)
    }
}

/// True where the object the master speaks to is there: its link's name has no
/// slash in it, one slave is at its station, and that slave holds the object.
pub open spec fn ready(ring: SegmentView, master: TransportView) -> bool {
    &&& !master.link.contains('/')
    &&& count_at(ring.slaves, master.station) == 1
    &&& ring.slaves[the_one(ring.slaves, master.station)].objects.contains_key(
        (master.index, master.subindex),
    )
}

/// What `payload` there and back gives: the bytes that came back, what the ring is
/// then, and how many marks it spent; nothing where a call cannot make anything
/// of what comes back, or the read does not end.
#[verifier::opaque]
pub open spec fn there_and_back(
    ring: SegmentView,
    master: MasterView,
    object: (u16, u16, u8),
    payload: Seq<u8>,
) -> Option<(Result<Seq<u8>, Error>, SegmentView, nat)> {
    match downloaded(ring, master, object.0, object.1, object.2, payload) {
        Some((Ok(_), between, sent)) => match uploaded(
            between,
            master.after(sent),
            master.transport.station,
            master.transport.index,
            master.transport.subindex,
        ) {
            Some((bytes, after, cost)) => Some((bytes, after, sent + cost)),
            None => None,
        },
        Some((Err(e), after, sent)) => Some((Err(e), after, sent)),
        None => None,
    }
}

/// Where no frame that waits answers in its place, what is sent to the object the
/// master speaks to is what it then receives, of any length that an SDO's size
/// says.
pub proof fn law_round_gives_back_what_was_sent(
    ring: SegmentView,
    master: MasterView,
    payload: Seq<u8>,
)
    requires
        ring.unanswered(master.next_index),
        ready(ring, master.transport),
        payload.len() <= u32::MAX,
    ensures
        resolved(master.transport.origin(), master.transport.configured()) == Some(
            master.transport.configured(),
        ),
        there_and_back(ring, master, master.transport.configured(), payload) matches Some(
            (bytes, _, _),
        ) && bytes == Ok::<Seq<u8>, Error>(payload),
{
    let (station, index, subindex) = master.transport.configured();
    reveal(there_and_back);
    let object = master.transport.configured();
    law_origin_names_its_object(master.transport.link, station, index, subindex, object);
    law_write_on_a_clear_ring(ring, master, station, index, subindex, payload);
    let (done, between, sent) = write_outcome(
        ring,
        master.next_index,
        station,
        index,
        subindex,
        payload,
    );
    assert(done is Ok) by {
        reveal(write_outcome);
    }
    law_read_gives_back_what_was_written(
        ring,
        master,
        station,
        index,
        subindex,
        payload,
        master.after(sent),
    );
}

/// On a clear ring `payload` there and back always ends.
proof fn lemma_there_and_back(
    ring: SegmentView,
    master: MasterView,
    object: (u16, u16, u8),
    payload: Seq<u8>,
)
    requires
        clear(ring, master.next_index, object.0),
        clear(ring, master.next_index, master.transport.station),
    ensures
        there_and_back(ring, master, object, payload) is Some,
{
    reveal(there_and_back);
    let (station, index, subindex) = object;
    law_write_on_a_clear_ring(ring, master, station, index, subindex, payload);
    law_write_changes_one_object(ring, master, station, index, subindex, payload);
    let (done, between, sent) = write_outcome(
        ring,
        master.next_index,
        station,
        index,
        subindex,
        payload,
    );
    if done is Ok {
        law_write_keeps_the_ring(ring, master, station, index, subindex, payload);
        lemma_same_stations(ring.slaves, between.slaves, master.transport.station);
        law_read_on_a_clear_ring(
            between,
            master.after(sent),
            master.transport.station,
            master.transport.index,
            master.transport.subindex,
        );
    }
}

impl EtherCatTransport {
    /// What the transport is called, and its scheme.
    pub fn name(&self) -> (r: &'static str)
        ensures
            r@ == "ethercat"@,
    {
        "ethercat"
    }

    /// One download of `bytes` to the object `target` names.
    pub fn send(&self, marks: &mut Marks, ring: &mut Segment, target: &str, bytes: &[u8]) -> (r:
        Result<(), Error>)
        requires
            match resolved(target@, self@.configured()) {
                Some((station, index, subindex)) => may_download(
                    old(ring)@,
                    self.with(*old(marks)),
                    station,
                    index,
                    subindex,
                    bytes@,
                ),
                None => true,
            },
        ensures
            match resolved(target@, self@.configured()) {
                Some((station, index, subindex)) => {
                    &&& downloaded(
                        old(ring)@,
                        self.with(*old(marks)),
                        station,
                        index,
                        subindex,
                        bytes@,
                    ) matches Some((done, after, cost))
                    &&& r == done
                    &&& final(ring)@ == after
                    &&& self.with(*final(marks)) == self.with(*old(marks)).after(cost)
                },
                None => {
                    &&& r matches Err(Error::BadTarget(said)) && said@ == target@
                    &&& final(ring)@ == old(ring)@
                    &&& final(marks)@ == old(marks)@
                },
            },
            final(ring)@.slaves.len() == old(ring)@.slaves.len(),
            old(ring)@.quiet() ==> final(ring)@.quiet(),
    {
        match self.resolve(target) {
            Ok((station, index, subindex)) => {
                self.download(marks, ring, station, index, subindex, bytes)
            },
            Err(e) => Err(e),
        }
    }

    /// One upload of the object the master speaks to: its bytes as one Stream.
    pub fn receive(&self, marks: &mut Marks, ring: &mut Segment) -> (r: Result<Vec<Arrived>, Error>)
        requires
            may_upload(
                old(ring)@,
                self.with(*old(marks)),
                self@.station,
                self@.index,
                self@.subindex,
            ),
        ensures
            uploaded(
                old(ring)@,
                self.with(*old(marks)),
                self@.station,
                self@.index,
                self@.subindex,
            ) matches Some((bytes, after, cost)) && {
                &&& match bytes {
                    Ok(bytes) => {
                        &&& r matches Ok(arrived)
                        &&& arrived@.len() == 1
                        &&& arrived@[0].origin_uri@ == self@.origin()
                        &&& arrived@[0].bytes@ == bytes
                    },
                    Err(e) => r == Err::<Vec<Arrived>, Error>(e),
                }
                &&& final(ring)@ == after
                &&& self.with(*final(marks)) == self.with(*old(marks)).after(cost)
            },
            final(ring)@.slaves.len() == old(ring)@.slaves.len(),
            old(ring)@.quiet() ==> final(ring)@.quiet(),
    {
        let (station, index, subindex) = self.configured();
        match self.upload(marks, ring, station, index, subindex) {
            Ok(bytes) => {
                let origin_uri = self.origin(station, index, subindex);
                let mut arrived: Vec<Arrived> = Vec::new();
                arrived.push(Arrived { origin_uri, bytes });
                Ok(arrived)
            },
            Err(e) => Err(e),
        }
    }

    /// There and back: `payload` sent to the origin of the object the master
    /// speaks to, and that object received.
    pub fn round(&self, marks: &mut Marks, ring: &mut Segment, payload: &[u8]) -> (r: Result<
        Arrived,
        Error,
    >)
        requires
            match resolved(self@.origin(), self@.configured()) {
                Some(object) => {
                    ||| clear(old(ring)@, old(marks)@, object.0) && clear(
                        old(ring)@,
                        old(marks)@,
                        self@.station,
                    )
                    ||| there_and_back(old(ring)@, self.with(*old(marks)), object, payload@) is Some
                },
                None => true,
            },
        ensures
            match resolved(self@.origin(), self@.configured()) {
                Some(object) => {
                    &&& there_and_back(
                        old(ring)@,
                        self.with(*old(marks)),
                        object,
                        payload@,
                    ) matches Some((bytes, after, cost))
                    &&& match bytes {
                        Ok(bytes) => {
                            &&& r matches Ok(arrived)
                            &&& arrived.bytes@ == bytes
                            &&& arrived.origin_uri@ == self@.origin()
                        },
                        Err(e) => r == Err::<Arrived, Error>(e),
                    }
                    &&& final(ring)@ == after
                    &&& self.with(*final(marks)) == self.with(*old(marks)).after(cost)
                },
                None => {
                    &&& r matches Err(Error::BadTarget(said)) && said@ == self@.origin()
                    &&& final(ring)@ == old(ring)@
                    &&& final(marks)@ == old(marks)@
                },
            },
            old(ring)@.unanswered(old(marks)@) && ready(old(ring)@, self@)
                && payload@.len() <= u32::MAX ==> {
                &&& r matches Ok(arrived)
                &&& arrived.bytes@ == payload@
                &&& arrived.origin_uri@ == self@.origin()
            },
            final(ring)@.slaves.len() == old(ring)@.slaves.len(),
            old(ring)@.quiet() ==> final(ring)@.quiet(),
    {
        let ghost before = ring@;
        let ghost master = self.with(*marks);
        let ghost object = resolved(master.transport.origin(), master.transport.configured());
        proof {
            reveal(there_and_back);
            if before.unanswered(master.next_index) && ready(before, master.transport)
                && payload@.len() <= u32::MAX {
                law_round_gives_back_what_was_sent(before, master, payload@);
            } else if object is Some && clear(before, master.next_index, object.unwrap().0)
                && clear(before, master.next_index, self@.station) {
                lemma_there_and_back(before, master, object.unwrap(), payload@);
            }
        }
        let (station, index, subindex) = self.configured();
        let address = self.origin(station, index, subindex);
        let ghost sent: nat = match object {
            Some((s, i, n)) => downloaded(before, master, s, i, n, payload@).unwrap().2,
            None => 0,
        };
        match self.send(marks, ring, address.as_str(), payload) {
            Ok(_) => {},
            Err(e) => {
                return Err(e);
            },
        }
        proof {
            let cost = uploaded(ring@, self.with(*marks), station, index, subindex).unwrap().2;
            lemma_after(master, sent, cost);
        }
        match self.receive(marks, ring) {
            Ok(mut arrived) => Ok(arrived.remove(0)),
            Err(e) => Err(e),
        }
    }
}

/// What the loopback's one slave is: operational, the Stream object empty.
pub open spec fn loopback_slave() -> SlaveView {
    SlaveView {
        station: LOOPBACK_STATION,
        objects: map![
            (0x1000u16, 0u8) => seq![0u8, 0u8, 0u8, 0u8],
            (STREAM_OBJECT.0, STREAM_OBJECT.1) => Seq::<u8>::empty(),
        ],
        outbox: None,
        download: None,
        upload: None,
    }
}

impl EtherCatTransport {
    /// Both ends of one in-process ring: a master, its marks, and one slave at
    /// [`LOOPBACK_STATION`], operational, the Stream object empty. The object the
    /// master speaks to is there.
    #[must_use]
    pub fn loopback() -> (r: (Self, Marks, Segment))
        ensures
            r.0@ == (TransportView {
                link: "loopback"@,
                source: Mac([2u8, 0u8, 0u8, 0u8, 0u8, 1u8]),
                station: LOOPBACK_STATION,
                index: STREAM_OBJECT.0,
                subindex: STREAM_OBJECT.1,
                timeout: 1_000_000_000,
            }),
            r.1@ == 0,
            r.2@ == at_rest(seq![loopback_slave()]),
            ready(r.2@, r.0@),
    {
        let slave = Slave::new(LOOPBACK_STATION).with_object(
            STREAM_OBJECT.0,
            STREAM_OBJECT.1,
            Vec::new(),
        );
        assert(slave@.objects =~= loopback_slave().objects);
        let mut slaves: Vec<Slave> = Vec::new();
        slaves.push(slave);
        assert(slave_views(slaves@) =~= seq![loopback_slave()]);
        let ring = Segment::new(slaves);
        let master = Self::new("loopback".to_owned(), Mac([2, 0, 0, 0, 0, 1]), LOOPBACK_STATION);
        proof {
            reveal_strlit("loopback");
            assert(only_at(ring@.slaves, LOOPBACK_STATION, 0));
            lemma_the_one(ring@.slaves, LOOPBACK_STATION, 0);
        }
        (master, Marks::new(), ring)
    }
}

} // verus!
