//! Objects read and written whole, through as many mailbox calls as that takes,
//! on an in-process ring.

use vstd::prelude::*;

use crate::call::{
    call_counter, called, clear, law_call_finds_nobody, law_call_is_served,
    law_call_keeps_the_ring, lemma_still_there, lemma_the_one, may_call, the_one, with_read,
};
use crate::client::{
    least, next_toggle, opening_of, refused_with, Download, DownloadView, Upload, UploadView,
};
use crate::datagram::bytes_of;
use crate::error::Error;
use crate::mailbox::{coe, coe_window, MessageView, INITIATE_DATA, MAILBOX_SIZE, SEGMENT_DATA};
use crate::sdo::{OpeningView, Sdo, SdoView, ABORT_NO_OBJECT};
use crate::segment::{
    at_rest, count_at, delivered, kept, lemma_count_at, lemma_kept, only_at, Segment, SegmentView,
};
use crate::slave::{SlaveView, TransferView};
use crate::transport::{lemma_after, EtherCatTransport, Marks, MasterView};

verus! {

/// How many segments an object of `n` bytes travels in, after its opening.
pub open spec fn segments(n: nat) -> nat {
    if n <= INITIATE_DATA {
        0
    } else {
        ((n - INITIATE_DATA + SEGMENT_DATA - 1) / SEGMENT_DATA as int) as nat
    }
}

/// An object travels in as many segments as cover what its opening left.
proof fn lemma_segments(n: nat, sent: nat)
    ensures
        SEGMENT_DATA * (sent + 1) == SEGMENT_DATA * sent + SEGMENT_DATA,
        INITIATE_DATA + SEGMENT_DATA * sent < n ==> segments(n) > sent,
        INITIATE_DATA + SEGMENT_DATA * sent < n <= INITIATE_DATA + SEGMENT_DATA * (sent + 1)
            ==> segments(n) == sent + 1,
{
    let one = SEGMENT_DATA as int;
    let all = one * sent;
    let left = n - INITIATE_DATA;
    assert(one * (sent + 1) == one * sent + one) by (nonlinear_arith);
    if all < left {
        assert((left + one - 1) / one > sent) by (nonlinear_arith)
            requires
                one > 0,
                all == one * sent,
                all < left,
        ;
    }
    if all < left <= all + one {
        assert((left + one - 1) / one == sent + 1) by (nonlinear_arith)
            requires
                one > 0,
                all == one * sent,
                all < left <= all + one,
        ;
    }
}

/// How a write goes on with `ask`: what it gives, what the ring is then, and how
/// many marks it spent; nothing where a call cannot make anything of what comes
/// back.
#[verifier::opaque]
pub open spec fn writing(
    ring: SegmentView,
    master: MasterView,
    station: u16,
    transfer: DownloadView,
    ask: SdoView,
) -> Option<(Result<(), Error>, SegmentView, nat)>
    decreases transfer.bytes.len() - transfer.at,
{
    let (answer, after, cost) = called(ring, master, station, ask);
    if !may_call(ring, master, station, ask) {
        None
    } else {
        match answer {
            Err(e) => Some((Err(e), after, cost)),
            Ok(answer) => if !transfer.takes(answer) {
                Some((Err(refused_with(answer)), after, cost))
            } else if transfer.at >= transfer.bytes.len() || transfer.segment == 0 {
                Some((Ok(()), after, cost))
            } else {
                match writing(
                    after,
                    master.after(cost),
                    station,
                    transfer.advanced(),
                    transfer.next(),
                ) {
                    Some((done, end, more)) => Some((done, end, cost + more)),
                    None => None,
                }
            },
        }
    }
}

/// One call of a write: what comes of it, and how the write goes on.
proof fn lemma_written(
    ring: SegmentView,
    master: MasterView,
    station: u16,
    transfer: DownloadView,
    ask: SdoView,
)
    requires
        writing(ring, master, station, transfer, ask) is Some,
    ensures
        may_call(ring, master, station, ask),
        ({
            let (answer, after, cost) = called(ring, master, station, ask);
            let whole = writing(ring, master, station, transfer, ask);
            match answer {
                Err(e) => whole == Some((Err::<(), Error>(e), after, cost)),
                Ok(answer) => if !transfer.takes(answer) {
                    whole == Some((Err::<(), Error>(refused_with(answer)), after, cost))
                } else if transfer.at >= transfer.bytes.len() || transfer.segment == 0 {
                    whole == Some((Ok::<(), Error>(()), after, cost))
                } else {
                    let next = transfer.next();
                    let rest = writing(
                        after,
                        master.after(cost),
                        station,
                        transfer.advanced(),
                        next,
                    );
                    rest matches Some((done, end, more)) && whole == Some(
                        (done, end, cost + more),
                    )
                },
            }
        }),
{
    reveal(writing);
}

/// What a write of `bytes` to `index:subindex` on `station` gives, what the ring
/// is then, and how many marks it spent; nothing where a call cannot make
/// anything of what comes back.
#[verifier::opaque]
pub open spec fn downloaded(
    ring: SegmentView,
    master: MasterView,
    station: u16,
    index: u16,
    subindex: u8,
    bytes: Seq<u8>,
) -> Option<(Result<(), Error>, SegmentView, nat)> {
    if bytes.len() > u32::MAX {
        Some((Err(Error::ObjectTooLong(bytes.len() as usize)), ring, 0))
    } else {
        let opening = opening_of(coe_window(), bytes);
        writing(
            ring,
            master,
            station,
            DownloadView::opened(coe_window(), index, subindex, bytes),
            SdoView::InitiateDownload { index, subindex, opening },
        )
    }
}

/// True where a write can be made: the ring is clear, or what waits on it does
/// not leave a call without the AL status it reads.
pub open spec fn may_download(
    ring: SegmentView,
    master: MasterView,
    station: u16,
    index: u16,
    subindex: u8,
    bytes: Seq<u8>,
) -> bool {
    ||| clear(ring, master.next_index, station)
    ||| downloaded(ring, master, station, index, subindex, bytes) is Some
}

/// What a write of `bytes` to `index:subindex` on `station` gives on a clear
/// ring, what the ring is then, and how many marks it spent: the one slave at the
/// station holds `bytes` there, if it held something there before.
#[verifier::opaque]
pub open spec fn write_outcome(
    ring: SegmentView,
    next_index: u8,
    station: u16,
    index: u16,
    subindex: u8,
    bytes: Seq<u8>,
) -> (Result<(), Error>, SegmentView, nat) {
    let slaves = ring.slaves;
    let opening = SdoView::InitiateDownload {
        index,
        subindex,
        opening: opening_of(coe_window(), bytes),
    };
    let message = MessageView { counter: call_counter(next_index), sdo: opening };
    let k = the_one(slaves, station);
    if bytes.len() > u32::MAX {
        (Err(Error::ObjectTooLong(bytes.len() as usize)), ring, 0)
    } else if count_at(slaves, station) != 1 {
        (Err(Error::NotOnRing(station)), at_rest(delivered(slaves, station, message.bytes())), 1)
    } else if !slaves[k].objects.contains_key((index, subindex)) {
        (Err(Error::Aborted(ABORT_NO_OBJECT)), at_rest(with_read(slaves, k, slaves[k])), 2)
    } else {
        (
            Ok(()),
            at_rest(with_read(slaves, k, slaves[k].holding(index, subindex, bytes))),
            2 + 2 * segments(bytes.len()),
        )
    }
}

impl SlaveView {
    /// The slave after `bytes` have been written to `index:subindex`. A write in
    /// segments takes the place of one in progress.
    pub open spec fn holding(self, index: u16, subindex: u8, bytes: Seq<u8>) -> SlaveView {
        SlaveView {
            objects: self.objects.insert((index, subindex), bytes),
            download: if bytes.len() <= INITIATE_DATA {
                self.download
            } else {
                None
            },
            ..self
        }
    }

    /// The slave while `index:subindex` is written, `bytes` of it taken, before
    /// the segment with `toggle`.
    spec fn taking(self, index: u16, subindex: u8, bytes: Seq<u8>, toggle: bool) -> SlaveView {
        SlaveView {
            outbox: None,
            download: Some(TransferView { index, subindex, toggle, bytes }),
            ..self
        }
    }
}

/// The opening of a write: the mailbox holds it, and the slave it reaches stores
/// all of the object, or takes the first bytes, or has no such object.
proof fn lemma_opened(slave: SlaveView, index: u16, subindex: u8, bytes: Seq<u8>)
    requires
        bytes.len() <= u32::MAX,
    ensures
        ({
            let opening = opening_of(coe_window(), bytes);
            let ask = SdoView::InitiateDownload { index, subindex, opening };
            let (served, answer) = slave.serve(ask);
            &&& ask.encoded() is Ok
            &&& ask.bytes().len() + 8 <= MAILBOX_SIZE
            &&& if !slave.objects.contains_key((index, subindex)) {
                &&& served == slave
                &&& answer == SdoView::Abort { index, subindex, code: ABORT_NO_OBJECT }
            } else if bytes.len() <= INITIATE_DATA {
                &&& served == slave.holding(index, subindex, bytes)
                &&& answer == SdoView::DownloadAccepted { index, subindex }
            } else {
                &&& SlaveView { outbox: None, ..served } == slave.taking(
                    index,
                    subindex,
                    bytes.take(INITIATE_DATA as int),
                    false,
                )
                &&& answer == SdoView::DownloadAccepted { index, subindex }
            }
        }),
{
    reveal(SdoView::bytes);
    reveal(SlaveView::serve);
    if bytes.len() <= INITIATE_DATA {
        assert(bytes.take(bytes.len() as int) =~= bytes);
    }
}

/// A segment of a write: the mailbox holds it, and the slave it reaches takes it.
proof fn lemma_continued(
    slave: SlaveView,
    index: u16,
    subindex: u8,
    bytes: Seq<u8>,
    from: nat,
    to: nat,
    toggle: bool,
)
    requires
        from < to <= bytes.len(),
        to - from <= SEGMENT_DATA,
        INITIATE_DATA < bytes.len(),
    ensures
        ({
            let data = bytes.subrange(from as int, to as int);
            let ask = SdoView::DownloadSegment { toggle, data, last: to == bytes.len() };
            let (served, answer) = slave.taking(
                index,
                subindex,
                bytes.take(from as int),
                toggle,
            ).serve(ask);
            &&& ask.encoded() is Ok
            &&& ask.bytes().len() + 8 <= MAILBOX_SIZE
            &&& answer == SdoView::SegmentAccepted { toggle }
            &&& to < bytes.len() ==> SlaveView { outbox: None, ..served } == slave.taking(
                index,
                subindex,
                bytes.take(to as int),
                !toggle,
            )
            &&& to == bytes.len() ==> SlaveView { outbox: None, ..served } == SlaveView {
                outbox: None,
                ..slave.holding(index, subindex, bytes)
            }
        }),
{
    reveal(SdoView::bytes);
    reveal(SlaveView::serve);
    assert(bytes.take(from as int) + bytes.subrange(from as int, to as int) =~= bytes.take(
        to as int,
    ));
    assert(bytes.take(bytes.len() as int) =~= bytes);
}

/// A call with a segment of a write, to the one slave at a station.
proof fn lemma_continued_on_ring(
    slaves: Seq<SlaveView>,
    master: MasterView,
    station: u16,
    k: int,
    index: u16,
    subindex: u8,
    bytes: Seq<u8>,
    from: nat,
    to: nat,
    toggle: bool,
)
    requires
        only_at(slaves, station, k),
        from < to <= bytes.len(),
        to - from <= SEGMENT_DATA,
        INITIATE_DATA < bytes.len(),
    ensures
        ({
            let data = bytes.subrange(from as int, to as int);
            let ask = SdoView::DownloadSegment { toggle, data, last: to == bytes.len() };
            let before = slaves[k].taking(index, subindex, bytes.take(from as int), toggle);
            let between = slaves[k].taking(index, subindex, bytes.take(to as int), !toggle);
            called(at_rest(slaves.update(k, before)), master, station, ask) == (
                Ok::<SdoView, Error>(SdoView::SegmentAccepted { toggle }),
                at_rest(
                    if to == bytes.len() {
                        with_read(slaves, k, slaves[k].holding(index, subindex, bytes))
                    } else {
                        slaves.update(k, between)
                    },
                ),
                2nat,
            )
        }),
{
    let data = bytes.subrange(from as int, to as int);
    let ask = SdoView::DownloadSegment { toggle, data, last: to == bytes.len() };
    let before = slaves[k].taking(index, subindex, bytes.take(from as int), toggle);
    let between = slaves[k].taking(index, subindex, bytes.take(to as int), !toggle);
    lemma_still_there(slaves, station, k, before);
    lemma_continued(slaves[k], index, subindex, bytes, from, to, toggle);
    law_call_is_served(at_rest(slaves.update(k, before)), master, station, ask, k);
    let (served, answer) = before.serve(ask);
    let then = with_read(slaves.update(k, before), k, served);
    if to == bytes.len() {
        assert(then =~= with_read(slaves, k, slaves[k].holding(index, subindex, bytes)));
    } else {
        assert(then =~= slaves.update(k, between));
    }
}

/// The segments of a write, to the one slave at a station, from the one that
/// ends at `to` on.
proof fn lemma_writing_goes_on(
    slaves: Seq<SlaveView>,
    master: MasterView,
    station: u16,
    k: int,
    transfer: DownloadView,
    sent: nat,
)
    requires
        only_at(slaves, station, k),
        transfer.toggle is Some,
        transfer.segment == SEGMENT_DATA,
        INITIATE_DATA < transfer.bytes.len(),
        ({
            let from = INITIATE_DATA + SEGMENT_DATA * sent;
            &&& from < transfer.at <= transfer.bytes.len()
            &&& transfer.at == least(transfer.bytes.len(), (from + SEGMENT_DATA) as nat)
        }),
    ensures
        ({
            let from = (INITIATE_DATA + SEGMENT_DATA * sent) as int;
            let bytes = transfer.bytes;
            let toggle = transfer.toggle.unwrap();
            let before = slaves[k].taking(
                transfer.index,
                transfer.subindex,
                bytes.take(from),
                toggle,
            );
            let ask = SdoView::DownloadSegment {
                toggle,
                data: bytes.subrange(from, transfer.at as int),
                last: transfer.at == bytes.len(),
            };
            let then = slaves[k].holding(transfer.index, transfer.subindex, bytes);
            writing(at_rest(slaves.update(k, before)), master, station, transfer, ask) == Some(
                (
                    Ok::<(), Error>(()),
                    at_rest(with_read(slaves, k, then)),
                    (2 * (segments(bytes.len()) - sent)) as nat,
                ),
            )
        }),
    decreases transfer.bytes.len() - transfer.at,
{
    reveal(writing);
    let from = (INITIATE_DATA + SEGMENT_DATA * sent) as nat;
    let bytes = transfer.bytes;
    let toggle = transfer.toggle.unwrap();
    let index = transfer.index;
    let subindex = transfer.subindex;
    let to = transfer.at;
    lemma_continued_on_ring(
        slaves,
        master,
        station,
        k,
        index,
        subindex,
        bytes,
        from,
        to,
        toggle,
    );
    lemma_segments(bytes.len(), sent);
    if to < bytes.len() {
        let next = transfer.advanced();
        assert(to == INITIATE_DATA + SEGMENT_DATA * (sent + 1));
        lemma_writing_goes_on(slaves, master.after(2), station, k, next, sent + 1);
    }
}

/// On a clear ring a write gives what [`write_outcome`] says.
pub proof fn law_write_on_a_clear_ring(
    ring: SegmentView,
    master: MasterView,
    station: u16,
    index: u16,
    subindex: u8,
    bytes: Seq<u8>,
)
    requires
        clear(ring, master.next_index, station),
    ensures
        downloaded(ring, master, station, index, subindex, bytes) == Some(
            write_outcome(ring, master.next_index, station, index, subindex, bytes),
        ),
{
    reveal(downloaded);
    reveal(writing);
    reveal(write_outcome);
    if bytes.len() <= u32::MAX {
        let slaves = ring.slaves;
        let k = the_one(slaves, station);
        let opening = opening_of(coe_window(), bytes);
        let ask = SdoView::InitiateDownload { index, subindex, opening };
        let transfer = DownloadView::opened(coe_window(), index, subindex, bytes);
        lemma_count_at(slaves, station);
        lemma_opened(slaves[k], index, subindex, bytes);
        if count_at(slaves, station) != 1 {
            law_call_finds_nobody(ring, master, station, ask);
        } else {
            law_call_is_served(ring, master, station, ask, k);
            if slaves[k].objects.contains_key((index, subindex)) && bytes.len() > INITIATE_DATA {
                lemma_writing_goes_on(
                    slaves,
                    master.after(2),
                    station,
                    k,
                    transfer.advanced(),
                    0,
                );
            }
        }
    }
}

impl EtherCatTransport {
    /// Write `bytes` to `index:subindex` on `station`. Refused are more bytes
    /// than an SDO's size says, a station that is not there, and an object that
    /// is not.
    pub fn download(
        &self,
        marks: &mut Marks,
        ring: &mut Segment,
        station: u16,
        index: u16,
        subindex: u8,
        bytes: &[u8],
    ) -> (r: Result<(), Error>)
        requires
            may_download(old(ring)@, self.with(*old(marks)), station, index, subindex, bytes@),
        ensures
            downloaded(
                old(ring)@,
                self.with(*old(marks)),
                station,
                index,
                subindex,
                bytes@,
            ) matches Some((done, after, cost)) && {
                &&& r == done
                &&& final(ring)@ == after
                &&& self.with(*final(marks)) == self.with(*old(marks)).after(cost)
            },
            clear(old(ring)@, old(marks)@, station) ==> downloaded(
                old(ring)@,
                self.with(*old(marks)),
                station,
                index,
                subindex,
                bytes@,
            ) == Some(
                write_outcome(
                    old(ring)@,
                    old(marks)@,
                    station,
                    index,
                    subindex,
                    bytes@,
                ),
            ),
            final(ring)@.slaves.len() == old(ring)@.slaves.len(),
            old(ring)@.quiet() ==> final(ring)@.quiet(),
    {
        let ghost before = ring@;
        let ghost master = self.with(*marks);
        proof {
            if clear(before, master.next_index, station) {
                law_write_on_a_clear_ring(before, master, station, index, subindex, bytes@);
            }
            law_write_keeps_the_ring(before, master, station, index, subindex, bytes@);
            reveal(downloaded);
        }
        let window = coe();
        match Download::open(&window, index, subindex, bytes) {
            Ok((transfer, ask)) => self.write_on(marks, ring, station, transfer, ask),
            Err(e) => Err(e),
        }
    }

    /// Go on with a write until it is done.
    fn write_on(
        &self,
        marks: &mut Marks,
        ring: &mut Segment,
        station: u16,
        transfer: Download,
        ask: Sdo,
    ) -> (r: Result<(), Error>)
        requires
            transfer@.wf(),
            writing(old(ring)@, self.with(*old(marks)), station, transfer@, ask@) is Some,
        ensures
            writing(old(ring)@, self.with(*old(marks)), station, transfer@, ask@) matches Some(
                (done, after, cost),
            ) && {
                &&& r == done
                &&& final(ring)@ == after
                &&& self.with(*final(marks)) == self.with(*old(marks)).after(cost)
            },
    {
        let ghost master = self.with(*marks);
        let ghost whole = writing(ring@, master, station, transfer@, ask@);
        let mut going = transfer;
        let mut next_ask = ask;
        let ghost mut spent: nat = 0;
        loop
            invariant
                self.with(*marks) == master.after(spent),
                going@.wf(),
                writing(ring@, self.with(*marks), station, going@, next_ask@) matches Some(
                    (done, end, more),
                ) && whole == Some((done, end, spent + more)),
                master == self.with(*old(marks)),
                whole == writing(old(ring)@, master, station, transfer@, ask@),
            decreases going@.bytes.len() - going@.at,
        {
            let ghost cost = called(ring@, self.with(*marks), station, next_ask@).2;
            proof {
                lemma_written(ring@, self.with(*marks), station, going@, next_ask@);
                lemma_after(master, spent, cost);
            }
            let answer = match self.call(marks, ring, station, &next_ask) {
                Ok(answer) => answer,
                Err(e) => {
                    return Err(e);
                },
            };
            match going.answered(&answer) {
                Ok(Some(next)) => {
                    next_ask = next;
                },
                Ok(None) => {
                    return Ok(());
                },
                Err(e) => {
                    return Err(e);
                },
            }
            proof {
                spent = spent + cost;
            }
        }
    }
}

/// How a read goes on with `ask`: what it gives, what the ring is then, and how
/// many marks it spent; nothing where it takes more than `calls` calls, or where
/// a call cannot make anything of what comes back.
#[verifier::opaque]
pub open spec fn reading(
    ring: SegmentView,
    master: MasterView,
    station: u16,
    transfer: UploadView,
    ask: SdoView,
    calls: nat,
) -> Option<(Result<Seq<u8>, Error>, SegmentView, nat)>
    decreases calls,
{
    let (answer, after, cost) = called(ring, master, station, ask);
    if calls == 0 || !may_call(ring, master, station, ask) {
        None
    } else {
        match answer {
            Err(e) => Some((Err(e), after, cost)),
            Ok(answer) => match transfer.takes(answer) {
                None => Some((Err(refused_with(answer)), after, cost)),
                Some((bytes, true)) => Some((Ok(bytes), after, cost)),
                Some((bytes, false)) => {
                    let toggle = next_toggle(transfer.toggle);
                    match reading(
                        after,
                        master.after(cost),
                        station,
                        UploadView { bytes, toggle: Some(toggle), ..transfer },
                        SdoView::UploadSegment { toggle },
                        (calls - 1) as nat,
                    ) {
                        Some((read, end, more)) => Some((read, end, cost + more)),
                        None => None,
                    }
                },
            },
        }
    }
}

/// One call of a read: what comes of it, and how the read goes on.
proof fn lemma_read(
    ring: SegmentView,
    master: MasterView,
    station: u16,
    transfer: UploadView,
    ask: SdoView,
    calls: nat,
)
    requires
        reading(ring, master, station, transfer, ask, calls) is Some,
    ensures
        calls > 0,
        may_call(ring, master, station, ask),
        ({
            let (answer, after, cost) = called(ring, master, station, ask);
            let whole = reading(ring, master, station, transfer, ask, calls);
            match answer {
                Err(e) => whole == Some((Err::<Seq<u8>, Error>(e), after, cost)),
                Ok(answer) => match transfer.takes(answer) {
                    None => whole == Some(
                        (Err::<Seq<u8>, Error>(refused_with(answer)), after, cost),
                    ),
                    Some((bytes, true)) => whole == Some(
                        (Ok::<Seq<u8>, Error>(bytes), after, cost),
                    ),
                    Some((bytes, false)) => {
                        let toggle = next_toggle(transfer.toggle);
                        let rest = reading(
                            after,
                            master.after(cost),
                            station,
                            UploadView { bytes, toggle: Some(toggle), ..transfer },
                            SdoView::UploadSegment { toggle },
                            (calls - 1) as nat,
                        );
                        rest matches Some((read, end, more)) && whole == Some(
                            (read, end, cost + more),
                        )
                    },
                },
            }
        }),
{
    reveal(reading);
}

/// What a read of `index:subindex` from `station` gives, what the ring is then,
/// and how many marks it spent; nothing where it does not end, or where a call
/// cannot make anything of what comes back.
#[verifier::opaque]
pub open spec fn uploaded(
    ring: SegmentView,
    master: MasterView,
    station: u16,
    index: u16,
    subindex: u8,
) -> Option<(Result<Seq<u8>, Error>, SegmentView, nat)> {
    let transfer = UploadView::opened(index, subindex);
    let ask = SdoView::InitiateUpload { index, subindex };
    let calls = choose|calls: nat| reading(ring, master, station, transfer, ask, calls) is Some;
    reading(ring, master, station, transfer, ask, calls)
}

/// True where a read can be made: the ring is clear, or what waits on it neither
/// keeps the read from ending nor leaves a call without the AL status it reads.
pub open spec fn may_upload(
    ring: SegmentView,
    master: MasterView,
    station: u16,
    index: u16,
    subindex: u8,
) -> bool {
    ||| clear(ring, master.next_index, station)
    ||| uploaded(ring, master, station, index, subindex) is Some
}

/// What a read of `index:subindex` from `station` gives on a clear ring, what the
/// ring is then, and how many marks it spent: what the one slave at the station
/// holds there.
#[verifier::opaque]
pub open spec fn read_outcome(
    ring: SegmentView,
    next_index: u8,
    station: u16,
    index: u16,
    subindex: u8,
) -> (Result<Seq<u8>, Error>, SegmentView, nat) {
    let slaves = ring.slaves;
    let opening = SdoView::InitiateUpload { index, subindex };
    let message = MessageView { counter: call_counter(next_index), sdo: opening };
    let k = the_one(slaves, station);
    if count_at(slaves, station) != 1 {
        (Err(Error::NotOnRing(station)), at_rest(delivered(slaves, station, message.bytes())), 1)
    } else if !slaves[k].objects.contains_key((index, subindex)) {
        (Err(Error::Aborted(ABORT_NO_OBJECT)), at_rest(with_read(slaves, k, slaves[k])), 2)
    } else {
        let bytes = slaves[k].objects[(index, subindex)];
        (
            Ok(bytes),
            at_rest(with_read(slaves, k, slaves[k].having_given(bytes))),
            2 + 2 * segments(bytes.len()),
        )
    }
}

impl SlaveView {
    /// The slave after an object of `bytes` has been read. A read in segments
    /// takes the place of one in progress.
    pub open spec fn having_given(self, bytes: Seq<u8>) -> SlaveView {
        SlaveView {
            upload: if bytes.len() <= INITIATE_DATA {
                self.upload
            } else {
                None
            },
            ..self
        }
    }

    /// The slave while `bytes` are read from `index:subindex`, `at` of them
    /// given, before the segment with `toggle`.
    spec fn giving(
        self,
        index: u16,
        subindex: u8,
        bytes: Seq<u8>,
        at: nat,
        toggle: bool,
    ) -> SlaveView {
        SlaveView {
            outbox: None,
            upload: Some(TransferView { index, subindex, toggle, bytes: bytes.skip(at as int) }),
            ..self
        }
    }
}

/// The opening of a read: the mailbox holds it, and the slave it reaches gives
/// all of the object, or its first bytes, or has no such object.
proof fn lemma_asked(slave: SlaveView, index: u16, subindex: u8)
    ensures
        ({
            let ask = SdoView::InitiateUpload { index, subindex };
            let bytes = slave.objects[(index, subindex)];
            let (served, answer) = slave.serve(ask);
            &&& ask.encoded() is Ok
            &&& ask.bytes().len() + 8 <= MAILBOX_SIZE
            &&& if !slave.objects.contains_key((index, subindex)) {
                &&& served == slave
                &&& answer == SdoView::Abort { index, subindex, code: ABORT_NO_OBJECT }
            } else {
                &&& answer matches SdoView::UploadOpened {
                    index: i,
                    subindex: s,
                    opening: OpeningView::Sized { size, data },
                }
                &&& i == index && s == subindex
                &&& if bytes.len() <= INITIATE_DATA {
                    &&& served == slave.having_given(bytes)
                    &&& size == bytes.len()
                    &&& data == bytes
                } else {
                    &&& SlaveView { outbox: None, ..served } == slave.giving(
                        index,
                        subindex,
                        bytes,
                        INITIATE_DATA as nat,
                        false,
                    )
                    &&& size > INITIATE_DATA
                    &&& data == bytes.take(INITIATE_DATA as int)
                }
            }
        }),
{
    reveal(SdoView::bytes);
    reveal(SlaveView::serve);
}

/// Where a segment of a read of `n` bytes ends, with `at` of them given.
spec fn given_to(n: nat, at: nat) -> nat {
    if n <= at + SEGMENT_DATA {
        n
    } else {
        at + SEGMENT_DATA as nat
    }
}

/// A call for a segment of a read, to the one slave at a station.
proof fn lemma_asked_on(
    slaves: Seq<SlaveView>,
    master: MasterView,
    station: u16,
    k: int,
    index: u16,
    subindex: u8,
    bytes: Seq<u8>,
    at: nat,
    toggle: bool,
)
    requires
        only_at(slaves, station, k),
        at < bytes.len(),
        INITIATE_DATA < bytes.len(),
    ensures
        ({
            let to = given_to(bytes.len(), at);
            let data = bytes.subrange(at as int, to as int);
            let ask = SdoView::UploadSegment { toggle };
            let before = slaves[k].giving(index, subindex, bytes, at, toggle);
            let between = slaves[k].giving(index, subindex, bytes, to, !toggle);
            called(at_rest(slaves.update(k, before)), master, station, ask) == (
                Ok::<SdoView, Error>(
                    SdoView::UploadData { toggle, data, last: to == bytes.len() },
                ),
                at_rest(
                    if to == bytes.len() {
                        with_read(slaves, k, slaves[k].having_given(bytes))
                    } else {
                        slaves.update(k, between)
                    },
                ),
                2nat,
            )
        }),
{
    let to = given_to(bytes.len(), at);
    let ask = SdoView::UploadSegment { toggle };
    let before = slaves[k].giving(index, subindex, bytes, at, toggle);
    let between = slaves[k].giving(index, subindex, bytes, to, !toggle);
    reveal(SdoView::bytes);
    reveal(SlaveView::serve);
    lemma_still_there(slaves, station, k, before);
    law_call_is_served(at_rest(slaves.update(k, before)), master, station, ask, k);
    let (served, answer) = before.serve(ask);
    let left = bytes.skip(at as int);
    if to < bytes.len() {
        assert(left.take(SEGMENT_DATA as int) =~= bytes.subrange(at as int, to as int));
        assert(left.skip(SEGMENT_DATA as int) =~= bytes.skip(to as int));
    } else {
        assert(left =~= bytes.subrange(at as int, to as int));
    }
    let then = with_read(slaves.update(k, before), k, served);
    if to == bytes.len() {
        assert(then =~= with_read(slaves, k, slaves[k].having_given(bytes)));
    } else {
        assert(then =~= slaves.update(k, between));
    }
}

/// The segments of a read, from the one slave at a station, after the first
/// `sent` of them.
proof fn lemma_reading_goes_on(
    slaves: Seq<SlaveView>,
    master: MasterView,
    station: u16,
    k: int,
    transfer: UploadView,
    bytes: Seq<u8>,
    sent: nat,
)
    requires
        only_at(slaves, station, k),
        transfer.toggle is Some,
        INITIATE_DATA + SEGMENT_DATA * sent < bytes.len(),
        transfer.bytes == bytes.take((INITIATE_DATA + SEGMENT_DATA * sent) as int),
    ensures
        ({
            let at = (INITIATE_DATA + SEGMENT_DATA * sent) as nat;
            let toggle = transfer.toggle.unwrap();
            let before = slaves[k].giving(transfer.index, transfer.subindex, bytes, at, toggle);
            reading(
                at_rest(slaves.update(k, before)),
                master,
                station,
                transfer,
                SdoView::UploadSegment { toggle },
                (segments(bytes.len()) - sent) as nat,
            ) == Some(
                (
                    Ok::<Seq<u8>, Error>(bytes),
                    at_rest(with_read(slaves, k, slaves[k].having_given(bytes))),
                    (2 * (segments(bytes.len()) - sent)) as nat,
                ),
            )
        }),
    decreases bytes.len() - SEGMENT_DATA * sent,
{
    reveal(reading);
    let at = (INITIATE_DATA + SEGMENT_DATA * sent) as nat;
    let to = given_to(bytes.len(), at);
    let toggle = transfer.toggle.unwrap();
    let data = bytes.subrange(at as int, to as int);
    lemma_segments(bytes.len(), sent);
    assert(SEGMENT_DATA * sent >= 0) by (nonlinear_arith);
    lemma_asked_on(
        slaves,
        master,
        station,
        k,
        transfer.index,
        transfer.subindex,
        bytes,
        at,
        toggle,
    );
    assert(bytes.take(at as int) + data =~= bytes.take(to as int));
    assert(bytes.take(bytes.len() as int) =~= bytes);
    if to < bytes.len() {
        lemma_segments(bytes.len(), sent + 1);
        let next = UploadView {
            bytes: bytes.take(to as int),
            toggle: Some(!toggle),
            ..transfer
        };
        lemma_reading_goes_on(slaves, master.after(2), station, k, next, bytes, sent + 1);
    }
}

/// A read that ends gives the same however many calls it is let make.
proof fn lemma_reading_is_one(
    ring: SegmentView,
    master: MasterView,
    station: u16,
    transfer: UploadView,
    ask: SdoView,
    a: nat,
    b: nat,
)
    requires
        reading(ring, master, station, transfer, ask, a) is Some,
        reading(ring, master, station, transfer, ask, b) is Some,
    ensures
        reading(ring, master, station, transfer, ask, a) == reading(
            ring,
            master,
            station,
            transfer,
            ask,
            b,
        ),
    decreases a,
{
    reveal(reading);
    let (answer, after, cost) = called(ring, master, station, ask);
    match answer {
        Ok(answer) => match transfer.takes(answer) {
            Some((bytes, false)) => {
                let toggle = next_toggle(transfer.toggle);
                lemma_reading_is_one(
                    after,
                    master.after(cost),
                    station,
                    UploadView { bytes, toggle: Some(toggle), ..transfer },
                    SdoView::UploadSegment { toggle },
                    (a - 1) as nat,
                    (b - 1) as nat,
                );
            },
            _ => {},
        },
        Err(_) => {},
    }
}

/// On a clear ring a read gives what [`read_outcome`] says.
pub proof fn law_read_on_a_clear_ring(
    ring: SegmentView,
    master: MasterView,
    station: u16,
    index: u16,
    subindex: u8,
)
    requires
        clear(ring, master.next_index, station),
    ensures
        uploaded(ring, master, station, index, subindex) == Some(
            read_outcome(ring, master.next_index, station, index, subindex),
        ),
{
    reveal(reading);
    reveal(read_outcome);
    let slaves = ring.slaves;
    let k = the_one(slaves, station);
    let ask = SdoView::InitiateUpload { index, subindex };
    let transfer = UploadView::opened(index, subindex);
    let bytes = slaves[k].objects[(index, subindex)];
    let outcome = read_outcome(ring, master.next_index, station, index, subindex);
    let calls = 1 + segments(bytes.len());
    lemma_count_at(slaves, station);
    lemma_asked(slaves[k], index, subindex);
    if count_at(slaves, station) != 1 {
        law_call_finds_nobody(ring, master, station, ask);
    } else {
        law_call_is_served(ring, master, station, ask, k);
        if slaves[k].objects.contains_key((index, subindex)) {
            if bytes.len() > INITIATE_DATA {
                let first = bytes.take(INITIATE_DATA as int);
                let next = UploadView { bytes: first, toggle: Some(false), ..transfer };
                lemma_reading_goes_on(slaves, master.after(2), station, k, next, bytes, 0);
            } else {
                assert(bytes.take(bytes.len() as int) =~= bytes);
            }
        }
    }
    assert(reading(ring, master, station, transfer, ask, calls) == Some(outcome));
    lemma_uploaded(ring, master, station, index, subindex, calls);
}

/// A read that ends is what is uploaded.
pub(crate) proof fn lemma_uploaded(
    ring: SegmentView,
    master: MasterView,
    station: u16,
    index: u16,
    subindex: u8,
    calls: nat,
)
    requires
        reading(
            ring,
            master,
            station,
            UploadView::opened(index, subindex),
            SdoView::InitiateUpload { index, subindex },
            calls,
        ) is Some,
    ensures
        uploaded(ring, master, station, index, subindex) == reading(
            ring,
            master,
            station,
            UploadView::opened(index, subindex),
            SdoView::InitiateUpload { index, subindex },
            calls,
        ),
{
    reveal(uploaded);
    let transfer = UploadView::opened(index, subindex);
    let ask = SdoView::InitiateUpload { index, subindex };
    let chosen = choose|calls: nat| reading(ring, master, station, transfer, ask, calls) is Some;
    lemma_reading_is_one(ring, master, station, transfer, ask, chosen, calls);
}

impl EtherCatTransport {
    /// Read `index:subindex` from `station`. Refused are a station that is not
    /// there, and an object that is not.
    pub fn upload(
        &self,
        marks: &mut Marks,
        ring: &mut Segment,
        station: u16,
        index: u16,
        subindex: u8,
    ) -> (r: Result<Vec<u8>, Error>)
        requires
            may_upload(old(ring)@, self.with(*old(marks)), station, index, subindex),
        ensures
            uploaded(old(ring)@, self.with(*old(marks)), station, index, subindex) matches Some(
                (bytes, after, cost),
            ) && {
                &&& bytes_of(r) == bytes
                &&& final(ring)@ == after
                &&& self.with(*final(marks)) == self.with(*old(marks)).after(cost)
            },
            clear(old(ring)@, old(marks)@, station) ==> uploaded(
                old(ring)@,
                self.with(*old(marks)),
                station,
                index,
                subindex,
            ) == Some(
                read_outcome(old(ring)@, old(marks)@, station, index, subindex),
            ),
            final(ring)@.slaves.len() == old(ring)@.slaves.len(),
            old(ring)@.quiet() ==> final(ring)@.quiet(),
    {
        let ghost before = ring@;
        let ghost master = self.with(*marks);
        let (transfer, ask) = Upload::open(index, subindex);
        let ghost calls: nat = choose|calls: nat|
            reading(before, master, station, transfer@, ask@, calls) is Some;
        proof {
            if clear(before, master.next_index, station) {
                law_read_on_a_clear_ring(before, master, station, index, subindex);
            }
            law_read_keeps_the_ring(before, master, station, index, subindex);
            reveal(uploaded);
        }
        self.read_on(marks, ring, station, transfer, ask, Ghost(calls))
    }

    /// Go on with a read until it is done.
    fn read_on(
        &self,
        marks: &mut Marks,
        ring: &mut Segment,
        station: u16,
        transfer: Upload,
        ask: Sdo,
        Ghost(calls): Ghost<nat>,
    ) -> (r: Result<Vec<u8>, Error>)
        requires
            reading(old(ring)@, self.with(*old(marks)), station, transfer@, ask@, calls) is Some,
        ensures
            reading(
                old(ring)@,
                self.with(*old(marks)),
                station,
                transfer@,
                ask@,
                calls,
            ) matches Some((bytes, after, cost)) && {
                &&& bytes_of(r) == bytes
                &&& final(ring)@ == after
                &&& self.with(*final(marks)) == self.with(*old(marks)).after(cost)
            },
    {
        let ghost master = self.with(*marks);
        let ghost whole = reading(ring@, master, station, transfer@, ask@, calls);
        let mut going = transfer;
        let mut next_ask = ask;
        let ghost mut left: nat = calls;
        let ghost mut spent: nat = 0;
        loop
            invariant
                self.with(*marks) == master.after(spent),
                reading(ring@, self.with(*marks), station, going@, next_ask@, left) matches Some(
                    (read, end, more),
                ) && whole == Some((read, end, spent + more)),
                master == self.with(*old(marks)),
                whole == reading(old(ring)@, master, station, transfer@, ask@, calls),
            decreases left,
        {
            let ghost cost = called(ring@, self.with(*marks), station, next_ask@).2;
            proof {
                lemma_read(ring@, self.with(*marks), station, going@, next_ask@, left);
                lemma_after(master, spent, cost);
            }
            let answer = match self.call(marks, ring, station, &next_ask) {
                Ok(answer) => answer,
                Err(e) => {
                    return Err(e);
                },
            };
            match going.answered(answer) {
                Ok(Some(next)) => {
                    next_ask = next;
                },
                Ok(None) => {
                    return Ok(going.into_bytes());
                },
                Err(e) => {
                    return Err(e);
                },
            }
            proof {
                spent = spent + cost;
                left = (left - 1) as nat;
            }
        }
    }
}

/// A write leaves as many slaves as there were, each at its station, and nothing
/// waiting for the master where nothing waited.
pub proof fn law_write_keeps_the_ring(
    ring: SegmentView,
    master: MasterView,
    station: u16,
    index: u16,
    subindex: u8,
    bytes: Seq<u8>,
)
    ensures
        downloaded(ring, master, station, index, subindex, bytes) matches Some((_, after, _))
            ==> kept(ring, after),
{
    reveal(downloaded);
    if bytes.len() <= u32::MAX {
        let opening = opening_of(coe_window(), bytes);
        lemma_writing_keeps(
            ring,
            master,
            station,
            DownloadView::opened(coe_window(), index, subindex, bytes),
            SdoView::InitiateDownload { index, subindex, opening },
        );
    }
}

/// A read leaves as many slaves as there were, each at its station, and nothing
/// waiting for the master where nothing waited.
pub proof fn law_read_keeps_the_ring(
    ring: SegmentView,
    master: MasterView,
    station: u16,
    index: u16,
    subindex: u8,
)
    ensures
        uploaded(ring, master, station, index, subindex) matches Some((_, after, _)) ==> kept(
            ring,
            after,
        ),
{
    reveal(uploaded);
    let transfer = UploadView::opened(index, subindex);
    let ask = SdoView::InitiateUpload { index, subindex };
    let calls = choose|calls: nat| reading(ring, master, station, transfer, ask, calls) is Some;
    lemma_reading_keeps(ring, master, station, transfer, ask, calls);
}

/// A write keeps what each of its calls keeps.
proof fn lemma_writing_keeps(
    ring: SegmentView,
    master: MasterView,
    station: u16,
    transfer: DownloadView,
    ask: SdoView,
)
    ensures
        writing(ring, master, station, transfer, ask) matches Some((_, after, _)) ==> kept(
            ring,
            after,
        ),
    decreases transfer.bytes.len() - transfer.at,
{
    reveal(writing);
    let (answer, after, cost) = called(ring, master, station, ask);
    law_call_keeps_the_ring(ring, master, station, ask);
    if transfer.at < transfer.bytes.len() && transfer.segment > 0 {
        let then = master.after(cost);
        lemma_writing_keeps(after, then, station, transfer.advanced(), transfer.next());
        let rest = writing(after, then, station, transfer.advanced(), transfer.next());
        if let Some((_, end, _)) = rest {
            lemma_kept(ring, after, end);
        }
    }
}

/// A read keeps what each of its calls keeps.
proof fn lemma_reading_keeps(
    ring: SegmentView,
    master: MasterView,
    station: u16,
    transfer: UploadView,
    ask: SdoView,
    calls: nat,
)
    ensures
        reading(ring, master, station, transfer, ask, calls) matches Some((_, after, _)) ==> kept(
            ring,
            after,
        ),
    decreases calls,
{
    reveal(reading);
    let (answer, after, cost) = called(ring, master, station, ask);
    law_call_keeps_the_ring(ring, master, station, ask);
    if calls > 0 && answer is Ok {
        if let Some((bytes, false)) = transfer.takes(answer.unwrap()) {
            let toggle = next_toggle(transfer.toggle);
            let then = master.after(cost);
            let on = UploadView { bytes, toggle: Some(toggle), ..transfer };
            let next = SdoView::UploadSegment { toggle };
            let left = (calls - 1) as nat;
            lemma_reading_keeps(after, then, station, on, next, left);
            if let Some((_, end, _)) = reading(after, then, station, on, next, left) {
                lemma_kept(ring, after, end);
            }
        }
    }
}

/// On a clear ring a write that succeeds leaves the bytes where a read finds
/// them, whichever master reads.
pub proof fn law_read_gives_back_what_was_written(
    ring: SegmentView,
    master: MasterView,
    station: u16,
    index: u16,
    subindex: u8,
    bytes: Seq<u8>,
    reader: MasterView,
)
    requires
        clear(ring, master.next_index, station),
    ensures
        downloaded(ring, master, station, index, subindex, bytes) matches Some(
            (Ok(_), between, _),
        ) ==> uploaded(between, reader, station, index, subindex) matches Some((read, _, _))
            && read == Ok::<Seq<u8>, Error>(bytes),
{
    let (done, between, _) = write_outcome(
        ring,
        master.next_index,
        station,
        index,
        subindex,
        bytes,
    );
    law_write_on_a_clear_ring(ring, master, station, index, subindex, bytes);
    if done is Ok {
        reveal(write_outcome);
        reveal(read_outcome);
        let k = the_one(ring.slaves, station);
        lemma_count_at(ring.slaves, station);
        assert(only_at(ring.slaves, station, k));
        let then = SlaveView { outbox: None, ..ring.slaves[k].holding(index, subindex, bytes) };
        lemma_still_there(ring.slaves, station, k, then);
        lemma_the_one(between.slaves, station, k);
        law_read_on_a_clear_ring(between, reader, station, index, subindex);
    }
}

/// On a clear ring a write that succeeds changes one object of one slave: every
/// other object of that slave, and every other slave, is as it was. Nothing waits
/// for the master then.
pub proof fn law_write_changes_one_object(
    ring: SegmentView,
    master: MasterView,
    station: u16,
    index: u16,
    subindex: u8,
    bytes: Seq<u8>,
)
    requires
        clear(ring, master.next_index, station),
    ensures
        downloaded(ring, master, station, index, subindex, bytes) matches Some(
            (Ok(_), after, _),
        ) ==> {
            let k = the_one(ring.slaves, station);
            &&& only_at(ring.slaves, station, k)
            &&& after == at_rest(after.slaves)
            &&& after.slaves.len() == ring.slaves.len()
            &&& after.slaves[k].objects == ring.slaves[k].objects.insert((index, subindex), bytes)
            &&& after.slaves[k].objects.dom() == ring.slaves[k].objects.dom()
            &&& forall|i: int|
                0 <= i < ring.slaves.len() && i != k ==> #[trigger] after.slaves[i]
                    == ring.slaves[i]
        },
{
    reveal(write_outcome);
    law_write_on_a_clear_ring(ring, master, station, index, subindex, bytes);
    let (done, after, _) = write_outcome(
        ring,
        master.next_index,
        station,
        index,
        subindex,
        bytes,
    );
    let k = the_one(ring.slaves, station);
    if done is Ok {
        lemma_count_at(ring.slaves, station);
        assert(only_at(ring.slaves, station, k));
        assert(after.slaves[k].objects.dom() =~= ring.slaves[k].objects.dom());
    }
}

/// On a clear ring a write that a slave aborts, and any read from a station with
/// one slave, leaves every object of every slave as it was.
pub proof fn law_objects_stay(
    ring: SegmentView,
    master: MasterView,
    station: u16,
    index: u16,
    subindex: u8,
    bytes: Seq<u8>,
    i: int,
)
    requires
        clear(ring, master.next_index, station),
        0 <= i < ring.slaves.len(),
    ensures
        downloaded(ring, master, station, index, subindex, bytes) matches Some(
            (Err(Error::Aborted(_)), after, _),
        ) ==> after.slaves[i].objects == ring.slaves[i].objects,
        count_at(ring.slaves, station) == 1 ==> (uploaded(
            ring,
            master,
            station,
            index,
            subindex,
        ) matches Some((_, after, _)) && after.slaves[i].objects == ring.slaves[i].objects),
{
    reveal(write_outcome);
    reveal(read_outcome);
    law_write_on_a_clear_ring(ring, master, station, index, subindex, bytes);
    law_read_on_a_clear_ring(ring, master, station, index, subindex);
    lemma_count_at(ring.slaves, station);
    let k = the_one(ring.slaves, station);
    if count_at(ring.slaves, station) == 1 {
        assert(only_at(ring.slaves, station, k));
    }
}

/// All that a write of any length asks, the mailbox holds: what it opens with,
/// and every segment.
pub proof fn law_what_a_write_asks_fits_the_mailbox(
    index: u16,
    subindex: u8,
    bytes: Seq<u8>,
    transfer: DownloadView,
    counter: u8,
)
    requires
        bytes.len() <= u32::MAX,
        transfer.wf(),
        transfer.at < transfer.bytes.len(),
        transfer.segment == SEGMENT_DATA,
    ensures
        ({
            let opening = opening_of(coe_window(), bytes);
            let open = SdoView::InitiateDownload { index, subindex, opening };
            &&& (MessageView { counter, sdo: open }).bytes().len() <= MAILBOX_SIZE
            &&& (MessageView { counter, sdo: transfer.next() }).bytes().len() <= MAILBOX_SIZE
        }),
{
    reveal(SdoView::bytes);
}

} // verus!
