//! Objects written and read over the ring, and the Streams they carry.

use vstd::prelude::*;

use crate::call::{called, may_call};
use crate::client::{Download, Upload};
use crate::laws::masters::{
    is_the_one, lemma_nobody, lemma_the_only_one, lemma_unanswered, nothing_answers,
};
use crate::laws::names::{few_written, four_written, lemma_few_written, lemma_four_written};
use crate::mailbox::coe;
use crate::sdo::{Sdo, SdoView, Window};
use crate::segment::{delivered, Segment, SegmentView};
use crate::stream::there_and_back;
use crate::target::resolve;
use crate::transfer::{
    downloaded, law_read_on_a_clear_ring, law_write_on_a_clear_ring, lemma_uploaded, read_outcome,
    reading, segments, uploaded, write_outcome, writing,
};
use crate::transport::{EtherCatTransport, Marks, MasterView};
use crate::{Arrived, Error};

verus! {

/// True where an object of `length` bytes travels in an opening and `n` segments.
pub open spec fn travels_in(length: nat, n: nat) -> bool {
    &&& length <= 240 + 247 * n
    &&& n > 0 ==> length > 240 + 247 * (n - 1)
}

/// How many segments an object travels in.
proof fn lemma_travels(length: nat, n: nat)
    requires
        travels_in(length, n),
    ensures
        segments(length) == n,
{
    if n > 0 {
        let q = length - 240 + 246;
        assert(q / 247 == n) by (nonlinear_arith)
            requires
                247 * n <= q < 247 * n + 247,
        ;
    }
}

/// Where nothing that waits answers in its place, a write to the one slave at a
/// station, of an object it holds, is held there from then on; no other object and
/// no other slave changes. It spends two marks for the opening and two for each
/// segment.
pub proof fn law_what_is_written_is_held(
    master: &EtherCatTransport,
    marks: &mut Marks,
    ring: &mut Segment,
    station: u16,
    index: u16,
    subindex: u8,
    bytes: &[u8],
    r: Result<(), Error>,
    k: int,
    n: nat,
)
    requires
        call_ensures(
            EtherCatTransport::download,
            (master, marks, ring, station, index, subindex, bytes),
            r,
        ),
        nothing_answers(old(ring)@, old(marks)@),
        is_the_one(old(ring)@.slaves, station, k),
        old(ring)@.slaves[k].objects.contains_key((index, subindex)),
        bytes@.len() <= u32::MAX,
        travels_in(bytes@.len(), n),
    ensures
        ({
            let before = old(ring)@.slaves;
            let after = final(ring)@.slaves;
            &&& r == Ok::<(), Error>(())
            &&& after.len() == before.len()
            &&& after[k].station == station
            &&& after[k].objects.contains_key((index, subindex))
            &&& after[k].objects[(index, subindex)] == bytes@
            &&& forall|other: (u16, u8)|
                other != (index, subindex) ==> {
                    &&& after[k].objects.contains_key(other)
                        <==> before[k].objects.contains_key(other)
                    &&& #[trigger] after[k].objects[other] == before[k].objects[other]
                }
            &&& after[k].outbox is None
            &&& after[k].upload == before[k].upload
            &&& n == 0 ==> after[k].download == before[k].download
            &&& n > 0 ==> after[k].download is None
            &&& forall|i: int|
                0 <= i < before.len() && i != k ==> #[trigger] after[i] == before[i]
            &&& final(ring)@.waiting.len() == 0
            &&& final(marks)@ == (old(marks)@ + 2 + 2 * n) % 256
        }),
{
    let before = old(ring)@;
    lemma_unanswered(before, old(marks)@);
    lemma_the_only_one(before.slaves, station, k);
    lemma_travels(bytes@.len(), n);
    reveal(write_outcome);
    law_write_on_a_clear_ring(
        before,
        master.with(*old(marks)),
        station,
        index,
        subindex,
        bytes@,
    );
    assert(master.with(*final(marks)).next_index == (old(marks)@ + (2 + 2 * n)) % 256);
}

/// Where nothing that waits answers in its place, a read from the one slave at a
/// station, of an object it holds, gives that object, of whatever length; nothing
/// that any slave holds changes. It spends two marks for the opening and two for
/// each segment.
pub proof fn law_what_is_held_is_read(
    master: &EtherCatTransport,
    marks: &mut Marks,
    ring: &mut Segment,
    station: u16,
    index: u16,
    subindex: u8,
    r: Result<Vec<u8>, Error>,
    k: int,
    n: nat,
)
    requires
        call_ensures(
            EtherCatTransport::upload,
            (master, marks, ring, station, index, subindex),
            r,
        ),
        nothing_answers(old(ring)@, old(marks)@),
        is_the_one(old(ring)@.slaves, station, k),
        old(ring)@.slaves[k].objects.contains_key((index, subindex)),
        travels_in(old(ring)@.slaves[k].objects[(index, subindex)].len(), n),
    ensures
        ({
            let before = old(ring)@.slaves;
            let after = final(ring)@.slaves;
            let object = before[k].objects[(index, subindex)];
            &&& r matches Ok(bytes)
            &&& bytes@ == object
            &&& after.len() == before.len()
            &&& after[k].station == station
            &&& after[k].objects == before[k].objects
            &&& after[k].outbox is None
            &&& after[k].download == before[k].download
            &&& n == 0 ==> after[k].upload == before[k].upload
            &&& n > 0 ==> after[k].upload is None
            &&& forall|i: int|
                0 <= i < before.len() && i != k ==> #[trigger] after[i] == before[i]
            &&& final(ring)@.waiting.len() == 0
            &&& final(marks)@ == (old(marks)@ + 2 + 2 * n) % 256
        }),
{
    let before = old(ring)@;
    lemma_unanswered(before, old(marks)@);
    lemma_the_only_one(before.slaves, station, k);
    lemma_travels(before.slaves[k].objects[(index, subindex)].len(), n);
    reveal(read_outcome);
    law_read_on_a_clear_ring(before, master.with(*old(marks)), station, index, subindex);
    assert(master.with(*final(marks)).next_index == (old(marks)@ + (2 + 2 * n)) % 256);
}

/// Where nothing that waits answers in its place, a write that cannot be made is
/// refused: with more bytes than thirty-two bits say, to a station nobody is at, and
/// to an object the one slave there does not hold, for which the code is 0x06020000.
/// No object of any slave changes.
pub proof fn law_a_write_is_refused(
    master: &EtherCatTransport,
    marks: &mut Marks,
    ring: &mut Segment,
    station: u16,
    index: u16,
    subindex: u8,
    bytes: &[u8],
    r: Result<(), Error>,
    k: int,
)
    requires
        call_ensures(
            EtherCatTransport::download,
            (master, marks, ring, station, index, subindex, bytes),
            r,
        ),
        nothing_answers(old(ring)@, old(marks)@),
        is_the_one(old(ring)@.slaves, station, k) || forall|i: int|
            0 <= i < old(ring)@.slaves.len() ==> (#[trigger] old(ring)@.slaves[i]).station
                != station,
    ensures
        bytes@.len() > u32::MAX ==> {
            &&& r == Err::<(), Error>(Error::ObjectTooLong(bytes.len()))
            &&& final(ring)@ == old(ring)@
            &&& final(marks)@ == old(marks)@
        },
        bytes@.len() <= u32::MAX && !is_the_one(old(ring)@.slaves, station, k) ==> {
            &&& r == Err::<(), Error>(Error::NotOnRing(station))
            &&& final(ring)@.slaves == old(ring)@.slaves
            &&& final(marks)@ == (old(marks)@ + 1) % 256
        },
        bytes@.len() <= u32::MAX && is_the_one(old(ring)@.slaves, station, k) && !old(
            ring,
        )@.slaves[k].objects.contains_key((index, subindex)) ==> {
            &&& r == Err::<(), Error>(Error::Aborted(0x0602_0000))
            &&& final(ring)@.slaves.len() == old(ring)@.slaves.len()
            &&& final(ring)@.slaves[k].objects == old(ring)@.slaves[k].objects
            &&& forall|i: int|
                0 <= i < old(ring)@.slaves.len() && i != k ==> #[trigger] final(ring)@.slaves[i]
                    == old(ring)@.slaves[i]
            &&& final(marks)@ == (old(marks)@ + 2) % 256
        },
{
    let before = old(ring)@;
    lemma_unanswered(before, old(marks)@);
    if is_the_one(before.slaves, station, k) {
        lemma_the_only_one(before.slaves, station, k);
    } else {
        lemma_nobody(before.slaves, station);
        assert forall|bytes: Seq<u8>| #[trigger] delivered(before.slaves, station, bytes)
            == before.slaves by {
            assert(delivered(before.slaves, station, bytes) =~= before.slaves);
        }
    }
    reveal(write_outcome);
    law_write_on_a_clear_ring(
        before,
        master.with(*old(marks)),
        station,
        index,
        subindex,
        bytes@,
    );
    let cost = write_outcome(before, old(marks)@, station, index, subindex, bytes@).2;
    assert(master.with(*final(marks)).next_index == (old(marks)@ + cost) % 256);
}

/// Where nothing that waits answers in its place, a read from a station nobody is
/// at, and of an object the one slave there does not hold, is refused, the second
/// with the code 0x06020000.
pub proof fn law_a_read_is_refused(
    master: &EtherCatTransport,
    marks: &mut Marks,
    ring: &mut Segment,
    station: u16,
    index: u16,
    subindex: u8,
    r: Result<Vec<u8>, Error>,
    k: int,
)
    requires
        call_ensures(
            EtherCatTransport::upload,
            (master, marks, ring, station, index, subindex),
            r,
        ),
        nothing_answers(old(ring)@, old(marks)@),
        is_the_one(old(ring)@.slaves, station, k) || forall|i: int|
            0 <= i < old(ring)@.slaves.len() ==> (#[trigger] old(ring)@.slaves[i]).station
                != station,
    ensures
        !is_the_one(old(ring)@.slaves, station, k) ==> {
            &&& r == Err::<Vec<u8>, Error>(Error::NotOnRing(station))
            &&& final(ring)@.slaves == old(ring)@.slaves
            &&& final(marks)@ == (old(marks)@ + 1) % 256
        },
        is_the_one(old(ring)@.slaves, station, k) && !old(ring)@.slaves[k].objects.contains_key(
            (index, subindex),
        ) ==> {
            &&& r == Err::<Vec<u8>, Error>(Error::Aborted(0x0602_0000))
            &&& final(ring)@.slaves[k].objects == old(ring)@.slaves[k].objects
            &&& final(marks)@ == (old(marks)@ + 2) % 256
        },
{
    let before = old(ring)@;
    lemma_unanswered(before, old(marks)@);
    if is_the_one(before.slaves, station, k) {
        lemma_the_only_one(before.slaves, station, k);
    } else {
        lemma_nobody(before.slaves, station);
        assert forall|bytes: Seq<u8>| #[trigger] delivered(before.slaves, station, bytes)
            == before.slaves by {
            assert(delivered(before.slaves, station, bytes) =~= before.slaves);
        }
    }
    reveal(read_outcome);
    law_read_on_a_clear_ring(before, master.with(*old(marks)), station, index, subindex);
    let cost = read_outcome(before, old(marks)@, station, index, subindex).2;
    assert(master.with(*final(marks)).next_index == (old(marks)@ + cost) % 256);
}

/// Where nothing that waits answers in its place, and sixteen bits count the slaves,
/// every object of every station may be written, with whatever bytes, and read.
pub proof fn law_everything_may_be_asked(
    master: &EtherCatTransport,
    marks: &mut Marks,
    ring: &mut Segment,
    station: u16,
    index: u16,
    subindex: u8,
    sdo: &Sdo,
    target: &str,
    bytes: &[u8],
)
    requires
        nothing_answers(old(ring)@, old(marks)@),
        old(ring)@.slaves.len() <= 0xffff,
    ensures
        call_requires(EtherCatTransport::call, (master, marks, ring, station, sdo)),
        call_requires(
            EtherCatTransport::download,
            (master, marks, ring, station, index, subindex, bytes),
        ),
        call_requires(
            EtherCatTransport::upload,
            (master, marks, ring, station, index, subindex),
        ),
        call_requires(EtherCatTransport::send, (master, marks, ring, target, bytes)),
        call_requires(EtherCatTransport::receive, (master, marks, ring)),
        call_requires(EtherCatTransport::round, (master, marks, ring, bytes)),
{
    lemma_unanswered(old(ring)@, old(marks)@);
}

/// A write begins with what it opens with, in what a mailbox carries; what cannot be
/// opened is refused before anything is asked.
pub proof fn law_a_write_begins_with_its_opening(
    ring: SegmentView,
    master: MasterView,
    station: u16,
    index: u16,
    subindex: u8,
    bytes: &[u8],
    window: &Window,
    r: Result<(Download, Sdo), Error>,
)
    requires
        call_ensures(coe, (), *window),
        call_ensures(Download::open, (window, index, subindex, bytes), r),
    ensures
        downloaded(ring, master, station, index, subindex, bytes@) == match r {
            Err(e) => Some((Err::<(), Error>(e), ring, 0nat)),
            Ok((download, ask)) => writing(ring, master, station, download@, ask@),
        },
{
    reveal(downloaded);
}

/// A write goes on call by call: each answer decides what is asked next, until there
/// is nothing left to ask, or the write is refused.
pub proof fn law_a_write_goes_on_call_by_call(
    ring: SegmentView,
    master: MasterView,
    station: u16,
    download: &mut Download,
    ask: SdoView,
    answer: &Sdo,
    r: Result<Option<Sdo>, Error>,
)
    requires
        may_call(ring, master, station, ask),
        call_ensures(Download::answered, (download, answer), r),
    ensures
        ({
            let (said, after, cost) = called(ring, master, station, ask);
            let whole = writing(ring, master, station, old(download)@, ask);
            &&& said matches Err(e) ==> whole == Some((Err::<(), Error>(e), after, cost))
            &&& said == Ok::<SdoView, Error>(answer@) ==> match r {
                Err(e) => whole == Some((Err::<(), Error>(e), after, cost)),
                Ok(None) => whole == Some((Ok::<(), Error>(()), after, cost)),
                Ok(Some(next)) => match writing(
                    after,
                    master.after(cost),
                    station,
                    final(download)@,
                    next@,
                ) {
                    None => whole is None,
                    Some((done, end, more)) => whole == Some((done, end, cost + more)),
                },
            }
        }),
{
    reveal(writing);
}

/// A read begins with what it opens with.
pub proof fn law_a_read_begins_with_its_opening(
    ring: SegmentView,
    master: MasterView,
    station: u16,
    index: u16,
    subindex: u8,
    r: (Upload, Sdo),
    calls: nat,
)
    requires
        call_ensures(Upload::open, (index, subindex), r),
        reading(ring, master, station, r.0@, r.1@, calls) is Some,
    ensures
        uploaded(ring, master, station, index, subindex) == reading(
            ring,
            master,
            station,
            r.0@,
            r.1@,
            calls,
        ),
{
    lemma_uploaded(ring, master, station, index, subindex, calls);
}

/// A read goes on call by call: each answer decides what is asked next, until there
/// is nothing left to ask, and then the object is what has come, or the read is
/// refused.
pub proof fn law_a_read_goes_on_call_by_call(
    ring: SegmentView,
    master: MasterView,
    station: u16,
    upload: &mut Upload,
    ask: SdoView,
    answer: Sdo,
    r: Result<Option<Sdo>, Error>,
    calls: nat,
)
    requires
        calls > 0,
        may_call(ring, master, station, ask),
        call_ensures(Upload::answered, (upload, answer), r),
    ensures
        ({
            let (said, after, cost) = called(ring, master, station, ask);
            let whole = reading(ring, master, station, old(upload)@, ask, calls);
            &&& said matches Err(e) ==> whole == Some((Err::<Seq<u8>, Error>(e), after, cost))
            &&& said == Ok::<SdoView, Error>(answer@) ==> match r {
                Err(e) => whole == Some((Err::<Seq<u8>, Error>(e), after, cost)),
                Ok(None) => whole == Some(
                    (Ok::<Seq<u8>, Error>(final(upload)@.bytes), after, cost),
                ),
                Ok(Some(next)) => match reading(
                    after,
                    master.after(cost),
                    station,
                    final(upload)@,
                    next@,
                    (calls - 1) as nat,
                ) {
                    None => whole is None,
                    Some((read, end, more)) => whole == Some((read, end, cost + more)),
                },
            }
        }),
{
    reveal(reading);
}

/// The transport has its scheme for a name.
pub proof fn law_the_transport_is_called_ethercat(master: &EtherCatTransport, r: &'static str)
    requires
        call_ensures(EtherCatTransport::name, (master,), r),
    ensures
        r@ == seq!['e', 't', 'h', 'e', 'r', 'c', 'a', 't'],
{
    reveal_strlit("ethercat");
    assert("ethercat"@ =~= seq!['e', 't', 'h', 'e', 'r', 'c', 'a', 't']);
}

/// The origin a master gives an object is on its link.
pub proof fn law_an_origin_is_on_the_link(
    master: &EtherCatTransport,
    station: u16,
    index: u16,
    subindex: u8,
    r: String,
)
    requires
        call_ensures(EtherCatTransport::origin, (master, station, index, subindex), r),
    ensures
        r@ == seq!['e', 't', 'h', 'e', 'r', 'c', 'a', 't', ':', '/', '/'] + master@.link + seq!['/']
            + four_written(station as int) + seq!['/'] + four_written(index as int) + seq!['/']
            + few_written(subindex as int),
{
    reveal_strlit("ethercat://");
    reveal_strlit("/");
    lemma_four_written(station);
    lemma_four_written(index);
    lemma_few_written(subindex);
    assert("ethercat://"@ =~= seq!['e', 't', 'h', 'e', 'r', 'c', 'a', 't', ':', '/', '/']);
    assert("/"@ =~= seq!['/']);
    assert(r@ =~= seq!['e', 't', 'h', 'e', 'r', 'c', 'a', 't', ':', '/', '/'] + master@.link + seq![
        '/',
    ] + four_written(station as int) + seq!['/'] + four_written(index as int) + seq!['/']
        + few_written(subindex as int));
}

/// A master resolves a target to what its text names, or to the object it speaks to;
/// a target that names nothing is refused with its text.
pub proof fn law_a_master_resolves_a_target(
    master: &EtherCatTransport,
    target: &str,
    r: Result<(u16, u16, u8), Error>,
    text: &[char],
    configured: (u16, u16, u8),
    s: Option<(u16, u16, u8)>,
)
    requires
        call_ensures(EtherCatTransport::resolve, (master, target), r),
        text@ == target@,
        configured == (master@.station, master@.index, master@.subindex),
        call_ensures(resolve, (text, configured), s),
    ensures
        s matches Some(object) ==> r == Ok::<(u16, u16, u8), Error>(object),
        s is None ==> (r matches Err(Error::BadTarget(said)) && said@ == target@),
{
}

/// What is sent is written to the object the target names, and to no other; what is
/// sent to a target that names none is refused, and nothing is asked.
pub proof fn law_what_is_sent_is_written_to_its_target(
    master: &EtherCatTransport,
    marks: &mut Marks,
    ring: &mut Segment,
    target: &str,
    bytes: &[u8],
    r: Result<(), Error>,
    object: Result<(u16, u16, u8), Error>,
    station: u16,
    index: u16,
    subindex: u8,
    same: &mut Marks,
    twin: &mut Segment,
    s: Result<(), Error>,
)
    requires
        call_ensures(EtherCatTransport::send, (master, marks, ring, target, bytes), r),
        call_ensures(EtherCatTransport::resolve, (master, target), object),
        object is Ok ==> object == Ok::<(u16, u16, u8), Error>((station, index, subindex)),
        old(same)@ == old(marks)@,
        old(twin)@ == old(ring)@,
        call_ensures(
            EtherCatTransport::download,
            (master, same, twin, station, index, subindex, bytes),
            s,
        ),
    ensures
        object is Ok ==> {
            &&& r == s
            &&& final(ring)@ == final(twin)@
            &&& final(marks)@ == final(same)@
        },
        object is Err ==> {
            &&& r matches Err(Error::BadTarget(said)) && said@ == target@
            &&& final(ring)@ == old(ring)@
            &&& final(marks)@ == old(marks)@
        },
{
    let cost = downloaded(
        old(ring)@,
        master.with(*old(marks)),
        station,
        index,
        subindex,
        bytes@,
    ).unwrap().2;
    if object is Ok {
        assert(master.with(*final(marks)) == master.with(*old(marks)).after(cost));
        assert(master.with(*final(same)) == master.with(*old(same)).after(cost));
        assert(final(marks)@ == master.with(*final(marks)).next_index);
        assert(final(same)@ == master.with(*final(same)).next_index);
    }
}

/// What is received is the object the master speaks to, as it is read, in one Stream
/// with that object's origin.
pub proof fn law_what_is_received_is_the_object_read(
    master: &EtherCatTransport,
    marks: &mut Marks,
    ring: &mut Segment,
    r: Result<Vec<Arrived>, Error>,
    station: u16,
    index: u16,
    subindex: u8,
    origin: String,
    same: &mut Marks,
    twin: &mut Segment,
    s: Result<Vec<u8>, Error>,
)
    requires
        call_ensures(EtherCatTransport::receive, (master, marks, ring), r),
        (station, index, subindex) == (master@.station, master@.index, master@.subindex),
        call_ensures(EtherCatTransport::origin, (master, station, index, subindex), origin),
        old(same)@ == old(marks)@,
        old(twin)@ == old(ring)@,
        call_ensures(
            EtherCatTransport::upload,
            (master, same, twin, station, index, subindex),
            s,
        ),
    ensures
        s matches Err(e) ==> r == Err::<Vec<Arrived>, Error>(e),
        s matches Ok(bytes) ==> {
            &&& r matches Ok(arrived)
            &&& arrived@.len() == 1
            &&& arrived@[0].bytes@ == bytes@
            &&& arrived@[0].origin_uri@ == origin@
        },
        final(ring)@ == final(twin)@,
        final(marks)@ == final(same)@,
{
    let cost = uploaded(
        old(ring)@,
        master.with(*old(marks)),
        station,
        index,
        subindex,
    ).unwrap().2;
    assert(master.with(*final(marks)) == master.with(*old(marks)).after(cost));
    assert(master.with(*final(same)) == master.with(*old(same)).after(cost));
    assert(final(marks)@ == master.with(*final(marks)).next_index);
    assert(final(same)@ == master.with(*final(same)).next_index);
}

/// There and back is a send to the origin of the object the master speaks to, and
/// then what is received; where the send is refused, nothing is received.
pub proof fn law_a_round_is_a_send_and_what_is_received(
    master: &EtherCatTransport,
    marks: &mut Marks,
    ring: &mut Segment,
    payload: &[u8],
    r: Result<Arrived, Error>,
    origin: String,
    target: &str,
    first: &mut Marks,
    there: &mut Segment,
    s: Result<(), Error>,
    second: &mut Marks,
    back: &mut Segment,
    t: Result<Vec<Arrived>, Error>,
)
    requires
        call_ensures(EtherCatTransport::round, (master, marks, ring, payload), r),
        call_ensures(
            EtherCatTransport::origin,
            (master, master@.station, master@.index, master@.subindex),
            origin,
        ),
        target@ == origin@,
        old(first)@ == old(marks)@,
        old(there)@ == old(ring)@,
        call_ensures(EtherCatTransport::send, (master, first, there, target, payload), s),
        old(second)@ == final(first)@,
        old(back)@ == final(there)@,
        call_ensures(EtherCatTransport::receive, (master, second, back), t),
    ensures
        s matches Err(Error::BadTarget(said)) ==> (r matches Err(Error::BadTarget(told)) && told@
            == said@),
        s matches Err(e) ==> e is BadTarget || r == Err::<Arrived, Error>(e),
        s is Err ==> final(ring)@ == final(there)@ && final(marks)@ == final(first)@,
        s is Ok ==> {
            &&& t matches Err(e) ==> r == Err::<Arrived, Error>(e)
            &&& t matches Ok(arrived) ==> {
                &&& r matches Ok(one)
                &&& one.bytes@ == arrived@[0].bytes@
                &&& one.origin_uri@ == arrived@[0].origin_uri@
            }
            &&& final(ring)@ == final(back)@
            &&& final(marks)@ == final(second)@
        },
{
    reveal(there_and_back);
    let was = master.with(*old(marks));
    assert(final(marks)@ == master.with(*final(marks)).next_index);
    assert(final(first)@ == master.with(*final(first)).next_index);
    assert(final(second)@ == master.with(*final(second)).next_index);
    assert(master.with(*old(first)) == was);
    assert(master.with(*old(second)) == master.with(*final(first)));
}

/// A loopback is a master and the one slave it speaks to, at 0x1001, which holds its
/// device type and, empty, the object 0x2000:00.
pub proof fn law_a_loopback_is_one_slave(r: (EtherCatTransport, Marks, Segment))
    requires
        call_ensures(EtherCatTransport::loopback, (), r),
    ensures
        r.0@.link == seq!['l', 'o', 'o', 'p', 'b', 'a', 'c', 'k'],
        r.0@.source.0@ == seq![2u8, 0u8, 0u8, 0u8, 0u8, 1u8],
        r.0@.station == 0x1001,
        r.0@.index == 0x2000,
        r.0@.subindex == 0,
        r.0@.timeout == 1_000_000_000,
        r.1@ == 0,
        r.2@.waiting.len() == 0,
        r.2@.slaves.len() == 1,
        r.2@.slaves[0].station == 0x1001,
        r.2@.slaves[0].outbox is None,
        forall|index: u16, subindex: u8|
            #[trigger] r.2@.slaves[0].objects.contains_key((index, subindex)) <==> subindex == 0
                && (index == 0x1000 || index == 0x2000),
        r.2@.slaves[0].objects[(0x1000, 0)] == seq![0u8, 0u8, 0u8, 0u8],
        r.2@.slaves[0].objects[(0x2000, 0)].len() == 0,
{
    reveal_strlit("loopback");
    assert("loopback"@ =~= seq!['l', 'o', 'o', 'p', 'b', 'a', 'c', 'k']);
    assert(r.0@.source.0@ =~= seq![2u8, 0u8, 0u8, 0u8, 0u8, 1u8]);
}

} // verus!
