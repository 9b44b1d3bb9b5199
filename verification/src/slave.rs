//! A slave on an in-process segment: what a test or the loopback puts at the
//! far end so a master can be driven without a terminal in the room.
//!
//! Not a device. One slave has a station address, an AL status that says
//! operational, the two mailboxes, and an object dictionary of byte vectors
//! keyed by index and subindex that `CoE` downloads and uploads reach. As a
//! frame passes, every datagram passes every slave: a slave acts where the
//! datagram addresses it, increments the working counter to say so, and
//! increments the position of an auto-increment command whether it acted or
//! not.

use std::collections::HashMap;

use vstd::prelude::*;

use crate::datagram::{Command, Datagram, DatagramView};
use crate::error::Error;
use crate::mailbox::{
    law_message_decodes_back, message_in, Message, MessageView, INITIATE_DATA, MAILBOX_SIZE,
    RECEIVE_MAILBOX, SEGMENT_DATA, TRANSMIT_MAILBOX,
};
use crate::sdo::{
    Opening, OpeningView, Sdo, SdoView, ABORT_COMMAND, ABORT_NO_OBJECT, ABORT_TOGGLE,
};
use crate::wire::{fitted, le16, part, put_bytes, put_u16, zeros};

verus! {

broadcast use vstd::std_specs::hash::group_hash_axioms;

/// The register holding a slave's configured station address.
pub const STATION_ADDRESS: u16 = 0x0010;

/// The register holding a slave's application layer status.
pub const AL_STATUS: u16 = 0x0130;

/// The AL status of a slave that is operational.
pub const OPERATIONAL: u16 = 0x0008;

/// A write in segments in progress: the object, the toggle the next segment has
/// to have, and the bytes taken.
struct Taking {
    index: u16,
    subindex: u8,
    toggle: bool,
    bytes: Vec<u8>,
}

/// A read in segments in progress: the object, the toggle the next segment has
/// to have, the bytes, and how many of them have been given.
struct Giving {
    index: u16,
    subindex: u8,
    toggle: bool,
    bytes: Vec<u8>,
    at: usize,
}

impl Giving {
    /// No more has been given than there is.
    #[verifier::type_invariant]
    spec fn within(self) -> bool {
        self.at <= self.bytes@.len()
    }
}

/// One slave.
pub struct Slave {
    station: u16,
    dictionary: HashMap<u32, Vec<u8>>,
    transmit_mailbox: Option<Vec<u8>>,
    download: Option<Taking>,
    upload: Option<Giving>,
}

/// Where a segmented transfer stands: the object, the toggle the next segment
/// has to have, and the bytes: of a write those taken, of a read those left.
#[verifier::ext_equal]
pub struct TransferView {
    pub index: u16,
    pub subindex: u8,
    pub toggle: bool,
    pub bytes: Seq<u8>,
}

/// What a slave is: its station, the objects in its dictionary, what waits in
/// its transmit mailbox, and the transfers in progress.
#[verifier::ext_equal]
pub struct SlaveView {
    pub station: u16,
    pub objects: Map<(u16, u8), Seq<u8>>,
    pub outbox: Option<Seq<u8>>,
    pub download: Option<TransferView>,
    pub upload: Option<TransferView>,
}

impl View for Taking {
    type V = TransferView;

    closed spec fn view(&self) -> TransferView {
        TransferView {
            index: self.index,
            subindex: self.subindex,
            toggle: self.toggle,
            bytes: self.bytes@,
        }
    }
}

impl View for Giving {
    type V = TransferView;

    closed spec fn view(&self) -> TransferView {
        TransferView {
            index: self.index,
            subindex: self.subindex,
            toggle: self.toggle,
            bytes: self.bytes@.skip(self.at as int),
        }
    }
}

/// The number the dictionary keeps an object under.
spec fn key_of(object: (u16, u8)) -> u32 {
    (0x100 * object.0 + object.1) as u32
}

/// The objects a dictionary holds.
spec fn objects_in(dictionary: Map<u32, Vec<u8>>) -> Map<(u16, u8), Seq<u8>> {
    Map::new(
        |object: (u16, u8)| dictionary.contains_key(key_of(object)),
        |object: (u16, u8)| dictionary[key_of(object)]@,
    )
}

impl View for Slave {
    type V = SlaveView;

    closed spec fn view(&self) -> SlaveView {
        SlaveView {
            station: self.station,
            objects: objects_in(self.dictionary@),
            outbox: match self.transmit_mailbox {
                Some(message) => Some(message@),
                None => None,
            },
            download: match self.download {
                Some(transfer) => Some(transfer@),
                None => None,
            },
            upload: match self.upload {
                Some(transfer) => Some(transfer@),
                None => None,
            },
        }
    }
}

/// The answer that gives up on `index:subindex`.
pub open spec fn aborted(index: u16, subindex: u8, code: u32) -> SdoView {
    SdoView::Abort { index, subindex, code }
}

impl SlaveView {
    /// A client opens a write of `size` bytes with the first of them. All of an
    /// object is stored at once; less opens a transfer that segments go on with.
    pub open spec fn open_download(
        self,
        index: u16,
        subindex: u8,
        size: nat,
        data: Seq<u8>,
    ) -> (SlaveView, SdoView) {
        let accepted = SdoView::DownloadAccepted { index, subindex };
        if !self.objects.contains_key((index, subindex)) {
            (self, aborted(index, subindex, ABORT_NO_OBJECT))
        } else if size <= data.len() <= INITIATE_DATA {
            (
                SlaveView {
                    objects: self.objects.insert((index, subindex), data.take(size as int)),
                    ..self
                },
                accepted,
            )
        } else {
            (
                SlaveView {
                    download: Some(
                        TransferView { index, subindex, toggle: false, bytes: data },
                    ),
                    ..self
                },
                accepted,
            )
        }
    }

    /// A client writes on. The toggle has to alternate; the last segment stores
    /// the object.
    pub open spec fn segment(self, toggle: bool, data: Seq<u8>, last: bool) -> (
        SlaveView,
        SdoView,
    ) {
        match self.download {
            None => (self, aborted(0, 0, ABORT_COMMAND)),
            Some(transfer) => if toggle != transfer.toggle {
                (
                    SlaveView { download: None, ..self },
                    aborted(transfer.index, transfer.subindex, ABORT_TOGGLE),
                )
            } else if last {
                (
                    SlaveView {
                        objects: self.objects.insert(
                            (transfer.index, transfer.subindex),
                            transfer.bytes + data,
                        ),
                        download: None,
                        ..self
                    },
                    SdoView::SegmentAccepted { toggle },
                )
            } else {
                (
                    SlaveView {
                        download: Some(
                            TransferView {
                                toggle: !toggle,
                                bytes: transfer.bytes + data,
                                ..transfer
                            },
                        ),
                        ..self
                    },
                    SdoView::SegmentAccepted { toggle },
                )
            },
        }
    }

    /// A client opens a read. What an initiate does not carry is left for
    /// segments to go on with.
    pub open spec fn open_upload(self, index: u16, subindex: u8) -> (SlaveView, SdoView) {
        if !self.objects.contains_key((index, subindex)) {
            (self, aborted(index, subindex, ABORT_NO_OBJECT))
        } else {
            let bytes = self.objects[(index, subindex)];
            let size = if bytes.len() <= u32::MAX {
                bytes.len() as u32
            } else {
                u32::MAX
            };
            let whole = bytes.len() <= INITIATE_DATA;
            let data = if whole {
                bytes
            } else {
                bytes.take(INITIATE_DATA as int)
            };
            (
                if whole {
                    self
                } else {
                    SlaveView {
                        upload: Some(
                            TransferView {
                                index,
                                subindex,
                                toggle: false,
                                bytes: bytes.skip(INITIATE_DATA as int),
                            },
                        ),
                        ..self
                    }
                },
                SdoView::UploadOpened {
                    index,
                    subindex,
                    opening: OpeningView::Sized { size, data },
                },
            )
        }
    }

    /// A client reads on. The toggle has to alternate; the last segment ends the
    /// transfer.
    pub open spec fn next_segment(self, toggle: bool) -> (SlaveView, SdoView) {
        match self.upload {
            None => (self, aborted(0, 0, ABORT_COMMAND)),
            Some(transfer) => if toggle != transfer.toggle {
                (
                    SlaveView { upload: None, ..self },
                    aborted(transfer.index, transfer.subindex, ABORT_TOGGLE),
                )
            } else {
                let last = transfer.bytes.len() <= SEGMENT_DATA;
                let data = if last {
                    transfer.bytes
                } else {
                    transfer.bytes.take(SEGMENT_DATA as int)
                };
                (
                    SlaveView {
                        upload: if last {
                            None
                        } else {
                            Some(
                                TransferView {
                                    toggle: !toggle,
                                    bytes: transfer.bytes.skip(SEGMENT_DATA as int),
                                    ..transfer
                                },
                            )
                        },
                        ..self
                    },
                    SdoView::UploadData { toggle, data, last },
                )
            },
        }
    }

    /// A client asks: what the slave is then, and what it answers. What is not
    /// a request ends both transfers.
    #[verifier::opaque]
    pub open spec fn serve(self, request: SdoView) -> (SlaveView, SdoView) {
        match request {
            SdoView::InitiateDownload { index, subindex, opening } => match opening {
                OpeningView::Expedited { data } => self.open_download(
                    index,
                    subindex,
                    data.len(),
                    data,
                ),
                OpeningView::Sized { size, data } => self.open_download(
                    index,
                    subindex,
                    size as nat,
                    data,
                ),
            },
            SdoView::DownloadSegment { toggle, data, last } => self.segment(toggle, data, last),
            SdoView::InitiateUpload { index, subindex } => self.open_upload(index, subindex),
            SdoView::UploadSegment { toggle } => self.next_segment(toggle),
            _ => (
                SlaveView { download: None, upload: None, ..self },
                aborted(0, 0, ABORT_COMMAND),
            ),
        }
    }

    /// The receive mailbox is written: what the slave is then, its answer in the
    /// transmit mailbox. What is no message is answered with an abort.
    #[verifier::opaque]
    pub open spec fn receive(self, bytes: Seq<u8>) -> SlaveView {
        match message_in(bytes) {
            Ok(message) => {
                let (slave, sdo) = self.serve(message.sdo);
                SlaveView {
                    outbox: Some(MessageView { counter: message.counter, sdo }.bytes()),
                    ..slave
                }
            },
            Err(_) => SlaveView {
                outbox: Some(
                    MessageView { counter: 0, sdo: aborted(0, 0, ABORT_COMMAND) }.bytes(),
                ),
                ..self
            },
        }
    }

    /// What a read at `offset` finds: the station address, the AL status, or the
    /// message in the transmit mailbox.
    pub open spec fn memory(self, offset: u16) -> Option<Seq<u8>> {
        if offset == STATION_ADDRESS {
            Some(le16(self.station as int))
        } else if offset == AL_STATUS {
            Some(le16(OPERATIONAL as int))
        } else if offset == TRANSMIT_MAILBOX {
            self.outbox
        } else {
            None
        }
    }

    /// True where the datagram is for this slave: a position command at position
    /// 0, a fixed command at its station, any broadcast.
    pub open spec fn addressed(self, d: DatagramView) -> bool {
        match d.command {
            Command::Aprd | Command::Apwr | Command::Aprw => d.station() == 0,
            Command::Fprd | Command::Fpwr | Command::Fprw => d.station() == self.station,
            Command::Brd | Command::Bwr | Command::Brw => true,
            _ => false,
        }
    }

    /// A datagram passes: what the slave is then, and what goes on. The position
    /// of a position command is incremented. A write into the receive mailbox is
    /// taken where the mailbox holds it; a read of what the slave has fills the
    /// data, and takes the message out of the transmit mailbox. Either counts.
    #[verifier::opaque]
    pub open spec fn pass(self, d: DatagramView) -> (SlaveView, DatagramView) {
        let on = match d.command {
            Command::Aprd | Command::Apwr | Command::Aprw => d.with_station(
                ((d.station() + 1) % 0x1_0000) as u16,
            ),
            _ => d,
        };
        let counted = DatagramView {
            working_counter: ((d.working_counter + 1) % 0x1_0000) as u16,
            ..on
        };
        if !self.addressed(d) {
            (self, on)
        } else if d.command.is_write() {
            if d.offset() == RECEIVE_MAILBOX && d.data.len() <= MAILBOX_SIZE {
                (self.receive(d.data), counted)
            } else {
                (self, on)
            }
        } else {
            match self.memory(d.offset()) {
                Some(bytes) => (
                    if d.offset() == TRANSMIT_MAILBOX {
                        SlaveView { outbox: None, ..self }
                    } else {
                        self
                    },
                    DatagramView { data: fitted(bytes, d.data.len()), ..counted },
                ),
                None => (self, on),
            }
        }
    }
}

/// The answer that gives up on `index:subindex`.
fn abort(index: u16, subindex: u8, code: u32) -> (r: Sdo)
    ensures
        r@ == aborted(index, subindex, code),
{
    Sdo::Abort { index, subindex, code }
}

/// The number the dictionary keeps an object under.
fn key(index: u16, subindex: u8) -> (r: u32)
    ensures
        r == key_of((index, subindex)),
{
    0x100 * index as u32 + subindex as u32
}

/// Storing under an object's number stores the object and no other.
proof fn lemma_stored(dictionary: Map<u32, Vec<u8>>, object: (u16, u8), bytes: Vec<u8>)
    ensures
        objects_in(dictionary.insert(key_of(object), bytes)) == objects_in(dictionary).insert(
            object,
            bytes@,
        ),
{
    assert forall|other: (u16, u8)| #[trigger] key_of(other) == key_of(object) implies other
        == object by {}
    assert(objects_in(dictionary.insert(key_of(object), bytes)) =~= objects_in(dictionary).insert(
        object,
        bytes@,
    ));
}

impl Slave {
    /// A slave at `station`, operational, holding device type `0x0000_0000` at
    /// `0x1000:00` and nothing else.
    #[must_use]
    pub fn new(station: u16) -> (slave: Self)
        ensures
            slave@ == (SlaveView {
                station,
                objects: map![(0x1000u16, 0u8) => seq![0u8, 0u8, 0u8, 0u8]],
                outbox: None,
                download: None,
                upload: None,
            }),
    {
        let mut dictionary: HashMap<u32, Vec<u8>> = HashMap::new();
        let ghost before = dictionary@;
        let device_type: Vec<u8> = vec![0, 0, 0, 0];
        proof {
            lemma_stored(before, (0x1000, 0), device_type);
        }
        assert(objects_in(before) =~= Map::empty());
        assert(device_type@ =~= seq![0u8, 0u8, 0u8, 0u8]);
        dictionary.insert(key(0x1000, 0), device_type);
        let slave = Self {
            station,
            dictionary,
            transmit_mailbox: None,
            download: None,
            upload: None,
        };
        assert(slave@.objects =~= map![(0x1000u16, 0u8) => seq![0u8, 0u8, 0u8, 0u8]]);
        slave
    }

    /// Hold `bytes` at `index:subindex`.
    fn store(&mut self, index: u16, subindex: u8, bytes: Vec<u8>)
        ensures
            final(self)@ == (SlaveView {
                objects: old(self)@.objects.insert((index, subindex), bytes@),
                ..old(self)@
            }),
    {
        proof {
            lemma_stored(self.dictionary@, (index, subindex), bytes);
        }
        self.dictionary.insert(key(index, subindex), bytes);
    }

    /// Hold `bytes` at `index:subindex`.
    #[must_use]
    pub fn with_object(self, index: u16, subindex: u8, bytes: Vec<u8>) -> (slave: Self)
        ensures
            slave@ == (SlaveView {
                objects: self@.objects.insert((index, subindex), bytes@),
                ..self@
            }),
    {
        let mut slave = self;
        slave.store(index, subindex, bytes);
        slave
    }

    /// The slave's station address.
    #[must_use]
    pub fn station(&self) -> (r: u16)
        ensures
            r == self@.station,
    {
        self.station
    }

    /// The bytes held at `index:subindex`, as they are now.
    #[must_use]
    pub fn object(&self, index: u16, subindex: u8) -> (r: Option<&[u8]>)
        ensures
            match r {
                Some(bytes) => self@.objects.contains_key((index, subindex)) && bytes@
                    == self@.objects[(index, subindex)],
                None => !self@.objects.contains_key((index, subindex)),
            },
    {
        match self.dictionary.get(&key(index, subindex)) {
            Some(bytes) => Some(bytes.as_slice()),
            None => None,
        }
    }

    /// One datagram passes: act where addressed, count, and increment a
    /// position.
    pub fn pass(&mut self, datagram: &mut Datagram)
        ensures
            (final(self)@, final(datagram)@) == old(self)@.pass(old(datagram)@),
    {
        let ghost slave = self@;
        let ghost d = datagram@;
        proof {
            reveal(SlaveView::pass);
        }
        let addressed = match datagram.command {
            Command::Aprd | Command::Apwr | Command::Aprw => {
                let here = datagram.station() == 0;
                datagram.set_station(datagram.station().wrapping_add(1));
                here
            },
            Command::Fprd | Command::Fpwr | Command::Fprw => datagram.station() == self.station,
            Command::Brd | Command::Bwr | Command::Brw => true,
            _ => false,
        };
        assert(addressed == slave.addressed(d));
        if !addressed {
            return ;
        }
        let offset = datagram.offset();
        let acted = if datagram.command.writes() {
            self.write(offset, datagram.data.as_slice())
        } else {
            self.read(offset, &mut datagram.data)
        };
        if acted {
            datagram.working_counter = datagram.working_counter.wrapping_add(1);
        }
        assert(datagram@ =~= slave.pass(d).1);
    }

    fn read(&mut self, offset: u16, data: &mut Vec<u8>) -> (acted: bool)
        ensures
            match old(self)@.memory(offset) {
                Some(bytes) => {
                    &&& acted
                    &&& final(data)@ == fitted(bytes, old(data)@.len())
                    &&& final(self)@ == if offset == TRANSMIT_MAILBOX {
                        SlaveView { outbox: None, ..old(self)@ }
                    } else {
                        old(self)@
                    }
                },
                None => !acted && final(data)@ == old(data)@ && final(self)@ == old(self)@,
            },
    {
        let ghost size = data@.len();
        let mut bytes: Vec<u8> = Vec::new();
        match offset {
            STATION_ADDRESS => {
                put_u16(&mut bytes, self.station);
                assert(bytes@ =~= le16(self.station as int));
            },
            AL_STATUS => {
                put_u16(&mut bytes, OPERATIONAL);
                assert(bytes@ =~= le16(OPERATIONAL as int));
            },
            TRANSMIT_MAILBOX => match self.transmit_mailbox.take() {
                Some(message) => {
                    bytes = message;
                },
                None => {
                    return false;
                },
            },
            _ => {
                return false;
            },
        }
        let n = data.len();
        for i in 0..n
            invariant
                data@.len() == n,
                forall|j: int| 0 <= j < i ==> data@[j] == fitted(bytes@, n as nat)[j],
        {
            data[i] = if i < bytes.len() { bytes[i] } else { 0 };
        }
        assert(data@ =~= fitted(bytes@, size));
        true
    }

    fn write(&mut self, offset: u16, data: &[u8]) -> (acted: bool)
        ensures
            acted == (offset == RECEIVE_MAILBOX && data@.len() <= MAILBOX_SIZE),
            final(self)@ == if acted {
                old(self)@.receive(data@)
            } else {
                old(self)@
            },
    {
        if offset != RECEIVE_MAILBOX || data.len() > MAILBOX_SIZE {
            return false;
        }
        let ghost slave = self@;
        proof {
            reveal(SlaveView::receive);
        }
        let answer = match Message::decode(data) {
            Ok(message) => {
                proof {
                    lemma_answer_encodes(slave, message@.sdo);
                }
                Message { counter: message.counter, sdo: self.serve(message.sdo) }
            },
            Err(_) => Message { counter: 0, sdo: abort(0, 0, ABORT_COMMAND) },
        };
        match answer.encode() {
            Ok(bytes) => {
                self.transmit_mailbox = Some(bytes);
            },
            Err(_) => {},
        }
        assert(self@ =~= slave.receive(data@));
        true
    }

    fn serve(&mut self, request: Sdo) -> (answer: Sdo)
        ensures
            (final(self)@, answer@) == old(self)@.serve(request@),
    {
        proof {
            reveal(SlaveView::serve);
        }
        match request {
            Sdo::InitiateDownload { index, subindex, opening } => match opening {
                Opening::Expedited { data } => self.open_download(
                    index,
                    subindex,
                    data.len(),
                    data,
                ),
                Opening::Sized { size, data } => self.open_download(
                    index,
                    subindex,
                    size as usize,
                    data,
                ),
            },
            Sdo::DownloadSegment { toggle, data, last } => self.segment(
                toggle,
                data.as_slice(),
                last,
            ),
            Sdo::InitiateUpload { index, subindex } => self.open_upload(index, subindex),
            Sdo::UploadSegment { toggle } => self.next_segment(toggle),
            _ => {
                self.download = None;
                self.upload = None;
                abort(0, 0, ABORT_COMMAND)
            },
        }
    }

    fn open_download(&mut self, index: u16, sub: u8, size: usize, data: Vec<u8>) -> (answer: Sdo)
        ensures
            (final(self)@, answer@) == old(self)@.open_download(index, sub, size as nat, data@),
    {
        if self.object(index, sub).is_none() {
            return abort(index, sub, ABORT_NO_OBJECT);
        }
        if data.len() >= size && data.len() <= INITIATE_DATA {
            let ghost all = data@;
            let mut data = data;
            data.truncate(size);
            assert(data@ =~= all.take(size as int));
            self.store(index, sub, data);
        } else {
            self.download = Some(Taking { index, subindex: sub, toggle: false, bytes: data });
        }
        Sdo::DownloadAccepted { index, subindex: sub }
    }

    fn segment(&mut self, toggle: bool, data: &[u8], last: bool) -> (answer: Sdo)
        ensures
            (final(self)@, answer@) == old(self)@.segment(toggle, data@, last),
    {
        match self.download.take() {
            None => abort(0, 0, ABORT_COMMAND),
            Some(transfer) => {
                if toggle != transfer.toggle {
                    return abort(transfer.index, transfer.subindex, ABORT_TOGGLE);
                }
                let mut transfer = transfer;
                transfer.toggle = !toggle;
                put_bytes(&mut transfer.bytes, data);
                if last {
                    self.store(transfer.index, transfer.subindex, transfer.bytes);
                } else {
                    self.download = Some(transfer);
                }
                Sdo::SegmentAccepted { toggle }
            },
        }
    }

    fn open_upload(&mut self, index: u16, sub: u8) -> (answer: Sdo)
        ensures
            (final(self)@, answer@) == old(self)@.open_upload(index, sub),
    {
        let bytes = match self.object(index, sub) {
            Some(bytes) => part(bytes, 0, bytes.len()),
            None => {
                return abort(index, sub, ABORT_NO_OBJECT);
            },
        };
        assert(bytes@ =~= self@.objects[(index, sub)]);
        let size = if bytes.len() <= u32::MAX as usize { bytes.len() as u32 } else { u32::MAX };
        let first = if bytes.len() <= INITIATE_DATA { bytes.len() } else { INITIATE_DATA };
        let data = part(bytes.as_slice(), 0, first);
        assert(bytes.len() <= INITIATE_DATA ==> data@ =~= bytes@);
        if first < bytes.len() {
            self.upload = Some(Giving { index, subindex: sub, toggle: false, bytes, at: first });
        }
        Sdo::UploadOpened { index, subindex: sub, opening: Opening::Sized { size, data } }
    }

    fn next_segment(&mut self, toggle: bool) -> (answer: Sdo)
        ensures
            (final(self)@, answer@) == old(self)@.next_segment(toggle),
    {
        match self.upload.take() {
            None => abort(0, 0, ABORT_COMMAND),
            Some(transfer) => {
                if toggle != transfer.toggle {
                    return abort(transfer.index, transfer.subindex, ABORT_TOGGLE);
                }
                proof {
                    use_type_invariant(&transfer);
                }
                let ghost left = transfer@.bytes;
                let last = transfer.bytes.len() - transfer.at <= SEGMENT_DATA;
                let end = if last { transfer.bytes.len() } else { transfer.at + SEGMENT_DATA };
                let data = part(transfer.bytes.as_slice(), transfer.at, end);
                assert(data@ =~= if last {
                    left
                } else {
                    left.take(SEGMENT_DATA as int)
                });
                if !last {
                    let next = Giving { toggle: !toggle, at: end, ..transfer };
                    assert(next@.bytes =~= left.skip(SEGMENT_DATA as int));
                    self.upload = Some(next);
                }
                Sdo::UploadData { toggle, data, last }
            },
        }
    }
}

/// Whatever is asked, the answer has a wire form.
proof fn lemma_answer_encodes(slave: SlaveView, request: SdoView)
    ensures
        slave.serve(request).1.encoded() is Ok,
{
    reveal(SlaveView::serve);
}

/// A slave keeps its station, and a datagram its command, mark, interrupt and
/// the length of its data; only the offset half of the address is sure to stay.
pub proof fn law_pass_keeps(slave: SlaveView, d: DatagramView)
    ensures
        slave.pass(d).0.station == slave.station,
        slave.pass(d).1.command == d.command,
        slave.pass(d).1.index == d.index,
        slave.pass(d).1.interrupt == d.interrupt,
        slave.pass(d).1.offset() == d.offset(),
        slave.pass(d).1.data.len() == d.data.len(),
{
    reveal(SlaveView::pass);
    law_receive_keeps(slave, d.data);
}

/// A slave keeps its station, whatever is written into its receive mailbox, and
/// then has an answer.
pub proof fn law_receive_keeps(slave: SlaveView, bytes: Seq<u8>)
    ensures
        slave.receive(bytes).station == slave.station,
        slave.receive(bytes).outbox is Some,
{
    reveal(SlaveView::serve);
    reveal(SlaveView::receive);
}

/// A slave a datagram does not address stays as it was, and leaves the data and
/// the working counter alone.
pub proof fn law_pass_by(slave: SlaveView, d: DatagramView)
    requires
        !slave.addressed(d),
    ensures
        slave.pass(d).0 == slave,
        slave.pass(d).1.data == d.data,
        slave.pass(d).1.working_counter == d.working_counter,
{
    reveal(SlaveView::pass);
}

/// Every slave a position command passes increments its position, whether it
/// acted or not.
pub proof fn law_position_is_incremented(slave: SlaveView, d: DatagramView)
    requires
        d.command is Aprd || d.command is Apwr || d.command is Aprw,
    ensures
        slave.pass(d).1.station() == (d.station() + 1) % 0x1_0000,
{
    reveal(SlaveView::pass);
}

/// Whatever is asked, the answer is one of a server's, it has a wire form, and
/// the mailbox holds it.
pub proof fn law_answer_fits_the_mailbox(slave: SlaveView, request: SdoView, counter: u8)
    ensures
        !slave.serve(request).1.is_request(),
        slave.serve(request).1.encoded() is Ok,
        (MessageView { counter, sdo: slave.serve(request).1 }).bytes().len() <= MAILBOX_SIZE,
{
    reveal(SdoView::bytes);
    reveal(SlaveView::serve);
}

/// An abort leaves the dictionary as it was.
pub proof fn law_abort_stores_nothing(slave: SlaveView, request: SdoView)
    requires
        slave.serve(request).1 is Abort,
    ensures
        slave.serve(request).0.objects == slave.objects,
{
    reveal(SlaveView::serve);
}

/// What a well-formed request is written as, is answered under its counter in
/// the transmit mailbox with what the slave serves, and a read of the whole
/// mailbox takes that answer out and can be decoded.
pub proof fn law_mailbox_answers(slave: SlaveView, question: MessageView)
    requires
        question.encoded() is Ok,
        question.counter < 8,
        question.bytes().len() <= MAILBOX_SIZE,
    ensures
        ({
            let (served, answer) = slave.serve(question.sdo);
            let after = slave.receive(question.bytes());
            &&& after == SlaveView { outbox: after.outbox, ..served }
            &&& after.outbox is Some
            &&& message_in(fitted(after.outbox.unwrap(), MAILBOX_SIZE as nat)) == Ok::<
                MessageView,
                Error,
            >(MessageView { counter: question.counter, sdo: answer })
        }),
{
    reveal(SlaveView::receive);
    let (served, answer) = slave.serve(question.sdo);
    let reply = MessageView { counter: question.counter, sdo: answer };
    law_message_decodes_back(question, seq![]);
    assert(question.bytes() + seq![] =~= question.bytes());
    law_answer_fits_the_mailbox(slave, question.sdo, question.counter);
    let rest = zeros((MAILBOX_SIZE - reply.bytes().len()) as nat);
    assert(fitted(reply.bytes(), MAILBOX_SIZE as nat) =~= reply.bytes() + rest);
    law_message_decodes_back(reply, rest);
}

} // verus!
