//! The client's side of a transfer: what to ask next, given what was answered.
//!
//! An object is written in an opening that carries its size and its first
//! bytes, then in segments under a toggle; it is read the same way.

use vstd::prelude::*;

use crate::error::Error;
use crate::sdo::{Opening, OpeningView, Sdo, SdoView, Window};
use crate::wire::{part, put_bytes};

verus! {

/// A write in progress: the object, the bytes, how many of them have been
/// asked to be taken, how many one segment carries, and the toggle of the
/// segment that waits for its answer; none while the opening does.
pub struct Download {
    index: u16,
    subindex: u8,
    bytes: Vec<u8>,
    at: usize,
    segment: usize,
    toggle: Option<bool>,
}

/// Where a write stands.
#[verifier::ext_equal]
pub struct DownloadView {
    pub index: u16,
    pub subindex: u8,
    pub bytes: Seq<u8>,
    pub at: nat,
    pub segment: nat,
    pub toggle: Option<bool>,
}

impl View for Download {
    type V = DownloadView;

    closed spec fn view(&self) -> DownloadView {
        DownloadView {
            index: self.index,
            subindex: self.subindex,
            bytes: self.bytes@,
            at: self.at as nat,
            segment: self.segment as nat,
            toggle: self.toggle,
        }
    }
}

/// The toggle after `toggle`: the first segment's is clear, and it alternates.
pub open spec fn next_toggle(toggle: Option<bool>) -> bool {
    match toggle {
        None => false,
        Some(toggle) => !toggle,
    }
}

/// The smaller of two numbers.
pub open spec fn least(a: nat, b: nat) -> nat {
    if a < b {
        a
    } else {
        b
    }
}

/// What a write opens with: all of the object where it may go expedited, else
/// its size and its first bytes.
pub open spec fn opening_of(window: Window, bytes: Seq<u8>) -> OpeningView {
    if 1 <= bytes.len() <= window.expedited && bytes.len() <= 4 {
        OpeningView::Expedited { data: bytes }
    } else {
        OpeningView::Sized {
            size: bytes.len() as u32,
            data: bytes.take(least(bytes.len(), window.initiate as nat) as int),
        }
    }
}

/// How many bytes an opening carries.
pub open spec fn carried(opening: OpeningView) -> nat {
    match opening {
        OpeningView::Expedited { data } => data.len(),
        OpeningView::Sized { data, .. } => data.len(),
    }
}

/// Why an answer that was not waited for ends a transfer.
pub open spec fn refused_with(answer: SdoView) -> Error {
    match answer {
        SdoView::Abort { code, .. } => Error::Aborted(code),
        _ => Error::OutOfTurn,
    }
}

impl DownloadView {
    /// A write of `bytes` to `index:subindex` that has been opened.
    pub open spec fn opened(window: Window, index: u16, subindex: u8, bytes: Seq<u8>) -> Self {
        DownloadView {
            index,
            subindex,
            bytes,
            at: carried(opening_of(window, bytes)),
            segment: window.segment as nat,
            toggle: None,
        }
    }

    /// No more is asked to be taken than there is, and a segment takes some.
    pub open spec fn wf(self) -> bool {
        self.at <= self.bytes.len() && self.segment > 0
    }

    /// True of the answer that takes what was asked to be taken.
    pub open spec fn takes(self, answer: SdoView) -> bool {
        match self.toggle {
            None => answer == SdoView::DownloadAccepted {
                index: self.index,
                subindex: self.subindex,
            },
            Some(toggle) => answer == SdoView::SegmentAccepted { toggle },
        }
    }

    /// Where the next segment ends.
    pub open spec fn end(self) -> nat {
        least(self.bytes.len(), self.at + self.segment)
    }

    /// The next segment.
    pub open spec fn next(self) -> SdoView {
        SdoView::DownloadSegment {
            toggle: next_toggle(self.toggle),
            data: self.bytes.subrange(self.at as int, self.end() as int),
            last: self.end() == self.bytes.len(),
        }
    }

    /// The write with the next segment asked to be taken.
    pub open spec fn advanced(self) -> DownloadView {
        DownloadView { at: self.end(), toggle: Some(next_toggle(self.toggle)), ..self }
    }
}

impl Download {
    /// No more is asked to be taken than there is, and a segment takes some.
    #[verifier::type_invariant]
    spec fn within(self) -> bool {
        self.at <= self.bytes@.len() && self.segment > 0
    }

    /// A write of `bytes` to `index:subindex`, and what it opens with. More
    /// bytes than an SDO's size says are refused.
    pub fn open(window: &Window, index: u16, subindex: u8, bytes: &[u8]) -> (r: Result<
        (Download, Sdo),
        Error,
    >)
        requires
            window.segment > 0,
        ensures
            match r {
                Ok((download, ask)) => {
                    &&& bytes@.len() <= u32::MAX
                    &&& download@.wf()
                    &&& download@ == DownloadView::opened(*window, index, subindex, bytes@)
                    &&& ask@ == SdoView::InitiateDownload {
                        index,
                        subindex,
                        opening: opening_of(*window, bytes@),
                    }
                },
                Err(e) => bytes@.len() > u32::MAX && e == Error::ObjectTooLong(bytes.len()),
            },
    {
        if bytes.len() > u32::MAX as usize {
            return Err(Error::ObjectTooLong(bytes.len()));
        }
        let all = part(bytes, 0, bytes.len());
        assert(all@ =~= bytes@);
        let expedited = 1 <= bytes.len() && bytes.len() <= window.expedited && bytes.len() <= 4;
        let all_of_it = expedited || bytes.len() < window.initiate;
        let at = if all_of_it { bytes.len() } else { window.initiate };
        let data = part(bytes, 0, at);
        let opening = if expedited {
            assert(data@ =~= bytes@);
            Opening::Expedited { data }
        } else {
            Opening::Sized { size: bytes.len() as u32, data }
        };
        let download = Download {
            index,
            subindex,
            bytes: all,
            at,
            segment: window.segment,
            toggle: None,
        };
        Ok((download, Sdo::InitiateDownload { index, subindex, opening }))
    }

    /// What to ask after `answer`: the next segment, or nothing where the object
    /// is written. A slave that aborts or answers out of turn ends the write.
    pub fn answered(&mut self, answer: &Sdo) -> (r: Result<Option<Sdo>, Error>)
        ensures
            old(self)@.wf(),
            final(self)@.wf(),
            match r {
                Ok(Some(ask)) => {
                    &&& old(self)@.takes(answer@)
                    &&& old(self)@.at < old(self)@.bytes.len()
                    &&& ask@ == old(self)@.next()
                    &&& final(self)@ == old(self)@.advanced()
                },
                Ok(None) => {
                    &&& old(self)@.takes(answer@)
                    &&& old(self)@.at == old(self)@.bytes.len()
                    &&& final(self)@ == old(self)@
                },
                Err(e) => {
                    &&& !old(self)@.takes(answer@)
                    &&& final(self)@ == old(self)@
                    &&& e == refused_with(answer@)
                },
            },
    {
        proof {
            use_type_invariant(&*self);
        }
        match answer {
            Sdo::Abort { code, .. } => {
                return Err(Error::Aborted(*code));
            },
            Sdo::DownloadAccepted { index, subindex } => {
                if self.toggle.is_some() || *index != self.index || *subindex != self.subindex {
                    return Err(Error::OutOfTurn);
                }
            },
            Sdo::SegmentAccepted { toggle } => match self.toggle {
                Some(asked) => if *toggle != asked {
                    return Err(Error::OutOfTurn);
                },
                None => {
                    return Err(Error::OutOfTurn);
                },
            },
            _ => {
                return Err(Error::OutOfTurn);
            },
        }
        if self.at == self.bytes.len() {
            return Ok(None);
        }
        let left = self.bytes.len() - self.at;
        let last = left <= self.segment;
        let end = if last { self.bytes.len() } else { self.at + self.segment };
        let data = part(self.bytes.as_slice(), self.at, end);
        let toggle = match self.toggle {
            Some(toggle) => !toggle,
            None => false,
        };
        self.at = end;
        self.toggle = Some(toggle);
        Ok(Some(Sdo::DownloadSegment { toggle, data, last }))
    }
}

/// A read in progress: the object, what has come of it, and the toggle of the
/// segment that is waited for; none while the opening is.
pub struct Upload {
    index: u16,
    subindex: u8,
    bytes: Vec<u8>,
    toggle: Option<bool>,
}

/// Where a read stands.
#[verifier::ext_equal]
pub struct UploadView {
    pub index: u16,
    pub subindex: u8,
    pub bytes: Seq<u8>,
    pub toggle: Option<bool>,
}

impl View for Upload {
    type V = UploadView;

    closed spec fn view(&self) -> UploadView {
        UploadView {
            index: self.index,
            subindex: self.subindex,
            bytes: self.bytes@,
            toggle: self.toggle,
        }
    }
}

impl UploadView {
    /// A read of `index:subindex` that has been opened.
    pub open spec fn opened(index: u16, subindex: u8) -> Self {
        UploadView { index, subindex, bytes: seq![], toggle: None }
    }

    /// What has come of the object with `answer`, and whether that is all of it;
    /// nothing where it is not the answer that was waited for. An opening that
    /// carries its size carries all of the object where it carries that many
    /// bytes.
    pub open spec fn takes(self, answer: SdoView) -> Option<(Seq<u8>, bool)> {
        match (self.toggle, answer) {
            (None, SdoView::UploadOpened { index, subindex, opening }) => if index == self.index
                && subindex == self.subindex {
                match opening {
                    OpeningView::Expedited { data } => Some((data, true)),
                    OpeningView::Sized { size, data } => if data.len() >= size {
                        Some((data.take(size as int), true))
                    } else {
                        Some((data, false))
                    },
                }
            } else {
                None
            },
            (Some(asked), SdoView::UploadData { toggle, data, last }) => if toggle == asked {
                Some((self.bytes + data, last))
            } else {
                None
            },
            _ => None,
        }
    }
}

impl Upload {
    /// A read of `index:subindex`, and what it opens with.
    pub fn open(index: u16, subindex: u8) -> (r: (Upload, Sdo))
        ensures
            r.0@ == UploadView::opened(index, subindex),
            r.1@ == (SdoView::InitiateUpload { index, subindex }),
    {
        let upload = Upload { index, subindex, bytes: Vec::new(), toggle: None };
        assert(upload@.bytes =~= seq![]);
        (upload, Sdo::InitiateUpload { index, subindex })
    }

    /// What to ask after `answer`: the next segment, or nothing where the object
    /// is read. A slave that aborts or answers out of turn ends the read.
    pub fn answered(&mut self, answer: Sdo) -> (r: Result<Option<Sdo>, Error>)
        ensures
            match old(self)@.takes(answer@) {
                Some((bytes, true)) => {
                    &&& r == Ok::<Option<Sdo>, Error>(None)
                    &&& final(self)@ == UploadView { bytes, ..old(self)@ }
                },
                Some((bytes, false)) => {
                    let toggle = next_toggle(old(self)@.toggle);
                    &&& r == Ok::<Option<Sdo>, Error>(Some(Sdo::UploadSegment { toggle }))
                    &&& final(self)@ == UploadView { bytes, toggle: Some(toggle), ..old(self)@ }
                },
                None => {
                    &&& final(self)@ == old(self)@
                    &&& r == Err::<Option<Sdo>, Error>(refused_with(answer@))
                },
            },
    {
        match answer {
            Sdo::Abort { code, .. } => {
                return Err(Error::Aborted(code));
            },
            Sdo::UploadOpened { index, subindex, opening } => {
                if self.toggle.is_some() || index != self.index || subindex != self.subindex {
                    return Err(Error::OutOfTurn);
                }
                match opening {
                    Opening::Expedited { data } => {
                        self.bytes = data;
                        return Ok(None);
                    },
                    Opening::Sized { size, data } => {
                        let ghost all = data@;
                        let size = size as usize;
                        let whole = data.len() >= size;
                        self.bytes = data;
                        if whole {
                            self.bytes.truncate(size);
                            assert(self.bytes@ =~= all.take(size as int));
                            return Ok(None);
                        }
                    },
                }
            },
            Sdo::UploadData { toggle, data, last } => match self.toggle {
                Some(asked) => {
                    if toggle != asked {
                        return Err(Error::OutOfTurn);
                    }
                    put_bytes(&mut self.bytes, data.as_slice());
                    if last {
                        return Ok(None);
                    }
                },
                None => {
                    return Err(Error::OutOfTurn);
                },
            },
            _ => {
                return Err(Error::OutOfTurn);
            },
        }
        let toggle = match self.toggle {
            Some(toggle) => !toggle,
            None => false,
        };
        self.toggle = Some(toggle);
        Ok(Some(Sdo::UploadSegment { toggle }))
    }

    /// What has come of the object.
    pub fn into_bytes(self) -> (r: Vec<u8>)
        ensures
            r@ == self@.bytes,
    {
        self.bytes
    }
}

} // verus!
