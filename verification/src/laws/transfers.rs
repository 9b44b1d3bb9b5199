//! What a client asks, given what was answered.

use vstd::prelude::*;

use crate::client::{Download, Upload};
use crate::sdo::{Opening, Sdo, Window};
use crate::Error;

verus! {

/// A write is opened with its object. What fits the window and four bytes goes
/// whole; else the size goes, and as many bytes behind it as there is room for.
pub proof fn law_a_write_opens_with_the_first_bytes(
    window: &Window,
    index: u16,
    subindex: u8,
    bytes: &[u8],
    r: Result<(Download, Sdo), Error>,
)
    requires
        window.segment > 0,
        call_ensures(Download::open, (window, index, subindex, bytes), r),
    ensures
        bytes@.len() > u32::MAX ==> r == Err::<(Download, Sdo), Error>(
            Error::ObjectTooLong(bytes.len()),
        ),
        bytes@.len() <= u32::MAX ==> r is Ok,
        r matches Ok((download, ask)) ==> {
            let n = bytes@.len();
            let whole = 1 <= n <= 4 && n <= window.expedited;
            &&& ask matches Sdo::InitiateDownload { index: i, subindex: s, opening }
            &&& i == index && s == subindex
            &&& whole ==> (opening matches Opening::Expedited { data } && data@ == bytes@
                && download@.at == n)
            &&& !whole ==> (opening matches Opening::Sized { size, data } && {
                &&& size == n
                &&& n <= window.initiate ==> data@ == bytes@
                &&& n > window.initiate ==> data@ == bytes@.subrange(0, window.initiate as int)
                &&& download@.at == data@.len()
            })
            &&& download@.index == index
            &&& download@.subindex == subindex
            &&& download@.bytes == bytes@
            &&& download@.segment == window.segment
            &&& download@.toggle is None
        },
{
    if let Ok((download, ask)) = r {
        if bytes@.len() <= window.initiate {
            assert(bytes@.take(bytes@.len() as int) =~= bytes@);
        }
    }
}

/// A write that has been accepted goes on with the next bytes, as many as a segment
/// carries, under a toggle that is clear at first and then alternates; the last of
/// them go in the last segment, and then nothing is left to ask.
pub proof fn law_a_write_goes_on_with_the_next_bytes(
    download: &mut Download,
    answer: &Sdo,
    r: Result<Option<Sdo>, Error>,
)
    requires
        call_ensures(Download::answered, (download, answer), r),
        match old(download)@.toggle {
            None => *answer == (Sdo::DownloadAccepted {
                index: old(download)@.index,
                subindex: old(download)@.subindex,
            }),
            Some(asked) => *answer == (Sdo::SegmentAccepted { toggle: asked }),
        },
    ensures
        ({
            let was = old(download)@;
            let now = final(download)@;
            let left = was.bytes.len() - was.at;
            &&& now.index == was.index && now.subindex == was.subindex
            &&& now.bytes == was.bytes && now.segment == was.segment
            &&& left == 0 ==> r == Ok::<Option<Sdo>, Error>(None) && now == was
            &&& left > 0 ==> {
                let n = if left <= was.segment {
                    left
                } else {
                    was.segment as int
                };
                &&& r matches Ok(Some(Sdo::DownloadSegment { toggle, data, last }))
                &&& data@ == was.bytes.subrange(was.at as int, was.at + n)
                &&& last == (left <= was.segment)
                &&& toggle == (was.toggle == Some(false))
                &&& now.toggle == Some(toggle)
                &&& now.at == was.at + n
            }
        }),
{
}

/// A write that is aborted ends with the code of the abort, and one that is answered
/// out of turn ends too: by another object, with another toggle, or with an answer
/// to something else.
pub proof fn law_a_write_ends_where_it_is_not_accepted(
    download: &mut Download,
    answer: &Sdo,
    r: Result<Option<Sdo>, Error>,
)
    requires
        call_ensures(Download::answered, (download, answer), r),
    ensures
        *answer matches Sdo::Abort { code, .. } ==> r == Err::<Option<Sdo>, Error>(
            Error::Aborted(code),
        ),
        *answer matches Sdo::DownloadAccepted { index, subindex } ==> (old(download)@.toggle
            is Some || index != old(download)@.index || subindex != old(download)@.subindex
            ==> r == Err::<Option<Sdo>, Error>(Error::OutOfTurn)),
        *answer matches Sdo::SegmentAccepted { toggle } ==> (old(download)@.toggle != Some(toggle)
            ==> r == Err::<Option<Sdo>, Error>(Error::OutOfTurn)),
        !(*answer is Abort || *answer is DownloadAccepted || *answer is SegmentAccepted) ==> r
            == Err::<Option<Sdo>, Error>(Error::OutOfTurn),
        r is Err ==> final(download)@ == old(download)@,
{
}

/// A read is opened with its object, and nothing has come of it.
pub proof fn law_a_read_opens_with_its_object(index: u16, subindex: u8, r: (Upload, Sdo))
    requires
        call_ensures(Upload::open, (index, subindex), r),
    ensures
        r.1 matches Sdo::InitiateUpload { index: i, subindex: s } && i == index && s == subindex,
        r.0@.index == index,
        r.0@.subindex == subindex,
        r.0@.bytes.len() == 0,
        r.0@.toggle is None,
{
}

/// A read that is answered with the object whole has exactly the data of that
/// answer, byte for byte, and nothing is left to ask.
pub proof fn law_a_read_answered_whole_has_that_data(
    upload: &mut Upload,
    data: Vec<u8>,
    r: Result<Option<Sdo>, Error>,
    bytes: Vec<u8>,
)
    requires
        old(upload)@.toggle is None,
        call_ensures(
            Upload::answered,
            (
                upload,
                Sdo::UploadOpened {
                    index: old(upload)@.index,
                    subindex: old(upload)@.subindex,
                    opening: Opening::Expedited { data },
                },
            ),
            r,
        ),
        call_ensures(Upload::into_bytes, (*final(upload),), bytes),
    ensures
        r == Ok::<Option<Sdo>, Error>(None),
        bytes@.len() == data@.len(),
        forall|i: int| 0 <= i < data@.len() ==> #[trigger] bytes@[i] == data@[i],
        final(upload)@.bytes == data@,
{
}

/// A read that is answered with the size of the object and all of it has as many
/// bytes as the size says, those that came first; with less than all of it, has what
/// came, and goes on with the first segment, whose toggle is clear.
pub proof fn law_a_read_answered_with_its_size(
    upload: &mut Upload,
    size: u32,
    data: Vec<u8>,
    r: Result<Option<Sdo>, Error>,
    bytes: Vec<u8>,
)
    requires
        old(upload)@.toggle is None,
        call_ensures(
            Upload::answered,
            (
                upload,
                Sdo::UploadOpened {
                    index: old(upload)@.index,
                    subindex: old(upload)@.subindex,
                    opening: Opening::Sized { size, data },
                },
            ),
            r,
        ),
        call_ensures(Upload::into_bytes, (*final(upload),), bytes),
    ensures
        final(upload)@.index == old(upload)@.index,
        final(upload)@.subindex == old(upload)@.subindex,
        data@.len() >= size ==> {
            &&& r == Ok::<Option<Sdo>, Error>(None)
            &&& bytes@.len() == size
            &&& forall|i: int| 0 <= i < size ==> #[trigger] bytes@[i] == data@[i]
        },
        data@.len() < size ==> {
            &&& r == Ok::<Option<Sdo>, Error>(Some(Sdo::UploadSegment { toggle: false }))
            &&& bytes@ == data@
            &&& final(upload)@.toggle == Some(false)
        },
{
}

/// A read goes on with what a segment brings, behind what has come, under a toggle
/// that alternates; the last segment ends it.
pub proof fn law_a_read_has_the_segments_in_order(
    upload: &mut Upload,
    toggle: bool,
    data: Vec<u8>,
    last: bool,
    r: Result<Option<Sdo>, Error>,
    bytes: Vec<u8>,
)
    requires
        old(upload)@.toggle == Some(toggle),
        call_ensures(Upload::answered, (upload, Sdo::UploadData { toggle, data, last }), r),
        call_ensures(Upload::into_bytes, (*final(upload),), bytes),
    ensures
        bytes@ == old(upload)@.bytes + data@,
        final(upload)@.bytes == bytes@,
        final(upload)@.index == old(upload)@.index,
        final(upload)@.subindex == old(upload)@.subindex,
        last ==> r == Ok::<Option<Sdo>, Error>(None),
        !last ==> r == Ok::<Option<Sdo>, Error>(Some(Sdo::UploadSegment { toggle: !toggle }))
            && final(upload)@.toggle == Some(!toggle),
{
}

/// A read that is aborted ends with the code of the abort, and one that is answered
/// out of turn ends too: by another object, with another toggle, or with an answer
/// to something else.
pub proof fn law_a_read_ends_where_it_is_not_answered(
    upload: &mut Upload,
    answer: Sdo,
    r: Result<Option<Sdo>, Error>,
)
    requires
        call_ensures(Upload::answered, (upload, answer), r),
    ensures
        answer matches Sdo::Abort { code, .. } ==> r == Err::<Option<Sdo>, Error>(
            Error::Aborted(code),
        ),
        answer matches Sdo::UploadOpened { index, subindex, .. } ==> (old(upload)@.toggle is Some
            || index != old(upload)@.index || subindex != old(upload)@.subindex ==> r == Err::<
            Option<Sdo>,
            Error,
        >(Error::OutOfTurn)),
        answer matches Sdo::UploadData { toggle, .. } ==> (old(upload)@.toggle != Some(toggle)
            ==> r == Err::<Option<Sdo>, Error>(Error::OutOfTurn)),
        !(answer is Abort || answer is UploadOpened || answer is UploadData) ==> r == Err::<
            Option<Sdo>,
            Error,
        >(Error::OutOfTurn),
        r is Err ==> final(upload)@ == old(upload)@,
{
}

} // verus!
