use ethercat::mailbox::{
    coe, encode_message, unwrap, wrap, INITIATE_DATA, MAILBOX_SIZE, SEGMENT_DATA,
};
use ethercat::sdo::{Opening, Sdo, ABORT_NO_OBJECT};
use ethercat::{Error, Message};

fn round(sdo: Sdo) {
    let message = Message { counter: 5, sdo };
    let bytes = message.encode().expect("encode");
    assert!(bytes.len() <= MAILBOX_SIZE, "fits the mailbox");
    assert_eq!(Message::decode(&bytes).expect("decode"), message);
}

#[test]
fn a_download_opens_with_its_size_and_first_bytes_then_segments() {
    let open = Sdo::InitiateDownload {
        index: 0x2000,
        subindex: 0,
        opening: Opening::Sized {
            size: 1000,
            data: vec![7; INITIATE_DATA],
        },
    };
    let bytes = Message {
        counter: 1,
        sdo: open.clone(),
    }
    .encode()
    .expect("encode");
    assert_eq!(bytes.len(), MAILBOX_SIZE);
    assert_eq!(
        &bytes[..6],
        &[0xfa, 0x00, 0, 0, 0, 0x13],
        "250 bytes, CoE, counter 1"
    );
    assert_eq!(&bytes[6..8], &[0x00, 0x20], "SDO request");
    assert_eq!(&bytes[8..16], &[0x21, 0x00, 0x20, 0x00, 0xe8, 0x03, 0, 0]);
    round(open);
    round(Sdo::DownloadAccepted {
        index: 0x2000,
        subindex: 0,
    });
    let segment = Message {
        counter: 1,
        sdo: Sdo::DownloadSegment {
            toggle: true,
            data: vec![9; SEGMENT_DATA],
            last: true,
        },
    };
    assert_eq!(segment.encode().expect("encode").len(), MAILBOX_SIZE);
    round(segment.sdo);
    round(Sdo::SegmentAccepted { toggle: true });
}

#[test]
fn an_upload_is_the_mirror_and_an_abort_carries_its_reason() {
    round(Sdo::InitiateUpload {
        index: 0x1018,
        subindex: 1,
    });
    round(Sdo::UploadOpened {
        index: 0x1018,
        subindex: 1,
        opening: Opening::Sized {
            size: 4,
            data: vec![1, 2, 3, 4],
        },
    });
    round(Sdo::UploadSegment { toggle: false });
    round(Sdo::UploadData {
        toggle: false,
        data: Vec::new(),
        last: true,
    });
    let abort = Sdo::Abort {
        index: 0x9999,
        subindex: 0,
        code: ABORT_NO_OBJECT,
    };
    let bytes = Message {
        counter: 2,
        sdo: abort.clone(),
    }
    .encode()
    .expect("encode");
    assert_eq!(&bytes[6..8], &[0x00, 0x30], "SDO response");
    round(abort);
}

#[test]
fn what_is_not_a_coe_mailbox_is_refused() {
    assert!(Message::decode(&[0; 7]).is_err(), "short");
    assert!(
        Message::decode(&[0x09, 0, 0, 0, 0, 0x03, 0, 0x20]).is_err(),
        "past the end"
    );
    assert!(
        Message::decode(&[0x02, 0, 0, 0, 0, 0x02, 0, 0x20]).is_err(),
        "EoE"
    );
    assert!(
        Message::decode(&[0x02, 0, 0, 0, 0, 0x03, 0, 0x10]).is_err(),
        "emergency"
    );
    assert!(
        Message::decode(&[0x02, 0, 0, 0, 0, 0x03, 0, 0x20]).is_err(),
        "no specifier"
    );
    let mut five = vec![0x0a, 0, 0, 0, 0, 0x03, 0, 0x20, 0xa0];
    five.extend_from_slice(&[0; 7]);
    assert!(Message::decode(&five).is_err(), "specifier 5");
    assert!(
        Message::decode(&[0x03, 0, 0, 0, 0, 0x03, 0, 0x20, 0x21]).is_err(),
        "short initiate"
    );
}

#[test]
fn every_refusal_of_a_mailbox_says_why() {
    assert_eq!(Message::decode(&[0; 7]), Err(Error::ShortMailbox));
    assert_eq!(
        Message::decode(&[0x09, 0, 0, 0, 0, 0x03, 0, 0x20]),
        Err(Error::MailboxPastEnd)
    );
    assert_eq!(
        Message::decode(&[0x01, 0, 0, 0, 0, 0x03, 0, 0x20]),
        Err(Error::MailboxPastEnd),
        "a length that does not cover the CoE header"
    );
    assert_eq!(
        Message::decode(&[0x02, 0, 0, 0, 0, 0x02, 0, 0x20]),
        Err(Error::NotCoe)
    );
    assert_eq!(
        Message::decode(&[0x02, 0, 0, 0, 0, 0x03, 0, 0x10]),
        Err(Error::NotSdo(1))
    );
    assert_eq!(
        Message::decode(&[0x02, 0, 0, 0, 0, 0x03, 0, 0x20]),
        Err(Error::ShortSdo)
    );
    let mut five = vec![0x0a, 0, 0, 0, 0, 0x03, 0, 0x20, 0xa0];
    five.extend_from_slice(&[0; 7]);
    assert_eq!(Message::decode(&five), Err(Error::NoSuchSpecifier(5)));
    five[8] = 0x20;
    assert_eq!(Message::decode(&five), Err(Error::NoSize));
}

#[test]
fn a_wrapped_body_is_unwrapped_under_its_counter() {
    let bytes = wrap(9, false, &[0xc0, 0xff, 0xee]);
    assert_eq!(bytes, [5, 0, 0, 0, 0, 0x13, 0, 0x30, 0xc0, 0xff, 0xee]);
    let mut padded = bytes.clone();
    padded.extend_from_slice(&[0; 64]);
    assert_eq!(unwrap(&padded), Ok((1, false, vec![0xc0, 0xff, 0xee])));
    assert_eq!(
        unwrap(&[2, 0, 0, 0, 0, 0xf3, 0, 0x20]),
        Ok((15, true, Vec::new())),
        "four bits of counter are read"
    );
}

#[test]
fn what_goes_expedited_is_one_to_four_bytes() {
    for n in 1..=4usize {
        round(Sdo::InitiateDownload {
            index: 0x6040,
            subindex: 0,
            opening: Opening::Expedited { data: vec![3; n] },
        });
    }
    for n in [0usize, 5] {
        let sdo = Sdo::UploadOpened {
            index: 0x6040,
            subindex: 0,
            opening: Opening::Expedited { data: vec![3; n] },
        };
        assert_eq!(sdo.encode(), Err(Error::NotExpedited(n)));
        assert_eq!(encode_message(1, &sdo), Err(Error::NotExpedited(n)));
    }
    assert_eq!(
        Sdo::InitiateDownload {
            index: 0x6040,
            subindex: 0,
            opening: Opening::Expedited { data: vec![6, 0] },
        }
        .encode(),
        Ok(vec![0x2b, 0x40, 0x60, 0x00, 6, 0, 0, 0])
    );
}

#[test]
fn a_coe_sdo_carries_what_the_mailbox_leaves() {
    let window = coe();
    assert_eq!(window.expedited, 0);
    assert_eq!(window.initiate, 240);
    assert_eq!(window.segment, 247);
}

#[test]
fn a_request_and_its_response_are_told_apart_by_the_service() {
    assert!(Sdo::InitiateUpload {
        index: 1,
        subindex: 2
    }
    .is_request());
    assert!(!Sdo::SegmentAccepted { toggle: false }.is_request());
    let ask = encode_message(7, &Sdo::UploadSegment { toggle: true }).expect("encode");
    assert_eq!(ask, [10, 0, 0, 0, 0, 0x73, 0, 0x20, 0x70, 0, 0, 0, 0, 0, 0, 0]);
}
