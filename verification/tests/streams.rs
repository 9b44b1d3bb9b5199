use ethercat::client::{Download, Upload};
use ethercat::datagram::ETHERTYPE;
use ethercat::error::no_object;
use ethercat::link::{Frame, Mac};
use ethercat::mailbox::{coe, TRANSMIT_MAILBOX};
use ethercat::sdo::{Opening, Sdo, Window, ABORT_NO_OBJECT};
use ethercat::slave::AL_STATUS;
use ethercat::target::{origin, resolve};
use ethercat::text::chars_of;
use ethercat::{Command, Datagram, Error, EtherCatTransport, Marks, Segment, Slave};

const MILLISECOND: u128 = 1_000_000;

fn pattern(n: usize) -> Vec<u8> {
    (0..n).map(|i| (i % 251) as u8).collect()
}

fn master_at(station: u16) -> EtherCatTransport {
    EtherCatTransport::new("loopback".to_string(), Mac([2, 0, 0, 0, 0, 1]), station)
}

#[test]
fn a_loopback_round_downloads_through_the_mailbox_and_uploads_back() {
    let (loopback, mut marks, mut ring) = EtherCatTransport::loopback();
    let arrived = loopback.round(&mut marks, &mut ring, b"one mailbox").expect("round");
    assert_eq!(arrived.bytes, b"one mailbox");
    assert_eq!(arrived.origin_uri, "ethercat://loopback/0x1001/0x2000/0");
    let long: Vec<u8> = (0..3000u32)
        .map(|n| u8::try_from(n % 256).unwrap_or(0))
        .collect();
    assert_eq!(
        loopback.round(&mut marks, &mut ring, &long).expect("segments").bytes,
        long
    );
    assert_eq!(loopback.name(), "ethercat");
    assert_eq!(loopback.count(&mut marks, &mut ring).expect("brd"), 1);
}

#[test]
fn the_loopback_returns_the_edges_whole() {
    let (loopback, mut marks, mut ring) = EtherCatTransport::loopback();
    let edges: Vec<(&str, Vec<u8>)> = vec![
        ("empty", Vec::new()),
        ("one zero", vec![0]),
        ("one 0xff", vec![0xff]),
        ("every byte", (0..=255u8).collect()),
        ("line ends", b"\r\n\r\n\n".to_vec()),
        ("one initiate", pattern(240)),
        ("one over", pattern(241)),
        ("one segment", pattern(487)),
        ("one over that", pattern(488)),
        ("two segments", pattern(734)),
        ("long", pattern(65_537)),
    ];
    for (name, bytes) in edges {
        let arrived = loopback
            .round(&mut marks, &mut ring, &bytes)
            .unwrap_or_else(|error| panic!("{name}: {}", error.message()));
        assert_eq!(arrived.bytes, bytes, "{name}");
    }
}

#[test]
fn a_target_names_the_station_and_object_and_what_is_not_there_is_refused() {
    let mut marks = Marks::new();
    let mut segment = Segment::new(vec![
        Slave::new(0x1001),
        Slave::new(0x1002).with_object(0x2001, 3, vec![0]),
    ]);
    let master = EtherCatTransport::new(
        "loopback".to_string(),
        Mac([2, 0, 0, 0, 0, 1]),
        0x1001,
    )
    .timing_out_after(100 * MILLISECOND);
    assert_eq!(master.count(&mut marks, &mut segment).expect("brd"), 2);
    master
        .send(&mut marks, &mut segment,
            "ethercat://loopback/0x1002/0x2001/3",
            &[1, 2, 3],
        )
        .expect("another station's object");
    assert_eq!(
        segment.with_slave(0x1002, |slave| slave.object(0x2001, 3).map(<[u8]>::to_vec)),
        Some(Some(vec![1, 2, 3]))
    );
    master
        .send(&mut marks, &mut segment, "0x1001/0x1000/0", &[7, 0, 0, 0])
        .expect("bare target");
    assert_eq!(
        master
            .clone()
            .about(0x1000, 0)
            .receive(&mut marks, &mut segment)
            .expect("upload")[0]
            .bytes,
        [7, 0, 0, 0]
    );
    let error = master
        .send(&mut marks, &mut segment, "", b"x")
        .expect_err("no such object on 0x1001");
    assert!(error.message().contains("0x06020000"), "{error:?}");
    let error = master
        .send(&mut marks, &mut segment, "0x1009/0x2000/0", b"x")
        .expect_err("no such station");
    assert!(error.message().contains("not on the ring"), "{error:?}");
    assert!(
        master.send(&mut marks, &mut segment, "1001/0x2000/0", b"x").is_err(),
        "not hex"
    );
    let mut nobody = Segment::new(Vec::new());
    let quiet = EtherCatTransport::new("loopback".to_string(), Mac([2; 6]), 1)
        .timing_out_after(20 * MILLISECOND);
    assert_eq!(
        quiet.count(&mut Marks::new(), &mut nobody).expect("own frame back"),
        0,
        "nobody on the link"
    );
}

#[test]
fn a_write_changes_its_object_and_no_other() {
    let mut marks = Marks::new();
    let mut ring = Segment::new(vec![
        Slave::new(1).with_object(0x2000, 0, vec![1]),
        Slave::new(2)
            .with_object(0x2000, 0, vec![2])
            .with_object(0x2000, 1, vec![3]),
    ]);
    let master = master_at(1);
    let long = pattern(1000);
    assert_eq!(master.download(&mut marks, &mut ring, 2, 0x2000, 0, &long), Ok(()));
    let first = ring.with_slave(1, |slave| slave.object(0x2000, 0).map(<[u8]>::to_vec));
    assert_eq!(first, Some(Some(vec![1])));
    let beside = ring.with_slave(2, |slave| slave.object(0x2000, 1).map(<[u8]>::to_vec));
    assert_eq!(beside, Some(Some(vec![3])));
    assert_eq!(master.upload(&mut marks, &mut ring, 2, 0x2000, 0), Ok(long));
    assert_eq!(master.upload(&mut marks, &mut ring, 2, 0x2000, 1), Ok(vec![3]));
}

#[test]
fn what_is_refused_leaves_the_objects() {
    let mut marks = Marks::new();
    let mut ring = Segment::new(vec![Slave::new(1).with_object(0x2000, 0, vec![1])]);
    let master = master_at(1);
    assert_eq!(
        master.download(&mut marks, &mut ring, 1, 0x2001, 0, &pattern(500)),
        Err(Error::Aborted(ABORT_NO_OBJECT))
    );
    assert_eq!(
        master.upload(&mut marks, &mut ring, 1, 0x2001, 0),
        Err(Error::Aborted(ABORT_NO_OBJECT))
    );
    assert_eq!(
        master.download(&mut marks, &mut ring, 3, 0x2000, 0, &[7]),
        Err(Error::NotOnRing(3))
    );
    assert_eq!(master.upload(&mut marks, &mut ring, 3, 0x2000, 0), Err(Error::NotOnRing(3)));
    assert_eq!(
        master.send(&mut marks, &mut ring, "0x0001/0x2000", &[7]),
        Err(Error::BadTarget("0x0001/0x2000".to_string()))
    );
    assert_eq!(master.upload(&mut marks, &mut ring, 1, 0x2000, 0), Ok(vec![1]));
}

#[test]
fn two_slaves_at_one_station_are_refused() {
    let mut marks = Marks::new();
    let mut ring = Segment::new(vec![Slave::new(1), Slave::new(1)]);
    let master = master_at(1);
    assert_eq!(
        master.upload(&mut marks, &mut ring, 1, 0x1000, 0),
        Err(Error::NotOnRing(1))
    );
    assert_eq!(master.count(&mut marks, &mut ring), Ok(2));
}

#[test]
fn a_message_over_the_mailbox_and_over_a_frame_are_refused() {
    let mut marks = Marks::new();
    let mut ring = Segment::new(vec![Slave::new(1).with_object(0x2000, 0, Vec::new())]);
    let master = master_at(1);
    let opening = |n: usize| Sdo::InitiateDownload {
        index: 0x2000,
        subindex: 0,
        opening: Opening::Sized {
            size: 1,
            data: vec![0; n],
        },
    };
    assert_eq!(
        master.call(&mut marks, &mut ring, 1, &opening(241)),
        Err(Error::NotOnRing(1)),
        "no mailbox takes it"
    );
    assert_eq!(
        master.call(&mut marks, &mut ring, 1, &opening(1470)),
        Err(Error::FrameTooLong(1512))
    );
    assert_eq!(
        master.call(&mut marks, &mut ring, 1, &opening(1471)),
        Err(Error::DataTooLong(1487))
    );
    let empty = Sdo::InitiateDownload {
        index: 0x2000,
        subindex: 0,
        opening: Opening::Expedited { data: Vec::new() },
    };
    assert_eq!(
        master.call(&mut marks, &mut ring, 1, &empty),
        Err(Error::NotExpedited(0))
    );
    assert_eq!(
        master.call(&mut marks, &mut ring, 1, &opening(240)),
        Ok(Sdo::DownloadAccepted {
            index: 0x2000,
            subindex: 0
        })
    );
}

#[test]
fn an_exchange_marks_its_datagrams_and_drops_what_does_not_answer() {
    let mut marks = Marks::new();
    let mut ring = Segment::new(vec![Slave::new(1)]);
    let master = master_at(1);
    let brd = Datagram::at(Command::Brd, 0, AL_STATUS, &[0; 2]).expect("brd");
    for mark in 0..3u8 {
        let back = master
            .exchange(&mut marks, &mut ring, vec![brd.clone(), brd.clone()])
            .expect("back");
        assert_eq!((back[0].index, back[1].index), (mark, mark));
    }
    let (mark, stale) = master_at(1)
        .open_exchange(&mut Marks::new(), vec![brd.clone()])
        .expect("frame");
    assert_eq!(mark, 0);
    ring.transmit(&stale).expect("transmit");
    let back = master.exchange(&mut marks, &mut ring, vec![brd]).expect("back");
    assert_eq!(back[0].index, 3, "the stale frame is not the answer");
    assert!(ring.receive().is_none());
    assert_eq!(
        master.exchange(&mut marks, &mut ring, Vec::new()),
        Err(Error::NoDatagram)
    );
}

#[test]
fn a_frame_goes_out_to_everyone_and_is_listened_for() {
    let master = master_at(1).timing_out_after(5);
    let nop = Datagram::new(Command::Nop, 0, &[]).expect("nop");
    let (mark, frame) = master
        .open_exchange(&mut Marks::new(), vec![nop.clone()]).expect("frame");
    assert_eq!(frame.destination, Mac([0xff; 6]));
    assert_eq!(frame.source, Mac([2, 0, 0, 0, 0, 1]));
    assert_eq!(frame.ethertype, 0x88a4);
    let answer = master.listened(mark, Some(&frame), 9).expect("answer");
    assert_eq!(answer, Some(vec![nop]));
    let other = Frame {
        ethertype: 0x0800,
        ..frame.clone()
    };
    let broken = Frame {
        payload: vec![0],
        ethertype: ETHERTYPE,
        ..frame.clone()
    };
    for (asked, heard) in [(mark + 1, &frame), (mark, &other), (mark, &broken)] {
        assert_eq!(master.listened(asked, Some(heard), 4), Ok(None));
        assert_eq!(
            master.listened(asked, Some(heard), 5),
            Err(Error::NoAnswer),
            "other frames do not put the deadline off"
        );
    }
    assert_eq!(master.listened(mark, None, 4), Ok(None));
    assert_eq!(master.listened(mark, None, 5), Err(Error::NoAnswer));
}

#[test]
fn a_call_asks_for_the_status_beside_the_mailbox() {
    let ask = Sdo::UploadSegment { toggle: false };
    let out = EtherCatTransport::open_call(&Marks::new(), 0x1005, &ask).expect("open");
    assert_eq!(out.len(), 2);
    assert_eq!(out[0].command, Command::Fpwr);
    assert_eq!(out[0].address, 0x1000_1005);
    assert_eq!(out[0].data[5], 0x13, "the counter is never zero");
    assert_eq!(out[1].address, 0x0130_1005);
    let poll = EtherCatTransport::poll(0x1005);
    assert_eq!(poll[0].offset(), TRANSMIT_MAILBOX);
    assert_eq!(poll[0].data.len(), 256);
}

#[test]
fn a_station_has_to_be_there_and_operational() {
    let ask = Sdo::UploadSegment { toggle: false };
    let mut back = EtherCatTransport::open_call(&Marks::new(), 7, &ask).expect("open");
    back[1].data = vec![0x08, 0x00];
    assert_eq!(
        EtherCatTransport::accepted(7, &back),
        Err(Error::NotOnRing(7))
    );
    back[0].working_counter = 1;
    back[1].working_counter = 1;
    assert_eq!(EtherCatTransport::accepted(7, &back), Ok(()));
    back[1].data = vec![0x02, 0x01];
    assert_eq!(
        EtherCatTransport::accepted(7, &back),
        Err(Error::NotOperational(7, 0x0102))
    );
    back[0].working_counter = 2;
    assert_eq!(
        EtherCatTransport::accepted(7, &back),
        Err(Error::NotOnRing(7))
    );
}

#[test]
fn a_poll_is_repeated_until_the_deadline() {
    let master = master_at(1).timing_out_after(MILLISECOND);
    let mut back = EtherCatTransport::poll(1);
    assert_eq!(master.polled(&back, MILLISECOND - 1), Ok(None));
    assert_eq!(
        master.polled(&back, MILLISECOND),
        Err(Error::NoMailboxAnswer)
    );
    back[0].working_counter = 1;
    assert_eq!(master.polled(&back, 0), Err(Error::MailboxPastEnd));
    let answer = Sdo::SegmentAccepted { toggle: true };
    back[0].data = ethercat::mailbox::encode_message(1, &answer).expect("encode");
    assert_eq!(master.polled(&back, 2 * MILLISECOND), Ok(Some(answer)));
}

#[test]
fn the_counter_of_the_first_that_came_back_counts() {
    assert_eq!(EtherCatTransport::counted(&Vec::new()), 0);
    let mut out = EtherCatTransport::open_count();
    assert_eq!(out[0].command, Command::Brd);
    assert_eq!(out[0].address, 0x0130_0000);
    out[0].working_counter = 12;
    assert_eq!(EtherCatTransport::counted(&out), 12);
}

#[test]
fn a_write_asks_in_turn_and_is_ended_out_of_turn() {
    let bytes = pattern(300);
    let (mut write, ask) = Download::open(&coe(), 0x2000, 1, &bytes).expect("open");
    assert_eq!(
        ask,
        Sdo::InitiateDownload {
            index: 0x2000,
            subindex: 1,
            opening: Opening::Sized {
                size: 300,
                data: bytes[..240].to_vec()
            }
        }
    );
    let wrong = Sdo::DownloadAccepted {
        index: 0x2000,
        subindex: 2,
    };
    assert_eq!(write.answered(&wrong), Err(Error::OutOfTurn));
    let accepted = Sdo::DownloadAccepted {
        index: 0x2000,
        subindex: 1,
    };
    assert_eq!(
        write.answered(&accepted),
        Ok(Some(Sdo::DownloadSegment {
            toggle: false,
            data: bytes[240..].to_vec(),
            last: true
        }))
    );
    assert_eq!(
        write.answered(&Sdo::SegmentAccepted { toggle: true }),
        Err(Error::OutOfTurn)
    );
    assert_eq!(
        write.answered(&Sdo::Abort {
            index: 0,
            subindex: 0,
            code: 5
        }),
        Err(Error::Aborted(5))
    );
    assert_eq!(
        write.answered(&Sdo::SegmentAccepted { toggle: false }),
        Ok(None)
    );
}

#[test]
fn a_small_write_goes_expedited_where_the_window_says_so() {
    let window = Window {
        expedited: 4,
        initiate: 0,
        segment: 7,
    };
    let (mut write, ask) = Download::open(&window, 1, 0, &[1, 2]).expect("open");
    assert_eq!(
        ask,
        Sdo::InitiateDownload {
            index: 1,
            subindex: 0,
            opening: Opening::Expedited { data: vec![1, 2] }
        }
    );
    let accepted = Sdo::DownloadAccepted {
        index: 1,
        subindex: 0,
    };
    assert_eq!(write.answered(&accepted), Ok(None));
}

#[test]
fn a_read_takes_what_is_answered_in_turn() {
    let (mut read, ask) = Upload::open(1, 2);
    assert_eq!(
        ask,
        Sdo::InitiateUpload {
            index: 1,
            subindex: 2
        }
    );
    assert_eq!(
        read.answered(Sdo::UploadData {
            toggle: false,
            data: vec![1],
            last: true
        }),
        Err(Error::OutOfTurn)
    );
    let opened = Sdo::UploadOpened {
        index: 1,
        subindex: 2,
        opening: Opening::Sized {
            size: 3,
            data: vec![1, 2],
        },
    };
    assert_eq!(
        read.answered(opened),
        Ok(Some(Sdo::UploadSegment { toggle: false }))
    );
    assert_eq!(
        read.answered(Sdo::UploadData {
            toggle: false,
            data: vec![3],
            last: true
        }),
        Ok(None)
    );
    assert_eq!(read.into_bytes(), [1, 2, 3]);
    let (mut read, _) = Upload::open(1, 2);
    let whole = Sdo::UploadOpened {
        index: 1,
        subindex: 2,
        opening: Opening::Expedited { data: vec![9] },
    };
    assert_eq!(read.answered(whole), Ok(None));
    assert_eq!(read.into_bytes(), [9]);
}

#[test]
fn an_origin_is_a_target_that_names_its_object() {
    let uri = origin("eth0", 0x00ab, 0x6040, 255);
    assert_eq!(uri, "ethercat://eth0/0x00ab/0x6040/255");
    assert_eq!(
        resolve(&chars_of(&uri), (1, 2, 3)),
        Some((0x00ab, 0x6040, 255))
    );
    let master = master_at(0x1001).about(0x2001, 9);
    assert_eq!(
        master.origin(0x1001, 0x2001, 9),
        "ethercat://loopback/0x1001/0x2001/9"
    );
    assert_eq!(master.resolve(""), Ok((0x1001, 0x2001, 9)));
    assert_eq!(master.resolve("ethercat://eth0/"), Ok((0x1001, 0x2001, 9)));
    assert_eq!(master.resolve("0x1/0xFFFF/007"), Ok((1, 0xffff, 7)));
    assert_eq!(master.resolve("0x1/0x2/3/more"), Ok((1, 2, 3)));
    for bad in [
        "1001/0x2000/0",
        "0x1001/2000/0",
        "0x1001/0x2000",
        "0x1001/0x2000/",
        "0x1001/0x2000/256",
        "0x11001/0x2000/0",
        "0x/0x2000/0",
        "0x1001/0x2000/0x1",
        "/0x1001/0x2000/0",
        "canopen://eth0/0x1001/0x2000/0",
        "ethercat://eth0",
    ] {
        assert_eq!(master.resolve(bad), Err(Error::BadTarget(bad.to_string())));
    }
}

#[test]
fn a_refusal_is_said_in_words() {
    let said = [
        (Error::NoSuchCommand(15), "no EtherCAT command has code 15"),
        (
            Error::DataTooLong(1487),
            "1487 bytes is over the 1486 one datagram carries",
        ),
        (Error::NoDatagram, "a frame with no datagram"),
        (
            Error::FrameTooLong(1510),
            "1510 bytes of datagrams is over the 1498 one frame carries",
        ),
        (Error::ShortHeader, "shorter than an EtherCAT header"),
        (Error::NotTypeOne, "an EtherCAT header that is not type 1"),
        (
            Error::LengthPastEnd,
            "an EtherCAT length past the end of the frame",
        ),
        (Error::ShortDatagram, "a datagram shorter than its header"),
        (Error::DatagramPastEnd, "a datagram length past the end"),
        (
            Error::NoWorkingCounter,
            "a datagram without its working counter",
        ),
        (Error::TrailingBytes, "bytes after the last datagram"),
        (Error::ShortMailbox, "a mailbox shorter than its headers"),
        (Error::MailboxPastEnd, "a mailbox length past the end"),
        (Error::NotCoe, "a mailbox protocol that is not CoE"),
        (Error::NotSdo(1), "CoE service 1 is not an SDO"),
        (Error::ShortSdo, "shorter than an SDO"),
        (Error::NoSuchSpecifier(5), "no SDO has command specifier 5"),
        (
            Error::NoSize,
            "an SDO that neither carries its data nor says its size",
        ),
        (Error::NotExpedited(0), "0 bytes do not go expedited"),
        (
            Error::ObjectTooLong(4_294_967_296),
            "4294967296 bytes is over what an SDO's size says",
        ),
        (
            Error::Aborted(ABORT_NO_OBJECT),
            "the slave aborted with 0x06020000",
        ),
        (Error::OutOfTurn, "the slave answered out of turn"),
        (
            Error::NoAnswer,
            "the ring did not answer before the deadline",
        ),
        (
            Error::NotOnRing(0x1009),
            "station 0x1009 is not on the ring",
        ),
        (
            Error::NotOperational(0x1001, 4),
            "station 0x1001 is in AL state 0x0004",
        ),
        (
            Error::NoMailboxAnswer,
            "the mailbox answer did not come before the deadline",
        ),
        (
            Error::BadTarget("a\"\n".to_string()),
            "\"a\\\"\\n\" is not 0x<station>/0x<index>/<sub>",
        ),
    ];
    for (error, text) in said {
        assert_eq!(error.message(), text);
    }
    assert_eq!(no_object("'x'"), "'x' is not 0x<station>/0x<index>/<sub>");
}

#[test]
fn what_a_write_asks_fits_the_mailbox() {
    for n in [0usize, 1, 240, 241, 487, 488, 2000] {
        let bytes = pattern(n);
        let (mut write, open) = Download::open(&coe(), 0x2000, 0, &bytes).expect("open");
        let mut ask = open;
        let mut asked = 0;
        let mut answer = Sdo::DownloadAccepted {
            index: 0x2000,
            subindex: 0,
        };
        loop {
            asked += 1;
            let message = ethercat::mailbox::encode_message(1, &ask).expect("encode");
            assert!(message.len() <= 256, "{n}");
            match write.answered(&answer).expect("in turn") {
                Some(next) => ask = next,
                None => break,
            }
            answer = Sdo::SegmentAccepted {
                toggle: asked % 2 == 0,
            };
        }
        let segments = if n <= 240 { 0 } else { (n - 240 + 246) / 247 };
        assert_eq!(asked, 1 + segments, "{n}");
    }
}

#[test]
fn marks_go_round_and_calls_go_on() {
    let (master, mut marks, mut ring) = EtherCatTransport::loopback();
    for n in 0..300u32 {
        let payload = n.to_le_bytes();
        let arrived = master.round(&mut marks, &mut ring, &payload).expect("round");
        assert_eq!(arrived.bytes, payload);
    }
    assert_eq!(master.count(&mut marks, &mut ring), Ok(1));
}

/// A master of its own transmits `datagrams` under `mark` and does not listen.
fn leave(ring: &mut Segment, mark: u8, datagrams: Vec<Datagram>) {
    let other = master_at(1);
    let mut marks = Marks::new();
    let nop = Datagram::new(Command::Nop, 0, &[]).expect("nop");
    for _ in 0..mark {
        other
            .open_exchange(&mut marks, vec![nop.clone()])
            .expect("frame");
    }
    let (index, frame) = other
        .open_exchange(&mut marks, datagrams)
        .expect("frame");
    assert_eq!(index, mark);
    ring.transmit(&frame).expect("transmit");
}

#[test]
fn a_frame_that_waits_may_answer_in_place_of_the_call() {
    let mut ring = Segment::new(vec![Slave::new(1).with_object(0x2000, 0, vec![8])]);
    let master = master_at(1);
    let mut marks = Marks::new();
    let ask = Sdo::InitiateUpload {
        index: 0x1000,
        subindex: 0,
    };
    let here = EtherCatTransport::open_call(&Marks::new(), 1, &ask).expect("open");
    leave(&mut ring, 0, here);
    assert_eq!(
        master.upload(&mut marks, &mut ring, 1, 0x2000, 0),
        Ok(vec![8]),
        "it says that the station is there and operational"
    );
    assert_eq!(marks.next_index(), 2);
    let nobody = EtherCatTransport::open_call(&Marks::new(), 7, &ask).expect("open");
    leave(&mut ring, 2, nobody);
    assert_eq!(
        master.upload(&mut marks, &mut ring, 1, 0x2000, 0),
        Err(Error::NotOnRing(1)),
        "it says that nobody acted"
    );
    assert_eq!(
        master.upload(&mut marks, &mut ring, 1, 0x2000, 0),
        Ok(vec![8])
    );
}

#[test]
fn a_poll_that_is_not_answered_is_repeated() {
    let ask = Sdo::InitiateUpload {
        index: 0x1000,
        subindex: 0,
    };
    let answer = Sdo::UploadOpened {
        index: 0x1000,
        subindex: 0,
        opening: Opening::Sized {
            size: 4,
            data: vec![0; 4],
        },
    };
    let strange = Sdo::UploadSegment { toggle: true };
    for (wait, expected, spent) in [
        (MILLISECOND, Ok(answer), 3),
        (0, Err(Error::NoMailboxAnswer), 2),
    ] {
        let mut ring = Segment::new(vec![Slave::new(1)]);
        let call = EtherCatTransport::open_call(&Marks::new(), 1, &ask).expect("open");
        leave(&mut ring, 0, call);
        leave(&mut ring, 1, EtherCatTransport::poll(9));
        leave(&mut ring, 2, EtherCatTransport::poll(1));
        let mut marks = Marks::new();
        let master = master_at(1).timing_out_after(wait);
        assert_eq!(
            master.call(&mut marks, &mut ring, 1, &strange),
            expected,
            "the first poll is answered by a frame that nobody acted on"
        );
        assert_eq!(marks.next_index(), spent);
    }
}

#[test]
fn polls_end_where_nothing_is_left_to_answer_them() {
    let ask = Sdo::UploadSegment { toggle: false };
    let mut ring = Segment::new(vec![Slave::new(1)]);
    let call = EtherCatTransport::open_call(&Marks::new(), 1, &ask).expect("open");
    leave(&mut ring, 0, call);
    for mark in 1..4u8 {
        leave(&mut ring, mark, EtherCatTransport::poll(9));
    }
    let mut marks = Marks::new();
    assert_eq!(
        master_at(1).call(&mut marks, &mut ring, 1, &ask),
        Err(Error::NoMailboxAnswer),
        "the answer went to the first poll, which another frame had answered"
    );
    assert_eq!(marks.next_index(), 6);
}

#[test]
fn a_clone_shares_the_marks() {
    let mut ring = Segment::new(vec![Slave::new(1)]);
    let master = master_at(1);
    let clone = master.clone();
    let mut marks = Marks::new();
    assert_eq!(master.count(&mut marks, &mut ring), Ok(1));
    assert_eq!(clone.count(&mut marks, &mut ring), Ok(1));
    assert_eq!(marks.next_index(), 2);
    let brd = Datagram::at(Command::Brd, 0, AL_STATUS, &[0; 2]).expect("brd");
    let (mark, _) = master.open_exchange(&mut marks, vec![brd]).expect("frame");
    assert_eq!(mark, 2);
}
