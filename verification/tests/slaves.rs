use ethercat::datagram::{decode, encode, ETHERTYPE};
use ethercat::link::{Frame, Mac};
use ethercat::mailbox::{
    INITIATE_DATA, MAILBOX_SIZE, RECEIVE_MAILBOX, SEGMENT_DATA, TRANSMIT_MAILBOX,
};
use ethercat::sdo::{Opening, Sdo, ABORT_COMMAND, ABORT_NO_OBJECT, ABORT_TOGGLE};
use ethercat::slave::{AL_STATUS, OPERATIONAL, STATION_ADDRESS};
use ethercat::{Command, Datagram, Error, Message, Segment, Slave};

fn pass(segment: &mut Segment, datagrams: &[Datagram]) -> Vec<Datagram> {
    let payload = encode(datagrams).expect("encode");
    let frame = Frame {
        destination: Mac::broadcast(),
        source: Mac([2, 0, 0, 0, 0, 1]),
        ethertype: ETHERTYPE,
        payload,
    };
    segment.transmit(&frame).expect("transmit");
    let back = segment.receive().expect("a frame back");
    assert_eq!(back.destination, frame.source);
    assert_eq!(back.source, frame.destination);
    decode(&back.payload).expect("decode")
}

fn ask(slave: &mut Slave, sdo: Sdo) -> Sdo {
    let message = Message { counter: 3, sdo }.encode().expect("encode");
    let mut write = Datagram::at(Command::Fpwr, slave.station(), RECEIVE_MAILBOX, &message)
        .expect("fpwr");
    slave.pass(&mut write);
    assert_eq!(write.working_counter, 1);
    let mut read = Datagram::at(
        Command::Fprd,
        slave.station(),
        TRANSMIT_MAILBOX,
        &[0; MAILBOX_SIZE],
    )
    .expect("fprd");
    slave.pass(&mut read);
    assert_eq!(read.working_counter, 1);
    let answer = Message::decode(&read.data).expect("decode");
    assert_eq!(answer.counter, 3);
    answer.sdo
}

fn abort(index: u16, subindex: u8, code: u32) -> Sdo {
    Sdo::Abort {
        index,
        subindex,
        code,
    }
}

#[test]
fn a_broadcast_counts_the_slaves_and_a_position_finds_the_second() {
    let mut segment = Segment::new(vec![Slave::new(0x1001), Slave::new(0x1002)]);
    let back = pass(
        &mut segment,
        &[
            Datagram::at(Command::Brd, 0, AL_STATUS, &[0; 2]).expect("brd"),
            Datagram::at(Command::Aprd, 0xffff, STATION_ADDRESS, &[0; 2]).expect("aprd"),
            Datagram::at(Command::Fprd, 0x1002, STATION_ADDRESS, &[0; 2]).expect("fprd"),
            Datagram::at(Command::Fprd, 0x1003, STATION_ADDRESS, &[0; 2]).expect("nobody"),
        ],
    );
    assert_eq!(
        back[0].working_counter, 2,
        "both slaves answered the broadcast"
    );
    assert_eq!(back[0].data, OPERATIONAL.to_le_bytes());
    assert_eq!(
        back[1].working_counter, 1,
        "position -1 is the second slave"
    );
    assert_eq!(back[1].data, 0x1002u16.to_le_bytes());
    assert_eq!(back[1].station(), 1, "incremented twice");
    assert_eq!(back[2].working_counter, 1);
    assert_eq!(back[3].working_counter, 0, "no such station");
    assert_eq!(segment.with_slave(0x1002, Slave::station), Some(0x1002));
    assert!(segment.with_slave(0x1003, Slave::station).is_none());
}

#[test]
fn a_mailbox_write_is_answered_in_the_transmit_mailbox_and_a_bad_one_aborted() {
    let mut segment = Segment::new(vec![Slave::new(0x1001).with_object(0x2000, 0, Vec::new())]);
    let empty = pass(
        &mut segment,
        &[
            Datagram::at(Command::Fprd, 0x1001, TRANSMIT_MAILBOX, &[0; MAILBOX_SIZE])
                .expect("fprd"),
        ],
    );
    assert_eq!(empty[0].working_counter, 0, "nothing to read yet");
    let ask = Message {
        counter: 1,
        sdo: Sdo::InitiateUpload {
            index: 0x1000,
            subindex: 0,
        },
    };
    let written = pass(
        &mut segment,
        &[Datagram::at(
            Command::Fpwr,
            0x1001,
            RECEIVE_MAILBOX,
            &ask.encode().expect("encode"),
        )
        .expect("fpwr")],
    );
    assert_eq!(written[0].working_counter, 1);
    let answer = pass(
        &mut segment,
        &[
            Datagram::at(Command::Fprd, 0x1001, TRANSMIT_MAILBOX, &[0; MAILBOX_SIZE])
                .expect("fprd"),
        ],
    );
    assert_eq!(answer[0].working_counter, 1);
    assert_eq!(
        Message::decode(&answer[0].data).expect("message"),
        Message {
            counter: 1,
            sdo: Sdo::UploadOpened {
                index: 0x1000,
                subindex: 0,
                opening: Opening::Sized {
                    size: 4,
                    data: vec![0; 4],
                },
            },
        }
    );
    let garbage = pass(
        &mut segment,
        &[
            Datagram::at(Command::Fpwr, 0x1001, RECEIVE_MAILBOX, &[0xff; 8]).expect("fpwr"),
            Datagram::at(Command::Fprd, 0x1001, TRANSMIT_MAILBOX, &[0; MAILBOX_SIZE])
                .expect("fprd"),
        ],
    );
    assert!(matches!(
        Message::decode(&garbage[1].data).expect("abort").sdo,
        Sdo::Abort {
            code: ABORT_COMMAND,
            ..
        }
    ));
    let frame = Frame {
        destination: Mac::broadcast(),
        source: Mac([2, 0, 0, 0, 0, 1]),
        ethertype: 0x0800,
        payload: vec![0x45],
    };
    segment.transmit(&frame).expect("dropped");
    assert!(segment.receive().is_none());
}

#[test]
fn a_slave_passes_by_what_is_not_for_it() {
    let mut slave = Slave::new(0x1001);
    for command in [
        Command::Nop,
        Command::Lrd,
        Command::Lwr,
        Command::Lrw,
        Command::Armw,
        Command::Frmw,
    ] {
        let mut datagram = Datagram::at(command, 0x1001, STATION_ADDRESS, &[7; 2]).expect("at");
        let before = datagram.clone();
        slave.pass(&mut datagram);
        assert_eq!(datagram, before);
    }
    let mut elsewhere = Datagram::at(Command::Fprd, 0x1002, STATION_ADDRESS, &[7; 2]).expect("at");
    let before = elsewhere.clone();
    slave.pass(&mut elsewhere);
    assert_eq!(elsewhere, before);
}

#[test]
fn a_position_is_incremented_whether_the_slave_acts_or_not() {
    let mut slave = Slave::new(0x1001);
    let mut here = Datagram::at(Command::Aprd, 0, STATION_ADDRESS, &[0; 2]).expect("aprd");
    slave.pass(&mut here);
    assert_eq!((here.station(), here.working_counter), (1, 1));
    assert_eq!(here.data, [0x01, 0x10]);
    let mut wraps = Datagram::at(Command::Apwr, 0xffff, RECEIVE_MAILBOX, &[]).expect("apwr");
    slave.pass(&mut wraps);
    assert_eq!((wraps.station(), wraps.working_counter), (0, 0));
    let mut nowhere = Datagram::at(Command::Aprd, 0, 0x0777, &[5]).expect("aprd");
    slave.pass(&mut nowhere);
    assert_eq!((nowhere.station(), nowhere.working_counter), (1, 0));
    assert_eq!(nowhere.data, [5]);
}

#[test]
fn a_read_fills_the_data_and_no_more() {
    let mut slave = Slave::new(0xbeef);
    let mut one = Datagram::at(Command::Fprd, 0xbeef, STATION_ADDRESS, &[9; 1]).expect("fprd");
    slave.pass(&mut one);
    assert_eq!(one.data, [0xef]);
    let mut four = Datagram::at(Command::Fprd, 0xbeef, STATION_ADDRESS, &[9; 4]).expect("fprd");
    slave.pass(&mut four);
    assert_eq!(four.data, [0xef, 0xbe, 0, 0]);
    four.working_counter = 0xffff;
    slave.pass(&mut four);
    assert_eq!(four.working_counter, 0, "sixteen bits of counter");
}

#[test]
fn a_mailbox_takes_no_more_than_it_holds() {
    let mut slave = Slave::new(1);
    let mut over =
        Datagram::at(Command::Fpwr, 1, RECEIVE_MAILBOX, &[0; MAILBOX_SIZE + 1]).expect("fpwr");
    slave.pass(&mut over);
    assert_eq!(over.working_counter, 0);
    let mut brim =
        Datagram::at(Command::Fpwr, 1, RECEIVE_MAILBOX, &[0; MAILBOX_SIZE]).expect("fpwr");
    slave.pass(&mut brim);
    assert_eq!(brim.working_counter, 1);
    let mut register = Datagram::at(Command::Fpwr, 1, AL_STATUS, &[0; 2]).expect("fpwr");
    slave.pass(&mut register);
    assert_eq!(register.working_counter, 0, "a register is not written");
}

#[test]
fn an_answer_is_read_once() {
    let mut slave = Slave::new(1);
    let message = Message {
        counter: 1,
        sdo: Sdo::UploadSegment { toggle: false },
    };
    let bytes = message.encode().expect("encode");
    let mut write = Datagram::at(Command::Fpwr, 1, RECEIVE_MAILBOX, &bytes).expect("fpwr");
    slave.pass(&mut write);
    let read = Datagram::at(Command::Fprd, 1, TRANSMIT_MAILBOX, &[0; MAILBOX_SIZE]).expect("fprd");
    let mut first = read.clone();
    slave.pass(&mut first);
    assert_eq!(
        Message::decode(&first.data).expect("abort").sdo,
        abort(0, 0, ABORT_COMMAND),
        "a segment of no transfer"
    );
    let mut second = read.clone();
    slave.pass(&mut second);
    assert_eq!(second, read);
}

#[test]
fn an_object_that_is_not_there_is_aborted_and_nothing_stored() {
    let mut slave = Slave::new(1);
    let open = Sdo::InitiateDownload {
        index: 0x2000,
        subindex: 1,
        opening: Opening::Sized {
            size: 1,
            data: vec![1],
        },
    };
    assert_eq!(
        ask(&mut slave, open),
        abort(0x2000, 1, ABORT_NO_OBJECT)
    );
    assert_eq!(slave.object(0x2000, 1), None);
    assert_eq!(
        ask(
            &mut slave,
            Sdo::InitiateUpload {
                index: 0x2000,
                subindex: 1
            }
        ),
        abort(0x2000, 1, ABORT_NO_OBJECT)
    );
    assert_eq!(slave.object(0x1000, 0), Some(&[0, 0, 0, 0][..]));
}

#[test]
fn a_write_in_segments_stores_with_the_last() {
    let mut slave = Slave::new(1).with_object(0x2000, 0, vec![9]);
    let open = Sdo::InitiateDownload {
        index: 0x2000,
        subindex: 0,
        opening: Opening::Sized {
            size: 4,
            data: vec![1, 2],
        },
    };
    assert_eq!(
        ask(&mut slave, open.clone()),
        Sdo::DownloadAccepted {
            index: 0x2000,
            subindex: 0
        }
    );
    assert_eq!(slave.object(0x2000, 0), Some(&[9][..]));
    let first = Sdo::DownloadSegment {
        toggle: false,
        data: vec![3],
        last: false,
    };
    assert_eq!(
        ask(&mut slave, first.clone()),
        Sdo::SegmentAccepted { toggle: false }
    );
    let last = Sdo::DownloadSegment {
        toggle: true,
        data: vec![4],
        last: true,
    };
    assert_eq!(
        ask(&mut slave, last),
        Sdo::SegmentAccepted { toggle: true }
    );
    assert_eq!(slave.object(0x2000, 0), Some(&[1, 2, 3, 4][..]));
    ask(&mut slave, open);
    ask(&mut slave, first.clone());
    assert_eq!(
        ask(&mut slave, first.clone()),
        abort(0x2000, 0, ABORT_TOGGLE),
        "the toggle has to alternate"
    );
    assert_eq!(ask(&mut slave, first), abort(0, 0, ABORT_COMMAND));
    assert_eq!(slave.object(0x2000, 0), Some(&[1, 2, 3, 4][..]));
}

#[test]
fn a_read_in_segments_ends_with_the_last() {
    let bytes: Vec<u8> = (0..(INITIATE_DATA + SEGMENT_DATA + 1))
        .map(|n| (n % 251) as u8)
        .collect();
    let mut slave = Slave::new(1).with_object(0x2000, 0, bytes.clone());
    assert_eq!(
        ask(
            &mut slave,
            Sdo::InitiateUpload {
                index: 0x2000,
                subindex: 0
            }
        ),
        Sdo::UploadOpened {
            index: 0x2000,
            subindex: 0,
            opening: Opening::Sized {
                size: 488,
                data: bytes[..240].to_vec()
            }
        }
    );
    assert_eq!(
        ask(&mut slave, Sdo::UploadSegment { toggle: false }),
        Sdo::UploadData {
            toggle: false,
            data: bytes[240..487].to_vec(),
            last: false
        }
    );
    assert_eq!(
        ask(&mut slave, Sdo::UploadSegment { toggle: true }),
        Sdo::UploadData {
            toggle: true,
            data: bytes[487..].to_vec(),
            last: true
        }
    );
    assert_eq!(
        ask(&mut slave, Sdo::UploadSegment { toggle: false }),
        abort(0, 0, ABORT_COMMAND)
    );
}

#[test]
fn a_read_out_of_turn_is_aborted() {
    let mut slave = Slave::new(1).with_object(0x2000, 7, vec![1; 241]);
    ask(
        &mut slave,
        Sdo::InitiateUpload {
            index: 0x2000,
            subindex: 7,
        },
    );
    assert_eq!(
        ask(&mut slave, Sdo::UploadSegment { toggle: true }),
        abort(0x2000, 7, ABORT_TOGGLE)
    );
    ask(
        &mut slave,
        Sdo::InitiateUpload {
            index: 0x2000,
            subindex: 7,
        },
    );
    let response = Message {
        counter: 0,
        sdo: Sdo::SegmentAccepted { toggle: false },
    };
    let bytes = response.encode().expect("encode");
    let mut write = Datagram::at(Command::Fpwr, 1, RECEIVE_MAILBOX, &bytes).expect("fpwr");
    slave.pass(&mut write);
    assert_eq!(
        ask(&mut slave, Sdo::UploadSegment { toggle: false }),
        abort(0, 0, ABORT_COMMAND),
        "what is not a request ends the transfers"
    );
}

#[test]
fn more_data_than_the_size_says_is_cut() {
    let mut slave = Slave::new(1).with_object(0x2000, 0, Vec::new());
    ask(
        &mut slave,
        Sdo::InitiateDownload {
            index: 0x2000,
            subindex: 0,
            opening: Opening::Sized {
                size: 2,
                data: vec![1, 2, 3],
            },
        },
    );
    assert_eq!(slave.object(0x2000, 0), Some(&[1, 2][..]));
    ask(
        &mut slave,
        Sdo::InitiateDownload {
            index: 0x2000,
            subindex: 0,
            opening: Opening::Expedited {
                data: vec![5, 6, 7],
            },
        },
    );
    assert_eq!(slave.object(0x2000, 0), Some(&[5, 6, 7][..]));
}

#[test]
fn a_frame_that_is_not_well_formed_is_dropped() {
    let mut segment = Segment::new(vec![Slave::new(1)]);
    let frame = Frame {
        destination: Mac::broadcast(),
        source: Mac([2; 6]),
        ethertype: ETHERTYPE,
        payload: vec![0x0c, 0x10, 0, 0],
    };
    assert_eq!(segment.transmit(&frame), Ok(()));
    assert!(segment.receive().is_none());
}

#[test]
fn what_comes_back_over_a_frame_is_refused_after_it_passed() {
    let mut segment = Segment::new(vec![Slave::new(1)]);
    let mut payload = Vec::new();
    payload.extend_from_slice(&(0x1000u16 + 1499).to_le_bytes());
    payload.extend_from_slice(&[0, 0, 0, 0, 0, 0]);
    payload.extend_from_slice(&1487u16.to_le_bytes());
    payload.extend_from_slice(&[0; 2]);
    payload.extend_from_slice(&[0; 1487]);
    payload.extend_from_slice(&[0; 2]);
    let frame = Frame {
        destination: Mac::broadcast(),
        source: Mac([2; 6]),
        ethertype: ETHERTYPE,
        payload,
    };
    assert_eq!(segment.transmit(&frame), Err(Error::FrameTooLong(1499)));
    assert!(segment.receive().is_none());
}

#[test]
fn the_first_slave_at_a_station_is_looked_at() {
    let segment = Segment::new(vec![
        Slave::new(5).with_object(1, 1, vec![1]),
        Slave::new(5).with_object(1, 1, vec![2]),
    ]);
    let seen = segment.with_slave(5, |slave| slave.object(1, 1).map(<[u8]>::to_vec));
    assert_eq!(seen, Some(Some(vec![1])));
}

#[test]
fn a_position_finds_the_slave_that_many_places_on() {
    let mut ring = Segment::new(vec![Slave::new(10), Slave::new(11), Slave::new(12)]);
    for k in 0..3u16 {
        let position = 0u16.wrapping_sub(k);
        let out = Datagram::at(Command::Aprd, position, STATION_ADDRESS, &[0; 2]).expect("aprd");
        let back = pass(&mut ring, &[out]);
        assert_eq!(back[0].data, (10 + k).to_le_bytes());
        assert_eq!(back[0].working_counter, 1);
        assert_eq!(back[0].station(), position.wrapping_add(3));
    }
    let past = Datagram::at(Command::Aprd, 0xfffd, STATION_ADDRESS, &[9; 2]).expect("aprd");
    let back = pass(&mut ring, &[past]);
    assert_eq!((back[0].station(), back[0].working_counter), (0, 0));
    assert_eq!(back[0].data, [9, 9]);
}

#[test]
fn every_answer_fits_the_mailbox() {
    for n in [0usize, 1, 239, 240, 241, 486, 487, 488, 1000] {
        let mut slave = Slave::new(1).with_object(0x2000, 0, vec![7; n]);
        let mut answer = ask(
            &mut slave,
            Sdo::InitiateUpload {
                index: 0x2000,
                subindex: 0,
            },
        );
        for round in 0..8 {
            let bytes = Message {
                counter: 3,
                sdo: answer,
            }
            .encode()
            .expect("encode");
            assert!(bytes.len() <= MAILBOX_SIZE, "{n} in round {round}");
            answer = ask(
                &mut slave,
                Sdo::UploadSegment {
                    toggle: round % 2 == 1,
                },
            );
        }
        assert_eq!(answer, abort(0, 0, ABORT_COMMAND));
    }
}
