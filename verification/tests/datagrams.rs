use ethercat::datagram::{decode, encode, DATAGRAM_DATA_MAX, FRAME_DATA_MAX};
use ethercat::{Command, Datagram, Error};

#[test]
fn two_datagrams_ride_one_frame_and_decode_back() {
    let mut first = Datagram::at(Command::Fpwr, 0x1001, 0x1000, &[1, 2, 3]).expect("fpwr");
    first.index = 7;
    let second = Datagram::at(Command::Fprd, 0x1001, 0x0130, &[0, 0]).expect("fprd");
    let payload = encode(&[first.clone(), second.clone()]).expect("encode");
    assert_eq!(&payload[..2], &[0x1d, 0x10], "29 bytes, type 1");
    assert_eq!(&payload[2..8], &[5, 7, 0x01, 0x10, 0x00, 0x10]);
    assert_eq!(&payload[8..10], &[0x03, 0x80], "three bytes, more follow");
    let back = decode(&payload).expect("decode");
    assert_eq!(back, vec![first, second]);
    assert_eq!(back[1].station(), 0x1001);
    assert_eq!(back[1].offset(), 0x0130);
}

#[test]
fn a_position_is_incremented_as_a_slave_passes_it() {
    let mut datagram = Datagram::at(Command::Aprd, 0, 0x0010, &[0; 2]).expect("aprd");
    datagram.set_station(datagram.station().wrapping_add(1));
    assert_eq!(datagram.station(), 1);
    assert_eq!(datagram.offset(), 0x0010);
    assert!(Command::Aprd.reads());
    assert!(!Command::Aprd.writes());
    assert!(Command::Lrw.reads() && Command::Lrw.writes());
    assert!(!Command::Nop.reads() && !Command::Nop.writes());
    assert_eq!(Command::from_code(14).expect("frmw"), Command::Frmw);
}

#[test]
fn what_is_not_an_ethercat_frame_is_refused() {
    assert!(decode(&[0x02]).is_err(), "short");
    assert!(
        decode(&[0x0c, 0x20, 0, 0, 0, 0, 0, 0, 0, 0, 0, 0, 0, 0]).is_err(),
        "type 2"
    );
    assert!(decode(&[0x0c, 0x10, 0, 0]).is_err(), "length past the end");
    let mut bad = encode(&[Datagram::new(Command::Nop, 0, &[]).expect("nop")]).expect("ok");
    bad[2] = 15;
    assert!(decode(&bad).is_err(), "command 15");
    let mut more = encode(&[Datagram::new(Command::Nop, 0, &[]).expect("nop")]).expect("ok");
    more[9] = 0x80;
    assert!(decode(&more).is_err(), "the last says more follow");
    assert!(encode(&[]).is_err(), "no datagram");
    assert!(Datagram::new(Command::Lwr, 0, &[0; DATAGRAM_DATA_MAX + 1]).is_err());
    let one = Datagram::new(Command::Lwr, 0, &[0; DATAGRAM_DATA_MAX]).expect("brim");
    assert!(encode(&[one.clone(), one]).is_err(), "two at the brim");
    assert!(Command::from_code(15).is_err());
}

#[test]
fn every_refusal_of_a_frame_says_why() {
    assert_eq!(decode(&[]), Err(Error::ShortHeader));
    assert_eq!(decode(&[0x02]), Err(Error::ShortHeader));
    assert_eq!(decode(&[0x00, 0x20]), Err(Error::NotTypeOne));
    assert_eq!(decode(&[0x0c, 0x10, 0, 0]), Err(Error::LengthPastEnd));
    assert_eq!(decode(&[0x00, 0x10]), Err(Error::ShortDatagram));
    let nop = Datagram::new(Command::Nop, 0, &[]).expect("nop");
    let whole = encode(&[nop.clone()]).expect("encode");
    assert_eq!(whole, [0x0c, 0x10, 0, 0, 0, 0, 0, 0, 0, 0, 0, 0, 0, 0]);
    let mut past = whole.clone();
    past[8] = 3;
    assert_eq!(decode(&past), Err(Error::DatagramPastEnd));
    past[8] = 2;
    assert_eq!(decode(&past), Err(Error::NoWorkingCounter));
    let mut bad = whole.clone();
    bad[2] = 15;
    assert_eq!(decode(&bad), Err(Error::NoSuchCommand(15)));
    let mut more = whole.clone();
    more[9] = 0x80;
    assert_eq!(decode(&more), Err(Error::ShortDatagram));
    let mut trailing = whole.clone();
    trailing[0] = 0x0d;
    trailing.push(0);
    assert_eq!(decode(&trailing), Err(Error::TrailingBytes));
    assert_eq!(encode(&[]), Err(Error::NoDatagram));
    assert_eq!(
        Datagram::new(Command::Lwr, 0, &[0; DATAGRAM_DATA_MAX + 1]),
        Err(Error::DataTooLong(1487))
    );
    let brim = Datagram::new(Command::Lwr, 0, &[0; DATAGRAM_DATA_MAX]).expect("brim");
    assert_eq!(encode(&[brim.clone(), nop]), Err(Error::FrameTooLong(1510)));
    assert_eq!(encode(&[brim]).expect("alone").len(), 2 + FRAME_DATA_MAX);
}

#[test]
fn padding_after_the_length_is_not_looked_at() {
    let mut out = Datagram::at(Command::Brd, 0xffff, 0x0130, &[1, 2]).expect("brd");
    out.interrupt = 0x0504;
    out.working_counter = 0x0302;
    let mut payload = encode(&[out.clone()]).expect("encode");
    payload.extend_from_slice(&[0xaa; 32]);
    assert_eq!(decode(&payload), Ok(vec![out]));
}

#[test]
fn the_reserved_bits_of_a_length_are_not_looked_at() {
    let mut payload = encode(&[Datagram::new(Command::Nop, 0, &[9]).expect("nop")]).expect("ok");
    payload[1] |= 0x08;
    payload[9] |= 0x78;
    let back = decode(&payload).expect("decode");
    assert_eq!(back.len(), 1);
    assert_eq!(back[0].data, [9]);
}

#[test]
fn the_fifteen_codes_name_the_fifteen_commands() {
    for code in 0..15u8 {
        assert_eq!(Command::from_code(code).expect("named").code(), code);
    }
    for code in 15..=255u8 {
        assert_eq!(Command::from_code(code), Err(Error::NoSuchCommand(code)));
    }
    assert!(Command::Armw.reads() && !Command::Armw.writes());
    assert!(!Command::Bwr.reads() && Command::Bwr.writes());
}

#[test]
fn the_halves_of_an_address_are_apart() {
    let mut datagram = Datagram::at(Command::Fprw, 0xabcd, 0x1234, &[]).expect("fprw");
    assert_eq!(datagram.address, 0x1234_abcd);
    datagram.set_station(0xffff);
    assert_eq!(datagram.address, 0x1234_ffff);
    assert_eq!((datagram.station(), datagram.offset()), (0xffff, 0x1234));
}

#[test]
fn a_frame_is_encoded_as_it_was_before_it_was_decoded() {
    let frame = [
        0x1d, 0x10, 5, 7, 0x01, 0x10, 0x00, 0x10, 0x03, 0x80, 0x34, 0x12, 1, 2, 3, 9, 0, 4, 7, 1,
        0x10, 0x30, 0x01, 0x02, 0x00, 0, 0, 8, 0, 1, 0,
    ];
    let datagrams = decode(&frame).expect("decode");
    assert_eq!(datagrams.len(), 2);
    assert_eq!(encode(&datagrams).expect("encode"), frame);
}
