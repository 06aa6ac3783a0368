use lseq::payload::Payload;
use lseq::{Builder, PathTooLong, Position};

#[test]
fn payload_round_trip() {
    let position = Position::new(7, 11, &[1, 2, 3, 4]).unwrap();
    let payload = Payload::from_position(&position, |site| 1000 + site as u128);
    assert_eq!(payload.site, 1007);
    assert_eq!(payload.clock, 11);
    assert_eq!(payload.path.digits(), vec![1, 2, 3, 4]);
    assert_eq!(payload.path.len(), 4);
    let back = payload.into_position(|name| (name - 1000) as u16).unwrap();
    assert!(back == position);
}

#[test]
fn payload_with_a_long_path() {
    let digits = vec![9u32; 65536];
    let payload = Payload { site: 5, clock: 6, path: Builder::with_digits(&digits) };
    assert_eq!(payload.into_position(|_| 1).err(), Some(PathTooLong(65536)));
    let payload = Payload { site: 5, clock: 6, path: Builder::with_digits(&digits[..65535]) };
    let position = payload.into_position(|_| 1).unwrap();
    assert_eq!(position.level(), 65535);
    assert_eq!((position.site_id(), position.clock()), (1, 6));
}
