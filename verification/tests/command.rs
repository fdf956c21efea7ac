use arthouse::command::{decode, ArtNetCommand};
use artnet_protocol::{ArtCommand, Output, Poll};

fn output_datagram(universe: u16, sequence: u8, data: &[u8]) -> Vec<u8> {
    let mut raw = vec![b'A', b'r', b't', b'-', b'N', b'e', b't', 0];
    raw.extend_from_slice(&[0x00, 0x50]);
    raw.extend_from_slice(&[0, 14]);
    raw.push(sequence);
    raw.push(0);
    raw.extend_from_slice(&universe.to_le_bytes());
    raw.extend_from_slice(&(data.len() as u16).to_be_bytes());
    raw.extend_from_slice(data);
    raw
}

#[test]
fn decodes_an_output() {
    let raw = output_datagram(3, 17, &[1, 2, 3, 4]);
    assert_eq!(
        decode(&raw),
        Ok(ArtNetCommand::Output { universe: 3, sequence: 17, data: vec![1, 2, 3, 4] })
    );
}

#[test]
fn decodes_the_universe_from_both_bytes() {
    let raw = output_datagram(0x1234, 0, &[9, 8]);
    assert_eq!(raw[14], 0x34);
    assert_eq!(raw[15], 0x12);
    assert_eq!(
        decode(&raw),
        Ok(ArtNetCommand::Output { universe: 0x1234, sequence: 0, data: vec![9, 8] })
    );
    let raw = output_datagram(32767, 255, &[5, 6]);
    assert_eq!(
        decode(&raw),
        Ok(ArtNetCommand::Output { universe: 32767, sequence: 255, data: vec![5, 6] })
    );
}

#[test]
fn decodes_what_the_encoder_of_the_protocol_writes() {
    let command = ArtCommand::Output(Output {
        sequence: 7,
        port_address: 5.into(),
        data: vec![10, 20, 30, 40].into(),
        ..Output::default()
    });
    let raw = command.write_to_buffer().unwrap();
    assert_eq!(
        decode(&raw),
        Ok(ArtNetCommand::Output { universe: 5, sequence: 7, data: vec![10, 20, 30, 40] })
    );
}

#[test]
fn output_data_is_all_that_follows_the_length() {
    let mut raw = output_datagram(1, 0, &[1, 2, 3, 4]);
    raw[16] = 0;
    raw[17] = 2;
    assert_eq!(
        decode(&raw),
        Ok(ArtNetCommand::Output { universe: 1, sequence: 0, data: vec![1, 2, 3, 4] })
    );
    let raw = output_datagram(1, 0, &[]);
    assert_eq!(raw.len(), 18);
    assert_eq!(decode(&raw), Ok(ArtNetCommand::Output { universe: 1, sequence: 0, data: vec![] }));
}

#[test]
fn output_takes_a_full_universe() {
    let data: Vec<u8> = (0..512).map(|i| (i % 251) as u8).collect();
    let raw = output_datagram(2, 1, &data);
    assert_eq!(decode(&raw), Ok(ArtNetCommand::Output { universe: 2, sequence: 1, data }));
}

#[test]
fn refuses_a_short_output() {
    for len in 0..18 {
        let raw = output_datagram(1, 0, &[1, 2]);
        let result = decode(&raw[..len]);
        assert!(result.is_err(), "{} bytes: {:?}", len, result);
        assert!(!result.unwrap_err().message.is_empty());
    }
}

#[test]
fn refuses_a_port_address_of_more_than_15_bits() {
    let mut raw = output_datagram(1, 0, &[1, 2]);
    raw[15] = 0x80;
    assert!(decode(&raw).is_err());
    raw[15] = 0x7F;
    raw[14] = 0xFF;
    assert_eq!(decode(&raw), Ok(ArtNetCommand::Output { universe: 32767, sequence: 0, data: vec![1, 2] }));
}

#[test]
fn refuses_a_wrong_header() {
    for at in 0..8 {
        let mut raw = output_datagram(1, 0, &[1, 2]);
        raw[at] ^= 1;
        assert!(decode(&raw).is_err());
    }
}

#[test]
fn refuses_an_unknown_operation() {
    let mut raw = output_datagram(1, 0, &[1, 2]);
    raw[8] = 0x01;
    let error = decode(&raw).unwrap_err();
    assert!(!error.message.is_empty());
    raw[8] = 0x00;
    raw[9] = 0x51;
    assert!(matches!(decode(&raw), Ok(ArtNetCommand::Other { .. })));
}

#[test]
fn other_commands_are_other() {
    let raw = ArtCommand::Poll(Poll::default()).write_to_buffer().unwrap();
    match decode(&raw) {
        Ok(ArtNetCommand::Other { description }) => assert!(description.starts_with("Poll")),
        other => panic!("{:?}", other),
    }
    let mut raw = output_datagram(1, 0, &[1, 2]);
    raw[9] = 0x52;
    assert_eq!(decode(&raw), Ok(ArtNetCommand::Other { description: "Sync".to_string() }));
}
