use telemetry_packet::data_entry::Entry;
use telemetry_packet::entry::Id;
use telemetry_packet::packet::{checksum, Packet, PacketError};

fn entry(id: Id, payload: &[u8]) -> Entry {
    Entry::from_array(id, payload).unwrap()
}

#[test]
fn crc16_usb_check_value() {
    assert_eq!(checksum(b"123456789"), 0xB4C8);
}

#[test]
fn temperature_push_scenario() {
    let mut p = Packet::new(vec![0u8; 64]);
    assert_eq!(p.version(), 1);
    assert_eq!(p.capacity(), 64);
    p.push(&entry(Id::Temperature, &[0x1C, 0x00])).unwrap();
    assert_eq!(p.total_length(), 5);
    assert_eq!(p.entry_count(), 1);
    assert_eq!(p.offset(0), Some(0));
    let e = p.get_entry(0).unwrap();
    assert_eq!(*e.id(), Id::Temperature);
    assert_eq!(e.data(), &[0x1C, 0x00]);
}

#[test]
fn clear_then_push_at_offset_zero() {
    let mut p = Packet::new(vec![0u8; 64]);
    p.push(&entry(Id::Text, b"abc")).unwrap();
    p.push(&entry(Id::Pressure, &[1, 2])).unwrap();
    p.push(&entry(Id::Raw, &[9; 10])).unwrap();
    assert_eq!(p.entry_count(), 3);
    p.clear();
    assert_eq!(p.entry_count(), 0);
    assert_eq!(p.total_length(), 0);
    assert_eq!(p.get_entry(0).unwrap_err(), PacketError::IndexOutOfRange);
    p.push(&entry(Id::Command, &[7, 8])).unwrap();
    assert_eq!(p.offset(0), Some(0));
    assert_eq!(p.total_length(), 5);
    let e = p.get_entry(0).unwrap();
    assert_eq!(*e.id(), Id::Command);
    assert_eq!(e.data(), &[7, 8]);
}

#[test]
fn entries_come_back_in_push_order() {
    let mut p = Packet::new(vec![0u8; 200]);
    let items: Vec<(Id, Vec<u8>)> = vec![
        (Id::Text, b"hi".to_vec()),
        (Id::Temperature, vec![1, 2]),
        (Id::Raw, vec![]),
        (Id::Raw, vec![5; 40]),
        (Id::Pressure, vec![3, 4]),
    ];
    for (id, d) in &items {
        p.push(&entry(*id, d)).unwrap();
    }
    let expected_offsets = [0u16, 5, 10, 13, 56];
    for (i, (id, d)) in items.iter().enumerate() {
        assert_eq!(p.offset(i as u8), Some(expected_offsets[i]));
        let e = p.get_entry(i as u8).unwrap();
        assert_eq!(e.id(), id);
        assert_eq!(e.data(), d.as_slice());
    }
    assert_eq!(p.total_length(), 61);
    assert_eq!(p.get_entry(5).unwrap_err(), PacketError::IndexOutOfRange);
    assert_eq!(p.offset(5), None);
}

#[test]
fn overflow_leaves_packet_unchanged() {
    let mut p = Packet::new(vec![0u8; 10]);
    p.push(&entry(Id::Temperature, &[1, 2])).unwrap();
    assert_eq!(p.push(&entry(Id::Text, b"abc")), Err(PacketError::DataOverflow));
    assert_eq!(p.entry_count(), 1);
    assert_eq!(p.total_length(), 5);
    let e = p.get_entry(0).unwrap();
    assert_eq!(e.data(), &[1, 2]);
    p.push(&entry(Id::Text, b"ab")).unwrap();
    assert_eq!(p.total_length(), 10);
    assert_eq!(p.push(&entry(Id::Raw, &[])), Err(PacketError::DataOverflow));
}

#[test]
fn table_full_after_255_pushes() {
    let mut p = Packet::new(vec![0u8; 65535]);
    for i in 0..255u32 {
        p.push(&entry(Id::Raw, &[i as u8])).unwrap();
    }
    assert_eq!(p.entry_count(), 255);
    assert_eq!(p.push(&entry(Id::Raw, &[])), Err(PacketError::TableFull));
    assert_eq!(p.entry_count(), 255);
    assert_eq!(p.total_length(), 255 * 4);
    let e = p.get_entry(254).unwrap();
    assert_eq!(e.data(), &[254]);
}

#[test]
fn finalize_then_validate() {
    let mut p = Packet::new(vec![0u8; 64]);
    p.push(&entry(Id::Temperature, &[0x1C, 0x00])).unwrap();
    p.push(&entry(Id::Text, b"ok")).unwrap();
    assert_eq!(p.size(), 13);
    assert_eq!(p.size_crc(), 15);
    let mut out = [0u8; 20];
    assert_eq!(p.finalize(&mut out), Ok(()));
    assert_eq!(&out[..13], &[1, 10, 0, 10, 2, 0, 0x1C, 0x00, 1, 2, 0, b'o', b'k']);
    let crc = checksum(&out[..13]);
    assert_eq!(&out[13..15], &crc.to_le_bytes());
    assert_eq!(Packet::validate(&out[..15]), Ok(()));
    assert_eq!(Packet::validate(&out), Ok(()));
}

#[test]
fn single_bit_flips_are_detected() {
    let mut p = Packet::new(vec![0u8; 64]);
    p.push(&entry(Id::Raw, &[0xDE, 0xAD, 0xBE, 0xEF])).unwrap();
    let mut out = vec![0u8; p.size_crc()];
    p.finalize(&mut out).unwrap();
    for byte in 3..out.len() - 2 {
        for bit in 0..8 {
            let mut bad = out.clone();
            bad[byte] ^= 1 << bit;
            assert_eq!(Packet::validate(&bad), Err(PacketError::CrcMismatch));
        }
    }
}

#[test]
fn finalize_into_small_buffer_fails_untouched() {
    let mut p = Packet::new(vec![0u8; 16]);
    p.push(&entry(Id::Pressure, &[1, 2])).unwrap();
    let mut out = [0x55u8; 9];
    assert_eq!(p.finalize(&mut out), Err(PacketError::BufferTooSmall));
    assert_eq!(out, [0x55u8; 9]);
}

#[test]
fn empty_packet_frame() {
    let p = Packet::new(vec![]);
    let mut out = [0u8; 5];
    p.finalize(&mut out).unwrap();
    assert_eq!(&out[..3], &[1, 0, 0]);
    assert_eq!(Packet::validate(&out), Ok(()));
}

#[test]
fn validate_truncated() {
    assert_eq!(Packet::validate(&[1, 0, 0, 0]), Err(PacketError::Truncated));
    assert_eq!(Packet::validate(&[1, 3, 0, 10, 2, 0]), Err(PacketError::Truncated));
}

fn frame_of(data: &[u8]) -> Vec<u8> {
    let mut b = vec![1u8, (data.len() % 256) as u8, (data.len() / 256) as u8];
    b.extend_from_slice(data);
    let crc = checksum(&b);
    b.extend_from_slice(&crc.to_le_bytes());
    b
}

#[test]
fn from_frame_rebuilds_the_entries() {
    let mut p = Packet::new(vec![0u8; 100]);
    p.push(&entry(Id::Temperature, &[0x1C, 0x00])).unwrap();
    p.push(&entry(Id::Text, b"hello")).unwrap();
    p.push(&entry(Id::Raw, &[])).unwrap();
    let mut out = vec![0u8; p.size_crc()];
    p.finalize(&mut out).unwrap();
    let q = Packet::from_frame(&out).unwrap();
    assert_eq!(q.entry_count(), 3);
    assert_eq!(q.total_length(), p.total_length());
    assert_eq!(q.capacity(), 16);
    for i in 0..3u8 {
        assert_eq!(q.offset(i), p.offset(i));
        let a = p.get_entry(i).unwrap();
        let b = q.get_entry(i).unwrap();
        assert_eq!(a.id(), b.id());
        assert_eq!(a.data(), b.data());
    }
}

#[test]
fn from_frame_errors() {
    let good = frame_of(&[10, 2, 0, 1, 2]);
    assert!(Packet::from_frame(&good).is_ok());
    let mut bad = good.clone();
    bad[4] ^= 0x80;
    assert_eq!(Packet::from_frame(&bad).err(), Some(PacketError::CrcMismatch));
    assert_eq!(Packet::from_frame(&good[..6]).err(), Some(PacketError::Truncated));
    assert_eq!(Packet::from_frame(&frame_of(&[42, 0, 0])).err(), Some(PacketError::MalformedEntry));
    assert_eq!(Packet::from_frame(&frame_of(&[0, 5, 0, 1])).err(), Some(PacketError::MalformedEntry));
    assert_eq!(Packet::from_frame(&frame_of(&[10, 1, 0, 1])).err(), Some(PacketError::MalformedEntry));
}

#[test]
fn from_frame_with_too_many_entries() {
    let data: Vec<u8> = [0u8, 0, 0].repeat(256);
    assert_eq!(Packet::from_frame(&frame_of(&data)).err(), Some(PacketError::TableFull));
    let q = Packet::from_frame(&frame_of(&data[..255 * 3])).unwrap();
    assert_eq!(q.entry_count(), 255);
}
