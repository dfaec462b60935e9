//! Byte-level checks of the section codec and the container round trip.

use brstm::brstm::BrstmInformation;
use brstm::structs::{
    AdpcmChannelInformation, BrstmHeader, ChannelInfoOffset, Head1, Head2, Head3,
    HeadSectionHeader, ParseErrorKind, TrackDescription, TrackInfoOffset,
};

fn ser_len<F: FnOnce(&mut Vec<u8>)>(f: F) -> usize {
    let mut buf = Vec::new();
    f(&mut buf);
    buf.len()
}

#[test]
pub fn check_byte_lens() {
    let header = BrstmHeader::default();
    assert_eq!(
        BrstmHeader::byte_len() as usize,
        ser_len(|b| header.write_into(b))
    );

    let head = HeadSectionHeader::default();
    assert_eq!(
        HeadSectionHeader::byte_len() as usize,
        ser_len(|b| head.write_into(b))
    );

    let head1 = Head1::default();
    assert_eq!(Head1::byte_len() as usize, ser_len(|b| head1.write_into(b)));

    let mut head2 = Head2::default();
    assert_eq!(
        Head2::byte_len(0) as usize,
        ser_len(|b| head2.write_into(b))
    );

    head2.track_info_offsets.push(TrackInfoOffset::default());
    head2.track_info_offsets.push(TrackInfoOffset::default());
    assert_eq!(
        Head2::byte_len(2) as usize,
        ser_len(|b| head2.write_into(b))
    );

    let mut head3 = Head3::default();
    assert_eq!(
        Head3::byte_len(0) as usize,
        ser_len(|b| head3.write_into(b))
    );

    head3.info_offsets.push(ChannelInfoOffset::default());
    head3.info_offsets.push(ChannelInfoOffset::default());
    head3.info_offsets.push(ChannelInfoOffset::default());
    assert_eq!(
        Head3::byte_len(3) as usize,
        ser_len(|b| head3.write_into(b))
    );

    let channel_info = AdpcmChannelInformation::default();
    assert_eq!(
        AdpcmChannelInformation::byte_len() as usize,
        ser_len(|b| channel_info.write_into(b))
    );
}

#[test]
fn header_parse_rejects_bad_magic() {
    let header = BrstmHeader::default();
    let mut buf = Vec::new();
    header.write_into(&mut buf);
    assert!(BrstmHeader::parse(&buf, 0).is_ok());
    buf[0] = b'X';
    let e = BrstmHeader::parse(&buf, 0).unwrap_err();
    assert_eq!(e.kind, ParseErrorKind::BadMagic);
}

#[test]
fn header_parse_rejects_bad_bom() {
    let header = BrstmHeader::default();
    let mut buf = Vec::new();
    header.write_into(&mut buf);
    buf[4] = 0xFF;
    buf[5] = 0xFE;
    let e = BrstmHeader::parse(&buf, 0).unwrap_err();
    assert_eq!(e.kind, ParseErrorKind::BadBom);
}

#[test]
fn header_parse_rejects_short_input() {
    let e = BrstmHeader::parse(&[0u8; 16], 0).unwrap_err();
    assert_eq!(e.kind, ParseErrorKind::OutOfRange);
}

#[test]
fn header_roundtrip_fields() {
    let header = BrstmHeader {
        file_length: 0x1234_5678,
        head_offset: 0x40,
        head_size: 0x100,
        adpc_offset: 0x140,
        adpc_size: 0x20,
        data_offset: 0x160,
        data_size: 0x2020,
    };
    let mut buf = Vec::new();
    header.write_into(&mut buf);
    assert_eq!(buf.len(), 0x40);
    let parsed = BrstmHeader::parse(&buf, 0).unwrap();
    assert_eq!(parsed, header);
}

#[test]
fn track_description_versions() {
    let mut t = TrackDescription::default();
    assert_eq!(t.get_version(), 0);
    assert_eq!(t.byte_len(), 4);
    t.info_v1 = Some(brstm::structs::TrackDescriptionV1::default());
    assert_eq!(t.get_version(), 1);
    assert_eq!(t.byte_len(), 12);
    let v1 = brstm::structs::TrackDescriptionV1::default();
    assert_eq!(v1.track_volume, 0x7F);
    assert_eq!(v1.track_panning, 64);
}

#[test]
fn adpc_and_data_section_readers() {
    // an ADPC section: magic, length 12, four payload bytes
    let bytes = [
        b'A', b'D', b'P', b'C', 0, 0, 0, 12, 1, 2, 3, 4,
    ];
    let payload = brstm::structs::read_adpcm_section(&bytes, 0).unwrap();
    assert_eq!(payload, vec![1, 2, 3, 4]);

    let mut data = vec![b'D', b'A', b'T', b'A', 0, 0, 0, 0x22, 0, 0, 0, 0x18];
    data.resize(0x20, 0);
    data.push(0xAA);
    data.push(0xBB);
    data[7] = 0x22;
    let payload = brstm::structs::read_data_section(&data, 0).unwrap();
    assert_eq!(payload, vec![0xAA, 0xBB]);

    // a broken magic is refused
    let e = brstm::structs::read_adpcm_section(&data, 0).unwrap_err();
    assert_eq!(e.kind, ParseErrorKind::BadMagic);
}

#[test]
fn parse_rejects_truncated_file() {
    assert!(BrstmInformation::from_reader(&[0u8; 8]).is_err());
}
