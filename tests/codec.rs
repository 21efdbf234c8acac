use rtmpproxy::binorder::{to_be_u16, to_be_u32, to_le_u32};
use rtmpproxy::header::{read_header, ChunkHeader, HeaderRead};

fn header(format: u32, cs_id: u32, timestamp: u32, length: u32, type_id: u32, stream_id: u32) -> ChunkHeader {
    ChunkHeader { format, cs_id, timestamp, length, type_id, stream_id }
}

#[test]
fn be_and_le_integers() {
    assert_eq!(to_be_u16(&[0x12, 0x34]).unwrap(), 0x1234);
    assert_eq!(to_be_u32(&[0x00, 0x00, 0x10, 0x00]).unwrap(), 4096);
    assert_eq!(to_be_u32(&[0xde, 0xad, 0xbe, 0xef]).unwrap(), 0xdeadbeef);
    assert_eq!(to_le_u32(&[0x01, 0x00, 0x00, 0x00]).unwrap(), 1);
    assert_eq!(to_le_u32(&[0xef, 0xbe, 0xad, 0xde]).unwrap(), 0xdeadbeef);
}

#[test]
fn wrong_slice_lengths_fail() {
    assert!(to_be_u16(&[1]).is_err());
    assert!(to_be_u16(&[1, 2, 3]).is_err());
    assert!(to_be_u32(&[1, 2, 3]).is_err());
    assert!(to_le_u32(&[]).is_err());
}

#[test]
fn format0_header_bytes() {
    let h = header(0, 3, 0x010203, 0x000105, 20, 1);
    assert_eq!(
        h.as_bytes(),
        vec![0x03, 0x01, 0x02, 0x03, 0x00, 0x01, 0x05, 20, 0x01, 0x00, 0x00, 0x00]
    );
}

#[test]
fn format_sizes() {
    assert_eq!(header(1, 3, 5, 6, 8, 9).as_bytes(), vec![0x43, 0, 0, 5, 0, 0, 6, 8]);
    assert_eq!(header(2, 3, 5, 6, 8, 9).as_bytes(), vec![0x83, 0, 0, 5]);
    assert_eq!(header(3, 3, 5, 6, 8, 9).as_bytes(), vec![0xc3]);
}

#[test]
fn header_round_trip_format0() {
    for &(cs_id, ts) in &[(2u32, 0u32), (63, 1000), (64, 0xfffffe), (319, 0xffffff), (320, 0x1000000), (65599, 0xffffffff)] {
        let h = header(0, cs_id, ts, 0xabcdef, 20, 0x01020304);
        let mut bytes = h.as_bytes();
        let size = bytes.len();
        bytes.extend_from_slice(&[9, 9, 9]);
        assert_eq!(read_header(&bytes), HeaderRead::Complete { header: h, size });
    }
}

#[test]
fn cs_id_extension_forms() {
    assert_eq!(header(3, 2, 0, 0, 0, 0).as_bytes(), vec![0xc2]);
    assert_eq!(header(3, 63, 0, 0, 0, 0).as_bytes(), vec![0xff]);
    assert_eq!(header(3, 64, 0, 0, 0, 0).as_bytes(), vec![0xc0, 0x00]);
    assert_eq!(header(3, 319, 0, 0, 0, 0).as_bytes(), vec![0xc0, 0xff]);
    assert_eq!(header(3, 320, 0, 0, 0, 0).as_bytes(), vec![0xc1, 0x01, 0x00]);
    assert_eq!(header(3, 65599, 0, 0, 0, 0).as_bytes(), vec![0xc1, 0xff, 0xff]);
    for &cs_id in &[2u32, 63, 64, 319, 320, 1000, 65599] {
        let bytes = header(3, cs_id, 0, 0, 0, 0).as_bytes();
        match read_header(&bytes) {
            HeaderRead::Complete { header, size } => {
                assert_eq!(header.cs_id, cs_id);
                assert_eq!(size, bytes.len());
            }
            other => panic!("unexpected {:?}", other),
        }
    }
}

#[test]
fn extended_timestamp_form() {
    let h = header(2, 3, 0x1000000, 0, 0, 0);
    assert_eq!(h.as_bytes(), vec![0x83, 0xff, 0xff, 0xff, 0x01, 0x00, 0x00, 0x00]);
    let low = header(2, 3, 0xfffffe, 0, 0, 0);
    assert_eq!(low.as_bytes(), vec![0x83, 0xff, 0xff, 0xfe]);
    match read_header(&h.as_bytes()) {
        HeaderRead::Complete { header, size } => {
            assert_eq!(header.timestamp, 0x1000000);
            assert_eq!(size, 8);
        }
        other => panic!("unexpected {:?}", other),
    }
}

#[test]
fn short_header_needs_more() {
    assert_eq!(read_header(&[]), HeaderRead::Incomplete { needed: 1 });
    // selector 0: one id byte follows, then the 11-byte message header
    assert_eq!(read_header(&[0x00]), HeaderRead::Incomplete { needed: 13 });
    // selector 1: two id bytes follow
    assert_eq!(read_header(&[0x41, 0x00]), HeaderRead::Incomplete { needed: 10 });
    // the 3-byte timestamp is the sentinel: four more bytes are needed
    assert_eq!(read_header(&[0x83, 0xff, 0xff, 0xff]), HeaderRead::Incomplete { needed: 8 });
}
