use mehdb::store::Header;

#[test]
fn header_can_pack() {
    let header: Header = Header { global_depth: 1, num_segments: 2 };
    let buf = header.to_bytes();
    let expected_buf: [u8; 16] = [
        0x1, 0x0, 0x0, 0x0, 0x0, 0x0, 0x0, 0x0, 0x2, 0x0, 0x0, 0x0, 0x0, 0x0, 0x0, 0x0,
    ];
    assert_eq!(&buf[..], &expected_buf[..]);
}

#[test]
fn header_can_unpack() {
    let fixture: Vec<u8> = vec![
        0x1, 0x0, 0x0, 0x0, 0x0, 0x0, 0x0, 0x0, 0x2, 0x0, 0x0, 0x0, 0x0, 0x0, 0x0, 0x0,
    ];
    let header = match Header::from_bytes(&fixture) {
        Err(e) => panic!("Unable to unpack header: {:?}", e),
        Ok(h) => h,
    };
    assert_eq!(header.global_depth, 1);
    assert_eq!(header.num_segments, 2);
}

#[test]
fn header_too_small_buffer_unpack() {
    let fixture: Vec<u8> = vec![0x1, 0x0, 0x0, 0x0, 0x0, 0x0, 0x0, 0x0];
    match Header::from_bytes(&fixture) {
        Err(_e) => (),
        Ok(_h) => panic!("Was able to unpack header from too small of buffer."),
    }
}
