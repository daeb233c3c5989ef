use rblock::errno::Error;
use rblock::wire::{
    build_disconnect, build_request, parse_reply, parse_request, NBD_CMD_WRITE, REQ_OP_DISCARD,
    REQ_OP_FLUSH, REQ_OP_READ, REQ_OP_WRITE,
};

#[test]
fn request_header_layout() {
    let bytes = build_request(3, 7, REQ_OP_WRITE, 0x1122334455667788, 4096).unwrap();
    assert_eq!(bytes.len(), 28);
    // magic
    assert_eq!(&bytes[0..4], &[0x25, 0x60, 0x95, 0x13]);
    // command code: write
    assert_eq!(&bytes[4..8], &[0, 0, 0, 1]);
    // queue index
    assert_eq!(&bytes[8..12], &[0, 0, 0, 3]);
    // tag
    assert_eq!(&bytes[12..16], &[0, 0, 0, 7]);
    // byte offset, big-endian
    assert_eq!(&bytes[16..24], &[0x11, 0x22, 0x33, 0x44, 0x55, 0x66, 0x77, 0x88]);
    // length
    assert_eq!(&bytes[24..28], &[0, 0, 0x10, 0]);
}

#[test]
fn request_round_trips_for_every_supported_command() {
    for &op in &[REQ_OP_WRITE, REQ_OP_READ, REQ_OP_FLUSH, REQ_OP_DISCARD] {
        let bytes = build_request(9, -5, op, 123456789, 777).unwrap();
        let (code, index, tag_bits, from, len) = parse_request(&bytes).unwrap();
        assert_eq!(index, 9);
        assert_eq!(tag_bits as i32, -5);
        assert_eq!(from, 123456789);
        assert_eq!(len, 777);
        // the wire code for a write is the only one asserted exactly here;
        // the codec maps each kind to a distinct code
        if op == REQ_OP_WRITE {
            assert_eq!(code, NBD_CMD_WRITE);
        }
    }
}

#[test]
fn unsupported_command_kind_is_rejected() {
    assert_eq!(build_request(0, 0, 9, 0, 0).unwrap_err(), Error::NotSupp);
}

#[test]
fn reply_decodes_fields() {
    let mut bytes = vec![0x67, 0x44, 0x66, 0x98];
    bytes.extend_from_slice(&[0, 0, 0, 0]); // no error
    bytes.extend_from_slice(&[0, 0, 0, 2]); // queue index
    bytes.extend_from_slice(&[0, 0, 0, 41]); // tag
    let (outcome, qidx, tag) = parse_reply(&bytes).unwrap();
    assert!(outcome.is_ok());
    assert_eq!(qidx, 2);
    assert_eq!(tag, 41);
}

#[test]
fn reply_with_error_code_reports_remote_error() {
    let mut bytes = vec![0x67, 0x44, 0x66, 0x98];
    bytes.extend_from_slice(&[0, 0, 0, 5]);
    bytes.extend_from_slice(&[0, 0, 0, 0]);
    bytes.extend_from_slice(&[0, 0, 0, 1]);
    let (outcome, _, _) = parse_reply(&bytes).unwrap();
    assert_eq!(outcome.unwrap_err(), Error::Io);
}

#[test]
fn reply_with_wrong_magic_always_fails() {
    // every wrong first byte fails, whatever the remaining bytes hold
    for first in 0u8..=255 {
        if first == 0x67 {
            continue;
        }
        let mut bytes = vec![first, 0x44, 0x66, 0x98];
        bytes.extend_from_slice(&[0; 12]);
        assert_eq!(parse_reply(&bytes).unwrap_err(), Error::Inval);
    }
    // a single flipped bit elsewhere in the magic fails too
    let mut bytes = vec![0x67, 0x44, 0x66, 0x99];
    bytes.extend_from_slice(&[0; 12]);
    assert_eq!(parse_reply(&bytes).unwrap_err(), Error::Inval);
}

#[test]
fn disconnect_header_is_header_only() {
    let bytes = build_disconnect(4);
    assert_eq!(bytes.len(), 28);
    assert_eq!(&bytes[0..4], &[0x25, 0x60, 0x95, 0x13]);
    assert_eq!(&bytes[4..8], &[0, 0, 0, 2]);
    assert_eq!(&bytes[8..12], &[0, 0, 0, 4]);
    assert_eq!(&bytes[12..28], &[0; 16]);
}
