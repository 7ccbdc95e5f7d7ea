use lsnet::ping::{checksum, echo_request, is_echo_reply, ECHO_REPLY, ECHO_REQUEST};

#[test]
fn request_checksum_verifies() {
    // A correct checksum makes the whole message sum to zero.
    assert_eq!(checksum(&echo_request(0x1234, 1)), 0);
}

#[test]
fn replies_with_and_without_ip_header() {
    let icmp = [ECHO_REPLY, 0, 0, 0, 0, 0, 0, 1];
    assert!(is_echo_reply(&icmp));
    let mut with_ip = vec![0x45; 1];
    with_ip.extend([0u8; 19]);
    with_ip.extend(icmp);
    assert!(is_echo_reply(&with_ip));
    assert!(!is_echo_reply(&[ECHO_REQUEST, 0, 0, 0]));
    assert!(!is_echo_reply(&[0x45, 0, 0]));
}

#[test]
fn requests_carry_id_and_sequence() {
    let p = echo_request(0xabcd, 7);
    assert_eq!(p[0], ECHO_REQUEST);
    assert_eq!(p[1], 0);
    assert_eq!([p[4], p[5], p[6], p[7]], [0xab, 0xcd, 0, 7]);
    assert_eq!(checksum(&[0x45, 0x00, 0x00, 0x1c]), !(0x451cu16));
}

#[test]
fn a_filled_in_checksum_verifies_at_any_even_offset() {
    let mut data = vec![0x45u8, 0x00, 0x00, 0x1c, 0x12, 0x34, 0x00, 0x00, 0xc0, 0xa8, 0x01, 0x01];
    let c = checksum(&data);
    data[6..8].copy_from_slice(&c.to_be_bytes());
    assert_eq!(checksum(&data), 0);
    assert_eq!(checksum(&[]), 0xffff);
}
