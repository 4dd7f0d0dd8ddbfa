use zonekeeper::notify::{build_notify_packet, encode_name, notify_packet_with_id, notify_reply};

#[test]
fn encode_name_works() {
    let encoded = encode_name("example.com");
    assert_eq!(encoded, vec![7, b'e', b'x', b'a', b'm', b'p', b'l', b'e', 3, b'c', b'o', b'm', 0]);
}

#[test]
fn encode_name_strips_trailing_dot() {
    let encoded = encode_name("example.com.");
    assert_eq!(encoded, vec![7, b'e', b'x', b'a', b'm', b'p', b'l', b'e', 3, b'c', b'o', b'm', 0]);
}

#[test]
fn notify_packet_has_correct_header() {
    let pkt = build_notify_packet("test.local");
    assert_eq!(pkt[2], 0x24); // OPCODE=4, AA=1
    assert_eq!(pkt[3], 0x00);
    assert_eq!(pkt[4..6], [0x00, 0x01]); // QDCOUNT=1
}

#[test]
fn notify_packet_has_soa_question() {
    let pkt = build_notify_packet("test.local");
    // header(12) + 1+"test"(5) + 1+"local"(6) + null(1) = 24
    let qname_end = 12 + 5 + 6 + 1;
    assert_eq!(pkt[qname_end..qname_end + 2], [0x00, 0x06]); // SOA
    assert_eq!(pkt[qname_end + 2..qname_end + 4], [0x00, 0x01]); // IN
}

#[test]
fn encode_name_counts_utf8_bytes() {
    // "é" is two bytes in UTF-8
    assert_eq!(encode_name("é.x"), vec![2, 0xc3, 0xa9, 1, b'x', 0]);
}

#[test]
fn encode_name_of_root_and_empty() {
    assert_eq!(encode_name("."), vec![0, 0]);
    assert_eq!(encode_name(""), vec![0, 0]);
}

#[test]
fn notify_packet_puts_id_big_endian() {
    let pkt = notify_packet_with_id(0x1234, "a.b");
    assert_eq!(pkt, vec![0x12, 0x34, 0x24, 0, 0, 1, 0, 0, 0, 0, 0, 0, 1, b'a', 1, b'b', 0, 0, 6, 0, 1]);
    assert_eq!(build_notify_packet("a.b").len(), pkt.len());
}

#[test]
fn notify_reply_outcomes() {
    assert_eq!(notify_reply(None, "1.2.3.4:53"), Ok("NOTIFY sent to 1.2.3.4:53 (no response)".to_string()));
    assert_eq!(notify_reply(Some(vec![0, 0, 0x84, 0x00]), "1.2.3.4:53"), Ok("NOTIFY accepted by 1.2.3.4:53".to_string()));
    assert_eq!(
        notify_reply(Some(vec![0, 0, 0x84, 0x15]), "1.2.3.4:53"),
        Err("NOTIFY refused by 1.2.3.4:53 (rcode=5)".to_string())
    );
    assert_eq!(notify_reply(Some(vec![0, 0, 0x84]), "1.2.3.4:53"), Err("Invalid response from 1.2.3.4:53".to_string()));
}
