use kademlia::base::{BitKey, IpAddress, Node, NodeAddr};
use kademlia::messages::{Header, Message, ParseError, RPCPayload, TransactionID};

fn header() -> Header {
    Header { node_id: BitKey(0x102030405060708090A0B0C0D0E0F), transaction_id: TransactionID(0x0102030405060708) }
}

fn localhost_8080() -> NodeAddr {
    NodeAddr { ip: IpAddress::V4(0x7f00_0001), port: 8080 }
}

#[test]
fn ping_req_write() {
    let header = header();
    let bytes = [0, 1, 2, 3, 4, 5, 6, 7, 8, 9, 10, 11, 12, 13, 14, 15, 1, 2, 3, 4, 5, 6, 7, 8, 1];
    let mut buf = [0; 0x100];
    let msg = Message { header, payload: RPCPayload::Ping };
    let count = msg.write(&mut buf);
    assert_eq!(&bytes, &buf[..count]);
}

#[test]
fn ping_resp_write() {
    let header = header();
    let bytes = [0, 1, 2, 3, 4, 5, 6, 7, 8, 9, 10, 11, 12, 13, 14, 15, 1, 2, 3, 4, 5, 6, 7, 8, 2];
    let mut buf = [0; 0x100];
    let msg = Message { header, payload: RPCPayload::PingResp };
    let count = msg.write(&mut buf);
    assert_eq!(&bytes, &buf[..count]);
}

#[test]
fn find_value_req_write() {
    let header = header();
    let string = String::from("AAAA");
    let bytes = [
        0, 1, 2, 3, 4, 5, 6, 7, 8, 9, 10, 11, 12, 13, 14, 15, 1, 2, 3, 4, 5, 6, 7, 8, 7, 4, 65, 65, 65, 65,
    ];
    let mut buf = [0; 0x100];
    let msg = Message { header, payload: RPCPayload::FindValue(string) };
    let count = msg.write(&mut buf);
    assert_eq!(&bytes, &buf[..count]);
}

#[test]
fn find_value_resp_write() {
    let header = header();
    let string = String::from("AAAA");
    let bytes = [
        0, 1, 2, 3, 4, 5, 6, 7, 8, 9, 10, 11, 12, 13, 14, 15, 1, 2, 3, 4, 5, 6, 7, 8, 9, 4, 65, 65, 65, 65,
    ];
    let mut buf = [0; 0x100];
    let msg = Message { header, payload: RPCPayload::FindValueResp(string) };
    let count = msg.write(&mut buf);
    assert_eq!(&bytes, &buf[..count]);
}

#[test]
fn find_value_nodes_write() {
    let header = header();
    let nodes = vec![Node { id: header.node_id, udp_addr: localhost_8080() }];
    let bytes = [
        0, 1, 2, 3, 4, 5, 6, 7, 8, 9, 10, 11, 12, 13, 14, 15, 1, 2, 3, 4, 5, 6, 7, 8, 8, 1, 0, 1, 2, 3, 4, 5, 6, 7, 8,
        9, 10, 11, 12, 13, 14, 15, 4, 127, 0, 0, 1, 31, 144,
    ];
    let mut buf = [0; 0x100];
    let msg = Message { header, payload: RPCPayload::FindValueNodes(nodes) };
    let count = msg.write(&mut buf);
    assert_eq!(&bytes[0..], &buf[..count]);
}

#[test]
fn find_node_req_write() {
    let header = header();
    let bytes = [
        0, 1, 2, 3, 4, 5, 6, 7, 8, 9, 10, 11, 12, 13, 14, 15, 1, 2, 3, 4, 5, 6, 7, 8, 3, 0, 1, 2, 3, 4, 5, 6, 7, 8, 9,
        10, 11, 12, 13, 14, 15,
    ];
    let id = header.node_id;
    let mut buf = [0; 0x100];
    let msg = Message { header, payload: RPCPayload::FindNode(id) };
    let count = msg.write(&mut buf);
    assert_eq!(&bytes[0..], &buf[..count]);
}

#[test]
fn find_node_resp_write() {
    let header = header();
    let nodes = vec![Node { id: header.node_id, udp_addr: localhost_8080() }];
    let bytes = [
        0, 1, 2, 3, 4, 5, 6, 7, 8, 9, 10, 11, 12, 13, 14, 15, 1, 2, 3, 4, 5, 6, 7, 8, 4, 1, 0, 1, 2, 3, 4, 5, 6, 7, 8,
        9, 10, 11, 12, 13, 14, 15, 4, 127, 0, 0, 1, 31, 144,
    ];
    let mut buf = [0; 0x100];
    let msg = Message { header, payload: RPCPayload::FindNodeResp(nodes) };
    let count = msg.write(&mut buf);
    assert_eq!(&bytes[0..], &buf[..count]);
}

#[test]
fn store_req_write() {
    let header = header();
    let key = String::from("AAAA");
    let val = String::from("BBBB");
    let bytes: [u8; 35] = [
        0, 1, 2, 3, 4, 5, 6, 7, 8, 9, 10, 11, 12, 13, 14, 15, 1, 2, 3, 4, 5, 6, 7, 8, 5, 4, 65, 65, 65, 65, 4, 66, 66,
        66, 66,
    ];
    let mut buf = [0; 0x100];
    let msg = Message { header, payload: RPCPayload::Store(key, val) };
    let count = msg.write(&mut buf);
    assert_eq!(&bytes[0..], &buf[..count]);
}

#[test]
fn store_resp_write() {
    let header = header();
    let bytes = [0, 1, 2, 3, 4, 5, 6, 7, 8, 9, 10, 11, 12, 13, 14, 15, 1, 2, 3, 4, 5, 6, 7, 8, 6];
    let mut buf = [0; 0x100];
    let msg = Message { header, payload: RPCPayload::StoreResp };
    let count = msg.write(&mut buf);
    assert_eq!(&bytes, &buf[..count]);
}

fn round_trip(payload: RPCPayload) -> Message {
    let msg = Message { header: header(), payload };
    let bytes = msg.to_bytes();
    let back = Message::parse(&bytes).expect("a written message parses");
    assert_eq!(back.header, header());
    assert_eq!(back.to_bytes(), bytes);
    back
}

#[test]
fn round_trip_every_payload() {
    let v6 = NodeAddr { ip: IpAddress::V6(0x2001_0db8_0000_0000_0000_0000_0000_0001), port: 65535 };
    let nodes = vec![
        Node { id: BitKey(7), udp_addr: localhost_8080() },
        Node { id: BitKey(u128::MAX), udp_addr: v6 },
    ];
    assert!(matches!(round_trip(RPCPayload::Ping).payload, RPCPayload::Ping));
    assert!(matches!(round_trip(RPCPayload::PingResp).payload, RPCPayload::PingResp));
    assert!(matches!(round_trip(RPCPayload::StoreResp).payload, RPCPayload::StoreResp));
    match round_trip(RPCPayload::FindNode(BitKey(99))).payload {
        RPCPayload::FindNode(id) => assert_eq!(id, BitKey(99)),
        other => panic!("unexpected {:?}", other),
    }
    match round_trip(RPCPayload::Store("clé".to_string(), "välue".to_string())).payload {
        RPCPayload::Store(k, v) => {
            assert_eq!(k, "clé");
            assert_eq!(v, "välue");
        }
        other => panic!("unexpected {:?}", other),
    }
    match round_trip(RPCPayload::FindValue("k".to_string())).payload {
        RPCPayload::FindValue(k) => assert_eq!(k, "k"),
        other => panic!("unexpected {:?}", other),
    }
    match round_trip(RPCPayload::FindValueResp(String::new())).payload {
        RPCPayload::FindValueResp(v) => assert_eq!(v, ""),
        other => panic!("unexpected {:?}", other),
    }
    match round_trip(RPCPayload::FindNodeResp(nodes.clone())).payload {
        RPCPayload::FindNodeResp(ns) => {
            assert_eq!(ns, nodes);
            assert_eq!(ns[1].udp_addr, v6);
            assert_eq!(ns[0].udp_addr, localhost_8080());
        }
        other => panic!("unexpected {:?}", other),
    }
    match round_trip(RPCPayload::FindValueNodes(Vec::new())).payload {
        RPCPayload::FindValueNodes(ns) => assert!(ns.is_empty()),
        other => panic!("unexpected {:?}", other),
    }
}

#[test]
fn longest_string_round_trips() {
    let s = "x".repeat(255);
    let msg = Message { header: header(), payload: RPCPayload::FindValue(s.clone()) };
    assert!(msg.fits());
    let bytes = msg.to_bytes();
    assert_eq!(bytes.len(), 24 + 1 + 1 + 255);
    match Message::parse(&bytes).unwrap().payload {
        RPCPayload::FindValue(k) => assert_eq!(k, s),
        other => panic!("unexpected {:?}", other),
    }
    let too_long = Message { header: header(), payload: RPCPayload::FindValue("x".repeat(256)) };
    assert!(!too_long.fits());
}

#[test]
fn parse_short_header_is_insufficient() {
    assert_eq!(Message::parse(&[0u8; 23]).unwrap_err(), ParseError::InsufficientLength);
    assert_eq!(Message::parse(&[0u8; 24]).unwrap_err(), ParseError::InsufficientLength);
    assert_eq!(Header::parse(&[0u8; 10]).unwrap_err(), ParseError::InsufficientLength);
    assert_eq!(TransactionID::parse(&[1, 2, 3]).unwrap_err(), ParseError::InsufficientLength);
    assert_eq!(TransactionID::parse(&[0, 0, 0, 0, 0, 0, 1, 2]).unwrap(), TransactionID(0x0102));
}

#[test]
fn parse_unknown_tag() {
    let mut bytes = vec![0u8; 24];
    bytes.push(10);
    assert_eq!(Message::parse(&bytes).unwrap_err(), ParseError::UnknownMessageType);
    assert_eq!(RPCPayload::parse(&[0]).unwrap_err(), ParseError::UnknownMessageType);
}

#[test]
fn parse_invalid_utf8() {
    let mut bytes = vec![0u8; 24];
    bytes.extend_from_slice(&[7, 2, 0xff, 0xfe]);
    assert_eq!(Message::parse(&bytes).unwrap_err(), ParseError::InvalidString);
}

#[test]
fn parse_truncated_bodies() {
    // a string longer than what follows
    assert_eq!(RPCPayload::parse(&[7, 5, 65, 65]).unwrap_err(), ParseError::InsufficientLength);
    // a find-node id cut short
    assert_eq!(RPCPayload::parse(&[3, 1, 2, 3]).unwrap_err(), ParseError::InsufficientLength);
    // a node list announcing more nodes than it holds
    assert_eq!(RPCPayload::parse(&[4, 1, 0, 0]).unwrap_err(), ParseError::InsufficientLength);
    // a store whose value is missing
    assert_eq!(RPCPayload::parse(&[5, 1, 65]).unwrap_err(), ParseError::InsufficientLength);
}

#[test]
fn response_and_create_headers() {
    let r = Message::response(TransactionID(9), BitKey(4), RPCPayload::Ping);
    assert_eq!(r.header, Header { node_id: BitKey(4), transaction_id: TransactionID(9) });
    let c = Message::create(BitKey(4), RPCPayload::PingResp);
    assert_eq!(c.header.node_id, BitKey(4));
}

#[test]
fn parsed_frame_reencodes_to_its_bytes() {
    let mut frame = vec![0u8; 16];
    frame.extend_from_slice(&[0, 0, 0, 0, 0, 0, 0, 42]);
    // FindValueNodes with one IPv6 node, followed by two stray bytes
    frame.extend_from_slice(&[8, 1]);
    frame.extend_from_slice(&[0xab; 16]);
    frame.push(6);
    frame.extend_from_slice(&[0x11; 16]);
    frame.extend_from_slice(&[0x1f, 0x90]);
    let len = frame.len();
    frame.extend_from_slice(&[9, 9]);
    let msg = Message::parse(&frame).unwrap();
    assert_eq!(msg.header.transaction_id, TransactionID(42));
    assert_eq!(msg.to_bytes(), frame[..len].to_vec());
}
