use kademlia::base::{BitKey, IpAddress, Node, NodeAddr};

#[test]
fn bitkey_distance() {
    let a = BitKey(1);
    let b = BitKey(2);
    assert_eq!(3, a.distance(b));
    assert_eq!(3, b.distance(a));
    assert_eq!(0, a.distance(a));
    let z = BitKey(0);
    assert_eq!(a.0, z.distance(a));
    assert_eq!(b.0, z.distance(b));
}

#[test]
fn bitkey_hash() {
    let s = "Hello World";
    let i = u128::from_be_bytes([215, 120, 229, 2, 47, 171, 112, 25, 119, 197, 216, 64, 187, 196, 134, 208]);
    assert_eq!(BitKey(i), BitKey::from_hash(s));
}

#[test]
fn bitkey_from_digest_takes_low_sixteen_bytes() {
    let mut digest = [0u8; 20];
    for (i, b) in digest.iter_mut().enumerate() {
        *b = i as u8;
    }
    let expected = u128::from_be_bytes([4, 5, 6, 7, 8, 9, 10, 11, 12, 13, 14, 15, 16, 17, 18, 19]);
    assert_eq!(BitKey(expected), BitKey::from_digest(&digest));
}

#[test]
fn bitkey_hash_differs_between_keys() {
    assert_ne!(BitKey::from_hash("a"), BitKey::from_hash("b"));
    assert_eq!(BitKey::from_hash("key"), BitKey::from_hash("key"));
}

#[test]
fn distance_metric_on_values() {
    let keys = [BitKey(0), BitKey(1), BitKey(0xdead_beef), BitKey(u128::MAX), BitKey(1 << 100)];
    for &a in &keys {
        for &b in &keys {
            assert_eq!(a.distance(b) == 0, a == b);
            assert_eq!(a.distance(b), b.distance(a));
            for &c in &keys {
                assert_eq!(a.distance(c), a.distance(b) ^ b.distance(c));
                assert!(a.distance(c) as u128 <= a.distance(b).saturating_add(b.distance(c)));
            }
        }
    }
}

#[test]
fn node_equality_is_by_id() {
    let a = Node { id: BitKey(5), udp_addr: NodeAddr { ip: IpAddress::V4(1), port: 1 } };
    let b = Node { id: BitKey(5), udp_addr: NodeAddr { ip: IpAddress::V6(2), port: 2 } };
    let c = Node { id: BitKey(6), udp_addr: NodeAddr { ip: IpAddress::V4(1), port: 1 } };
    assert!(a == b);
    assert!(a != c);
    assert_eq!(a.distance(&c), 3);
}

#[test]
fn created_node_keeps_address() {
    let addr = NodeAddr { ip: IpAddress::V4(0x7f00_0001), port: 8080 };
    let n = Node::create(addr);
    assert_eq!(n.udp_addr, addr);
}
