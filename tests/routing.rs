use kademlia::base::{BitKey, IpAddress, Node, NodeAddr, KEY_SIZE};
use kademlia::routing::{count_leading_zeros, KBucket, KBucketInsert, RoutingTable};

fn make_node(id: u128) -> Node {
    Node { id: BitKey(id), udp_addr: NodeAddr { ip: IpAddress::V4(0), port: 10 } }
}

#[test]
fn kbucket_can_insert_max_size() {
    let max_size = 20;
    let mut bucket = KBucket::new(max_size);
    for x in 0..max_size {
        let node = make_node(x as u128);
        assert_eq!(KBucketInsert::Inserted, bucket.insert(node));
    }
}

#[test]
fn kbucket_pings_first_inserted() {
    let max_size = 20;
    let mut bucket = KBucket::new(max_size);
    for x in 0..max_size {
        let node = Node { id: BitKey(x as u128), udp_addr: NodeAddr { ip: IpAddress::V4(0), port: 10 } };
        bucket.insert(node);
    }
    assert_eq!(KBucketInsert::Ping(make_node(0)), bucket.insert(make_node(max_size as u128)));
}

#[test]
fn kbucket_remove_replaces_waiting() {
    let max_size = 20;
    let mut bucket = KBucket::new(max_size);
    for x in 0..max_size {
        let node = make_node(x as u128);
        bucket.insert(node);
    }
    bucket.insert(make_node(max_size as u128));
    bucket.remove(BitKey(0));
    let data = bucket.entries();
    assert_eq!(Some(&make_node(1)), data.first());
    assert_eq!(Some(&make_node(max_size as u128)), data.last());
}

#[test]
fn routing_table_can_insert() {
    let udp_addr = NodeAddr { ip: IpAddress::V4(0x7f00_0001), port: 1234 };
    let this_node = Node { id: BitKey(0), udp_addr };
    let mut table = RoutingTable::new(this_node, 20);
    for k in 0..KEY_SIZE {
        let id = BitKey(1 << k);
        let node = Node { id, udp_addr };
        assert_eq!(KBucketInsert::Inserted, table.insert(node));
    }
}

#[test]
fn routing_table_closest_is_everything_when_small() {
    let max_size = 20;
    let this_node = make_node(0);
    let mut table = RoutingTable::new(this_node, max_size);
    let mut nodes = Vec::with_capacity(max_size as usize);
    nodes.push(this_node);
    for i in 0..(max_size - 1) {
        let node = make_node(1 << i);
        nodes.push(node);
        table.insert(node);
    }
    assert_eq!(nodes, table.k_closest(this_node.id, max_size as usize));
    assert_eq!(Vec::<Node>::new(), table.k_closest(this_node.id, 0));
    assert_eq!(vec![this_node], table.k_closest(this_node.id, 1));
}

#[test]
fn kbucket_reinsert_moves_to_back() {
    let mut bucket = KBucket::new(3);
    for x in 0..3u128 {
        bucket.insert(make_node(x));
    }
    assert_eq!(KBucketInsert::Inserted, bucket.insert(make_node(0)));
    let ids: Vec<u128> = bucket.entries().iter().map(|n| n.id.0).collect();
    assert_eq!(ids, vec![1, 2, 0]);
}

#[test]
fn kbucket_remove_without_waiting_shrinks() {
    let mut bucket = KBucket::new(3);
    bucket.insert(make_node(1));
    bucket.insert(make_node(2));
    bucket.remove(BitKey(1));
    bucket.remove(BitKey(42));
    let ids: Vec<u128> = bucket.entries().iter().map(|n| n.id.0).collect();
    assert_eq!(ids, vec![2]);
}

#[test]
fn kbucket_replacement_promotes_only_the_newest_waiting() {
    let mut bucket = KBucket::new(2);
    bucket.insert(make_node(1));
    bucket.insert(make_node(2));
    assert_eq!(KBucketInsert::Ping(make_node(1)), bucket.insert(make_node(3)));
    assert_eq!(KBucketInsert::Ping(make_node(1)), bucket.insert(make_node(4)));
    bucket.remove(BitKey(1));
    let ids: Vec<u128> = bucket.entries().iter().map(|n| n.id.0).collect();
    assert_eq!(ids, vec![2, 4]);
    bucket.remove(BitKey(2));
    let ids: Vec<u128> = bucket.entries().iter().map(|n| n.id.0).collect();
    assert_eq!(ids, vec![4, 3]);
}

#[test]
fn kbucket_k_closest_sorted_and_bounded() {
    let mut bucket = KBucket::new(20);
    for x in [9u128, 3, 12, 1, 7] {
        bucket.insert(make_node(x));
    }
    let mut buf = vec![make_node(100)];
    let n = bucket.k_closest(&mut buf, BitKey(2), 3);
    assert_eq!(n, 3);
    let ids: Vec<u128> = buf.iter().map(|n| n.id.0).collect();
    // distances to 2: 3->1, 1->3, 7->5, 9->11, 12->14
    assert_eq!(ids, vec![100, 3, 1, 7]);
    let mut all = Vec::new();
    assert_eq!(bucket.k_closest(&mut all, BitKey(2), 50), 5);
}

#[test]
fn leading_zeros_agree_with_std() {
    let samples = [0u128, 1, 2, 3, 0xff, 1 << 64, (1 << 127) + 5, u128::MAX, 0x1234_5678_9abc];
    for x in samples {
        assert_eq!(count_leading_zeros(x), x.leading_zeros());
    }
    for k in 0..128 {
        assert_eq!(count_leading_zeros(1u128 << k), 127 - k);
    }
}

#[test]
fn bucket_placement_follows_leading_zeros() {
    let this_node = make_node(0);
    let mut table = RoutingTable::new(this_node, 1);
    // 4 and 5 share a bucket (distance with 125 leading zeros); 8 does not
    assert_eq!(KBucketInsert::Inserted, table.insert(make_node(4)));
    assert_eq!(KBucketInsert::Ping(make_node(4)), table.insert(make_node(5)));
    assert_eq!(KBucketInsert::Inserted, table.insert(make_node(8)));
    // the local node is never stored
    assert_eq!(KBucketInsert::Inserted, table.insert(this_node));
    assert_eq!(table.k_closest(BitKey(0), 10).len(), 3);
}

#[test]
fn k_closest_size_is_min_of_k_and_known() {
    let this_node = make_node(1 << 127);
    let mut table = RoutingTable::new(this_node, 20);
    for x in 0..30u128 {
        table.insert(make_node(x));
    }
    // 20 of the 30 fit in their bucket, plus the local node
    for k in [0usize, 1, 5, 20, 21, 22, 100] {
        assert_eq!(table.k_closest(BitKey(3), k).len(), k.min(21));
    }
}

#[test]
fn k_closest_is_ascending_and_nearest() {
    let this_node = make_node(0x55);
    let mut table = RoutingTable::new(this_node, 20);
    let ids = [1u128, 2, 3, 0x40, 0x41, 0x1000, 0x1001, 1 << 90, (1 << 90) + 1, u128::MAX];
    for &x in &ids {
        table.insert(make_node(x));
    }
    let target = BitKey(0x1003);
    let got = table.k_closest(target, 4);
    let mut all: Vec<u128> = ids.iter().copied().chain([0x55]).collect();
    all.sort_by_key(|x| x ^ target.0);
    let want: Vec<u128> = all.into_iter().take(4).collect();
    let got_ids: Vec<u128> = got.iter().map(|n| n.id.0).collect();
    assert_eq!(got_ids, want);
}

#[test]
fn bucket_liveness_scenario() {
    let this_node = make_node(1 << 127);
    let mut table = RoutingTable::new(this_node, 20);
    for x in 0..20u128 {
        assert_eq!(KBucketInsert::Inserted, table.insert(make_node(x)));
    }
    assert_eq!(KBucketInsert::Ping(make_node(0)), table.insert(make_node(20)));
    table.remove(BitKey(0));
    let closest = table.k_closest(BitKey(0), 20);
    assert_eq!(closest.len(), 20);
    assert!(closest.iter().any(|n| n.id == BitKey(20)));
    assert!(!closest.iter().any(|n| n.id == BitKey(0)));
}
