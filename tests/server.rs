use kademlia::base::{BitKey, IpAddress, Node, NodeAddr};
use kademlia::messages::{Header, Message, RPCPayload, TransactionID};
use kademlia::query::{NodeQuery, Query, QueryIntention, QueryStatus, TransactionTable, K};
use kademlia::server::{make_server_comms, FromServerMsg, KeyStore, ServerHandle, ToServerMsg};

fn addr(port: u16) -> NodeAddr {
    NodeAddr { ip: IpAddress::V4(0x7f00_0001), port }
}

fn node(id: u128) -> Node {
    Node { id: BitKey(id), udp_addr: addr(1000 + (id % 1000) as u16) }
}

fn msg(from: u128, tx: u64, payload: RPCPayload) -> Message {
    Message { header: Header { node_id: BitKey(from), transaction_id: TransactionID(tx) }, payload }
}

#[test]
fn transaction_table_lifecycle() {
    let mut t = TransactionTable::new();
    let h = Header { node_id: BitKey(7), transaction_id: TransactionID(1) };
    t.insert(h, 1000);
    t.insert(Header { node_id: BitKey(8), transaction_id: TransactionID(2) }, 3000);
    assert!(t.contains(TransactionID(1)));
    assert!(!t.contains(TransactionID(3)));
    let mut stale = Vec::new();
    // 5000 ms after the first call is not yet stale; one more is
    t.remove_stale(6000, &mut stale);
    assert!(stale.is_empty());
    t.remove_stale(6001, &mut stale);
    assert_eq!(stale, vec![BitKey(7)]);
    assert!(!t.contains(TransactionID(1)));
    assert!(t.remove(TransactionID(2)));
    assert!(!t.remove(TransactionID(2)));
}

#[test]
fn transaction_table_insert_replaces_same_transaction() {
    let mut t = TransactionTable::new();
    t.insert(Header { node_id: BitKey(1), transaction_id: TransactionID(5) }, 0);
    t.insert(Header { node_id: BitKey(2), transaction_id: TransactionID(5) }, 100);
    let mut stale = Vec::new();
    t.remove_stale(5050, &mut stale);
    assert!(stale.is_empty());
    t.remove_stale(5101, &mut stale);
    assert_eq!(stale, vec![BitKey(2)]);
}

#[test]
fn intention_key_to_find() {
    assert_eq!(QueryIntention::Get("k".to_string()).key_to_find(), Some("k".to_string()));
    assert_eq!(QueryIntention::Store("k".to_string(), "v".to_string()).key_to_find(), None);
}

#[test]
fn query_shortlist_keeps_k_nearest_in_order() {
    let mut q = Query::new(QueryIntention::Get("key".to_string()));
    assert_eq!(q.target, BitKey::from_hash("key"));
    let t = q.target.0;
    for x in 1..=30u128 {
        assert!(q.add_node(node(t ^ x)));
    }
    assert!(!q.add_node(node(t ^ 5)));
    assert_eq!(q.closest.len(), K);
    let ds: Vec<u128> = q.closest.iter().map(|e| e.distance).collect();
    assert_eq!(ds, (1..=20u128).collect::<Vec<_>>());
    assert_eq!(q.find_node(BitKey(t ^ 3)), Ok(2));
    assert_eq!(q.find_node(BitKey(t ^ 25)), Err(20));
    q.update_status(BitKey(t ^ 1), QueryStatus::Started);
    assert_eq!(q.get_closest(), Some(node(t ^ 2)));
    q.remove(BitKey(t ^ 2));
    assert_eq!(q.closest.len(), K - 1);
    assert_eq!(q.get_closest(), Some(node(t ^ 3)));
    assert!(!q.all_done());
}

#[test]
fn query_all_done_when_every_peer_finished() {
    let mut q = Query::new(QueryIntention::Store("a".to_string(), "b".to_string()));
    assert!(q.all_done());
    q.add_node(node(1));
    q.add_node(node(2));
    q.update_status(BitKey(1), QueryStatus::Finished);
    assert!(!q.all_done());
    q.update_status(BitKey(2), QueryStatus::Finished);
    assert!(q.all_done());
    assert_eq!(q.get_closest(), None);
    let e = NodeQuery::new(node(3), BitKey(1));
    assert_eq!(e.distance, 2);
    assert_eq!(e.status, QueryStatus::Empty);
}

#[test]
fn key_store_insert_and_get() {
    let mut s = KeyStore::new();
    assert_eq!(s.get(&"a".to_string()), None);
    s.insert("a".to_string(), "1".to_string());
    s.insert("b".to_string(), "2".to_string());
    s.insert("a".to_string(), "3".to_string());
    assert_eq!(s.get(&"a".to_string()), Some("3".to_string()));
    assert_eq!(s.get(&"b".to_string()), Some("2".to_string()));
}

#[test]
fn operator_store_then_get_is_local() {
    let mut server = ServerHandle::new(node(1 << 100));
    assert!(matches!(
        server.handle_client(ToServerMsg::Get("k".to_string())),
        FromServerMsg::GetResp(None)
    ));
    assert!(matches!(
        server.handle_client(ToServerMsg::Store("k".to_string(), "v".to_string())),
        FromServerMsg::StoreResp
    ));
    match server.handle_client(ToServerMsg::Get("k".to_string())) {
        FromServerMsg::GetResp(Some(v)) => assert_eq!(v, "v"),
        other => panic!("unexpected {:?}", other),
    }
}

#[test]
fn ping_is_answered_in_the_same_transaction() {
    let local = node(1 << 100);
    let mut server = ServerHandle::new(local);
    let out = server.handle_message(msg(5, 77, RPCPayload::Ping), addr(9), 0);
    assert_eq!(out.len(), 1);
    assert_eq!(out[0].addr, addr(9));
    assert_eq!(out[0].message.header, Header { node_id: local.id, transaction_id: TransactionID(77) });
    assert!(matches!(out[0].message.payload, RPCPayload::PingResp));
    // the sender is now known
    let known = server.table.k_closest(BitKey(5), 1);
    assert_eq!(known[0].id, BitKey(5));
    assert_eq!(known[0].udp_addr, addr(9));
}

#[test]
fn store_then_find_value_over_the_wire() {
    let local = node(1 << 100);
    let mut server = ServerHandle::new(local);
    let out = server.handle_message(msg(5, 1, RPCPayload::Store("k".to_string(), "v".to_string())), addr(9), 0);
    assert_eq!(out.len(), 1);
    assert!(matches!(out[0].message.payload, RPCPayload::StoreResp));
    let out = server.handle_message(msg(6, 2, RPCPayload::FindValue("k".to_string())), addr(10), 0);
    assert_eq!(out.len(), 1);
    match &out[0].message.payload {
        RPCPayload::FindValueResp(v) => assert_eq!(v, "v"),
        other => panic!("unexpected {:?}", other),
    }
    let out = server.handle_message(msg(6, 3, RPCPayload::FindValue("other".to_string())), addr(10), 0);
    match &out[0].message.payload {
        RPCPayload::FindValueNodes(ns) => {
            let ids: Vec<BitKey> = ns.iter().map(|n| n.id).collect();
            assert_eq!(ns.len(), 3);
            assert!(ids.contains(&BitKey(5)) && ids.contains(&BitKey(6)) && ids.contains(&local.id));
        }
        other => panic!("unexpected {:?}", other),
    }
}

#[test]
fn find_node_answers_with_closest() {
    let local = node(1 << 100);
    let mut server = ServerHandle::new(local);
    for x in 1..=5u128 {
        server.handle_message(msg(x, x as u64, RPCPayload::PingResp), addr(x as u16), 0);
    }
    let out = server.handle_message(msg(6, 9, RPCPayload::FindNode(BitKey(4))), addr(6), 0);
    assert_eq!(out.len(), 1);
    match &out[0].message.payload {
        RPCPayload::FindNodeResp(ns) => {
            let ids: Vec<u128> = ns.iter().map(|n| n.id.0).collect();
            assert_eq!(ids, vec![4, 5, 6, 1, 2, 3, 1 << 100]);
        }
        other => panic!("unexpected {:?}", other),
    }
}

#[test]
fn full_bucket_probes_oldest_and_sweep_replaces_it() {
    let local = node(1 << 127);
    let mut server = ServerHandle::new(local);
    for x in 0..20u128 {
        let out = server.handle_message(msg(x, x as u64, RPCPayload::StoreResp), addr(x as u16), 0);
        assert!(out.is_empty());
    }
    let out = server.handle_message(msg(20, 100, RPCPayload::StoreResp), addr(20), 0);
    assert_eq!(out.len(), 1);
    assert_eq!(out[0].addr, addr(0));
    assert!(matches!(out[0].message.payload, RPCPayload::Ping));
    assert_eq!(out[0].message.header.node_id, local.id);
    // nobody answers the probe
    assert!(server.remove_stale(5000).is_empty());
    let still = server.table.k_closest(BitKey(0), 1);
    assert_eq!(still[0].id, BitKey(0));
    server.remove_stale(5001);
    let closest = server.table.k_closest(BitKey(0), 20);
    assert!(!closest.iter().any(|n| n.id == BitKey(0)));
    assert!(closest.iter().any(|n| n.id == BitKey(20)));
}

#[test]
fn answered_probe_keeps_oldest() {
    let local = node(1 << 127);
    let mut server = ServerHandle::new(local);
    for x in 0..20u128 {
        server.handle_message(msg(x, x as u64, RPCPayload::StoreResp), addr(x as u16), 0);
    }
    let out = server.handle_message(msg(20, 100, RPCPayload::StoreResp), addr(20), 0);
    let probe_tx = out[0].message.header.transaction_id;
    server.handle_message(msg(0, probe_tx.0, RPCPayload::PingResp), addr(0), 10);
    server.remove_stale(100_000);
    let closest = server.table.k_closest(BitKey(0), 1);
    assert_eq!(closest[0].id, BitKey(0));
}

#[test]
fn lookup_responses_are_ignored_without_a_lookup() {
    let local = node(1 << 100);
    let mut server = ServerHandle::new(local);
    let out = server.handle_message(msg(5, 1, RPCPayload::FindNodeResp(vec![node(7)])), addr(5), 0);
    assert!(out.is_empty());
    assert!(server.query.is_none());
    let out = server.handle_message(msg(5, 1, RPCPayload::FindValueResp("v".to_string())), addr(5), 0);
    assert!(out.is_empty());
}

#[test]
fn lookup_progresses_and_finishes() {
    let local = node(1 << 100);
    let mut server = ServerHandle::new(local);
    let mut q = Query::new(QueryIntention::Get("key".to_string()));
    let t = q.target.0;
    q.add_node(node(t ^ 8));
    server.query = Some(q);
    let first = server.continue_query(node(t ^ 8), 0);
    assert_eq!(first.addr, node(t ^ 8).udp_addr);
    match &first.message.payload {
        RPCPayload::FindValue(k) => assert_eq!(k, "key"),
        other => panic!("unexpected {:?}", other),
    }
    let tx = first.message.header.transaction_id;
    // the response brings a closer peer, which is contacted next
    let out = server.handle_message(msg(t ^ 8, tx.0, RPCPayload::FindValueNodes(vec![node(t ^ 1)])), addr(8), 1);
    let requests: Vec<_> = out.iter().filter(|o| matches!(o.message.payload, RPCPayload::FindValue(_))).collect();
    assert_eq!(requests.len(), 1);
    assert_eq!(requests[0].addr, node(t ^ 1).udp_addr);
    let tx2 = requests[0].message.header.transaction_id;
    // the closer peer knows nobody new: the final fan-out finds nobody left
    let out = server.handle_message(msg(t ^ 1, tx2.0, RPCPayload::FindValueNodes(vec![])), addr(1), 2);
    assert!(!out.iter().any(|o| matches!(o.message.payload, RPCPayload::FindValue(_))));
    let q = server.query.as_ref().expect("the lookup is still running");
    assert!(q.final_k);
    assert!(q.all_done());
    // the next sweep ends the lookup; a get sends nothing more
    assert!(server.remove_stale(3).is_empty());
    assert!(server.query.is_none());
}

#[test]
fn finished_store_lookup_stores_at_every_peer() {
    let local = node(1 << 100);
    let mut server = ServerHandle::new(local);
    let mut q = Query::new(QueryIntention::Store("k".to_string(), "v".to_string()));
    let t = q.target.0;
    q.add_node(node(t ^ 8));
    q.add_node(node(t ^ 9));
    server.query = Some(q);
    let a = server.continue_query(node(t ^ 8), 0);
    let b = server.continue_query(node(t ^ 9), 0);
    let out = server.handle_message(
        msg(t ^ 8, a.message.header.transaction_id.0, RPCPayload::FindNodeResp(vec![])),
        addr(8),
        1,
    );
    assert!(out.is_empty());
    assert!(server.query.as_ref().unwrap().final_k);
    let out = server.handle_message(
        msg(t ^ 9, b.message.header.transaction_id.0, RPCPayload::FindNodeResp(vec![])),
        addr(9),
        2,
    );
    assert!(server.query.is_none());
    assert_eq!(out.len(), 2);
    for (o, id) in out.iter().zip([t ^ 8, t ^ 9]) {
        assert_eq!(o.addr, node(id).udp_addr);
        match &o.message.payload {
            RPCPayload::Store(k, v) => assert_eq!((k.as_str(), v.as_str()), ("k", "v")),
            other => panic!("unexpected {:?}", other),
        }
    }
}

#[test]
fn value_response_ends_lookup() {
    let local = node(1 << 100);
    let mut server = ServerHandle::new(local);
    let mut q = Query::new(QueryIntention::Get("key".to_string()));
    let t = q.target.0;
    q.add_node(node(t ^ 8));
    server.query = Some(q);
    let first = server.continue_query(node(t ^ 8), 0);
    let tx = first.message.header.transaction_id;
    server.handle_message(msg(t ^ 8, tx.0 ^ 1, RPCPayload::FindValueResp("v".to_string())), addr(8), 1);
    assert!(server.query.is_some());
    server.handle_message(msg(t ^ 8, tx.0, RPCPayload::FindValueResp("v".to_string())), addr(8), 1);
    assert!(server.query.is_none());
}

#[test]
fn stale_lookup_call_drops_the_peer() {
    let local = node(1 << 100);
    let mut server = ServerHandle::new(local);
    let mut q = Query::new(QueryIntention::Store("key".to_string(), "v".to_string()));
    let t = q.target.0;
    q.add_node(node(t ^ 8));
    q.add_node(node(t ^ 9));
    server.query = Some(q);
    let first = server.continue_query(node(t ^ 8), 0);
    assert!(matches!(first.message.payload, RPCPayload::FindNode(id) if id == BitKey(t)));
    // the silent peer is dropped and the next one contacted
    let out = server.remove_stale(6000);
    assert_eq!(out.len(), 1);
    assert_eq!(out[0].addr, node(t ^ 9).udp_addr);
    let q = server.query.as_ref().unwrap();
    assert_eq!(q.closest.len(), 1);
    assert_eq!(q.closest[0].status, QueryStatus::Started);
}

#[test]
fn channels_carry_commands_and_answers() {
    let (sender, receiver) = make_server_comms();
    assert!(receiver.try_receive().is_none());
    sender.send(ToServerMsg::Get("x".to_string())).unwrap();
    match receiver.try_receive() {
        Some(ToServerMsg::Get(k)) => assert_eq!(k, "x"),
        other => panic!("unexpected {:?}", other),
    }
    receiver.reply(FromServerMsg::StoreResp).unwrap();
    assert!(matches!(sender.receive(), Ok(FromServerMsg::StoreResp)));
}
