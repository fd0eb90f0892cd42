use kademlia::base::{BitKey, IpAddress, Node, NodeAddr};
use kademlia::messages::{Header, Message, RPCPayload, TransactionID};
use kademlia::query::{QueryIntention, K};
use kademlia::server::{Outgoing, ServerHandle};
use std::collections::HashSet;

fn addr_of(i: usize) -> NodeAddr {
    NodeAddr { ip: IpAddress::V4(0x0a00_0001), port: 2000 + i as u16 }
}

fn index_of(addr: NodeAddr) -> usize {
    (addr.port - 2000) as usize
}

fn to_bytes_and_back(o: &Outgoing) -> Message {
    assert!(o.message.fits());
    Message::parse(&o.message.to_bytes()).unwrap()
}

#[test]
fn lookup_converges_in_simulated_network() {
    let n = 50usize;
    let step = u128::MAX / n as u128;
    let ids: Vec<u128> = (0..n).map(|i| (i as u128) * step + 12345).collect();
    let mut servers: Vec<ServerHandle> =
        (0..n).map(|i| ServerHandle::new(Node { id: BitKey(ids[i]), udp_addr: addr_of(i) })).collect();
    // every node hears a ping from every other node
    for i in 0..n {
        for j in 0..n {
            if i != j {
                let ping = Message {
                    header: Header { node_id: BitKey(ids[j]), transaction_id: TransactionID(1) },
                    payload: RPCPayload::Ping,
                };
                servers[i].handle_message(ping, addr_of(j), 0);
            }
        }
    }
    let key = "the key";
    let target = BitKey::from_hash(key).0;
    let holder = (0..n).min_by_key(|&i| ids[i] ^ target).unwrap();
    let store = Message {
        header: Header { node_id: BitKey(ids[0]), transaction_id: TransactionID(2) },
        payload: RPCPayload::Store(key.to_string(), "the value".to_string()),
    };
    servers[holder].handle_message(store, addr_of(0), 0);
    // the node farthest from the key asks
    let asker = (0..n).max_by_key(|&i| ids[i] ^ target).unwrap();
    let first = servers[asker].start_query(QueryIntention::Get(key.to_string()), 1);
    let mut in_flight: Vec<(usize, Outgoing)> = first.into_iter().map(|o| (asker, o)).collect();
    let mut rounds = 0;
    let mut touched: HashSet<usize> = HashSet::new();
    let mut found: Option<String> = None;
    while !in_flight.is_empty() && found.is_none() && rounds < 20 {
        rounds += 1;
        let mut next = Vec::new();
        for (from, o) in in_flight {
            let to = index_of(o.addr);
            let msg = to_bytes_and_back(&o);
            if from == asker && matches!(msg.payload, RPCPayload::FindValue(_)) {
                touched.insert(to);
            }
            let answer = match &msg.payload {
                RPCPayload::FindValueResp(v) if to == asker => Some(v.clone()),
                _ => None,
            };
            let was_running = servers[to].query.is_some();
            let out = servers[to].handle_message(msg, addr_of(from), 1 + rounds);
            if to == asker && was_running && servers[to].query.is_none() {
                if let Some(v) = answer {
                    found = Some(v);
                }
            }
            next.extend(out.into_iter().map(|o| (to, o)));
        }
        in_flight = next;
    }
    assert_eq!(found.as_deref(), Some("the value"));
    // ceil(log2(50)) + 1 request-response rounds, two deliveries each
    assert!(rounds <= 2 * 7, "took {} deliveries", rounds);
    assert!(touched.len() <= K, "touched {} peers", touched.len());
}
