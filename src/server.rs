//! The server: the operator channel, the local key store, and the handling
//! of inbound messages, stale calls and operator commands. The caller runs
//! the event loop: it receives datagrams, reads the clock, and sends what the
//! handlers return.
use crate::base::{dist, key_of_digest, sha1_digest, BitKey, Node, NodeAddr};
use crate::closest::is_closest;
use crate::messages::{encode_utf8_of, Header, Message, MessageView, PayloadView, RPCPayload, TransactionID};
use crate::query::{
    find_distance, has_tx, is_first_empty, shortlist_add, shortlist_wf, stale_remotes, fresh_entries, tx_insert,
    tx_remove, NodeQuery, Query, QueryIntention, QueryStatus, TransactionTable, TxEntry, K,
};
use crate::routing::{known, table_insert, table_remove, table_wf, KBucketInsert, RoutingTable, TableView};
use std::sync::mpsc::{Receiver, RecvError, SendError, Sender, TryRecvError};
use vstd::prelude::*;

verus! {

/// A command of the operator.
#[derive(Debug)]
pub enum ToServerMsg {
    Store(String, String),
    Get(String),
}

/// The answer to a command of the operator.
#[derive(Debug)]
pub enum FromServerMsg {
    StoreResp,
    GetResp(Option<String>),
}

/// `std::sync::mpsc::Sender`, carried through opaquely.
#[verifier::external_type_specification]
#[verifier::external_body]
#[verifier::reject_recursive_types(T)]
pub struct ExSender<T>(Sender<T>);

/// `std::sync::mpsc::Receiver`, carried through opaquely.
#[verifier::external_type_specification]
#[verifier::external_body]
#[verifier::reject_recursive_types(T)]
pub struct ExReceiver<T>(Receiver<T>);

/// `std::sync::mpsc::SendError`: the value that could not be sent.
#[verifier::external_type_specification]
#[verifier::external_body]
#[verifier::reject_recursive_types(T)]
pub struct ExSendError<T>(SendError<T>);

/// `std::sync::mpsc::RecvError`: the sending end is gone.
#[verifier::external_type_specification]
#[verifier::external_body]
pub struct ExRecvError(RecvError);

/// `std::sync::mpsc::TryRecvError`: nothing is waiting, or the sending end is gone.
#[verifier::external_type_specification]
#[verifier::external_body]
pub struct ExTryRecvError(TryRecvError);

/// Relies on `std::sync::mpsc::channel`: a connected sender and receiver.
pub assume_specification<T>[ std::sync::mpsc::channel::<T> ]() -> (Sender<T>, Receiver<T>);

/// Relies on `Sender::send`: it fails only when the receiver is gone.
pub assume_specification<T>[ Sender::<T>::send ](s: &Sender<T>, t: T) -> Result<(), SendError<T>>;

/// Relies on `Receiver::recv`: it blocks for the next value, and fails only
/// when the sender is gone.
pub assume_specification<T>[ Receiver::<T>::recv ](r: &Receiver<T>) -> Result<T, RecvError>;

/// Relies on `Receiver::try_recv`: the next value if one is waiting.
pub assume_specification<T>[ Receiver::<T>::try_recv ](r: &Receiver<T>) -> Result<T, TryRecvError>;

/// The operator's end of the channel pair.
pub struct ServerSender {
    to: Sender<ToServerMsg>,
    from: Receiver<FromServerMsg>,
}

impl ServerSender {
    /// Hands a command to the server.
    pub fn send(&self, msg: ToServerMsg) -> Result<(), SendError<ToServerMsg>> {
        self.to.send(msg)
    }

    /// Waits for the server's answer.
    pub fn receive(&self) -> Result<FromServerMsg, RecvError> {
        self.from.recv()
    }
}

/// The server's end of the channel pair.
pub struct ServerReceiver {
    from: Receiver<ToServerMsg>,
    to: Sender<FromServerMsg>,
}

impl ServerReceiver {
    /// The next command of the operator, if one is waiting.
    pub fn try_receive(&self) -> Option<ToServerMsg> {
        match self.from.try_recv() {
            Ok(msg) => Some(msg),
            Err(_) => None,
        }
    }

    /// Hands an answer to the operator.
    pub fn reply(&self, msg: FromServerMsg) -> Result<(), SendError<FromServerMsg>> {
        self.to.send(msg)
    }
}

/// A connected pair of ends: commands flow from the sender to the receiver,
/// answers the other way.
pub fn make_server_comms() -> (ServerSender, ServerReceiver) {
    let (sender_to, receiver_to) = std::sync::mpsc::channel();
    let (sender_from, receiver_from) = std::sync::mpsc::channel();
    let sender = ServerSender { to: sender_to, from: receiver_from };
    let receiver = ServerReceiver { to: sender_from, from: receiver_to };
    (sender, receiver)
}

// ----- the key store -----

/// The value stored under `k`: the last pair with that key.
pub open spec fn store_lookup(s: Seq<(Seq<char>, Seq<char>)>, k: Seq<char>) -> Option<Seq<char>>
    decreases s.len(),
{
    if s.len() == 0 {
        None
    } else if s.last().0 == k {
        Some(s.last().1)
    } else {
        store_lookup(s.drop_last(), k)
    }
}

/// The pairs whose key is not `k`.
pub open spec fn store_without(s: Seq<(Seq<char>, Seq<char>)>, k: Seq<char>) -> Seq<(Seq<char>, Seq<char>)>
    decreases s.len(),
{
    if s.len() == 0 {
        s
    } else if s.last().0 == k {
        store_without(s.drop_last(), k)
    } else {
        store_without(s.drop_last(), k).push(s.last())
    }
}

proof fn lemma_store_without(s: Seq<(Seq<char>, Seq<char>)>, k: Seq<char>, q: Seq<char>)
    ensures
        store_lookup(store_without(s, k), q) == if q == k {
            None
        } else {
            store_lookup(s, q)
        },
    decreases s.len(),
{
    if s.len() > 0 {
        lemma_store_without(s.drop_last(), k, q);
        let w = store_without(s.drop_last(), k);
        assert(w.push(s.last()).drop_last() =~= w);
    }
}

/// The values that `Store` calls left at this node.
#[derive(Debug)]
pub struct KeyStore {
    entries: Vec<(String, String)>,
}

impl View for KeyStore {
    type V = Seq<(Seq<char>, Seq<char>)>;

    closed spec fn view(&self) -> Seq<(Seq<char>, Seq<char>)> {
        self.entries@.map_values(|e: (String, String)| (e.0@, e.1@))
    }
}

impl KeyStore {
    /// A store with nothing in it.
    pub fn new() -> (r: Self)
        ensures
            forall|q: Seq<char>| store_lookup(r@, q) is None,
    {
        let r = KeyStore { entries: Vec::new() };
        assert(r@ =~= Seq::<(Seq<char>, Seq<char>)>::empty());
        r
    }

    /// Binds `value` to `key`, replacing what was bound to it.
    pub fn insert(&mut self, key: String, value: String)
        ensures
            forall|q: Seq<char>|
                #![trigger store_lookup(final(self)@, q)]
                store_lookup(final(self)@, q) == if q == key@ {
                    Some(value@)
                } else {
                    store_lookup(old(self)@, q)
                },
    {
        let ghost s = self@;
        let mut r: Vec<(String, String)> = Vec::new();
        let mut i: usize = 0;
        while i < self.entries.len()
            invariant
                i <= self.entries@.len(),
                s == self@,
                r@.map_values(|e: (String, String)| (e.0@, e.1@)) == store_without(s.take(i as int), key@),
            decreases self.entries@.len() - i,
        {
            assert(s.take(i + 1).drop_last() =~= s.take(i as int));
            if self.entries[i].0 != key {
                let e = (self.entries[i].0.clone(), self.entries[i].1.clone());
                r.push(e);
                assert(r@.map_values(|e: (String, String)| (e.0@, e.1@)) =~= store_without(s.take(i as int), key@).push(s[i as int]));
            }
            i = i + 1;
        }
        assert(s.take(i as int) =~= s);
        r.push((key, value));
        let ghost w = store_without(s, key@);
        assert(r@.map_values(|e: (String, String)| (e.0@, e.1@)) =~= w.push((key@, value@)));
        self.entries = r;
        assert forall|q: Seq<char>| #[trigger] store_lookup(self@, q) == if q == key@ {
            Some(value@)
        } else {
            store_lookup(s, q)
        } by {
            assert(self@.drop_last() =~= w);
            lemma_store_without(s, key@, q);
        }
    }

    /// The value bound to `key`, if any.
    pub fn get(&self, key: &String) -> (r: Option<String>)
        ensures
            match r {
                Some(v) => store_lookup(self@, key@) == Some(v@),
                None => store_lookup(self@, key@) is None,
            },
    {
        let ghost s = self@;
        let mut i: usize = self.entries.len();
        assert(s.take(i as int) =~= s);
        while i > 0
            invariant
                i <= s.len(),
                s == self@,
                s.len() == self.entries@.len(),
                store_lookup(s, key@) == store_lookup(s.take(i as int), key@),
            decreases i,
        {
            assert(s.take(i as int).drop_last() =~= s.take(i - 1));
            assert(s[i - 1] == (self.entries@[i - 1].0@, self.entries@[i - 1].1@));
            if self.entries[i - 1].0 == *key {
                return Some(self.entries[i - 1].1.clone());
            }
            i = i - 1;
        }
        None
    }
}


// ----- the lookup -----

/// A message to send, and where.
#[derive(Debug)]
pub struct Outgoing {
    pub message: Message,
    pub addr: NodeAddr,
}

/// What an outgoing message holds.
pub struct OutView {
    pub message: MessageView,
    pub addr: NodeAddr,
}

impl View for Outgoing {
    type V = OutView;

    open spec fn view(&self) -> OutView {
        OutView { message: self.message@, addr: self.addr }
    }
}

/// The transaction of an outgoing message.
pub open spec fn out_tx(o: OutView) -> TransactionID {
    o.message.header.transaction_id
}

/// The request that a lookup sends to each peer it contacts: `FindValue` of
/// the key for a `Get`, `FindNode` of the target for a `Store`.
pub open spec fn lookup_request(q: &Query) -> PayloadView {
    match q.intention {
        QueryIntention::Get(k) => PayloadView::FindValue(k@),
        QueryIntention::Store(_, _) => PayloadView::FindNode(q.target),
    }
}

/// The shortlist with the status of the entry at distance `d` set, if there is one.
pub open spec fn shortlist_set_status(s: Seq<NodeQuery>, d: u128, st: QueryStatus) -> Seq<NodeQuery> {
    match find_distance(s, d) {
        Some(i) => s.update(i, NodeQuery { status: st, ..s[i] }),
        None => s,
    }
}

/// The shortlist without the entry at distance `d`, if there is one.
pub open spec fn shortlist_remove(s: Seq<NodeQuery>, d: u128) -> Seq<NodeQuery> {
    match find_distance(s, d) {
        Some(i) => s.remove(i),
        None => s,
    }
}

/// The shortlist after adding the peers of a response in order, and whether
/// any of them was new.
pub open spec fn add_all(s: Seq<NodeQuery>, ns: Seq<Node>, t: BitKey) -> (Seq<NodeQuery>, bool)
    decreases ns.len(),
{
    if ns.len() == 0 {
        (s, false)
    } else {
        let (s1, a) = add_all(s, ns.drop_last(), t);
        let n = ns.last();
        if find_distance(s1, dist(n.id, t)) is None {
            (shortlist_add(s1, NodeQuery::new_spec(n, t)), true)
        } else {
            (s1, a)
        }
    }
}

/// The shortlist after dropping the peers with the ids, in order.
pub open spec fn remove_all(s: Seq<NodeQuery>, ids: Seq<BitKey>, t: BitKey) -> Seq<NodeQuery>
    decreases ids.len(),
{
    if ids.len() == 0 {
        s
    } else {
        shortlist_remove(remove_all(s, ids.drop_last(), t), dist(ids.last(), t))
    }
}

/// The nodes of the entries not yet contacted, in order.
pub open spec fn empties(s: Seq<NodeQuery>) -> Seq<Node>
    decreases s.len(),
{
    if s.len() == 0 {
        Seq::empty()
    } else if s.last().status == QueryStatus::Empty {
        empties(s.drop_last()).push(s.last().node)
    } else {
        empties(s.drop_last())
    }
}

/// Shortlist and transactions after contacting the peers in order, the
/// `j`-th with the transaction of `out[j]`.
pub open spec fn contacted(
    s: Seq<NodeQuery>,
    txs: Seq<TxEntry>,
    peers: Seq<Node>,
    out: Seq<OutView>,
    t: BitKey,
    now: u64,
) -> (Seq<NodeQuery>, Seq<TxEntry>)
    decreases peers.len(),
{
    if peers.len() == 0 || out.len() == 0 {
        (s, txs)
    } else {
        let (s1, t1) = contacted(s, txs, peers.drop_last(), out.drop_last(), t, now);
        let p = peers.last();
        (
            shortlist_set_status(s1, dist(p.id, t), QueryStatus::Started),
            tx_insert(t1, TxEntry { transaction_id: out_tx(out.last()), issued: now, remote: p.id }),
        )
    }
}

/// `out` holds one request per peer, in order, each from `local` to the peer.
pub open spec fn requests_to(out: Seq<OutView>, peers: Seq<Node>, request: PayloadView, local: BitKey) -> bool {
    &&& out.len() == peers.len()
    &&& forall|j: int|
        0 <= j < out.len() ==> (#[trigger] out[j]).addr == peers[j].udp_addr && out[j].message.header.node_id == local
            && out[j].message.payload == request
}

/// The peers of a shortlist, in order.
pub open spec fn shortlist_nodes(s: Seq<NodeQuery>) -> Seq<Node> {
    s.map_values(|e: NodeQuery| e.node)
}

/// What a lookup sends when it ends with the shortlist `s`: a `Store` lookup
/// stores its pair at every peer of the shortlist; a `Get` lookup sends nothing.
pub open spec fn lookup_finished(q: &Query, s: Seq<NodeQuery>, local: BitKey, out: Seq<OutView>) -> bool {
    match q.intention {
        QueryIntention::Store(k, v) => requests_to(out, shortlist_nodes(s), PayloadView::Store(k@, v@), local),
        QueryIntention::Get(_) => out.len() == 0,
    }
}

/// Whether every entry of the shortlist has answered.
pub open spec fn all_finished(s: Seq<NodeQuery>) -> bool {
    forall|i: int| 0 <= i < s.len() ==> (#[trigger] s[i]).status == QueryStatus::Finished
}

/// `q2` is `q` with its shortlist, transactions and flag replaced.
pub open spec fn query_moved(q: &Query, q2: &Query, s: Seq<NodeQuery>, txs: Seq<TxEntry>, final_k: bool) -> bool {
    &&& q2.target == q.target
    &&& q2.intention == q.intention
    &&& q2.closest@ == s
    &&& q2.transactions@ == txs
    &&& q2.final_k == final_k
}

proof fn lemma_set_status_wf(s: Seq<NodeQuery>, t: BitKey, d: u128, st: QueryStatus)
    requires
        shortlist_wf(s, t),
    ensures
        shortlist_wf(shortlist_set_status(s, d, st), t),
        shortlist_set_status(s, d, st).len() == s.len(),
{
    if let Some(i) = find_distance(s, d) {
        lemma_find_distance_some(s, d);
        let r = shortlist_set_status(s, d, st);
        assert forall|a: int, b: int| 0 <= a < b < r.len() implies (#[trigger] r[a]).distance < (#[trigger] r[b]).distance by {
            assert(s[a].distance < s[b].distance);
        }
        assert forall|a: int| 0 <= a < r.len() implies (#[trigger] r[a]).distance == dist(r[a].node.id, t) by {
            assert(s[a].distance == dist(s[a].node.id, t));
        }
    }
}

proof fn lemma_find_distance_some(s: Seq<NodeQuery>, d: u128)
    ensures
        find_distance(s, d) matches Some(i) ==> 0 <= i < s.len() && s[i].distance == d,
    decreases s.len(),
{
    if s.len() > 0 {
        lemma_find_distance_some(s.drop_last(), d);
    }
}

impl Query {
    /// What the lookup sends as it ends: for a `Store`, a `Store` call of its
    /// pair to every peer of the shortlist.
    pub fn finish(&self, local: BitKey) -> (out: Vec<Outgoing>)
        ensures
            lookup_finished(self, self.closest@, local, outs(out@)),
    {
        let mut out: Vec<Outgoing> = Vec::new();
        match &self.intention {
            QueryIntention::Get(_) => {
                assert(outs(out@) =~= Seq::<OutView>::empty());
            },
            QueryIntention::Store(key, value) => {
                let mut i: usize = 0;
                while i < self.closest.len()
                    invariant
                        i <= self.closest@.len(),
                        self.intention == QueryIntention::Store(*key, *value),
                        requests_to(
                            outs(out@),
                            shortlist_nodes(self.closest@).take(i as int),
                            PayloadView::Store(key@, value@),
                            local,
                        ),
                    decreases self.closest@.len() - i,
                {
                    let ghost before = outs(out@);
                    let message = Message::create(local, RPCPayload::Store(key.clone(), value.clone()));
                    let o = Outgoing { message, addr: self.closest[i].node.udp_addr };
                    out.push(o);
                    assert(outs(out@) =~= before.push(o@));
                    assert(shortlist_nodes(self.closest@).take(i + 1) =~= shortlist_nodes(self.closest@).take(
                        i as int,
                    ).push(self.closest@[i as int].node));
                    i = i + 1;
                }
                assert(shortlist_nodes(self.closest@).take(i as int) =~= shortlist_nodes(self.closest@));
            },
        }
        out
    }

    /// Sends the lookup's request to `node`: marks it started and records the
    /// call in the lookup's transactions.
    pub fn contact(&mut self, node: Node, local: BitKey, now: u64) -> (out: Outgoing)
        requires
            shortlist_wf(old(self).closest@, old(self).target),
        ensures
            query_moved(
                old(self),
                final(self),
                contacted(old(self).closest@, old(self).transactions@, seq![node], seq![out@], old(self).target, now).0,
                contacted(old(self).closest@, old(self).transactions@, seq![node], seq![out@], old(self).target, now).1,
                old(self).final_k,
            ),
            requests_to(seq![out@], seq![node], lookup_request(old(self)), local),
            shortlist_wf(final(self).closest@, final(self).target),
    {
        let ghost s0 = self.closest@;
        let ghost t0 = self.transactions@;
        proof {
            lemma_set_status_wf(self.closest@, self.target, dist(node.id, self.target), QueryStatus::Started);
        }
        self.update_status(node.id, QueryStatus::Started);
        let payload = match self.intention.key_to_find() {
            Some(key) => RPCPayload::FindValue(key),
            None => RPCPayload::FindNode(self.target),
        };
        let message = Message::create(local, payload);
        let remote = Header { node_id: node.id, transaction_id: message.header.transaction_id };
        self.transactions.insert(remote, now);
        let out = Outgoing { message, addr: node.udp_addr };
        proof {
            let o = seq![out@];
            assert(o.drop_last() =~= Seq::<OutView>::empty());
            assert(seq![node].drop_last() =~= Seq::<Node>::empty());
            assert(contacted(s0, t0, Seq::empty(), Seq::empty(), self.target, now) == (s0, t0));
            assert(contacted(s0, t0, seq![node], o, self.target, now) == (
                shortlist_set_status(s0, dist(node.id, self.target), QueryStatus::Started),
                tx_insert(t0, TxEntry { transaction_id: out_tx(out@), issued: now, remote: node.id }),
            ));
        }
        out
    }
}


// ----- the server -----

/// The routing table after dropping the nodes with the ids, in order.
pub open spec fn table_remove_all(t: TableView, ids: Seq<BitKey>) -> TableView
    decreases ids.len(),
{
    if ids.len() == 0 {
        t
    } else {
        table_remove(table_remove_all(t, ids.drop_last()), ids.last())
    }
}

/// How a lookup goes on once a response with peers came in: `s` and `txs`
/// are its shortlist and transactions after taking the response in, `added`
/// whether a peer was new.
///
/// With a new peer, the nearest peer not yet contacted is contacted; with
/// none left the lookup ends. Without one, the first time every peer not yet
/// contacted is contacted at once; after that the lookup ends once every
/// peer has answered.
pub open spec fn lookup_step(
    q: &Query,
    s: Seq<NodeQuery>,
    txs: Seq<TxEntry>,
    added: bool,
    local: BitKey,
    now: u64,
    result: &Option<Query>,
    out: Seq<OutView>,
) -> bool {
    if added {
        if exists|i: int| is_first_empty(s, i) {
            exists|i: int|
                #![trigger is_first_empty(s, i)]
                is_first_empty(s, i) && (result matches Some(q2) && requests_to(
                    out,
                    seq![s[i].node],
                    lookup_request(q),
                    local,
                ) && query_moved(
                    q,
                    &q2,
                    contacted(s, txs, seq![s[i].node], out, q.target, now).0,
                    contacted(s, txs, seq![s[i].node], out, q.target, now).1,
                    q.final_k,
                ))
        } else {
            result is None && lookup_finished(q, s, local, out)
        }
    } else if !q.final_k {
        result matches Some(q2) && requests_to(out, empties(s), lookup_request(q), local) && query_moved(
            q,
            &q2,
            contacted(s, txs, empties(s), out, q.target, now).0,
            contacted(s, txs, empties(s), out, q.target, now).1,
            true,
        )
    } else if all_finished(s) {
        result is None && lookup_finished(q, s, local, out)
    } else {
        result matches Some(q2) && query_moved(q, &q2, s, txs, q.final_k) && out.len() == 0
    }
}

/// The lookup after a response with peers: it is ignored unless its
/// transaction is one of the lookup's; else the transaction is done, the
/// peers are added, the responder is marked finished, and the lookup goes on.
pub open spec fn nodes_handled(
    query: &Option<Query>,
    header: Header,
    nodes: Seq<Node>,
    local: BitKey,
    now: u64,
    result: &Option<Query>,
    out: Seq<OutView>,
) -> bool {
    match query {
        None => result is None && out.len() == 0,
        Some(q) => if !has_tx(q.transactions@, header.transaction_id) {
            *result == *query && out.len() == 0
        } else {
            let (s1, added) = add_all(q.closest@, nodes, q.target);
            let s2 = shortlist_set_status(s1, dist(header.node_id, q.target), QueryStatus::Finished);
            let t1 = tx_remove(q.transactions@, header.transaction_id);
            lookup_step(q, s2, t1, added, local, now, result, out)
        },
    }
}

/// The lookup after a sweep of its stale calls: their peers leave the
/// shortlist; the lookup ends if every peer left has answered, and else,
/// before the final fan-out, the nearest peer not yet contacted is contacted.
pub open spec fn stale_handled(query: &Option<Query>, local: BitKey, now: u64, result: &Option<Query>, out: Seq<OutView>) -> bool {
    match query {
        None => result is None && out.len() == 0,
        Some(q) => {
            let s1 = remove_all(q.closest@, stale_remotes(q.transactions@, now), q.target);
            let t1 = fresh_entries(q.transactions@, now);
            if all_finished(s1) {
                result is None && lookup_finished(q, s1, local, out)
            } else if !q.final_k && exists|i: int| is_first_empty(s1, i) {
                exists|i: int|
                    #![trigger is_first_empty(s1, i)]
                    is_first_empty(s1, i) && (result matches Some(q2) && requests_to(
                        out,
                        seq![s1[i].node],
                        lookup_request(q),
                        local,
                    ) && query_moved(
                        q,
                        &q2,
                        contacted(s1, t1, seq![s1[i].node], out, q.target, now).0,
                        contacted(s1, t1, seq![s1[i].node], out, q.target, now).1,
                        q.final_k,
                    ))
            } else {
                result matches Some(q2) && query_moved(q, &q2, s1, t1, q.final_k) && out.len() == 0
            }
        },
    }
}

/// The peers that a lookup learned of through the calls that went stale at `now`.
pub open spec fn query_stale_remotes(query: &Option<Query>, now: u64) -> Seq<BitKey> {
    match query {
        None => Seq::empty(),
        Some(q) => stale_remotes(q.transactions@, now),
    }
}

/// The state that the event loop owns: the routing table, the key store, the
/// current lookup if any, and the outstanding liveness probes.
#[derive(Debug)]
pub struct ServerHandle {
    pub table: RoutingTable,
    pub key_store: KeyStore,
    pub query: Option<Query>,
    pub keep_alives: TransactionTable,
}

/// The view of a vector of outgoing messages.
pub open spec fn outs(v: Seq<Outgoing>) -> Seq<OutView> {
    v.map_values(|o: Outgoing| o@)
}

impl ServerHandle {
    /// The invariant: a well-formed routing table, and a well-formed shortlist.
    pub open spec fn wf(&self) -> bool {
        &&& table_wf(self.table@)
        &&& self.query matches Some(q) ==> shortlist_wf(q.closest@, q.target)
    }

    /// The state of a node that just started: it knows of nobody else.
    pub fn new(this_node: Node) -> (r: Self)
        ensures
            r.wf(),
            r.table@.this_node == this_node,
            forall|i: int| 0 <= i < crate::base::KEY_SIZE ==> (#[trigger] r.table@.buckets[i]).active.len() == 0,
            forall|q: Seq<char>| store_lookup(r.key_store@, q) is None,
            r.query is None,
            r.keep_alives@ == Seq::<TxEntry>::empty(),
    {
        ServerHandle {
            table: RoutingTable::new(this_node, K),
            key_store: KeyStore::new(),
            query: None,
            keep_alives: TransactionTable::new(),
        }
    }

    /// Answers a command of the operator from local knowledge: a `Store` is
    /// kept here, a `Get` reads what is kept here.
    pub fn handle_client(&mut self, msg: ToServerMsg) -> (r: FromServerMsg)
        ensures
            match msg {
                ToServerMsg::Get(key) => (r matches FromServerMsg::GetResp(v) && match v {
                    Some(v) => store_lookup(old(self).key_store@, key@) == Some(v@),
                    None => store_lookup(old(self).key_store@, key@) is None,
                }) && final(self).key_store@ == old(self).key_store@,
                ToServerMsg::Store(key, value) => r is StoreResp && forall|q: Seq<char>|
                    #![trigger store_lookup(final(self).key_store@, q)]
                    store_lookup(final(self).key_store@, q) == if q == key@ {
                        Some(value@)
                    } else {
                        store_lookup(old(self).key_store@, q)
                    },
            },
            final(self).table@ == old(self).table@,
            final(self).query == old(self).query,
            final(self).keep_alives@ == old(self).keep_alives@,
    {
        match msg {
            ToServerMsg::Get(key) => {
                let value = self.key_store.get(&key);
                FromServerMsg::GetResp(value)
            },
            ToServerMsg::Store(key, value) => {
                self.key_store.insert(key, value);
                FromServerMsg::StoreResp
            },
        }
    }

    /// Sends the lookup's request to `node`; see [`Query::contact`].
    pub fn continue_query(&mut self, node: Node, now: u64) -> (out: Outgoing)
        requires
            old(self).wf(),
            old(self).query is Some,
        ensures
            final(self).wf(),
            final(self).query matches Some(q2) && query_moved(
                &old(self).query->0,
                &q2,
                contacted(
                    old(self).query->0.closest@,
                    old(self).query->0.transactions@,
                    seq![node],
                    seq![out@],
                    old(self).query->0.target,
                    now,
                ).0,
                contacted(
                    old(self).query->0.closest@,
                    old(self).query->0.transactions@,
                    seq![node],
                    seq![out@],
                    old(self).query->0.target,
                    now,
                ).1,
                old(self).query->0.final_k,
            ),
            requests_to(seq![out@], seq![node], lookup_request(&old(self).query->0), old(self).table@.this_node.id),
            final(self).table@ == old(self).table@,
            final(self).key_store@ == old(self).key_store@,
            final(self).keep_alives@ == old(self).keep_alives@,
    {
        let local = self.table.this_node_id();
        let mut q = self.query.take().unwrap();
        let out = q.contact(node, local, now);
        self.query = Some(q);
        out
    }
}


/// The nodes of the entries not yet contacted, in order.
fn empty_nodes(s: &Vec<NodeQuery>) -> (r: Vec<Node>)
    ensures
        r@ == empties(s@),
{
    let mut r: Vec<Node> = Vec::new();
    let mut i: usize = 0;
    while i < s.len()
        invariant
            i <= s@.len(),
            r@ == empties(s@.take(i as int)),
        decreases s@.len() - i,
    {
        assert(s@.take(i + 1).drop_last() =~= s@.take(i as int));
        if s[i].status == QueryStatus::Empty {
            r.push(s[i].node);
        }
        i = i + 1;
    }
    assert(s@.take(i as int) =~= s@);
    r
}

proof fn lemma_contacted_step(
    s: Seq<NodeQuery>,
    txs: Seq<TxEntry>,
    peers: Seq<Node>,
    out: Seq<OutView>,
    p: Node,
    o: OutView,
    t: BitKey,
    now: u64,
)
    ensures
        contacted(s, txs, peers.push(p), out.push(o), t, now) == contacted(
            contacted(s, txs, peers, out, t, now).0,
            contacted(s, txs, peers, out, t, now).1,
            seq![p],
            seq![o],
            t,
            now,
        ),
{
    let (c0, c1) = contacted(s, txs, peers, out, t, now);
    assert(peers.push(p).drop_last() =~= peers);
    assert(out.push(o).drop_last() =~= out);
    assert(seq![p].drop_last() =~= Seq::<Node>::empty());
    assert(seq![o].drop_last() =~= Seq::<OutView>::empty());
    assert(contacted(c0, c1, Seq::empty(), Seq::empty(), t, now) == (c0, c1));
}

impl ServerHandle {
    /// Takes in a response that carries peers (`FindNodeResp` or
    /// `FindValueNodes`) for the current lookup, and returns the requests
    /// that the lookup sends next.
    pub fn handle_nodes(&mut self, header: Header, nodes: &Vec<Node>, now: u64) -> (out: Vec<Outgoing>)
        requires
            old(self).wf(),
        ensures
            final(self).wf(),
            nodes_handled(
                &old(self).query,
                header,
                nodes@,
                old(self).table@.this_node.id,
                now,
                &final(self).query,
                outs(out@),
            ),
            final(self).table@ == old(self).table@,
            final(self).key_store@ == old(self).key_store@,
            final(self).keep_alives@ == old(self).keep_alives@,
    {
        let local = self.table.this_node_id();
        let mut out: Vec<Outgoing> = Vec::new();
        assert(outs(out@) =~= Seq::<OutView>::empty());
        let mut q = match self.query.take() {
            None => {
                return out;
            },
            Some(q) => q,
        };
        let ghost q0 = q;
        if !q.transactions.contains(header.transaction_id) {
            self.query = Some(q);
            return out;
        }
        q.transactions.remove(header.transaction_id);
        let ghost t1 = q.transactions@;
        let mut added = false;
        let mut i: usize = 0;
        assert(nodes@.take(0) =~= Seq::<Node>::empty());
        while i < nodes.len()
            invariant
                i <= nodes@.len(),
                shortlist_wf(q.closest@, q.target),
                (q.closest@, added) == add_all(q0.closest@, nodes@.take(i as int), q0.target),
                q.target == q0.target,
                q.intention == q0.intention,
                q.final_k == q0.final_k,
                q.transactions@ == t1,
            decreases nodes@.len() - i,
        {
            assert(nodes@.take(i + 1).drop_last() =~= nodes@.take(i as int));
            let a = q.add_node(nodes[i]);
            added = a || added;
            i = i + 1;
        }
        assert(nodes@.take(i as int) =~= nodes@);
        proof {
            lemma_set_status_wf(q.closest@, q.target, dist(header.node_id, q.target), QueryStatus::Finished);
        }
        q.update_status(header.node_id, QueryStatus::Finished);
        let ghost s2 = q.closest@;
        if added {
            match q.get_closest() {
                Some(next) => {
                    let o = q.contact(next, local, now);
                    out.push(o);
                    assert(outs(out@) =~= seq![o@]);
                    self.query = Some(q);
                    assert(lookup_step(&q0, s2, t1, added, local, now, &self.query, outs(out@)));
                },
                None => {
                    out = q.finish(local);
                    self.query = None;
                },
            }
        } else if !q.final_k {
            q.final_k = true;
            let peers = empty_nodes(&q.closest);
            let mut j: usize = 0;
            assert(peers@.take(0) =~= Seq::<Node>::empty());
            while j < peers.len()
                invariant
                    j <= peers@.len(),
                    peers@ == empties(s2),
                    out@.len() == j,
                    shortlist_wf(q.closest@, q.target),
                    (q.closest@, q.transactions@) == contacted(s2, t1, peers@.take(j as int), outs(out@), q0.target, now),
                    requests_to(outs(out@), peers@.take(j as int), lookup_request(&q0), local),
                    q.target == q0.target,
                    q.intention == q0.intention,
                    q.final_k,
                decreases peers@.len() - j,
            {
                let p = peers[j];
                let ghost before = outs(out@);
                let o = q.contact(p, local, now);
                proof {
                    lemma_contacted_step(s2, t1, peers@.take(j as int), before, p, o@, q0.target, now);
                }
                out.push(o);
                assert(outs(out@) =~= before.push(o@));
                assert(peers@.take(j + 1) =~= peers@.take(j as int).push(p));
                j = j + 1;
            }
            assert(peers@.take(j as int) =~= peers@);
            self.query = Some(q);
        } else if q.all_done() {
            out = q.finish(local);
            self.query = None;
        } else {
            self.query = Some(q);
        }
        out
    }

    /// Sweeps the calls that went unanswered too long: the lookup drops their
    /// peers and may contact another, and the routing table drops those peers
    /// and the peers that did not answer a liveness probe.
    pub fn remove_stale(&mut self, now: u64) -> (out: Vec<Outgoing>)
        requires
            old(self).wf(),
        ensures
            final(self).wf(),
            stale_handled(&old(self).query, old(self).table@.this_node.id, now, &final(self).query, outs(out@)),
            final(self).keep_alives@ == fresh_entries(old(self).keep_alives@, now),
            final(self).table@ == table_remove_all(
                old(self).table@,
                query_stale_remotes(&old(self).query, now) + stale_remotes(old(self).keep_alives@, now),
            ),
            final(self).key_store@ == old(self).key_store@,
    {
        let local = self.table.this_node_id();
        let mut out: Vec<Outgoing> = Vec::new();
        let mut buf: Vec<BitKey> = Vec::new();
        assert(outs(out@) =~= Seq::<OutView>::empty());
        match self.query.take() {
            None => {},
            Some(q) => {
                let mut q = q;
                let ghost q0 = q;
                q.transactions.remove_stale(now, &mut buf);
                assert(buf@ =~= stale_remotes(q0.transactions@, now));
                let mut i: usize = 0;
                assert(buf@.take(0) =~= Seq::<BitKey>::empty());
                while i < buf.len()
                    invariant
                        i <= buf@.len(),
                        buf@ == stale_remotes(q0.transactions@, now),
                        shortlist_wf(q.closest@, q.target),
                        q.closest@ == remove_all(q0.closest@, buf@.take(i as int), q0.target),
                        q.target == q0.target,
                        q.intention == q0.intention,
                        q.final_k == q0.final_k,
                        q.transactions@ == fresh_entries(q0.transactions@, now),
                    decreases buf@.len() - i,
                {
                    assert(buf@.take(i + 1).drop_last() =~= buf@.take(i as int));
                    q.remove(buf[i]);
                    i = i + 1;
                }
                assert(buf@.take(i as int) =~= buf@);
                let ghost s1 = q.closest@;
                if q.all_done() {
                    out = q.finish(local);
                    self.query = None;
                } else if !q.final_k {
                    match q.get_closest() {
                        Some(next) => {
                            let o = q.contact(next, local, now);
                            out.push(o);
                            assert(outs(out@) =~= seq![o@]);
                            self.query = Some(q);
                            assert(stale_handled(&Some(q0), local, now, &self.query, outs(out@)));
                        },
                        None => {
                            self.query = Some(q);
                        },
                    }
                } else {
                    self.query = Some(q);
                }
            },
        }
        let ghost qstale = buf@;
        assert(qstale == query_stale_remotes(&old(self).query, now));
        assert(stale_handled(&old(self).query, local, now, &self.query, outs(out@)));
        self.keep_alives.remove_stale(now, &mut buf);
        let ghost t0 = self.table@;
        let ghost qfinal = self.query;
        let ghost ofinal = outs(out@);
        let mut i: usize = 0;
        assert(buf@.take(0) =~= Seq::<BitKey>::empty());
        while i < buf.len()
            invariant
                i <= buf@.len(),
                self.query == qfinal,
                outs(out@) == ofinal,
                self.keep_alives@ == fresh_entries(old(self).keep_alives@, now),
                self.key_store@ == old(self).key_store@,
                qfinal matches Some(q) ==> shortlist_wf(q.closest@, q.target),
                table_wf(self.table@),
                self.table@ == table_remove_all(t0, buf@.take(i as int)),
            decreases buf@.len() - i,
        {
            assert(buf@.take(i + 1).drop_last() =~= buf@.take(i as int));
            self.table.remove(buf[i]);
            i = i + 1;
        }
        assert(buf@.take(i as int) =~= buf@);
        out
    }
}


/// How many liveness probes an insertion into the routing table calls for.
pub open spec fn probe_count(ins: KBucketInsert) -> int {
    if ins is Ping {
        1
    } else {
        0
    }
}

/// The liveness probes after an insertion: a probe of the oldest node is
/// recorded with the transaction of the first outgoing message.
pub open spec fn after_probe(ins: KBucketInsert, ka: Seq<TxEntry>, out: Seq<OutView>, now: u64) -> Seq<TxEntry> {
    match ins {
        KBucketInsert::Ping(o) => tx_insert(ka, TxEntry { transaction_id: out_tx(out[0]), issued: now, remote: o.id }),
        KBucketInsert::Inserted => ka,
    }
}

/// A reply to `src` from `local` within the transaction `tx`.
pub open spec fn reply(tx: TransactionID, local: BitKey, payload: PayloadView, src: NodeAddr) -> OutView {
    OutView { message: MessageView { header: Header { node_id: local, transaction_id: tx }, payload }, addr: src }
}

/// `rest` is one reply to `src` from `local` within `tx`, carrying nodes that
/// are the `K` closest to `target` among those that the table `t` knows of.
pub open spec fn nodes_reply(
    rest: Seq<OutView>,
    tx: TransactionID,
    local: BitKey,
    src: NodeAddr,
    t: TableView,
    target: BitKey,
    value_lookup: bool,
) -> bool {
    &&& rest.len() == 1
    &&& rest[0].addr == src
    &&& rest[0].message.header == (Header { node_id: local, transaction_id: tx })
    &&& if value_lookup {
        rest[0].message.payload matches PayloadView::FindValueNodes(ns) && is_closest(ns, known(t), target, K as nat)
    } else {
        rest[0].message.payload matches PayloadView::FindNodeResp(ns) && is_closest(ns, known(t), target, K as nat)
    }
}

/// The key of a string: what [`BitKey::from_hash`] gives.
pub open spec fn hash_key(k: Seq<char>) -> BitKey {
    BitKey(key_of_digest(sha1_digest(encode_utf8_of(k))))
}

/// What a payload does once the sender is in the routing table `t` and the
/// probes are `ka`: `rest` is what is sent in answer.
pub open spec fn payload_handled(
    old: &ServerHandle,
    m: MessageView,
    src: NodeAddr,
    now: u64,
    new: &ServerHandle,
    rest: Seq<OutView>,
    ka: Seq<TxEntry>,
    t: TableView,
) -> bool {
    let local = t.this_node.id;
    let tx = m.header.transaction_id;
    match m.payload {
        PayloadView::Ping => new.keep_alives@ == ka && new.key_store@ == old.key_store@ && new.query == old.query
            && rest == seq![reply(tx, local, PayloadView::PingResp, src)],
        PayloadView::PingResp => new.keep_alives@ == tx_remove(ka, tx) && new.key_store@ == old.key_store@
            && new.query == old.query && rest.len() == 0,
        PayloadView::StoreResp => new.keep_alives@ == tx_remove(ka, tx) && new.key_store@ == old.key_store@
            && new.query == old.query && rest.len() == 0,
        PayloadView::FindValue(k) => new.keep_alives@ == ka && new.key_store@ == old.key_store@ && new.query
            == old.query && match store_lookup(old.key_store@, k) {
            Some(v) => rest == seq![reply(tx, local, PayloadView::FindValueResp(v), src)],
            None => nodes_reply(rest, tx, local, src, t, hash_key(k), true),
        },
        PayloadView::FindNode(id) => new.keep_alives@ == ka && new.key_store@ == old.key_store@ && new.query
            == old.query && nodes_reply(rest, tx, local, src, t, id, false),
        PayloadView::Store(k, v) => new.keep_alives@ == ka && new.query == old.query && rest == seq![
            reply(tx, local, PayloadView::StoreResp, src),
        ] && forall|q: Seq<char>|
            #![trigger store_lookup(new.key_store@, q)]
            store_lookup(new.key_store@, q) == if q == k {
                Some(v)
            } else {
                store_lookup(old.key_store@, q)
            },
        PayloadView::FindValueResp(_) => new.keep_alives@ == ka && new.key_store@ == old.key_store@ && rest.len()
            == 0 && new.query == if old.query matches Some(q) && has_tx(q.transactions@, tx) {
            None
        } else {
            old.query
        },
        PayloadView::FindNodeResp(ns) => new.keep_alives@ == ka && new.key_store@ == old.key_store@
            && nodes_handled(&old.query, m.header, ns, local, now, &new.query, rest),
        PayloadView::FindValueNodes(ns) => new.keep_alives@ == ka && new.key_store@ == old.key_store@
            && nodes_handled(&old.query, m.header, ns, local, now, &new.query, rest),
    }
}

impl ServerHandle {
    /// Handles a message that came from `src` at `now`, and returns what to send.
    ///
    /// The sender first goes into the routing table; when its bucket is full
    /// the oldest node of the bucket is probed with a `Ping`, which comes first
    /// in the result. Then the payload is answered.
    pub fn handle_message(&mut self, message: Message, src: NodeAddr, now: u64) -> (out: Vec<Outgoing>)
        requires
            old(self).wf(),
        ensures
            final(self).wf(),
            ({
                let sender = Node { id: message.header.node_id, udp_addr: src };
                let (t1, ins) = table_insert(old(self).table@, sender);
                let n = probe_count(ins);
                &&& final(self).table@ == t1
                &&& out@.len() >= n
                &&& ins matches KBucketInsert::Ping(o) ==> requests_to(
                    outs(out@).take(1),
                    seq![o],
                    PayloadView::Ping,
                    t1.this_node.id,
                )
                &&& payload_handled(
                    old(self),
                    message@,
                    src,
                    now,
                    final(self),
                    outs(out@).skip(n),
                    after_probe(ins, old(self).keep_alives@, outs(out@), now),
                    t1,
                )
            }),
    {
        let local = self.table.this_node_id();
        let header = message.header;
        let tx = header.transaction_id;
        let node = Node { id: header.node_id, udp_addr: src };
        let mut out: Vec<Outgoing> = Vec::new();
        let ghost old_self = *self;
        let ins = self.table.insert(node);
        let ghost t1 = self.table@;
        match ins {
            KBucketInsert::Ping(to_ping) => {
                let m = Message::create(local, RPCPayload::Ping);
                let probe = Header { node_id: to_ping.id, transaction_id: m.header.transaction_id };
                self.keep_alives.insert(probe, now);
                out.push(Outgoing { message: m, addr: to_ping.udp_addr });
            },
            KBucketInsert::Inserted => {},
        }
        let ghost first = outs(out@);
        let ghost ka1 = self.keep_alives@;
        assert(ka1 == after_probe(ins, old_self.keep_alives@, first, now));
        let ghost n = probe_count(ins);
        assert(first.len() == n);
        let ghost mv = message@;
        let ghost query0 = self.query;
        match message.payload {
            RPCPayload::Ping => {
                out.push(Outgoing { message: Message::response(tx, local, RPCPayload::PingResp), addr: src });
                assert(outs(out@).skip(n) =~= seq![reply(tx, local, PayloadView::PingResp, src)]);
            },
            RPCPayload::PingResp => {
                self.keep_alives.remove(tx);
            },
            RPCPayload::StoreResp => {
                self.keep_alives.remove(tx);
            },
            RPCPayload::FindValue(key) => {
                match self.key_store.get(&key) {
                    Some(val) => {
                        let ghost v = val@;
                        out.push(
                            Outgoing { message: Message::response(tx, local, RPCPayload::FindValueResp(val)), addr: src },
                        );
                        assert(outs(out@).skip(n) =~= seq![reply(tx, local, PayloadView::FindValueResp(v), src)]);
                    },
                    None => {
                        let nodes = self.table.k_closest(BitKey::from_hash(key.as_str()), K);
                        out.push(
                            Outgoing { message: Message::response(tx, local, RPCPayload::FindValueNodes(nodes)), addr: src },
                        );
                        assert(outs(out@).skip(n)[0] == outs(out@)[n]);
                        assert(outs(out@).skip(n).len() == 1);
                    },
                }
            },
            RPCPayload::FindNode(id) => {
                let nodes = self.table.k_closest(id, K);
                out.push(Outgoing { message: Message::response(tx, local, RPCPayload::FindNodeResp(nodes)), addr: src });
                assert(outs(out@).skip(n)[0] == outs(out@)[n]);
                assert(outs(out@).skip(n).len() == 1);
            },
            RPCPayload::Store(key, val) => {
                self.key_store.insert(key, val);
                out.push(Outgoing { message: Message::response(tx, local, RPCPayload::StoreResp), addr: src });
                assert(outs(out@).skip(n) =~= seq![reply(tx, local, PayloadView::StoreResp, src)]);
            },
            RPCPayload::FindValueResp(_) => {
                let hit = match &self.query {
                    Some(q) => q.transactions.contains(tx),
                    None => false,
                };
                if hit {
                    self.query = None;
                }
            },
            RPCPayload::FindNodeResp(nodes) => {
                let mut more = self.handle_nodes(header, &nodes, now);
                let ghost extra = outs(more@);
                out.append(&mut more);
                assert(outs(out@).skip(n) =~= extra);
            },
            RPCPayload::FindValueNodes(nodes) => {
                let mut more = self.handle_nodes(header, &nodes, now);
                let ghost extra = outs(more@);
                out.append(&mut more);
                assert(outs(out@).skip(n) =~= extra);
            },
        }
        assert(outs(out@).take(n) =~= first);
        proof {
            if n == 1 {
                assert(outs(out@).take(1) =~= first.take(1));
            }
        }
        assert(payload_handled(&old_self, mv, src, now, self, outs(out@).skip(n), ka1, t1));
        out
    }
}


/// A lookup just started for `intention` from the table `t`: its shortlist
/// holds the `K` nodes of the table nearest the key's hash, and the nearest of
/// them is contacted.
pub open spec fn lookup_started(
    t: TableView,
    intention: &QueryIntention,
    local: BitKey,
    now: u64,
    result: &Option<Query>,
    out: Seq<OutView>,
) -> bool {
    result matches Some(q) && q.target == hash_key(intention.key()) && q.intention == *intention && !q.final_k
        && exists|ns: Seq<Node>|
        #![trigger add_all(Seq::empty(), ns, q.target)]
        is_closest(ns, known(t), q.target, K as nat) && ({
            let s0 = add_all(Seq::empty(), ns, q.target).0;
            if exists|i: int| is_first_empty(s0, i) {
                exists|i: int|
                    #![trigger is_first_empty(s0, i)]
                    is_first_empty(s0, i) && requests_to(out, seq![s0[i].node], lookup_request(&q), local) && (q.closest@,
                    q.transactions@) == contacted(s0, Seq::empty(), seq![s0[i].node], out, q.target, now)
            } else {
                out.len() == 0 && q.closest@ == s0 && q.transactions@ == Seq::<TxEntry>::empty()
            }
        })
}

impl ServerHandle {
    /// Starts a lookup for `intention`, unless one is already running, and
    /// returns its first request.
    pub fn start_query(&mut self, intention: QueryIntention, now: u64) -> (out: Vec<Outgoing>)
        requires
            old(self).wf(),
        ensures
            final(self).wf(),
            if old(self).query is Some {
                final(self).query == old(self).query && out@.len() == 0
            } else {
                lookup_started(
                    old(self).table@,
                    &intention,
                    old(self).table@.this_node.id,
                    now,
                    &final(self).query,
                    outs(out@),
                )
            },
            final(self).table@ == old(self).table@,
            final(self).key_store@ == old(self).key_store@,
            final(self).keep_alives@ == old(self).keep_alives@,
    {
        let mut out: Vec<Outgoing> = Vec::new();
        assert(outs(out@) =~= Seq::<OutView>::empty());
        if self.query.is_some() {
            return out;
        }
        let local = self.table.this_node_id();
        let ghost key = intention.key();
        let mut q = Query::new(intention);
        let nodes = self.table.k_closest(q.target, K);
        let ghost q0 = q;
        let mut i: usize = 0;
        assert(nodes@.take(0) =~= Seq::<Node>::empty());
        while i < nodes.len()
            invariant
                i <= nodes@.len(),
                shortlist_wf(q.closest@, q.target),
                q.closest@ == add_all(Seq::empty(), nodes@.take(i as int), q0.target).0,
                q.target == q0.target,
                q.intention == q0.intention,
                !q.final_k,
                q.transactions@ == Seq::<TxEntry>::empty(),
            decreases nodes@.len() - i,
        {
            assert(nodes@.take(i + 1).drop_last() =~= nodes@.take(i as int));
            q.add_node(nodes[i]);
            i = i + 1;
        }
        assert(nodes@.take(i as int) =~= nodes@);
        let ghost s0 = q.closest@;
        match q.get_closest() {
            Some(next) => {
                let o = q.contact(next, local, now);
                out.push(o);
                assert(outs(out@) =~= seq![o@]);
            },
            None => {},
        }
        self.query = Some(q);
        assert(lookup_started(self.table@, &q0.intention, local, now, &self.query, outs(out@)));
        out
    }
}

} // verus!
