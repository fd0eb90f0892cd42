//! Outstanding transactions and the state of an iterative lookup.
use crate::base::{dist, key_of_digest, sha1_digest, BitKey, Node};
use crate::messages::{Header, TransactionID};
use vstd::prelude::*;
use vstd::string::StringSliceAdditionalSpecFns;

verus! {

/// How many peers a bucket and a lookup's shortlist hold.
pub const K: usize = 20;

/// How long, in milliseconds, an outstanding call may go unanswered.
pub const TIMEOUT_MS: u64 = 5000;

/// One outstanding call: its transaction, when it was issued (in
/// milliseconds of a monotonic clock), and the node it went to.
#[derive(Clone, Copy, Debug, PartialEq, Eq, Structural)]
pub struct TxEntry {
    pub transaction_id: TransactionID,
    pub issued: u64,
    pub remote: BitKey,
}

/// Whether a call issued at `issued` has gone unanswered too long at `now`.
pub open spec fn is_stale(e: TxEntry, now: u64) -> bool {
    now > e.issued + TIMEOUT_MS
}

/// Some entry is for the transaction.
pub open spec fn has_tx(s: Seq<TxEntry>, tx: TransactionID) -> bool {
    exists|i: int| 0 <= i < s.len() && #[trigger] s[i].transaction_id == tx
}

/// The entries with `e` recorded: it replaces the entry of its transaction,
/// or comes last when there is none.
pub open spec fn tx_insert(s: Seq<TxEntry>, e: TxEntry) -> Seq<TxEntry> {
    if has_tx(s, e.transaction_id) {
        s.map_values(|x: TxEntry| if x.transaction_id == e.transaction_id { e } else { x })
    } else {
        s.push(e)
    }
}

/// The entries without those of the transaction.
pub open spec fn tx_remove(s: Seq<TxEntry>, tx: TransactionID) -> Seq<TxEntry>
    decreases s.len(),
{
    if s.len() == 0 {
        s
    } else if s.last().transaction_id == tx {
        tx_remove(s.drop_last(), tx)
    } else {
        tx_remove(s.drop_last(), tx).push(s.last())
    }
}

/// The entries that are not stale at `now`, in order.
pub open spec fn fresh_entries(s: Seq<TxEntry>, now: u64) -> Seq<TxEntry>
    decreases s.len(),
{
    if s.len() == 0 {
        s
    } else if is_stale(s.last(), now) {
        fresh_entries(s.drop_last(), now)
    } else {
        fresh_entries(s.drop_last(), now).push(s.last())
    }
}

/// The nodes of the entries that are stale at `now`, in order.
pub open spec fn stale_remotes(s: Seq<TxEntry>, now: u64) -> Seq<BitKey>
    decreases s.len(),
{
    if s.len() == 0 {
        Seq::empty()
    } else if is_stale(s.last(), now) {
        stale_remotes(s.drop_last(), now).push(s.last().remote)
    } else {
        stale_remotes(s.drop_last(), now)
    }
}

/// No two entries are for the same transaction.
pub open spec fn tx_unique(s: Seq<TxEntry>) -> bool {
    forall|i: int, j: int|
        0 <= i < s.len() && 0 <= j < s.len() && i != j ==> #[trigger] s[i].transaction_id
            != #[trigger] s[j].transaction_id
}

proof fn lemma_tx_remove_subset(s: Seq<TxEntry>, tx: TransactionID)
    ensures
        forall|i: int| 0 <= i < tx_remove(s, tx).len() ==> s.contains(#[trigger] tx_remove(s, tx)[i]),
        tx_unique(s) ==> tx_unique(tx_remove(s, tx)),
        !has_tx(tx_remove(s, tx), tx),
    decreases s.len(),
{
    if s.len() > 0 {
        let p = s.drop_last();
        lemma_tx_remove_subset(p, tx);
        let r = tx_remove(s, tx);
        let rp = tx_remove(p, tx);
        assert forall|i: int| 0 <= i < r.len() implies s.contains(#[trigger] r[i]) by {
            if i < rp.len() {
                assert(r[i] == rp[i]);
                assert(p.contains(rp[i]));
                let k = choose|k: int| 0 <= k < p.len() && p[k] == rp[i];
                assert(s[k] == r[i]);
            } else {
                assert(s[s.len() - 1] == r[i]);
            }
        }
        if tx_unique(s) {
            assert(tx_unique(p)) by {
                assert forall|i: int, j: int| 0 <= i < p.len() && 0 <= j < p.len() && i != j implies #[trigger] p[i].transaction_id
                    != #[trigger] p[j].transaction_id by {
                    assert(p[i] == s[i] && p[j] == s[j]);
                }
            }
            if s.last().transaction_id != tx {
                assert forall|i: int, j: int| 0 <= i < r.len() && 0 <= j < r.len() && i != j implies #[trigger] r[i].transaction_id
                    != #[trigger] r[j].transaction_id by {
                    if i < rp.len() && j < rp.len() {
                        assert(r[i] == rp[i] && r[j] == rp[j]);
                    } else if i < rp.len() {
                        assert(r[i] == rp[i]);
                        assert(p.contains(rp[i]));
                        let k = choose|k: int| 0 <= k < p.len() && p[k] == rp[i];
                        assert(s[k] == p[k]);
                    } else if j < rp.len() {
                        assert(r[j] == rp[j]);
                        assert(p.contains(rp[j]));
                        let k = choose|k: int| 0 <= k < p.len() && p[k] == rp[j];
                        assert(s[k] == p[k]);
                    }
                }
            }
        }
        if has_tx(r, tx) {
            let k = choose|k: int| 0 <= k < r.len() && #[trigger] r[k].transaction_id == tx;
            if k < rp.len() {
                assert(r[k] == rp[k]);
            }
        }
    }
}

/// Recording and forgetting calls keep transactions unique, and a forgotten
/// transaction is no longer outstanding.
pub proof fn lemma_tx_unique_preserved(s: Seq<TxEntry>, e: TxEntry, tx: TransactionID)
    requires
        tx_unique(s),
    ensures
        tx_unique(tx_insert(s, e)),
        has_tx(tx_insert(s, e), e.transaction_id),
        tx_unique(tx_remove(s, tx)),
        !has_tx(tx_remove(s, tx), tx),
{
    lemma_tx_remove_subset(s, tx);
    let r = tx_insert(s, e);
    if has_tx(s, e.transaction_id) {
        let k = choose|k: int| 0 <= k < s.len() && #[trigger] s[k].transaction_id == e.transaction_id;
        assert(r[k] == e);
        assert forall|i: int, j: int| 0 <= i < r.len() && 0 <= j < r.len() && i != j implies #[trigger] r[i].transaction_id
            != #[trigger] r[j].transaction_id by {
            if r[i].transaction_id == r[j].transaction_id {
                if s[i].transaction_id == e.transaction_id || s[j].transaction_id == e.transaction_id {
                    assert(s[i].transaction_id == e.transaction_id && s[j].transaction_id == e.transaction_id);
                }
            }
        }
    } else {
        assert(r[s.len() as int] == e);
        assert forall|i: int, j: int| 0 <= i < r.len() && 0 <= j < r.len() && i != j implies #[trigger] r[i].transaction_id
            != #[trigger] r[j].transaction_id by {
            if i < s.len() && j < s.len() {
                assert(r[i] == s[i] && r[j] == s[j]);
            } else if i < s.len() {
                assert(r[i] == s[i]);
            } else if j < s.len() {
                assert(r[j] == s[j]);
            }
        }
    }
}

/// The calls that are waiting for an answer.
#[derive(Debug)]
pub struct TransactionTable {
    transactions: Vec<TxEntry>,
}

impl View for TransactionTable {
    type V = Seq<TxEntry>;

    closed spec fn view(&self) -> Seq<TxEntry> {
        self.transactions@
    }
}

impl TransactionTable {
    /// A table with no outstanding call.
    pub fn new() -> (r: Self)
        ensures
            r@ == Seq::<TxEntry>::empty(),
    {
        TransactionTable { transactions: Vec::new() }
    }

    /// Records the call that `header` starts, issued at `now`.
    pub fn insert(&mut self, header: Header, now: u64)
        ensures
            final(self)@ == tx_insert(
                old(self)@,
                TxEntry { transaction_id: header.transaction_id, issued: now, remote: header.node_id },
            ),
    {
        let e = TxEntry { transaction_id: header.transaction_id, issued: now, remote: header.node_id };
        if self.contains(header.transaction_id) {
            let ghost s = self@;
            let mut r: Vec<TxEntry> = Vec::new();
            let mut i: usize = 0;
            while i < self.transactions.len()
                invariant
                    i <= s.len(),
                    s == self.transactions@,
                    r@ == s.take(i as int).map_values(
                        |x: TxEntry| if x.transaction_id == e.transaction_id { e } else { x },
                    ),
                decreases s.len() - i,
            {
                let x = self.transactions[i];
                if x.transaction_id == e.transaction_id {
                    r.push(e);
                } else {
                    r.push(x);
                }
                i = i + 1;
                assert(r@ =~= s.take(i as int).map_values(
                    |x: TxEntry| if x.transaction_id == e.transaction_id { e } else { x },
                ));
            }
            assert(s.take(i as int) =~= s);
            self.transactions = r;
        } else {
            self.transactions.push(e);
        }
    }

    /// Whether a call with the transaction is outstanding.
    pub fn contains(&self, transaction_id: TransactionID) -> (r: bool)
        ensures
            r == has_tx(self@, transaction_id),
    {
        let mut i: usize = 0;
        while i < self.transactions.len()
            invariant
                i <= self.transactions@.len(),
                forall|j: int| 0 <= j < i ==> #[trigger] self.transactions@[j].transaction_id != transaction_id,
            decreases self.transactions@.len() - i,
        {
            if self.transactions[i].transaction_id == transaction_id {
                return true;
            }
            i = i + 1;
        }
        false
    }

    /// Forgets the call with the transaction; whether there was one.
    pub fn remove(&mut self, transaction_id: TransactionID) -> (r: bool)
        ensures
            r == has_tx(old(self)@, transaction_id),
            final(self)@ == tx_remove(old(self)@, transaction_id),
    {
        let found = self.contains(transaction_id);
        let ghost s = self@;
        let mut r: Vec<TxEntry> = Vec::new();
        let mut i: usize = 0;
        while i < self.transactions.len()
            invariant
                i <= s.len(),
                s == self.transactions@,
                r@ == tx_remove(s.take(i as int), transaction_id),
            decreases s.len() - i,
        {
            assert(s.take(i + 1).drop_last() =~= s.take(i as int));
            if self.transactions[i].transaction_id != transaction_id {
                r.push(self.transactions[i]);
            }
            i = i + 1;
        }
        assert(s.take(i as int) =~= s);
        self.transactions = r;
        found
    }

    /// Forgets every call that is stale at `now`, and appends the nodes they
    /// went to to `buf`.
    pub fn remove_stale(&mut self, now: u64, buf: &mut Vec<BitKey>)
        ensures
            final(self)@ == fresh_entries(old(self)@, now),
            final(buf)@ == old(buf)@ + stale_remotes(old(self)@, now),
    {
        let ghost s = self@;
        let ghost b0 = buf@;
        let mut r: Vec<TxEntry> = Vec::new();
        let mut i: usize = 0;
        while i < self.transactions.len()
            invariant
                i <= s.len(),
                s == self.transactions@,
                r@ == fresh_entries(s.take(i as int), now),
                buf@ == b0 + stale_remotes(s.take(i as int), now),
            decreases s.len() - i,
        {
            assert(s.take(i + 1).drop_last() =~= s.take(i as int));
            let e = self.transactions[i];
            if now > e.issued && now - e.issued > TIMEOUT_MS {
                buf.push(e.remote);
            } else {
                r.push(e);
            }
            i = i + 1;
            assert(buf@ =~= b0 + stale_remotes(s.take(i as int), now));
        }
        assert(s.take(i as int) =~= s);
        self.transactions = r;
    }
}

/// What a lookup is for.
#[derive(Debug)]
pub enum QueryIntention {
    Store(String, String),
    Get(String),
}

impl QueryIntention {
    /// The key whose value a `Get` looks for; none for a `Store`.
    pub fn key_to_find(&self) -> (r: Option<String>)
        ensures
            match self {
                QueryIntention::Store(_, _) => r is None,
                QueryIntention::Get(key) => r matches Some(k) && k@ == key@,
            },
    {
        match self {
            QueryIntention::Store(_, _) => None,
            QueryIntention::Get(key) => Some(key.clone()),
        }
    }

    /// The key that the lookup is about.
    pub open spec fn key(&self) -> Seq<char> {
        match self {
            QueryIntention::Store(k, _) => k@,
            QueryIntention::Get(k) => k@,
        }
    }
}

/// How far a peer of the shortlist is in the lookup.
#[derive(Clone, Copy, Debug, PartialEq, Eq, Structural)]
pub enum QueryStatus {
    Empty,
    Started,
    Finished,
}

/// A peer of the shortlist, its status, and its distance to the target.
#[derive(Clone, Copy, Debug)]
pub struct NodeQuery {
    pub node: Node,
    pub status: QueryStatus,
    pub distance: u128,
}

impl NodeQuery {
    /// A peer not yet contacted, at its distance to `target`.
    pub fn new(node: Node, target: BitKey) -> (r: Self)
        ensures
            r == (NodeQuery { node, status: QueryStatus::Empty, distance: dist(node.id, target) }),
    {
        NodeQuery { node, status: QueryStatus::Empty, distance: node.id.distance(target) }
    }
}

/// The shortlist is in strictly ascending order of distance, each entry at
/// the distance of its node to the target.
pub open spec fn shortlist_wf(s: Seq<NodeQuery>, target: BitKey) -> bool {
    &&& s.len() <= K
    &&& forall|i: int, j: int| 0 <= i < j < s.len() ==> (#[trigger] s[i]).distance < (#[trigger] s[j]).distance
    &&& forall|i: int| 0 <= i < s.len() ==> (#[trigger] s[i]).distance == dist(s[i].node.id, target)
}

/// The index of the entry at distance `d`, if any.
pub open spec fn find_distance(s: Seq<NodeQuery>, d: u128) -> Option<int>
    decreases s.len(),
{
    if s.len() == 0 {
        None
    } else if s.last().distance == d {
        Some(s.len() - 1)
    } else {
        find_distance(s.drop_last(), d)
    }
}

/// How many entries of a sorted shortlist are nearer than `d`.
pub open spec fn nearer_count(s: Seq<NodeQuery>, d: u128) -> int
    decreases s.len(),
{
    if s.len() == 0 {
        0
    } else if s.last().distance < d {
        s.len() as int
    } else {
        nearer_count(s.drop_last(), d)
    }
}

/// The shortlist with `e` put in its place, cut to `K` entries.
pub open spec fn shortlist_add(s: Seq<NodeQuery>, e: NodeQuery) -> Seq<NodeQuery> {
    let t = s.insert(nearer_count(s, e.distance), e);
    if t.len() > K {
        t.drop_last()
    } else {
        t
    }
}

/// The index of the first entry not yet contacted, if any.
pub open spec fn is_first_empty(s: Seq<NodeQuery>, i: int) -> bool {
    &&& 0 <= i < s.len()
    &&& s[i].status == QueryStatus::Empty
    &&& forall|j: int| 0 <= j < i ==> (#[trigger] s[j]).status != QueryStatus::Empty
}

pub proof fn lemma_find_distance(s: Seq<NodeQuery>, d: u128, i: int)
    requires
        forall|a: int, b: int| 0 <= a < b < s.len() ==> (#[trigger] s[a]).distance < (#[trigger] s[b]).distance,
        0 <= i < s.len(),
        s[i].distance == d,
    ensures
        find_distance(s, d) == Some(i),
    decreases s.len(),
{
    if i < s.len() - 1 {
        assert(s[i].distance < s[s.len() - 1].distance);
        lemma_find_distance(s.drop_last(), d, i);
    }
}

pub proof fn lemma_find_distance_none(s: Seq<NodeQuery>, d: u128)
    requires
        forall|a: int| 0 <= a < s.len() ==> (#[trigger] s[a]).distance != d,
    ensures
        find_distance(s, d) is None,
    decreases s.len(),
{
    if s.len() > 0 {
        lemma_find_distance_none(s.drop_last(), d);
    }
}

pub proof fn lemma_nearer_count(s: Seq<NodeQuery>, d: u128, i: int)
    requires
        0 <= i <= s.len(),
        forall|a: int| 0 <= a < i ==> (#[trigger] s[a]).distance < d,
        forall|a: int| i <= a < s.len() ==> (#[trigger] s[a]).distance > d,
    ensures
        nearer_count(s, d) == i,
    decreases s.len(),
{
    if s.len() > 0 && i < s.len() {
        lemma_nearer_count(s.drop_last(), d, i);
    }
}

/// The state of one iterative lookup.
#[derive(Debug)]
pub struct Query {
    pub target: BitKey,
    pub intention: QueryIntention,
    pub closest: Vec<NodeQuery>,
    pub transactions: TransactionTable,
    pub final_k: bool,
}

impl Query {
    /// A lookup for the key of `intention`, with an empty shortlist.
    pub fn new(intention: QueryIntention) -> (r: Self)
        ensures
            r.target.0 == key_of_digest(sha1_digest(crate::messages::encode_utf8_of(intention.key()))),
            r.intention == intention,
            r.closest@ == Seq::<NodeQuery>::empty(),
            r.transactions@ == Seq::<TxEntry>::empty(),
            !r.final_k,
    {
        let target = match &intention {
            QueryIntention::Store(key, _) => BitKey::from_hash(key.as_str()),
            QueryIntention::Get(key) => BitKey::from_hash(key.as_str()),
        };
        Query {
            target,
            intention,
            closest: Vec::new(),
            transactions: TransactionTable::new(),
            final_k: false,
        }
    }

    /// Where the peer with the id is, or would go, in the shortlist.
    pub fn find_node(&self, key: BitKey) -> (r: Result<usize, usize>)
        requires
            shortlist_wf(self.closest@, self.target),
        ensures
            match r {
                Ok(i) => i < self.closest@.len() && self.closest@[i as int].distance == dist(key, self.target),
                Err(i) => i <= self.closest@.len() && (forall|j: int|
                    0 <= j < i ==> (#[trigger] self.closest@[j]).distance < dist(key, self.target)) && (forall|j: int|
                    i <= j < self.closest@.len() ==> (#[trigger] self.closest@[j]).distance > dist(key, self.target)),
            },
    {
        let d = key.distance(self.target);
        let mut lo: usize = 0;
        let mut hi: usize = self.closest.len();
        while lo < hi
            invariant
                lo <= hi <= self.closest@.len(),
                shortlist_wf(self.closest@, self.target),
                d == dist(key, self.target),
                forall|j: int| 0 <= j < lo ==> (#[trigger] self.closest@[j]).distance < d,
                forall|j: int| hi <= j < self.closest@.len() ==> (#[trigger] self.closest@[j]).distance > d,
            decreases hi - lo,
        {
            let mid = lo + (hi - lo) / 2;
            let m = self.closest[mid].distance;
            if m == d {
                return Ok(mid);
            } else if m < d {
                lo = mid + 1;
            } else {
                hi = mid;
            }
        }
        Err(lo)
    }

    /// Adds a peer learned of; whether it was new. The shortlist keeps its
    /// `K` nearest entries.
    pub fn add_node(&mut self, node: Node) -> (r: bool)
        requires
            shortlist_wf(old(self).closest@, old(self).target),
        ensures
            r == (find_distance(old(self).closest@, dist(node.id, old(self).target)) is None),
            final(self).closest@ == if r {
                shortlist_add(old(self).closest@, NodeQuery::new_spec(node, old(self).target))
            } else {
                old(self).closest@
            },
            shortlist_wf(final(self).closest@, final(self).target),
            final(self).target == old(self).target,
            final(self).intention == old(self).intention,
            final(self).transactions == old(self).transactions,
            final(self).final_k == old(self).final_k,
    {
        match self.find_node(node.id) {
            Err(index) => {
                let ghost s = self.closest@;
                let e = NodeQuery::new(node, self.target);
                proof {
                    lemma_find_distance_none(s, e.distance);
                    lemma_nearer_count(s, e.distance, index as int);
                }
                self.closest.insert(index, e);
                let ghost t = self.closest@;
                assert forall|i: int, j: int| 0 <= i < j < t.len() implies (#[trigger] t[i]).distance < (
                #[trigger] t[j]).distance by {
                    if j < index {
                    } else if j == index {
                    } else if i < index {
                        assert(t[j] == s[j - 1]);
                    } else if i == index {
                        assert(t[j] == s[j - 1]);
                    } else {
                        assert(t[j] == s[j - 1] && t[i] == s[i - 1]);
                    }
                }
                assert forall|i: int| 0 <= i < t.len() implies (#[trigger] t[i]).distance == dist(t[i].node.id, self.target) by {
                    if i < index {
                        assert(t[i] == s[i]);
                    } else if i > index {
                        assert(t[i] == s[i - 1]);
                    }
                }
                if self.closest.len() > K {
                    self.closest.pop();
                }
                true
            },
            Ok(i) => {
                proof {
                    lemma_find_distance(self.closest@, dist(node.id, self.target), i as int);
                }
                false
            },
        }
    }

    /// Sets the status of the peer with the id, if it is in the shortlist.
    pub fn update_status(&mut self, id: BitKey, status: QueryStatus)
        requires
            shortlist_wf(old(self).closest@, old(self).target),
        ensures
            final(self).closest@ == match find_distance(old(self).closest@, dist(id, old(self).target)) {
                Some(i) => old(self).closest@.update(i, NodeQuery { status, ..old(self).closest@[i] }),
                None => old(self).closest@,
            },
            shortlist_wf(final(self).closest@, final(self).target),
            final(self).target == old(self).target,
            final(self).intention == old(self).intention,
            final(self).transactions == old(self).transactions,
            final(self).final_k == old(self).final_k,
    {
        match self.find_node(id) {
            Ok(index) => {
                proof {
                    lemma_find_distance(self.closest@, dist(id, self.target), index as int);
                }
                let mut e = self.closest[index];
                e.status = status;
                self.closest.set(index, e);
            },
            Err(index) => {
                proof {
                    lemma_find_distance_none(self.closest@, dist(id, self.target));
                }
            },
        }
    }

    /// Drops the peer with the id from the shortlist, if it is there.
    pub fn remove(&mut self, id: BitKey)
        requires
            shortlist_wf(old(self).closest@, old(self).target),
        ensures
            final(self).closest@ == match find_distance(old(self).closest@, dist(id, old(self).target)) {
                Some(i) => old(self).closest@.remove(i),
                None => old(self).closest@,
            },
            shortlist_wf(final(self).closest@, final(self).target),
            final(self).target == old(self).target,
            final(self).intention == old(self).intention,
            final(self).transactions == old(self).transactions,
            final(self).final_k == old(self).final_k,
    {
        match self.find_node(id) {
            Ok(index) => {
                proof {
                    lemma_find_distance(self.closest@, dist(id, self.target), index as int);
                }
                let ghost s = self.closest@;
                self.closest.remove(index);
                let ghost t = self.closest@;
                assert forall|i: int, j: int| 0 <= i < j < t.len() implies (#[trigger] t[i]).distance < (
                #[trigger] t[j]).distance by {
                    if i >= index {
                        assert(t[i] == s[i + 1] && t[j] == s[j + 1]);
                    } else if j >= index {
                        assert(t[i] == s[i] && t[j] == s[j + 1]);
                    } else {
                        assert(t[i] == s[i] && t[j] == s[j]);
                    }
                }
                assert forall|i: int| 0 <= i < t.len() implies (#[trigger] t[i]).distance == dist(t[i].node.id, self.target) by {
                    if i >= index {
                        assert(t[i] == s[i + 1]);
                    } else {
                        assert(t[i] == s[i]);
                    }
                }
            },
            Err(_) => {
                proof {
                    lemma_find_distance_none(self.closest@, dist(id, self.target));
                }
            },
        }
    }

    /// The nearest peer of the shortlist not yet contacted, if any.
    pub fn get_closest(&self) -> (r: Option<Node>)
        ensures
            match r {
                Some(n) => exists|i: int| is_first_empty(self.closest@, i) && self.closest@[i].node == n,
                None => forall|i: int|
                    0 <= i < self.closest@.len() ==> (#[trigger] self.closest@[i]).status != QueryStatus::Empty,
            },
    {
        let mut i: usize = 0;
        while i < self.closest.len()
            invariant
                i <= self.closest@.len(),
                forall|j: int| 0 <= j < i ==> (#[trigger] self.closest@[j]).status != QueryStatus::Empty,
            decreases self.closest@.len() - i,
        {
            if self.closest[i].status == QueryStatus::Empty {
                assert(is_first_empty(self.closest@, i as int));
                return Some(self.closest[i].node);
            }
            i = i + 1;
        }
        None
    }

    /// Whether every peer of the shortlist has answered.
    pub fn all_done(&self) -> (r: bool)
        ensures
            r == forall|i: int|
                0 <= i < self.closest@.len() ==> (#[trigger] self.closest@[i]).status == QueryStatus::Finished,
    {
        let mut i: usize = 0;
        while i < self.closest.len()
            invariant
                i <= self.closest@.len(),
                forall|j: int| 0 <= j < i ==> (#[trigger] self.closest@[j]).status == QueryStatus::Finished,
            decreases self.closest@.len() - i,
        {
            if self.closest[i].status != QueryStatus::Finished {
                return false;
            }
            i = i + 1;
        }
        true
    }
}

impl NodeQuery {
    /// What [`NodeQuery::new`] returns.
    pub open spec fn new_spec(node: Node, target: BitKey) -> NodeQuery {
        NodeQuery { node, status: QueryStatus::Empty, distance: dist(node.id, target) }
    }
}

} // verus!
