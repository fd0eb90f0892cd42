//! K-buckets and the routing table built from them.
use crate::base::{dist, BitKey, Node, KEY_SIZE};
use crate::closest::{has_id, ids_distinct, insert_bounded, is_closest, min_nat, sorted_by_distance};
use vstd::prelude::*;

verus! {

/// What a bucket answers to an insertion.
#[derive(Clone, Copy, Debug, PartialEq)]
pub enum KBucketInsert {
    /// The node is now in the bucket.
    Inserted,
    /// The bucket is full: the node waits, and the given oldest node must be
    /// pinged. If it answers, insert it again; if not, remove it.
    Ping(Node),
}

/// A bucket as a value: its active nodes, least recently seen first, the
/// stack of nodes waiting for a place, and its capacity.
pub struct BucketView {
    pub active: Seq<Node>,
    pub waiting: Seq<Node>,
    pub capacity: nat,
}

/// `s` without the nodes that have the id.
pub open spec fn without(s: Seq<Node>, id: BitKey) -> Seq<Node>
    decreases s.len(),
{
    if s.len() == 0 {
        s
    } else if s.last().id == id {
        without(s.drop_last(), id)
    } else {
        without(s.drop_last(), id).push(s.last())
    }
}

/// The invariant of a bucket: at most `capacity` active nodes, no id twice,
/// no waiting node among the active ones, and nodes wait only while the
/// bucket is full.
pub open spec fn bucket_wf(b: BucketView) -> bool {
    &&& b.capacity >= 1
    &&& b.active.len() <= b.capacity
    &&& ids_distinct(b.active)
    &&& ids_distinct(b.waiting)
    &&& forall|i: int| 0 <= i < b.waiting.len() ==> !has_id(b.active, #[trigger] b.waiting[i].id)
    &&& b.waiting.len() > 0 ==> b.active.len() == b.capacity
}

/// A bucket after an insertion, and the answer: the node moves to the back if
/// there is room (it is first taken out if present); otherwise it waits and
/// the oldest active node is to be pinged.
pub open spec fn bucket_insert(b: BucketView, item: Node) -> (BucketView, KBucketInsert) {
    let base = without(b.active, item.id);
    if base.len() < b.capacity {
        (BucketView { active: base.push(item), ..b }, KBucketInsert::Inserted)
    } else {
        (
            BucketView { active: base, waiting: without(b.waiting, item.id).push(item), ..b },
            KBucketInsert::Ping(base[0]),
        )
    }
}

/// A bucket after the node with the id is found dead: it leaves, and the
/// most recent waiting node takes its place.
pub open spec fn bucket_remove(b: BucketView, id: BitKey) -> BucketView {
    if has_id(b.active, id) {
        if b.waiting.len() > 0 {
            BucketView {
                active: without(b.active, id).push(b.waiting.last()),
                waiting: b.waiting.drop_last(),
                ..b
            }
        } else {
            BucketView { active: without(b.active, id), ..b }
        }
    } else {
        b
    }
}

pub proof fn lemma_without(s: Seq<Node>, id: BitKey)
    ensures
        forall|i: int|
            #![trigger without(s, id)[i]]
            0 <= i < without(s, id).len() ==> without(s, id)[i].id != id && s.contains(without(s, id)[i]),
        forall|n: Node| s.contains(n) && n.id != id ==> #[trigger] without(s, id).contains(n),
        ids_distinct(s) ==> ids_distinct(without(s, id)),
        !has_id(s, id) ==> without(s, id) == s,
        ids_distinct(s) && has_id(s, id) ==> without(s, id).len() == s.len() - 1,
        without(s, id).len() <= s.len(),
    decreases s.len(),
{
    if s.len() > 0 {
        let p = s.drop_last();
        lemma_without(p, id);
        let w = without(s, id);
        let wp = without(p, id);
        assert forall|i: int| 0 <= i < w.len() implies #[trigger] w[i].id != id && s.contains(w[i]) by {
            if i < wp.len() {
                assert(wp[i].id != id && p.contains(wp[i]));
            }
            if i < wp.len() {
                assert(w[i] == wp[i]);
                let k = choose|k: int| 0 <= k < p.len() && p[k] == wp[i];
                assert(s[k] == w[i]);
            } else {
                assert(s[s.len() - 1] == w[i]);
            }
        }
        assert forall|n: Node| s.contains(n) && n.id != id implies #[trigger] w.contains(n) by {
            let k = choose|k: int| 0 <= k < s.len() && s[k] == n;
            if k < p.len() {
                assert(p[k] == n);
                assert(p.contains(n));
                assert(wp.contains(n));
                let m = choose|m: int| 0 <= m < wp.len() && wp[m] == n;
                assert(w[m] == n);
            } else {
                assert(w[w.len() - 1] == n);
            }
        }
        if ids_distinct(s) {
            assert(ids_distinct(p));
            if s.last().id != id {
                assert forall|i: int, j: int|
                    0 <= i < w.len() && 0 <= j < w.len() && i != j implies #[trigger] w[i].id != #[trigger] w[j].id by {
                    if i < wp.len() && j < wp.len() {
                    } else if i < wp.len() {
                        let k = choose|k: int| 0 <= k < p.len() && p[k] == wp[i];
                        assert(s[k] == p[k]);
                    } else if j < wp.len() {
                        let k = choose|k: int| 0 <= k < p.len() && p[k] == wp[j];
                        assert(s[k] == p[k]);
                    }
                }
            }
            if has_id(s, id) {
                if s.last().id != id {
                    let k = choose|k: int| 0 <= k < s.len() && #[trigger] s[k].id == id;
                    assert(p[k].id == id);
                } else {
                    assert forall|k: int| 0 <= k < p.len() implies #[trigger] p[k].id != id by {
                        assert(s[k] == p[k]);
                    }
                }
            }
        }
        if !has_id(s, id) {
            assert forall|k: int| 0 <= k < p.len() implies #[trigger] p[k].id != id by {
                assert(s[k] == p[k]);
            }
            assert(s.last().id != id);
            assert(w =~= s);
        }
    }
}

pub proof fn lemma_bucket_insert_wf(b: BucketView, item: Node)
    requires
        bucket_wf(b),
    ensures
        bucket_wf(bucket_insert(b, item).0),
        bucket_insert(b, item).0.capacity == b.capacity,
{
    lemma_without(b.active, item.id);
    lemma_without(b.waiting, item.id);
    let base = without(b.active, item.id);
    let (nb, _) = bucket_insert(b, item);
    if base.len() < b.capacity {
        let a = base.push(item);
        assert forall|i: int, j: int| 0 <= i < a.len() && 0 <= j < a.len() && i != j implies #[trigger] a[i].id
            != #[trigger] a[j].id by {
            if i < base.len() && j < base.len() {
                assert(a[i] == base[i] && a[j] == base[j]);
            } else if i < base.len() {
                assert(a[i] == base[i]);
            } else if j < base.len() {
                assert(a[j] == base[j]);
            }
        }
        if b.waiting.len() > 0 {
            assert(has_id(b.active, item.id));
            assert forall|i: int| 0 <= i < b.waiting.len() implies !has_id(a, #[trigger] b.waiting[i].id) by {
                if has_id(a, b.waiting[i].id) {
                    let k = choose|k: int| 0 <= k < a.len() && #[trigger] a[k].id == b.waiting[i].id;
                    if k < base.len() {
                        assert(a[k] == base[k]);
                        assert(b.active.contains(base[k]));
                        let m = choose|m: int| 0 <= m < b.active.len() && b.active[m] == base[k];
                        assert(b.active[m].id == b.waiting[i].id);
                    } else {
                        let m = choose|m: int| 0 <= m < b.active.len() && #[trigger] b.active[m].id == item.id;
                        assert(b.active[m].id == b.waiting[i].id);
                    }
                }
            }
        }
    } else {
        assert(!has_id(b.active, item.id));
        let w0 = without(b.waiting, item.id);
        let w = w0.push(item);
        assert forall|i: int, j: int| 0 <= i < w.len() && 0 <= j < w.len() && i != j implies #[trigger] w[i].id
            != #[trigger] w[j].id by {
            if i < w0.len() && j < w0.len() {
                assert(w[i] == w0[i] && w[j] == w0[j]);
            } else if i < w0.len() {
                assert(w[i] == w0[i]);
            } else if j < w0.len() {
                assert(w[j] == w0[j]);
            }
        }
        assert forall|i: int| 0 <= i < w.len() implies !has_id(base, #[trigger] w[i].id) by {
            if i < w0.len() {
                assert(w[i] == w0[i]);
                let m = choose|m: int| 0 <= m < b.waiting.len() && b.waiting[m] == w0[i];
                assert(!has_id(b.active, b.waiting[m].id));
            }
        }
    }
}

pub proof fn lemma_bucket_remove_wf(b: BucketView, id: BitKey)
    requires
        bucket_wf(b),
    ensures
        bucket_wf(bucket_remove(b, id)),
        bucket_remove(b, id).capacity == b.capacity,
{
    lemma_without(b.active, id);
    if has_id(b.active, id) && b.waiting.len() > 0 {
        let a0 = without(b.active, id);
        let last = b.waiting.last();
        let a = a0.push(last);
        let w = b.waiting.drop_last();
        assert(!has_id(b.active, b.waiting[b.waiting.len() - 1].id));
        assert forall|i: int, j: int| 0 <= i < a.len() && 0 <= j < a.len() && i != j implies #[trigger] a[i].id
            != #[trigger] a[j].id by {
            if i < a0.len() && j < a0.len() {
                assert(a[i] == a0[i] && a[j] == a0[j]);
            } else if i < a0.len() {
                assert(a[i] == a0[i]);
                let m = choose|m: int| 0 <= m < b.active.len() && b.active[m] == a0[i];
            } else if j < a0.len() {
                assert(a[j] == a0[j]);
                let m = choose|m: int| 0 <= m < b.active.len() && b.active[m] == a0[j];
            }
        }
        assert forall|i: int| 0 <= i < w.len() implies !has_id(a, #[trigger] w[i].id) by {
            assert(w[i] == b.waiting[i]);
            if has_id(a, w[i].id) {
                let k = choose|k: int| 0 <= k < a.len() && #[trigger] a[k].id == w[i].id;
                if k < a0.len() {
                    assert(a[k] == a0[k]);
                    let m = choose|m: int| 0 <= m < b.active.len() && b.active[m] == a0[k];
                    assert(b.active[m].id == b.waiting[i].id);
                } else {
                    assert(b.waiting[b.waiting.len() - 1].id == b.waiting[i].id);
                }
            }
        }
        assert forall|i: int, j: int| 0 <= i < w.len() && 0 <= j < w.len() && i != j implies #[trigger] w[i].id
            != #[trigger] w[j].id by {
            assert(w[i] == b.waiting[i] && w[j] == b.waiting[j]);
        }
    }
}

/// A fixed-capacity set of nodes at one distance range from this node.
///
/// Long-lived nodes are preferred: once the bucket is full, a new node gets a
/// place only when an active one is found dead.
#[derive(Debug)]
pub struct KBucket {
    max_size: usize,
    waiting: Vec<Node>,
    data: Vec<Node>,
}

impl View for KBucket {
    type V = BucketView;

    closed spec fn view(&self) -> BucketView {
        BucketView { active: self.data@, waiting: self.waiting@, capacity: self.max_size as nat }
    }
}

/// The nodes of `v` whose id is not `id`, in order.
fn remove_id(v: &Vec<Node>, id: BitKey) -> (r: Vec<Node>)
    ensures
        r@ == without(v@, id),
{
    let mut r: Vec<Node> = Vec::new();
    let mut i: usize = 0;
    while i < v.len()
        invariant
            i <= v@.len(),
            r@ == without(v@.take(i as int), id),
        decreases v@.len() - i,
    {
        assert(v@.take(i + 1).drop_last() =~= v@.take(i as int));
        if v[i].id != id {
            r.push(v[i]);
        }
        i = i + 1;
    }
    assert(v@.take(i as int) =~= v@);
    r
}

/// Whether a node of `v` has the id.
fn contains_id(v: &Vec<Node>, id: BitKey) -> (r: bool)
    ensures
        r == has_id(v@, id),
{
    let mut i: usize = 0;
    while i < v.len()
        invariant
            i <= v@.len(),
            forall|j: int| 0 <= j < i ==> #[trigger] v@[j].id != id,
        decreases v@.len() - i,
    {
        if v[i].id == id {
            return true;
        }
        i = i + 1;
    }
    false
}

impl KBucket {
    /// An empty bucket that holds at most `max_size` active nodes.
    pub fn new(max_size: usize) -> (r: Self)
        requires
            max_size >= 1,
        ensures
            r@ == (BucketView { active: Seq::empty(), waiting: Seq::empty(), capacity: max_size as nat }),
            bucket_wf(r@),
    {
        let r = KBucket { max_size, waiting: Vec::new(), data: Vec::new() };
        assert(r@.active =~= Seq::<Node>::empty());
        r
    }

    /// Records that a message came from `item`.
    ///
    /// With room left the node is put at the back and `Inserted` comes back.
    /// Otherwise it waits, and the oldest node must be pinged: if it answers
    /// insert it again, if not remove it.
    pub fn insert(&mut self, item: Node) -> (r: KBucketInsert)
        requires
            bucket_wf(old(self)@),
        ensures
            (final(self)@, r) == bucket_insert(old(self)@, item),
            bucket_wf(final(self)@),
    {
        proof {
            lemma_bucket_insert_wf(self@, item);
            lemma_without(self@.active, item.id);
        }
        let mut base = remove_id(&self.data, item.id);
        if base.len() < self.max_size {
            base.push(item);
            self.data = base;
            KBucketInsert::Inserted
        } else {
            let mut w = remove_id(&self.waiting, item.id);
            w.push(item);
            self.waiting = w;
            self.data = base;
            KBucketInsert::Ping(self.data[0])
        }
    }

    /// Removes a dead node; the most recent waiting node takes its place.
    pub fn remove(&mut self, id: BitKey)
        requires
            bucket_wf(old(self)@),
        ensures
            final(self)@ == bucket_remove(old(self)@, id),
            bucket_wf(final(self)@),
    {
        proof {
            lemma_bucket_remove_wf(self@, id);
        }
        if contains_id(&self.data, id) {
            let mut base = remove_id(&self.data, id);
            if self.waiting.len() > 0 {
                let new = self.waiting.pop().unwrap();
                base.push(new);
            }
            self.data = base;
        }
    }

    /// Appends to `buf` the `k` nodes of this bucket closest to `target`
    /// (all of them when there are fewer), nearest first, and returns how many.
    pub fn k_closest(&self, buf: &mut Vec<Node>, target: BitKey, k: usize) -> (r: usize)
        requires
            bucket_wf(self@),
        ensures
            r == min_nat(k as nat, self@.active.len()),
            final(buf)@.len() == old(buf)@.len() + r,
            final(buf)@.take(old(buf)@.len() as int) == old(buf)@,
            is_closest(final(buf)@.skip(old(buf)@.len() as int), self@.active, target, k as nat),
    {
        let mut scratch: Vec<Node> = Vec::new();
        let mut i: usize = 0;
        assert(self.data@.take(0) =~= Seq::<Node>::empty());
        while i < self.data.len()
            invariant
                i <= self.data@.len(),
                ids_distinct(self.data@),
                is_closest(scratch@, self.data@.take(i as int), target, k as nat),
            decreases self.data@.len() - i,
        {
            let node = self.data[i];
            assert(!has_id(self.data@.take(i as int), node.id));
            insert_bounded(&mut scratch, node, target, k, Ghost(self.data@.take(i as int)));
            assert(self.data@.take(i as int).push(node) =~= self.data@.take(i + 1));
            i = i + 1;
        }
        assert(self.data@.take(i as int) =~= self.data@);
        let count = scratch.len();
        let ghost before = buf@;
        let mut j: usize = 0;
        while j < count
            invariant
                j <= count,
                count == scratch@.len(),
                buf@ == before + scratch@.take(j as int),
            decreases count - j,
        {
            buf.push(scratch[j]);
            j = j + 1;
            assert(buf@ =~= before + scratch@.take(j as int));
        }
        assert(buf@.skip(before.len() as int) =~= scratch@);
        assert(buf@.take(before.len() as int) =~= before);
        count
    }

    /// The active nodes, least recently seen first.
    pub fn entries(&self) -> (r: Vec<Node>)
        ensures
            r@ == self@.active,
    {
        let mut r: Vec<Node> = Vec::new();
        let mut i: usize = 0;
        while i < self.data.len()
            invariant
                i <= self.data@.len(),
                r@ == self.data@.take(i as int),
            decreases self.data@.len() - i,
        {
            r.push(self.data[i]);
            i = i + 1;
            assert(r@ =~= self.data@.take(i as int));
        }
        assert(self.data@.take(i as int) =~= self.data@);
        r
    }
}


// ----- the routing table -----

/// The number of leading zero bits of `x`, counted from bit `127 - i` down.
pub open spec fn leading_zeros_from(x: u128, i: nat) -> nat
    decreases 128 - i,
{
    if i >= 128 {
        128
    } else if (x >> ((127 - i) as u128)) != 0 {
        i
    } else {
        leading_zeros_from(x, i + 1)
    }
}

/// The number of leading zero bits of a 128-bit number (128 for zero).
pub open spec fn leading_zeros(x: u128) -> nat {
    leading_zeros_from(x, 0)
}

/// The bucket of the node with id `b` in the table of node `a`: the leading
/// zeros of their distance.
pub open spec fn bucket_index(a: BitKey, b: BitKey) -> nat {
    leading_zeros(dist(a, b))
}

proof fn lemma_leading_zeros_from_bound(x: u128, i: nat)
    requires
        x != 0,
        i <= 127,
    ensures
        i <= leading_zeros_from(x, i) < 128,
    decreases 128 - i,
{
    if i == 127 {
        assert(x >> 0u128 == x) by (bit_vector);
    } else if (x >> ((127 - i) as u128)) == 0 {
        lemma_leading_zeros_from_bound(x, i + 1);
    }
}

/// The index of the bucket for a node other than the local one is below 128.
pub proof fn lemma_bucket_index_bound(a: BitKey, b: BitKey)
    requires
        a != b,
    ensures
        bucket_index(a, b) < 128,
{
    let (x, y) = (a.0, b.0);
    assert((x ^ y) == 0u128 ==> x == y) by (bit_vector);
    lemma_leading_zeros_from_bound(x ^ y, 0);
}

/// The number of leading zero bits of `x`.
pub fn count_leading_zeros(x: u128) -> (r: u32)
    ensures
        r == leading_zeros(x),
        r <= 128,
{
    let mut i: u32 = 0;
    while i < 128
        invariant
            i <= 128,
            leading_zeros_from(x, i as nat) == leading_zeros(x),
        decreases 128 - i,
    {
        if (x >> ((127 - i) as u128)) != 0 {
            return i;
        }
        i = i + 1;
    }
    128
}

/// Every node of `s` is another node than `local` and belongs in bucket `i`.
pub open spec fn placed(s: Seq<Node>, local: BitKey, i: nat) -> bool {
    forall|j: int| 0 <= j < s.len() ==> (#[trigger] s[j]).id != local && bucket_index(local, s[j].id) == i
}

/// A routing table as a value: the local node and its 128 buckets.
pub struct TableView {
    pub this_node: Node,
    pub buckets: Seq<BucketView>,
}

/// The invariant of a routing table: 128 well-formed buckets, and each node
/// in the bucket that the leading zeros of its distance to the local node name.
pub open spec fn table_wf(t: TableView) -> bool {
    &&& t.buckets.len() == KEY_SIZE
    &&& forall|i: int|
        #![trigger t.buckets[i]]
        0 <= i < KEY_SIZE ==> bucket_wf(t.buckets[i]) && placed(t.buckets[i].active, t.this_node.id, i as nat)
            && placed(t.buckets[i].waiting, t.this_node.id, i as nat)
}

/// A table after a message came from `node`: the local node is left out,
/// any other goes to the bucket of its distance.
pub open spec fn table_insert(t: TableView, node: Node) -> (TableView, KBucketInsert) {
    if node.id == t.this_node.id {
        (t, KBucketInsert::Inserted)
    } else {
        let i = bucket_index(t.this_node.id, node.id) as int;
        let (b, r) = bucket_insert(t.buckets[i], node);
        (TableView { buckets: t.buckets.update(i, b), ..t }, r)
    }
}

/// A table after the node with the id is found dead.
pub open spec fn table_remove(t: TableView, id: BitKey) -> TableView {
    if id == t.this_node.id {
        t
    } else {
        let i = bucket_index(t.this_node.id, id) as int;
        TableView { buckets: t.buckets.update(i, bucket_remove(t.buckets[i], id)), ..t }
    }
}

/// The active nodes of the first `n` buckets, bucket by bucket.
pub open spec fn peers_upto(bs: Seq<BucketView>, n: nat) -> Seq<Node>
    decreases n,
{
    if n == 0 {
        Seq::empty()
    } else {
        peers_upto(bs, (n - 1) as nat) + bs[n - 1].active
    }
}

/// Every node that the table knows of, the local one first.
pub open spec fn known(t: TableView) -> Seq<Node> {
    seq![t.this_node] + peers_upto(t.buckets, KEY_SIZE as nat)
}

proof fn lemma_peers_upto(t: TableView, m: nat)
    requires
        table_wf(t),
        m <= KEY_SIZE,
    ensures
        forall|k: int|
            #![trigger peers_upto(t.buckets, m)[k]]
            0 <= k < peers_upto(t.buckets, m).len() ==> peers_upto(t.buckets, m)[k].id != t.this_node.id
                && bucket_index(t.this_node.id, peers_upto(t.buckets, m)[k].id) < m,
    decreases m,
{
    if m > 0 {
        lemma_peers_upto(t, (m - 1) as nat);
        let p = peers_upto(t.buckets, (m - 1) as nat);
        let a = t.buckets[m - 1].active;
        assert forall|k: int| 0 <= k < peers_upto(t.buckets, m).len() implies #[trigger] peers_upto(
            t.buckets,
            m,
        )[k].id != t.this_node.id && bucket_index(t.this_node.id, peers_upto(t.buckets, m)[k].id) < m by {
            if k < p.len() {
                assert(peers_upto(t.buckets, m)[k] == p[k]);
            } else {
                assert(peers_upto(t.buckets, m)[k] == a[k - p.len()]);
            }
        }
    }
}

/// No two nodes that a well-formed table knows of share an id.
pub proof fn lemma_known_distinct(t: TableView)
    requires
        table_wf(t),
    ensures
        ids_distinct(known(t)),
{
    lemma_peers_distinct(t, KEY_SIZE as nat);
    lemma_peers_upto(t, KEY_SIZE as nat);
    let p = peers_upto(t.buckets, KEY_SIZE as nat);
    let s = known(t);
    assert forall|i: int, j: int| 0 <= i < s.len() && 0 <= j < s.len() && i != j implies #[trigger] s[i].id
        != #[trigger] s[j].id by {
        if i > 0 && j > 0 {
            assert(s[i] == p[i - 1] && s[j] == p[j - 1]);
        } else if i > 0 {
            assert(s[i] == p[i - 1]);
        } else {
            assert(s[j] == p[j - 1]);
        }
    }
}

proof fn lemma_peers_distinct(t: TableView, m: nat)
    requires
        table_wf(t),
        m <= KEY_SIZE,
    ensures
        ids_distinct(peers_upto(t.buckets, m)),
    decreases m,
{
    if m > 0 {
        lemma_peers_distinct(t, (m - 1) as nat);
        lemma_peers_upto(t, (m - 1) as nat);
        let p = peers_upto(t.buckets, (m - 1) as nat);
        let a = t.buckets[m - 1].active;
        let s = peers_upto(t.buckets, m);
        assert(bucket_wf(t.buckets[m - 1]));
        assert forall|i: int, j: int| 0 <= i < s.len() && 0 <= j < s.len() && i != j implies #[trigger] s[i].id
            != #[trigger] s[j].id by {
            if i < p.len() && j < p.len() {
                assert(s[i] == p[i] && s[j] == p[j]);
            } else if i < p.len() {
                assert(s[i] == p[i] && s[j] == a[j - p.len()]);
                assert(bucket_index(t.this_node.id, a[j - p.len()].id) == m - 1);
            } else if j < p.len() {
                assert(s[j] == p[j] && s[i] == a[i - p.len()]);
                assert(bucket_index(t.this_node.id, a[i - p.len()].id) == m - 1);
            } else {
                assert(s[i] == a[i - p.len()] && s[j] == a[j - p.len()]);
            }
        }
    }
}

/// The local node, and 128 buckets of nodes at growing distances from it.
///
/// Bucket `i` holds the nodes whose distance to the local node has exactly
/// `i` leading zero bits.
#[derive(Debug)]
pub struct RoutingTable {
    this_node: Node,
    buckets: Vec<KBucket>,
}

impl View for RoutingTable {
    type V = TableView;

    closed spec fn view(&self) -> TableView {
        TableView { this_node: self.this_node, buckets: self.buckets@.map_values(|b: KBucket| b@) }
    }
}

impl RoutingTable {
    /// An empty table for the local node, with buckets of `bucket_size` nodes.
    pub fn new(this_node: Node, bucket_size: usize) -> (r: Self)
        requires
            bucket_size >= 1,
        ensures
            r@.this_node == this_node,
            table_wf(r@),
            forall|i: int|
                0 <= i < KEY_SIZE ==> #[trigger] r@.buckets[i] == (BucketView {
                    active: Seq::empty(),
                    waiting: Seq::empty(),
                    capacity: bucket_size as nat,
                }),
    {
        let mut buckets: Vec<KBucket> = Vec::new();
        let mut i: usize = 0;
        while i < KEY_SIZE
            invariant
                i <= KEY_SIZE,
                buckets@.len() == i,
                bucket_size >= 1,
                forall|j: int|
                    0 <= j < i ==> (#[trigger] buckets@[j])@ == (BucketView {
                        active: Seq::empty(),
                        waiting: Seq::empty(),
                        capacity: bucket_size as nat,
                    }),
            decreases KEY_SIZE - i,
        {
            buckets.push(KBucket::new(bucket_size));
            i = i + 1;
        }
        let r = RoutingTable { this_node, buckets };
        assert forall|j: int| 0 <= j < KEY_SIZE implies bucket_wf(#[trigger] r@.buckets[j]) && placed(
            r@.buckets[j].active,
            this_node.id,
            j as nat,
        ) && placed(r@.buckets[j].waiting, this_node.id, j as nat) by {
            assert(r@.buckets[j] == buckets@[j]@);
        }
        r
    }

    /// The id of the local node.
    pub fn this_node_id(&self) -> (r: BitKey)
        ensures
            r == self@.this_node.id,
    {
        self.this_node.id
    }

    /// Records that a message came from `node`; see [`KBucket::insert`].
    ///
    /// The local node is never stored: inserting it reports `Inserted`.
    pub fn insert(&mut self, node: Node) -> (r: KBucketInsert)
        requires
            table_wf(old(self)@),
        ensures
            (final(self)@, r) == table_insert(old(self)@, node),
            table_wf(final(self)@),
    {
        if self.this_node == node {
            return KBucketInsert::Inserted;
        }
        let distance = self.this_node.distance(&node);
        let i = count_leading_zeros(distance) as usize;
        proof {
            lemma_bucket_index_bound(self.this_node.id, node.id);
            assert(self@.buckets[i as int] == self.buckets@[i as int]@);
            lemma_bucket_insert_wf(self@.buckets[i as int], node);
            lemma_without(self@.buckets[i as int].active, node.id);
            lemma_without(self@.buckets[i as int].waiting, node.id);
        }
        let ghost old_view = self@;
        let r = self.buckets[i].insert(node);
        proof {
            assert(self@.buckets =~= old_view.buckets.update(i as int, self.buckets@[i as int]@));
            let nb = self@.buckets[i as int];
            let ob = old_view.buckets[i as int];
            assert(placed(nb.active, self.this_node.id, i as nat)) by {
                assert forall|j: int| 0 <= j < nb.active.len() implies (#[trigger] nb.active[j]).id
                    != self.this_node.id && bucket_index(self.this_node.id, nb.active[j].id) == i by {
                    let w = without(ob.active, node.id);
                    if j < w.len() {
                        assert(nb.active[j] == w[j]);
                        let k = choose|k: int| 0 <= k < ob.active.len() && ob.active[k] == w[j];
                    }
                }
            }
            assert(placed(nb.waiting, self.this_node.id, i as nat)) by {
                assert forall|j: int| 0 <= j < nb.waiting.len() implies (#[trigger] nb.waiting[j]).id
                    != self.this_node.id && bucket_index(self.this_node.id, nb.waiting[j].id) == i by {
                    let w = without(ob.waiting, node.id);
                    if nb.waiting != ob.waiting && j < w.len() {
                        assert(nb.waiting[j] == w[j]);
                        let k = choose|k: int| 0 <= k < ob.waiting.len() && ob.waiting[k] == w[j];
                    }
                }
            }
        }
        r
    }

    /// Removes a dead node; see [`KBucket::remove`]. The local node is never removed.
    pub fn remove(&mut self, id: BitKey)
        requires
            table_wf(old(self)@),
        ensures
            final(self)@ == table_remove(old(self)@, id),
            table_wf(final(self)@),
    {
        if self.this_node.id == id {
            return;
        }
        let distance = self.this_node.id.distance(id);
        let i = count_leading_zeros(distance) as usize;
        proof {
            lemma_bucket_index_bound(self.this_node.id, id);
            assert(self@.buckets[i as int] == self.buckets@[i as int]@);
            lemma_bucket_remove_wf(self@.buckets[i as int], id);
            lemma_without(self@.buckets[i as int].active, id);
        }
        let ghost old_view = self@;
        self.buckets[i].remove(id);
        proof {
            assert(self@.buckets =~= old_view.buckets.update(i as int, self.buckets@[i as int]@));
            let nb = self@.buckets[i as int];
            let ob = old_view.buckets[i as int];
            assert(placed(nb.active, self.this_node.id, i as nat)) by {
                assert forall|j: int| 0 <= j < nb.active.len() implies (#[trigger] nb.active[j]).id
                    != self.this_node.id && bucket_index(self.this_node.id, nb.active[j].id) == i by {
                    let w = without(ob.active, id);
                    if nb != ob {
                        if j < w.len() {
                            assert(nb.active[j] == w[j]);
                            let k = choose|k: int| 0 <= k < ob.active.len() && ob.active[k] == w[j];
                        } else {
                            assert(nb.active[j] == ob.waiting[ob.waiting.len() - 1]);
                        }
                    }
                }
            }
            assert(placed(nb.waiting, self.this_node.id, i as nat)) by {
                assert forall|j: int| 0 <= j < nb.waiting.len() implies (#[trigger] nb.waiting[j]).id
                    != self.this_node.id && bucket_index(self.this_node.id, nb.waiting[j].id) == i by {
                    assert(nb.waiting[j] == ob.waiting[j]);
                }
            }
        }
    }

    /// The `k` nodes of the table closest to `target`, the local node
    /// included, nearest first; all of them when the table knows fewer.
    pub fn k_closest(&self, target: BitKey, k: usize) -> (r: Vec<Node>)
        requires
            table_wf(self@),
        ensures
            is_closest(r@, known(self@), target, k as nat),
            r@.len() == min_nat(k as nat, known(self@).len()),
    {
        let ghost t = self@;
        let mut buf: Vec<Node> = Vec::new();
        insert_bounded(&mut buf, self.this_node, target, k, Ghost(Seq::empty()));
        assert(Seq::<Node>::empty().push(self.this_node) =~= seq![self.this_node] + peers_upto(t.buckets, 0));
        let mut b: usize = 0;
        while b < KEY_SIZE
            invariant
                b <= KEY_SIZE,
                t == self@,
                table_wf(t),
                is_closest(buf@, seq![t.this_node] + peers_upto(t.buckets, b as nat), target, k as nat),
            decreases KEY_SIZE - b,
        {
            let bucket = &self.buckets[b];
            assert(t.buckets[b as int] == bucket@);
            proof {
                lemma_peers_upto(t, b as nat);
            }
            let ghost prior = seq![t.this_node] + peers_upto(t.buckets, b as nat);
            let ghost act = bucket@.active;
            let mut j: usize = 0;
            assert(prior + act.take(0) =~= prior);
            while j < bucket.data.len()
                invariant
                    j <= act.len(),
                    act == bucket.data@,
                    act == t.buckets[b as int].active,
                    b < KEY_SIZE,
                    table_wf(t),
                    prior == seq![t.this_node] + peers_upto(t.buckets, b as nat),
                    forall|q: int|
                        #![trigger peers_upto(t.buckets, b as nat)[q]]
                        0 <= q < peers_upto(t.buckets, b as nat).len() ==> peers_upto(t.buckets, b as nat)[q].id
                            != t.this_node.id && bucket_index(t.this_node.id, peers_upto(t.buckets, b as nat)[q].id)
                            < b,
                    is_closest(buf@, prior + act.take(j as int), target, k as nat),
                decreases act.len() - j,
            {
                let node = bucket.data[j];
                let ghost pool = prior + act.take(j as int);
                assert(bucket_wf(t.buckets[b as int]) && placed(act, t.this_node.id, b as nat));
                assert(act[j as int] == node);
                assert(!has_id(pool, node.id)) by {
                    if has_id(pool, node.id) {
                        let q = choose|q: int| 0 <= q < pool.len() && #[trigger] pool[q].id == node.id;
                        if q == 0 {
                        } else if q < prior.len() {
                            assert(pool[q] == peers_upto(t.buckets, b as nat)[q - 1]);
                        } else {
                            assert(pool[q] == act[q - prior.len()]);
                        }
                    }
                }
                insert_bounded(&mut buf, node, target, k, Ghost(pool));
                assert(pool.push(node) =~= prior + act.take(j + 1));
                j = j + 1;
            }
            assert(act.take(j as int) =~= act);
            assert(prior + act =~= seq![t.this_node] + peers_upto(t.buckets, (b + 1) as nat));
            b = b + 1;
        }
        buf
    }
}

/// With fewer nodes known than asked for, the closest nodes are exactly the
/// known ones, the local node included, in ascending order of distance.
pub proof fn lemma_k_closest_small(t: TableView, target: BitKey, k: nat, c: Seq<Node>)
    requires
        table_wf(t),
        known(t).len() <= k,
        is_closest(c, known(t), target, k),
    ensures
        c.len() == known(t).len(),
        c.to_set() == known(t).to_set(),
        sorted_by_distance(c, target),
{
    let p = known(t);
    lemma_known_distinct(t);
    if c.len() < k {
        assert(c.to_set() =~= p.to_set());
    } else {
        assert(p.no_duplicates()) by {
            assert forall|i: int, j: int| 0 <= i < p.len() && 0 <= j < p.len() && i != j implies p[i] != p[j] by {
                assert(p[i].id != p[j].id);
            }
        }
        assert(c.no_duplicates()) by {
            assert forall|i: int, j: int| 0 <= i < c.len() && 0 <= j < c.len() && i != j implies c[i] != c[j] by {
                if i < j {
                    assert(dist(c[i].id, target) < dist(c[j].id, target));
                } else {
                    assert(dist(c[j].id, target) < dist(c[i].id, target));
                }
            }
        }
        c.unique_seq_to_set();
        p.unique_seq_to_set();
        assert(c.to_set().subset_of(p.to_set())) by {
            assert forall|n: Node| c.to_set().contains(n) implies p.to_set().contains(n) by {
                let i = choose|i: int| 0 <= i < c.len() && c[i] == n;
                assert(p.contains(c[i]));
            }
        }
        vstd::set_lib::lemma_subset_equality(c.to_set(), p.to_set());
    }
}


/// A bucket after inserting the nodes in order.
pub open spec fn insert_all(b: BucketView, ps: Seq<Node>) -> BucketView
    decreases ps.len(),
{
    if ps.len() == 0 {
        b
    } else {
        bucket_insert(insert_all(b, ps.drop_last()), ps.last()).0
    }
}

/// An empty bucket of the capacity.
pub open spec fn empty_bucket(cap: nat) -> BucketView {
    BucketView { active: Seq::empty(), waiting: Seq::empty(), capacity: cap }
}

proof fn lemma_without_first(s: Seq<Node>)
    requires
        s.len() > 0,
        ids_distinct(s),
    ensures
        without(s, s[0].id) == s.skip(1),
    decreases s.len(),
{
    if s.len() == 1 {
        assert(s.drop_last() =~= Seq::<Node>::empty());
        assert(s.skip(1) =~= Seq::<Node>::empty());
        assert(s.last() == s[0]);
        assert(without(s.drop_last(), s[0].id) =~= Seq::<Node>::empty());
    } else {
        let p = s.drop_last();
        assert(ids_distinct(p));
        lemma_without_first(p);
        assert(p[0] == s[0]);
        assert(s.last().id != s[0].id);
        assert(p.skip(1).push(s.last()) =~= s.skip(1));
    }
}

proof fn lemma_fill(cap: nat, ps: Seq<Node>, i: nat)
    requires
        cap >= 1,
        ps.len() == cap,
        ids_distinct(ps),
        i <= cap,
    ensures
        insert_all(empty_bucket(cap), ps.take(i as int)) == (BucketView {
            active: ps.take(i as int),
            waiting: Seq::empty(),
            capacity: cap,
        }),
    decreases i,
{
    if i == 0 {
        assert(ps.take(0) =~= Seq::<Node>::empty());
    } else {
        let j = (i - 1) as nat;
        lemma_fill(cap, ps, j);
        assert(ps.take(i as int).drop_last() =~= ps.take(j as int));
        let n = ps[j as int];
        assert(!has_id(ps.take(j as int), n.id)) by {
            if has_id(ps.take(j as int), n.id) {
                let k = choose|k: int| 0 <= k < j && #[trigger] ps.take(j as int)[k].id == n.id;
                assert(ps[k].id == ps[j as int].id);
            }
        }
        lemma_without(ps.take(j as int), n.id);
        assert(ps.take(j as int).push(n) =~= ps.take(i as int));
    }
}

/// Filling an empty bucket: each of `capacity` inserts of distinct nodes is
/// `Inserted`, and the bucket then holds them in order; the next distinct node
/// waits, and the first node inserted is the one to probe.
pub proof fn lemma_bucket_capacity(cap: nat, ps: Seq<Node>, extra: Node)
    requires
        cap >= 1,
        ps.len() == cap,
        ids_distinct(ps),
        !has_id(ps, extra.id),
    ensures
        forall|i: int|
            0 <= i < cap ==> #[trigger] bucket_insert(insert_all(empty_bucket(cap), ps.take(i)), ps[i]).1
                == KBucketInsert::Inserted,
        insert_all(empty_bucket(cap), ps).active == ps,
        bucket_insert(insert_all(empty_bucket(cap), ps), extra).1 == KBucketInsert::Ping(ps[0]),
{
    assert forall|i: int| 0 <= i < cap implies #[trigger] bucket_insert(
        insert_all(empty_bucket(cap), ps.take(i)),
        ps[i],
    ).1 == KBucketInsert::Inserted by {
        lemma_fill(cap, ps, i as nat);
        assert(!has_id(ps.take(i), ps[i].id)) by {
            if has_id(ps.take(i), ps[i].id) {
                let k = choose|k: int| 0 <= k < i && #[trigger] ps.take(i)[k].id == ps[i].id;
                assert(ps[k].id == ps[i].id);
            }
        }
        lemma_without(ps.take(i), ps[i].id);
    }
    lemma_fill(cap, ps, cap);
    assert(ps.take(cap as int) =~= ps);
    lemma_without(ps, extra.id);
}

/// After a full bucket made a node wait, removing the oldest node moves the
/// waiting node to the back, and nothing else waits.
pub proof fn lemma_bucket_replacement(cap: nat, ps: Seq<Node>, extra: Node)
    requires
        cap >= 1,
        ps.len() == cap,
        ids_distinct(ps),
        !has_id(ps, extra.id),
    ensures
        bucket_remove(bucket_insert(insert_all(empty_bucket(cap), ps), extra).0, ps[0].id) == (BucketView {
            active: ps.skip(1).push(extra),
            waiting: Seq::empty(),
            capacity: cap,
        }),
{
    lemma_bucket_capacity(cap, ps, extra);
    lemma_fill(cap, ps, cap);
    assert(ps.take(cap as int) =~= ps);
    lemma_without(ps, extra.id);
    assert(without(Seq::<Node>::empty(), extra.id) =~= Seq::<Node>::empty());
    let full = bucket_insert(insert_all(empty_bucket(cap), ps), extra).0;
    assert(full.waiting =~= seq![extra]);
    assert(has_id(ps, ps[0].id));
    lemma_without_first(ps);
    assert(full.waiting.drop_last() =~= Seq::<Node>::empty());
}

/// A node other than the local one goes to the bucket named by the leading
/// zeros of its distance to the local node, and no other bucket changes; when
/// it is `Inserted` it is the newest node of that bucket.
pub proof fn lemma_insert_placement(t: TableView, p: Node)
    requires
        table_wf(t),
        p.id != t.this_node.id,
    ensures
        ({
            let i = bucket_index(t.this_node.id, p.id) as int;
            let (t2, r) = table_insert(t, p);
            &&& i < KEY_SIZE
            &&& t2.buckets.len() == t.buckets.len()
            &&& forall|j: int| 0 <= j < KEY_SIZE && j != i ==> #[trigger] t2.buckets[j] == t.buckets[j]
            &&& r == KBucketInsert::Inserted ==> t2.buckets[i].active.last() == p
        }),
{
    lemma_bucket_index_bound(t.this_node.id, p.id);
}

} // verus!
