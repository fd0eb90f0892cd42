//! Identifiers, the XOR metric, and the record kept for each peer.
use crate::bytes::{be_value, read_be};
use vstd::prelude::*;
use vstd::string::StringSliceAdditionalSpecFns;

verus! {

/// How many bits are in a key identifying a node.
pub const KEY_SIZE: usize = 128;

/// An identifier of Kademlia: either the hash of a key or the id of a node.
///
/// Both share the XOR distance metric, which tells how far apart two keys are.
#[derive(Clone, Copy, Debug, PartialEq, Eq, Structural)]
pub struct BitKey(pub u128);

/// The 20-byte SHA-1 digest of a byte sequence.
pub uninterp spec fn sha1_digest(data: Seq<u8>) -> Seq<u8>;

/// Relies on `sha1::Sha1::from`, `Sha1::digest` and `Digest::bytes`: the
/// 20-byte SHA-1 digest of the data, which depends on the data alone.
#[verifier::external_body]
fn sha1_bytes(data: &[u8]) -> (r: [u8; 20])
    ensures
        r@ == sha1_digest(data@),
{
    sha1::Sha1::from(data).digest().bytes()
}

/// Relies on `rand::random`: a value drawn from the thread-local generator.
/// Nothing is promised of the value.
pub assume_specification<T>[ rand::random::<T> ]() -> (r: T)
    where
        rand::distributions::Standard: rand::distributions::Distribution<T>,
;

/// The identifier that a 20-byte digest stands for: its low 16 bytes, big-endian.
pub open spec fn key_of_digest(digest: Seq<u8>) -> u128 {
    be_value(digest.subrange(4, 20)) as u128
}

impl BitKey {
    /// The XOR distance between two keys.
    ///
    /// It is a metric: non-negative, zero exactly on equal keys, symmetric,
    /// and `d(x, z) == d(x, y) ^ d(y, z)`.
    pub fn distance(self, other: BitKey) -> (r: u128)
        ensures
            r == self.0 ^ other.0,
    {
        self.0 ^ other.0
    }

    /// The key for a 20-byte digest: its least significant 128 bits, read big-endian.
    pub fn from_digest(digest: &[u8; 20]) -> (r: BitKey)
        ensures
            r.0 == key_of_digest(digest@),
    {
        let v = read_be(digest.as_slice(), 4, 16);
        BitKey(v)
    }

    /// The key of a string: the least significant 128 bits of its SHA-1 hash.
    pub fn from_hash(string: &str) -> (r: BitKey)
        ensures
            r.0 == key_of_digest(sha1_digest(string.spec_bytes())),
    {
        let digest = sha1_bytes(string.as_bytes());
        BitKey::from_digest(&digest)
    }
}

/// The XOR distance between two identifiers.
pub open spec fn dist(a: BitKey, b: BitKey) -> u128 {
    a.0 ^ b.0
}

/// The XOR distance is a metric: non-negative, zero exactly between equal
/// keys, symmetric, and it obeys the triangle inequality; moreover the
/// distance across a middle key is the XOR of the two legs.
pub proof fn lemma_xor_metric(a: BitKey, b: BitKey, c: BitKey)
    ensures
        dist(a, b) >= 0,
        dist(a, b) == 0 <==> a == b,
        dist(a, b) == dist(b, a),
        dist(a, c) == dist(a, b) ^ dist(b, c),
        dist(a, c) <= dist(a, b) + dist(b, c),
{
    let (x, y, z) = (a.0, b.0, c.0);
    assert((x ^ y) == 0u128 <==> x == y) by (bit_vector);
    assert((x ^ y) == (y ^ x)) by (bit_vector);
    assert((x ^ z) == ((x ^ y) ^ (y ^ z))) by (bit_vector);
    let (p, q) = (x ^ y, y ^ z);
    assert((p ^ q) <= p + q) by (bit_vector);
}

/// For a fixed target, distinct keys lie at distinct distances.
pub proof fn lemma_dist_injective(a: BitKey, b: BitKey, t: BitKey)
    ensures
        dist(a, t) == dist(b, t) <==> a == b,
{
    let (x, y, z) = (a.0, b.0, t.0);
    assert((x ^ z) == (y ^ z) <==> x == y) by (bit_vector);
}

/// An IP address: IPv4 as its 32-bit number, IPv6 as its 128-bit number.
#[derive(Clone, Copy, Debug, PartialEq, Eq, Structural)]
pub enum IpAddress {
    V4(u32),
    V6(u128),
}

/// A UDP endpoint: an IP address and a port.
#[derive(Clone, Copy, Debug, PartialEq, Eq, Structural)]
pub struct NodeAddr {
    pub ip: IpAddress,
    pub port: u16,
}

/// The information kept for every peer: its id and where to reach it.
///
/// Two peers are equal when their ids are; the address is informational.
#[derive(Clone, Copy, Debug)]
pub struct Node {
    pub id: BitKey,
    pub udp_addr: NodeAddr,
}

impl Node {
    /// A node with a freshly drawn random id, reachable at `udp_addr`.
    pub fn create(udp_addr: NodeAddr) -> (r: Node)
        ensures
            r.udp_addr == udp_addr,
    {
        let id: u128 = rand::random();
        Node { id: BitKey(id), udp_addr }
    }

    /// The distance between the ids of two nodes.
    pub fn distance(&self, other: &Node) -> (r: u128)
        ensures
            r == dist(self.id, other.id),
    {
        self.id.distance(other.id)
    }
}

impl PartialEq for Node {
    fn eq(&self, other: &Node) -> (r: bool)
        ensures
            r == (self.id == other.id),
    {
        self.id == other.id
    }
}

impl vstd::std_specs::cmp::PartialEqSpecImpl for Node {
    open spec fn obeys_eq_spec() -> bool {
        true
    }

    open spec fn eq_spec(&self, other: &Node) -> bool {
        self.id == other.id
    }
}

} // verus!
