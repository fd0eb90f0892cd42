//! The wire format: a 24-byte header followed by a tagged payload.
use crate::base::{BitKey, IpAddress, Node, NodeAddr};
use crate::bytes::{
    be_bytes, be_value, lemma_be_bytes_len, lemma_be_round_trip, lemma_be_value_bound,
    lemma_pow256_16, pow256, push_be, read_be,
};
use vstd::prelude::*;
use vstd::slice::{slice_subrange, slice_to_vec};
use vstd::string::StringSliceAdditionalSpecFns;
use vstd::utf8::{decode_utf8, encode_utf8, encode_utf8_decode_utf8, encode_utf8_valid_utf8, valid_utf8};

verus! {

/// How many bytes a header takes on the wire.
pub const HEADER_BYTES: usize = 24;

/// Why a frame could not be parsed.
#[derive(Clone, Copy, Debug, PartialEq, Eq, Structural)]
pub enum ParseError {
    /// There were not enough bytes to parse the message
    InsufficientLength,
    /// The string had an invalid UTF8 format
    InvalidString,
    /// The type of message was unrecognized
    UnknownMessageType,
}

/// Identifies one RPC call, so that a response can be matched with its request.
#[derive(Clone, Copy, Debug, PartialEq, Eq, Structural)]
pub struct TransactionID(pub u64);

/// The header that comes with every RPC message: who sends it, and which call it belongs to.
#[derive(Clone, Copy, Debug, PartialEq, Eq, Structural)]
pub struct Header {
    /// The ID for the node that is sending this message
    pub node_id: BitKey,
    /// A transaction ID identifying this RPC call
    pub transaction_id: TransactionID,
}

/// The part of an RPC message that differs between requests and responses.
#[derive(Debug)]
pub enum RPCPayload {
    /// Request a Ping response from a node.
    Ping,
    /// Respond to a ping request from a node.
    PingResp,
    /// Ask for the value bound to a given key
    FindValue(String),
    /// Respond with the value for the key requested
    FindValueResp(String),
    /// Respond with up to K of the closest nodes we know of to the requested key
    FindValueNodes(Vec<Node>),
    /// Try and find the K closest nodes to a given key
    FindNode(BitKey),
    /// Respond with up to K of the closest nodes to the requested key
    FindNodeResp(Vec<Node>),
    /// Store a `(key, value)` pair in a given node
    Store(String, String),
    /// Respond to a `Store` request, confirming that it happened
    StoreResp,
}

/// An RPC message sent between two nodes.
#[derive(Debug)]
pub struct Message {
    /// This contains general metadata about this message
    pub header: Header,
    /// This contains specific data depending on the message we're sending
    pub payload: RPCPayload,
}

/// What a payload holds, with strings as characters and node lists as sequences.
pub enum PayloadView {
    Ping,
    PingResp,
    FindValue(Seq<char>),
    FindValueResp(Seq<char>),
    FindValueNodes(Seq<Node>),
    FindNode(BitKey),
    FindNodeResp(Seq<Node>),
    Store(Seq<char>, Seq<char>),
    StoreResp,
}

/// What a message holds.
pub struct MessageView {
    pub header: Header,
    pub payload: PayloadView,
}

impl View for RPCPayload {
    type V = PayloadView;

    open spec fn view(&self) -> PayloadView {
        match self {
            RPCPayload::Ping => PayloadView::Ping,
            RPCPayload::PingResp => PayloadView::PingResp,
            RPCPayload::FindValue(s) => PayloadView::FindValue(s@),
            RPCPayload::FindValueResp(s) => PayloadView::FindValueResp(s@),
            RPCPayload::FindValueNodes(v) => PayloadView::FindValueNodes(v@),
            RPCPayload::FindNode(id) => PayloadView::FindNode(*id),
            RPCPayload::FindNodeResp(v) => PayloadView::FindNodeResp(v@),
            RPCPayload::Store(k, v) => PayloadView::Store(k@, v@),
            RPCPayload::StoreResp => PayloadView::StoreResp,
        }
    }
}

impl View for Message {
    type V = MessageView;

    open spec fn view(&self) -> MessageView {
        MessageView { header: self.header, payload: self.payload@ }
    }
}

// ----- the encoding -----

/// A string on the wire: one length byte, then its UTF-8 bytes.
pub open spec fn encode_string(s: Seq<char>) -> Seq<u8> {
    seq![encode_utf8(s).len() as u8] + encode_utf8(s)
}

/// An address on the wire: the kind (4 or 6), the address bytes, the port.
pub open spec fn encode_addr(a: NodeAddr) -> Seq<u8> {
    match a.ip {
        IpAddress::V4(v) => seq![4u8] + be_bytes(v as nat, 4) + be_bytes(a.port as nat, 2),
        IpAddress::V6(v) => seq![6u8] + be_bytes(v as nat, 16) + be_bytes(a.port as nat, 2),
    }
}

/// A node on the wire: its 16-byte id, then its address.
pub open spec fn encode_node(n: Node) -> Seq<u8> {
    be_bytes(n.id.0 as nat, 16) + encode_addr(n.udp_addr)
}

/// The nodes of a list, one after the other.
pub open spec fn encode_nodes(ns: Seq<Node>) -> Seq<u8>
    decreases ns.len(),
{
    if ns.len() == 0 {
        Seq::empty()
    } else {
        encode_nodes(ns.drop_last()) + encode_node(ns.last())
    }
}

/// A node list on the wire: one count byte, then the nodes.
pub open spec fn encode_node_list(ns: Seq<Node>) -> Seq<u8> {
    seq![ns.len() as u8] + encode_nodes(ns)
}

/// A header on the wire: the 16-byte node id and the 8-byte transaction id, big-endian.
pub open spec fn encode_header(h: Header) -> Seq<u8> {
    be_bytes(h.node_id.0 as nat, 16) + be_bytes(h.transaction_id.0 as nat, 8)
}

/// A payload on the wire: its tag byte and its body.
pub open spec fn encode_payload(p: PayloadView) -> Seq<u8> {
    match p {
        PayloadView::Ping => seq![1u8],
        PayloadView::PingResp => seq![2u8],
        PayloadView::FindNode(id) => seq![3u8] + be_bytes(id.0 as nat, 16),
        PayloadView::FindNodeResp(ns) => seq![4u8] + encode_node_list(ns),
        PayloadView::Store(k, v) => seq![5u8] + encode_string(k) + encode_string(v),
        PayloadView::StoreResp => seq![6u8],
        PayloadView::FindValue(k) => seq![7u8] + encode_string(k),
        PayloadView::FindValueNodes(ns) => seq![8u8] + encode_node_list(ns),
        PayloadView::FindValueResp(v) => seq![9u8] + encode_string(v),
    }
}

/// A whole frame.
pub open spec fn encode_message(m: MessageView) -> Seq<u8> {
    encode_header(m.header) + encode_payload(m.payload)
}

/// The UTF-8 bytes of a character sequence.
pub open spec fn encode_utf8_of(s: Seq<char>) -> Seq<u8> {
    encode_utf8(s)
}

/// A string fits the wire format when its UTF-8 encoding has at most 255 bytes.
pub open spec fn string_fits(s: Seq<char>) -> bool {
    encode_utf8(s).len() <= 255
}

/// A payload that the wire format can represent: strings of at most 255
/// bytes and node lists of at most 255 nodes.
pub open spec fn payload_fits(p: PayloadView) -> bool {
    match p {
        PayloadView::FindValue(s) => string_fits(s),
        PayloadView::FindValueResp(s) => string_fits(s),
        PayloadView::Store(k, v) => string_fits(k) && string_fits(v),
        PayloadView::FindValueNodes(ns) => ns.len() <= 255,
        PayloadView::FindNodeResp(ns) => ns.len() <= 255,
        _ => true,
    }
}

// ----- the parser -----

/// A length-prefixed string at the front of `d`, with the number of bytes it takes.
pub open spec fn parse_string(d: Seq<u8>) -> Result<(Seq<char>, int), ParseError> {
    if d.len() == 0 {
        Err(ParseError::InsufficientLength)
    } else if d.len() - 1 < d[0] {
        Err(ParseError::InsufficientLength)
    } else {
        let b = d.subrange(1, 1 + d[0]);
        if valid_utf8(b) {
            Ok((decode_utf8(b), 1 + d[0]))
        } else {
            Err(ParseError::InvalidString)
        }
    }
}

/// How many address bytes follow an address kind byte: 4 for kind 4, else 16.
pub open spec fn ip_len(kind: u8) -> int {
    if kind == 4 {
        4
    } else {
        16
    }
}

/// A node at the front of `d`, with the number of bytes it takes.
pub open spec fn parse_node(d: Seq<u8>) -> Option<(Node, int)> {
    if d.len() < 17 {
        None
    } else {
        let n = ip_len(d[16]);
        if d.len() < 19 + n {
            None
        } else {
            let v = be_value(d.subrange(17, 17 + n));
            let ip = if d[16] == 4 {
                IpAddress::V4(v as u32)
            } else {
                IpAddress::V6(v as u128)
            };
            let port = be_value(d.subrange(17 + n, 19 + n)) as u16;
            let id = BitKey(be_value(d.subrange(0, 16)) as u128);
            Some((Node { id, udp_addr: NodeAddr { ip, port } }, 19 + n))
        }
    }
}

/// `count` nodes at the front of `d`.
pub open spec fn parse_nodes(d: Seq<u8>, count: nat) -> Result<Seq<Node>, ParseError>
    decreases count,
{
    if count == 0 {
        Ok(Seq::empty())
    } else {
        match parse_node(d) {
            None => Err(ParseError::InsufficientLength),
            Some((n, used)) => prepend(seq![n], parse_nodes(d.skip(used), (count - 1) as nat)),
        }
    }
}

/// `s` put in front of the nodes of a successful parse.
pub open spec fn prepend(s: Seq<Node>, r: Result<Seq<Node>, ParseError>) -> Result<Seq<Node>, ParseError> {
    match r {
        Ok(rest) => Ok(s + rest),
        Err(e) => Err(e),
    }
}

/// A count-prefixed node list at the front of `d`.
pub open spec fn parse_node_list(d: Seq<u8>) -> Result<Seq<Node>, ParseError> {
    if d.len() == 0 {
        Err(ParseError::InsufficientLength)
    } else {
        parse_nodes(d.skip(1), d[0] as nat)
    }
}

/// The payload at the front of `d`.
pub open spec fn parse_payload(d: Seq<u8>) -> Result<PayloadView, ParseError> {
    if d.len() == 0 {
        Err(ParseError::InsufficientLength)
    } else {
        let rest = d.skip(1);
        if d[0] == 1 {
            Ok(PayloadView::Ping)
        } else if d[0] == 2 {
            Ok(PayloadView::PingResp)
        } else if d[0] == 3 {
            if rest.len() < 16 {
                Err(ParseError::InsufficientLength)
            } else {
                Ok(PayloadView::FindNode(BitKey(be_value(rest.subrange(0, 16)) as u128)))
            }
        } else if d[0] == 4 {
            match parse_node_list(rest) {
                Ok(ns) => Ok(PayloadView::FindNodeResp(ns)),
                Err(e) => Err(e),
            }
        } else if d[0] == 5 {
            match parse_string(rest) {
                Err(e) => Err(e),
                Ok((k, used)) => match parse_string(rest.skip(used)) {
                    Err(e) => Err(e),
                    Ok((v, _)) => Ok(PayloadView::Store(k, v)),
                },
            }
        } else if d[0] == 6 {
            Ok(PayloadView::StoreResp)
        } else if d[0] == 7 {
            match parse_string(rest) {
                Ok((k, _)) => Ok(PayloadView::FindValue(k)),
                Err(e) => Err(e),
            }
        } else if d[0] == 8 {
            match parse_node_list(rest) {
                Ok(ns) => Ok(PayloadView::FindValueNodes(ns)),
                Err(e) => Err(e),
            }
        } else if d[0] == 9 {
            match parse_string(rest) {
                Ok((v, _)) => Ok(PayloadView::FindValueResp(v)),
                Err(e) => Err(e),
            }
        } else {
            Err(ParseError::UnknownMessageType)
        }
    }
}

/// The header at the front of `d`.
pub open spec fn parse_header(d: Seq<u8>) -> Result<Header, ParseError> {
    if d.len() < 24 {
        Err(ParseError::InsufficientLength)
    } else {
        Ok(
            Header {
                node_id: BitKey(be_value(d.subrange(0, 16)) as u128),
                transaction_id: TransactionID(be_value(d.subrange(16, 24)) as u64),
            },
        )
    }
}

/// The message that a frame holds.
pub open spec fn parse_message(d: Seq<u8>) -> Result<MessageView, ParseError> {
    match parse_header(d) {
        Err(e) => Err(e),
        Ok(header) => match parse_payload(d.skip(24)) {
            Err(e) => Err(e),
            Ok(payload) => Ok(MessageView { header, payload }),
        },
    }
}

// ----- writing -----

/// Relies on `String::from_utf8`: it succeeds exactly on valid UTF-8, and the
/// string then holds the characters that the bytes encode.
#[verifier::external_body]
fn string_from_utf8(bytes: Vec<u8>) -> (r: Option<String>)
    ensures
        r is Some <==> valid_utf8(bytes@),
        r matches Some(s) ==> s@ == decode_utf8(bytes@),
{
    String::from_utf8(bytes).ok()
}

fn write_bitkey(key: BitKey, buf: &mut Vec<u8>)
    ensures
        final(buf)@ == old(buf)@ + be_bytes(key.0 as nat, 16),
{
    push_be(buf, key.0, 16);
}

fn write_transaction_id(id: TransactionID, buf: &mut Vec<u8>)
    ensures
        final(buf)@ == old(buf)@ + be_bytes(id.0 as nat, 8),
{
    push_be(buf, id.0 as u128, 8);
}

fn push_bytes(buf: &mut Vec<u8>, bytes: &[u8])
    ensures
        final(buf)@ == old(buf)@ + bytes@,
{
    let mut i: usize = 0;
    while i < bytes.len()
        invariant
            i <= bytes@.len(),
            buf@ == old(buf)@ + bytes@.subrange(0, i as int),
        decreases bytes@.len() - i,
    {
        buf.push(bytes[i]);
        i = i + 1;
        assert(bytes@.subrange(0, i as int) =~= bytes@.subrange(0, i - 1).push(bytes@[i - 1]));
    }
    assert(bytes@.subrange(0, i as int) =~= bytes@);
}

/// Writes a length-prefixed string and returns how many bytes it took.
fn write_string(string: &String, buf: &mut Vec<u8>) -> (r: usize)
    requires
        string_fits(string@),
    ensures
        final(buf)@ == old(buf)@ + encode_string(string@),
        r == encode_string(string@).len(),
{
    let bytes = string.as_str().as_bytes();
    let len = bytes.len();
    buf.push(len as u8);
    push_bytes(buf, bytes);
    assert(final(buf)@ =~= old(buf)@ + encode_string(string@));
    len + 1
}

fn write_node(node: &Node, buf: &mut Vec<u8>)
    ensures
        final(buf)@ == old(buf)@ + encode_node(*node),
{
    write_bitkey(node.id, buf);
    match node.udp_addr.ip {
        IpAddress::V4(v) => {
            buf.push(4);
            push_be(buf, v as u128, 4);
        },
        IpAddress::V6(v) => {
            buf.push(6);
            push_be(buf, v, 16);
        },
    }
    push_be(buf, node.udp_addr.port as u128, 2);
    assert(final(buf)@ =~= old(buf)@ + encode_node(*node));
}

/// Writes a count-prefixed node list and returns how many bytes it took.
fn write_nodes(nodes: &Vec<Node>, buf: &mut Vec<u8>) -> (r: usize)
    requires
        nodes@.len() <= 255,
    ensures
        final(buf)@ == old(buf)@ + encode_node_list(nodes@),
        r == encode_node_list(nodes@).len(),
{
    let start = buf.len();
    buf.push(nodes.len() as u8);
    let mut i: usize = 0;
    while i < nodes.len()
        invariant
            i <= nodes@.len(),
            nodes@.len() <= 255,
            buf@ == old(buf)@ + seq![nodes@.len() as u8] + encode_nodes(nodes@.take(i as int)),
        decreases nodes@.len() - i,
    {
        write_node(&nodes[i], buf);
        i = i + 1;
        assert(nodes@.take(i as int).drop_last() =~= nodes@.take(i - 1));
        assert(buf@ =~= old(buf)@ + seq![nodes@.len() as u8] + encode_nodes(nodes@.take(i as int)));
    }
    assert(nodes@.take(i as int) =~= nodes@);
    assert(final(buf)@ =~= old(buf)@ + encode_node_list(nodes@));
    proof {
        lemma_encode_nodes_len(nodes@);
    }
    buf.len() - start
}

proof fn lemma_encode_nodes_len(ns: Seq<Node>)
    ensures
        encode_nodes(ns).len() <= 35 * ns.len(),
    decreases ns.len(),
{
    if ns.len() > 0 {
        lemma_encode_nodes_len(ns.drop_last());
        lemma_encode_node_len(ns.last());
    }
}

proof fn lemma_encode_node_len(n: Node)
    ensures
        encode_node(n).len() <= 35,
{
    lemma_be_bytes_len(n.id.0 as nat, 16);
    lemma_be_bytes_len(n.udp_addr.port as nat, 2);
    match n.udp_addr.ip {
        IpAddress::V4(v) => lemma_be_bytes_len(v as nat, 4),
        IpAddress::V6(v) => lemma_be_bytes_len(v as nat, 16),
    }
}

impl Message {
    /// A message to send in reply to a call: it carries the call's transaction ID.
    pub fn response(transaction_id: TransactionID, node_id: BitKey, payload: RPCPayload) -> (r: Self)
        ensures
            r.header == (Header { node_id, transaction_id }),
            r.payload == payload,
    {
        let header = Header { node_id, transaction_id };
        Message { header, payload }
    }

    /// A message that starts a call: it carries a freshly drawn transaction ID.
    pub fn create(this_node_id: BitKey, payload: RPCPayload) -> (r: Self)
        ensures
            r.header.node_id == this_node_id,
            r.payload == payload,
    {
        let transaction_id: u64 = rand::random();
        Self::response(TransactionID(transaction_id), this_node_id, payload)
    }

    /// Whether the wire format can represent the message: strings of at most
    /// 255 bytes, node lists of at most 255 nodes.
    pub fn fits(&self) -> (r: bool)
        ensures
            r == payload_fits(self.payload@),
    {
        match &self.payload {
            RPCPayload::FindValue(s) => s.as_str().as_bytes().len() <= 255,
            RPCPayload::FindValueResp(s) => s.as_str().as_bytes().len() <= 255,
            RPCPayload::Store(k, v) => k.as_str().as_bytes().len() <= 255 && v.as_str().as_bytes().len() <= 255,
            RPCPayload::FindValueNodes(ns) => ns.len() <= 255,
            RPCPayload::FindNodeResp(ns) => ns.len() <= 255,
            _ => true,
        }
    }

    /// The frame that holds this message.
    pub fn to_bytes(&self) -> (r: Vec<u8>)
        requires
            payload_fits(self.payload@),
        ensures
            r@ == encode_message(self@),
    {
        let mut buf: Vec<u8> = Vec::new();
        write_bitkey(self.header.node_id, &mut buf);
        write_transaction_id(self.header.transaction_id, &mut buf);
        let ghost head = buf@;
        match &self.payload {
            RPCPayload::Ping => buf.push(1),
            RPCPayload::PingResp => buf.push(2),
            RPCPayload::FindNode(id) => {
                buf.push(3);
                write_bitkey(*id, &mut buf);
            },
            RPCPayload::FindNodeResp(nodes) => {
                buf.push(4);
                write_nodes(nodes, &mut buf);
            },
            RPCPayload::Store(key, val) => {
                buf.push(5);
                write_string(key, &mut buf);
                write_string(val, &mut buf);
            },
            RPCPayload::StoreResp => buf.push(6),
            RPCPayload::FindValue(key) => {
                buf.push(7);
                write_string(key, &mut buf);
            },
            RPCPayload::FindValueNodes(nodes) => {
                buf.push(8);
                write_nodes(nodes, &mut buf);
            },
            RPCPayload::FindValueResp(val) => {
                buf.push(9);
                write_string(val, &mut buf);
            },
        }
        assert(buf@ =~= encode_message(self@));
        buf
    }

    /// Writes the message at the start of `buf` and returns how many bytes it took.
    pub fn write(self, buf: &mut [u8]) -> (r: usize)
        requires
            payload_fits(self.payload@),
            encode_message(self@).len() <= old(buf)@.len(),
        ensures
            r == encode_message(self@).len(),
            final(buf)@ == encode_message(self@) + old(buf)@.skip(r as int),
    {
        let bytes = self.to_bytes();
        let mut i: usize = 0;
        while i < bytes.len()
            invariant
                i <= bytes@.len(),
                bytes@ == encode_message(self@),
                bytes@.len() <= old(buf)@.len(),
                buf@.len() == old(buf)@.len(),
                buf@ == bytes@.take(i as int) + old(buf)@.skip(i as int),
            decreases bytes@.len() - i,
        {
            buf[i] = bytes[i];
            i = i + 1;
            assert(buf@ =~= bytes@.take(i as int) + old(buf)@.skip(i as int));
        }
        assert(bytes@.take(i as int) =~= bytes@);
        bytes.len()
    }
}


// ----- reading -----

fn try_bitkey_from(data: &[u8], pos: usize) -> (r: Result<BitKey, ParseError>)
    requires
        pos <= data@.len(),
    ensures
        r == (if data@.len() - pos < 16 {
            Err::<BitKey, ParseError>(ParseError::InsufficientLength)
        } else {
            Ok(BitKey(be_value(data@.subrange(pos as int, pos + 16)) as u128))
        }),
{
    if data.len() - pos < 16 {
        return Err(ParseError::InsufficientLength);
    }
    Ok(BitKey(read_be(data, pos, 16)))
}

/// A length-prefixed string at `pos`, with the number of bytes it takes.
fn try_string_from(data: &[u8], pos: usize) -> (r: Result<(String, usize), ParseError>)
    requires
        pos <= data@.len(),
    ensures
        match r {
            Ok((s, n)) => parse_string(data@.skip(pos as int)) == Ok::<(Seq<char>, int), ParseError>(
                (s@, n as int),
            ),
            Err(e) => parse_string(data@.skip(pos as int)) == Err::<(Seq<char>, int), ParseError>(e),
        },
{
    let ghost d = data@.skip(pos as int);
    if pos == data.len() {
        return Err(ParseError::InsufficientLength);
    }
    let byte_count = data[pos] as usize;
    if data.len() - pos - 1 < byte_count {
        return Err(ParseError::InsufficientLength);
    }
    let bytes = slice_to_vec(slice_subrange(data, pos + 1, pos + 1 + byte_count));
    assert(bytes@ =~= d.subrange(1, 1 + d[0]));
    match string_from_utf8(bytes) {
        Some(string) => Ok((string, byte_count + 1)),
        None => Err(ParseError::InvalidString),
    }
}

/// A node at `pos`, with the number of bytes it takes.
fn try_node_from(data: &[u8], pos: usize) -> (r: Option<(Node, usize)>)
    requires
        pos <= data@.len(),
    ensures
        match r {
            Some((n, used)) => parse_node(data@.skip(pos as int)) == Some((n, used as int)) && pos
                + used <= data@.len(),
            None => parse_node(data@.skip(pos as int)) is None,
        },
{
    let ghost d = data@.skip(pos as int);
    if data.len() - pos < 17 {
        return None;
    }
    let kind = data[pos + 16];
    let n: usize = if kind == 4 {
        4
    } else {
        16
    };
    if data.len() - pos < 19 + n {
        return None;
    }
    let id = read_be(data, pos, 16);
    assert(data@.subrange(pos as int, pos + 16) =~= d.subrange(0, 16));
    let v = read_be(data, pos + 17, n);
    assert(data@.subrange(pos + 17, pos + 17 + n) =~= d.subrange(17, 17 + n));
    let port = read_be(data, pos + 17 + n, 2);
    assert(data@.subrange(pos + 17 + n, pos + 19 + n) =~= d.subrange(17 + n, 19 + n));
    proof {
        lemma_pow256_16();
        lemma_be_value_bound(d.subrange(17, 17 + n));
        lemma_be_value_bound(d.subrange(17 + n, 19 + n));
    }
    let ip = if kind == 4 {
        IpAddress::V4(v as u32)
    } else {
        IpAddress::V6(v)
    };
    let node = Node { id: BitKey(id), udp_addr: NodeAddr { ip, port: port as u16 } };
    Some((node, 19 + n))
}

proof fn lemma_prepend_push(s: Seq<Node>, n: Node, r: Result<Seq<Node>, ParseError>)
    ensures
        prepend(s, prepend(seq![n], r)) == prepend(s.push(n), r),
{
    if let Ok(x) = r {
        assert(s + (seq![n] + x) =~= s.push(n) + x);
    }
}

/// A count-prefixed node list at `pos`.
fn try_nodes_from(data: &[u8], pos: usize) -> (r: Result<Vec<Node>, ParseError>)
    requires
        pos <= data@.len(),
    ensures
        match r {
            Ok(v) => parse_node_list(data@.skip(pos as int)) == Ok::<Seq<Node>, ParseError>(v@),
            Err(e) => parse_node_list(data@.skip(pos as int)) == Err::<Seq<Node>, ParseError>(e),
        },
{
    if pos == data.len() {
        return Err(ParseError::InsufficientLength);
    }
    let capacity = data[pos] as usize;
    let ghost total = parse_node_list(data@.skip(pos as int));
    assert(data@.skip(pos as int).skip(1) =~= data@.skip(pos + 1));
    let mut buf: Vec<Node> = Vec::new();
    let mut at = pos + 1;
    let mut i: usize = 0;
    while i < capacity
        invariant
            i <= capacity,
            at <= data.len(),
            pos < data@.len(),
            capacity == data@[pos as int],
            total == parse_node_list(data@.skip(pos as int)),
            total == parse_nodes(data@.skip(pos + 1), capacity as nat),
            total == prepend(buf@, parse_nodes(data@.skip(at as int), (capacity - i) as nat)),
        decreases capacity - i,
    {
        match try_node_from(data, at) {
            None => {
                assert(parse_nodes(data@.skip(at as int), (capacity - i) as nat) == Err::<
                    Seq<Node>,
                    ParseError,
                >(ParseError::InsufficientLength));
                return Err(ParseError::InsufficientLength);
            },
            Some((node, used)) => {
                let ghost rest = parse_nodes(data@.skip(at + used), (capacity - i - 1) as nat);
                assert(data@.skip(at as int).skip(used as int) =~= data@.skip(at + used));
                assert(parse_nodes(data@.skip(at as int), (capacity - i) as nat) == prepend(
                    seq![node],
                    rest,
                ));
                proof {
                    lemma_prepend_push(buf@, node, rest);
                }
                buf.push(node);
                at = at + used;
                i = i + 1;
            },
        }
    }
    assert(buf@ + Seq::<Node>::empty() =~= buf@);
    Ok(buf)
}

impl TransactionID {
    /// The transaction ID in the first 8 bytes of `data`, big-endian.
    pub fn parse(data: &[u8]) -> (r: Result<TransactionID, ParseError>)
        ensures
            r == (if data@.len() < 8 {
                Err::<TransactionID, ParseError>(ParseError::InsufficientLength)
            } else {
                Ok(TransactionID(be_value(data@.subrange(0, 8)) as u64))
            }),
    {
        if data.len() < 8 {
            return Err(ParseError::InsufficientLength);
        }
        let v = read_be(data, 0, 8);
        proof {
            lemma_be_value_bound(data@.subrange(0, 8));
            lemma_pow256_16();
        }
        Ok(TransactionID(v as u64))
    }
}

impl Header {
    /// The header at the start of a frame.
    pub fn parse(data: &[u8]) -> (r: Result<Header, ParseError>)
        ensures
            r == parse_header(data@),
    {
        if data.len() < HEADER_BYTES {
            return Err(ParseError::InsufficientLength);
        }
        let node_id = try_bitkey_from(data, 0);
        let tx = read_be(data, 16, 8);
        proof {
            lemma_be_value_bound(data@.subrange(16, 24));
            lemma_pow256_16();
        }
        match node_id {
            Ok(node_id) => Ok(Header { node_id, transaction_id: TransactionID(tx as u64) }),
            Err(e) => Err(e),
        }
    }
}

/// The payload that starts at `pos`.
fn parse_payload_at(data: &[u8], pos: usize) -> (r: Result<RPCPayload, ParseError>)
    requires
        pos <= data@.len(),
    ensures
        match r {
            Ok(p) => parse_payload(data@.skip(pos as int)) == Ok::<PayloadView, ParseError>(p@),
            Err(e) => parse_payload(data@.skip(pos as int)) == Err::<PayloadView, ParseError>(e),
        },
{
    let ghost d = data@.skip(pos as int);
    if pos == data.len() {
        return Err(ParseError::InsufficientLength);
    }
    let tag = data[pos];
    let at = pos + 1;
    assert(d.skip(1) =~= data@.skip(at as int));
    if tag == 1 {
        Ok(RPCPayload::Ping)
    } else if tag == 2 {
        Ok(RPCPayload::PingResp)
    } else if tag == 3 {
        let r = try_bitkey_from(data, at);
        if data.len() - at >= 16 {
            assert(data@.subrange(at as int, at + 16) =~= d.skip(1).subrange(0, 16));
        }
        match r {
            Ok(id) => Ok(RPCPayload::FindNode(id)),
            Err(e) => Err(e),
        }
    } else if tag == 4 || tag == 8 {
        match try_nodes_from(data, at) {
            Ok(nodes) => if tag == 4 {
                Ok(RPCPayload::FindNodeResp(nodes))
            } else {
                Ok(RPCPayload::FindValueNodes(nodes))
            },
            Err(e) => Err(e),
        }
    } else if tag == 5 {
        match try_string_from(data, at) {
            Err(e) => Err(e),
            Ok((key, used)) => {
                assert(d.skip(1).skip(used as int) =~= data@.skip(at + used));
                match try_string_from(data, at + used) {
                    Err(e) => Err(e),
                    Ok((val, _)) => Ok(RPCPayload::Store(key, val)),
                }
            },
        }
    } else if tag == 6 {
        Ok(RPCPayload::StoreResp)
    } else if tag == 7 || tag == 9 {
        match try_string_from(data, at) {
            Ok((s, _)) => if tag == 7 {
                Ok(RPCPayload::FindValue(s))
            } else {
                Ok(RPCPayload::FindValueResp(s))
            },
            Err(e) => Err(e),
        }
    } else {
        Err(ParseError::UnknownMessageType)
    }
}

impl RPCPayload {
    /// The payload at the start of `data`: a tag byte and its body.
    pub fn parse(data: &[u8]) -> (r: Result<RPCPayload, ParseError>)
        ensures
            match r {
                Ok(p) => parse_payload(data@) == Ok::<PayloadView, ParseError>(p@),
                Err(e) => parse_payload(data@) == Err::<PayloadView, ParseError>(e),
            },
    {
        assert(data@.skip(0) =~= data@);
        parse_payload_at(data, 0)
    }
}

impl Message {
    /// The message that a frame holds.
    pub fn parse(data: &[u8]) -> (r: Result<Message, ParseError>)
        ensures
            match r {
                Ok(m) => parse_message(data@) == Ok::<MessageView, ParseError>(m@),
                Err(e) => parse_message(data@) == Err::<MessageView, ParseError>(e),
            },
    {
        match Header::parse(data) {
            Err(e) => Err(e),
            Ok(header) => match parse_payload_at(data, HEADER_BYTES) {
                Err(e) => Err(e),
                Ok(payload) => Ok(Message { header, payload }),
            },
        }
    }
}

// ----- the round trip -----

proof fn lemma_be_u128(n: u128)
    ensures
        be_bytes(n as nat, 16).len() == 16,
        be_value(be_bytes(n as nat, 16)) == n,
{
    lemma_pow256_16();
    lemma_be_bytes_len(n as nat, 16);
    lemma_be_round_trip(n as nat, 16);
}

proof fn lemma_be_small(n: nat, len: nat)
    requires
        len == 2 || len == 4 || len == 8,
        n < pow256(len),
    ensures
        be_bytes(n, len).len() == len,
        be_value(be_bytes(n, len)) == n,
{
    lemma_be_bytes_len(n, len);
    lemma_be_round_trip(n, len);
}

proof fn lemma_parse_string_encoded(s: Seq<char>, rest: Seq<u8>)
    requires
        string_fits(s),
    ensures
        parse_string(encode_string(s) + rest) == Ok::<(Seq<char>, int), ParseError>(
            (s, encode_string(s).len() as int),
        ),
{
    let b = encode_utf8(s);
    let d = encode_string(s) + rest;
    assert(d[0] == b.len());
    assert(d.subrange(1, 1 + d[0]) =~= b);
    encode_utf8_valid_utf8(s);
    encode_utf8_decode_utf8(s);
}

proof fn lemma_parse_node_encoded(n: Node, rest: Seq<u8>)
    ensures
        parse_node(encode_node(n) + rest) == Some((n, encode_node(n).len() as int)),
{
    let d = encode_node(n) + rest;
    let idb = be_bytes(n.id.0 as nat, 16);
    lemma_be_u128(n.id.0);
    lemma_pow256_16();
    let a = n.udp_addr;
    lemma_be_small(a.port as nat, 2);
    let pb = be_bytes(a.port as nat, 2);
    assert(d.subrange(0, 16) =~= idb);
    match a.ip {
        IpAddress::V4(v) => {
            lemma_be_small(v as nat, 4);
            let vb = be_bytes(v as nat, 4);
            assert(d[16] == 4u8);
            assert(d.subrange(17, 21) =~= vb);
            assert(d.subrange(21, 23) =~= pb);
            assert(encode_node(n).len() == 23);
        },
        IpAddress::V6(v) => {
            lemma_be_u128(v);
            let vb = be_bytes(v as nat, 16);
            assert(d[16] == 6u8);
            assert(d.subrange(17, 33) =~= vb);
            assert(d.subrange(33, 35) =~= pb);
            assert(encode_node(n).len() == 35);
        },
    }
}

proof fn lemma_encode_nodes_front(ns: Seq<Node>)
    requires
        ns.len() > 0,
    ensures
        encode_nodes(ns) == encode_node(ns[0]) + encode_nodes(ns.skip(1)),
    decreases ns.len(),
{
    if ns.len() == 1 {
        assert(ns.drop_last() =~= Seq::<Node>::empty());
        assert(ns.skip(1) =~= Seq::<Node>::empty());
        assert(encode_nodes(ns) =~= encode_node(ns[0]) + encode_nodes(ns.skip(1)));
    } else {
        lemma_encode_nodes_front(ns.drop_last());
        assert(ns.skip(1).drop_last() =~= ns.drop_last().skip(1));
        assert(ns.skip(1).last() == ns.last());
        assert(encode_nodes(ns) =~= encode_node(ns[0]) + encode_nodes(ns.skip(1)));
    }
}

proof fn lemma_parse_nodes_encoded(ns: Seq<Node>, rest: Seq<u8>)
    ensures
        parse_nodes(encode_nodes(ns) + rest, ns.len()) == Ok::<Seq<Node>, ParseError>(ns),
    decreases ns.len(),
{
    if ns.len() == 0 {
        assert(parse_nodes(encode_nodes(ns) + rest, 0) == Ok::<Seq<Node>, ParseError>(Seq::empty()));
        assert(ns =~= Seq::<Node>::empty());
    } else {
        lemma_encode_nodes_front(ns);
        let tail = encode_nodes(ns.skip(1)) + rest;
        let d = encode_nodes(ns) + rest;
        assert(d =~= encode_node(ns[0]) + tail);
        lemma_parse_node_encoded(ns[0], tail);
        assert(d.skip(encode_node(ns[0]).len() as int) =~= tail);
        lemma_parse_nodes_encoded(ns.skip(1), rest);
        assert(seq![ns[0]] + ns.skip(1) =~= ns);
    }
}

proof fn lemma_parse_node_list_encoded(ns: Seq<Node>, rest: Seq<u8>)
    requires
        ns.len() <= 255,
    ensures
        parse_node_list(encode_node_list(ns) + rest) == Ok::<Seq<Node>, ParseError>(ns),
{
    let d = encode_node_list(ns) + rest;
    assert(d.skip(1) =~= encode_nodes(ns) + rest);
    lemma_parse_nodes_encoded(ns, rest);
}

proof fn lemma_payload_round_trip(p: PayloadView)
    requires
        payload_fits(p),
    ensures
        parse_payload(encode_payload(p)) == Ok::<PayloadView, ParseError>(p),
{
    let d = encode_payload(p);
    let empty = Seq::<u8>::empty();
    match p {
        PayloadView::FindNode(id) => {
            lemma_be_u128(id.0);
            assert(d.skip(1).subrange(0, 16) =~= be_bytes(id.0 as nat, 16));
        },
        PayloadView::FindNodeResp(ns) => {
            assert(d.skip(1) =~= encode_node_list(ns) + empty);
            lemma_parse_node_list_encoded(ns, empty);
        },
        PayloadView::FindValueNodes(ns) => {
            assert(d.skip(1) =~= encode_node_list(ns) + empty);
            lemma_parse_node_list_encoded(ns, empty);
        },
        PayloadView::Store(k, v) => {
            assert(d.skip(1) =~= encode_string(k) + encode_string(v));
            lemma_parse_string_encoded(k, encode_string(v));
            assert(d.skip(1).skip(encode_string(k).len() as int) =~= encode_string(v) + empty);
            lemma_parse_string_encoded(v, empty);
        },
        PayloadView::FindValue(k) => {
            assert(d.skip(1) =~= encode_string(k) + empty);
            lemma_parse_string_encoded(k, empty);
        },
        PayloadView::FindValueResp(v) => {
            assert(d.skip(1) =~= encode_string(v) + empty);
            lemma_parse_string_encoded(v, empty);
        },
        _ => {},
    }
}

proof fn lemma_header_round_trip(h: Header, rest: Seq<u8>)
    ensures
        parse_header(encode_header(h) + rest) == Ok::<Header, ParseError>(h),
        (encode_header(h) + rest).skip(24) == rest,
{
    let d = encode_header(h) + rest;
    lemma_be_u128(h.node_id.0);
    lemma_pow256_16();
    lemma_be_small(h.transaction_id.0 as nat, 8);
    assert(d.subrange(0, 16) =~= be_bytes(h.node_id.0 as nat, 16));
    assert(d.subrange(16, 24) =~= be_bytes(h.transaction_id.0 as nat, 8));
    assert(d.skip(24) =~= rest);
}

/// Every message that the wire format can represent parses back from its
/// encoding to the same message.
pub proof fn lemma_round_trip(m: MessageView)
    requires
        payload_fits(m.payload),
    ensures
        parse_message(encode_message(m)) == Ok::<MessageView, ParseError>(m),
{
    lemma_header_round_trip(m.header, encode_payload(m.payload));
    lemma_payload_round_trip(m.payload);
}


// ----- decoding then encoding -----

/// Every address kind byte of the `count` nodes at the front of `d` is 4 or 6.
pub open spec fn node_kinds_canonical(d: Seq<u8>, count: nat) -> bool
    decreases count,
{
    if count == 0 {
        true
    } else {
        match parse_node(d) {
            None => true,
            Some((_, used)) => (d[16] == 4 || d[16] == 6) && node_kinds_canonical(d.skip(used), (count - 1) as nat),
        }
    }
}

/// A frame names each node address as kind 4 or 6, the two kinds there are.
pub open spec fn frame_canonical(d: Seq<u8>) -> bool {
    d.len() > 25 && (d[24] == 4 || d[24] == 8) ==> node_kinds_canonical(d.skip(26), d[25] as nat)
}

proof fn lemma_be_bytes_of_value(s: Seq<u8>)
    ensures
        be_bytes(be_value(s), s.len()) == s,
    decreases s.len(),
{
    if s.len() > 0 {
        let p = s.drop_last();
        lemma_be_bytes_of_value(p);
        let a = be_value(p);
        let b = s.last() as nat;
        assert((a * 256 + b) / 256 == a && (a * 256 + b) % 256 == b) by (nonlinear_arith)
            requires
                b < 256,
        ;
        assert(be_bytes(be_value(s), s.len()) =~= s);
    }
}

proof fn lemma_string_reencodes(d: Seq<u8>)
    requires
        parse_string(d) is Ok,
    ensures
        string_fits((parse_string(d)->Ok_0).0),
        (parse_string(d)->Ok_0).1 == encode_string((parse_string(d)->Ok_0).0).len(),
        d.subrange(0, (parse_string(d)->Ok_0).1) == encode_string((parse_string(d)->Ok_0).0),
{
    let b = d.subrange(1, 1 + d[0]);
    vstd::utf8::decode_utf8_encode_utf8(b);
    assert(d.subrange(0, 1 + d[0]) =~= encode_string(decode_utf8(b)));
}

proof fn lemma_node_reencodes(d: Seq<u8>)
    requires
        parse_node(d) is Some,
        d[16] == 4 || d[16] == 6,
    ensures
        d.subrange(0, (parse_node(d)->Some_0).1) == encode_node((parse_node(d)->Some_0).0),
        (parse_node(d)->Some_0).1 == encode_node((parse_node(d)->Some_0).0).len(),
{
    let n = ip_len(d[16]);
    lemma_pow256_16();
    lemma_be_bytes_of_value(d.subrange(0, 16));
    lemma_be_value_bound(d.subrange(0, 16));
    lemma_be_bytes_of_value(d.subrange(17, 17 + n));
    lemma_be_value_bound(d.subrange(17, 17 + n));
    lemma_be_bytes_of_value(d.subrange(17 + n, 19 + n));
    lemma_be_value_bound(d.subrange(17 + n, 19 + n));
    let (node, used) = parse_node(d)->Some_0;
    assert(d.subrange(0, used) =~= encode_node(node));
}

proof fn lemma_nodes_reencode(d: Seq<u8>, count: nat)
    requires
        parse_nodes(d, count) is Ok,
        node_kinds_canonical(d, count),
    ensures
        parse_nodes(d, count)->Ok_0.len() == count,
        encode_nodes(parse_nodes(d, count)->Ok_0).len() <= d.len(),
        d.subrange(0, encode_nodes(parse_nodes(d, count)->Ok_0).len() as int) == encode_nodes(
            parse_nodes(d, count)->Ok_0,
        ),
    decreases count,
{
    if count == 0 {
        assert(d.subrange(0, 0) =~= Seq::<u8>::empty());
    } else {
        let (node, used) = parse_node(d)->Some_0;
        lemma_node_reencodes(d);
        let rest = d.skip(used);
        lemma_nodes_reencode(rest, (count - 1) as nat);
        let tail = parse_nodes(rest, (count - 1) as nat)->Ok_0;
        let ns = parse_nodes(d, count)->Ok_0;
        assert(ns =~= seq![node] + tail);
        assert(ns[0] == node);
        assert(ns.skip(1) =~= tail);
        lemma_encode_nodes_front(ns);
        let e = encode_nodes(tail);
        assert(d.subrange(0, used + e.len() as int) =~= d.subrange(0, used) + rest.subrange(0, e.len() as int));
    }
}

/// Reading a frame whose node addresses are of kind 4 or 6 gives a message
/// that the wire format can represent, and writing it again gives the bytes
/// that were read (bytes after the message are not part of it).
pub proof fn lemma_reencode(d: Seq<u8>)
    requires
        parse_message(d) is Ok,
        frame_canonical(d),
    ensures
        payload_fits((parse_message(d)->Ok_0).payload),
        encode_message(parse_message(d)->Ok_0).len() <= d.len(),
        d.subrange(0, encode_message(parse_message(d)->Ok_0).len() as int) == encode_message(parse_message(d)->Ok_0),
{
    let m = parse_message(d)->Ok_0;
    lemma_pow256_16();
    lemma_be_bytes_of_value(d.subrange(0, 16));
    lemma_be_value_bound(d.subrange(0, 16));
    lemma_be_bytes_of_value(d.subrange(16, 24));
    lemma_be_value_bound(d.subrange(16, 24));
    assert(d.subrange(0, 24) =~= encode_header(m.header));
    let p = d.skip(24);
    let r = p.skip(1);
    match m.payload {
        PayloadView::FindNode(id) => {
            lemma_be_bytes_of_value(r.subrange(0, 16));
            lemma_be_value_bound(r.subrange(0, 16));
            assert(d.subrange(0, 41) =~= d.subrange(0, 24) + seq![3u8] + r.subrange(0, 16));
        },
        PayloadView::FindNodeResp(ns) => {
            assert(r.skip(1) =~= d.skip(26));
            lemma_nodes_reencode(r.skip(1), r[0] as nat);
            let e = encode_nodes(ns);
            assert(d.subrange(0, 26 + e.len() as int) =~= d.subrange(0, 24) + seq![4u8, r[0]] + r.skip(1).subrange(
                0,
                e.len() as int,
            ));
        },
        PayloadView::FindValueNodes(ns) => {
            assert(r.skip(1) =~= d.skip(26));
            lemma_nodes_reencode(r.skip(1), r[0] as nat);
            let e = encode_nodes(ns);
            assert(d.subrange(0, 26 + e.len() as int) =~= d.subrange(0, 24) + seq![8u8, r[0]] + r.skip(1).subrange(
                0,
                e.len() as int,
            ));
        },
        PayloadView::Store(k, v) => {
            lemma_string_reencodes(r);
            let n = (parse_string(r)->Ok_0).1;
            lemma_string_reencodes(r.skip(n));
            let ek = encode_string(k);
            let ev = encode_string(v);
            assert(d.subrange(0, 25 + ek.len() as int + ev.len() as int) =~= d.subrange(0, 24) + seq![5u8] + r.subrange(0, n)
                + r.skip(n).subrange(0, ev.len() as int));
        },
        PayloadView::FindValue(k) => {
            lemma_string_reencodes(r);
            let ek = encode_string(k);
            assert(d.subrange(0, 25 + ek.len() as int) =~= d.subrange(0, 24) + seq![7u8] + r.subrange(0, ek.len() as int));
        },
        PayloadView::FindValueResp(v) => {
            lemma_string_reencodes(r);
            let ev = encode_string(v);
            assert(d.subrange(0, 25 + ev.len() as int) =~= d.subrange(0, 24) + seq![9u8] + r.subrange(0, ev.len() as int));
        },
        _ => {
            assert(d.subrange(0, 25) =~= d.subrange(0, 24) + seq![d[24]]);
        },
    }
}

} // verus!
