//! Framed wire messages for the DHT protocol. Each datagram is a four-byte
//! header (the message type code, little-endian) followed by the body;
//! variable-length fields carry a u32 length prefix, endpoints their
//! canonical six bytes. Truncated or inconsistent datagrams fail closed.

use vstd::prelude::*;
use vstd::bytes::{spec_u32_to_le_bytes, spec_u32_from_le_bytes,
    lemma_auto_spec_u32_to_from_le_bytes};
use crate::codec::{push_bytes, push_u32_le, read_u32_le, copy_range};
use crate::endpoint::{Endpoint, lemma_endpoint_round_trip};
use crate::CoreError;

verus! {

/// Bytes of a serialized message header.
pub const MESSAGE_HEADER_SIZE: usize = 4;

/// The seven message types; their codes start at one.
#[derive(Debug, Clone, Copy, PartialEq, Eq, Structural)]
pub enum MessageType {
    PingRequest,
    FindNodeRequest,
    FindValueRequest,
    StoreValueRequest,
    PingResponse,
    FindNodeResponse,
    FindValueResponse,
}

impl MessageType {
    /// The numeric code a type carries on the wire.
    pub open spec fn code(self) -> u32 {
        match self {
            MessageType::PingRequest => 1,
            MessageType::FindNodeRequest => 2,
            MessageType::FindValueRequest => 3,
            MessageType::StoreValueRequest => 4,
            MessageType::PingResponse => 5,
            MessageType::FindNodeResponse => 6,
            MessageType::FindValueResponse => 7,
        }
    }

    /// The numeric code, executable.
    pub fn as_u32(self) -> (r: u32)
        ensures
            r == self.code(),
    {
        match self {
            MessageType::PingRequest => 1,
            MessageType::FindNodeRequest => 2,
            MessageType::FindValueRequest => 3,
            MessageType::StoreValueRequest => 4,
            MessageType::PingResponse => 5,
            MessageType::FindNodeResponse => 6,
            MessageType::FindValueResponse => 7,
        }
    }

    /// The type a code names, when it names one.
    pub fn from_u32(v: u32) -> (r: Option<MessageType>)
        ensures
            match r {
                Some(t) => t.code() == v,
                None => v == 0 || v > 7,
            },
    {
        if v == 1 {
            Some(MessageType::PingRequest)
        } else if v == 2 {
            Some(MessageType::FindNodeRequest)
        } else if v == 3 {
            Some(MessageType::FindValueRequest)
        } else if v == 4 {
            Some(MessageType::StoreValueRequest)
        } else if v == 5 {
            Some(MessageType::PingResponse)
        } else if v == 6 {
            Some(MessageType::FindNodeResponse)
        } else if v == 7 {
            Some(MessageType::FindValueResponse)
        } else {
            None
        }
    }
}

/// A message header: for now, only the type code.
#[derive(Debug, Clone, Copy, PartialEq, Eq, Structural)]
pub struct MessageHeader {
    pub message_type: u32,
}

impl MessageHeader {
    pub fn new(message_type: MessageType) -> (r: MessageHeader)
        ensures
            r.message_type == message_type.code(),
    {
        MessageHeader { message_type: message_type.as_u32() }
    }

    /// Read the header off the front of a datagram; shorter ones fail.
    pub fn from_bytes(bytes: &[u8]) -> (r: Result<MessageHeader, CoreError>)
        ensures
            match r {
                Ok(h) => bytes@.len() >= 4 && h.message_type == spec_u32_from_le_bytes(
                    bytes@.subrange(0, 4),
                ),
                Err(e) => bytes@.len() < 4 && e == CoreError::Protocol,
            },
    {
        if bytes.len() < MESSAGE_HEADER_SIZE {
            return Err(CoreError::Protocol);
        }
        Ok(MessageHeader { message_type: read_u32_le(bytes, 0) })
    }

    /// The four header bytes.
    pub fn to_bytes(&self) -> (r: Vec<u8>)
        ensures
            r@ == spec_u32_to_le_bytes(self.message_type),
            r@.len() == MESSAGE_HEADER_SIZE,
    {
        proof {
            lemma_auto_spec_u32_to_from_le_bytes();
        }
        let mut out: Vec<u8> = Vec::new();
        push_u32_le(&mut out, self.message_type);
        out
    }
}

/// The datagram of a bodyless message of type `t`.
pub open spec fn spec_serialize_empty(t: u32) -> Seq<u8> {
    spec_u32_to_le_bytes(t)
}

/// The datagram of a message of type `t` with one length-prefixed key.
pub open spec fn spec_serialize_keyed(t: u32, key: Seq<u8>) -> Seq<u8> {
    spec_u32_to_le_bytes(t) + spec_u32_to_le_bytes(key.len() as u32) + key
}

/// What a keyed body parses to: the key, when the length prefix matches.
pub open spec fn spec_parse_keyed(b: Seq<u8>) -> Option<Seq<u8>> {
    if b.len() < 8 {
        None
    } else if spec_u32_from_le_bytes(b.subrange(4, 8)) != b.len() - 8 {
        None
    } else {
        Some(b.subrange(8, b.len() as int))
    }
}

/// Parsing inverts the keyed form.
pub proof fn lemma_keyed_round_trip(t: u32, key: Seq<u8>)
    requires
        key.len() <= u32::MAX - 8,
    ensures
        spec_parse_keyed(spec_serialize_keyed(t, key)) == Some(key),
        spec_u32_from_le_bytes(spec_serialize_keyed(t, key).subrange(0, 4)) == t,
{
    lemma_auto_spec_u32_to_from_le_bytes();
    let b = spec_serialize_keyed(t, key);
    assert(b.subrange(0, 4) =~= spec_u32_to_le_bytes(t));
    assert(b.subrange(4, 8) =~= spec_u32_to_le_bytes(key.len() as u32));
    assert(b.subrange(8, b.len() as int) =~= key);
}

/// Serialize a keyed message.
fn serialize_keyed(t: MessageType, key: &[u8]) -> (r: Vec<u8>)
    requires
        key@.len() <= u32::MAX - 8,
    ensures
        r@ == spec_serialize_keyed(t.code(), key@),
{
    proof {
        lemma_auto_spec_u32_to_from_le_bytes();
    }
    let mut out: Vec<u8> = Vec::new();
    push_u32_le(&mut out, t.as_u32());
    push_u32_le(&mut out, key.len() as u32);
    push_bytes(&mut out, key);
    proof {
        assert(out@ =~= spec_serialize_keyed(t.code(), key@));
    }
    out
}

/// Parse a keyed message body, returning the header and the key.
fn parse_keyed(bytes: &[u8]) -> (r: Result<(MessageHeader, Vec<u8>), CoreError>)
    ensures
        match r {
            Ok(p) => {
                &&& bytes@.len() >= 4
                &&& p.0.message_type == spec_u32_from_le_bytes(bytes@.subrange(0, 4))
                &&& spec_parse_keyed(bytes@) == Some(p.1@)
            },
            Err(e) => spec_parse_keyed(bytes@) is None && e == CoreError::Protocol,
        },
{
    if bytes.len() < 8 {
        return Err(CoreError::Protocol);
    }
    let t = read_u32_le(bytes, 0);
    let klen = read_u32_le(bytes, 4);
    if klen as u64 != (bytes.len() - 8) as u64 {
        return Err(CoreError::Protocol);
    }
    let key = copy_range(bytes, 8, bytes.len());
    Ok((MessageHeader { message_type: t }, key))
}

/// A ping: the receiver answers with a ping response.
#[derive(Debug, PartialEq)]
pub struct PingRequestMessage {}

impl PingRequestMessage {
    pub fn new() -> (r: PingRequestMessage) {
        PingRequestMessage {  }
    }

    pub fn from_bytes(bytes: &[u8]) -> (r: Result<(MessageHeader, PingRequestMessage), CoreError>)
        ensures
            match r {
                Ok(p) => bytes@.len() == 4 && p.0.message_type == spec_u32_from_le_bytes(
                    bytes@.subrange(0, 4),
                ),
                Err(e) => bytes@.len() != 4 && e == CoreError::Protocol,
            },
    {
        if bytes.len() != 4 {
            return Err(CoreError::Protocol);
        }
        Ok((MessageHeader { message_type: read_u32_le(bytes, 0) }, PingRequestMessage {  }))
    }

    pub fn to_bytes(&self) -> (r: Vec<u8>)
        ensures
            r@ == spec_serialize_empty(MessageType::PingRequest.code()),
            r@.len() == 4,
    {
        proof {
            lemma_auto_spec_u32_to_from_le_bytes();
        }
        MessageHeader::new(MessageType::PingRequest).to_bytes()
    }
}

/// The answer to a ping.
#[derive(Debug, PartialEq)]
pub struct PingResponseMessage {}

impl PingResponseMessage {
    pub fn new() -> (r: PingResponseMessage) {
        PingResponseMessage {  }
    }

    pub fn from_bytes(bytes: &[u8]) -> (r: Result<(MessageHeader, PingResponseMessage), CoreError>)
        ensures
            match r {
                Ok(p) => bytes@.len() == 4 && p.0.message_type == spec_u32_from_le_bytes(
                    bytes@.subrange(0, 4),
                ),
                Err(e) => bytes@.len() != 4 && e == CoreError::Protocol,
            },
    {
        if bytes.len() != 4 {
            return Err(CoreError::Protocol);
        }
        Ok((MessageHeader { message_type: read_u32_le(bytes, 0) }, PingResponseMessage {  }))
    }

    pub fn to_bytes(&self) -> (r: Vec<u8>)
        ensures
            r@ == spec_serialize_empty(MessageType::PingResponse.code()),
            r@.len() == 4,
    {
        proof {
            lemma_auto_spec_u32_to_from_le_bytes();
        }
        MessageHeader::new(MessageType::PingResponse).to_bytes()
    }
}

/// Ask for the closest known peers to a key.
#[derive(Debug, PartialEq)]
pub struct FindNodeRequestMessage {
    pub key: Vec<u8>,
}

impl FindNodeRequestMessage {
    pub fn new(key: &[u8]) -> (r: FindNodeRequestMessage)
        ensures
            r.key@ == key@,
    {
        FindNodeRequestMessage { key: vstd::slice::slice_to_vec(key) }
    }

    pub fn from_bytes(bytes: &[u8]) -> (r: Result<
        (MessageHeader, FindNodeRequestMessage),
        CoreError,
    >)
        ensures
            match r {
                Ok(p) => {
                    &&& p.0.message_type == spec_u32_from_le_bytes(bytes@.subrange(0, 4))
                    &&& spec_parse_keyed(bytes@) == Some(p.1.key@)
                },
                Err(e) => spec_parse_keyed(bytes@) is None && e == CoreError::Protocol,
            },
    {
        let (header, key) = match parse_keyed(bytes) {
            Ok(p) => p,
            Err(e) => {
                return Err(e);
            },
        };
        Ok((header, FindNodeRequestMessage { key }))
    }

    pub fn to_bytes(&self) -> (r: Vec<u8>)
        requires
            self.key@.len() <= u32::MAX - 8,
        ensures
            r@ == spec_serialize_keyed(MessageType::FindNodeRequest.code(), self.key@),
    {
        serialize_keyed(MessageType::FindNodeRequest, self.key.as_slice())
    }
}

/// Ask for the value stored under a key, or a closer peer.
#[derive(Debug, PartialEq)]
pub struct FindValueRequestMessage {
    pub key: Vec<u8>,
}

impl FindValueRequestMessage {
    pub fn new(key: &[u8]) -> (r: FindValueRequestMessage)
        ensures
            r.key@ == key@,
    {
        FindValueRequestMessage { key: vstd::slice::slice_to_vec(key) }
    }

    pub fn from_bytes(bytes: &[u8]) -> (r: Result<
        (MessageHeader, FindValueRequestMessage),
        CoreError,
    >)
        ensures
            match r {
                Ok(p) => {
                    &&& p.0.message_type == spec_u32_from_le_bytes(bytes@.subrange(0, 4))
                    &&& spec_parse_keyed(bytes@) == Some(p.1.key@)
                },
                Err(e) => spec_parse_keyed(bytes@) is None && e == CoreError::Protocol,
            },
    {
        let (header, key) = match parse_keyed(bytes) {
            Ok(p) => p,
            Err(e) => {
                return Err(e);
            },
        };
        Ok((header, FindValueRequestMessage { key }))
    }

    pub fn to_bytes(&self) -> (r: Vec<u8>)
        requires
            self.key@.len() <= u32::MAX - 8,
        ensures
            r@ == spec_serialize_keyed(MessageType::FindValueRequest.code(), self.key@),
    {
        serialize_keyed(MessageType::FindValueRequest, self.key.as_slice())
    }
}

/// The datagram of a store request.
pub open spec fn spec_serialize_store(key: Seq<u8>, data: Seq<u8>, replication_level: u32) -> Seq<
    u8,
> {
    spec_u32_to_le_bytes(MessageType::StoreValueRequest.code()) + spec_u32_to_le_bytes(
        key.len() as u32,
    ) + key + spec_u32_to_le_bytes(data.len() as u32) + data + spec_u32_to_le_bytes(
        replication_level,
    )
}

/// What a store request parses to: key, data and replication level.
pub open spec fn spec_parse_store(b: Seq<u8>) -> Option<(Seq<u8>, Seq<u8>, u32)> {
    if b.len() < 16 {
        None
    } else {
        let klen = spec_u32_from_le_bytes(b.subrange(4, 8));
        if 8 + klen + 8 > b.len() {
            None
        } else {
            let dlen = spec_u32_from_le_bytes(b.subrange(8 + klen, 12 + klen));
            if 12 + klen + dlen + 4 != b.len() {
                None
            } else {
                Some(
                    (
                        b.subrange(8, 8 + klen),
                        b.subrange(12 + klen, 12 + klen + dlen),
                        spec_u32_from_le_bytes(b.subrange(12 + klen + dlen, b.len() as int)),
                    ),
                )
            }
        }
    }
}

/// Parsing inverts the store form.
pub proof fn lemma_store_round_trip(key: Seq<u8>, data: Seq<u8>, replication_level: u32)
    requires
        key.len() <= u32::MAX,
        data.len() <= u32::MAX,
        16 + key.len() + data.len() <= u32::MAX,
    ensures
        spec_parse_store(spec_serialize_store(key, data, replication_level)) == Some(
            (key, data, replication_level),
        ),
        spec_u32_from_le_bytes(spec_serialize_store(key, data, replication_level).subrange(0, 4))
            == MessageType::StoreValueRequest.code(),
{
    lemma_auto_spec_u32_to_from_le_bytes();
    let b = spec_serialize_store(key, data, replication_level);
    let klen = key.len() as int;
    let dlen = data.len() as int;
    assert(b.subrange(0, 4) =~= spec_u32_to_le_bytes(MessageType::StoreValueRequest.code()));
    assert(b.subrange(4, 8) =~= spec_u32_to_le_bytes(key.len() as u32));
    assert(b.subrange(8, 8 + klen) =~= key);
    assert(b.subrange(8 + klen, 12 + klen) =~= spec_u32_to_le_bytes(data.len() as u32));
    assert(b.subrange(12 + klen, 12 + klen + dlen) =~= data);
    assert(b.subrange(12 + klen + dlen, b.len() as int) =~= spec_u32_to_le_bytes(
        replication_level,
    ));
}

/// Store a value under a key, replicated this many times.
#[derive(Debug, PartialEq)]
pub struct StoreValueRequestMessage {
    pub key: Vec<u8>,
    pub data: Vec<u8>,
    pub replication_level: u32,
}

impl StoreValueRequestMessage {
    pub fn new(key: &[u8], data: &[u8], replication_level: u32) -> (r: StoreValueRequestMessage)
        ensures
            r.key@ == key@,
            r.data@ == data@,
            r.replication_level == replication_level,
    {
        StoreValueRequestMessage {
            key: vstd::slice::slice_to_vec(key),
            data: vstd::slice::slice_to_vec(data),
            replication_level,
        }
    }

    pub fn from_bytes(bytes: &[u8]) -> (r: Result<
        (MessageHeader, StoreValueRequestMessage),
        CoreError,
    >)
        ensures
            match r {
                Ok(p) => {
                    &&& p.0.message_type == spec_u32_from_le_bytes(bytes@.subrange(0, 4))
                    &&& spec_parse_store(bytes@) == Some(
                        (p.1.key@, p.1.data@, p.1.replication_level),
                    )
                },
                Err(e) => spec_parse_store(bytes@) is None && e == CoreError::Protocol,
            },
    {
        let len = bytes.len();
        if len < 16 {
            return Err(CoreError::Protocol);
        }
        let t = read_u32_le(bytes, 0);
        let klen = read_u32_le(bytes, 4) as usize;
        if 8 + (klen as u64) + 8 > len as u64 {
            return Err(CoreError::Protocol);
        }
        let dlen = read_u32_le(bytes, 8 + klen) as usize;
        if 12 + (klen as u64) + (dlen as u64) + 4 != len as u64 {
            return Err(CoreError::Protocol);
        }
        let key = copy_range(bytes, 8, 8 + klen);
        let data = copy_range(bytes, 12 + klen, 12 + klen + dlen);
        let replication_level = read_u32_le(bytes, 12 + klen + dlen);
        Ok(
            (
                MessageHeader { message_type: t },
                StoreValueRequestMessage { key, data, replication_level },
            ),
        )
    }

    pub fn to_bytes(&self) -> (r: Vec<u8>)
        requires
            16 + self.key@.len() + self.data@.len() <= u32::MAX,
        ensures
            r@ == spec_serialize_store(self.key@, self.data@, self.replication_level),
    {
        proof {
            lemma_auto_spec_u32_to_from_le_bytes();
        }
        let mut out: Vec<u8> = Vec::new();
        push_u32_le(&mut out, MessageType::StoreValueRequest.as_u32());
        push_u32_le(&mut out, self.key.len() as u32);
        push_bytes(&mut out, self.key.as_slice());
        push_u32_le(&mut out, self.data.len() as u32);
        push_bytes(&mut out, self.data.as_slice());
        push_u32_le(&mut out, self.replication_level);
        proof {
            assert(out@ =~= spec_serialize_store(self.key@, self.data@, self.replication_level));
        }
        out
    }
}

/// The concatenated six-byte encodings of a run of endpoints.
pub open spec fn spec_serialize_endpoints(eps: Seq<Endpoint>) -> Seq<u8>
    decreases eps.len(),
{
    if eps.len() == 0 {
        Seq::empty()
    } else {
        spec_serialize_endpoints(eps.drop_last()) + eps.last().spec_bytes()
    }
}

/// The endpoint list is six bytes per entry.
pub proof fn lemma_serialize_endpoints_len(eps: Seq<Endpoint>)
    ensures
        spec_serialize_endpoints(eps).len() == 6 * eps.len(),
    decreases eps.len(),
{
    if eps.len() > 0 {
        lemma_serialize_endpoints_len(eps.drop_last());
        lemma_endpoint_round_trip(eps.last());
    }
}

/// Each endpoint sits at its six-byte slot in the concatenation.
pub proof fn lemma_serialize_endpoints_index(eps: Seq<Endpoint>, j: int)
    requires
        0 <= j < eps.len(),
    ensures
        spec_serialize_endpoints(eps).subrange(6 * j, 6 * j + 6) == eps[j].spec_bytes(),
    decreases eps.len(),
{
    lemma_serialize_endpoints_len(eps);
    lemma_serialize_endpoints_len(eps.drop_last());
    lemma_endpoint_round_trip(eps.last());
    if j == eps.len() - 1 {
        assert(spec_serialize_endpoints(eps).subrange(6 * j, 6 * j + 6) =~= eps.last().spec_bytes());
    } else {
        lemma_serialize_endpoints_index(eps.drop_last(), j);
        assert(eps.drop_last()[j] == eps[j]);
        assert(spec_serialize_endpoints(eps).subrange(6 * j, 6 * j + 6) =~= spec_serialize_endpoints(
            eps.drop_last(),
        ).subrange(6 * j, 6 * j + 6));
    }
}

/// The datagram of a find-node response.
pub open spec fn spec_serialize_find_node_response(eps: Seq<Endpoint>) -> Seq<u8> {
    spec_u32_to_le_bytes(MessageType::FindNodeResponse.code()) + spec_u32_to_le_bytes(
        eps.len() as u32,
    ) + spec_serialize_endpoints(eps)
}

/// What a find-node response parses to: the endpoints.
pub open spec fn spec_parse_find_node_response(b: Seq<u8>) -> Option<Seq<Endpoint>> {
    if b.len() < 8 {
        None
    } else {
        let count = spec_u32_from_le_bytes(b.subrange(4, 8));
        if 8 + 6 * count != b.len() {
            None
        } else {
            Some(Seq::new(count as nat, |j: int| Endpoint::spec_from_bytes(b.subrange(8 + 6 * j, 8 + 6 * j + 6))))
        }
    }
}

/// Parsing inverts the find-node response form.
pub proof fn lemma_find_node_response_round_trip(eps: Seq<Endpoint>)
    requires
        eps.len() <= 1000000,
    ensures
        spec_parse_find_node_response(spec_serialize_find_node_response(eps)) == Some(eps),
        spec_u32_from_le_bytes(spec_serialize_find_node_response(eps).subrange(0, 4))
            == MessageType::FindNodeResponse.code(),
{
    lemma_auto_spec_u32_to_from_le_bytes();
    lemma_serialize_endpoints_len(eps);
    let b = spec_serialize_find_node_response(eps);
    assert(b.subrange(0, 4) =~= spec_u32_to_le_bytes(MessageType::FindNodeResponse.code()));
    assert(b.subrange(4, 8) =~= spec_u32_to_le_bytes(eps.len() as u32));
    assert forall|j: int| 0 <= j < eps.len() implies Endpoint::spec_from_bytes(
        b.subrange(8 + 6 * j, 8 + 6 * j + 6),
    ) == eps[j] by {
        lemma_serialize_endpoints_index(eps, j);
        assert(b.subrange(8 + 6 * j, 8 + 6 * j + 6) =~= spec_serialize_endpoints(eps).subrange(
            6 * j,
            6 * j + 6,
        ));
        lemma_endpoint_round_trip(eps[j]);
    }
    assert(spec_parse_find_node_response(b).unwrap() =~= eps);
}

/// The closest known peers for a queried key.
#[derive(Debug, PartialEq)]
pub struct FindNodeResponseMessage {
    pub nodes: Vec<Endpoint>,
}

impl FindNodeResponseMessage {
    pub fn new(addrs: &[Endpoint]) -> (r: FindNodeResponseMessage)
        ensures
            r.nodes@ == addrs@,
    {
        FindNodeResponseMessage { nodes: vstd::slice::slice_to_vec(addrs) }
    }

    #[verifier::loop_isolation(false)]
    pub fn from_bytes(bytes: &[u8]) -> (r: Result<
        (MessageHeader, FindNodeResponseMessage),
        CoreError,
    >)
        ensures
            match r {
                Ok(p) => {
                    &&& p.0.message_type == spec_u32_from_le_bytes(bytes@.subrange(0, 4))
                    &&& spec_parse_find_node_response(bytes@) == Some(p.1.nodes@)
                },
                Err(e) => spec_parse_find_node_response(bytes@) is None && e
                    == CoreError::Protocol,
            },
    {
        let len = bytes.len();
        if len < 8 {
            return Err(CoreError::Protocol);
        }
        let t = read_u32_le(bytes, 0);
        let count = read_u32_le(bytes, 4);
        if 8 + 6u64 * (count as u64) != len as u64 {
            return Err(CoreError::Protocol);
        }
        let mut nodes: Vec<Endpoint> = Vec::new();
        let mut j: usize = 0;
        while j < count as usize
            invariant
                j <= count,
                nodes@.len() == j,
                forall|q: int|
                    0 <= q < j ==> nodes@[q] == Endpoint::spec_from_bytes(
                        bytes@.subrange(8 + 6 * q, 8 + 6 * q + 6),
                    ),
            decreases count - j,
        {
            let ep = Endpoint::from_bytes(bytes, 8 + 6 * j);
            nodes.push(ep);
            j = j + 1;
        }
        proof {
            assert(nodes@ =~= spec_parse_find_node_response(bytes@).unwrap());
        }
        Ok((MessageHeader { message_type: t }, FindNodeResponseMessage { nodes }))
    }

    #[verifier::loop_isolation(false)]
    pub fn to_bytes(&self) -> (r: Vec<u8>)
        requires
            self.nodes@.len() <= 1000000,
        ensures
            r@ == spec_serialize_find_node_response(self.nodes@),
    {
        proof {
            lemma_auto_spec_u32_to_from_le_bytes();
            lemma_serialize_endpoints_len(self.nodes@);
        }
        let mut out: Vec<u8> = Vec::new();
        push_u32_le(&mut out, MessageType::FindNodeResponse.as_u32());
        push_u32_le(&mut out, self.nodes.len() as u32);
        let mut j: usize = 0;
        while j < self.nodes.len()
            invariant
                j <= self.nodes@.len(),
                out@ == spec_u32_to_le_bytes(MessageType::FindNodeResponse.code())
                    + spec_u32_to_le_bytes(self.nodes@.len() as u32) + spec_serialize_endpoints(
                    self.nodes@.subrange(0, j as int),
                ),
            decreases self.nodes@.len() - j,
        {
            proof {
                lemma_serialize_endpoints_len(self.nodes@.subrange(0, j as int));
                let pre = self.nodes@.subrange(0, j + 1);
                assert(pre.drop_last() =~= self.nodes@.subrange(0, j as int));
                assert(pre.last() == self.nodes@[j as int]);
            }
            let ep_bytes = self.nodes[j].to_bytes();
            push_bytes(&mut out, ep_bytes.as_slice());
            j = j + 1;
        }
        proof {
            assert(self.nodes@.subrange(0, self.nodes@.len() as int) =~= self.nodes@);
        }
        out
    }
}

/// The datagram of a find-value response: the key, then either one closer
/// peer or the data, tagged.
pub open spec fn spec_serialize_find_value_response(
    key: Seq<u8>,
    node: Option<Endpoint>,
    data: Option<Seq<u8>>,
) -> Seq<u8> {
    spec_u32_to_le_bytes(MessageType::FindValueResponse.code()) + spec_u32_to_le_bytes(
        key.len() as u32,
    ) + key + (match node {
        Some(ep) => spec_u32_to_le_bytes(1) + ep.spec_bytes(),
        None => spec_u32_to_le_bytes(0) + Seq::new(6, |i: int| 0u8),
    }) + (match data {
        Some(d) => spec_u32_to_le_bytes(1) + spec_u32_to_le_bytes(d.len() as u32) + d,
        None => spec_u32_to_le_bytes(0) + spec_u32_to_le_bytes(0),
    })
}

/// What a find-value response parses to; exactly one of peer and data is
/// set.
pub open spec fn spec_parse_find_value_response(b: Seq<u8>) -> Option<
    (Seq<u8>, Option<Endpoint>, Option<Seq<u8>>),
> {
    if b.len() < 8 {
        None
    } else {
        let klen = spec_u32_from_le_bytes(b.subrange(4, 8));
        if 8 + klen + 18 > b.len() {
            None
        } else {
            let key = b.subrange(8, 8 + klen);
            let ntag = spec_u32_from_le_bytes(b.subrange(8 + klen, 12 + klen));
            let dtag = spec_u32_from_le_bytes(b.subrange(18 + klen, 22 + klen));
            if ntag + dtag != 1 {
                None
            } else if ntag == 1 {
                if b.len() != 8 + klen + 18 || spec_u32_from_le_bytes(
                    b.subrange(22 + klen, 26 + klen),
                ) != 0 {
                    None
                } else {
                    Some(
                        (key, Some(Endpoint::spec_from_bytes(b.subrange(12 + klen, 18 + klen))), None),
                    )
                }
            } else {
                let dlen = spec_u32_from_le_bytes(b.subrange(22 + klen, 26 + klen));
                if b.len() != 26 + klen + dlen {
                    None
                } else {
                    Some((key, None, Some(b.subrange(26 + klen, 26 + klen + dlen))))
                }
            }
        }
    }
}

/// Parsing inverts the find-value response form.
pub proof fn lemma_find_value_response_round_trip(
    key: Seq<u8>,
    node: Option<Endpoint>,
    data: Option<Seq<u8>>,
)
    requires
        node is Some <==> data is None,
        key.len() <= u32::MAX,
        26 + key.len() + (match data {
            Some(d) => d.len(),
            None => 0nat,
        }) <= u32::MAX,
    ensures
        spec_parse_find_value_response(spec_serialize_find_value_response(key, node, data))
            == Some((key, node, data)),
        spec_u32_from_le_bytes(
            spec_serialize_find_value_response(key, node, data).subrange(0, 4),
        ) == MessageType::FindValueResponse.code(),
{
    lemma_auto_spec_u32_to_from_le_bytes();
    let b = spec_serialize_find_value_response(key, node, data);
    let klen = key.len() as int;
    assert(b.subrange(0, 4) =~= spec_u32_to_le_bytes(MessageType::FindValueResponse.code()));
    assert(b.subrange(4, 8) =~= spec_u32_to_le_bytes(key.len() as u32));
    assert(b.subrange(8, 8 + klen) =~= key);
    match node {
        Some(ep) => {
            lemma_endpoint_round_trip(ep);
            assert(b.subrange(8 + klen, 12 + klen) =~= spec_u32_to_le_bytes(1));
            assert(b.subrange(12 + klen, 18 + klen) =~= ep.spec_bytes());
            assert(b.subrange(18 + klen, 22 + klen) =~= spec_u32_to_le_bytes(0));
            assert(b.subrange(22 + klen, 26 + klen) =~= spec_u32_to_le_bytes(0));
            assert(b.len() == 26 + klen);
        },
        None => {
            let d = data.unwrap();
            let dlen = d.len() as int;
            assert(b.subrange(8 + klen, 12 + klen) =~= spec_u32_to_le_bytes(0));
            assert(b.subrange(18 + klen, 22 + klen) =~= spec_u32_to_le_bytes(1));
            assert(b.subrange(22 + klen, 26 + klen) =~= spec_u32_to_le_bytes(d.len() as u32));
            assert(b.subrange(26 + klen, 26 + klen + dlen) =~= d);
            assert(b.len() == 26 + klen + dlen);
        },
    }
    assert(spec_parse_find_value_response(b) == Some((key, node, data)));
}

/// Either the value for the key, or one peer closer to it.
#[derive(Debug, PartialEq)]
pub struct FindValueResponseMessage {
    pub key: Vec<u8>,
    pub node: Option<Endpoint>,
    pub data: Option<Vec<u8>>,
}

impl FindValueResponseMessage {
    /// Exactly one of `node` and `data` must be given.
    pub fn new(key: &[u8], node: Option<&Endpoint>, data: Option<&[u8]>) -> (r:
        FindValueResponseMessage)
        requires
            node is Some <==> data is None,
        ensures
            r.key@ == key@,
            r.node == (match node {
                Some(ep) => Some(*ep),
                None => None::<Endpoint>,
            }),
            (match r.data {
                Some(d) => Some(d@),
                None => None::<Seq<u8>>,
            }) == (match data {
                Some(d) => Some(d@),
                None => None::<Seq<u8>>,
            }),
    {
        match (node, data) {
            (Some(ep), None) => FindValueResponseMessage {
                key: vstd::slice::slice_to_vec(key),
                node: Some(*ep),
                data: None,
            },
            (None, Some(d)) => FindValueResponseMessage {
                key: vstd::slice::slice_to_vec(key),
                node: None,
                data: Some(vstd::slice::slice_to_vec(d)),
            },
            _ => {
                proof {
                    assert(false);
                }
                FindValueResponseMessage {
                    key: vstd::slice::slice_to_vec(key),
                    node: None,
                    data: None,
                }
            },
        }
    }

    pub fn from_bytes(bytes: &[u8]) -> (r: Result<
        (MessageHeader, FindValueResponseMessage),
        CoreError,
    >)
        ensures
            match r {
                Ok(p) => {
                    &&& p.0.message_type == spec_u32_from_le_bytes(bytes@.subrange(0, 4))
                    &&& spec_parse_find_value_response(bytes@) == Some(
                        (
                            p.1.key@,
                            p.1.node,
                            match p.1.data {
                                Some(d) => Some(d@),
                                None => None::<Seq<u8>>,
                            },
                        ),
                    )
                    &&& (p.1.node is Some <==> p.1.data is None)
                },
                Err(e) => spec_parse_find_value_response(bytes@) is None && e
                    == CoreError::Protocol,
            },
    {
        let len = bytes.len();
        if len < 8 {
            return Err(CoreError::Protocol);
        }
        let t = read_u32_le(bytes, 0);
        let klen = read_u32_le(bytes, 4) as usize;
        if 8 + (klen as u64) + 18 > len as u64 {
            return Err(CoreError::Protocol);
        }
        let key = copy_range(bytes, 8, 8 + klen);
        let ntag = read_u32_le(bytes, 8 + klen);
        let dtag = read_u32_le(bytes, 18 + klen);
        if (ntag as u64) + (dtag as u64) != 1 {
            return Err(CoreError::Protocol);
        }
        if ntag == 1 {
            if (len as u64) != 8 + (klen as u64) + 18 || read_u32_le(bytes, 22 + klen) != 0 {
                return Err(CoreError::Protocol);
            }
            let ep = Endpoint::from_bytes(bytes, 12 + klen);
            Ok(
                (
                    MessageHeader { message_type: t },
                    FindValueResponseMessage { key, node: Some(ep), data: None },
                ),
            )
        } else {
            let dlen = read_u32_le(bytes, 22 + klen) as usize;
            if (len as u64) != 26 + (klen as u64) + (dlen as u64) {
                return Err(CoreError::Protocol);
            }
            let data = copy_range(bytes, 26 + klen, 26 + klen + dlen);
            Ok(
                (
                    MessageHeader { message_type: t },
                    FindValueResponseMessage { key, node: None, data: Some(data) },
                ),
            )
        }
    }

    pub fn to_bytes(&self) -> (r: Vec<u8>)
        requires
            self.node is Some <==> self.data is None,
            self.key@.len() <= u32::MAX,
            26 + self.key@.len() + (match self.data {
                Some(d) => d@.len(),
                None => 0,
            }) <= u32::MAX,
        ensures
            r@ == spec_serialize_find_value_response(
                self.key@,
                self.node,
                match self.data {
                    Some(d) => Some(d@),
                    None => None::<Seq<u8>>,
                },
            ),
    {
        proof {
            lemma_auto_spec_u32_to_from_le_bytes();
        }
        let mut out: Vec<u8> = Vec::new();
        push_u32_le(&mut out, MessageType::FindValueResponse.as_u32());
        push_u32_le(&mut out, self.key.len() as u32);
        push_bytes(&mut out, self.key.as_slice());
        match &self.node {
            Some(ep) => {
                push_u32_le(&mut out, 1);
                let ep_bytes = ep.to_bytes();
                push_bytes(&mut out, ep_bytes.as_slice());
            },
            None => {
                push_u32_le(&mut out, 0);
                let mut z: usize = 0;
                while z < 6
                    invariant
                        z <= 6,
                        out@.len() == 12 + self.key@.len() + z,
                        out@ == spec_u32_to_le_bytes(MessageType::FindValueResponse.code())
                            + spec_u32_to_le_bytes(self.key@.len() as u32) + self.key@
                            + spec_u32_to_le_bytes(0) + Seq::new(z as nat, |i: int| 0u8),
                    decreases 6 - z,
                {
                    out.push(0u8);
                    proof {
                        assert(out@ =~= spec_u32_to_le_bytes(MessageType::FindValueResponse.code())
                            + spec_u32_to_le_bytes(self.key@.len() as u32) + self.key@
                            + spec_u32_to_le_bytes(0) + Seq::new((z + 1) as nat, |i: int| 0u8));
                    }
                    z = z + 1;
                }
            },
        }
        match &self.data {
            Some(d) => {
                push_u32_le(&mut out, 1);
                push_u32_le(&mut out, d.len() as u32);
                push_bytes(&mut out, d.as_slice());
            },
            None => {
                push_u32_le(&mut out, 0);
                push_u32_le(&mut out, 0);
            },
        }
        proof {
            assert(out@ =~= spec_serialize_find_value_response(
                self.key@,
                self.node,
                match self.data {
                    Some(d) => Some(d@),
                    None => None::<Seq<u8>>,
                },
            ));
        }
        out
    }
}

} // verus!
