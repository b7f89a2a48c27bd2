//! How requests for the node's JSON-RPC endpoints are served, and with which
//! requests a peer is probed.

use vstd::prelude::*;

use crate::key::NodeId;

verus! {

/// The endpoints that a client can ask for.
#[derive(Clone, Copy, PartialEq, Eq, Structural, Debug)]
pub enum EndpointKind {
    NodeInfo,
    RoutingTableInfo,
    Ping,
    FindNodes,
    FindContent,
    /// Any endpoint that is served elsewhere.
    Other,
}

/// A request to another node of the overlay network.
#[derive(Clone, PartialEq, Eq, Debug)]
pub enum NetworkRequest {
    Ping { data_radius: u64 },
    FindNodes { distances: Vec<u16> },
    FindContent { content_key: Vec<u8> },
}

/// What is to be done about a request of a client.
#[derive(Clone, PartialEq, Eq, Debug)]
pub enum Action {
    /// Read the record of the local node.
    ReadLocalRecord,
    /// Read the identifiers of the nodes in the routing table.
    ReadRoutingTable,
    /// Send a request to the target node and wait for the answer.
    Send(NetworkRequest),
    /// Nothing; the client gets no reply.
    Ignore,
}

/// What has come of an action.
#[derive(Clone, PartialEq, Eq, Debug)]
pub enum Event {
    /// The record of the local node, as text.
    LocalRecord(String),
    /// The identifiers of the nodes in the routing table.
    RoutingTable(Vec<NodeId>),
    /// The bytes that the target node has answered.
    Answer(Vec<u8>),
}

/// A reply to a client: a JSON string or a JSON array of strings.
#[derive(Clone, PartialEq, Eq, Debug)]
pub enum Reply {
    Text(String),
    List(Vec<String>),
}

/// The character of a decimal or hexadecimal digit.
pub open spec fn digit(n: nat) -> char {
    if n < 10 {
        (48 + n) as char
    } else {
        (87 + n) as char
    }
}

/// The decimal notation of a number.
pub open spec fn decimal(n: nat) -> Seq<char>
    decreases n,
{
    if n < 10 {
        seq![digit(n)]
    } else {
        decimal(n / 10).push(digit(n % 10))
    }
}

/// The two lower-case hexadecimal digits of a byte.
pub open spec fn hex(byte: u8) -> Seq<char> {
    seq![digit(byte as nat / 16), digit(byte as nat % 16)]
}

/// The short notation of a node's identifier: its first and its last two bytes.
pub open spec fn short_notation(raw: [u8; 32]) -> Seq<char> {
    seq!['0', 'x'] + hex(raw[0]) + hex(raw[1]) + seq!['.', '.'] + hex(raw[30]) + hex(raw[31])
}

/// The JSON text of a byte.
///
/// Calls `serde_json::to_string` on the byte. Trusted: that it writes a number
/// in decimal notation, and that writing a number to a string does not fail.
#[verifier::external_body]
fn json_of_byte(byte: u8) -> (r: String)
    ensures
        r@ == decimal(byte as nat),
{
    serde_json::to_string(&byte).unwrap()
}

/// The text of a node's identifier.
///
/// Calls `to_string` on a `discv5::enr::NodeId` made of the raw bytes. Trusted:
/// that its `Display` writes `0x`, the first two bytes, two dots, and the last
/// two bytes, the bytes in lower-case hexadecimal digits.
#[verifier::external_body]
fn text_of_node_id(raw: &[u8; 32]) -> (r: String)
    ensures
        r@ == short_notation(*raw),
{
    discv5::enr::NodeId::new(raw).to_string()
}

/// What is to be done about a request for an endpoint.
pub fn plan(kind: EndpointKind) -> (r: Action)
    ensures
        match kind {
            EndpointKind::NodeInfo => r is ReadLocalRecord,
            EndpointKind::RoutingTableInfo => r is ReadRoutingTable,
            EndpointKind::Ping => r == Action::Send(
                NetworkRequest::Ping { data_radius: u64::MAX },
            ),
            EndpointKind::FindNodes => r matches Action::Send(
                NetworkRequest::FindNodes { distances },
            ) && distances@ == Seq::new(32, |i: int| 122u16),
            EndpointKind::FindContent => r matches Action::Send(
                NetworkRequest::FindContent { content_key },
            ) && content_key@ == Seq::new(32, |i: int| 111u8),
            EndpointKind::Other => r is Ignore,
        },
{
    match kind {
        EndpointKind::NodeInfo => Action::ReadLocalRecord,
        EndpointKind::RoutingTableInfo => Action::ReadRoutingTable,
        EndpointKind::Ping => Action::Send(NetworkRequest::Ping { data_radius: u64::MAX }),
        EndpointKind::FindNodes => {
            let distances: Vec<u16> = vec![122;32];
            assert(distances@ =~= Seq::new(32, |i: int| 122u16));
            Action::Send(NetworkRequest::FindNodes { distances })
        },
        EndpointKind::FindContent => {
            let content_key: Vec<u8> = vec![111;32];
            assert(content_key@ =~= Seq::new(32, |i: int| 111u8));
            Action::Send(NetworkRequest::FindContent { content_key })
        },
        EndpointKind::Other => Action::Ignore,
    }
}

/// The reply to the client once the planned action is done.
pub fn reply(event: Event) -> (r: Reply)
    ensures
        match event {
            Event::LocalRecord(record) => r matches Reply::Text(text) && text@ == record@,
            Event::RoutingTable(ids) => {
                &&& r matches Reply::List(items)
                &&& items@.len() == ids@.len()
                &&& forall|i: int|
                    0 <= i < items@.len() ==> (#[trigger] items@[i])@ == short_notation(
                        ids@[i].raw,
                    )
            },
            Event::Answer(bytes) => {
                &&& r matches Reply::List(items)
                &&& items@.len() == bytes@.len()
                &&& forall|i: int|
                    0 <= i < items@.len() ==> (#[trigger] items@[i])@ == decimal(bytes@[i] as nat)
            },
        },
{
    match event {
        Event::LocalRecord(record) => Reply::Text(record),
        Event::RoutingTable(ids) => {
            let mut items: Vec<String> = Vec::new();
            let mut i: usize = 0;
            while i < ids.len()
                invariant
                    i <= ids@.len(),
                    items@.len() == i,
                    forall|j: int|
                        0 <= j < i ==> (#[trigger] items@[j])@ == short_notation(ids@[j].raw),
                decreases ids@.len() - i,
            {
                items.push(text_of_node_id(&ids[i].raw));
                i = i + 1;
            }
            Reply::List(items)
        },
        Event::Answer(bytes) => {
            let mut items: Vec<String> = Vec::new();
            let mut i: usize = 0;
            while i < bytes.len()
                invariant
                    i <= bytes@.len(),
                    items@.len() == i,
                    forall|j: int|
                        0 <= j < i ==> (#[trigger] items@[j])@ == decimal(bytes@[j] as nat),
                decreases bytes@.len() - i,
            {
                items.push(json_of_byte(bytes[i]));
                i = i + 1;
            }
            Reply::List(items)
        },
    }
}

/// The requests with which a node is probed, in this order: one of each kind.
pub fn probe() -> (r: Vec<NetworkRequest>)
    ensures
        r@.len() == 3,
        r@[0] == (NetworkRequest::Ping { data_radius: u64::MAX }),
        r@[1] matches NetworkRequest::FindNodes { distances } && distances@ == Seq::new(
            32,
            |i: int| 122u16,
        ),
        r@[2] matches NetworkRequest::FindContent { content_key } && content_key@ == Seq::new(
            32,
            |i: int| 100u8,
        ),
{
    let distances: Vec<u16> = vec![122;32];
    assert(distances@ =~= Seq::new(32, |i: int| 122u16));
    let content_key: Vec<u8> = vec![100;32];
    assert(content_key@ =~= Seq::new(32, |i: int| 100u8));
    let mut requests: Vec<NetworkRequest> = Vec::new();
    requests.push(NetworkRequest::Ping { data_radius: u64::MAX });
    requests.push(NetworkRequest::FindNodes { distances });
    requests.push(NetworkRequest::FindContent { content_key });
    requests
}

/// The number that a decimal notation stands for.
pub open spec fn decimal_value(text: Seq<char>) -> int
    decreases text.len(),
{
    if text.len() == 0 {
        0
    } else {
        decimal_value(text.drop_last()) * 10 + (text.last() as int - '0' as int)
    }
}

/// The decimal notation of a number is made of the digits from 0 to 9, starts
/// with 0 for zero alone, and reads back as the number.
pub proof fn decimal_reads_back(n: nat)
    ensures
        decimal(n).len() > 0,
        forall|i: int| 0 <= i < decimal(n).len() ==> '0' <= #[trigger] decimal(n)[i] <= '9',
        decimal(n)[0] == '0' <==> n == 0,
        decimal_value(decimal(n)) == n,
    decreases n,
{
    if n >= 10 {
        decimal_reads_back(n / 10);
        assert(decimal(n).drop_last() =~= decimal(n / 10));
    } else {
        assert(decimal(n).drop_last() =~= Seq::empty());
        assert(decimal_value(decimal(n).drop_last()) == 0);
    }
}

/// The value of a lower-case hexadecimal digit.
pub open spec fn hex_value(digit: char) -> int {
    if '0' <= digit <= '9' {
        digit as int - '0' as int
    } else {
        digit as int - 'a' as int + 10
    }
}

/// A byte is written as two lower-case hexadecimal digits, the higher one first.
pub proof fn hex_reads_back(byte: u8)
    ensures
        hex(byte).len() == 2,
        forall|i: int|
            0 <= i < 2 ==> '0' <= #[trigger] hex(byte)[i] <= '9' || 'a' <= hex(byte)[i] <= 'f',
        hex_value(hex(byte)[0]) * 16 + hex_value(hex(byte)[1]) == byte,
{
}

/// The short notation of an identifier is `0x`, four digits, two dots and four
/// digits; the digits are those of the first two and of the last two bytes.
pub proof fn short_notation_reads_back(raw: [u8; 32])
    ensures
        ({
            let text = short_notation(raw);
            &&& text.len() == 12
            &&& text[0] == '0'
            &&& text[1] == 'x'
            &&& hex_value(text[2]) * 16 + hex_value(text[3]) == raw[0]
            &&& hex_value(text[4]) * 16 + hex_value(text[5]) == raw[1]
            &&& text[6] == '.'
            &&& text[7] == '.'
            &&& hex_value(text[8]) * 16 + hex_value(text[9]) == raw[30]
            &&& hex_value(text[10]) * 16 + hex_value(text[11]) == raw[31]
        }),
{
    hex_reads_back(raw[0]);
    hex_reads_back(raw[1]);
    hex_reads_back(raw[30]);
    hex_reads_back(raw[31]);
}

} // verus!
