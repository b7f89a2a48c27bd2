use portalnet::jsonrpc::{
    plan, probe, reply, Action, EndpointKind, Event, NetworkRequest, Reply,
};
use portalnet::key::NodeId;

fn texts(items: &[&str]) -> Reply {
    Reply::List(items.iter().map(|s| s.to_string()).collect())
}

#[test]
fn local_endpoints_are_read_locally() {
    assert_eq!(plan(EndpointKind::NodeInfo), Action::ReadLocalRecord);
    assert_eq!(plan(EndpointKind::RoutingTableInfo), Action::ReadRoutingTable);
}

#[test]
fn network_endpoints_are_sent() {
    assert_eq!(
        plan(EndpointKind::Ping),
        Action::Send(NetworkRequest::Ping { data_radius: u64::MAX })
    );
    assert_eq!(
        plan(EndpointKind::FindNodes),
        Action::Send(NetworkRequest::FindNodes { distances: vec![122; 32] })
    );
    assert_eq!(
        plan(EndpointKind::FindContent),
        Action::Send(NetworkRequest::FindContent { content_key: vec![111; 32] })
    );
}

#[test]
fn other_endpoints_are_ignored() {
    assert_eq!(plan(EndpointKind::Other), Action::Ignore);
}

#[test]
fn a_record_is_replied_as_it_is() {
    assert_eq!(
        reply(Event::LocalRecord("enr:-IS4Q".to_string())),
        Reply::Text("enr:-IS4Q".to_string())
    );
}

#[test]
fn a_routing_table_is_replied_in_short_notation() {
    let mut a = [0u8; 32];
    a[0] = 0xab;
    a[1] = 0x0c;
    a[2] = 0xff;
    a[29] = 0xff;
    a[30] = 0x09;
    a[31] = 0xf0;
    let b = [0x11u8; 32];
    assert_eq!(
        reply(Event::RoutingTable(vec![NodeId { raw: a }, NodeId { raw: b }])),
        texts(&["0xab0c..09f0", "0x1111..1111"])
    );
    assert_eq!(reply(Event::RoutingTable(Vec::new())), texts(&[]));
}

#[test]
fn an_answer_is_replied_byte_by_byte() {
    assert_eq!(
        reply(Event::Answer(vec![0, 7, 10, 99, 100, 255])),
        texts(&["0", "7", "10", "99", "100", "255"])
    );
    assert_eq!(reply(Event::Answer(Vec::new())), texts(&[]));
}

#[test]
fn a_probe_has_one_request_of_each_kind() {
    assert_eq!(
        probe(),
        vec![
            NetworkRequest::Ping { data_radius: u64::MAX },
            NetworkRequest::FindNodes { distances: vec![122; 32] },
            NetworkRequest::FindContent { content_key: vec![100; 32] },
        ]
    );
}
