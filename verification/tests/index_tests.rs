use oida::index::{EventIndex, TopologyEvent, ClientEvent};
use oida::parse::Parser;

fn feed_line(index: &mut EventIndex, parser: &Parser, line: &str) {
    if let Some(logline) = parser.parse(line).unwrap() {
        index.feed(logline);
    }
}

#[test]
fn two_topology_lines_produce_two_topology_events_in_order() {
    let parser = Parser::new().unwrap();
    let mut index = EventIndex::new();
    feed_line(&mut index, &parser, "2018-01-01T00:00:00,000 1 | INFO  | Connecting Node 10.0.0.1/bucket");
    feed_line(&mut index, &parser, "2018-01-01T00:00:01,000 1 | INFO  | Removing and disconnecting node 10.0.0.1/bucket");
    assert_eq!(index.topo_events.len(), 2);
    assert_eq!(index.client_events.len(), 0);
    assert_eq!(index.error_events.len(), 0);
    match &index.topo_events[0] {
        TopologyEvent::ConnectingNode(t, host) => {
            assert_eq!(host.as_str(), "10.0.0.1");
            assert_eq!(t.second, 0);
        },
        other => panic!("expected a connecting event, got {:?}", other),
    }
    match &index.topo_events[1] {
        TopologyEvent::DisconnectingNode(t, host) => {
            assert_eq!(host.as_str(), "10.0.0.1");
            assert_eq!(t.second, 1);
        },
        other => panic!("expected a disconnecting event, got {:?}", other),
    }
}

#[test]
fn unmatched_lines_add_no_events_and_raise_no_error() {
    let parser = Parser::new().unwrap();
    let mut index = EventIndex::new();
    feed_line(&mut index, &parser, "");
    feed_line(&mut index, &parser, "2018-01-01T00:00:00,000 1 | INFO  | nothing interesting here");
    assert_eq!(index.topo_events.len(), 0);
    assert_eq!(index.client_events.len(), 0);
    assert_eq!(index.error_events.len(), 0);
}

#[test]
fn hostname_capture_stops_at_the_slash() {
    let parser = Parser::new().unwrap();
    let mut index = EventIndex::new();
    feed_line(&mut index, &parser, "2018-01-01T00:00:00,000 1 | INFO  | Connecting Node example.com/b1");
    match &index.topo_events[0] {
        TopologyEvent::ConnectingNode(_, host) => assert_eq!(host.as_str(), "example.com"),
        other => panic!("expected a connecting event, got {:?}", other),
    }
}

#[test]
fn hostname_capture_runs_to_the_end_without_a_slash() {
    let parser = Parser::new().unwrap();
    let mut index = EventIndex::new();
    feed_line(&mut index, &parser, "2018-01-01T00:00:00,000 1 | INFO  | Connecting Node example.com");
    match &index.topo_events[0] {
        TopologyEvent::ConnectingNode(_, host) => assert_eq!(host.as_str(), "example.com"),
        other => panic!("expected a connecting event, got {:?}", other),
    }
}

#[test]
fn a_client_environment_line_produces_one_client_event() {
    let parser = Parser::new().unwrap();
    let mut index = EventIndex::new();
    feed_line(
        &mut index,
        &parser,
        "2018-01-01T00:00:02,000 1 | INFO  | CouchbaseEnvironment: {sslEnabled=true, connectTimeout=5000}",
    );
    assert_eq!(index.topo_events.len(), 0);
    assert_eq!(index.client_events.len(), 1);
    let ClientEvent::ClientInit(t, settings) = &index.client_events[0];
    assert_eq!(t.second, 2);
    assert_eq!(settings.len(), 2);
    assert_eq!(settings.get("sslEnabled").unwrap(), "true");
    assert_eq!(settings.get("connectTimeout").unwrap(), "5000");
    let diff = settings.non_defaults();
    assert_eq!(diff.len(), 1);
    assert_eq!(diff.get("sslEnabled").unwrap(), "false");
}

#[test]
fn connecting_takes_precedence_and_only_one_event_is_added() {
    let parser = Parser::new().unwrap();
    let mut index = EventIndex::new();
    feed_line(
        &mut index,
        &parser,
        "2018-01-01T00:00:00,000 1 | INFO  | Connecting Node a/x Removing and disconnecting node b/y",
    );
    assert_eq!(index.topo_events.len(), 1);
    assert_eq!(index.client_events.len(), 0);
    match &index.topo_events[0] {
        TopologyEvent::ConnectingNode(_, host) => assert_eq!(host.as_str(), "a"),
        other => panic!("expected a connecting event, got {:?}", other),
    }
}
