use oida::index::EventIndex;
use oida::parse::Parser;

fn sample_index() -> EventIndex {
    let parser = Parser::new().unwrap();
    let mut index = EventIndex::new();
    let lines = [
        "2018-01-01T00:00:00,000 1 | INFO  | Connecting Node 10.0.0.1/bucket",
        "2018-01-01T00:00:01,500 1 | INFO  | CouchbaseEnvironment: {sslEnabled=true, b=Foo{x, y}, connectTimeout=5000}",
        "2018-01-01T00:00:02,000 1 | WARN  | Removing and disconnecting node 10.0.0.1/bucket",
    ];
    for line in lines.iter() {
        if let Some(logline) = parser.parse(line).unwrap() {
            index.feed(logline);
        }
    }
    index
}

#[test]
fn an_empty_index_serializes_to_three_zero_counts() {
    let index = EventIndex::new();
    let out = index.serialize().unwrap();
    assert_eq!(out, "000000000000000000000000000000");
}

#[test]
fn round_trip_preserves_sequences_order_and_payloads() {
    let index = sample_index();
    assert_eq!(index.topo_events.len(), 2);
    assert_eq!(index.client_events.len(), 1);
    let out = index.serialize().unwrap();
    let back = EventIndex::deserialize(out.as_str()).unwrap();
    assert_eq!(back.topo_events.len(), 2);
    assert_eq!(back.client_events.len(), 1);
    assert_eq!(back.error_events.len(), 0);
    // re-serializing the reloaded index yields the same container
    let out2 = back.serialize().unwrap();
    assert_eq!(out, out2);
    // and the payloads survive
    let oida::index::ClientEvent::ClientInit(t, settings) = &back.client_events[0];
    assert_eq!(t.nanos, 500);
    assert_eq!(settings.get("sslEnabled").unwrap(), "true");
    assert_eq!(settings.get("b").unwrap(), "Foo{xy}");
}

#[test]
fn round_trip_of_an_empty_index_is_empty() {
    let index = EventIndex::new();
    let out = index.serialize().unwrap();
    let back = EventIndex::deserialize(out.as_str()).unwrap();
    assert_eq!(back.topo_events.len(), 0);
    assert_eq!(back.client_events.len(), 0);
    assert_eq!(back.error_events.len(), 0);
}

#[test]
fn deserialize_rejects_corrupt_containers() {
    assert!(EventIndex::deserialize("").is_none());
    assert!(EventIndex::deserialize("garbage").is_none());
    assert!(EventIndex::deserialize("00000000x0").is_none());
    // a count that promises more events than the text holds
    assert!(EventIndex::deserialize("000000000500000000000000000000").is_none());
    // trailing garbage after a well-formed container
    assert!(EventIndex::deserialize("000000000000000000000000000000x").is_none());
}
