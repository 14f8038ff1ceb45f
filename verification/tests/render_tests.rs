use oida::config::{CheckConfig, ShowConfig, ShowFormat, Config};
use oida::index::EventIndex;
use oida::parse::Parser;
use oida::render::render_topology_report;
use oida::timestamp::Timestamp;

#[test]
fn time_of_day_is_zero_padded() {
    let t = Timestamp::parse("2018-01-01T05:07:09,000").unwrap();
    assert_eq!(t.time_of_day(), "05:07:09");
    let t2 = Timestamp::parse("2018-01-01T23:59:58,000").unwrap();
    assert_eq!(t2.time_of_day(), "23:59:58");
}

#[test]
fn report_has_the_fixed_header_and_one_line_per_event() {
    let parser = Parser::new().unwrap();
    let mut index = EventIndex::new();
    let lines = [
        "2018-01-01T00:00:00,000 1 | INFO  | Connecting Node 10.0.0.1/bucket",
        "2018-01-01T00:00:01,000 1 | INFO  | Removing and disconnecting node 10.0.0.1/bucket",
    ];
    for line in lines.iter() {
        if let Some(logline) = parser.parse(line).unwrap() {
            index.feed(logline);
        }
    }
    let report = render_topology_report(&index);
    assert_eq!(report.len(), 4);
    assert_eq!(report[0], "Topology Events");
    assert_eq!(report[1], "---------------");
    assert_eq!(report[2], "  00:00:00 node + 10.0.0.1");
    assert_eq!(report[3], "  00:00:01 node - 10.0.0.1");
}

#[test]
fn missing_optional_config_fields_use_the_documented_defaults() {
    let check = CheckConfig {
        input: "app.log".to_string(),
        output: None,
        pattern: "".to_string(),
    };
    assert_eq!(check.resolved_output(), "index.oida");
    let check2 = CheckConfig {
        input: "app.log".to_string(),
        output: Some("out.bin".to_string()),
        pattern: "".to_string(),
    };
    assert_eq!(check2.resolved_output(), "out.bin");
    let show = ShowConfig { input: None, format: None };
    assert_eq!(show.resolved_input(), "index.oida");
    assert_eq!(show.resolved_format(), ShowFormat::Cli);
    let config = Config { show: Some(show), check: Some(check) };
    assert!(config.check.is_some());
    assert!(config.show.is_some());
}
