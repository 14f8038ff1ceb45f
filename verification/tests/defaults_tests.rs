use oida::settings::ClientSettings;

#[test]
fn diff_surfaces_changed_and_unknown_settings() {
    let mut cs = ClientSettings::new();
    cs.insert("sslEnabled".to_string(), "true".to_string());
    cs.insert("unknownKey".to_string(), "z".to_string());
    let diff = cs.non_defaults();
    assert_eq!(diff.len(), 2);
    // a known key that deviates is reported with the expected default value
    assert_eq!(diff.get("sslEnabled").unwrap(), "false");
    // an unknown key is reported with its observed value
    assert_eq!(diff.get("unknownKey").unwrap(), "z");
}

#[test]
fn diff_omits_settings_that_match_their_default() {
    let mut cs = ClientSettings::new();
    cs.insert("sslEnabled".to_string(), "false".to_string());
    cs.insert("connectTimeout".to_string(), "5000".to_string());
    cs.insert("kvTimeout".to_string(), "2500".to_string());
    let diff = cs.non_defaults();
    assert_eq!(diff.len(), 0);
}

#[test]
fn diff_reports_the_expected_value_for_an_exact_mismatch() {
    let mut cs = ClientSettings::new();
    cs.insert("connectTimeout".to_string(), "9999".to_string());
    let diff = cs.non_defaults();
    assert_eq!(diff.len(), 1);
    assert_eq!(diff.get("connectTimeout").unwrap(), "5000");
}

#[test]
fn contains_rule_passes_when_the_substring_occurs() {
    let mut cs = ClientSettings::new();
    cs.insert(
        "requestBufferWaitStrategy".to_string(),
        "com.couchbase.client.core.env.DefaultCoreEnvironment$2@7cd3258b".to_string(),
    );
    let diff = cs.non_defaults();
    assert_eq!(diff.len(), 0);
}

#[test]
fn contains_rule_fails_when_the_substring_is_absent() {
    let mut cs = ClientSettings::new();
    cs.insert("requestBufferWaitStrategy".to_string(), "SomethingElse".to_string());
    let diff = cs.non_defaults();
    assert_eq!(diff.len(), 1);
    assert_eq!(diff.get("requestBufferWaitStrategy").unwrap(), ".DefaultCoreEnvironment");
}
