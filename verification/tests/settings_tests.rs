use oida::settings::{extract_client_details, ClientSettings};

#[test]
fn simple_blob_yields_one_pair_per_comma_plus_one() {
    let cs = extract_client_details("a=1, b=2, c=3");
    assert_eq!(cs.len(), 3);
    assert_eq!(cs.get("a").unwrap(), "1");
    assert_eq!(cs.get("b").unwrap(), "2");
    assert_eq!(cs.get("c").unwrap(), "3");
}

#[test]
fn values_of_a_simple_blob_are_taken_verbatim() {
    let cs = extract_client_details("sslEnabled=true, connectTimeout=5000");
    assert_eq!(cs.len(), 2);
    assert_eq!(cs.get("sslEnabled").unwrap(), "true");
    assert_eq!(cs.get("connectTimeout").unwrap(), "5000");
}

#[test]
fn embedded_brace_group_is_glued_back_with_the_comma_dropped() {
    let cs = extract_client_details("a=1, b=Foo{x, y}, c=2");
    assert_eq!(cs.len(), 3);
    assert_eq!(cs.get("a").unwrap(), "1");
    assert_eq!(cs.get("b").unwrap(), "Foo{xy}");
    assert_eq!(cs.get("c").unwrap(), "2");
}

#[test]
fn value_split_happens_at_the_first_equals_sign() {
    let cs = extract_client_details("key=a=b");
    assert_eq!(cs.len(), 1);
    assert_eq!(cs.get("key").unwrap(), "a=b");
}

#[test]
fn leading_continuation_with_no_pair_is_discarded() {
    let cs = extract_client_details("}stray, a=1");
    assert_eq!(cs.len(), 1);
    assert_eq!(cs.get("a").unwrap(), "1");
}

#[test]
fn fragment_ending_in_a_brace_never_opens_a_pair() {
    // even a key=value shaped fragment counts as a continuation when it
    // ends with a closing brace; with no pair before it, it is discarded
    let cs = extract_client_details("a={x}");
    assert_eq!(cs.len(), 0);
}

#[test]
fn duplicate_keys_keep_the_later_value() {
    let cs = extract_client_details("a=1, a=2");
    assert_eq!(cs.len(), 1);
    assert_eq!(cs.get("a").unwrap(), "2");
}

#[test]
fn insert_replaces_in_place_and_get_finds_values() {
    let mut cs = ClientSettings::new();
    assert_eq!(cs.len(), 0);
    cs.insert("k".to_string(), "v1".to_string());
    cs.insert("other".to_string(), "x".to_string());
    cs.insert("k".to_string(), "v2".to_string());
    assert_eq!(cs.len(), 2);
    assert_eq!(cs.get("k").unwrap(), "v2");
    assert_eq!(cs.get("other").unwrap(), "x");
    assert!(cs.get("missing").is_none());
}

#[test]
fn realistic_retry_delay_value_reconstructs_like_the_baseline() {
    let blob = "retryDelay=ExponentialDelay{growBy 1.0 MICROSECONDS, powers of 2; lower=100, upper=100000}, sslEnabled=false";
    let cs = extract_client_details(blob);
    assert_eq!(cs.len(), 2);
    assert_eq!(
        cs.get("retryDelay").unwrap(),
        "ExponentialDelay{growBy 1.0 MICROSECONDSpowers of 2; lower=100upper=100000}"
    );
    assert_eq!(cs.get("sslEnabled").unwrap(), "false");
}
