use dyndns::dyndns::{
    ParsedIpUpdate, Reconciliation, UpdateQuery, UpdateRejection, success_body, validate_request,
};

fn query(hostname: &str, myip: &str) -> UpdateQuery {
    UpdateQuery { hostname: hostname.to_string(), myip: myip.to_string() }
}
use dyndns::provider::{DnsEntry, DnsRecordType, Origin, RecordId};

fn a_record(name: &str, id: &str, content: &str) -> DnsEntry {
    DnsEntry {
        typ: DnsRecordType::A,
        id: RecordId(id.to_string()),
        name: name.to_string(),
        content: content.to_string(),
    }
}

fn aaaa_record(name: &str, id: &str, content: &str) -> DnsEntry {
    DnsEntry {
        typ: DnsRecordType::AAAA,
        id: RecordId(id.to_string()),
        name: name.to_string(),
        content: content.to_string(),
    }
}

#[test]
fn origin_subdomain_policy() {
    let origin = Origin("example.com".to_string());
    assert!(origin.is_subdomain("sub.example.com"));
    assert!(!origin.is_subdomain("example.com"));
    assert!(!origin.is_subdomain("evilexample.com"));
    assert!(origin.is_subdomain("a.b.example.com"));
    assert!(!origin.is_subdomain("sub.example.org"));
    assert!(!origin.is_subdomain(""));
}

#[test]
fn single_matching_record_is_updated_once() {
    let records = vec![a_record("h.example.com", "1", "1.1.1.1")];
    let hostname = "h.example.com".to_string();
    let update = ParsedIpUpdate::from_str("2.2.2.2").unwrap();
    let mut rec = Reconciliation::new(&records, &hostname, &update);
    // exactly one mutation: record id "1" set to "2.2.2.2"
    assert_eq!(rec.plan.len(), 1);
    let (id, content) = rec.next_call().unwrap();
    assert_eq!(id.0, "1");
    assert_eq!(content, "2.2.2.2");
    rec.record_success();
    assert!(rec.next_call().is_none());
    assert_eq!(success_body(&rec.applied), "good 2.2.2.2");
}

#[test]
fn unmatched_type_is_skipped_silently() {
    let records = vec![a_record("h.example.com", "1", "1.1.1.1")];
    let hostname = "h.example.com".to_string();
    let update = ParsedIpUpdate::from_str("2.2.2.2,::1").unwrap();
    let mut rec = Reconciliation::new(&records, &hostname, &update);
    // only the A pair matches; no mutation is planned for the AAAA pair
    assert_eq!(rec.plan.len(), 1);
    let (id, content) = rec.next_call().unwrap();
    assert_eq!(id.0, "1");
    assert_eq!(content, "2.2.2.2");
    rec.record_success();
    assert!(rec.next_call().is_none());
    assert_eq!(success_body(&rec.applied), "good 2.2.2.2");
}

#[test]
fn no_matching_record_yields_empty_success() {
    let records = vec![a_record("other.example.com", "1", "1.1.1.1")];
    let hostname = "h.example.com".to_string();
    let update = ParsedIpUpdate::from_str("2.2.2.2,::1").unwrap();
    let mut rec = Reconciliation::new(&records, &hostname, &update);
    // zero mutations, and the response body is an empty success
    assert_eq!(rec.plan.len(), 0);
    assert!(rec.next_call().is_none());
    assert_eq!(success_body(&rec.applied), "");
}

#[test]
fn failure_after_partial_application_keeps_prior_update() {
    let records = vec![
        a_record("h.example.com", "1", "1.1.1.1"),
        aaaa_record("h.example.com", "2", "::9"),
    ];
    let hostname = "h.example.com".to_string();
    let update = ParsedIpUpdate::from_str("2.2.2.2,::1").unwrap();
    let mut rec = Reconciliation::new(&records, &hostname, &update);
    assert_eq!(rec.plan.len(), 2);
    // first mutation succeeds
    let (id, content) = rec.next_call().unwrap();
    assert_eq!(id.0, "1");
    assert_eq!(content, "2.2.2.2");
    rec.record_success();
    // the second mutation fails at the provider: the caller aborts
    // without recording it, and the applied list keeps the first
    let (id, content) = rec.next_call().unwrap();
    assert_eq!(id.0, "2");
    assert_eq!(content, "::1");
    assert_eq!(rec.applied, vec!["2.2.2.2".to_string()]);
}

#[test]
fn first_record_of_each_type_wins() {
    let records = vec![
        a_record("h.example.com", "1", "1.1.1.1"),
        a_record("h.example.com", "7", "3.3.3.3"),
    ];
    let hostname = "h.example.com".to_string();
    let update = ParsedIpUpdate::from_str("2.2.2.2").unwrap();
    let rec = Reconciliation::new(&records, &hostname, &update);
    assert_eq!(rec.plan.len(), 1);
    assert_eq!(rec.plan[0].0 .0, "1");
}

#[test]
fn duplicate_pairs_can_hit_the_same_record() {
    let records = vec![a_record("h.example.com", "1", "1.1.1.1")];
    let hostname = "h.example.com".to_string();
    let update = ParsedIpUpdate::from_str("2.2.2.2,3.3.3.3").unwrap();
    let rec = Reconciliation::new(&records, &hostname, &update);
    assert_eq!(rec.plan.len(), 2);
    assert_eq!(rec.plan[0].0 .0, "1");
    assert_eq!(rec.plan[0].1, "2.2.2.2");
    assert_eq!(rec.plan[1].0 .0, "1");
    assert_eq!(rec.plan[1].1, "3.3.3.3");
}

#[test]
fn records_for_other_hostnames_are_ignored() {
    let records = vec![
        a_record("x.example.com", "5", "9.9.9.9"),
        a_record("h.example.com", "1", "1.1.1.1"),
    ];
    let hostname = "h.example.com".to_string();
    let update = ParsedIpUpdate::from_str("2.2.2.2").unwrap();
    let rec = Reconciliation::new(&records, &hostname, &update);
    assert_eq!(rec.plan.len(), 1);
    assert_eq!(rec.plan[0].0 .0, "1");
}

#[test]
fn foreign_hostname_is_rejected_whatever_myip_says() {
    let origin = Origin("example.com".to_string());
    // a valid address list still cannot touch a foreign hostname
    match validate_request(&origin, &query("other.com", "2.2.2.2")) {
        Err(UpdateRejection::NotSubdomain) => {}
        other => panic!("unexpected: {:?}", other),
    }
    // an invalid address list is rejected as well (the parse error wins)
    assert!(validate_request(&origin, &query("other.com", "not-an-ip")).is_err());
}

#[test]
fn valid_request_passes_validation() {
    let origin = Origin("example.com".to_string());
    let update = validate_request(&origin, &query("h.example.com", "2.2.2.2,::1")).unwrap();
    assert_eq!(update.record_update.len(), 2);
}

#[test]
fn invalid_myip_is_rejected_first() {
    let origin = Origin("example.com".to_string());
    match validate_request(&origin, &query("h.example.com", "nope")) {
        Err(UpdateRejection::InvalidIp { error }) => {
            assert_eq!(error.message(), "IP part 'nope' is neither IPv4 nor IPv6");
        }
        other => panic!("unexpected: {:?}", other),
    }
}

#[test]
fn success_body_joins_lines_in_order() {
    let applied = vec!["2.2.2.2".to_string(), "::1".to_string()];
    assert_eq!(success_body(&applied), "good 2.2.2.2\ngood ::1");
    let empty: Vec<String> = Vec::new();
    assert_eq!(success_body(&empty), "");
}
