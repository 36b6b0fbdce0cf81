use dyndns::cloudflare::{
    ProviderError, ProviderErrorKind, RawRecord, ZoneInfo, collect_entries, entry_from_record,
    mutation_outcome, resolve_zone,
};
use dyndns::provider::{DnsRecordType, Origin};

fn zone(id: &str, name: &str) -> ZoneInfo {
    ZoneInfo { id: id.to_string(), name: name.to_string() }
}

fn raw(id: &str, typ: &str, name: &str, content: &str) -> RawRecord {
    RawRecord {
        id: id.to_string(),
        typ: typ.to_string(),
        name: name.to_string(),
        content: content.to_string(),
    }
}

#[test]
fn single_matching_zone_resolves() {
    let origin = Origin("example.com".to_string());
    let zones = vec![zone("z1", "example.com")];
    assert_eq!(resolve_zone(&zones, &origin).unwrap(), "z1");
}

#[test]
fn multiple_zones_are_ambiguous() {
    let origin = Origin("example.com".to_string());
    let zones = vec![zone("z1", "example.com"), zone("z2", "example.com.bak")];
    let e = resolve_zone(&zones, &origin).unwrap_err();
    assert_eq!(e.kind, ProviderErrorKind::AmbiguousZone);
}

#[test]
fn zero_zones_are_not_found() {
    let origin = Origin("example.com".to_string());
    let zones: Vec<ZoneInfo> = Vec::new();
    let e = resolve_zone(&zones, &origin).unwrap_err();
    assert_eq!(e.kind, ProviderErrorKind::ZoneNotFound);
}

#[test]
fn wrong_zone_name_is_not_found() {
    let origin = Origin("example.com".to_string());
    let zones = vec![zone("z1", "example.org")];
    let e = resolve_zone(&zones, &origin).unwrap_err();
    assert_eq!(e.kind, ProviderErrorKind::ZoneNotFound);
}

#[test]
fn address_records_convert() {
    let e = entry_from_record(&raw("1", "A", "h.example.com", "1.1.1.1")).unwrap();
    assert_eq!(e.typ, DnsRecordType::A);
    assert_eq!(e.id.0, "1");
    assert_eq!(e.name, "h.example.com");
    assert_eq!(e.content, "1.1.1.1");
    let e = entry_from_record(&raw("2", "AAAA", "h.example.com", "::1")).unwrap();
    assert_eq!(e.typ, DnsRecordType::AAAA);
}

#[test]
fn unsupported_record_types_are_dropped() {
    assert!(entry_from_record(&raw("3", "TXT", "h.example.com", "v=spf1")).is_none());
    assert!(entry_from_record(&raw("4", "MX", "example.com", "mail")).is_none());
    let out = collect_entries(&vec![
        raw("1", "A", "h.example.com", "1.1.1.1"),
        raw("3", "TXT", "h.example.com", "v=spf1"),
        raw("2", "AAAA", "h.example.com", "::1"),
    ]);
    assert_eq!(out.len(), 2);
    assert_eq!(out[0].id.0, "1");
    assert_eq!(out[1].id.0, "2");
}

#[test]
fn mutation_status_is_judged() {
    assert!(mutation_outcome(200).is_ok());
    assert!(mutation_outcome(204).is_ok());
    assert!(mutation_outcome(299).is_ok());
    let e = mutation_outcome(404).unwrap_err();
    assert_eq!(e.kind, ProviderErrorKind::BackendRejection);
    assert!(mutation_outcome(500).is_err());
    assert!(mutation_outcome(199).is_err());
    assert!(mutation_outcome(300).is_err());
}

#[test]
fn error_context_keeps_order() {
    let mut e = ProviderError::new(ProviderErrorKind::Transport);
    assert_eq!(e.context.len(), 0);
    e.attach("origin: 'example.com'".to_string());
    e.attach("record_id: '1'".to_string());
    assert_eq!(
        e.context,
        vec!["origin: 'example.com'".to_string(), "record_id: '1'".to_string()]
    );
    assert_eq!(e.kind, ProviderErrorKind::Transport);
}

#[test]
fn kind_texts() {
    assert_eq!(
        ProviderError::new(ProviderErrorKind::Transport).kind_text(),
        "error calling the DNS backend"
    );
    assert_eq!(
        ProviderError::new(ProviderErrorKind::AmbiguousZone).kind_text(),
        "multiple zones found for origin"
    );
    assert_eq!(
        ProviderError::new(ProviderErrorKind::ZoneNotFound).kind_text(),
        "no zone found for origin"
    );
    assert_eq!(
        ProviderError::new(ProviderErrorKind::BackendRejection).kind_text(),
        "DNS backend rejected the request"
    );
}
