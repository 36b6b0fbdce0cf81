use dyndns::dyndns::{ParsedIpUpdate, ParseError};
use dyndns::provider::DnsRecordType;

fn pairs_of(s: &str) -> Vec<(DnsRecordType, String)> {
    ParsedIpUpdate::from_str(s).expect("should parse").record_update
}

fn canon(s: &str) -> String {
    let p = pairs_of(s);
    assert_eq!(p.len(), 1);
    p[0].1.clone()
}

#[test]
fn single_ipv4() {
    let p = pairs_of("2.2.2.2");
    assert_eq!(p.len(), 1);
    assert_eq!(p[0].0, DnsRecordType::A);
    assert_eq!(p[0].1, "2.2.2.2");
}

#[test]
fn mixed_ipv4_ipv6() {
    let p = pairs_of("2.2.2.2,::1");
    assert_eq!(p.len(), 2);
    assert_eq!(p[0].0, DnsRecordType::A);
    assert_eq!(p[0].1, "2.2.2.2");
    assert_eq!(p[1].0, DnsRecordType::AAAA);
    assert_eq!(p[1].1, "::1");
}

#[test]
fn one_pair_per_part_in_order() {
    let p = pairs_of("1.2.3.4,fe80::1,10.0.0.1");
    assert_eq!(p.len(), 3);
    assert_eq!(p[0].0, DnsRecordType::A);
    assert_eq!(p[1].0, DnsRecordType::AAAA);
    assert_eq!(p[2].0, DnsRecordType::A);
    assert_eq!(p[1].1, "fe80::1");
}

#[test]
fn duplicate_types_are_retained() {
    let p = pairs_of("1.1.1.1,2.2.2.2");
    assert_eq!(p.len(), 2);
    assert_eq!(p[0].1, "1.1.1.1");
    assert_eq!(p[1].1, "2.2.2.2");
}

#[test]
fn empty_input_is_rejected() {
    assert!(matches!(
        ParsedIpUpdate::from_str(""),
        Err(ParseError::NeitherIpv4NorIpv6 { .. })
    ));
}

#[test]
fn plain_word_is_rejected() {
    match ParsedIpUpdate::from_str("localhost") {
        Err(ParseError::NeitherIpv4NorIpv6 { part }) => assert_eq!(part, "localhost"),
        other => panic!("unexpected: {:?}", other),
    }
}

#[test]
fn one_bad_part_fails_the_whole_update() {
    assert!(ParsedIpUpdate::from_str("1.2.3.4,,5.6.7.8").is_err());
    assert!(ParsedIpUpdate::from_str("1.2.3.4,999.1.1.1").is_err());
}

#[test]
fn ipv4_strictness() {
    assert!(matches!(
        ParsedIpUpdate::from_str("1.2.3"),
        Err(ParseError::InvalidIpv4 { .. })
    ));
    assert!(ParsedIpUpdate::from_str("256.1.1.1").is_err());
    assert!(ParsedIpUpdate::from_str("01.2.3.4").is_err());
    assert!(ParsedIpUpdate::from_str("1.2.3.4.5").is_err());
    assert!(ParsedIpUpdate::from_str("1..2.3").is_err());
    assert!(ParsedIpUpdate::from_str(" 1.2.3.4").is_err());
    assert!(ParsedIpUpdate::from_str("1.2.3.1234").is_err());
}

#[test]
fn ipv6_strictness() {
    assert!(matches!(
        ParsedIpUpdate::from_str(":::"),
        Err(ParseError::InvalidIpv6 { .. })
    ));
    assert!(ParsedIpUpdate::from_str(":").is_err());
    assert!(ParsedIpUpdate::from_str("1:2:3:4:5:6:7").is_err());
    assert!(ParsedIpUpdate::from_str("1:2:3:4:5:6:7:8:9").is_err());
    assert!(ParsedIpUpdate::from_str("1:2:3:4:5:6:7:8::").is_err());
    assert!(ParsedIpUpdate::from_str("::1:2:3:4:5:6:7:8").is_err());
    assert!(ParsedIpUpdate::from_str("1::2::3").is_err());
    assert!(ParsedIpUpdate::from_str("12345::").is_err());
    assert!(ParsedIpUpdate::from_str("g::1").is_err());
    // mixed dotted notation is classified as IPv4 and rejected there
    assert!(matches!(
        ParsedIpUpdate::from_str("::ffff:1.2.3.4"),
        Err(ParseError::InvalidIpv4 { .. })
    ));
}

#[test]
fn ipv6_full_form_accepted() {
    assert_eq!(canon("1:2:3:4:5:6:7:8"), "1:2:3:4:5:6:7:8");
    assert_eq!(canon("0:0:0:0:0:0:0:1"), "::1");
    assert_eq!(canon("0:0:0:0:0:0:0:0"), "::");
}

#[test]
fn ipv6_compression_forms() {
    assert_eq!(canon("1::8"), "1::8");
    assert_eq!(canon("1::"), "1::");
    assert_eq!(canon("::8"), "::8");
    assert_eq!(canon("::"), "::");
    assert_eq!(canon("1:2:3:4:5:6:7::"), "1:2:3:4:5:6:7:0");
    assert_eq!(canon("::1:2:3:4:5:6:7"), "0:1:2:3:4:5:6:7");
}

#[test]
fn ipv6_canonical_zero_runs() {
    // the longest run wins
    assert_eq!(canon("1:0:0:2:0:0:0:3"), "1:0:0:2::3");
    // on a tie the leftmost run wins
    assert_eq!(canon("1:0:0:2:3:0:0:4"), "1::2:3:0:0:4");
    // a single zero group is not compressed
    assert_eq!(canon("1:0:2:3:4:5:6:7"), "1:0:2:3:4:5:6:7");
}

#[test]
fn ipv6_lowercase_and_minimal_digits() {
    assert_eq!(canon("2001:0DB8:0000:0000:0000:0000:0000:0001"), "2001:db8::1");
    assert_eq!(canon("ABCD:EF01:2345:6789:ABCD:EF01:2345:6789"), "abcd:ef01:2345:6789:abcd:ef01:2345:6789");
}

#[test]
fn ipv4_mapped_uses_mixed_notation() {
    assert_eq!(canon("::ffff:102:304"), "::ffff:1.2.3.4");
    assert_eq!(canon("0:0:0:0:0:ffff:c0a8:1"), "::ffff:192.168.0.1");
    // almost-mapped addresses keep the hex notation
    assert_eq!(canon("::fffe:102:304"), "::fffe:102:304");
    assert_eq!(canon("0:0:0:0:1:ffff:102:304"), "::1:ffff:102:304");
}

#[test]
fn canonicalisation_is_idempotent() {
    for input in [
        "2.2.2.2",
        "192.168.0.1",
        "255.255.255.255",
        "0.0.0.0",
        "0:0:0:0:0:0:0:1",
        "2001:0DB8:0000:0000:0000:0000:0000:0001",
        "1:0:0:2:0:0:0:3",
        "fe80::1",
        "::",
        "1:2:3:4:5:6:7:8",
    ] {
        let once = canon(input);
        let twice = canon(&once);
        assert_eq!(once, twice, "canonical form of '{}' must be stable", input);
    }
}

#[test]
fn error_messages_name_the_part() {
    let e = ParsedIpUpdate::from_str("nope").unwrap_err();
    assert_eq!(e.message(), "IP part 'nope' is neither IPv4 nor IPv6");
    let e = ParsedIpUpdate::from_str("1.2.3").unwrap_err();
    assert_eq!(e.message(), "could not parse IPv4 from '1.2.3'");
    let e = ParsedIpUpdate::from_str("fe80::1::2").unwrap_err();
    assert_eq!(e.message(), "could not parse IPv6 from 'fe80::1::2'");
}
