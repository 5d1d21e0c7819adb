use fourward::config::{DnsProvider, DomainConfig};
use fourward::dns::{
    arc_record, bind_line, chosen_region, dkim_tokens, dmarc_value, full_row, inbound_mx,
    is_managed, placeholder_dkim_tokens, records_for_domain, records_for_domains, shown_row,
    spf_value,
};

#[test]
fn mx_shape() {
    assert_eq!(
        inbound_mx("us-east-1"),
        "10 inbound-smtp.us-east-1.amazonaws.com"
    );
}

#[test]
fn spf_authorizes_ses() {
    assert!(spf_value().contains("amazonses.com"));
}

#[test]
fn full_set_has_mx_spf_dmarc_plus_dkim() {
    let recs = records_for_domain("example.com", "us-east-1", &placeholder_dkim_tokens());
    assert_eq!(recs.len(), 6);
    assert!(recs.iter().any(|r| r.record_type == "MX"));
    assert!(recs.iter().any(|r| r.name.starts_with("_dmarc.")));
    assert_eq!(
        recs.iter().filter(|r| r.record_type == "CNAME").count(),
        3
    );
}

#[test]
fn values_of_the_full_set() {
    let recs = records_for_domain("example.com", "eu-west-1", &["abc".to_string()]);
    let shown: Vec<(&str, &str, &str)> = recs
        .iter()
        .map(|r| (r.record_type.as_str(), r.name.as_str(), r.value.as_str()))
        .collect();
    assert_eq!(
        shown,
        vec![
            ("MX", "example.com", "10 inbound-smtp.eu-west-1.amazonaws.com"),
            ("TXT", "example.com", "v=spf1 include:amazonses.com ~all"),
            ("TXT", "_dmarc.example.com", "v=DMARC1; p=none; rua=mailto:dmarc@example.com"),
            ("CNAME", "abc._domainkey.example.com", "abc.dkim.amazonses.com"),
        ]
    );
    assert!(recs.iter().all(|r| r.ttl == 300));
    assert_eq!(dmarc_value("a@b.c"), "v=DMARC1; p=none; rua=mailto:a@b.c");
}

#[test]
fn zone_file_lines_and_rows() {
    let recs = records_for_domain("example.com", "us-east-1", &placeholder_dkim_tokens());
    assert_eq!(
        bind_line(&recs[0]),
        "example.com.\t300\tIN\tMX\t10 inbound-smtp.us-east-1.amazonaws.com"
    );
    assert_eq!(
        full_row(&recs[1]),
        vec!["TXT", "example.com", "v=spf1 include:amazonses.com ~all", "SPF authorize SES"]
    );
    assert_eq!(
        shown_row(&recs[3]),
        vec![
            "CNAME",
            "token1._domainkey.example.com",
            "token1.dkim.amazonses.com (see SES console for real DKIM token)",
        ]
    );
    assert_eq!(
        shown_row(&recs[0]),
        vec!["MX", "example.com", "10 inbound-smtp.us-east-1.amazonaws.com"]
    );
}

fn named(domain: &str) -> DomainConfig {
    DomainConfig {
        domain: domain.to_string(),
        dns_provider: DnsProvider::External,
        catch_all: None,
        routes: vec![],
    }
}

#[test]
fn domains_follow_each_other() {
    let recs = records_for_domains(&vec![named("a.com"), named("b.com")], "us-east-1", &[]);
    let names: Vec<&str> = recs.iter().map(|r| r.name.as_str()).collect();
    assert_eq!(names, vec!["a.com", "a.com", "_dmarc.a.com", "b.com", "b.com", "_dmarc.b.com"]);
}

#[test]
fn tokens_count_only_when_there_are_three() {
    let three = vec!["a".to_string(), "b".to_string(), "c".to_string()];
    assert_eq!(dkim_tokens(Some(three.clone())), three);
    assert_eq!(dkim_tokens(Some(vec!["a".to_string()])), placeholder_dkim_tokens());
    assert_eq!(dkim_tokens(None), vec!["token1", "token2", "token3"]);
}

#[test]
fn the_configured_region_comes_first() {
    assert_eq!(chosen_region("eu-west-1", "us-east-1"), "eu-west-1");
    assert_eq!(chosen_region("", "us-east-1"), "us-east-1");
}

#[test]
fn route53_manages_a_domain_with_a_zone() {
    assert!(is_managed(DnsProvider::Route53, true));
    assert!(!is_managed(DnsProvider::Route53, false));
    assert!(!is_managed(DnsProvider::External, true));
}

#[test]
fn the_key_of_a_seal_has_its_record() {
    let rec = arc_record("fw1", "example.com", "QUJD");
    assert_eq!(rec.name, "fw1._domainkey.example.com");
    assert_eq!(rec.record_type, "TXT");
    assert_eq!(rec.value, "v=DKIM1; k=rsa; p=QUJD");
    assert_eq!(rec.ttl, 300);
}
