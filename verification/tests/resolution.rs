use localns::RecordServer;
use localns::config::{PartialZoneConfig, Upstream, Zones};
use localns::dns::{Record, RecordData, RecordKind, RecordSet, RecordSource, fqdn};
use localns::resolve::{Outcome, Query, Rcode, Response, resolve};
use localns::sources::{SourceId, SourceRecords};
use localns::zones::{ZoneSet, build_zones};

fn ip4(a: u8, b: u8, c: u8, d: u8) -> u32 {
    u32::from_be_bytes([a, b, c, d])
}

fn a_record(name: &str, ip: u32) -> Record {
    Record { name: fqdn(name), data: RecordData::A(ip), ttl: 300, source: RecordSource::Local }
}

fn cname_record(name: &str, target: &str) -> Record {
    Record {
        name: fqdn(name),
        data: RecordData::Cname(fqdn(target)),
        ttl: 300,
        source: RecordSource::Local,
    }
}

fn record_set(records: Vec<Record>) -> RecordSet {
    let mut set = RecordSet::new();
    for r in records {
        set.insert(r);
    }
    set
}

fn zone_decl(domain: &str, upstream: Option<&str>, authoritative: bool) -> (
    localns::dns::Fqdn,
    PartialZoneConfig,
) {
    (
        fqdn(domain),
        PartialZoneConfig {
            upstream: upstream.map(Upstream::new),
            ttl: None,
            nameserver: None,
            authoritative: Some(authoritative),
        },
    )
}

fn query(name: &str, kind: RecordKind) -> Query {
    Query { name: fqdn(name), kind, class_in: true, recursion_desired: true }
}

fn answered(outcome: Outcome) -> Response {
    match outcome {
        Outcome::Respond(r) => r,
        Outcome::Forward(_) => panic!("expected a local response, got a forwarding decision"),
    }
}

fn authoritative_example_org(records: Vec<Record>) -> ZoneSet {
    let cfg = Zones::new(PartialZoneConfig::empty(), vec![zone_decl("example.org.", None, true)]);
    build_zones(&cfg, &record_set(records))
}

#[test]
fn exact_match_is_answered() {
    // an authoritative zone with one source record answers the A query
    let zones = authoritative_example_org(vec![a_record("www.example.org.", ip4(10, 0, 0, 1))]);
    let resp = answered(resolve(&zones, &query("www.example.org.", RecordKind::A)));
    assert_eq!(resp.rcode, Rcode::NoError);
    assert!(resp.authoritative);
    assert_eq!(resp.answers.len(), 1);
    assert!(resp.answers[0].name == fqdn("www.example.org."));
    assert!(matches!(resp.answers[0].data, RecordData::A(ip) if ip == ip4(10, 0, 0, 1)));
}

#[test]
fn missing_type_gives_empty_answer_with_soa_authority() {
    let zones = authoritative_example_org(vec![a_record("www.example.org.", ip4(10, 0, 0, 1))]);
    let resp = answered(resolve(&zones, &query("www.example.org.", RecordKind::Aaaa)));
    assert_eq!(resp.rcode, Rcode::NoError);
    assert_eq!(resp.answers.len(), 0);
    assert_eq!(resp.authority.len(), 1);
    assert!(resp.authority[0].name == fqdn("example.org."));
    match &resp.authority[0].data {
        RecordData::Soa(soa) => {
            assert!(soa.mname == fqdn("ns.example.org."));
            assert_eq!(soa.minimum, 60);
        },
        other => panic!("expected a start of authority, got {:?}", other),
    }
}

#[test]
fn unconfigured_namespace_is_refused() {
    let zones = authoritative_example_org(vec![a_record("www.example.org.", 1)]);
    let resp = answered(resolve(&zones, &query("www.elsewhere.net.", RecordKind::A)));
    assert_eq!(resp.rcode, Rcode::Refused);
}

#[test]
fn non_in_class_is_a_format_error() {
    let zones = authoritative_example_org(vec![]);
    let mut q = query("www.example.org.", RecordKind::A);
    q.class_in = false;
    let resp = answered(resolve(&zones, &q));
    assert_eq!(resp.rcode, Rcode::FormErr);
}

#[test]
fn unknown_name_gives_nxdomain_with_soa() {
    let zones = authoritative_example_org(vec![a_record("www.example.org.", 1)]);
    let resp = answered(resolve(&zones, &query("missing.example.org.", RecordKind::A)));
    assert_eq!(resp.rcode, Rcode::NxDomain);
    assert_eq!(resp.answers.len(), 0);
    assert_eq!(resp.authority.len(), 1);
}

#[test]
fn unknown_query_type_on_existing_name_is_noerror_empty() {
    let zones = authoritative_example_org(vec![a_record("www.example.org.", 1)]);
    let resp = answered(resolve(&zones, &query("www.example.org.", RecordKind::Unknown)));
    assert_eq!(resp.rcode, Rcode::NoError);
    assert_eq!(resp.answers.len(), 0);
    assert_eq!(resp.authority.len(), 1);
}

#[test]
fn apex_soa_and_ns_are_synthesized() {
    let zones = authoritative_example_org(vec![]);
    let soa = answered(resolve(&zones, &query("example.org.", RecordKind::Soa)));
    assert_eq!(soa.rcode, Rcode::NoError);
    assert_eq!(soa.answers.len(), 1);
    assert!(matches!(&soa.answers[0].data, RecordData::Soa(_)));
    let ns = answered(resolve(&zones, &query("example.org.", RecordKind::Ns)));
    assert_eq!(ns.answers.len(), 1);
    match &ns.answers[0].data {
        RecordData::Ns(n) => assert!(*n == fqdn("ns.example.org.")),
        other => panic!("expected a nameserver record, got {:?}", other),
    }
}

#[test]
fn cname_chain_is_followed_to_the_address() {
    let zones = authoritative_example_org(vec![
        cname_record("baz.example.org.", "bar.example.org."),
        a_record("bar.example.org.", ip4(37, 23, 54, 10)),
    ]);
    let resp = answered(resolve(&zones, &query("baz.example.org.", RecordKind::A)));
    assert_eq!(resp.rcode, Rcode::NoError);
    assert_eq!(resp.answers.len(), 2);
    assert!(resp.answers[0].name == fqdn("baz.example.org."));
    assert!(matches!(&resp.answers[0].data, RecordData::Cname(t) if *t == fqdn("bar.example.org.")));
    assert!(resp.answers[1].name == fqdn("bar.example.org."));
    assert!(matches!(resp.answers[1].data, RecordData::A(ip) if ip == ip4(37, 23, 54, 10)));
}

#[test]
fn cname_cycle_yields_servfail() {
    let zones = authoritative_example_org(vec![
        cname_record("a.example.org.", "b.example.org."),
        cname_record("b.example.org.", "a.example.org."),
    ]);
    let resp = answered(resolve(&zones, &query("a.example.org.", RecordKind::A)));
    assert_eq!(resp.rcode, Rcode::ServFail);
}

#[test]
fn overlong_cname_chain_yields_servfail() {
    let mut records = Vec::new();
    for i in 0..12u32 {
        records.push(cname_record(
            &format!("h{}.example.org.", i),
            &format!("h{}.example.org.", i + 1),
        ));
    }
    records.push(a_record("h12.example.org.", 1));
    let zones = authoritative_example_org(records);
    let resp = answered(resolve(&zones, &query("h0.example.org.", RecordKind::A)));
    assert_eq!(resp.rcode, Rcode::ServFail);
}

#[test]
fn non_authoritative_zone_forwards_unknown_names() {
    // scenario: example.org has an upstream and no local record for the name
    let cfg = Zones::new(
        PartialZoneConfig::empty(),
        vec![zone_decl("example.org.", Some("127.0.0.1:5353"), false)],
    );
    let zones = build_zones(&cfg, &record_set(vec![]));
    match resolve(&zones, &query("other.example.org.", RecordKind::A)) {
        Outcome::Forward(u) => assert_eq!(u.address().as_slice(), b"127.0.0.1:5353"),
        Outcome::Respond(r) => panic!("expected forwarding, got {:?}", r.rcode),
    }
}

#[test]
fn non_authoritative_zone_without_upstream_refuses() {
    let cfg = Zones::new(
        PartialZoneConfig::empty(),
        vec![zone_decl("example.org.", None, false)],
    );
    let zones = build_zones(&cfg, &record_set(vec![]));
    let resp = answered(resolve(&zones, &query("other.example.org.", RecordKind::A)));
    assert_eq!(resp.rcode, Rcode::Refused);
}

#[test]
fn pruned_source_records_stop_being_answered() {
    // scenario: a source's only record disappears with the source
    let id = SourceId::new(1);
    let mut server = RecordServer::new();
    let mut set = RecordSet::new();
    set.insert(Record {
        name: fqdn("host.example.org."),
        data: RecordData::A(ip4(10, 0, 0, 2)),
        ttl: 300,
        source: RecordSource::Source(id),
    });
    server.add_source_records(SourceRecords::new(id, set));
    let cfg = Zones::new(PartialZoneConfig::empty(), vec![zone_decl("example.org.", None, true)]);

    let before = build_zones(&cfg, &server.records());
    let resp = answered(resolve(&before, &query("host.example.org.", RecordKind::A)));
    assert_eq!(resp.rcode, Rcode::NoError);
    assert_eq!(resp.answers.len(), 1);

    server.prune_sources(&Vec::new());
    let after = build_zones(&cfg, &server.records());
    let resp = answered(resolve(&after, &query("host.example.org.", RecordKind::A)));
    assert_eq!(resp.rcode, Rcode::NxDomain);
}

#[test]
fn a_more_specific_zone_shadows_records_it_does_not_hold() {
    // the record lives in the example.org zone; a declared sub-zone owns the
    // query name, and never answers out of another zone's authority
    let cfg = Zones::new(
        PartialZoneConfig::empty(),
        vec![
            zone_decl("example.org.", None, true),
            zone_decl("www.example.org.", None, true),
        ],
    );
    let zones = build_zones(&cfg, &record_set(vec![a_record("www.example.org.", 1)]));
    let resp = answered(resolve(&zones, &query("www.example.org.", RecordKind::A)));
    assert_eq!(resp.rcode, Rcode::NxDomain);
}

#[test]
fn ptr_lookup_is_an_ordinary_name_lookup() {
    // the reverse name lives in a synthesized zone; the record is found by
    // the same matching machinery as any other name
    let cfg = Zones::new(PartialZoneConfig::empty(), vec![]);
    let zones = build_zones(
        &cfg,
        &record_set(vec![Record {
            name: fqdn("1.0.0.10.in-addr.arpa."),
            data: RecordData::Ptr(fqdn("www.example.org.")),
            ttl: 300,
            source: RecordSource::Local,
        }]),
    );
    let resp = answered(resolve(&zones, &query("1.0.0.10.in-addr.arpa.", RecordKind::Ptr)));
    assert_eq!(resp.rcode, Rcode::NoError);
    assert_eq!(resp.answers.len(), 1);
    assert!(matches!(&resp.answers[0].data, RecordData::Ptr(t) if *t == fqdn("www.example.org.")));
}

#[test]
fn a_record_without_a_declared_zone_gets_a_synthesized_zone() {
    // no declaration mentions the domain: the builder synthesizes a zone one
    // label above the record, which answers exact matches from local data
    let cfg = Zones::new(PartialZoneConfig::empty(), vec![]);
    let zones = build_zones(&cfg, &record_set(vec![a_record("www.example.org.", 7)]));
    let resp = answered(resolve(&zones, &query("www.example.org.", RecordKind::A)));
    assert_eq!(resp.rcode, Rcode::NoError);
    assert_eq!(resp.answers.len(), 1);
    // but with no upstream and no authority, an unknown name is refused
    let miss = answered(resolve(&zones, &query("gone.example.org.", RecordKind::A)));
    assert_eq!(miss.rcode, Rcode::Refused);
}

#[test]
fn all_records_of_the_asked_kind_are_answered_together() {
    let zones = authoritative_example_org(vec![
        a_record("www.example.org.", ip4(10, 0, 0, 1)),
        a_record("www.example.org.", ip4(10, 0, 0, 2)),
    ]);
    let resp = answered(resolve(&zones, &query("www.example.org.", RecordKind::A)));
    assert_eq!(resp.rcode, Rcode::NoError);
    assert_eq!(resp.answers.len(), 2);
}
