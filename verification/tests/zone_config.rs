use localns::config::{PartialZoneConfig, Upstream, ZoneConfig, Zones};
use localns::dns::fqdn;

fn set(
    upstream: Option<&str>,
    ttl: Option<u32>,
    nameserver: Option<&str>,
    authoritative: Option<bool>,
) -> PartialZoneConfig {
    PartialZoneConfig {
        upstream: upstream.map(Upstream::new),
        ttl,
        nameserver: nameserver.map(fqdn),
        authoritative,
    }
}

#[test]
fn zone_config() {
    let cfg = Zones::new(
        PartialZoneConfig::empty(),
        vec![
            (fqdn("org."), set(None, Some(100), None, None)),
            (fqdn("example.org."), set(None, None, None, Some(true))),
        ],
    );
    // the zone inherits from every applicable override, most specific last
    let resolved = cfg.build_config(&fqdn("example.org."));
    assert_eq!(resolved.ttl, 100);
    assert!(resolved.authoritative);
    assert!(resolved.upstream.is_none());
    assert_eq!(resolved.nameserver().bytes().as_slice(), b"ns.example.org.");
    // a sibling zone sees only its own applicable overrides
    let sibling = cfg.build_config(&fqdn("other.org."));
    assert_eq!(sibling.ttl, 100);
    assert!(!sibling.authoritative);
    // a zone no override applies to gets the built-in defaults
    let outside = cfg.build_config(&fqdn("elsewhere.net."));
    assert_eq!(outside.ttl, 300);
    assert!(!outside.authoritative);
}

#[test]
fn more_specific_override_wins_field_by_field() {
    let cfg = Zones::new(
        PartialZoneConfig::empty(),
        vec![
            (fqdn("org."), set(Some("10.0.0.53:53"), Some(100), None, None)),
            (fqdn("example.org."), set(None, Some(200), None, None)),
        ],
    );
    let resolved = cfg.build_config(&fqdn("example.org."));
    // ttl comes from the most specific setter, upstream from the general one
    assert_eq!(resolved.ttl, 200);
    assert_eq!(resolved.upstream.unwrap().address().as_slice(), b"10.0.0.53:53");
    let general = cfg.build_config(&fqdn("other.org."));
    assert_eq!(general.ttl, 100);
}

#[test]
fn authority_beats_inherited_upstream_for_that_zone_only() {
    let cfg = Zones::new(
        set(Some("192.0.2.1:53"), None, None, None),
        vec![(fqdn("example.org."), set(None, None, None, Some(true)))],
    );
    let auth = cfg.build_config(&fqdn("example.org."));
    assert!(auth.authoritative);
    // authority always wins over forwarding
    assert!(auth.effective_upstream().is_none());
    // an unrelated zone keeps the inherited upstream
    let other = cfg.build_config(&fqdn("other.net."));
    assert!(!other.authoritative);
    assert_eq!(other.effective_upstream().unwrap().address().as_slice(), b"192.0.2.1:53");
}

#[test]
fn nameserver_and_hostmaster_are_synthesized() {
    let cfg = ZoneConfig::new(&fqdn("example.org."), &PartialZoneConfig::empty());
    assert_eq!(cfg.nameserver().bytes().as_slice(), b"ns.example.org.");
    assert_eq!(cfg.hostmaster().bytes().as_slice(), b"hostmaster.ns.example.org.");
}

#[test]
fn apply_config_overlays_only_set_fields() {
    let mut cfg = ZoneConfig::new(&fqdn("example.org."), &PartialZoneConfig::empty());
    cfg.apply_config(&set(Some("127.0.0.1:5353"), None, None, Some(true)));
    assert_eq!(cfg.ttl, 300);
    assert!(cfg.authoritative);
    assert_eq!(cfg.nameserver().bytes().as_slice(), b"ns.example.org.");
    assert_eq!(cfg.upstream.as_ref().unwrap().address().as_slice(), b"127.0.0.1:5353");
}

#[test]
fn soa_fields_derive_from_ttl() {
    let mut defaults = PartialZoneConfig::empty();
    defaults.ttl = Some(120);
    let cfg = ZoneConfig::new(&fqdn("example.org."), &defaults);
    let soa = cfg.soa();
    assert!(soa.mname == fqdn("ns.example.org."));
    assert!(soa.rname == fqdn("hostmaster.ns.example.org."));
    assert_eq!(soa.serial, 0);
    assert_eq!(soa.refresh, 120);
    assert_eq!(soa.retry, 120);
    assert_eq!(soa.expire, 1200);
    assert_eq!(soa.minimum, 60);
}
