use localns::dns::{Fqdn, fqdn};

#[test]
fn parse_is_case_insensitive() {
    assert!(fqdn("WWW.Example.ORG") == fqdn("www.example.org."));
}

#[test]
fn parse_appends_root_label() {
    let f = fqdn("www.example.org");
    assert_eq!(f.bytes().as_slice(), b"www.example.org.");
}

#[test]
fn parse_accepts_root() {
    let r = Fqdn::parse(b".").unwrap();
    assert_eq!(r.bytes().len(), 0);
}

#[test]
fn parse_rejects_empty_text() {
    assert!(Fqdn::parse(b"").is_none());
}

#[test]
fn parse_rejects_empty_label() {
    assert!(Fqdn::parse(b"a..b").is_none());
    assert!(Fqdn::parse(b".x").is_none());
    assert!(Fqdn::parse(b"x..").is_none());
}

#[test]
fn parse_rejects_unprintable() {
    assert!(Fqdn::parse(b"a b.org").is_none());
    assert!(Fqdn::parse(&[200u8, 46u8]).is_none());
}

#[test]
fn parent_strips_one_label() {
    let f = fqdn("www.example.org.");
    assert!(f.parent() == fqdn("example.org."));
}

#[test]
fn child_prepends_one_label() {
    let f = fqdn("example.org.");
    let label: Vec<u8> = b"ns".to_vec();
    assert!(f.child(&label) == fqdn("ns.example.org."));
}

#[test]
fn ancestor_test_is_suffix_at_label_boundary() {
    let zone = fqdn("example.org.");
    assert!(zone.is_parent(&fqdn("www.example.org.")));
    assert!(zone.is_parent(&fqdn("example.org.")));
    assert!(!zone.is_parent(&fqdn("www.example.com.")));
    // a byte suffix that does not start at a label boundary is no ancestor
    assert!(!fqdn("le.org.").is_parent(&fqdn("example.org.")));
    // the root is everyone's ancestor
    assert!(Fqdn::parse(b".").unwrap().is_parent(&zone));
}

#[test]
fn num_labels_counts_labels() {
    assert_eq!(fqdn("www.example.org.").num_labels(), 3);
    assert_eq!(fqdn("org.").num_labels(), 1);
    assert_eq!(Fqdn::parse(b".").unwrap().num_labels(), 0);
}
