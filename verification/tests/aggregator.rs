use localns::RecordServer;
use localns::dns::{Record, RecordData, RecordSet, RecordSource, fqdn};
use localns::sources::{SourceId, SourceRecords};

fn ip4(a: u8, b: u8, c: u8, d: u8) -> u32 {
    u32::from_be_bytes([a, b, c, d])
}

fn a_record(name: &str, ip: u32, source: RecordSource) -> Record {
    Record { name: fqdn(name), data: RecordData::A(ip), ttl: 300, source }
}

fn snapshot(id: SourceId, records: Vec<Record>) -> SourceRecords {
    let mut set = RecordSet::new();
    for r in records {
        set.insert(r);
    }
    SourceRecords::new(id, set)
}

fn merged_names(server: &RecordServer) -> Vec<Vec<u8>> {
    let set = server.records();
    let mut names = Vec::new();
    let mut i = 0;
    while i < set.len() {
        names.push(set.get(i).name.bytes().clone());
        i += 1;
    }
    names.sort();
    names
}

#[test]
fn add_replaces_a_sources_whole_contribution() {
    let id = SourceId::new(1);
    let mut server = RecordServer::new();
    let src = RecordSource::Source(id);
    server.add_source_records(snapshot(id, vec![a_record("old.example.org.", 1, src)]));
    server.add_source_records(snapshot(id, vec![a_record("new.example.org.", 2, src)]));
    assert_eq!(merged_names(&server), vec![b"new.example.org.".to_vec()]);
}

#[test]
fn repeating_a_call_changes_nothing() {
    let id = SourceId::new(1);
    let src = RecordSource::Source(id);
    let mut server = RecordServer::new();
    server.add_source_records(snapshot(id, vec![a_record("www.example.org.", 1, src)]));
    let before = merged_names(&server);
    server.add_source_records(snapshot(id, vec![a_record("www.example.org.", 1, src)]));
    assert_eq!(merged_names(&server), before);
}

#[test]
fn interleaving_of_distinct_sources_does_not_matter() {
    let id1 = SourceId::new(1);
    let id2 = SourceId::new(2);
    let s1 = RecordSource::Source(id1);
    let s2 = RecordSource::Source(id2);

    let mut one = RecordServer::new();
    one.add_source_records(snapshot(id1, vec![a_record("a.example.org.", 1, s1)]));
    one.add_source_records(snapshot(id2, vec![a_record("b.example.org.", 2, s2)]));

    let mut two = RecordServer::new();
    two.add_source_records(snapshot(id2, vec![a_record("b.example.org.", 2, s2)]));
    two.add_source_records(snapshot(id1, vec![a_record("a.example.org.", 1, s1)]));

    assert_eq!(merged_names(&one), merged_names(&two));
}

#[test]
fn clear_removes_the_whole_contribution() {
    let id = SourceId::new(7);
    let src = RecordSource::Source(id);
    let mut server = RecordServer::new();
    server.add_source_records(snapshot(id, vec![a_record("www.example.org.", 1, src)]));
    server.clear_source_records(&id);
    assert_eq!(server.records().len(), 0);
}

#[test]
fn prune_then_add_is_as_if_others_never_existed() {
    let kept = SourceId::new(1);
    let dropped = SourceId::new(2);
    let sk = RecordSource::Source(kept);
    let sd = RecordSource::Source(dropped);

    let mut pruned = RecordServer::new();
    pruned.add_source_records(snapshot(kept, vec![a_record("a.example.org.", 1, sk)]));
    pruned.add_source_records(snapshot(dropped, vec![a_record("b.example.org.", 2, sd)]));
    pruned.prune_sources(&vec![kept]);
    pruned.add_source_records(snapshot(kept, vec![a_record("c.example.org.", 3, sk)]));

    let mut alone = RecordServer::new();
    alone.add_source_records(snapshot(kept, vec![a_record("c.example.org.", 3, sk)]));

    assert_eq!(merged_names(&pruned), merged_names(&alone));
}

#[test]
fn local_records_survive_pruning() {
    let id = SourceId::new(1);
    let src = RecordSource::Source(id);
    let mut server = RecordServer::new();
    let mut local = RecordSet::new();
    local.insert(a_record("pinned.example.org.", 9, RecordSource::Local));
    server.set_local_records(local);
    server.add_source_records(snapshot(id, vec![a_record("www.example.org.", 1, src)]));
    server.prune_sources(&Vec::new());
    assert_eq!(merged_names(&server), vec![b"pinned.example.org.".to_vec()]);
    assert_eq!(server.local_records().len(), 1);
}

#[test]
fn merged_set_deduplicates_identical_records() {
    let id1 = SourceId::new(1);
    let id2 = SourceId::new(2);
    let mut server = RecordServer::new();
    // the same name and payload from two sources count once; ttl and
    // provenance do not participate in identity
    server.add_source_records(snapshot(
        id1,
        vec![a_record("www.example.org.", 1, RecordSource::Source(id1))],
    ));
    server.add_source_records(snapshot(id2, vec![Record {
        name: fqdn("www.example.org."),
        data: RecordData::A(1),
        ttl: 999,
        source: RecordSource::Source(id2),
    }]));
    assert_eq!(server.records().len(), 1);
    let _ = ip4(10, 0, 0, 1);
}

#[test]
fn record_set_deduplicates_by_identity() {
    let mut set = RecordSet::new();
    set.insert(a_record("www.example.org.", ip4(10, 0, 0, 1), RecordSource::Local));
    set.insert(Record {
        name: fqdn("WWW.EXAMPLE.ORG"),
        data: RecordData::A(ip4(10, 0, 0, 1)),
        ttl: 60,
        source: RecordSource::Local,
    });
    assert_eq!(set.len(), 1);
    // a different payload is a different record
    set.insert(a_record("www.example.org.", ip4(10, 0, 0, 2), RecordSource::Local));
    assert_eq!(set.len(), 2);
}
