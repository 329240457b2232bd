//! The zone builder: partitions the aggregator's merged snapshot into
//! per-domain zones. A record's owning domain is the name one label above
//! it; every declared zone domain is materialized even when empty, and a
//! zone is synthesized for any owning domain without a declaration.

use vstd::prelude::*;
use crate::config::{ZoneConfig, ZoneConfigV, Zones, config_wf, resolved_config};
use crate::dns::{
    Fqdn, RecordSet, RecordV, canonical_name, lemma_with_parent_props, parent_name, recs_wf,
    with_parent,
};

verus! {

/// Mathematical image of one zone.
pub struct ZoneV {
    pub domain: Seq<u8>,
    pub config: ZoneConfigV,
    pub records: Seq<RecordV>,
}

/// One zone: its domain, its resolved configuration, and the records it
/// directly owns.
#[derive(Debug)]
pub struct Zone {
    pub domain: Fqdn,
    pub config: ZoneConfig,
    pub records: RecordSet,
}

impl View for Zone {
    type V = ZoneV;

    open spec fn view(&self) -> ZoneV {
        ZoneV { domain: self.domain@, config: self.config@, records: self.records@ }
    }
}

/// A well-formed zone: canonical domain, well-formed configuration, and
/// every owned record exactly one label below the domain.
pub open spec fn zone_wf(z: ZoneV) -> bool {
    &&& canonical_name(z.domain)
    &&& config_wf(z.config)
    &&& recs_wf(z.records)
    &&& forall|i: int|
        0 <= i < z.records.len() ==> parent_name((#[trigger] z.records[i]).name) == z.domain
}

/// Well-formed zones with pairwise distinct domains.
pub open spec fn zones_wf(zs: Seq<ZoneV>) -> bool {
    &&& forall|i: int| 0 <= i < zs.len() ==> zone_wf(#[trigger] zs[i])
    &&& forall|i: int, j: int|
        0 <= i < j < zs.len() ==> (#[trigger] zs[i]).domain != (#[trigger] zs[j]).domain
}

/// Some zone claims exactly `d`.
pub open spec fn has_domain(zs: Seq<ZoneV>, d: Seq<u8>) -> bool {
    exists|i: int| 0 <= i < zs.len() && (#[trigger] zs[i]).domain == d
}

/// The domains the builder owes a zone to: every declared override domain,
/// and the parent of every record in the snapshot.
pub open spec fn domain_expected(
    ovr: Seq<(Seq<u8>, crate::config::PartialZoneConfigV)>,
    recs: Seq<RecordV>,
    d: Seq<u8>,
) -> bool {
    (exists|i: int| 0 <= i < ovr.len() && (#[trigger] ovr[i]).0 == d) || (exists|u: int|
        0 <= u < recs.len() && parent_name((#[trigger] recs[u]).name) == d)
}

spec fn expected_upto(
    ovr: Seq<(Seq<u8>, crate::config::PartialZoneConfigV)>,
    recs: Seq<RecordV>,
    n: int,
    d: Seq<u8>,
) -> bool {
    (exists|i: int| 0 <= i < ovr.len() && (#[trigger] ovr[i]).0 == d) || (exists|u: int|
        0 <= u < n && parent_name((#[trigger] recs[u]).name) == d)
}

/// Some listed name is exactly `d`.
pub open spec fn fq_has(v: Seq<Fqdn>, d: Seq<u8>) -> bool {
    exists|k: int| 0 <= k < v.len() && (#[trigger] v[k])@ == d
}

fn contains_fqdn(v: &Vec<Fqdn>, f: &Fqdn) -> (r: bool)
    ensures
        r == fq_has(v@, f@),
{
    let mut k: usize = 0;
    while k < v.len()
        invariant
            0 <= k <= v@.len(),
            forall|j: int| 0 <= j < k ==> (#[trigger] v@[j])@ != f@,
        decreases v@.len() - k,
    {
        if &v[k] == f {
            proof {
                assert((v@[k as int])@ == f@);
            }
            return true;
        }
        k += 1;
    }
    false
}

/// The answering zones. Order is immaterial to readers.
#[derive(Debug)]
pub struct ZoneSet {
    zones: Vec<Zone>,
}

impl View for ZoneSet {
    type V = Seq<ZoneV>;

    closed spec fn view(&self) -> Seq<ZoneV> {
        self.zones@.map_values(|z: Zone| z@)
    }
}

impl ZoneSet {
    /// Well-formed zones with pairwise distinct domains.
    pub open spec fn wf(&self) -> bool {
        zones_wf(self@)
    }

    /// How many zones there are.
    pub fn len(&self) -> (n: usize)
        ensures
            n == self@.len(),
    {
        self.zones.len()
    }

    /// The zone at `i`.
    pub fn get(&self, i: usize) -> (z: &Zone)
        requires
            i < self@.len(),
        ensures
            z@ == self@[i as int],
    {
        &self.zones[i]
    }
}

/// Builds the zone set for one snapshot: one zone per declared override
/// domain (empty if need be), plus a synthesized zone for the parent domain
/// of every record; each zone's configuration is resolved from the
/// declarations and each zone owns exactly the records one label below its
/// domain.
pub fn build_zones(cfg: &Zones, records: &RecordSet) -> (out: ZoneSet)
    requires
        cfg.wf(),
        records.wf(),
    ensures
        out.wf(),
        forall|d: Seq<u8>| #[trigger]
            has_domain(out@, d) == domain_expected(cfg.overrides(), records@, d),
        forall|i: int|
            0 <= i < out@.len() ==> (#[trigger] out@[i]).config == resolved_config(
                cfg.defaults_view(),
                cfg.overrides(),
                out@[i].domain,
            ) && out@[i].records == with_parent(records@, out@[i].domain),
{
    let ghost ovr = cfg.overrides();
    let ghost recs = records@;
    proof {
        cfg.lemma_wf();
    }
    let mut domains: Vec<Fqdn> = Vec::new();
    let mut i: usize = 0;
    while i < cfg.override_count()
        invariant
            cfg.wf(),
            ovr == cfg.overrides(),
            0 <= i <= ovr.len(),
            domains@.len() == i,
            forall|k: int| 0 <= k < i ==> (#[trigger] domains@[k])@ == ovr[k].0,
            forall|k: int| 0 <= k < i ==> (#[trigger] domains@[k]).wf(),
        decreases ovr.len() - i,
    {
        domains.push(cfg.override_domain(i).clone());
        i += 1;
    }
    proof {
        assert forall|d: Seq<u8>| #[trigger]
            fq_has(domains@, d) == expected_upto(ovr, recs, 0, d) by {
            if fq_has(domains@, d) {
                let k = choose|k: int| 0 <= k < domains@.len() && (#[trigger] domains@[k])@ == d;
                assert(ovr[k].0 == d);
            }
            if expected_upto(ovr, recs, 0, d) {
                let k = choose|k: int| 0 <= k < ovr.len() && (#[trigger] ovr[k]).0 == d;
                assert((domains@[k])@ == d);
            }
        }
        assert forall|a: int, b: int| 0 <= a < b < domains@.len() implies (
        #[trigger] domains@[a])@ != (#[trigger] domains@[b])@ by {
            assert((domains@[a])@ == ovr[a].0);
            assert((domains@[b])@ == ovr[b].0);
            assert(ovr[a].0 != ovr[b].0);
        }
    }
    let mut t: usize = 0;
    while t < records.len()
        invariant
            cfg.wf(),
            records.wf(),
            ovr == cfg.overrides(),
            recs == records@,
            0 <= t <= recs.len(),
            forall|k: int| 0 <= k < domains@.len() ==> (#[trigger] domains@[k]).wf(),
            forall|a: int, b: int|
                0 <= a < b < domains@.len() ==> (#[trigger] domains@[a])@ != (
                #[trigger] domains@[b])@,
            forall|d: Seq<u8>| #[trigger] fq_has(domains@, d) == expected_upto(
                ovr,
                recs,
                t as int,
                d,
            ),
        decreases recs.len() - t,
    {
        let ghost pre = domains@;
        let r = records.get(t);
        proof {
            assert(recs[t as int] == r@);
        }
        let p = r.name.parent();
        if !contains_fqdn(&domains, &p) {
            domains.push(p);
            proof {
                assert forall|a: int, b: int| 0 <= a < b < domains@.len() implies (
                #[trigger] domains@[a])@ != (#[trigger] domains@[b])@ by {
                    if b == domains@.len() - 1 {
                        assert(domains@[a] == pre[a]);
                        assert(fq_has(pre, pre[a]@));
                    }
                }
            }
        }
        t += 1;
        proof {
            assert forall|d: Seq<u8>| #[trigger]
                fq_has(domains@, d) == expected_upto(ovr, recs, t as int, d) by {
                let pn = parent_name(recs[t - 1].name);
                if fq_has(domains@, d) {
                    let k = choose|k: int|
                        0 <= k < domains@.len() && (#[trigger] domains@[k])@ == d;
                    if k < pre.len() {
                        assert(fq_has(pre, d));
                        assert(expected_upto(ovr, recs, t as int - 1, d));
                        if exists|u: int|
                            0 <= u < t - 1 && parent_name((#[trigger] recs[u]).name) == d {
                            let u = choose|u: int|
                                0 <= u < t - 1 && parent_name((#[trigger] recs[u]).name) == d;
                            assert(parent_name(recs[u].name) == d);
                        }
                    } else {
                        assert(d == pn);
                        assert(parent_name(recs[t - 1].name) == d);
                    }
                }
                if expected_upto(ovr, recs, t as int, d) {
                    if exists|k: int| 0 <= k < ovr.len() && (#[trigger] ovr[k]).0 == d {
                        assert(expected_upto(ovr, recs, t as int - 1, d));
                        assert(fq_has(pre, d));
                        let k = choose|k: int| 0 <= k < pre.len() && (#[trigger] pre[k])@ == d;
                        assert((domains@[k])@ == d);
                    } else {
                        let u = choose|u: int|
                            0 <= u < t && parent_name((#[trigger] recs[u]).name) == d;
                        if u < t - 1 {
                            assert(expected_upto(ovr, recs, t as int - 1, d));
                            assert(fq_has(pre, d));
                            let k = choose|k: int| 0 <= k < pre.len() && (#[trigger] pre[k])@ == d;
                            assert((domains@[k])@ == d);
                        } else {
                            assert(d == pn);
                            if fq_has(pre, d) {
                                let k = choose|k: int|
                                    0 <= k < pre.len() && (#[trigger] pre[k])@ == d;
                                assert((domains@[k])@ == d);
                            } else {
                                assert((domains@[domains@.len() - 1])@ == d);
                            }
                        }
                    }
                }
            }
        }
    }
    let mut zones: Vec<Zone> = Vec::new();
    let mut k: usize = 0;
    while k < domains.len()
        invariant
            cfg.wf(),
            records.wf(),
            ovr == cfg.overrides(),
            recs == records@,
            forall|a: int| 0 <= a < domains@.len() ==> (#[trigger] domains@[a]).wf(),
            forall|a: int, b: int|
                0 <= a < b < domains@.len() ==> (#[trigger] domains@[a])@ != (
                #[trigger] domains@[b])@,
            0 <= k <= domains@.len(),
            zones@.len() == k,
            forall|u: int|
                0 <= u < k ==> {
                    let z = (#[trigger] zones@[u])@;
                    &&& z.domain == domains@[u]@
                    &&& z.config == resolved_config(cfg.defaults_view(), ovr, z.domain)
                    &&& z.records == with_parent(recs, z.domain)
                    &&& zone_wf(z)
                },
        decreases domains@.len() - k,
    {
        let d = &domains[k];
        let config = cfg.build_config(d);
        let zrecs = records.records_for_parent(d);
        proof {
            lemma_with_parent_props(recs, d@);
        }
        zones.push(Zone { domain: d.clone(), config, records: zrecs });
        k += 1;
    }
    let out = ZoneSet { zones };
    proof {
        assert forall|a: int, b: int| 0 <= a < b < out@.len() implies (#[trigger] out@[a]).domain
            != (#[trigger] out@[b]).domain by {
            assert(out@[a].domain == domains@[a]@);
            assert(out@[b].domain == domains@[b]@);
        }
        assert forall|d: Seq<u8>| #[trigger]
            has_domain(out@, d) == domain_expected(ovr, recs, d) by {
            if has_domain(out@, d) {
                let u = choose|u: int| 0 <= u < out@.len() && (#[trigger] out@[u]).domain == d;
                assert((domains@[u])@ == d);
                assert(fq_has(domains@, d));
            }
            if domain_expected(ovr, recs, d) {
                assert(expected_upto(ovr, recs, recs.len() as int, d));
                assert(fq_has(domains@, d));
                let u = choose|u: int| 0 <= u < domains@.len() && (#[trigger] domains@[u])@ == d;
                assert(out@[u].domain == d);
            }
        }
    }
    out
}

} // verus!
