//! Per-zone configuration and its resolution. A zone's effective
//! configuration starts from a global default and takes, field by field,
//! the value of the most specific configured override whose domain is an
//! ancestor-or-self of the zone's domain. An authoritative zone never
//! forwards: authority wins over any inherited upstream.

use vstd::prelude::*;
use vstd::string::StrSliceExecFns;
use vstd::string::StringSliceAdditionalSpecFns;
use crate::dns::{
    Fqdn, SoaData, SoaV, canonical_name, is_ancestor_of, lemma_ancestor_same_len,
};

verus! {

/// Largest time-to-live whose synthesized expiry (ten times the
/// time-to-live) still fits in 32 bits.
pub const MAX_TTL: u32 = 429496729;

/// A resolvable upstream network target, carried as its textual address.
#[derive(Debug)]
pub struct Upstream {
    address: Vec<u8>,
}

impl View for Upstream {
    type V = Seq<u8>;

    closed spec fn view(&self) -> Seq<u8> {
        self.address@
    }
}

impl Clone for Upstream {
    fn clone(&self) -> (r: Self)
        ensures
            r@ == self@,
    {
        let mut out: Vec<u8> = Vec::new();
        let mut i: usize = 0;
        while i < self.address.len()
            invariant
                0 <= i <= self.address@.len(),
                out@ == self.address@.take(i as int),
            decreases self.address@.len() - i,
        {
            out.push(self.address[i]);
            i += 1;
            proof {
                assert(out@ =~= self.address@.take(i as int));
            }
        }
        proof {
            assert(out@ =~= self.address@);
        }
        Upstream { address: out }
    }
}

impl Upstream {
    /// An upstream named by its textual address, for example host and port.
    pub fn new(address: &str) -> (r: Upstream)
        ensures
            r@ == address.spec_bytes(),
    {
        Upstream { address: address.as_bytes_vec() }
    }

    /// The textual address this upstream was configured with.
    pub fn address(&self) -> (r: &Vec<u8>)
        ensures
            r@ == self@,
    {
        &self.address
    }
}

/// Mathematical image of one zone declaration.
pub struct PartialZoneConfigV {
    pub upstream: Option<Seq<u8>>,
    pub ttl: Option<u32>,
    pub nameserver: Option<Seq<u8>>,
    pub authoritative: Option<bool>,
}

/// One zone declaration from configuration; fields left unset inherit from
/// more general declarations or from the defaults.
#[derive(Debug)]
pub struct PartialZoneConfig {
    pub upstream: Option<Upstream>,
    pub ttl: Option<u32>,
    pub nameserver: Option<Fqdn>,
    pub authoritative: Option<bool>,
}

impl View for PartialZoneConfig {
    type V = PartialZoneConfigV;

    open spec fn view(&self) -> PartialZoneConfigV {
        PartialZoneConfigV {
            upstream: match self.upstream {
                Some(ref u) => Some(u@),
                None => None,
            },
            ttl: self.ttl,
            nameserver: match self.nameserver {
                Some(ref n) => Some(n@),
                None => None,
            },
            authoritative: self.authoritative,
        }
    }
}

impl Clone for PartialZoneConfig {
    fn clone(&self) -> (r: Self)
        ensures
            r@ == self@,
    {
        PartialZoneConfig {
            upstream: match &self.upstream {
                Some(u) => Some(u.clone()),
                None => None,
            },
            ttl: self.ttl,
            nameserver: match &self.nameserver {
                Some(n) => Some(n.clone()),
                None => None,
            },
            authoritative: self.authoritative,
        }
    }
}

impl PartialZoneConfig {
    /// Declared names are canonical; a declared time-to-live leaves room
    /// for the synthesized expiry.
    pub open spec fn wf(&self) -> bool {
        &&& match self@.nameserver {
            Some(n) => canonical_name(n) && n.len() > 0,
            None => true,
        }
        &&& match self@.ttl {
            Some(t) => t <= MAX_TTL,
            None => true,
        }
    }

    /// A declaration that sets nothing.
    pub fn empty() -> (r: PartialZoneConfig)
        ensures
            r.wf(),
            r@.upstream is None,
            r@.ttl is None,
            r@.nameserver is None,
            r@.authoritative is None,
    {
        PartialZoneConfig { upstream: None, ttl: None, nameserver: None, authoritative: None }
    }
}

/// Mathematical image of a resolved zone configuration.
pub struct ZoneConfigV {
    pub upstream: Option<Seq<u8>>,
    pub ttl: u32,
    pub nameserver: Seq<u8>,
    pub authoritative: bool,
}

/// The resolved configuration of one zone.
#[derive(Debug)]
pub struct ZoneConfig {
    pub upstream: Option<Upstream>,
    pub ttl: u32,
    pub nameserver: Fqdn,
    pub authoritative: bool,
}

impl View for ZoneConfig {
    type V = ZoneConfigV;

    open spec fn view(&self) -> ZoneConfigV {
        ZoneConfigV {
            upstream: match self.upstream {
                Some(ref u) => Some(u@),
                None => None,
            },
            ttl: self.ttl,
            nameserver: self.nameserver@,
            authoritative: self.authoritative,
        }
    }
}

impl Clone for ZoneConfig {
    fn clone(&self) -> (r: Self)
        ensures
            r@ == self@,
    {
        ZoneConfig {
            upstream: match &self.upstream {
                Some(u) => Some(u.clone()),
                None => None,
            },
            ttl: self.ttl,
            nameserver: self.nameserver.clone(),
            authoritative: self.authoritative,
        }
    }
}

/// The label prefixed to a zone's domain for its synthesized nameserver.
pub open spec fn ns_label() -> Seq<u8> {
    seq![110u8, 115u8]
}

/// The label prefixed to the nameserver for the zone-contact name.
pub open spec fn hostmaster_label() -> Seq<u8> {
    seq![104u8, 111u8, 115u8, 116u8, 109u8, 97u8, 115u8, 116u8, 101u8, 114u8]
}

fn ns_label_vec() -> (v: Vec<u8>)
    ensures
        v@ == ns_label(),
{
    let mut v: Vec<u8> = Vec::new();
    v.push(110);
    v.push(115);
    proof {
        assert(v@ =~= ns_label());
    }
    v
}

fn hostmaster_label_vec() -> (v: Vec<u8>)
    ensures
        v@ == hostmaster_label(),
{
    let mut v: Vec<u8> = Vec::new();
    v.push(104);
    v.push(111);
    v.push(115);
    v.push(116);
    v.push(109);
    v.push(97);
    v.push(115);
    v.push(116);
    v.push(101);
    v.push(114);
    proof {
        assert(v@ =~= hostmaster_label());
    }
    v
}

/// What a fresh zone configuration holds before overrides apply: the
/// defaults, a 300 second time-to-live, a synthesized `ns` nameserver one
/// label below the zone, and no authority.
pub open spec fn new_spec(name: Seq<u8>, d: PartialZoneConfigV) -> ZoneConfigV {
    ZoneConfigV {
        upstream: d.upstream,
        ttl: match d.ttl {
            Some(t) => t,
            None => 300,
        },
        nameserver: match d.nameserver {
            Some(n) => n,
            None => ns_label() + seq![46u8] + name,
        },
        authoritative: match d.authoritative {
            Some(a) => a,
            None => false,
        },
    }
}

/// Field-by-field application of one override: set fields replace, unset
/// fields keep the value below them.
pub open spec fn apply_spec(c: ZoneConfigV, o: PartialZoneConfigV) -> ZoneConfigV {
    ZoneConfigV {
        upstream: match o.upstream {
            Some(u) => Some(u),
            None => c.upstream,
        },
        ttl: match o.ttl {
            Some(t) => t,
            None => c.ttl,
        },
        nameserver: match o.nameserver {
            Some(n) => n,
            None => c.nameserver,
        },
        authoritative: match o.authoritative {
            Some(a) => a,
            None => c.authoritative,
        },
    }
}

/// A resolved configuration is well-formed: canonical non-root nameserver
/// and a time-to-live that leaves room for the synthesized expiry.
pub open spec fn config_wf(c: ZoneConfigV) -> bool {
    &&& canonical_name(c.nameserver)
    &&& c.nameserver.len() > 0
    &&& c.ttl <= MAX_TTL
}

impl ZoneConfig {
    /// The nameserver is canonical and the time-to-live leaves room for the
    /// synthesized expiry.
    pub open spec fn wf(&self) -> bool {
        config_wf(self@)
    }

    /// A zone's starting configuration, from the defaults alone.
    pub fn new(name: &Fqdn, defaults: &PartialZoneConfig) -> (r: ZoneConfig)
        requires
            name.wf(),
            defaults.wf(),
        ensures
            r.wf(),
            r@ == new_spec(name@, defaults@),
    {
        let upstream = match &defaults.upstream {
            Some(u) => Some(u.clone()),
            None => None,
        };
        let ttl = match defaults.ttl {
            Some(t) => t,
            None => 300,
        };
        let nameserver = match &defaults.nameserver {
            Some(n) => n.clone(),
            None => {
                let label = ns_label_vec();
                proof {
                    assert forall|i: int|
                        0 <= i < label@.len() implies crate::dns::valid_label_byte(
                        #[trigger] label@[i],
                    ) by {
                        assert(label@[i] == 110 || label@[i] == 115);
                    }
                }
                name.child(&label)
            },
        };
        let authoritative = match defaults.authoritative {
            Some(a) => a,
            None => false,
        };
        ZoneConfig { upstream, ttl, nameserver, authoritative }
    }

    /// The zone's nameserver name.
    pub fn nameserver(&self) -> (r: &Fqdn)
        ensures
            r@ == self@.nameserver,
            self.wf() ==> r.wf(),
    {
        &self.nameserver
    }

    /// The zone-contact name: a `hostmaster` label below the nameserver.
    pub fn hostmaster(&self) -> (r: Fqdn)
        requires
            self.wf(),
        ensures
            r.wf(),
            r@ == hostmaster_label() + seq![46u8] + self@.nameserver,
    {
        let label = hostmaster_label_vec();
        proof {
            assert forall|i: int|
                0 <= i < label@.len() implies crate::dns::valid_label_byte(
                #[trigger] label@[i],
            ) by {
                assert(hostmaster_label()[i] == label@[i]);
            }
        }
        self.nameserver.child(&label)
    }

    /// The synthesized start-of-authority payload: nameserver and contact
    /// from the configuration, a fixed zero serial (documented as a stable
    /// serial), refresh and retry equal to the time-to-live, expiry ten
    /// times it, and a one-minute negative minimum.
    pub fn soa(&self) -> (s: SoaData)
        requires
            self.wf(),
        ensures
            s@ == soa_spec(self@),
    {
        let mname = self.nameserver.clone();
        let rname = self.hostmaster();
        SoaData {
            mname,
            rname,
            serial: 0,
            refresh: self.ttl,
            retry: self.ttl,
            expire: self.ttl * 10,
            minimum: 60,
        }
    }

    /// Lays one more specific override over this configuration, field by
    /// field.
    pub fn apply_config(&mut self, config: &PartialZoneConfig)
        requires
            old(self).wf(),
            config.wf(),
        ensures
            final(self).wf(),
            final(self)@ == apply_spec(old(self)@, config@),
    {
        if let Some(ref upstream) = config.upstream {
            self.upstream = Some(upstream.clone());
        }
        if let Some(ttl) = config.ttl {
            self.ttl = ttl;
        }
        if let Some(ref nameserver) = config.nameserver {
            self.nameserver = nameserver.clone();
        }
        if let Some(authoritative) = config.authoritative {
            self.authoritative = authoritative;
        }
    }

    /// Where queries this zone cannot answer are sent: never anywhere for
    /// an authoritative zone, else the resolved upstream, if any.
    pub fn effective_upstream(&self) -> (r: Option<Upstream>)
        ensures
            match r {
                Some(u) => effective_upstream_spec(self@) == Some(u@),
                None => effective_upstream_spec(self@) is None,
            },
    {
        if self.authoritative {
            None
        } else {
            match &self.upstream {
                Some(u) => Some(u.clone()),
                None => None,
            }
        }
    }
}

/// The synthesized start-of-authority payload of a resolved configuration.
pub open spec fn soa_spec(c: ZoneConfigV) -> SoaV {
    SoaV {
        mname: c.nameserver,
        rname: hostmaster_label() + seq![46u8] + c.nameserver,
        serial: 0,
        refresh: c.ttl,
        retry: c.ttl,
        expire: (c.ttl * 10) as u32,
        minimum: 60,
    }
}

/// Authority always wins over forwarding.
pub open spec fn effective_upstream_spec(c: ZoneConfigV) -> Option<Seq<u8>> {
    if c.authoritative {
        None
    } else {
        c.upstream
    }
}

/// The override at `j` applies to `name` and sets the field `sets` asks
/// about.
pub open spec fn is_setter(
    ovr: Seq<(Seq<u8>, PartialZoneConfigV)>,
    name: Seq<u8>,
    sets: spec_fn(PartialZoneConfigV) -> bool,
    j: int,
) -> bool {
    &&& 0 <= j < ovr.len()
    &&& is_ancestor_of(ovr[j].0, name)
    &&& sets(ovr[j].1)
}

/// The override at `j` is the most specific applicable one setting the
/// field: no other applicable setter has a longer domain.
pub open spec fn is_max_setter(
    ovr: Seq<(Seq<u8>, PartialZoneConfigV)>,
    name: Seq<u8>,
    sets: spec_fn(PartialZoneConfigV) -> bool,
    j: int,
) -> bool {
    &&& is_setter(ovr, name, sets, j)
    &&& forall|k: int| #[trigger]
        is_setter(ovr, name, sets, k) ==> ovr[k].0.len() <= ovr[j].0.len()
}

/// Some applicable override sets the field.
pub open spec fn has_setter(
    ovr: Seq<(Seq<u8>, PartialZoneConfigV)>,
    name: Seq<u8>,
    sets: spec_fn(PartialZoneConfigV) -> bool,
) -> bool {
    exists|j: int| #[trigger] is_setter(ovr, name, sets, j)
}

/// The most specific applicable setter of the field.
pub open spec fn max_setter(
    ovr: Seq<(Seq<u8>, PartialZoneConfigV)>,
    name: Seq<u8>,
    sets: spec_fn(PartialZoneConfigV) -> bool,
) -> int {
    choose|j: int| is_max_setter(ovr, name, sets, j)
}

/// No two overrides declare the same domain.
pub open spec fn unique_domains(ovr: Seq<(Seq<u8>, PartialZoneConfigV)>) -> bool {
    forall|i: int, j: int| 0 <= i < j < ovr.len() ==> (#[trigger] ovr[i]).0 != (#[trigger] ovr[j]).0
}

/// With unique domains, the most specific applicable setter is unique: any
/// override meeting the description is the chosen one.
pub proof fn lemma_max_setter_unique(
    ovr: Seq<(Seq<u8>, PartialZoneConfigV)>,
    name: Seq<u8>,
    sets: spec_fn(PartialZoneConfigV) -> bool,
    j: int,
)
    requires
        unique_domains(ovr),
        is_max_setter(ovr, name, sets, j),
    ensures
        max_setter(ovr, name, sets) == j,
        has_setter(ovr, name, sets),
{
    assert(is_setter(ovr, name, sets, j));
    let c = max_setter(ovr, name, sets);
    assert(is_max_setter(ovr, name, sets, c));
    assert(ovr[c].0.len() <= ovr[j].0.len());
    assert(ovr[j].0.len() <= ovr[c].0.len());
    lemma_ancestor_same_len(ovr[c].0, ovr[j].0, name);
    if c != j {
        if c < j {
            assert(ovr[c].0 != ovr[j].0);
        } else {
            assert(ovr[j].0 != ovr[c].0);
        }
        assert(false);
    }
}

spec fn is_setter_upto(
    ovr: Seq<(Seq<u8>, PartialZoneConfigV)>,
    name: Seq<u8>,
    sets: spec_fn(PartialZoneConfigV) -> bool,
    j: int,
    n: int,
) -> bool {
    is_setter(ovr, name, sets, j) && j < n
}

spec fn is_max_upto(
    ovr: Seq<(Seq<u8>, PartialZoneConfigV)>,
    name: Seq<u8>,
    sets: spec_fn(PartialZoneConfigV) -> bool,
    j: int,
    n: int,
) -> bool {
    &&& is_setter_upto(ovr, name, sets, j, n)
    &&& forall|k: int| #[trigger]
        is_setter_upto(ovr, name, sets, k, n) ==> ovr[k].0.len() <= ovr[j].0.len()
}

proof fn lemma_max_upto_exists(
    ovr: Seq<(Seq<u8>, PartialZoneConfigV)>,
    name: Seq<u8>,
    sets: spec_fn(PartialZoneConfigV) -> bool,
    n: int,
)
    requires
        exists|j: int| #[trigger] is_setter_upto(ovr, name, sets, j, n),
    ensures
        exists|j: int| #[trigger] is_max_upto(ovr, name, sets, j, n),
    decreases n,
{
    let w = choose|j: int| #[trigger] is_setter_upto(ovr, name, sets, j, n);
    if n <= 0 {
        assert(false);
    } else if exists|j: int| #[trigger] is_setter_upto(ovr, name, sets, j, n - 1) {
        lemma_max_upto_exists(ovr, name, sets, n - 1);
        let m = choose|j: int| #[trigger] is_max_upto(ovr, name, sets, j, n - 1);
        if is_setter(ovr, name, sets, n - 1) && ovr[n - 1].0.len() > ovr[m].0.len() {
            assert forall|k: int| #[trigger] is_setter_upto(ovr, name, sets, k, n) implies
                ovr[k].0.len() <= ovr[n - 1].0.len() by {
                if k < n - 1 {
                    assert(is_setter_upto(ovr, name, sets, k, n - 1));
                }
            }
            assert(is_max_upto(ovr, name, sets, n - 1, n));
        } else {
            assert forall|k: int| #[trigger] is_setter_upto(ovr, name, sets, k, n) implies
                ovr[k].0.len() <= ovr[m].0.len() by {
                if k < n - 1 {
                    assert(is_setter_upto(ovr, name, sets, k, n - 1));
                }
            }
            assert(is_max_upto(ovr, name, sets, m, n));
        }
    } else {
        if w != n - 1 {
            assert(is_setter_upto(ovr, name, sets, w, n - 1));
            assert(false);
        }
        assert(w == n - 1);
        assert forall|k: int| #[trigger] is_setter_upto(ovr, name, sets, k, n) implies ovr[
            k
        ].0.len() <= ovr[n - 1].0.len() by {
            if k < n - 1 {
                assert(is_setter_upto(ovr, name, sets, k, n - 1));
            }
        }
        assert(is_max_upto(ovr, name, sets, n - 1, n));
    }
}

/// Some most specific applicable setter exists whenever any setter does.
proof fn lemma_max_setter_exists(
    ovr: Seq<(Seq<u8>, PartialZoneConfigV)>,
    name: Seq<u8>,
    sets: spec_fn(PartialZoneConfigV) -> bool,
)
    requires
        has_setter(ovr, name, sets),
    ensures
        is_max_setter(ovr, name, sets, max_setter(ovr, name, sets)),
{
    let w = choose|j: int| #[trigger] is_setter(ovr, name, sets, j);
    assert(is_setter_upto(ovr, name, sets, w, ovr.len() as int));
    lemma_max_upto_exists(ovr, name, sets, ovr.len() as int);
    let m = choose|j: int| #[trigger] is_max_upto(ovr, name, sets, j, ovr.len() as int);
    assert forall|k: int| #[trigger] is_setter(ovr, name, sets, k) implies ovr[k].0.len() <= ovr[
        m
    ].0.len() by {
        assert(is_setter_upto(ovr, name, sets, k, ovr.len() as int));
    }
    assert(is_max_setter(ovr, name, sets, m));
    assert(is_max_setter(ovr, name, sets, max_setter(ovr, name, sets)));
}

/// Whether a declaration sets the forwarding target.
pub open spec fn sets_upstream() -> spec_fn(PartialZoneConfigV) -> bool {
    |o: PartialZoneConfigV| o.upstream is Some
}

/// Whether a declaration sets the time-to-live.
pub open spec fn sets_ttl() -> spec_fn(PartialZoneConfigV) -> bool {
    |o: PartialZoneConfigV| o.ttl is Some
}

/// Whether a declaration sets the nameserver.
pub open spec fn sets_nameserver() -> spec_fn(PartialZoneConfigV) -> bool {
    |o: PartialZoneConfigV| o.nameserver is Some
}

/// Whether a declaration sets the authority flag.
pub open spec fn sets_authoritative() -> spec_fn(PartialZoneConfigV) -> bool {
    |o: PartialZoneConfigV| o.authoritative is Some
}

/// The zone's resolved forwarding target: the most specific applicable
/// override that sets one, else the default.
pub open spec fn resolved_upstream(
    d: PartialZoneConfigV,
    ovr: Seq<(Seq<u8>, PartialZoneConfigV)>,
    name: Seq<u8>,
) -> Option<Seq<u8>> {
    if has_setter(ovr, name, sets_upstream()) {
        ovr[max_setter(ovr, name, sets_upstream())].1.upstream
    } else {
        d.upstream
    }
}

/// The zone's resolved time-to-live.
pub open spec fn resolved_ttl(
    d: PartialZoneConfigV,
    ovr: Seq<(Seq<u8>, PartialZoneConfigV)>,
    name: Seq<u8>,
) -> u32 {
    if has_setter(ovr, name, sets_ttl()) {
        ovr[max_setter(ovr, name, sets_ttl())].1.ttl.unwrap()
    } else {
        new_spec(name, d).ttl
    }
}

/// The zone's resolved nameserver.
pub open spec fn resolved_nameserver(
    d: PartialZoneConfigV,
    ovr: Seq<(Seq<u8>, PartialZoneConfigV)>,
    name: Seq<u8>,
) -> Seq<u8> {
    if has_setter(ovr, name, sets_nameserver()) {
        ovr[max_setter(ovr, name, sets_nameserver())].1.nameserver.unwrap()
    } else {
        new_spec(name, d).nameserver
    }
}

/// The zone's resolved authority flag.
pub open spec fn resolved_authoritative(
    d: PartialZoneConfigV,
    ovr: Seq<(Seq<u8>, PartialZoneConfigV)>,
    name: Seq<u8>,
) -> bool {
    if has_setter(ovr, name, sets_authoritative()) {
        ovr[max_setter(ovr, name, sets_authoritative())].1.authoritative.unwrap()
    } else {
        new_spec(name, d).authoritative
    }
}

/// The resolved configuration of the zone named `name`: each field taken
/// from the most specific applicable override that sets it, else from the
/// defaults.
pub open spec fn resolved_config(
    d: PartialZoneConfigV,
    ovr: Seq<(Seq<u8>, PartialZoneConfigV)>,
    name: Seq<u8>,
) -> ZoneConfigV {
    ZoneConfigV {
        upstream: resolved_upstream(d, ovr, name),
        ttl: resolved_ttl(d, ovr, name),
        nameserver: resolved_nameserver(d, ovr, name),
        authoritative: resolved_authoritative(d, ovr, name),
    }
}

/// The zone declarations in force: one default plus domain-scoped
/// overrides with pairwise distinct domains.
#[derive(Debug)]
pub struct Zones {
    defaults: PartialZoneConfig,
    zones: Vec<(Fqdn, PartialZoneConfig)>,
}

impl Zones {
    /// The default declaration.
    pub closed spec fn defaults_view(&self) -> PartialZoneConfigV {
        self.defaults@
    }

    /// The domain-scoped overrides.
    pub closed spec fn overrides(&self) -> Seq<(Seq<u8>, PartialZoneConfigV)> {
        self.zones@.map_values(|p: (Fqdn, PartialZoneConfig)| (p.0@, p.1@))
    }

    /// Canonical distinct domains, well-formed declarations.
    pub closed spec fn wf(&self) -> bool {
        &&& self.defaults.wf()
        &&& forall|i: int|
            0 <= i < self.zones@.len() ==> (#[trigger] self.zones@[i]).0.wf()
                && self.zones@[i].1.wf()
        &&& unique_domains(self.overrides())
    }

    /// Packs the default and the overrides; domains must be distinct.
    pub fn new(defaults: PartialZoneConfig, zones: Vec<(Fqdn, PartialZoneConfig)>) -> (r: Zones)
        requires
            defaults.wf(),
            forall|i: int|
                0 <= i < zones@.len() ==> (#[trigger] zones@[i]).0.wf() && zones@[i].1.wf(),
            forall|i: int, j: int|
                0 <= i < j < zones@.len() ==> (#[trigger] zones@[i]).0@ != (
                #[trigger] zones@[j]).0@,
        ensures
            r.wf(),
            r.defaults_view() == defaults@,
            r.overrides() == zones@.map_values(|p: (Fqdn, PartialZoneConfig)| (p.0@, p.1@)),
    {
        let r = Zones { defaults, zones };
        proof {
            assert forall|i: int, j: int| 0 <= i < j < r.overrides().len() implies (
            #[trigger] r.overrides()[i]).0 != (#[trigger] r.overrides()[j]).0 by {
                assert(r.overrides()[i].0 == r.zones@[i].0@);
                assert(r.overrides()[j].0 == r.zones@[j].0@);
            }
        }
        r
    }

    /// What well-formedness guarantees readers of the overrides: pairwise
    /// distinct, canonical domains.
    pub proof fn lemma_wf(&self)
        requires
            self.wf(),
        ensures
            unique_domains(self.overrides()),
            forall|i: int|
                0 <= i < self.overrides().len() ==> canonical_name(
                    (#[trigger] self.overrides()[i]).0,
                ),
    {
        assert forall|i: int, j: int| 0 <= i < j < self.overrides().len() implies (
        #[trigger] self.overrides()[i]).0 != (#[trigger] self.overrides()[j]).0 by {
            assert(self.overrides()[i].0 == self.zones@[i].0@);
            assert(self.overrides()[j].0 == self.zones@[j].0@);
        }
        assert forall|i: int| 0 <= i < self.overrides().len() implies canonical_name(
            (#[trigger] self.overrides()[i]).0,
        ) by {
            assert(self.overrides()[i].0 == self.zones@[i].0@);
            assert(self.zones@[i].0.wf());
        }
    }

    /// How many overrides are declared.
    pub fn override_count(&self) -> (n: usize)
        ensures
            n == self.overrides().len(),
    {
        self.zones.len()
    }

    /// The domain of the override at `i`.
    pub fn override_domain(&self, i: usize) -> (r: &Fqdn)
        requires
            self.wf(),
            i < self.overrides().len(),
        ensures
            r@ == self.overrides()[i as int].0,
            r.wf(),
    {
        &self.zones[i].0
    }

    /// Resolves the configuration of the zone named `name`: the defaults,
    /// overlaid field by field with every applicable override, the most
    /// specific winning.
    pub fn build_config(&self, name: &Fqdn) -> (r: ZoneConfig)
        requires
            self.wf(),
            name.wf(),
        ensures
            r.wf(),
            r@ == resolved_config(self.defaults_view(), self.overrides(), name@),
    {
        let ghost ovr = self.overrides();
        let ghost nm = name@;
        let ghost d = self.defaults_view();
        let mut config = ZoneConfig::new(name, &self.defaults);
        let mut up_set: bool = false;
        let mut up_len: usize = 0;
        let ghost mut up_idx: int = 0;
        let mut ttl_set: bool = false;
        let mut ttl_len: usize = 0;
        let ghost mut ttl_idx: int = 0;
        let mut ns_set: bool = false;
        let mut ns_len: usize = 0;
        let ghost mut ns_idx: int = 0;
        let mut auth_set: bool = false;
        let mut auth_len: usize = 0;
        let ghost mut auth_idx: int = 0;
        let mut i: usize = 0;
        while i < self.zones.len()
            invariant
                self.wf(),
                name.wf(),
                ovr == self.overrides(),
                nm == name@,
                d == self.defaults_view(),
                0 <= i <= ovr.len(),
                ovr.len() == self.zones@.len(),
                config.wf(),
                config@.upstream == if up_set {
                    ovr[up_idx].1.upstream
                } else {
                    new_spec(nm, d).upstream
                },
                up_set ==> is_setter(ovr, nm, sets_upstream(), up_idx) && up_idx < i
                    && ovr[up_idx].0.len() == up_len,
                !up_set ==> forall|j: int|
                    0 <= j < i ==> !(#[trigger] is_setter(ovr, nm, sets_upstream(), j)),
                forall|j: int|
                    0 <= j < i && #[trigger] is_setter(ovr, nm, sets_upstream(), j) ==> ovr[j].0.len()
                        <= up_len,
                config@.ttl == if ttl_set {
                    ovr[ttl_idx].1.ttl.unwrap()
                } else {
                    new_spec(nm, d).ttl
                },
                ttl_set ==> is_setter(ovr, nm, sets_ttl(), ttl_idx) && ttl_idx < i
                    && ovr[ttl_idx].0.len() == ttl_len,
                !ttl_set ==> forall|j: int|
                    0 <= j < i ==> !(#[trigger] is_setter(ovr, nm, sets_ttl(), j)),
                forall|j: int|
                    0 <= j < i && #[trigger] is_setter(ovr, nm, sets_ttl(), j) ==> ovr[j].0.len()
                        <= ttl_len,
                config@.nameserver == if ns_set {
                    ovr[ns_idx].1.nameserver.unwrap()
                } else {
                    new_spec(nm, d).nameserver
                },
                ns_set ==> is_setter(ovr, nm, sets_nameserver(), ns_idx) && ns_idx < i
                    && ovr[ns_idx].0.len() == ns_len,
                !ns_set ==> forall|j: int|
                    0 <= j < i ==> !(#[trigger] is_setter(ovr, nm, sets_nameserver(), j)),
                forall|j: int|
                    0 <= j < i && #[trigger] is_setter(ovr, nm, sets_nameserver(), j)
                        ==> ovr[j].0.len() <= ns_len,
                config@.authoritative == if auth_set {
                    ovr[auth_idx].1.authoritative.unwrap()
                } else {
                    new_spec(nm, d).authoritative
                },
                auth_set ==> is_setter(ovr, nm, sets_authoritative(), auth_idx) && auth_idx < i
                    && ovr[auth_idx].0.len() == auth_len,
                !auth_set ==> forall|j: int|
                    0 <= j < i ==> !(#[trigger] is_setter(ovr, nm, sets_authoritative(), j)),
                forall|j: int|
                    0 <= j < i && #[trigger] is_setter(ovr, nm, sets_authoritative(), j)
                        ==> ovr[j].0.len() <= auth_len,
            decreases ovr.len() - i,
        {
            let entry = &self.zones[i];
            let applicable = entry.0.is_parent(name);
            let l = entry.0.text_len();
            proof {
                assert(ovr[i as int].0 == entry.0@);
                assert(ovr[i as int].1 == entry.1@);
            }
            if applicable {
                if let Some(ref u) = entry.1.upstream {
                    if !up_set || l > up_len {
                        config.upstream = Some(u.clone());
                        up_set = true;
                        up_len = l;
                        proof {
                            up_idx = i as int;
                        }
                    }
                }
                if let Some(t) = entry.1.ttl {
                    if !ttl_set || l > ttl_len {
                        config.ttl = t;
                        ttl_set = true;
                        ttl_len = l;
                        proof {
                            ttl_idx = i as int;
                        }
                    }
                }
                if let Some(ref n) = entry.1.nameserver {
                    if !ns_set || l > ns_len {
                        config.nameserver = n.clone();
                        ns_set = true;
                        ns_len = l;
                        proof {
                            ns_idx = i as int;
                        }
                    }
                }
                if let Some(a) = entry.1.authoritative {
                    if !auth_set || l > auth_len {
                        config.authoritative = a;
                        auth_set = true;
                        auth_len = l;
                        proof {
                            auth_idx = i as int;
                        }
                    }
                }
            }
            i += 1;
        }
        proof {
            if up_set {
                lemma_max_setter_unique(ovr, nm, sets_upstream(), up_idx);
            } else if has_setter(ovr, nm, sets_upstream()) {
                let j = choose|j: int| #[trigger] is_setter(ovr, nm, sets_upstream(), j);
                assert(false);
            }
            if ttl_set {
                lemma_max_setter_unique(ovr, nm, sets_ttl(), ttl_idx);
            } else if has_setter(ovr, nm, sets_ttl()) {
                let j = choose|j: int| #[trigger] is_setter(ovr, nm, sets_ttl(), j);
                assert(false);
            }
            if ns_set {
                lemma_max_setter_unique(ovr, nm, sets_nameserver(), ns_idx);
            } else if has_setter(ovr, nm, sets_nameserver()) {
                let j = choose|j: int| #[trigger] is_setter(ovr, nm, sets_nameserver(), j);
                assert(false);
            }
            if auth_set {
                lemma_max_setter_unique(ovr, nm, sets_authoritative(), auth_idx);
            } else if has_setter(ovr, nm, sets_authoritative()) {
                let j = choose|j: int| #[trigger] is_setter(ovr, nm, sets_authoritative(), j);
                assert(false);
            }
        }
        config
    }
}

/// Law: an override that does not apply to a zone never changes that
/// zone's resolved configuration — a more specific sibling's authority is
/// invisible to other zones, which keep their own resolution.
pub proof fn lemma_override_locality(
    d: PartialZoneConfigV,
    ovr1: Seq<(Seq<u8>, PartialZoneConfigV)>,
    ovr2: Seq<(Seq<u8>, PartialZoneConfigV)>,
    name: Seq<u8>,
)
    requires
        unique_domains(ovr1),
        unique_domains(ovr2),
        forall|j: int| #[trigger]
            is_setter(ovr1, name, sets_upstream(), j) == is_setter(ovr2, name, sets_upstream(), j)
                && is_setter(ovr1, name, sets_ttl(), j) == is_setter(ovr2, name, sets_ttl(), j)
                && is_setter(ovr1, name, sets_nameserver(), j) == is_setter(
                ovr2,
                name,
                sets_nameserver(),
                j,
            ) && is_setter(ovr1, name, sets_authoritative(), j) == is_setter(
                ovr2,
                name,
                sets_authoritative(),
                j,
            ),
        forall|j: int|
            0 <= j < ovr1.len() && is_ancestor_of((#[trigger] ovr1[j]).0, name) ==> j < ovr2.len()
                && ovr2[j] == ovr1[j],
        forall|j: int|
            0 <= j < ovr2.len() && is_ancestor_of((#[trigger] ovr2[j]).0, name) ==> j < ovr1.len()
                && ovr1[j] == ovr2[j],
    ensures
        resolved_config(d, ovr1, name) == resolved_config(d, ovr2, name),
{
    lemma_field_local(d, ovr1, ovr2, name, sets_upstream());
    lemma_field_local(d, ovr1, ovr2, name, sets_ttl());
    lemma_field_local(d, ovr1, ovr2, name, sets_nameserver());
    lemma_field_local(d, ovr1, ovr2, name, sets_authoritative());
    assert(resolved_upstream(d, ovr1, name) == resolved_upstream(d, ovr2, name));
    assert(resolved_ttl(d, ovr1, name) == resolved_ttl(d, ovr2, name));
    assert(resolved_nameserver(d, ovr1, name) == resolved_nameserver(d, ovr2, name));
    assert(resolved_authoritative(d, ovr1, name) == resolved_authoritative(d, ovr2, name));
}

proof fn lemma_field_local(
    d: PartialZoneConfigV,
    ovr1: Seq<(Seq<u8>, PartialZoneConfigV)>,
    ovr2: Seq<(Seq<u8>, PartialZoneConfigV)>,
    name: Seq<u8>,
    sets: spec_fn(PartialZoneConfigV) -> bool,
)
    requires
        unique_domains(ovr2),
        forall|j: int| #[trigger]
            is_setter(ovr1, name, sets, j) == is_setter(ovr2, name, sets, j),
        forall|j: int|
            0 <= j < ovr1.len() && is_ancestor_of((#[trigger] ovr1[j]).0, name) ==> j < ovr2.len()
                && ovr2[j] == ovr1[j],
    ensures
        has_setter(ovr1, name, sets) == has_setter(ovr2, name, sets),
        has_setter(ovr1, name, sets) ==> ovr1[max_setter(ovr1, name, sets)]
            == ovr2[max_setter(ovr2, name, sets)],
{
    if has_setter(ovr1, name, sets) {
        let j = choose|j: int| #[trigger] is_setter(ovr1, name, sets, j);
        assert(is_setter(ovr2, name, sets, j));
        assert(has_setter(ovr2, name, sets));
    }
    if has_setter(ovr2, name, sets) {
        let j = choose|j: int| #[trigger] is_setter(ovr2, name, sets, j);
        assert(is_setter(ovr1, name, sets, j));
        assert(has_setter(ovr1, name, sets));
    }
    if has_setter(ovr1, name, sets) {
        lemma_max_setter_exists(ovr1, name, sets);
        let c1 = max_setter(ovr1, name, sets);
        assert(is_setter(ovr2, name, sets, c1));
        assert(ovr1[c1] == ovr2[c1]);
        assert forall|k: int| #[trigger] is_setter(ovr2, name, sets, k) implies ovr2[k].0.len()
            <= ovr2[c1].0.len() by {
            assert(is_setter(ovr1, name, sets, k));
            assert(ovr1[k] == ovr2[k]);
        }
        assert(is_max_setter(ovr2, name, sets, c1));
        lemma_max_setter_unique(ovr2, name, sets, c1);
    }
}

} // verus!
