//! The query resolution engine. A query is answered by the zone whose
//! domain is the longest ancestor-or-self of the query name: from its
//! records when it can, by synthesis at the apex, with a negative answer
//! when it is authoritative, and by delegation to its upstream when it is
//! not. CNAME chains are followed across the whole zone set, bounded in
//! depth and guarded against revisiting a name.

use vstd::prelude::*;
use crate::config::{Upstream, effective_upstream_spec, soa_spec};
use crate::dns::{
    DataV, Fqdn, Record, RecordData, RecordKind, RecordSource, RecordV, first_cname, has_name,
    is_ancestor_of, kind_of, lemma_ancestor_same_len, lemma_first_cname_member,
    lemma_matching_members, matching, rec_wf,
};
use crate::zones::{Zone, ZoneSet, ZoneV, zone_wf, zones_wf};

verus! {

/// How many CNAME links one resolution will follow.
pub const CHASE_DEPTH: u8 = 8;

/// DNS response codes the engine produces.
#[derive(PartialEq, Eq, Structural, Clone, Copy, Debug)]
pub enum Rcode {
    NoError,
    NxDomain,
    ServFail,
    Refused,
    FormErr,
}

/// Mathematical image of a query.
pub struct QueryV {
    pub name: Seq<u8>,
    pub kind: RecordKind,
    pub class_in: bool,
    pub recursion_desired: bool,
}

/// One parsed query: name, asked kind, whether the class is IN, and the
/// client's recursion-desired flag.
#[derive(Debug)]
pub struct Query {
    pub name: Fqdn,
    pub kind: RecordKind,
    pub class_in: bool,
    pub recursion_desired: bool,
}

impl View for Query {
    type V = QueryV;

    open spec fn view(&self) -> QueryV {
        QueryV {
            name: self.name@,
            kind: self.kind,
            class_in: self.class_in,
            recursion_desired: self.recursion_desired,
        }
    }
}

/// Mathematical image of a response.
pub struct ResponseV {
    pub rcode: Rcode,
    pub answers: Seq<RecordV>,
    pub authority: Seq<RecordV>,
    pub authoritative: bool,
}

/// A locally-produced response: code, answer records, authority records,
/// and whether it speaks with authority.
#[derive(Debug)]
pub struct Response {
    pub rcode: Rcode,
    pub answers: Vec<Record>,
    pub authority: Vec<Record>,
    pub authoritative: bool,
}

impl View for Response {
    type V = ResponseV;

    open spec fn view(&self) -> ResponseV {
        ResponseV {
            rcode: self.rcode,
            answers: self.answers@.map_values(|r: Record| r@),
            authority: self.authority@.map_values(|r: Record| r@),
            authoritative: self.authoritative,
        }
    }
}

/// Mathematical image of an outcome.
pub enum OutcomeV {
    Respond(ResponseV),
    Forward(Seq<u8>),
}

/// What the engine decides for a query: a finished response, or the
/// upstream the query must be relayed to verbatim (its reply, or a
/// server-failure on transport error, is then the response).
#[derive(Debug)]
pub enum Outcome {
    Respond(Response),
    Forward(Upstream),
}

impl View for Outcome {
    type V = OutcomeV;

    open spec fn view(&self) -> OutcomeV {
        match self {
            Outcome::Respond(r) => OutcomeV::Respond(r@),
            Outcome::Forward(u) => OutcomeV::Forward(u@),
        }
    }
}

/// Zone `i` owns `n`: its domain is an ancestor-or-self of `n` and no zone
/// domain that is an ancestor-or-self of `n` is longer.
pub open spec fn is_owning(zs: Seq<ZoneV>, i: int, n: Seq<u8>) -> bool {
    &&& 0 <= i < zs.len()
    &&& is_ancestor_of(zs[i].domain, n)
    &&& forall|j: int|
        0 <= j < zs.len() && is_ancestor_of((#[trigger] zs[j]).domain, n) ==> zs[j].domain.len()
            <= zs[i].domain.len()
}

/// Some zone owns `n`.
pub open spec fn has_owning(zs: Seq<ZoneV>, n: Seq<u8>) -> bool {
    exists|i: int| #[trigger] is_owning(zs, i, n)
}

/// The owning zone's index.
pub open spec fn owning_idx(zs: Seq<ZoneV>, n: Seq<u8>) -> int {
    choose|i: int| is_owning(zs, i, n)
}

/// With distinct zone domains the owning zone is unique.
pub proof fn lemma_owning_unique(zs: Seq<ZoneV>, n: Seq<u8>, i: int)
    requires
        zones_wf(zs),
        is_owning(zs, i, n),
    ensures
        has_owning(zs, n),
        owning_idx(zs, n) == i,
{
    assert(has_owning(zs, n));
    let c = owning_idx(zs, n);
    assert(is_owning(zs, c, n));
    assert(zs[c].domain.len() <= zs[i].domain.len());
    assert(zs[i].domain.len() <= zs[c].domain.len());
    lemma_ancestor_same_len(zs[c].domain, zs[i].domain, n);
    if c != i {
        if c < i {
            assert(zs[c].domain != zs[i].domain);
        } else {
            assert(zs[i].domain != zs[c].domain);
        }
        assert(false);
    }
}

/// The start-of-authority record a zone synthesizes at its apex.
pub open spec fn soa_record(z: ZoneV) -> RecordV {
    RecordV {
        name: z.domain,
        data: DataV::Soa(soa_spec(z.config)),
        ttl: z.config.ttl,
        source: RecordSource::Local,
    }
}

/// The nameserver record a zone synthesizes at its apex.
pub open spec fn ns_record(z: ZoneV) -> RecordV {
    RecordV {
        name: z.domain,
        data: DataV::Ns(z.config.nameserver),
        ttl: z.config.ttl,
        source: RecordSource::Local,
    }
}

/// Following a CNAME chain: a revisited name or exhausted depth is a
/// server failure; a name outside every zone ends the chain with what was
/// collected; an exact match ends it with the records appended; a further
/// CNAME recurses; otherwise the owning zone answers negatively (with its
/// start of authority when it is authoritative).
pub open spec fn chase_spec(
    zs: Seq<ZoneV>,
    name: Seq<u8>,
    kind: RecordKind,
    visited: Seq<Seq<u8>>,
    acc: Seq<RecordV>,
    fuel: nat,
) -> (Rcode, Seq<RecordV>, Seq<RecordV>)
    decreases fuel,
{
    if visited.contains(name) || fuel == 0 {
        (Rcode::ServFail, Seq::empty(), Seq::empty())
    } else if !has_owning(zs, name) {
        (Rcode::NoError, acc, Seq::empty())
    } else {
        let z = zs[owning_idx(zs, name)];
        let exact = matching(z.records, name, kind);
        if exact.len() > 0 {
            (Rcode::NoError, acc + exact, Seq::empty())
        } else if first_cname(z.records, name) is Some {
            let c = first_cname(z.records, name).unwrap();
            match c.data {
                DataV::Cname(target) => chase_spec(
                    zs,
                    target,
                    kind,
                    visited.push(name),
                    acc.push(c),
                    (fuel - 1) as nat,
                ),
                _ => (Rcode::ServFail, Seq::empty(), Seq::empty()),
            }
        } else if z.config.authoritative {
            if has_name(z.records, name) {
                (Rcode::NoError, acc, seq![soa_record(z)])
            } else {
                (Rcode::NxDomain, acc, seq![soa_record(z)])
            }
        } else {
            (Rcode::NoError, acc, Seq::empty())
        }
    }
}

/// The engine's whole decision for one query.
pub open spec fn resolve_spec(zs: Seq<ZoneV>, q: QueryV) -> OutcomeV {
    if !q.class_in {
        OutcomeV::Respond(
            ResponseV {
                rcode: Rcode::FormErr,
                answers: Seq::empty(),
                authority: Seq::empty(),
                authoritative: false,
            },
        )
    } else if !has_owning(zs, q.name) {
        OutcomeV::Respond(
            ResponseV {
                rcode: Rcode::Refused,
                answers: Seq::empty(),
                authority: Seq::empty(),
                authoritative: false,
            },
        )
    } else {
        let z = zs[owning_idx(zs, q.name)];
        let exact = matching(z.records, q.name, q.kind);
        if exact.len() > 0 {
            OutcomeV::Respond(
                ResponseV {
                    rcode: Rcode::NoError,
                    answers: exact,
                    authority: Seq::empty(),
                    authoritative: z.config.authoritative,
                },
            )
        } else if q.kind != RecordKind::Cname && first_cname(z.records, q.name) is Some {
            let c = first_cname(z.records, q.name).unwrap();
            match c.data {
                DataV::Cname(target) => {
                    let (rc, ans, auth) = chase_spec(
                        zs,
                        target,
                        q.kind,
                        seq![q.name],
                        seq![c],
                        (CHASE_DEPTH - 1) as nat,
                    );
                    OutcomeV::Respond(
                        ResponseV {
                            rcode: rc,
                            answers: ans,
                            authority: auth,
                            authoritative: z.config.authoritative,
                        },
                    )
                },
                _ => OutcomeV::Respond(
                    ResponseV {
                        rcode: Rcode::ServFail,
                        answers: Seq::empty(),
                        authority: Seq::empty(),
                        authoritative: z.config.authoritative,
                    },
                ),
            }
        } else if !z.config.authoritative {
            match effective_upstream_spec(z.config) {
                Some(u) => OutcomeV::Forward(u),
                None => OutcomeV::Respond(
                    ResponseV {
                        rcode: Rcode::Refused,
                        answers: Seq::empty(),
                        authority: Seq::empty(),
                        authoritative: false,
                    },
                ),
            }
        } else if q.name == z.domain && q.kind == RecordKind::Soa {
            OutcomeV::Respond(
                ResponseV {
                    rcode: Rcode::NoError,
                    answers: seq![soa_record(z)],
                    authority: Seq::empty(),
                    authoritative: true,
                },
            )
        } else if q.name == z.domain && q.kind == RecordKind::Ns {
            OutcomeV::Respond(
                ResponseV {
                    rcode: Rcode::NoError,
                    answers: seq![ns_record(z)],
                    authority: Seq::empty(),
                    authoritative: true,
                },
            )
        } else if has_name(z.records, q.name) {
            OutcomeV::Respond(
                ResponseV {
                    rcode: Rcode::NoError,
                    answers: Seq::empty(),
                    authority: seq![soa_record(z)],
                    authoritative: true,
                },
            )
        } else {
            OutcomeV::Respond(
                ResponseV {
                    rcode: Rcode::NxDomain,
                    answers: Seq::empty(),
                    authority: seq![soa_record(z)],
                    authoritative: true,
                },
            )
        }
    }
}

fn find_owning(zones: &ZoneSet, name: &Fqdn) -> (r: Option<usize>)
    requires
        zones.wf(),
    ensures
        match r {
            Some(i) => is_owning(zones@, i as int, name@) && owning_idx(zones@, name@) == i as int
                && has_owning(zones@, name@),
            None => !has_owning(zones@, name@),
        },
{
    let mut found: bool = false;
    let mut best: usize = 0;
    let mut best_len: usize = 0;
    let mut i: usize = 0;
    while i < zones.len()
        invariant
            zones.wf(),
            0 <= i <= zones@.len(),
            found ==> best < i && is_ancestor_of(zones@[best as int].domain, name@)
                && zones@[best as int].domain.len() == best_len,
            found ==> forall|j: int|
                0 <= j < i && is_ancestor_of((#[trigger] zones@[j]).domain, name@)
                    ==> zones@[j].domain.len() <= best_len,
            !found ==> forall|j: int|
                0 <= j < i ==> !is_ancestor_of((#[trigger] zones@[j]).domain, name@),
        decreases zones@.len() - i,
    {
        let z = zones.get(i);
        if z.domain.is_parent(name) {
            let l = z.domain.text_len();
            if !found || l > best_len {
                found = true;
                best = i;
                best_len = l;
            }
        }
        i += 1;
    }
    if found {
        proof {
            assert(is_owning(zones@, best as int, name@));
            lemma_owning_unique(zones@, name@, best as int);
        }
        Some(best)
    } else {
        proof {
            if has_owning(zones@, name@) {
                let j = choose|j: int| is_owning(zones@, j, name@);
                assert(is_ancestor_of(zones@[j].domain, name@));
                assert(false);
            }
        }
        None
    }
}

fn synth_soa(z: &Zone) -> (r: Record)
    requires
        zone_wf(z@),
    ensures
        r@ == soa_record(z@),
{
    Record {
        name: z.domain.clone(),
        data: RecordData::Soa(z.config.soa()),
        ttl: z.config.ttl,
        source: RecordSource::Local,
    }
}

fn synth_ns(z: &Zone) -> (r: Record)
    requires
        zone_wf(z@),
    ensures
        r@ == ns_record(z@),
{
    Record {
        name: z.domain.clone(),
        data: RecordData::Ns(z.config.nameserver().clone()),
        ttl: z.config.ttl,
        source: RecordSource::Local,
    }
}

fn contains_name(v: &Vec<Fqdn>, n: &Fqdn) -> (r: bool)
    ensures
        r == v@.map_values(|f: Fqdn| f@).contains(n@),
{
    let ghost names = v@.map_values(|f: Fqdn| f@);
    let mut k: usize = 0;
    while k < v.len()
        invariant
            names == v@.map_values(|f: Fqdn| f@),
            0 <= k <= v@.len(),
            forall|j: int| 0 <= j < k ==> (#[trigger] v@[j])@ != n@,
        decreases v@.len() - k,
    {
        if &v[k] == n {
            proof {
                assert(names[k as int] == n@);
            }
            return true;
        }
        k += 1;
    }
    proof {
        if names.contains(n@) {
            let j = choose|j: int| 0 <= j < names.len() && names[j] == n@;
            assert((v@[j])@ == n@);
            assert(false);
        }
    }
    false
}

fn chase(
    zones: &ZoneSet,
    current: Fqdn,
    kind: RecordKind,
    visited: Vec<Fqdn>,
    acc: Vec<Record>,
    fuel: u8,
) -> (r: (Rcode, Vec<Record>, Vec<Record>))
    requires
        zones.wf(),
        current.wf(),
    ensures
        ({
            let (rc, ans, auth) = chase_spec(
                zones@,
                current@,
                kind,
                visited@.map_values(|f: Fqdn| f@),
                acc@.map_values(|x: Record| x@),
                fuel as nat,
            );
            &&& r.0 == rc
            &&& r.1@.map_values(|x: Record| x@) == ans
            &&& r.2@.map_values(|x: Record| x@) == auth
        }),
    decreases fuel,
{
    let ghost spec_result = chase_spec(
        zones@,
        current@,
        kind,
        visited@.map_values(|f: Fqdn| f@),
        acc@.map_values(|x: Record| x@),
        fuel as nat,
    );
    if contains_name(&visited, &current) || fuel == 0 {
        let e1: Vec<Record> = Vec::new();
        let e2: Vec<Record> = Vec::new();
        proof {
            assert(e1@.map_values(|x: Record| x@) =~= Seq::<RecordV>::empty());
            assert(e2@.map_values(|x: Record| x@) =~= Seq::<RecordV>::empty());
        }
        return (Rcode::ServFail, e1, e2);
    }
    match find_owning(zones, &current) {
        None => {
            let e2: Vec<Record> = Vec::new();
            proof {
                assert(e2@.map_values(|x: Record| x@) =~= Seq::<RecordV>::empty());
            }
            (Rcode::NoError, acc, e2)
        },
        Some(zi) => {
            let z = zones.get(zi);
            let exact = z.records.find_exact(&current, kind);
            if exact.len() > 0 {
                let ghost acc0 = acc@.map_values(|x: Record| x@);
                let ghost ex0 = exact@.map_values(|x: Record| x@);
                let mut out = acc;
                let mut exact_mut = exact;
                out.append(&mut exact_mut);
                let e2: Vec<Record> = Vec::new();
                proof {
                    assert(e2@.map_values(|x: Record| x@) =~= Seq::<RecordV>::empty());
                    assert(out@.map_values(|x: Record| x@) =~= acc0 + ex0);
                }
                (Rcode::NoError, out, e2)
            } else {
                let cname = z.records.find_cname(&current);
                match cname {
                    Some(c) => {
                        proof {
                            lemma_first_cname_member(z@.records, current@);
                        }
                        let target = match &c.data {
                            RecordData::Cname(t) => t.clone(),
                            _ => vstd::pervasive::unreached(),
                        };
                        proof {
                            let j = choose|j: int|
                                0 <= j < z@.records.len() && z@.records[j] == c@;
                            assert(rec_wf(z@.records[j]));
                        }
                        let ghost visited0 = visited@.map_values(|f: Fqdn| f@);
                        let ghost acc0 = acc@.map_values(|x: Record| x@);
                        let ghost cv = c@;
                        let ghost cur0 = current@;
                        let mut visited_next = visited;
                        let mut acc_next = acc;
                        visited_next.push(current);
                        acc_next.push(c);
                        proof {
                            assert(visited_next@.map_values(|f: Fqdn| f@) =~= visited0.push(
                                cur0,
                            ));
                            assert(acc_next@.map_values(|x: Record| x@) =~= acc0.push(cv));
                        }
                        chase(zones, target, kind, visited_next, acc_next, fuel - 1)
                    },
                    None => {
                        if z.config.authoritative {
                            let soa = synth_soa(z);
                            let ghost soav = soa@;
                            let mut auth: Vec<Record> = Vec::new();
                            auth.push(soa);
                            proof {
                                assert(auth@.map_values(|x: Record| x@) =~= seq![soav]);
                            }
                            if z.records.name_exists(&current) {
                                (Rcode::NoError, acc, auth)
                            } else {
                                (Rcode::NxDomain, acc, auth)
                            }
                        } else {
                            let e2: Vec<Record> = Vec::new();
                            proof {
                                assert(e2@.map_values(|x: Record| x@) =~= Seq::<
                                    RecordV,
                                >::empty());
                            }
                            (Rcode::NoError, acc, e2)
                        }
                    },
                }
            }
        },
    }
}

/// Resolves one query against the current zone set: the single-pass
/// decision procedure of the engine. The outcome is exactly what
/// `resolve_spec` describes: a malformed class is refused as a format
/// error, a name no zone owns is refused, local data answers where it can
/// (following CNAME chains), an authoritative zone synthesizes its apex
/// records and negative answers, and a non-authoritative zone hands the
/// query to its upstream when one is configured.
pub fn resolve(zones: &ZoneSet, q: &Query) -> (out: Outcome)
    requires
        zones.wf(),
        q.name.wf(),
    ensures
        out@ == resolve_spec(zones@, q@),
{
    if !q.class_in {
        return Outcome::Respond(respond_empty(Rcode::FormErr, false));
    }
    match find_owning(zones, &q.name) {
        None => Outcome::Respond(respond_empty(Rcode::Refused, false)),
        Some(zi) => {
            let z = zones.get(zi);
            let exact = z.records.find_exact(&q.name, q.kind);
            if exact.len() > 0 {
                let e: Vec<Record> = Vec::new();
                proof {
                    assert(e@.map_values(|x: Record| x@) =~= Seq::<RecordV>::empty());
                }
                return Outcome::Respond(
                    Response {
                        rcode: Rcode::NoError,
                        answers: exact,
                        authority: e,
                        authoritative: z.config.authoritative,
                    },
                );
            }
            if q.kind != RecordKind::Cname {
                let cname = z.records.find_cname(&q.name);
                if let Some(c) = cname {
                    proof {
                        lemma_first_cname_member(z@.records, q.name@);
                    }
                    let target = match &c.data {
                        RecordData::Cname(t) => t.clone(),
                        _ => vstd::pervasive::unreached(),
                    };
                    proof {
                        let j = choose|j: int| 0 <= j < z@.records.len() && z@.records[j] == c@;
                        assert(rec_wf(z@.records[j]));
                    }
                    let ghost cv = c@;
                    let mut visited: Vec<Fqdn> = Vec::new();
                    visited.push(q.name.clone());
                    let mut acc: Vec<Record> = Vec::new();
                    acc.push(c);
                    proof {
                        assert(visited@.map_values(|f: Fqdn| f@) =~= seq![q.name@]);
                        assert(acc@.map_values(|x: Record| x@) =~= seq![cv]);
                    }
                    let (rc, ans, auth) = chase(zones, target, q.kind, visited, acc,
                        CHASE_DEPTH - 1);
                    return Outcome::Respond(
                        Response {
                            rcode: rc,
                            answers: ans,
                            authority: auth,
                            authoritative: z.config.authoritative,
                        },
                    );
                }
            }
            if !z.config.authoritative {
                match z.config.effective_upstream() {
                    Some(u) => Outcome::Forward(u),
                    None => Outcome::Respond(respond_empty(Rcode::Refused, false)),
                }
            } else if q.kind == RecordKind::Soa && &q.name == &z.domain {
                let soa = synth_soa(z);
                let ghost soav = soa@;
                let mut answers: Vec<Record> = Vec::new();
                answers.push(soa);
                let e: Vec<Record> = Vec::new();
                proof {
                    assert(answers@.map_values(|x: Record| x@) =~= seq![soav]);
                    assert(e@.map_values(|x: Record| x@) =~= Seq::<RecordV>::empty());
                }
                Outcome::Respond(
                    Response {
                        rcode: Rcode::NoError,
                        answers,
                        authority: e,
                        authoritative: true,
                    },
                )
            } else if q.kind == RecordKind::Ns && &q.name == &z.domain {
                let ns = synth_ns(z);
                let ghost nsv = ns@;
                let mut answers: Vec<Record> = Vec::new();
                answers.push(ns);
                let e: Vec<Record> = Vec::new();
                proof {
                    assert(answers@.map_values(|x: Record| x@) =~= seq![nsv]);
                    assert(e@.map_values(|x: Record| x@) =~= Seq::<RecordV>::empty());
                }
                Outcome::Respond(
                    Response {
                        rcode: Rcode::NoError,
                        answers,
                        authority: e,
                        authoritative: true,
                    },
                )
            } else {
                let soa = synth_soa(z);
                let ghost soav = soa@;
                let mut authority: Vec<Record> = Vec::new();
                authority.push(soa);
                let e: Vec<Record> = Vec::new();
                proof {
                    assert(authority@.map_values(|x: Record| x@) =~= seq![soav]);
                    assert(e@.map_values(|x: Record| x@) =~= Seq::<RecordV>::empty());
                }
                if z.records.name_exists(&q.name) {
                    Outcome::Respond(
                        Response {
                            rcode: Rcode::NoError,
                            answers: e,
                            authority,
                            authoritative: true,
                        },
                    )
                } else {
                    Outcome::Respond(
                        Response {
                            rcode: Rcode::NxDomain,
                            answers: e,
                            authority,
                            authoritative: true,
                        },
                    )
                }
            }
        },
    }
}

fn respond_empty(rcode: Rcode, authoritative: bool) -> (r: Response)
    ensures
        r@ == (ResponseV {
            rcode,
            answers: Seq::empty(),
            authority: Seq::empty(),
            authoritative,
        }),
{
    let a: Vec<Record> = Vec::new();
    let b: Vec<Record> = Vec::new();
    proof {
        assert(a@.map_values(|x: Record| x@) =~= Seq::<RecordV>::empty());
        assert(b@.map_values(|x: Record| x@) =~= Seq::<RecordV>::empty());
    }
    Response { rcode, answers: a, authority: b, authoritative }
}


/// The record `r` could honestly stand in an answer: the zone owning
/// `r`'s own name — the longest-matching zone for that name — holds it,
/// or it is that zone's synthesized apex record.
pub open spec fn answer_ok(zs: Seq<ZoneV>, r: RecordV) -> bool {
    has_owning(zs, r.name) && {
        let z = zs[owning_idx(zs, r.name)];
        z.records.contains(r) || r == soa_record(z) || r == ns_record(z)
    }
}

proof fn lemma_chase_provenance(
    zs: Seq<ZoneV>,
    name: Seq<u8>,
    kind: RecordKind,
    visited: Seq<Seq<u8>>,
    acc: Seq<RecordV>,
    fuel: nat,
)
    requires
        zones_wf(zs),
        forall|i: int| 0 <= i < acc.len() ==> answer_ok(zs, #[trigger] acc[i]),
    ensures
        forall|i: int|
            0 <= i < chase_spec(zs, name, kind, visited, acc, fuel).1.len() ==> answer_ok(
                zs,
                #[trigger] chase_spec(zs, name, kind, visited, acc, fuel).1[i],
            ),
    decreases fuel,
{
    if visited.contains(name) || fuel == 0 {
    } else if !has_owning(zs, name) {
    } else {
        let idx = owning_idx(zs, name);
        assert(is_owning(zs, idx, name));
        let z = zs[idx];
        let exact = matching(z.records, name, kind);
        if exact.len() > 0 {
            lemma_matching_members(z.records, name, kind);
            assert forall|i: int|
                0 <= i < chase_spec(zs, name, kind, visited, acc, fuel).1.len() implies answer_ok(
                zs,
                #[trigger] chase_spec(zs, name, kind, visited, acc, fuel).1[i],
            ) by {
                let out = chase_spec(zs, name, kind, visited, acc, fuel).1;
                assert(out == acc + exact);
                if i < acc.len() {
                    assert(out[i] == acc[i]);
                } else {
                    let r = out[i];
                    assert(r == exact[i - acc.len()]);
                    assert(r.name == name);
                    let j = choose|j: int| 0 <= j < z.records.len() && z.records[j] == r;
                    assert(z.records.contains(r));
                    lemma_owning_unique(zs, r.name, idx);
                }
            }
        } else if first_cname(z.records, name) is Some {
            let c = first_cname(z.records, name).unwrap();
            lemma_first_cname_member(z.records, name);
            match c.data {
                DataV::Cname(target) => {
                    assert(c.name == name);
                    let j = choose|j: int| 0 <= j < z.records.len() && z.records[j] == c;
                    assert(z.records.contains(c));
                    lemma_owning_unique(zs, c.name, idx);
                    assert(answer_ok(zs, c));
                    assert forall|i: int| 0 <= i < acc.push(c).len() implies answer_ok(
                        zs,
                        #[trigger] acc.push(c)[i],
                    ) by {
                        if i < acc.len() {
                            assert(acc.push(c)[i] == acc[i]);
                        } else {
                            assert(acc.push(c)[i] == c);
                        }
                    }
                    lemma_chase_provenance(
                        zs,
                        target,
                        kind,
                        visited.push(name),
                        acc.push(c),
                        (fuel - 1) as nat,
                    );
                    assert(chase_spec(zs, name, kind, visited, acc, fuel) == chase_spec(
                        zs,
                        target,
                        kind,
                        visited.push(name),
                        acc.push(c),
                        (fuel - 1) as nat,
                    ));
                    assert forall|i: int|
                        0 <= i < chase_spec(zs, name, kind, visited, acc, fuel).1.len()
                        implies answer_ok(
                        zs,
                        #[trigger] chase_spec(zs, name, kind, visited, acc, fuel).1[i],
                    ) by {
                        assert(chase_spec(zs, name, kind, visited, acc, fuel).1[i] == chase_spec(
                            zs,
                            target,
                            kind,
                            visited.push(name),
                            acc.push(c),
                            (fuel - 1) as nat,
                        ).1[i]);
                    }
                },
                _ => {
                },
            }
        } else {
        }
    }
}

/// Law: every record the engine places in an answer section is vouched
/// for by the zone that owns the record's own name — the record is held
/// by that zone, or is its synthesized apex record. A record never
/// appears as an answer out of a different zone's authority.
pub proof fn lemma_answer_provenance(zs: Seq<ZoneV>, q: QueryV)
    requires
        zones_wf(zs),
    ensures
        match resolve_spec(zs, q) {
            OutcomeV::Respond(resp) => forall|i: int|
                0 <= i < resp.answers.len() ==> answer_ok(zs, #[trigger] resp.answers[i]),
            OutcomeV::Forward(_) => true,
        },
{
    if !q.class_in {
    } else if !has_owning(zs, q.name) {
    } else {
        let idx = owning_idx(zs, q.name);
        assert(is_owning(zs, idx, q.name));
        let z = zs[idx];
        let exact = matching(z.records, q.name, q.kind);
        if exact.len() > 0 {
            lemma_matching_members(z.records, q.name, q.kind);
            assert forall|i: int| 0 <= i < exact.len() implies answer_ok(
                zs,
                #[trigger] exact[i],
            ) by {
                let r = exact[i];
                assert(r.name == q.name);
                let j = choose|j: int| 0 <= j < z.records.len() && z.records[j] == r;
                assert(z.records.contains(r));
                lemma_owning_unique(zs, r.name, idx);
            }
        } else if q.kind != RecordKind::Cname && first_cname(z.records, q.name) is Some {
            let c = first_cname(z.records, q.name).unwrap();
            lemma_first_cname_member(z.records, q.name);
            match c.data {
                DataV::Cname(target) => {
                    let j = choose|j: int| 0 <= j < z.records.len() && z.records[j] == c;
                    assert(z.records.contains(c));
                    lemma_owning_unique(zs, c.name, idx);
                    assert(answer_ok(zs, c));
                    assert forall|i: int| 0 <= i < seq![c].len() implies answer_ok(
                        zs,
                        #[trigger] seq![c][i],
                    ) by {
                        assert(seq![c][i] == c);
                    }
                    lemma_chase_provenance(
                        zs,
                        target,
                        q.kind,
                        seq![q.name],
                        seq![c],
                        (CHASE_DEPTH - 1) as nat,
                    );
                },
                _ => {
                },
            }
        } else if !z.config.authoritative {
        } else if q.name == z.domain && (q.kind == RecordKind::Soa || q.kind
            == RecordKind::Ns) {
            lemma_owning_unique(zs, z.domain, idx);
            let resp_answers = if q.kind == RecordKind::Soa {
                seq![soa_record(z)]
            } else {
                seq![ns_record(z)]
            };
            assert forall|i: int| 0 <= i < resp_answers.len() implies answer_ok(
                zs,
                #[trigger] resp_answers[i],
            ) by {
                assert(resp_answers[i] == soa_record(z) || resp_answers[i] == ns_record(z));
                assert(resp_answers[i].name == z.domain);
            }
        } else {
        }
    }
}

/// Law: a query is handed to an upstream only on behalf of the zone that
/// owns its name, only when that zone is not authoritative, holds nothing
/// the query asks for, and resolves to that upstream — authority never
/// forwards.
pub proof fn lemma_forward_needs_delegation(zs: Seq<ZoneV>, q: QueryV)
    ensures
        match resolve_spec(zs, q) {
            OutcomeV::Forward(u) => {
                &&& q.class_in
                &&& has_owning(zs, q.name)
                &&& {
                    let z = zs[owning_idx(zs, q.name)];
                    &&& !z.config.authoritative
                    &&& effective_upstream_spec(z.config) == Some(u)
                    &&& matching(z.records, q.name, q.kind).len() == 0
                    &&& q.kind != RecordKind::Cname ==> first_cname(z.records, q.name) is None
                }
            },
            OutcomeV::Respond(_) => true,
        },
{
}

/// The target a CNAME payload points at.
pub open spec fn cname_target(r: RecordV) -> Seq<u8> {
    match r.data {
        DataV::Cname(t) => t,
        _ => Seq::empty(),
    }
}

/// A configuration in which no owned name ever reaches an exact answer:
/// every name some zone owns has no record of the asked kind, carries a
/// CNAME, and that CNAME's target is again owned by some zone. A CNAME
/// cycle among configured names is the archetype.
pub open spec fn all_cnames_loop(zs: Seq<ZoneV>, kind: RecordKind) -> bool {
    forall|n: Seq<u8>| #[trigger]
        has_owning(zs, n) ==> {
            let z = zs[owning_idx(zs, n)];
            &&& matching(z.records, n, kind).len() == 0
            &&& first_cname(z.records, n) is Some
            &&& has_owning(zs, cname_target(first_cname(z.records, n).unwrap()))
        }
}

proof fn lemma_chase_cycle(
    zs: Seq<ZoneV>,
    name: Seq<u8>,
    kind: RecordKind,
    visited: Seq<Seq<u8>>,
    acc: Seq<RecordV>,
    fuel: nat,
)
    requires
        zones_wf(zs),
        all_cnames_loop(zs, kind),
        has_owning(zs, name),
    ensures
        chase_spec(zs, name, kind, visited, acc, fuel).0 == Rcode::ServFail,
    decreases fuel,
{
    if visited.contains(name) || fuel == 0 {
    } else {
        let z = zs[owning_idx(zs, name)];
        assert(has_owning(zs, name));
        let c = first_cname(z.records, name).unwrap();
        lemma_first_cname_member(z.records, name);
        match c.data {
            DataV::Cname(target) => {
                assert(target == cname_target(c));
                assert(has_owning(zs, target));
                lemma_chase_cycle(zs, target, kind, visited.push(name), acc.push(c), (fuel
                    - 1) as nat);
            },
            _ => {
                assert(kind_of(c.data) == RecordKind::Cname);
                assert(false);
            },
        }
    }
}

/// Law: under a looping CNAME configuration — in particular any CNAME
/// cycle — resolution answers with a server failure. Together with the
/// depth bound this guarantees the engine never follows a chain without
/// terminating.
pub proof fn lemma_cyclic_cnames_servfail(zs: Seq<ZoneV>, q: QueryV)
    requires
        zones_wf(zs),
        all_cnames_loop(zs, q.kind),
        q.class_in,
        q.kind != RecordKind::Cname,
        has_owning(zs, q.name),
    ensures
        ({
            let o = resolve_spec(zs, q);
            match o {
                OutcomeV::Respond(r) => r.rcode == Rcode::ServFail,
                OutcomeV::Forward(_) => false,
            }
        }),
{
    let z = zs[owning_idx(zs, q.name)];
    assert(has_owning(zs, q.name));
    let c = first_cname(z.records, q.name).unwrap();
    lemma_first_cname_member(z.records, q.name);
    match c.data {
        DataV::Cname(target) => {
            assert(target == cname_target(c));
            assert(has_owning(zs, target));
            lemma_chase_cycle(zs, target, q.kind, seq![q.name], seq![c], (CHASE_DEPTH
                - 1) as nat);
        },
        _ => {
            assert(kind_of(c.data) == RecordKind::Cname);
            assert(false);
        },
    }
}

} // verus!
