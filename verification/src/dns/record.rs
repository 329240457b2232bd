//! Resource records and deduplicated record collections. A record's
//! identity for deduplication is its (name, kind, data); time-to-live and
//! provenance do not participate.

use vstd::prelude::*;
use crate::dns::fqdn::{Fqdn, canonical_name, parent_name};
use crate::sources::SourceId;

verus! {

/// Where a record came from: injected locally, or published by a source.
#[derive(PartialEq, Eq, Structural, Clone, Copy, Debug)]
pub enum RecordSource {
    Local,
    Source(SourceId),
}

/// The kind of a record or of a query. `Unknown` stands for query types the
/// server holds no records of; no record ever has it.
#[derive(PartialEq, Eq, Structural, Clone, Copy, Debug)]
pub enum RecordKind {
    A,
    Aaaa,
    Cname,
    Ns,
    Ptr,
    Txt,
    Soa,
    Unknown,
}

/// Start-of-authority payload.
#[derive(Debug)]
pub struct SoaData {
    pub mname: Fqdn,
    pub rname: Fqdn,
    pub serial: u32,
    pub refresh: u32,
    pub retry: u32,
    pub expire: u32,
    pub minimum: u32,
}

/// A record's payload; the variant fixes the record's kind.
#[derive(Debug)]
pub enum RecordData {
    A(u32),
    Aaaa(u128),
    Cname(Fqdn),
    Ns(Fqdn),
    Ptr(Fqdn),
    Txt(Vec<u8>),
    Soa(SoaData),
}

/// One resource record.
#[derive(Debug)]
pub struct Record {
    pub name: Fqdn,
    pub data: RecordData,
    pub ttl: u32,
    pub source: RecordSource,
}

/// Mathematical image of a start-of-authority payload.
pub struct SoaV {
    pub mname: Seq<u8>,
    pub rname: Seq<u8>,
    pub serial: u32,
    pub refresh: u32,
    pub retry: u32,
    pub expire: u32,
    pub minimum: u32,
}

/// Mathematical image of a record payload.
pub enum DataV {
    A(u32),
    Aaaa(u128),
    Cname(Seq<u8>),
    Ns(Seq<u8>),
    Ptr(Seq<u8>),
    Txt(Seq<u8>),
    Soa(SoaV),
}

/// Mathematical image of a record.
pub struct RecordV {
    pub name: Seq<u8>,
    pub data: DataV,
    pub ttl: u32,
    pub source: RecordSource,
}

impl View for SoaData {
    type V = SoaV;

    open spec fn view(&self) -> SoaV {
        SoaV {
            mname: self.mname@,
            rname: self.rname@,
            serial: self.serial,
            refresh: self.refresh,
            retry: self.retry,
            expire: self.expire,
            minimum: self.minimum,
        }
    }
}

impl View for RecordData {
    type V = DataV;

    open spec fn view(&self) -> DataV {
        match self {
            RecordData::A(x) => DataV::A(*x),
            RecordData::Aaaa(x) => DataV::Aaaa(*x),
            RecordData::Cname(n) => DataV::Cname(n@),
            RecordData::Ns(n) => DataV::Ns(n@),
            RecordData::Ptr(n) => DataV::Ptr(n@),
            RecordData::Txt(t) => DataV::Txt(t@),
            RecordData::Soa(s) => DataV::Soa(s@),
        }
    }
}

impl View for Record {
    type V = RecordV;

    open spec fn view(&self) -> RecordV {
        RecordV { name: self.name@, data: self.data@, ttl: self.ttl, source: self.source }
    }
}

/// The kind a payload fixes.
pub open spec fn kind_of(d: DataV) -> RecordKind {
    match d {
        DataV::A(_) => RecordKind::A,
        DataV::Aaaa(_) => RecordKind::Aaaa,
        DataV::Cname(_) => RecordKind::Cname,
        DataV::Ns(_) => RecordKind::Ns,
        DataV::Ptr(_) => RecordKind::Ptr,
        DataV::Txt(_) => RecordKind::Txt,
        DataV::Soa(_) => RecordKind::Soa,
    }
}

/// A record's identity for deduplication: name and payload (the payload
/// fixes the kind); time-to-live and provenance are left out.
pub open spec fn rec_key(r: RecordV) -> (Seq<u8>, DataV) {
    (r.name, r.data)
}

/// A well-formed record: canonical non-root owner name, canonical names in
/// the payload.
pub open spec fn rec_wf(r: RecordV) -> bool {
    &&& canonical_name(r.name)
    &&& r.name.len() > 0
    &&& match r.data {
        DataV::Cname(n) => canonical_name(n) && n.len() > 0,
        DataV::Ns(n) => canonical_name(n) && n.len() > 0,
        DataV::Ptr(n) => canonical_name(n) && n.len() > 0,
        DataV::Soa(s) => canonical_name(s.mname) && canonical_name(s.rname),
        _ => true,
    }
}

/// Some record in `s` has identity `k`.
pub open spec fn has_key(s: Seq<RecordV>, k: (Seq<u8>, DataV)) -> bool {
    exists|i: int| 0 <= i < s.len() && rec_key(#[trigger] s[i]) == k
}

/// The set of identities present in `s`.
pub open spec fn set_keys(s: Seq<RecordV>) -> Set<(Seq<u8>, DataV)> {
    Set::new(|k: (Seq<u8>, DataV)| has_key(s, k))
}

/// Some record in `s` is owned by `name`.
pub open spec fn has_name(s: Seq<RecordV>, name: Seq<u8>) -> bool {
    exists|i: int| 0 <= i < s.len() && (#[trigger] s[i]).name == name
}

/// Deduplicated well-formed record sequence: no two members share an
/// identity, every member is well-formed.
pub open spec fn recs_wf(s: Seq<RecordV>) -> bool {
    &&& forall|i: int| 0 <= i < s.len() ==> rec_wf(#[trigger] s[i])
    &&& forall|i: int, j: int| 0 <= i < j < s.len() ==> rec_key(s[i]) != rec_key(s[j])
}

/// The records of `s` whose owner name sits exactly one label below `d`,
/// in order.
pub open spec fn with_parent(s: Seq<RecordV>, d: Seq<u8>) -> Seq<RecordV>
    decreases s.len(),
{
    if s.len() == 0 {
        Seq::empty()
    } else {
        let rest = with_parent(s.drop_last(), d);
        if parent_name(s.last().name) == d {
            rest.push(s.last())
        } else {
            rest
        }
    }
}

/// What `with_parent` keeps: members of `s` owned one label below `d`,
/// deduplicated like `s`, and complete for that parent.
pub proof fn lemma_with_parent_props(s: Seq<RecordV>, d: Seq<u8>)
    requires
        recs_wf(s),
    ensures
        recs_wf(with_parent(s, d)),
        forall|i: int|
            0 <= i < with_parent(s, d).len() ==> parent_name(
                (#[trigger] with_parent(s, d)[i]).name,
            ) == d && exists|j: int| 0 <= j < s.len() && s[j] == with_parent(s, d)[i],
        forall|j: int|
            0 <= j < s.len() && parent_name((#[trigger] s[j]).name) == d ==> with_parent(
                s,
                d,
            ).contains(s[j]),
    decreases s.len(),
{
    if s.len() == 0 {
    } else {
        assert(recs_wf(s.drop_last()));
        lemma_with_parent_props(s.drop_last(), d);
        let rest = with_parent(s.drop_last(), d);
        let whole = with_parent(s, d);
        assert forall|i: int|
            0 <= i < whole.len() implies parent_name((#[trigger] whole[i]).name) == d && exists|
        j: int|
            0 <= j < s.len() && s[j] == whole[i] by {
            if i < rest.len() {
                assert(whole[i] == rest[i]);
                let j = choose|j: int| 0 <= j < s.drop_last().len() && s.drop_last()[j] == rest[i];
                assert(s[j] == whole[i]);
            } else {
                assert(whole[i] == s.last());
                assert(s[s.len() - 1] == whole[i]);
            }
        }
        assert forall|i: int, j: int| 0 <= i < j < whole.len() implies rec_key(whole[i])
            != rec_key(whole[j]) by {
            if j < rest.len() {
            } else if parent_name(s.last().name) == d {
                assert(whole[j] == s.last());
                assert(whole[i] == rest[i]);
                let u = choose|u: int|
                    0 <= u < s.drop_last().len() && s.drop_last()[u] == rest[i];
                assert(s[u] == whole[i]);
                assert(rec_key(s[u]) != rec_key(s[s.len() - 1]));
            }
        }
        assert forall|j: int|
            0 <= j < s.len() && parent_name((#[trigger] s[j]).name) == d implies whole.contains(
            s[j],
        ) by {
            if j < s.len() - 1 {
                assert(s.drop_last()[j] == s[j]);
                assert(rest.contains(s[j]));
                let u = choose|u: int| 0 <= u < rest.len() && rest[u] == s[j];
                assert(whole[u] == s[j]);
            } else {
                assert(whole[whole.len() - 1] == s.last());
            }
        }
    }
}

/// The records of `s` owned by `name` and of kind `kind`, in order.
pub open spec fn matching(s: Seq<RecordV>, name: Seq<u8>, kind: RecordKind) -> Seq<RecordV>
    decreases s.len(),
{
    if s.len() == 0 {
        Seq::empty()
    } else {
        let rest = matching(s.drop_last(), name, kind);
        if s.last().name == name && kind_of(s.last().data) == kind {
            rest.push(s.last())
        } else {
            rest
        }
    }
}

/// The first CNAME record of `s` owned by `name`, if any.
pub open spec fn first_cname(s: Seq<RecordV>, name: Seq<u8>) -> Option<RecordV>
    decreases s.len(),
{
    if s.len() == 0 {
        None
    } else if s[0].name == name && kind_of(s[0].data) == RecordKind::Cname {
        Some(s[0])
    } else {
        first_cname(s.skip(1), name)
    }
}

fn bytes_eq(a: &Vec<u8>, b: &Vec<u8>) -> (r: bool)
    ensures
        r == (a@ == b@),
{
    if a.len() != b.len() {
        proof {
            assert(a@ != b@);
        }
        return false;
    }
    let mut i: usize = 0;
    while i < a.len()
        invariant
            0 <= i <= a@.len(),
            a@.len() == b@.len(),
            forall|j: int| 0 <= j < i ==> a@[j] == b@[j],
        decreases a@.len() - i,
    {
        if a[i] != b[i] {
            return false;
        }
        i += 1;
    }
    proof {
        assert(a@ =~= b@);
    }
    true
}

fn copy_bytes(a: &Vec<u8>) -> (r: Vec<u8>)
    ensures
        r@ == a@,
{
    let mut out: Vec<u8> = Vec::new();
    let mut i: usize = 0;
    while i < a.len()
        invariant
            0 <= i <= a@.len(),
            out@ == a@.take(i as int),
        decreases a@.len() - i,
    {
        out.push(a[i]);
        i += 1;
        proof {
            assert(out@ =~= a@.take(i as int));
        }
    }
    proof {
        assert(out@ =~= a@);
    }
    out
}

impl Clone for SoaData {
    fn clone(&self) -> (r: Self)
        ensures
            r@ == self@,
    {
        SoaData {
            mname: self.mname.clone(),
            rname: self.rname.clone(),
            serial: self.serial,
            refresh: self.refresh,
            retry: self.retry,
            expire: self.expire,
            minimum: self.minimum,
        }
    }
}

impl Clone for RecordData {
    fn clone(&self) -> (r: Self)
        ensures
            r@ == self@,
    {
        match self {
            RecordData::A(x) => RecordData::A(*x),
            RecordData::Aaaa(x) => RecordData::Aaaa(*x),
            RecordData::Cname(n) => RecordData::Cname(n.clone()),
            RecordData::Ns(n) => RecordData::Ns(n.clone()),
            RecordData::Ptr(n) => RecordData::Ptr(n.clone()),
            RecordData::Txt(t) => RecordData::Txt(copy_bytes(t)),
            RecordData::Soa(s) => RecordData::Soa(s.clone()),
        }
    }
}

impl Clone for Record {
    fn clone(&self) -> (r: Self)
        ensures
            r@ == self@,
    {
        Record {
            name: self.name.clone(),
            data: self.data.clone(),
            ttl: self.ttl,
            source: self.source,
        }
    }
}

fn soa_eq(a: &SoaData, b: &SoaData) -> (r: bool)
    ensures
        r == (a@ == b@),
{
    a.mname == b.mname && a.rname == b.rname && a.serial == b.serial && a.refresh == b.refresh
        && a.retry == b.retry && a.expire == b.expire && a.minimum == b.minimum
}

fn data_eq(a: &RecordData, b: &RecordData) -> (r: bool)
    ensures
        r == (a@ == b@),
{
    match (a, b) {
        (RecordData::A(x), RecordData::A(y)) => *x == *y,
        (RecordData::Aaaa(x), RecordData::Aaaa(y)) => *x == *y,
        (RecordData::Cname(x), RecordData::Cname(y)) => x == y,
        (RecordData::Ns(x), RecordData::Ns(y)) => x == y,
        (RecordData::Ptr(x), RecordData::Ptr(y)) => x == y,
        (RecordData::Txt(x), RecordData::Txt(y)) => bytes_eq(x, y),
        (RecordData::Soa(x), RecordData::Soa(y)) => soa_eq(x, y),
        _ => false,
    }
}

impl Record {
    /// Structural identity: same name, kind and payload.
    pub fn same_identity(&self, other: &Record) -> (r: bool)
        ensures
            r == (rec_key(self@) == rec_key(other@)),
    {
        self.name == other.name && data_eq(&self.data, &other.data)
    }

    /// The kind this record's payload fixes.
    pub fn kind(&self) -> (k: RecordKind)
        ensures
            k == kind_of(self@.data),
    {
        match &self.data {
            RecordData::A(_) => RecordKind::A,
            RecordData::Aaaa(_) => RecordKind::Aaaa,
            RecordData::Cname(_) => RecordKind::Cname,
            RecordData::Ns(_) => RecordKind::Ns,
            RecordData::Ptr(_) => RecordKind::Ptr,
            RecordData::Txt(_) => RecordKind::Txt,
            RecordData::Soa(_) => RecordKind::Soa,
        }
    }
}

/// A set of records, deduplicated by structural identity, order-irrelevant
/// for readers that treat it as a set.
#[derive(Debug)]
pub struct RecordSet {
    items: Vec<Record>,
}

impl View for RecordSet {
    type V = Seq<RecordV>;

    closed spec fn view(&self) -> Seq<RecordV> {
        self.items@.map_values(|r: Record| r@)
    }
}

impl Clone for RecordSet {
    fn clone(&self) -> (r: Self)
        ensures
            r@ == self@,
    {
        let mut out: Vec<Record> = Vec::new();
        let mut i: usize = 0;
        while i < self.items.len()
            invariant
                0 <= i <= self.items@.len(),
                out@.len() == i,
                forall|j: int| 0 <= j < i ==> (#[trigger] out@[j])@ == self.items@[j]@,
            decreases self.items@.len() - i,
        {
            out.push(self.items[i].clone());
            i += 1;
        }
        let result = RecordSet { items: out };
        proof {
            assert(result@ =~= self@);
        }
        result
    }
}

impl RecordSet {
    /// No two members share an identity, and every member is well-formed.
    pub open spec fn wf(&self) -> bool {
        recs_wf(self@)
    }

    /// The empty record set.
    pub fn new() -> (r: RecordSet)
        ensures
            r@ == Seq::<RecordV>::empty(),
            r.wf(),
    {
        let r = RecordSet { items: Vec::new() };
        proof {
            assert(r@ =~= Seq::<RecordV>::empty());
        }
        r
    }

    pub fn len(&self) -> (n: usize)
        ensures
            n == self@.len(),
    {
        self.items.len()
    }

    pub fn get(&self, i: usize) -> (r: &Record)
        requires
            i < self@.len(),
        ensures
            r@ == self@[i as int],
    {
        &self.items[i]
    }

    /// Whether a record with the same identity is already present.
    pub fn contains_record(&self, r: &Record) -> (res: bool)
        ensures
            res == has_key(self@, rec_key(r@)),
    {
        let mut i: usize = 0;
        while i < self.items.len()
            invariant
                0 <= i <= self@.len(),
                self@.len() == self.items@.len(),
                forall|j: int| 0 <= j < i ==> rec_key(#[trigger] self@[j]) != rec_key(r@),
            decreases self@.len() - i,
        {
            if self.items[i].same_identity(r) {
                proof {
                    assert(rec_key(self@[i as int]) == rec_key(r@));
                }
                return true;
            }
            i += 1;
        }
        false
    }

    /// Adds a record unless one with the same identity is already present;
    /// the earlier record wins.
    pub fn insert(&mut self, r: Record)
        requires
            old(self).wf(),
            rec_wf(r@),
        ensures
            final(self).wf(),
            final(self)@ == if has_key(old(self)@, rec_key(r@)) {
                old(self)@
            } else {
                old(self)@.push(r@)
            },
            set_keys(final(self)@) == set_keys(old(self)@).insert(rec_key(r@)),
    {
        let ghost old_view = self@;
        if !self.contains_record(&r) {
            let ghost rv = r@;
            self.items.push(r);
            proof {
                assert(self@ =~= old_view.push(rv));
                lemma_set_keys_push(old_view, rv);
            }
        } else {
            proof {
                lemma_set_keys_has(old_view, rec_key(r@));
            }
        }
    }

    /// Whether `name` owns at least one record here, of any kind.
    pub fn name_exists(&self, name: &Fqdn) -> (res: bool)
        ensures
            res == has_name(self@, name@),
    {
        let mut i: usize = 0;
        while i < self.items.len()
            invariant
                0 <= i <= self@.len(),
                self@.len() == self.items@.len(),
                forall|j: int| 0 <= j < i ==> (#[trigger] self@[j]).name != name@,
            decreases self@.len() - i,
        {
            if &self.items[i].name == name {
                proof {
                    assert(self@[i as int].name == name@);
                }
                return true;
            }
            i += 1;
        }
        false
    }

    /// All records owned by `name` of kind `kind`, copied out in order.
    pub fn find_exact(&self, name: &Fqdn, kind: RecordKind) -> (out: Vec<Record>)
        ensures
            out@.map_values(|r: Record| r@) == matching(self@, name@, kind),
    {
        let mut out: Vec<Record> = Vec::new();
        let mut i: usize = 0;
        while i < self.items.len()
            invariant
                0 <= i <= self@.len(),
                self@.len() == self.items@.len(),
                out@.map_values(|r: Record| r@) == matching(
                    self@.take(i as int),
                    name@,
                    kind,
                ),
            decreases self@.len() - i,
        {
            let ghost prefix = self@.take(i as int);
            let rec = &self.items[i];
            if &rec.name == name && rec.kind() == kind {
                out.push(rec.clone());
            }
            i += 1;
            proof {
                assert(self@.take(i as int).drop_last() =~= prefix);
                assert(self@.take(i as int).last() == self@[i - 1]);
                assert(out@.map_values(|r: Record| r@) =~= matching(
                    self@.take(i as int),
                    name@,
                    kind,
                ));
            }
        }
        proof {
            assert(self@.take(self@.len() as int) =~= self@);
        }
        out
    }

    /// The first CNAME record owned by `name`, copied out, if any.
    pub fn find_cname(&self, name: &Fqdn) -> (out: Option<Record>)
        ensures
            match out {
                Some(r) => first_cname(self@, name@) == Some(r@),
                None => first_cname(self@, name@) is None,
            },
    {
        proof {
            assert(self@.skip(0) =~= self@);
        }
        let mut i: usize = 0;
        while i < self.items.len()
            invariant
                0 <= i <= self@.len(),
                self@.len() == self.items@.len(),
                first_cname(self@, name@) == first_cname(self@.skip(i as int), name@),
            decreases self@.len() - i,
        {
            let rec = &self.items[i];
            proof {
                assert(self@.skip(i as int)[0] == self@[i as int]);
            }
            if &rec.name == name && rec.kind() == RecordKind::Cname {
                return Some(rec.clone());
            }
            i += 1;
            proof {
                assert(self@.skip(i as int - 1).skip(1) =~= self@.skip(i as int));
                assert(first_cname(self@.skip(i as int - 1), name@) == first_cname(
                    self@.skip(i as int),
                    name@,
                ));
            }
        }
        proof {
            assert(self@.skip(self@.len() as int) =~= Seq::<RecordV>::empty());
        }
        None
    }

    /// The members owned exactly one label below `d`, copied out in order.
    pub fn records_for_parent(&self, d: &Fqdn) -> (out: RecordSet)
        requires
            self.wf(),
        ensures
            out@ == with_parent(self@, d@),
            out.wf(),
    {
        let mut items: Vec<Record> = Vec::new();
        let mut i: usize = 0;
        while i < self.items.len()
            invariant
                0 <= i <= self@.len(),
                self@.len() == self.items@.len(),
                self.wf(),
                items@.map_values(|r: Record| r@) == with_parent(self@.take(i as int), d@),
            decreases self@.len() - i,
        {
            let ghost prefix = self@.take(i as int);
            let rec = &self.items[i];
            proof {
                assert(rec@ == self@[i as int]);
                assert(rec_wf(self@[i as int]));
            }
            let p = rec.name.parent();
            if &p == d {
                items.push(rec.clone());
            }
            i += 1;
            proof {
                assert(self@.take(i as int).drop_last() =~= prefix);
                assert(self@.take(i as int).last() == self@[i - 1]);
                assert(items@.map_values(|r: Record| r@) =~= with_parent(
                    self@.take(i as int),
                    d@,
                ));
            }
        }
        proof {
            assert(self@.take(self@.len() as int) =~= self@);
            lemma_with_parent_props(self@, d@);
        }
        let out = RecordSet { items };
        proof {
            assert(out@ == with_parent(self@, d@));
        }
        out
    }
}

proof fn lemma_set_keys_push(s: Seq<RecordV>, r: RecordV)
    ensures
        set_keys(s.push(r)) == set_keys(s).insert(rec_key(r)),
{
    assert forall|k: (Seq<u8>, DataV)| #[trigger]
        set_keys(s.push(r)).contains(k) implies set_keys(s).insert(rec_key(r)).contains(k) by {
        let i = choose|i: int| 0 <= i < s.push(r).len() && rec_key(#[trigger] s.push(r)[i]) == k;
        if i < s.len() {
            assert(rec_key(s[i]) == k);
        } else {
            assert(s.push(r)[i] == r);
        }
    }
    assert forall|k: (Seq<u8>, DataV)|
        set_keys(s).insert(rec_key(r)).contains(k) implies #[trigger] set_keys(s.push(r)).contains(
        k,
    ) by {
        if k == rec_key(r) {
            assert(rec_key(s.push(r)[s.len() as int]) == k);
        } else {
            let i = choose|i: int| 0 <= i < s.len() && rec_key(#[trigger] s[i]) == k;
            assert(rec_key(s.push(r)[i]) == k);
        }
    }
    assert(set_keys(s.push(r)) =~= set_keys(s).insert(rec_key(r)));
}

proof fn lemma_set_keys_has(s: Seq<RecordV>, k: (Seq<u8>, DataV))
    requires
        has_key(s, k),
    ensures
        set_keys(s).insert(k) == set_keys(s),
{
    assert(set_keys(s).contains(k));
    assert(set_keys(s).insert(k) =~= set_keys(s));
}

/// Every record `matching` returns is a member with the asked name and kind.
pub proof fn lemma_matching_members(s: Seq<RecordV>, name: Seq<u8>, kind: RecordKind)
    ensures
        forall|i: int|
            0 <= i < matching(s, name, kind).len() ==> {
                let r = #[trigger] matching(s, name, kind)[i];
                &&& r.name == name
                &&& kind_of(r.data) == kind
                &&& exists|j: int| 0 <= j < s.len() && s[j] == r
            },
        matching(s, name, kind).len() == 0 ==> forall|j: int|
            0 <= j < s.len() ==> !((#[trigger] s[j]).name == name && kind_of(s[j].data) == kind),
    decreases s.len(),
{
    if s.len() == 0 {
    } else {
        lemma_matching_members(s.drop_last(), name, kind);
        let rest = matching(s.drop_last(), name, kind);
        assert forall|i: int|
            0 <= i < matching(s, name, kind).len() implies {
            let r = #[trigger] matching(s, name, kind)[i];
            &&& r.name == name
            &&& kind_of(r.data) == kind
            &&& exists|j: int| 0 <= j < s.len() && s[j] == r
        } by {
            let r = matching(s, name, kind)[i];
            if i < rest.len() {
                assert(r == rest[i]);
                let j = choose|j: int| 0 <= j < s.drop_last().len() && s.drop_last()[j] == r;
                assert(s[j] == r);
            } else {
                assert(r == s.last());
                assert(s[s.len() - 1] == r);
            }
        }
        if matching(s, name, kind).len() == 0 {
            assert forall|j: int|
                0 <= j < s.len() implies !((#[trigger] s[j]).name == name && kind_of(s[j].data)
                == kind) by {
                if j < s.len() - 1 {
                    assert(s.drop_last()[j] == s[j]);
                }
            }
        }
    }
}

/// The first CNAME, when present, is a member of the sequence.
pub proof fn lemma_first_cname_member(s: Seq<RecordV>, name: Seq<u8>)
    ensures
        match first_cname(s, name) {
            Some(r) => {
                &&& r.name == name
                &&& kind_of(r.data) == RecordKind::Cname
                &&& exists|j: int| 0 <= j < s.len() && s[j] == r
            },
            None => true,
        },
    decreases s.len(),
{
    if s.len() == 0 {
    } else if s[0].name == name && kind_of(s[0].data) == RecordKind::Cname {
        assert(s[0] == first_cname(s, name).unwrap());
    } else {
        lemma_first_cname_member(s.skip(1), name);
        if first_cname(s, name) is Some {
            let r = first_cname(s, name).unwrap();
            let j = choose|j: int| 0 <= j < s.skip(1).len() && s.skip(1)[j] == r;
            assert(s[j + 1] == r);
        }
    }
}

} // verus!
