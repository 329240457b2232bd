//! Fully-qualified domain names in a canonical textual form: lower-case
//! labels, each followed by a dot, with the empty sequence standing for the
//! root. Names compare case-insensitively because construction lower-cases
//! them, and ancestry is a suffix test at a label boundary.

use vstd::prelude::*;
use vstd::string::StringSliceAdditionalSpecFns;

verus! {

/// The byte that separates labels in the textual form of a name.
pub const DOT: u8 = 46;

/// A byte that may appear inside a label of a canonical name: printable
/// ASCII that is neither the separator nor an upper-case letter.
pub open spec fn valid_label_byte(b: u8) -> bool {
    33 <= b && b <= 126 && b != 46 && !(65 <= b && b <= 90)
}

/// Canonical textual form of a fully-qualified name: empty for the root,
/// otherwise a run of non-empty lower-case labels, each followed by a dot.
pub open spec fn canonical_name(s: Seq<u8>) -> bool {
    &&& forall|i: int| 0 <= i < s.len() ==> valid_label_byte(#[trigger] s[i]) || s[i] == 46
    &&& s.len() > 0 ==> s[s.len() - 1] == 46
    &&& s.len() > 0 ==> s[0] != 46
    &&& forall|i: int| 0 < i < s.len() && #[trigger] s[i] == 46 ==> s[i - 1] != 46
}

/// `a` names a zone at or above `d`: `a` is a suffix of `d` starting at a
/// label boundary (ancestor-or-self).
pub open spec fn is_ancestor_of(a: Seq<u8>, d: Seq<u8>) -> bool {
    &&& a.len() <= d.len()
    &&& a == d.skip(d.len() - a.len())
    &&& a.len() == d.len() || d[d.len() - a.len() - 1] == 46
}

/// The name one label above `s`: everything after the first separator.
pub open spec fn parent_name(s: Seq<u8>) -> Seq<u8>
    decreases s.len(),
{
    if s.len() == 0 {
        s
    } else if s[0] == 46 {
        s.skip(1)
    } else {
        parent_name(s.skip(1))
    }
}

/// Lower-cases one ASCII byte.
pub open spec fn lower_byte(b: u8) -> u8 {
    if 65 <= b && b <= 90 {
        (b + 32) as u8
    } else {
        b
    }
}

/// Lower-cases a byte sequence.
pub open spec fn lower_bytes(s: Seq<u8>) -> Seq<u8> {
    s.map_values(|b: u8| lower_byte(b))
}

/// Drops one trailing separator, if present.
pub open spec fn strip_root(s: Seq<u8>) -> Seq<u8> {
    if s.len() > 0 && s[s.len() - 1] == 46 {
        s.drop_last()
    } else {
        s
    }
}

/// Whether `s` is accepted as the textual form of a name: a single dot for
/// the root, or non-empty labels separated by single dots, an optional
/// trailing dot, every byte a label byte once lower-cased.
pub open spec fn parse_ok(s: Seq<u8>) -> bool {
    if s.len() == 1 && s[0] == 46 {
        true
    } else {
        let t = strip_root(s);
        &&& t.len() > 0
        &&& t[0] != 46
        &&& t[t.len() - 1] != 46
        &&& forall|i: int| 0 <= i < t.len() ==> valid_label_byte(lower_byte(#[trigger] t[i])) || t[i]
            == 46
        &&& forall|i: int| 0 < i < t.len() && #[trigger] t[i] == 46 ==> t[i - 1] != 46
    }
}

/// The canonical form an accepted textual name is brought to.
pub open spec fn canon_of(s: Seq<u8>) -> Seq<u8> {
    if s.len() == 1 && s[0] == 46 {
        Seq::empty()
    } else {
        lower_bytes(strip_root(s)).push(46)
    }
}

/// The number of labels in a canonical name: one separator ends each label.
pub open spec fn count_labels(s: Seq<u8>) -> nat
    decreases s.len(),
{
    if s.len() == 0 {
        0
    } else {
        count_labels(s.drop_last()) + (if s.last() == 46 {
            1nat
        } else {
            0nat
        })
    }
}

/// A fully-qualified domain name, immutable once constructed. Always holds
/// canonical text, so equality is case-insensitive structural equality.
#[derive(Debug)]
pub struct Fqdn {
    bytes: Vec<u8>,
}

impl View for Fqdn {
    type V = Seq<u8>;

    closed spec fn view(&self) -> Seq<u8> {
        self.bytes@
    }
}

impl Clone for Fqdn {
    fn clone(&self) -> (r: Self)
        ensures
            r@ == self@,
    {
        let mut out: Vec<u8> = Vec::new();
        let mut i: usize = 0;
        while i < self.bytes.len()
            invariant
                0 <= i <= self.bytes@.len(),
                out@ == self.bytes@.take(i as int),
            decreases self.bytes@.len() - i,
        {
            out.push(self.bytes[i]);
            i += 1;
            proof {
                assert(out@ =~= self.bytes@.take(i as int));
            }
        }
        proof {
            assert(out@ =~= self.bytes@);
        }
        Fqdn { bytes: out }
    }
}

impl PartialEq for Fqdn {
    fn eq(&self, other: &Self) -> (r: bool) {
        if self.bytes.len() != other.bytes.len() {
            proof {
                assert(self@ != other@);
            }
            return false;
        }
        let mut i: usize = 0;
        while i < self.bytes.len()
            invariant
                0 <= i <= self.bytes@.len(),
                self.bytes@.len() == other.bytes@.len(),
                forall|j: int| 0 <= j < i ==> self.bytes@[j] == other.bytes@[j],
            decreases self.bytes@.len() - i,
        {
            if self.bytes[i] != other.bytes[i] {
                return false;
            }
            i += 1;
        }
        proof {
            assert(self@ =~= other@);
        }
        true
    }
}

impl vstd::std_specs::cmp::PartialEqSpecImpl for Fqdn {
    open spec fn obeys_eq_spec() -> bool {
        true
    }

    open spec fn eq_spec(&self, other: &Self) -> bool {
        self@ == other@
    }
}

impl Fqdn {
    /// The name is in canonical form.
    pub open spec fn wf(&self) -> bool {
        canonical_name(self@)
    }

    /// The root name: the empty label sequence.
    pub fn root() -> (r: Fqdn)
        ensures
            r@ == Seq::<u8>::empty(),
            r.wf(),
    {
        Fqdn { bytes: Vec::new() }
    }

    /// The canonical text of the name.
    pub fn bytes(&self) -> (r: &Vec<u8>)
        ensures
            r@ == self@,
    {
        &self.bytes
    }

    /// Reads a name from text, lower-casing it and adding the trailing
    /// separator when absent; rejects empty labels and non-printable bytes.
    pub fn parse(s: &[u8]) -> (r: Option<Fqdn>)
        ensures
            match r {
                Some(f) => parse_ok(s@) && f.wf() && f@ == canon_of(s@),
                None => !parse_ok(s@),
            },
    {
        if s.len() == 1 && s[0] == DOT {
            return Some(Fqdn { bytes: Vec::new() });
        }
        if s.len() == 0 {
            return None;
        }
        let mut out: Vec<u8> = Vec::new();
        let mut prev_dot: bool = true;
        let mut i: usize = 0;
        while i < s.len()
            invariant
                0 <= i <= s@.len(),
                s@.len() > 0,
                !(s@.len() == 1 && s@[0] == 46),
                out@ == lower_bytes(s@.take(i as int)),
                prev_dot == (i == 0 || s@[i - 1] == 46),
                i > 0 ==> s@[0] != 46,
                forall|j: int| 0 <= j < i ==> valid_label_byte(lower_byte(#[trigger] s@[j])) || s@[j]
                    == 46,
                forall|j: int| 0 < j < i && #[trigger] s@[j] == 46 ==> s@[j - 1] != 46,
            decreases s@.len() - i,
        {
            let b = s[i];
            if b == DOT {
                if prev_dot {
                    proof {
                        lemma_reject_double_dot(s@, i as int);
                    }
                    return None;
                }
                out.push(DOT);
                prev_dot = true;
            } else {
                let lb: u8 = if 65 <= b && b <= 90 {
                    b + 32
                } else {
                    b
                };
                assert(lb == lower_byte(s@[i as int]));
                if lb < 33 || lb > 126 {
                    proof {
                        lemma_reject_bad_byte(s@, i as int);
                    }
                    return None;
                }
                out.push(lb);
                prev_dot = false;
            }
            i += 1;
            proof {
                assert(s@.take(i as int).drop_last() =~= s@.take(i as int - 1));
                assert(out@ =~= lower_bytes(s@.take(i as int)));
            }
        }
        if !prev_dot {
            out.push(DOT);
        }
        proof {
            assert(s@.take(s@.len() as int) =~= s@);
            lemma_parse_accept(s@);
            if s@[s@.len() - 1] == 46 {
                assert(out@ =~= canon_of(s@));
            } else {
                assert(strip_root(s@) =~= s@);
                assert(out@ =~= canon_of(s@));
            }
            lemma_canon_canonical(s@);
        }
        Some(Fqdn { bytes: out })
    }

    /// Ancestor-or-self test: this name is at or above `other`.
    pub fn is_parent(&self, other: &Fqdn) -> (r: bool)
        ensures
            r == is_ancestor_of(self@, other@),
    {
        let n = self.bytes.len();
        let m = other.bytes.len();
        if n > m {
            return false;
        }
        if n < m && other.bytes[m - n - 1] != DOT {
            return false;
        }
        let mut i: usize = 0;
        while i < n
            invariant
                n == self@.len(),
                m == other@.len(),
                n <= m,
                0 <= i <= n,
                forall|j: int| 0 <= j < i ==> self@[j] == other@[m - n + j],
            decreases n - i,
        {
            if self.bytes[i] != other.bytes[m - n + i] {
                proof {
                    assert(other@.skip(m - n)[i as int] == other@[m - n + i]);
                    assert(self@ != other@.skip(m - n));
                }
                return false;
            }
            i += 1;
        }
        proof {
            assert(self@ =~= other@.skip(m - n));
        }
        true
    }

    /// The name one label above this one; the root is its own parent.
    pub fn parent(&self) -> (r: Fqdn)
        requires
            self.wf(),
        ensures
            r.wf(),
            r@ == parent_name(self@),
            self@.len() > 0 ==> r@.len() < self@.len() && is_ancestor_of(r@, self@),
    {
        if self.bytes.len() == 0 {
            return Fqdn { bytes: Vec::new() };
        }
        let mut k: usize = 0;
        while k < self.bytes.len() && self.bytes[k] != DOT
            invariant
                self.wf(),
                self@.len() > 0,
                0 <= k <= self@.len(),
                forall|j: int| 0 <= j < k ==> self@[j] != 46,
            decreases self@.len() - k,
        {
            k += 1;
        }
        proof {
            if k == self@.len() {
                assert(self@[self@.len() - 1] == 46);
                assert(false);
            }
        }
        let mut out: Vec<u8> = Vec::new();
        let mut i: usize = k + 1;
        while i < self.bytes.len()
            invariant
                self.wf(),
                0 <= k < self@.len(),
                k + 1 <= i <= self@.len(),
                out@ == self@.subrange(k + 1, i as int),
            decreases self@.len() - i,
        {
            out.push(self.bytes[i]);
            i += 1;
            proof {
                assert(out@ =~= self@.subrange(k + 1, i as int));
            }
        }
        proof {
            assert(out@ =~= self@.skip(k + 1));
            lemma_parent_skip(self@, k as int);
            lemma_suffix_after_dot(self@, k as int);
        }
        Fqdn { bytes: out }
    }

    /// A new name one label below this one.
    pub fn child(&self, label: &Vec<u8>) -> (r: Fqdn)
        requires
            self.wf(),
            label@.len() > 0,
            forall|i: int| 0 <= i < label@.len() ==> valid_label_byte(#[trigger] label@[i]),
        ensures
            r.wf(),
            r@ == label@ + seq![46u8] + self@,
            parent_name(r@) == self@,
            is_ancestor_of(self@, r@),
    {
        let mut out: Vec<u8> = Vec::new();
        let mut i: usize = 0;
        while i < label.len()
            invariant
                0 <= i <= label@.len(),
                out@ == label@.take(i as int),
            decreases label@.len() - i,
        {
            out.push(label[i]);
            i += 1;
            proof {
                assert(out@ =~= label@.take(i as int));
            }
        }
        out.push(DOT);
        let mut j: usize = 0;
        while j < self.bytes.len()
            invariant
                0 <= j <= self@.len(),
                out@ == label@ + seq![46u8] + self@.take(j as int),
            decreases self@.len() - j,
        {
            out.push(self.bytes[j]);
            j += 1;
            proof {
                assert(out@ =~= label@ + seq![46u8] + self@.take(j as int));
            }
        }
        proof {
            assert(out@ =~= label@ + seq![46u8] + self@);
            lemma_child_props(label@, self@);
        }
        Fqdn { bytes: out }
    }

    /// How many labels the name has.
    pub fn num_labels(&self) -> (n: usize)
        ensures
            n == count_labels(self@),
    {
        let mut n: usize = 0;
        let mut i: usize = 0;
        while i < self.bytes.len()
            invariant
                0 <= i <= self@.len(),
                n == count_labels(self@.take(i as int)),
                n <= i,
            decreases self@.len() - i,
        {
            if self.bytes[i] == DOT {
                n += 1;
            }
            i += 1;
            proof {
                assert(self@.take(i as int).drop_last() =~= self@.take(i as int - 1));
            }
        }
        proof {
            assert(self@.take(self@.len() as int) =~= self@);
        }
        n
    }

    /// The length in bytes of the canonical text; ancestors are never
    /// longer than their descendants.
    pub fn text_len(&self) -> (n: usize)
        ensures
            n == self@.len(),
    {
        self.bytes.len()
    }
}

/// Reads a name from string text; the text must be acceptable.
pub fn fqdn(n: &str) -> (r: Fqdn)
    requires
        parse_ok(n.spec_bytes()),
    ensures
        r.wf(),
        r@ == canon_of(n.spec_bytes()),
{
    let b = n.as_bytes();
    match Fqdn::parse(b) {
        Some(f) => f,
        None => vstd::pervasive::unreached(),
    }
}

proof fn lemma_reject_double_dot(s: Seq<u8>, i: int)
    requires
        s.len() > 0,
        !(s.len() == 1 && s[0] == 46),
        0 <= i < s.len(),
        s[i] == 46,
        i == 0 || s[i - 1] == 46,
        i > 0 ==> s[0] != 46,
    ensures
        !parse_ok(s),
{
    let t = strip_root(s);
    if i == 0 {
        assert(s.len() >= 2);
        if t.len() > 0 {
            assert(t[0] == s[0]);
        }
    } else {
        if i < s.len() - 1 {
            assert(t[i] == s[i] && t[i - 1] == s[i - 1]);
        } else {
            assert(s[s.len() - 1] == 46);
            assert(t =~= s.drop_last());
            assert(t.len() == s.len() - 1);
            assert(t.len() > 0);
            assert(t[t.len() - 1] == s[i - 1]);
        }
    }
}

proof fn lemma_reject_bad_byte(s: Seq<u8>, i: int)
    requires
        s.len() > 0,
        !(s.len() == 1 && s[0] == 46),
        0 <= i < s.len(),
        s[i] != 46,
        !valid_label_byte(lower_byte(s[i])),
    ensures
        !parse_ok(s),
{
    let t = strip_root(s);
    if i < s.len() - 1 {
        assert(t[i] == s[i]);
    } else {
        assert(t =~= s);
        assert(t[i] == s[i]);
    }
}

proof fn lemma_parse_accept(s: Seq<u8>)
    requires
        s.len() > 0,
        !(s.len() == 1 && s[0] == 46),
        s[0] != 46,
        forall|j: int| 0 <= j < s.len() ==> valid_label_byte(lower_byte(#[trigger] s[j])) || s[j]
            == 46,
        forall|j: int| 0 < j < s.len() && #[trigger] s[j] == 46 ==> s[j - 1] != 46,
    ensures
        parse_ok(s),
{
    let t = strip_root(s);
    if s[s.len() - 1] == 46 {
        assert(s.len() >= 2);
        assert(t =~= s.drop_last());
        assert(t[t.len() - 1] == s[s.len() - 2]);
        assert(s[s.len() - 1] == 46 && s.len() - 1 > 0);
        assert(s[s.len() - 2] != 46);
    } else {
        assert(t =~= s);
    }
}

proof fn lemma_canon_canonical(s: Seq<u8>)
    requires
        parse_ok(s),
    ensures
        canonical_name(canon_of(s)),
{
    if s.len() == 1 && s[0] == 46 {
    } else {
        let t = strip_root(s);
        let c = canon_of(s);
        assert(c.len() == t.len() + 1);
        assert forall|i: int| 0 <= i < c.len() implies valid_label_byte(#[trigger] c[i]) || c[i]
            == 46 by {
            if i < t.len() {
                assert(c[i] == lower_byte(t[i]));
            } else {
                assert(c[i] == 46);
            }
        }
        assert(c[c.len() - 1] == 46);
        assert(c[0] == lower_byte(t[0]));
        assert(valid_label_byte(lower_byte(t[0])) || t[0] == 46);
        assert(c[0] != 46);
        assert forall|i: int| 0 < i < c.len() && #[trigger] c[i] == 46 implies c[i - 1] != 46 by {
            if i < t.len() {
                assert(c[i] == lower_byte(t[i]));
                assert(lower_byte(t[i]) == 46 ==> t[i] == 46);
                assert(t[i - 1] != 46);
                assert(c[i - 1] == lower_byte(t[i - 1]));
            } else {
                assert(i == t.len());
                assert(c[i - 1] == lower_byte(t[t.len() - 1]));
                assert(t[t.len() - 1] != 46);
            }
        }
    }
}

/// After the first separator, what remains is the parent.
proof fn lemma_parent_skip(s: Seq<u8>, k: int)
    requires
        0 <= k < s.len(),
        s[k] == 46,
        forall|j: int| 0 <= j < k ==> s[j] != 46,
    ensures
        parent_name(s) == s.skip(k + 1),
    decreases k,
{
    if k == 0 {
    } else {
        lemma_parent_skip(s.skip(1), k - 1);
        assert(s.skip(1).skip(k) =~= s.skip(k + 1));
    }
}

/// The suffix after a separator of a canonical name is canonical and an
/// ancestor of the whole.
proof fn lemma_suffix_after_dot(s: Seq<u8>, k: int)
    requires
        canonical_name(s),
        0 <= k < s.len(),
        s[k] == 46,
    ensures
        canonical_name(s.skip(k + 1)),
        is_ancestor_of(s.skip(k + 1), s),
        s.skip(k + 1).len() < s.len(),
{
    let t = s.skip(k + 1);
    assert forall|i: int| 0 <= i < t.len() implies valid_label_byte(#[trigger] t[i]) || t[i]
        == 46 by {
        assert(t[i] == s[k + 1 + i]);
    }
    if t.len() > 0 {
        assert(t[t.len() - 1] == s[s.len() - 1]);
        assert(t[0] == s[k + 1]);
    }
    assert forall|i: int| 0 < i < t.len() && #[trigger] t[i] == 46 implies t[i - 1] != 46 by {
        assert(t[i] == s[k + 1 + i]);
        assert(t[i - 1] == s[k + i]);
    }
    assert(t =~= s.skip(s.len() - t.len()));
}

/// A label, a separator, then a canonical name is again canonical, with the
/// original name as its parent.
proof fn lemma_child_props(label: Seq<u8>, s: Seq<u8>)
    requires
        canonical_name(s),
        label.len() > 0,
        forall|i: int| 0 <= i < label.len() ==> valid_label_byte(#[trigger] label[i]),
    ensures
        canonical_name(label + seq![46u8] + s),
        parent_name(label + seq![46u8] + s) == s,
        is_ancestor_of(s, label + seq![46u8] + s),
{
    let c = label + seq![46u8] + s;
    assert(c.len() == label.len() + 1 + s.len());
    assert forall|i: int| 0 <= i < c.len() implies valid_label_byte(#[trigger] c[i]) || c[i]
        == 46 by {
        if i < label.len() {
            assert(c[i] == label[i]);
        } else if i == label.len() {
            assert(c[i] == 46);
        } else {
            assert(c[i] == s[i - label.len() - 1]);
        }
    }
    assert(c[c.len() - 1] == if s.len() > 0 {
        s[s.len() - 1]
    } else {
        46u8
    });
    assert(c[0] == label[0]);
    assert forall|i: int| 0 < i < c.len() && #[trigger] c[i] == 46 implies c[i - 1] != 46 by {
        if i < label.len() {
            assert(c[i] == label[i]);
            assert(false);
        } else if i == label.len() {
            assert(c[i - 1] == label[label.len() - 1]);
        } else if i == label.len() + 1 {
            assert(c[i] == s[0]);
            assert(false);
        } else {
            assert(c[i] == s[i - label.len() - 1]);
            assert(c[i - 1] == s[i - label.len() - 2]);
        }
    }
    assert forall|j: int| 0 <= j < label.len() implies c[j] != 46 by {
        assert(c[j] == label[j]);
    }
    assert(c[label.len() as int] == 46);
    lemma_parent_skip(c, label.len() as int);
    assert(c.skip(label.len() as int + 1) =~= s);
    assert(s =~= c.skip(c.len() - s.len()));
    assert(c[c.len() - s.len() - 1] == 46);
}

/// Two ancestors of one name with equal length are the same name.
pub proof fn lemma_ancestor_same_len(a: Seq<u8>, b: Seq<u8>, d: Seq<u8>)
    requires
        is_ancestor_of(a, d),
        is_ancestor_of(b, d),
        a.len() == b.len(),
    ensures
        a == b,
{
}

} // verus!
