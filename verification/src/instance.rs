//! The instance record: the data model shared by the registrar and the
//! discovery client, and the deterministic key-space rules under which a
//! record is stored.

use vstd::prelude::*;

verus! {

/// One running replica of a named service: what a registrar publishes to
/// the coordination store and what a discovery client reads back.
pub struct ServiceInstance {
    /// Opaque identifier, unique per process invocation.
    pub id: String,
    /// Logical service name, the discovery key.
    pub name: String,
    /// Ordered network addresses (`host:port`) this instance serves on.
    pub endpoints: Vec<String>,
    /// Informational version tag.
    pub version: String,
    /// Informational string-to-string pairs, an extension point.
    pub metadata: Vec<(String, String)>,
}

/// The mathematical content of a [`ServiceInstance`].
#[verifier::ext_equal]
pub struct InstanceView {
    pub id: Seq<char>,
    pub name: Seq<char>,
    pub endpoints: Seq<Seq<char>>,
    pub version: Seq<char>,
    pub metadata: Seq<(Seq<char>, Seq<char>)>,
}

impl View for ServiceInstance {
    type V = InstanceView;

    open spec fn view(&self) -> InstanceView {
        InstanceView {
            id: self.id@,
            name: self.name@,
            endpoints: Seq::new(self.endpoints@.len(), |i: int| self.endpoints@[i]@),
            version: self.version@,
            metadata: Seq::new(
                self.metadata@.len(),
                |i: int| (self.metadata@[i].0@, self.metadata@[i].1@),
            ),
        }
    }
}

/// A string that may serve as one component of a store key: non-empty and
/// free of the `/` separator, so that key derivation stays injective.
pub open spec fn key_ok(s: Seq<char>) -> bool {
    s.len() > 0 && forall|i: int| 0 <= i < s.len() ==> s[i] != '/'
}

/// The store key under which a record lives: `{namespace}/{name}/{id}`.
pub open spec fn spec_instance_key(ns: Seq<char>, name: Seq<char>, id: Seq<char>) -> Seq<char> {
    ns + seq!['/'] + name + seq!['/'] + id
}

/// The query prefix that captures exactly the instances of one service:
/// `{namespace}/{name}/`.
pub open spec fn spec_service_prefix(ns: Seq<char>, name: Seq<char>) -> Seq<char> {
    ns + seq!['/'] + name + seq!['/']
}

/// `pre` is a prefix of `s`.
pub open spec fn is_prefix_of(pre: Seq<char>, s: Seq<char>) -> bool {
    pre.len() <= s.len() && s.subrange(0, pre.len() as int) == pre
}

/// Builds the store key `{namespace}/{name}/{id}` for a record.
pub fn instance_key(ns: &str, name: &str, id: &str) -> (r: String)
    ensures
        r@ == spec_instance_key(ns@, name@, id@),
{
    let mut out = ns.to_owned();
    out.append("/");
    out.append(name);
    out.append("/");
    out.append(id);
    proof {
        reveal_strlit("/");
        assert(out@ =~= spec_instance_key(ns@, name@, id@));
    }
    out
}

/// Builds the query prefix `{namespace}/{name}/` for a service.
pub fn service_prefix(ns: &str, name: &str) -> (r: String)
    ensures
        r@ == spec_service_prefix(ns@, name@),
{
    let mut out = ns.to_owned();
    out.append("/");
    out.append(name);
    out.append("/");
    proof {
        reveal_strlit("/");
        assert(out@ =~= spec_service_prefix(ns@, name@));
    }
    out
}

/// A record's key always sits under its own service's prefix.
pub proof fn lemma_key_under_service_prefix(ns: Seq<char>, name: Seq<char>, id: Seq<char>)
    ensures
        is_prefix_of(spec_service_prefix(ns, name), spec_instance_key(ns, name, id)),
{
    assert(spec_instance_key(ns, name, id).subrange(
        0,
        spec_service_prefix(ns, name).len() as int,
    ) =~= spec_service_prefix(ns, name));
}

/// Key derivation is injective: two records of one namespace share a store
/// key only if they agree on both the service name and the instance id.
/// Hence instances with distinct ids are stored under distinct keys.
pub proof fn lemma_instance_key_injective(
    ns: Seq<char>,
    name1: Seq<char>,
    id1: Seq<char>,
    name2: Seq<char>,
    id2: Seq<char>,
)
    requires
        key_ok(name1),
        key_ok(id1),
        key_ok(name2),
        key_ok(id2),
        spec_instance_key(ns, name1, id1) == spec_instance_key(ns, name2, id2),
    ensures
        name1 == name2,
        id1 == id2,
{
    let k = spec_instance_key(ns, name1, id1);
    let n = ns.len() as int;
    // The name runs from the first separator to the next `/`; since names
    // hold no `/`, both names end at the same separator position.
    assert forall|j: int| 0 <= j < name1.len() implies #[trigger] k[n + 1 + j] != '/' by {
        assert(k[n + 1 + j] == name1[j]);
    }
    assert(k[n + 1 + name1.len()] == '/');
    assert forall|j: int| 0 <= j < name2.len() implies #[trigger] k[n + 1 + j] != '/' by {
        assert(k[n + 1 + j] == name2[j]);
    }
    assert(k[n + 1 + name2.len()] == '/');
    if name1.len() < name2.len() {
        assert(k[n + 1 + name1.len()] == name2[name1.len() as int]);
        assert(false);
    }
    if name2.len() < name1.len() {
        assert(k[n + 1 + name2.len()] == name1[name2.len() as int]);
        assert(false);
    }
    assert(name1.len() == name2.len());
    assert forall|j: int| 0 <= j < name1.len() implies #[trigger] name1[j] == name2[j] by {
        assert(k[n + 1 + j] == name1[j]);
        assert(k[n + 1 + j] == name2[j]);
    }
    assert(name1 =~= name2);
    assert(k.len() == n + 1 + name1.len() + 1 + id1.len());
    assert(k.len() == n + 1 + name2.len() + 1 + id2.len());
    assert(id1.len() == id2.len());
    assert forall|j: int| 0 <= j < id1.len() implies #[trigger] id1[j] == id2[j] by {
        assert(k[n + 1 + name1.len() + 1 + j] == id1[j]);
        assert(k[n + 1 + name2.len() + 1 + j] == id2[j]);
    }
    assert(id1 =~= id2);
}

/// A service prefix captures no key of a different service: if the key of
/// `(name2, id2)` starts with the prefix of `name1`, the names coincide.
pub proof fn lemma_service_prefix_exact(
    ns: Seq<char>,
    name1: Seq<char>,
    name2: Seq<char>,
    id2: Seq<char>,
)
    requires
        key_ok(name1),
        key_ok(name2),
        is_prefix_of(spec_service_prefix(ns, name1), spec_instance_key(ns, name2, id2)),
    ensures
        name1 == name2,
{
    let p = spec_service_prefix(ns, name1);
    let k = spec_instance_key(ns, name2, id2);
    let n = ns.len() as int;
    assert forall|j: int| 0 <= j < name2.len() implies #[trigger] k[n + 1 + j] != '/' by {
        assert(k[n + 1 + j] == name2[j]);
    }
    assert(k[n + 1 + name2.len()] == '/');
    if name1.len() < name2.len() {
        assert(p[n + 1 + name1.len()] == '/');
        assert(k[n + 1 + name1.len()] == name2[name1.len() as int]);
        assert(false);
    }
    if name2.len() < name1.len() {
        assert(p[n + 1 + name2.len()] == name1[name2.len() as int]);
        assert(k[n + 1 + name2.len()] == '/');
        assert(false);
    }
    assert(name1 =~= name2) by {
        assert forall|j: int| 0 <= j < name1.len() implies #[trigger] name1[j] == name2[j] by {
            assert(p[n + 1 + j] == name1[j]);
            assert(k[n + 1 + j] == name2[j]);
        }
    }
}

/// Decides whether `pre` is a prefix of `s`.
pub fn check_prefix(s: &str, pre: &str) -> (r: bool)
    ensures
        r == is_prefix_of(pre@, s@),
{
    let n = pre.unicode_len();
    if n > s.unicode_len() {
        return false;
    }
    let mut i: usize = 0;
    while i < n
        invariant
            i <= n,
            n == pre@.len(),
            n <= s@.len(),
            forall|j: int| 0 <= j < i ==> s@[j] == pre@[j],
        decreases n - i,
    {
        if s.get_char(i) != pre.get_char(i) {
            proof {
                assert(s@.subrange(0, pre@.len() as int)[i as int] == s@[i as int]);
            }
            return false;
        }
        i = i + 1;
    }
    proof {
        assert(s@.subrange(0, pre@.len() as int) =~= pre@);
    }
    true
}

/// Two records of one service with distinct identifiers occupy distinct
/// store keys under the same query prefix, so each is registered and
/// removed independently of the other.
pub proof fn lemma_distinct_ids_distinct_keys(
    ns: Seq<char>,
    name: Seq<char>,
    id1: Seq<char>,
    id2: Seq<char>,
)
    requires
        key_ok(name),
        key_ok(id1),
        key_ok(id2),
        id1 != id2,
    ensures
        spec_instance_key(ns, name, id1) != spec_instance_key(ns, name, id2),
        is_prefix_of(spec_service_prefix(ns, name), spec_instance_key(ns, name, id1)),
        is_prefix_of(spec_service_prefix(ns, name), spec_instance_key(ns, name, id2)),
{
    if spec_instance_key(ns, name, id1) == spec_instance_key(ns, name, id2) {
        lemma_instance_key_injective(ns, name, id1, name, id2);
    }
    lemma_key_under_service_prefix(ns, name, id1);
    lemma_key_under_service_prefix(ns, name, id2);
}

} // verus!
