//! Total orders on keys and the sorted set that the projection indexes are built from.

use vstd::prelude::*;
use vstd::utf8::encode_utf8;

verus! {

/// How one key stands to another.
#[derive(Clone, Copy, PartialEq, Eq, Structural, Debug)]
pub enum Standing {
    Below,
    Same,
    Above,
}

/// A key with a strict total order on its value.
pub trait OrderKey: Sized {
    /// The value that the order is on.
    type V;

    spec fn kv(&self) -> Self::V;

    spec fn kless(a: Self::V, b: Self::V) -> bool;

    proof fn lt_irreflexive(a: Self::V)
        ensures
            !Self::kless(a, a),
    ;

    proof fn lt_transitive(a: Self::V, b: Self::V, c: Self::V)
        requires
            Self::kless(a, b),
            Self::kless(b, c),
        ensures
            Self::kless(a, c),
    ;

    proof fn lt_total(a: Self::V, b: Self::V)
        ensures
            a == b || Self::kless(a, b) || Self::kless(b, a),
    ;

    fn standing(&self, other: &Self) -> (r: Standing)
        ensures
            r is Below <==> Self::kless(self.kv(), other.kv()),
            r is Same <==> self.kv() == other.kv(),
            r is Above <==> Self::kless(other.kv(), self.kv()),
    ;
}

impl OrderKey for u64 {
    type V = u64;

    open spec fn kv(&self) -> u64 {
        *self
    }

    open spec fn kless(a: u64, b: u64) -> bool {
        a < b
    }

    proof fn lt_irreflexive(a: u64) {
    }

    proof fn lt_transitive(a: u64, b: u64, c: u64) {
    }

    proof fn lt_total(a: u64, b: u64) {
    }

    fn standing(&self, other: &u64) -> (r: Standing) {
        if *self < *other {
            Standing::Below
        } else if *self == *other {
            Standing::Same
        } else {
            Standing::Above
        }
    }
}

impl OrderKey for i64 {
    type V = i64;

    open spec fn kv(&self) -> i64 {
        *self
    }

    open spec fn kless(a: i64, b: i64) -> bool {
        a < b
    }

    proof fn lt_irreflexive(a: i64) {
    }

    proof fn lt_transitive(a: i64, b: i64, c: i64) {
    }

    proof fn lt_total(a: i64, b: i64) {
    }

    fn standing(&self, other: &i64) -> (r: Standing) {
        if *self < *other {
            Standing::Below
        } else if *self == *other {
            Standing::Same
        } else {
            Standing::Above
        }
    }
}

/// Byte strings in lexicographic order: `a` comes strictly before `b`.
pub open spec fn bytes_lt(a: Seq<u8>, b: Seq<u8>) -> bool
    decreases a.len(),
{
    if b.len() == 0 {
        false
    } else if a.len() == 0 {
        true
    } else if a[0] != b[0] {
        a[0] < b[0]
    } else {
        bytes_lt(a.drop_first(), b.drop_first())
    }
}

pub proof fn lemma_bytes_lt_irreflexive(a: Seq<u8>)
    ensures
        !bytes_lt(a, a),
    decreases a.len(),
{
    if a.len() > 0 {
        lemma_bytes_lt_irreflexive(a.drop_first());
    }
}

pub proof fn lemma_bytes_lt_transitive(a: Seq<u8>, b: Seq<u8>, c: Seq<u8>)
    requires
        bytes_lt(a, b),
        bytes_lt(b, c),
    ensures
        bytes_lt(a, c),
    decreases a.len(),
{
    if a.len() > 0 && a[0] == b[0] && b[0] == c[0] {
        lemma_bytes_lt_transitive(a.drop_first(), b.drop_first(), c.drop_first());
    }
}

pub proof fn lemma_bytes_lt_total(a: Seq<u8>, b: Seq<u8>)
    ensures
        a == b || bytes_lt(a, b) || bytes_lt(b, a),
    decreases a.len(),
{
    if a.len() == 0 {
        if b.len() == 0 {
            assert(a =~= b);
        }
    } else if b.len() > 0 && a[0] == b[0] {
        lemma_bytes_lt_total(a.drop_first(), b.drop_first());
        if a.drop_first() == b.drop_first() {
            assert(a =~= seq![a[0]] + a.drop_first());
            assert(b =~= seq![b[0]] + b.drop_first());
        }
    }
}

/// Two byte strings agree up to `i`, so their order is that of their rests.
proof fn lemma_bytes_lt_skip(a: Seq<u8>, b: Seq<u8>, i: int)
    requires
        0 <= i <= a.len(),
        i <= b.len(),
        forall|j: int| 0 <= j < i ==> a[j] == b[j],
    ensures
        bytes_lt(a, b) == bytes_lt(a.skip(i), b.skip(i)),
    decreases i,
{
    if i == 0 {
        assert(a.skip(0) =~= a);
        assert(b.skip(0) =~= b);
    } else {
        lemma_bytes_lt_skip(a, b, i - 1);
        let x = a.skip(i - 1);
        let y = b.skip(i - 1);
        assert(x[0] == a[i - 1]);
        assert(y[0] == b[i - 1]);
        assert(x.drop_first() =~= a.skip(i));
        assert(y.drop_first() =~= b.skip(i));
    }
}

/// Lexicographic comparison of two byte slices.
pub fn bytes_standing(a: &[u8], b: &[u8]) -> (r: Standing)
    ensures
        r is Below <==> bytes_lt(a@, b@),
        r is Same <==> a@ == b@,
        r is Above <==> bytes_lt(b@, a@),
{
    let mut i: usize = 0;
    while i < a.len() && i < b.len()
        invariant
            i <= a@.len(),
            i <= b@.len(),
            forall|j: int| 0 <= j < i ==> a@[j] == b@[j],
        decreases a@.len() - i,
    {
        if a[i] != b[i] {
            proof {
                lemma_bytes_lt_skip(a@, b@, i as int);
                lemma_bytes_lt_skip(b@, a@, i as int);
                assert(a@.skip(i as int)[0] == a@[i as int]);
                assert(b@.skip(i as int)[0] == b@[i as int]);
            }
            if a[i] < b[i] {
                return Standing::Below;
            }
            return Standing::Above;
        }
        i = i + 1;
    }
    proof {
        lemma_bytes_lt_skip(a@, b@, i as int);
        lemma_bytes_lt_skip(b@, a@, i as int);
        lemma_bytes_lt_irreflexive(a@);
    }
    if i < b.len() {
        assert(b@.skip(i as int).len() > 0);
        assert(a@.skip(i as int).len() == 0);
        Standing::Below
    } else if i < a.len() {
        assert(a@.skip(i as int).len() > 0);
        assert(b@.skip(i as int).len() == 0);
        Standing::Above
    } else {
        assert(a@ =~= b@);
        Standing::Same
    }
}

impl OrderKey for Vec<u8> {
    type V = Seq<u8>;

    open spec fn kv(&self) -> Seq<u8> {
        self@
    }

    open spec fn kless(a: Seq<u8>, b: Seq<u8>) -> bool {
        bytes_lt(a, b)
    }

    proof fn lt_irreflexive(a: Seq<u8>) {
        lemma_bytes_lt_irreflexive(a);
    }

    proof fn lt_transitive(a: Seq<u8>, b: Seq<u8>, c: Seq<u8>) {
        lemma_bytes_lt_transitive(a, b, c);
    }

    proof fn lt_total(a: Seq<u8>, b: Seq<u8>) {
        lemma_bytes_lt_total(a, b);
    }

    fn standing(&self, other: &Vec<u8>) -> (r: Standing) {
        bytes_standing(self.as_slice(), other.as_slice())
    }
}

/// Texts in the order of their UTF-8 bytes.
pub open spec fn text_lt(a: Seq<char>, b: Seq<char>) -> bool {
    bytes_lt(encode_utf8(a), encode_utf8(b))
}

/// Two texts with the same UTF-8 bytes are the same text.
pub proof fn lemma_utf8_injective(a: Seq<char>, b: Seq<char>)
    requires
        encode_utf8(a) == encode_utf8(b),
    ensures
        a == b,
{
    vstd::utf8::encode_utf8_decode_utf8(a);
    vstd::utf8::encode_utf8_decode_utf8(b);
}

/// Comparison of two texts in the order of their UTF-8 bytes.
pub fn text_standing(a: &str, b: &str) -> (r: Standing)
    ensures
        r is Below <==> text_lt(a@, b@),
        r is Same <==> a@ == b@,
        r is Above <==> text_lt(b@, a@),
{
    let r = bytes_standing(a.as_bytes(), b.as_bytes());
    proof {
        if r is Same {
            lemma_utf8_injective(a@, b@);
        }
        lemma_bytes_lt_irreflexive(encode_utf8(a@));
    }
    r
}

impl OrderKey for String {
    type V = Seq<char>;

    open spec fn kv(&self) -> Seq<char> {
        self@
    }

    open spec fn kless(a: Seq<char>, b: Seq<char>) -> bool {
        text_lt(a, b)
    }

    proof fn lt_irreflexive(a: Seq<char>) {
        lemma_bytes_lt_irreflexive(encode_utf8(a));
    }

    proof fn lt_transitive(a: Seq<char>, b: Seq<char>, c: Seq<char>) {
        lemma_bytes_lt_transitive(encode_utf8(a), encode_utf8(b), encode_utf8(c));
    }

    proof fn lt_total(a: Seq<char>, b: Seq<char>) {
        lemma_bytes_lt_total(encode_utf8(a), encode_utf8(b));
        if encode_utf8(a) == encode_utf8(b) {
            lemma_utf8_injective(a, b);
        }
    }

    fn standing(&self, other: &String) -> (r: Standing) {
        text_standing(self.as_str(), other.as_str())
    }
}

impl<A: OrderKey, B: OrderKey> OrderKey for (A, B) {
    type V = (A::V, B::V);

    open spec fn kv(&self) -> (A::V, B::V) {
        (self.0.kv(), self.1.kv())
    }

    open spec fn kless(a: (A::V, B::V), b: (A::V, B::V)) -> bool {
        A::kless(a.0, b.0) || (a.0 == b.0 && B::kless(a.1, b.1))
    }

    proof fn lt_irreflexive(a: (A::V, B::V)) {
        A::lt_irreflexive(a.0);
        B::lt_irreflexive(a.1);
    }

    proof fn lt_transitive(a: (A::V, B::V), b: (A::V, B::V), c: (A::V, B::V)) {
        if A::kless(a.0, b.0) && A::kless(b.0, c.0) {
            A::lt_transitive(a.0, b.0, c.0);
        }
        if B::kless(a.1, b.1) && B::kless(b.1, c.1) {
            B::lt_transitive(a.1, b.1, c.1);
        }
    }

    proof fn lt_total(a: (A::V, B::V), b: (A::V, B::V)) {
        A::lt_total(a.0, b.0);
        B::lt_total(a.1, b.1);
    }

    fn standing(&self, other: &(A, B)) -> (r: Standing) {
        proof {
            lemma_lt_asymmetric::<A>(self.0.kv(), other.0.kv());
            lemma_lt_asymmetric::<A>(other.0.kv(), self.0.kv());
        }
        match self.0.standing(&other.0) {
            Standing::Below => Standing::Below,
            Standing::Above => Standing::Above,
            Standing::Same => self.1.standing(&other.1),
        }
    }
}

/// An absent value comes before every present one.
impl<A: OrderKey> OrderKey for Option<A> {
    type V = Option<A::V>;

    open spec fn kv(&self) -> Option<A::V> {
        match self {
            Some(a) => Some(a.kv()),
            None => None,
        }
    }

    open spec fn kless(a: Option<A::V>, b: Option<A::V>) -> bool {
        match (a, b) {
            (_, None) => false,
            (None, Some(_)) => true,
            (Some(x), Some(y)) => A::kless(x, y),
        }
    }

    proof fn lt_irreflexive(a: Option<A::V>) {
        if let Some(x) = a {
            A::lt_irreflexive(x);
        }
    }

    proof fn lt_transitive(a: Option<A::V>, b: Option<A::V>, c: Option<A::V>) {
        match (a, b, c) {
            (Some(x), Some(y), Some(z)) => {
                A::lt_transitive(x, y, z);
            },
            _ => {},
        }
    }

    proof fn lt_total(a: Option<A::V>, b: Option<A::V>) {
        match (a, b) {
            (Some(x), Some(y)) => {
                A::lt_total(x, y);
            },
            _ => {},
        }
    }

    fn standing(&self, other: &Option<A>) -> (r: Standing) {
        match (self, other) {
            (None, None) => Standing::Same,
            (None, Some(_)) => Standing::Below,
            (Some(_), None) => Standing::Above,
            (Some(x), Some(y)) => x.standing(y),
        }
    }
}

pub proof fn lemma_lt_asymmetric<K: OrderKey>(a: K::V, b: K::V)
    ensures
        K::kless(a, b) ==> !K::kless(b, a) && a != b,
{
    K::lt_irreflexive(a);
    if K::kless(a, b) && K::kless(b, a) {
        K::lt_transitive(a, b, a);
    }
}

/// Each key of the sequence comes strictly before every later one.
pub open spec fn ascending<K: OrderKey>(s: Seq<K::V>) -> bool {
    forall|i: int, j: int| 0 <= i < j < s.len() ==> K::kless(#[trigger] s[i], #[trigger] s[j])
}

pub proof fn lemma_ascending_at<K: OrderKey>(s: Seq<K::V>, i: int, j: int)
    requires
        ascending::<K>(s),
        0 <= i < j < s.len(),
    ensures
        K::kless(s[i], s[j]),
{
}

/// The members of a set in ascending order.
pub open spec fn listing_of<K: OrderKey>(s: Set<K::V>) -> Seq<K::V> {
    choose|q: Seq<K::V>| ascending::<K>(q) && q.to_set() == s
}

/// A set has one ascending listing.
pub proof fn lemma_listing_unique<K: OrderKey>(p: Seq<K::V>, q: Seq<K::V>)
    requires
        ascending::<K>(p),
        ascending::<K>(q),
        p.to_set() == q.to_set(),
    ensures
        p == q,
    decreases p.len(),
{
    if p.len() == 0 {
        if q.len() > 0 {
            assert(q.to_set().contains(q[0]));
            assert(p.to_set().contains(q[0]));
        }
        assert(p =~= q);
    } else {
        assert(p.to_set().contains(p[0]));
        assert(q.to_set().contains(p[0]));
        let j = choose|j: int| 0 <= j < q.len() && q[j] == p[0];
        assert(q.to_set().contains(q[0]));
        assert(p.to_set().contains(q[0]));
        let i = choose|i: int| 0 <= i < p.len() && p[i] == q[0];
        if j > 0 {
            assert(K::kless(q[0], q[j]));
            if i > 0 {
                assert(K::kless(p[0], p[i]));
            }
            lemma_lt_asymmetric::<K>(q[0], p[0]);
            lemma_lt_asymmetric::<K>(p[0], q[0]);
        }
        assert(p[0] == q[0]);
        let p1 = p.drop_first();
        let q1 = q.drop_first();
        assert(ascending::<K>(p1)) by {
            assert forall|a: int, b: int| 0 <= a < b < p1.len() implies K::kless(
                #[trigger] p1[a],
                #[trigger] p1[b],
            ) by {
                assert(p1[a] == p[a + 1] && p1[b] == p[b + 1]);
            }
        }
        assert(ascending::<K>(q1)) by {
            assert forall|a: int, b: int| 0 <= a < b < q1.len() implies K::kless(
                #[trigger] q1[a],
                #[trigger] q1[b],
            ) by {
                assert(q1[a] == q[a + 1] && q1[b] == q[b + 1]);
            }
        }
        assert forall|x: K::V| p1.to_set().contains(x) implies q1.to_set().contains(x) by {
            let a = choose|a: int| 0 <= a < p1.len() && p1[a] == x;
            assert(p[a + 1] == x);
            assert(K::kless(p[0], p[a + 1]));
            lemma_lt_asymmetric::<K>(p[0], x);
            assert(p.to_set().contains(x));
            assert(q.to_set().contains(x));
            let b = choose|b: int| 0 <= b < q.len() && q[b] == x;
            assert(q1[b - 1] == x);
        }
        assert forall|x: K::V| q1.to_set().contains(x) implies p1.to_set().contains(x) by {
            let a = choose|a: int| 0 <= a < q1.len() && q1[a] == x;
            assert(q[a + 1] == x);
            assert(K::kless(q[0], q[a + 1]));
            lemma_lt_asymmetric::<K>(q[0], x);
            assert(q.to_set().contains(x));
            assert(p.to_set().contains(x));
            let b = choose|b: int| 0 <= b < p.len() && p[b] == x;
            assert(p1[b - 1] == x);
        }
        assert(p1.to_set() =~= q1.to_set());
        lemma_listing_unique::<K>(p1, q1);
        assert(p =~= seq![p[0]] + p1);
        assert(q =~= seq![q[0]] + q1);
    }
}

/// An ascending sequence is the listing of its own members.
pub proof fn lemma_listing_of<K: OrderKey>(q: Seq<K::V>)
    requires
        ascending::<K>(q),
    ensures
        listing_of::<K>(q.to_set()) == q,
{
    lemma_listing_unique::<K>(listing_of::<K>(q.to_set()), q);
}

/// An ascending sequence with one more member in its place.
pub open spec fn placed<K: OrderKey>(q: Seq<K::V>, a: K::V) -> Seq<K::V>
    decreases q.len(),
{
    if q.len() == 0 {
        seq![a]
    } else if K::kless(a, q[0]) {
        seq![a] + q
    } else {
        seq![q[0]] + placed::<K>(q.drop_first(), a)
    }
}

proof fn lemma_placed<K: OrderKey>(q: Seq<K::V>, a: K::V)
    requires
        ascending::<K>(q),
        !q.contains(a),
    ensures
        ascending::<K>(placed::<K>(q, a)),
        placed::<K>(q, a).to_set() == q.to_set().insert(a),
    decreases q.len(),
{
    let r = placed::<K>(q, a);
    if q.len() == 0 {
        assert(r.to_set() =~= q.to_set().insert(a)) by {
            assert(r[0] == a);
            assert forall|x: K::V| r.contains(x) implies x == a by {}
        }
    } else if K::kless(a, q[0]) {
        assert forall|i: int, j: int| 0 <= i < j < r.len() implies K::kless(
            #[trigger] r[i],
            #[trigger] r[j],
        ) by {
            assert(r[j] == q[j - 1]);
            if i == 0 {
                if j > 1 {
                    K::lt_transitive(a, q[0], q[j - 1]);
                }
            } else {
                assert(r[i] == q[i - 1]);
            }
        }
        assert(r.to_set() =~= q.to_set().insert(a)) by {
            assert forall|x: K::V| r.contains(x) == (q.contains(x) || x == a) by {
                if r.contains(x) {
                    let i = choose|i: int| 0 <= i < r.len() && r[i] == x;
                    if i > 0 {
                        assert(q[i - 1] == x);
                    }
                }
                if q.contains(x) {
                    let i = choose|i: int| 0 <= i < q.len() && q[i] == x;
                    assert(r[i + 1] == x);
                }
                assert(r[0] == a);
            }
        }
    } else {
        let t = q.drop_first();
        assert forall|i: int, j: int| 0 <= i < j < t.len() implies K::kless(
            #[trigger] t[i],
            #[trigger] t[j],
        ) by {
            assert(t[i] == q[i + 1] && t[j] == q[j + 1]);
        }
        assert(!t.contains(a)) by {
            if t.contains(a) {
                let i = choose|i: int| 0 <= i < t.len() && t[i] == a;
                assert(q[i + 1] == a);
            }
        }
        lemma_placed::<K>(t, a);
        let u = placed::<K>(t, a);
        K::lt_total(a, q[0]);
        assert(q.contains(q[0]));
        assert forall|i: int, j: int| 0 <= i < j < r.len() implies K::kless(
            #[trigger] r[i],
            #[trigger] r[j],
        ) by {
            assert(r[j] == u[j - 1]);
            if i == 0 {
                assert(u.to_set().contains(u[j - 1]));
                if u[j - 1] != a {
                    let k = choose|k: int| 0 <= k < t.len() && t[k] == u[j - 1];
                    assert(q[k + 1] == u[j - 1]);
                }
            } else {
                assert(r[i] == u[i - 1]);
            }
        }
        assert(r.to_set() =~= q.to_set().insert(a)) by {
            assert forall|x: K::V| r.contains(x) == (q.contains(x) || x == a) by {
                if r.contains(x) {
                    let i = choose|i: int| 0 <= i < r.len() && r[i] == x;
                    if i > 0 {
                        assert(u[i - 1] == x);
                        assert(u.to_set().contains(x));
                        if x != a {
                            let k = choose|k: int| 0 <= k < t.len() && t[k] == x;
                            assert(q[k + 1] == x);
                        }
                    } else {
                        assert(q[0] == x);
                    }
                }
                if q.contains(x) || x == a {
                    if x == q[0] {
                        assert(r[0] == x);
                    } else {
                        if q.contains(x) {
                            let k = choose|k: int| 0 <= k < q.len() && q[k] == x;
                            assert(t[k - 1] == x);
                        }
                        assert(u.to_set().contains(x));
                        let i = choose|i: int| 0 <= i < u.len() && u[i] == x;
                        assert(r[i + 1] == x);
                    }
                }
            }
        }
    }
}

/// Every finite set has an ascending listing, which has each member once.
pub proof fn lemma_listing_exists<K: OrderKey>(s: Set<K::V>)
    requires
        s.finite(),
    ensures
        ascending::<K>(listing_of::<K>(s)),
        listing_of::<K>(s).to_set() == s,
        listing_of::<K>(s).len() == s.len(),
    decreases s.len(),
{
    if s.len() == 0 {
        let q = Seq::<K::V>::empty();
        assert(s =~= Set::<K::V>::empty());
        assert(q.to_set() =~= s);
        lemma_listing_of::<K>(q);
    } else {
        let a = s.choose();
        lemma_listing_exists::<K>(s.remove(a));
        let q = listing_of::<K>(s.remove(a));
        assert(!q.contains(a)) by {
            if q.contains(a) {
                assert(q.to_set().contains(a));
            }
        }
        lemma_placed::<K>(q, a);
        let r = placed::<K>(q, a);
        assert(r.to_set() =~= s);
        lemma_listing_of::<K>(r);
        lemma_ascending_distinct::<K>(r);
        r.unique_seq_to_set();
    }
}

/// The members of an ascending sequence are distinct.
pub proof fn lemma_ascending_distinct<K: OrderKey>(q: Seq<K::V>)
    requires
        ascending::<K>(q),
    ensures
        q.no_duplicates(),
{
    assert forall|i: int, j: int|
        0 <= i < q.len() && 0 <= j < q.len() && i != j implies q[i] != q[j] by {
        if i < j {
            lemma_lt_asymmetric::<K>(q[i], q[j]);
        } else {
            lemma_lt_asymmetric::<K>(q[j], q[i]);
        }
    }
}

/// A set of keys kept in ascending order. It is read by range and by position, and its keys may be
/// texts, bytes and pairs of them; the contracts that vstd has for the ordered sets of std cover neither.
pub struct OrdSet<K: OrderKey> {
    keys: Vec<K>,
}

impl<K: OrderKey> OrdSet<K> {
    #[verifier::type_invariant]
    spec fn sorted(&self) -> bool {
        ascending::<K>(self.listing())
    }

    /// The members in ascending order.
    pub closed spec fn listing(&self) -> Seq<K::V> {
        self.keys@.map_values(|k: K| k.kv())
    }

    /// The members.
    pub open spec fn view(&self) -> Set<K::V> {
        self.listing().to_set()
    }

    pub fn new() -> (r: OrdSet<K>)
        ensures
            r@ == Set::<K::V>::empty(),
            r.listing() == Seq::<K::V>::empty(),
    {
        let r = OrdSet { keys: Vec::new() };
        proof {
            assert(r.listing() =~= Seq::<K::V>::empty());
            assert(r@ =~= Set::<K::V>::empty());
        }
        r
    }

    pub fn len(&self) -> (r: usize)
        ensures
            r == self.listing().len(),
            ascending::<K>(self.listing()),
            listing_of::<K>(self@) == self.listing(),
            self@.finite(),
            self@.len() == r,
    {
        proof {
            use_type_invariant(self);
            lemma_listing_of::<K>(self.listing());
            self.listing().lemma_cardinality_of_set();
            assert(self.listing().no_duplicates()) by {
                assert forall|i: int, j: int|
                    0 <= i < self.listing().len() && 0 <= j < self.listing().len() && i != j implies
                    self.listing()[i] != self.listing()[j] by {
                    if i < j {
                        lemma_lt_asymmetric::<K>(self.listing()[i], self.listing()[j]);
                    } else {
                        lemma_lt_asymmetric::<K>(self.listing()[j], self.listing()[i]);
                    }
                }
            }
            self.listing().unique_seq_to_set();
        }
        self.keys.len()
    }

    pub fn is_empty(&self) -> (r: bool)
        ensures
            r <==> self@ == Set::<K::V>::empty(),
    {
        let n = self.keys.len();
        proof {
            if n == 0 {
                assert(self@ =~= Set::<K::V>::empty());
            } else {
                assert(self@.contains(self.listing()[0]));
            }
        }
        n == 0
    }

    /// The member at position `i` of the listing.
    pub fn at(&self, i: usize) -> (r: &K)
        requires
            i < self.listing().len(),
        ensures
            r.kv() == self.listing()[i as int],
    {
        &self.keys[i]
    }

    /// The number of members that come strictly before `key`.
    pub fn count_below(&self, key: &K) -> (r: usize)
        ensures
            r <= self.listing().len(),
            forall|i: int|
                0 <= i < self.listing().len() ==> (i < r <==> K::kless(
                    #[trigger] self.listing()[i],
                    key.kv(),
                )),
    {
        proof {
            use_type_invariant(self);
        }
        let mut lo: usize = 0;
        let mut hi: usize = self.keys.len();
        while lo < hi
            invariant
                ascending::<K>(self.listing()),
                lo <= hi <= self.listing().len(),
                self.listing().len() == self.keys@.len(),
                forall|i: int| 0 <= i < lo ==> K::kless(#[trigger] self.listing()[i], key.kv()),
                forall|i: int|
                    hi <= i < self.listing().len() ==> !K::kless(
                        #[trigger] self.listing()[i],
                        key.kv(),
                    ),
            decreases hi - lo,
        {
            let mid: usize = lo + (hi - lo) / 2;
            let s = self.keys[mid].standing(key);
            assert(self.listing()[mid as int] == self.keys@[mid as int].kv());
            match s {
                Standing::Below => {
                    proof {
                        assert forall|i: int| 0 <= i < mid + 1 implies K::kless(
                            #[trigger] self.listing()[i],
                            key.kv(),
                        ) by {
                            if i < mid {
                                K::lt_transitive(
                                    self.listing()[i],
                                    self.listing()[mid as int],
                                    key.kv(),
                                );
                            }
                        }
                    }
                    lo = mid + 1;
                },
                _ => {
                    proof {
                        assert forall|i: int| mid <= i < self.listing().len() implies !K::kless(
                            #[trigger] self.listing()[i],
                            key.kv(),
                        ) by {
                            lemma_lt_asymmetric::<K>(self.listing()[mid as int], key.kv());
                            lemma_lt_asymmetric::<K>(key.kv(), self.listing()[mid as int]);
                            if i > mid && K::kless(self.listing()[i], key.kv()) {
                                K::lt_transitive(
                                    self.listing()[mid as int],
                                    self.listing()[i],
                                    key.kv(),
                                );
                            }
                        }
                    }
                    hi = mid;
                },
            }
        }
        lo
    }

    /// The number of members that come before `key` or are `key` itself.
    pub fn count_through(&self, key: &K) -> (r: usize)
        ensures
            r <= self.listing().len(),
            forall|i: int|
                0 <= i < self.listing().len() ==> (i < r <==> !K::kless(
                    key.kv(),
                    #[trigger] self.listing()[i],
                )),
    {
        let at = self.count_below(key);
        proof {
            use_type_invariant(self);
            assert forall|i: int|
                0 <= i < self.listing().len() && #[trigger] self.listing()[i]
                    == key.kv() implies i == at by {
                lemma_lt_asymmetric::<K>(self.listing()[i], key.kv());
                lemma_lt_asymmetric::<K>(key.kv(), self.listing()[i]);
                if self.listing()[i] == key.kv() && i > at {
                    assert(K::kless(self.listing()[at as int], self.listing()[i]));
                }
            }
        }
        let mut hit = false;
        if at < self.keys.len() {
            match self.keys[at].standing(key) {
                Standing::Same => {
                    hit = true;
                },
                _ => {},
            }
            assert(self.listing()[at as int] == self.keys@[at as int].kv());
        }
        let r: usize = if hit {
            at + 1
        } else {
            at
        };
        proof {
            assert forall|i: int| 0 <= i < self.listing().len() implies (i < r <==> !K::kless(
                key.kv(),
                #[trigger] self.listing()[i],
            )) by {
                K::lt_total(self.listing()[i], key.kv());
                lemma_lt_asymmetric::<K>(self.listing()[i], key.kv());
                lemma_lt_asymmetric::<K>(key.kv(), self.listing()[i]);
                K::lt_irreflexive(key.kv());
            }
        }
        r
    }

    pub fn contains(&self, key: &K) -> (r: bool)
        ensures
            r <==> self@.contains(key.kv()),
    {
        let at = self.count_below(key);
        proof {
            use_type_invariant(self);
            if self@.contains(key.kv()) {
                let i = choose|i: int|
                    0 <= i < self.listing().len() && self.listing()[i] == key.kv();
                K::lt_irreflexive(key.kv());
                if i > at {
                    assert(K::kless(self.listing()[at as int], self.listing()[i]));
                }
            }
        }
        if at < self.keys.len() {
            assert(self.listing()[at as int] == self.keys@[at as int].kv());
            match self.keys[at].standing(key) {
                Standing::Same => true,
                _ => false,
            }
        } else {
            false
        }
    }

    /// Adds a key; tells whether it was absent.
    pub fn insert(&mut self, key: K) -> (r: bool)
        ensures
            final(self)@ == old(self)@.insert(key.kv()),
            r <==> !old(self)@.contains(key.kv()),
    {
        if self.contains(&key) {
            assert(self@.insert(key.kv()) =~= self@);
            return false;
        }
        let at = self.count_below(&key);
        proof {
            use_type_invariant(&*self);
        }
        let ghost before = self.listing();
        let mut keys: Vec<K> = Vec::new();
        std::mem::swap(&mut keys, &mut self.keys);
        assert(keys@.map_values(|k: K| k.kv()) == before);
        let ghost kept = keys@;
        keys.insert(at, key);
        let ghost after = keys@.map_values(|k: K| k.kv());
        proof {
            assert(after =~= before.insert(at as int, key.kv()));
            assert forall|i: int, j: int| 0 <= i < j < after.len() implies K::kless(
                #[trigger] after[i],
                #[trigger] after[j],
            ) by {
                let oi = if i < at { i } else { i - 1 };
                let oj = if j < at { j } else { j - 1 };
                if i != at {
                    assert(after[i] == before[oi]);
                }
                if j != at {
                    assert(after[j] == before[oj]);
                }
                if i == at {
                    K::lt_total(before[oj], key.kv());
                    assert(before.to_set().contains(before[oj]));
                }
            }
            assert(after.to_set() =~= before.to_set().insert(key.kv())) by {
                assert forall|x: K::V| after.to_set().contains(x) == before.to_set().insert(
                    key.kv(),
                ).contains(x) by {
                    if after.to_set().contains(x) {
                        let i = choose|i: int| 0 <= i < after.len() && after[i] == x;
                        if i < at {
                            assert(before[i] == x);
                        } else if i > at {
                            assert(before[i - 1] == x);
                        }
                    }
                    if before.to_set().contains(x) {
                        let i = choose|i: int| 0 <= i < before.len() && before[i] == x;
                        if i < at {
                            assert(after[i] == x);
                        } else {
                            assert(after[i + 1] == x);
                        }
                    }
                    assert(after[at as int] == key.kv());
                }
            }
        }
        self.keys = keys;
        true
    }

    /// Takes a key out; tells whether it was present.
    pub fn remove(&mut self, key: &K) -> (r: bool)
        ensures
            final(self)@ == old(self)@.remove(key.kv()),
            r <==> old(self)@.contains(key.kv()),
    {
        if !self.contains(key) {
            assert(self@.remove(key.kv()) =~= self@);
            return false;
        }
        let at = self.count_below(key);
        proof {
            use_type_invariant(&*self);
        }
        let ghost before = self.listing();
        proof {
            let i = choose|i: int| 0 <= i < before.len() && before[i] == key.kv();
            K::lt_irreflexive(key.kv());
            if i > at {
                assert(K::kless(before[at as int], before[i]));
            }
            assert(before[at as int] == key.kv());
        }
        let mut keys: Vec<K> = Vec::new();
        std::mem::swap(&mut keys, &mut self.keys);
        assert(keys@.map_values(|k: K| k.kv()) == before);
        keys.remove(at);
        let ghost after = keys@.map_values(|k: K| k.kv());
        proof {
            assert(after =~= before.remove(at as int));
            assert forall|i: int, j: int| 0 <= i < j < after.len() implies K::kless(
                #[trigger] after[i],
                #[trigger] after[j],
            ) by {
                let oi = if i < at { i } else { i + 1 };
                let oj = if j < at { j } else { j + 1 };
                assert(after[i] == before[oi]);
                assert(after[j] == before[oj]);
            }
            assert(after.to_set() =~= before.to_set().remove(key.kv())) by {
                assert forall|x: K::V| after.to_set().contains(x) == before.to_set().remove(
                    key.kv(),
                ).contains(x) by {
                    if after.to_set().contains(x) {
                        let i = choose|i: int| 0 <= i < after.len() && after[i] == x;
                        if i < at {
                            assert(before[i] == x);
                            lemma_lt_asymmetric::<K>(before[i], before[at as int]);
                        } else {
                            assert(before[i + 1] == x);
                            lemma_lt_asymmetric::<K>(before[at as int], before[i + 1]);
                        }
                    }
                    if before.to_set().contains(x) && x != key.kv() {
                        let i = choose|i: int| 0 <= i < before.len() && before[i] == x;
                        if i < at {
                            assert(after[i] == x);
                        } else {
                            assert(after[i - 1] == x);
                        }
                    }
                }
            }
        }
        self.keys = keys;
        true
    }
}

/// The position of a key in a listing.
pub open spec fn place_of<T>(s: Seq<T>, k: T) -> int {
    choose|i: int| 0 <= i < s.len() && s[i] == k
}

/// A map whose keys are kept in ascending order.
pub struct OrdMap<K: OrderKey, T> {
    keys: Vec<K>,
    vals: Vec<T>,
}

impl<K: OrderKey, T> OrdMap<K, T> {
    #[verifier::type_invariant]
    spec fn sorted(&self) -> bool {
        &&& ascending::<K>(self.listing())
        &&& self.keys@.len() == self.vals@.len()
    }

    /// The keys in ascending order.
    pub closed spec fn listing(&self) -> Seq<K::V> {
        self.keys@.map_values(|k: K| k.kv())
    }

    /// The values in the order of their keys.
    pub closed spec fn values(&self) -> Seq<T> {
        self.vals@
    }

    /// What each key maps to.
    pub open spec fn view(&self) -> Map<K::V, T> {
        Map::new(
            |k: K::V| self.listing().contains(k),
            |k: K::V| self.values()[place_of(self.listing(), k)],
        )
    }

    proof fn lemma_at(keys: Seq<K::V>, vals: Seq<T>, i: int)
        requires
            ascending::<K>(keys),
            0 <= i < keys.len(),
            keys.len() == vals.len(),
        ensures
            place_of(keys, keys[i]) == i,
    {
        let j = place_of(keys, keys[i]);
        if i < j {
            lemma_lt_asymmetric::<K>(keys[i], keys[j]);
        }
        if j < i {
            lemma_lt_asymmetric::<K>(keys[j], keys[i]);
        }
    }

    pub fn new() -> (r: OrdMap<K, T>)
        ensures
            r@ == Map::<K::V, T>::empty(),
            r.listing() == Seq::<K::V>::empty(),
    {
        let r = OrdMap { keys: Vec::new(), vals: Vec::new() };
        proof {
            assert(r.listing() =~= Seq::<K::V>::empty());
            assert(r@ =~= Map::<K::V, T>::empty());
        }
        r
    }

    pub fn len(&self) -> (r: usize)
        ensures
            r == self.listing().len(),
            r == self.values().len(),
            ascending::<K>(self.listing()),
            listing_of::<K>(self@.dom()) == self.listing(),
            forall|i: int|
                0 <= i < r ==> self@.contains_key(#[trigger] self.listing()[i])
                    && self@[self.listing()[i]] == self.values()[i],
    {
        proof {
            use_type_invariant(self);
            lemma_listing_of::<K>(self.listing());
            assert(self@.dom() =~= self.listing().to_set());
            assert forall|i: int| 0 <= i < self.listing().len() implies self@.contains_key(
                #[trigger] self.listing()[i],
            ) && self@[self.listing()[i]] == self.values()[i] by {
                Self::lemma_at(self.listing(), self.values(), i);
            }
        }
        self.keys.len()
    }

    pub fn key_at(&self, i: usize) -> (r: &K)
        requires
            i < self.listing().len(),
        ensures
            r.kv() == self.listing()[i as int],
    {
        &self.keys[i]
    }

    pub fn value_at(&self, i: usize) -> (r: &T)
        requires
            i < self.listing().len(),
        ensures
            *r == self.values()[i as int],
    {
        proof {
            use_type_invariant(self);
        }
        &self.vals[i]
    }

    fn count_below(&self, key: &K) -> (r: usize)
        ensures
            r <= self.listing().len(),
            forall|i: int|
                0 <= i < self.listing().len() ==> (i < r <==> K::kless(
                    #[trigger] self.listing()[i],
                    key.kv(),
                )),
            self@.contains_key(key.kv()) <==> r < self.listing().len() && self.listing()[r as int]
                == key.kv(),
    {
        proof {
            use_type_invariant(self);
        }
        let mut lo: usize = 0;
        let mut hi: usize = self.keys.len();
        while lo < hi
            invariant
                ascending::<K>(self.listing()),
                lo <= hi <= self.listing().len(),
                self.listing().len() == self.keys@.len(),
                forall|i: int| 0 <= i < lo ==> K::kless(#[trigger] self.listing()[i], key.kv()),
                forall|i: int|
                    hi <= i < self.listing().len() ==> !K::kless(
                        #[trigger] self.listing()[i],
                        key.kv(),
                    ),
            decreases hi - lo,
        {
            let mid: usize = lo + (hi - lo) / 2;
            let s = self.keys[mid].standing(key);
            assert(self.listing()[mid as int] == self.keys@[mid as int].kv());
            match s {
                Standing::Below => {
                    proof {
                        assert forall|i: int| 0 <= i < mid + 1 implies K::kless(
                            #[trigger] self.listing()[i],
                            key.kv(),
                        ) by {
                            if i < mid {
                                K::lt_transitive(
                                    self.listing()[i],
                                    self.listing()[mid as int],
                                    key.kv(),
                                );
                            }
                        }
                    }
                    lo = mid + 1;
                },
                _ => {
                    proof {
                        assert forall|i: int| mid <= i < self.listing().len() implies !K::kless(
                            #[trigger] self.listing()[i],
                            key.kv(),
                        ) by {
                            lemma_lt_asymmetric::<K>(self.listing()[mid as int], key.kv());
                            lemma_lt_asymmetric::<K>(key.kv(), self.listing()[mid as int]);
                            if i > mid && K::kless(self.listing()[i], key.kv()) {
                                K::lt_transitive(
                                    self.listing()[mid as int],
                                    self.listing()[i],
                                    key.kv(),
                                );
                            }
                        }
                    }
                    hi = mid;
                },
            }
        }
        proof {
            if self@.contains_key(key.kv()) {
                let i = choose|i: int|
                    0 <= i < self.listing().len() && self.listing()[i] == key.kv();
                K::lt_irreflexive(key.kv());
                if i > lo {
                    assert(K::kless(self.listing()[lo as int], self.listing()[i]));
                }
            }
        }
        lo
    }

    /// The position of a key in the listing.
    pub fn find(&self, key: &K) -> (r: Option<usize>)
        ensures
            match r {
                Some(i) => i < self.listing().len() && self.listing()[i as int] == key.kv()
                    && self@.contains_key(key.kv()) && self@[key.kv()] == self.values()[i as int],
                None => !self@.contains_key(key.kv()),
            },
    {
        let at = self.count_below(key);
        proof {
            use_type_invariant(self);
        }
        if at < self.keys.len() {
            assert(self.listing()[at as int] == self.keys@[at as int].kv());
            match self.keys[at].standing(key) {
                Standing::Same => {
                    proof {
                        Self::lemma_at(self.listing(), self.values(), at as int);
                    }
                    Some(at)
                },
                _ => None,
            }
        } else {
            None
        }
    }

    pub fn get(&self, key: &K) -> (r: Option<&T>)
        ensures
            match r {
                Some(v) => self@.contains_key(key.kv()) && self@[key.kv()] == *v,
                None => !self@.contains_key(key.kv()),
            },
    {
        proof {
            use_type_invariant(self);
        }
        match self.find(key) {
            Some(i) => Some(&self.vals[i]),
            None => None,
        }
    }

    pub fn contains_key(&self, key: &K) -> (r: bool)
        ensures
            r <==> self@.contains_key(key.kv()),
    {
        match self.find(key) {
            Some(_) => true,
            None => false,
        }
    }

    /// Takes a key out, and hands over what it mapped to.
    pub fn take(&mut self, key: &K) -> (r: Option<T>)
        ensures
            final(self)@ == old(self)@.remove(key.kv()),
            match r {
                Some(v) => old(self)@.contains_key(key.kv()) && v == old(self)@[key.kv()],
                None => !old(self)@.contains_key(key.kv()),
            },
    {
        match self.find(key) {
            None => {
                assert(self@.remove(key.kv()) =~= self@);
                None
            },
            Some(at) => {
                proof {
                    use_type_invariant(&*self);
                }
                let ghost before = self.listing();
                let ghost bvals = self.vals@;
                let mut hold: OrdMap<K, T> = OrdMap::new();
                std::mem::swap(&mut hold, self);
                let OrdMap { mut keys, mut vals } = hold;
                keys.remove(at);
                let held = vals.remove(at);
                let ghost after = keys@.map_values(|k: K| k.kv());
                proof {
                    assert(after =~= before.remove(at as int));
                    assert forall|i: int, j: int| 0 <= i < j < after.len() implies K::kless(
                        #[trigger] after[i],
                        #[trigger] after[j],
                    ) by {
                        let oi = if i < at { i } else { i + 1 };
                        let oj = if j < at { j } else { j + 1 };
                        assert(after[i] == before[oi]);
                        assert(after[j] == before[oj]);
                    }
                    assert forall|x: K::V| after.contains(x) == (before.contains(x) && x
                        != key.kv()) by {
                        if after.contains(x) {
                            let i = choose|i: int| 0 <= i < after.len() && after[i] == x;
                            if i < at {
                                assert(before[i] == x);
                                lemma_lt_asymmetric::<K>(before[i], before[at as int]);
                            } else {
                                assert(before[i + 1] == x);
                                lemma_lt_asymmetric::<K>(before[at as int], before[i + 1]);
                            }
                        }
                        if before.contains(x) && x != key.kv() {
                            let i = choose|i: int| 0 <= i < before.len() && before[i] == x;
                            if i < at {
                                assert(after[i] == x);
                            } else {
                                assert(after[i - 1] == x);
                            }
                        }
                    }
                    assert forall|x: K::V| after.contains(x) implies vals@[place_of(after, x)]
                        == bvals[place_of(before, x)] by {
                        let i = choose|i: int| 0 <= i < after.len() && after[i] == x;
                        Self::lemma_at(after, vals@, i);
                        let oi = if i < at { i } else { i + 1 };
                        assert(before[oi] == x);
                        Self::lemma_at(before, bvals, oi);
                    }
                }
                *self = OrdMap { keys, vals };
                assert(self.listing() == after);
                assert(self@ =~= old(self)@.remove(key.kv()));
                Some(held)
            },
        }
    }

    /// Takes a key out.
    pub fn remove(&mut self, key: &K) -> (r: bool)
        ensures
            final(self)@ == old(self)@.remove(key.kv()),
            r <==> old(self)@.contains_key(key.kv()),
    {
        match self.take(key) {
            Some(_) => true,
            None => false,
        }
    }

    /// Maps a key to a value, in place of what it mapped to before.
    pub fn insert(&mut self, key: K, val: T)
        ensures
            final(self)@ == old(self)@.insert(key.kv(), val),
    {
        let found = self.find(&key);
        let at = self.count_below(&key);
        proof {
            use_type_invariant(&*self);
        }
        let ghost before = self.listing();
        let ghost bvals = self.vals@;
        let mut hold: OrdMap<K, T> = OrdMap::new();
        std::mem::swap(&mut hold, self);
        let OrdMap { mut keys, mut vals } = hold;
        match found {
            Some(i) => {
                vals.set(i, val);
                *self = OrdMap { keys, vals };
                proof {
                    assert(self.listing() == before);
                    assert forall|x: K::V| before.contains(x) implies self.vals@[place_of(
                        before,
                        x,
                    )] == (if x == key.kv() { val } else { bvals[place_of(before, x)] }) by {
                        let j = choose|j: int| 0 <= j < before.len() && before[j] == x;
                        Self::lemma_at(before, bvals, j);
                        if j == i {
                            assert(x == key.kv());
                        } else if x == key.kv() {
                            if j < i {
                                lemma_lt_asymmetric::<K>(before[j], before[i as int]);
                            } else {
                                lemma_lt_asymmetric::<K>(before[i as int], before[j]);
                            }
                        }
                    }
                    assert(before.contains(key.kv()));
                    assert(self@ =~= old(self)@.insert(key.kv(), val));
                }
            },
            None => {
                keys.insert(at, key);
                vals.insert(at, val);
                let ghost after = keys@.map_values(|k: K| k.kv());
                proof {
                    assert(after =~= before.insert(at as int, key.kv()));
                    assert(vals@ =~= bvals.insert(at as int, val));
                    assert forall|i: int, j: int| 0 <= i < j < after.len() implies K::kless(
                        #[trigger] after[i],
                        #[trigger] after[j],
                    ) by {
                        let oi = if i < at { i } else { i - 1 };
                        let oj = if j < at { j } else { j - 1 };
                        if i != at {
                            assert(after[i] == before[oi]);
                        }
                        if j != at {
                            assert(after[j] == before[oj]);
                        }
                        if i == at {
                            K::lt_total(before[oj], key.kv());
                            assert(before.contains(before[oj]));
                        }
                    }
                    assert forall|x: K::V| after.contains(x) == (before.contains(x) || x
                        == key.kv()) by {
                        if after.contains(x) {
                            let i = choose|i: int| 0 <= i < after.len() && after[i] == x;
                            if i < at {
                                assert(before[i] == x);
                            } else if i > at {
                                assert(before[i - 1] == x);
                            }
                        }
                        if before.contains(x) {
                            let i = choose|i: int| 0 <= i < before.len() && before[i] == x;
                            if i < at {
                                assert(after[i] == x);
                            } else {
                                assert(after[i + 1] == x);
                            }
                        }
                        assert(after[at as int] == key.kv());
                    }
                    assert forall|x: K::V| after.contains(x) implies vals@[place_of(after, x)]
                        == (if x == key.kv() { val } else { bvals[place_of(before, x)] }) by {
                        let i = choose|i: int| 0 <= i < after.len() && after[i] == x;
                        Self::lemma_at(after, vals@, i);
                        if i == at {
                        } else {
                            let oi = if i < at { i } else { i - 1 };
                            assert(before[oi] == x);
                            Self::lemma_at(before, bvals, oi);
                            assert(before.contains(x));
                        }
                    }
                }
                *self = OrdMap { keys, vals };
                assert(self.listing() == after);
                assert(self@ =~= old(self)@.insert(key.kv(), val));
            },
        }
    }
}

} // verus!
