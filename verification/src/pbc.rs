//! Probabilistic batch codes.
//!
//! A batch code encodes a collection of key/value tuples into `m` buckets
//! so that any `k` of them can be retrieved by querying each bucket at
//! most once.  Five variants share the [`BatchCode`] interface:
//! replication, sharding, d-choices, cuckoo and the Pung hybrid.

use vstd::prelude::*;

use rand::RngCore;

use crate::pbc::hashing::{all_below, bucket_choices, choices_spec, key_bytes, le8};

pub mod choices;
pub mod cuckoo;
pub mod hashing;
pub mod pung;
pub mod replication;
pub mod sharding;

verus! {

/// An ordered key/value pair.  Both components combine by bitwise XOR,
/// which is what the XOR-subcube code of the Pung variant relies on.
#[derive(Clone, Copy, Debug, PartialEq, Eq)]
pub struct Tuple {
    pub t: (u64, u64),
}

impl Tuple {
    /// Componentwise XOR of the two fields, as a mathematical value.
    pub open spec fn xor_spec(self, other: Tuple) -> Tuple {
        Tuple { t: (self.t.0 ^ other.t.0, self.t.1 ^ other.t.1) }
    }

    /// Componentwise XOR of key and value.
    pub fn bitxor(self, rhs: Tuple) -> (r: Tuple)
        ensures
            r == self.xor_spec(rhs),
    {
        Tuple { t: (self.t.0 ^ rhs.t.0, self.t.1 ^ rhs.t.1) }
    }

    /// Componentwise XOR of key and value, in place.
    pub fn bitxor_assign(&mut self, rhs: Tuple)
        ensures
            *final(self) == old(self).xor_spec(rhs),
    {
        self.t.0 = self.t.0 ^ rhs.t.0;
        self.t.1 = self.t.1 ^ rhs.t.1;
    }
}

/// XOR is an involution on tuples: combining with the same tuple twice
/// gives the original back.
pub proof fn lemma_xor_involution(a: Tuple, b: Tuple)
    ensures
        a.xor_spec(b).xor_spec(b) == a,
{
    let x = a.t.0;
    let y = b.t.0;
    let v = a.t.1;
    let w = b.t.1;
    assert((x ^ y) ^ y == x) by (bit_vector);
    assert((v ^ w) ^ w == v) by (bit_vector);
}

/// XOR of a whole sequence of tuples, folded from the left; the fold of a
/// singleton is the element itself.
pub open spec fn xor_all(s: Seq<Tuple>) -> Tuple
    decreases s.len(),
{
    if s.len() == 0 {
        Tuple { t: (0, 0) }
    } else if s.len() == 1 {
        s[0]
    } else {
        xor_all(s.drop_last()).xor_spec(s.last())
    }
}

/// A schedule: for each requested key, in request order, the bucket
/// indices that must be queried and XOR-combined to recover it.
pub type Schedule = Vec<(u64, Vec<usize>)>;

/// The mathematical value of a schedule.
pub open spec fn sched_view(s: Seq<(u64, Vec<usize>)>) -> Seq<(u64, Seq<usize>)> {
    s.map_values(|e: (u64, Vec<usize>)| (e.0, e.1@))
}

/// Whether some entry of the schedule claims bucket `b`.
pub open spec fn spec_uses(s: Seq<(u64, Seq<usize>)>, b: usize) -> bool {
    exists|i: int, a: int| 0 <= i < s.len() && 0 <= a < s[i].1.len() && s[i].1[a] == b
}

/// No two entries of the schedule share a bucket: the property that
/// keeps one PIR query per bucket enough for the whole batch.
pub open spec fn spec_disjoint(s: Seq<(u64, Seq<usize>)>) -> bool {
    forall|i: int, j: int, a: int, c: int|
        0 <= i < s.len() && 0 <= j < s.len() && i != j && 0 <= a < s[i].1.len() && 0 <= c
            < s[j].1.len() ==> s[i].1[a] != s[j].1[c]
}

/// The schedule lists exactly the requested keys, in request order.
pub open spec fn keys_match(s: Seq<(u64, Seq<usize>)>, keys: Seq<u64>) -> bool {
    s.len() == keys.len() && forall|i: int| 0 <= i < s.len() ==> s[i].0 == keys[i]
}

/// Viewing a pushed entry pushes its view.
pub proof fn lemma_sched_view_push(s: Seq<(u64, Vec<usize>)>, e: (u64, Vec<usize>))
    ensures
        sched_view(s.push(e)) == sched_view(s).push((e.0, e.1@)),
{
    assert(sched_view(s.push(e)) =~= sched_view(s).push((e.0, e.1@)));
}

/// A pushed entry claims a bucket iff the old schedule did or the new
/// entry holds it.
pub proof fn lemma_uses_push(s: Seq<(u64, Seq<usize>)>, e: (u64, Seq<usize>), b: usize)
    ensures
        spec_uses(s.push(e), b) <==> (spec_uses(s, b) || e.1.contains(b)),
{
    let s2 = s.push(e);
    if spec_uses(s, b) {
        let (i, a) = choose|i: int, a: int|
            0 <= i < s.len() && 0 <= a < s[i].1.len() && s[i].1[a] == b;
        assert(s2[i].1[a] == b);
    }
    if e.1.contains(b) {
        let a = choose|a: int| 0 <= a < e.1.len() && e.1[a] == b;
        assert(s2[s.len() as int].1[a] == b);
    }
    if spec_uses(s2, b) {
        let (i, a) = choose|i: int, a: int|
            0 <= i < s2.len() && 0 <= a < s2[i].1.len() && s2[i].1[a] == b;
        if i < s.len() {
            assert(s[i].1[a] == b);
        } else {
            assert(e.1[a] == b);
        }
    }
}

/// A pushed bucket list holds a value iff the old list did or the new
/// value equals it.
pub proof fn lemma_used_push(used: Seq<usize>, x: usize)
    ensures
        forall|b: usize| #[trigger] used.push(x).contains(b) <==> (used.contains(b) || b == x),
{
    assert forall|b: usize| #[trigger] used.push(x).contains(b) <==> (used.contains(b) || b
        == x) by {
        if used.push(x).contains(b) {
            let w = choose|w: int| 0 <= w < used.len() + 1 && #[trigger] used.push(x)[w] == b;
            if w < used.len() {
                assert(used[w] == b);
            }
        }
        if used.contains(b) {
            let w = choose|w: int| 0 <= w < used.len() && #[trigger] used[w] == b;
            assert(used.push(x)[w] == b);
        }
        if b == x {
            assert(used.push(x)[used.len() as int] == b);
        }
    }
}

/// Adding an entry whose buckets are all unclaimed keeps the schedule
/// disjoint.
pub proof fn lemma_disjoint_push(s: Seq<(u64, Seq<usize>)>, e: (u64, Seq<usize>))
    requires
        spec_disjoint(s),
        forall|a: int| 0 <= a < e.1.len() ==> !spec_uses(s, #[trigger] e.1[a]),
    ensures
        spec_disjoint(s.push(e)),
{
    let s2 = s.push(e);
    assert forall|i: int, j: int, a: int, c: int|
        0 <= i < s2.len() && 0 <= j < s2.len() && i != j && 0 <= a < s2[i].1.len() && 0 <= c
            < s2[j].1.len() implies s2[i].1[a] != s2[j].1[c] by {
        if i < s.len() && j < s.len() {
        } else if i == s.len() {
            assert(s2[j] == s[j]);
            if e.1[a] == s[j].1[c] {
                assert(spec_uses(s, e.1[a]));
            }
        } else {
            assert(s2[i] == s[i]);
            if s[i].1[a] == e.1[c] {
                assert(spec_uses(s, e.1[c]));
            }
        }
    }
}

/// The common interface of the five batch codes.
///
/// `encode` splits a collection into buckets on the server;
/// `get_schedule` assigns each requested key the buckets to query, or
/// reports that no conflict-free assignment exists; `decode` combines
/// the tuples retrieved for one key.  Every successful schedule is
/// pairwise disjoint and lists the requested keys in request order.
pub trait BatchCode: Sized {
    /// The construction-time invariant of the code's parameters.
    spec fn wf(&self) -> bool;

    /// How many physical buckets `encode` produces.
    spec fn num_buckets(&self) -> nat;

    /// How many keys one batch may request.
    spec fn capacity(&self) -> nat;

    /// What `encode` guarantees of its result.
    spec fn encode_post(&self, c: Seq<Tuple>, r: Seq<Vec<Tuple>>) -> bool;

    /// What `get_schedule` requires of the request beyond size and
    /// uniqueness (the data-dependent code asks for labels).
    spec fn sched_req(&self, keys: Seq<u64>) -> bool;

    /// What `get_schedule` guarantees of its result.
    spec fn sched_post(&self, keys: Seq<u64>, r: Option<Seq<(u64, Seq<usize>)>>) -> bool;

    /// Which result counts `decode` accepts.
    spec fn decode_arity_ok(&self, n: nat) -> bool;

    /// The tuple `decode` returns.
    spec fn decode_spec(&self, results: Seq<Tuple>) -> Tuple;

    /// Encodes a collection into `num_buckets` buckets such that `k`
    /// items can be retrieved by querying each bucket at most once
    /// (with high probability).  Called by the server.
    fn encode(&self, collection: &Vec<Tuple>) -> (r: Vec<Vec<Tuple>>)
        requires
            self.wf(),
        ensures
            r@.len() == self.num_buckets(),
            self.encode_post(collection@, r@),
    ;

    /// Returns a conflict-free bucket assignment for the requested
    /// keys, or `None` when none can be found within the code's retry
    /// bounds.  Called by the client.
    fn get_schedule(&self, keys: &Vec<u64>) -> (r: Option<Schedule>)
        requires
            self.wf(),
            keys@.len() <= self.capacity(),
            keys@.no_duplicates(),
            self.sched_req(keys@),
        ensures
            match r {
                Some(s) => {
                    &&& self.sched_post(keys@, Some(sched_view(s@)))
                    &&& spec_disjoint(sched_view(s@))
                    &&& keys_match(sched_view(s@), keys@)
                },
                None => self.sched_post(keys@, None),
            },
    ;

    /// Combines the tuples retrieved for one key into the requested
    /// tuple.  Called by the client.
    fn decode(&self, results: &Vec<Tuple>) -> (r: Tuple)
        requires
            self.decode_arity_ok(results@.len() as nat),
        ensures
            r == self.decode_spec(results@),
    ;
}

/// The per-bucket contents of an encoded database, as mathematical
/// sequences.
pub open spec fn buckets_view(r: Seq<Vec<Tuple>>) -> Seq<Seq<Tuple>> {
    r.map_values(|b: Vec<Tuple>| b@)
}

/// The buckets that a tuple's key hashes to, one per hash function.
pub open spec fn tuple_choices(t: Tuple, d: nat, m: usize) -> Seq<usize> {
    choices_spec(d, le8(t.t.0), m)
}

/// The contents of bucket `j` after scattering a collection over `m`
/// buckets with `d` hash functions: the tuples whose key hashes to
/// `j`, in input order.
pub open spec fn scatter_bucket(c: Seq<Tuple>, d: nat, m: usize, j: usize) -> Seq<Tuple>
    decreases c.len(),
{
    if c.len() == 0 {
        Seq::empty()
    } else {
        let rest = scatter_bucket(c.drop_last(), d, m, j);
        if tuple_choices(c.last(), d, m).contains(j) {
            rest.push(c.last())
        } else {
            rest
        }
    }
}

/// Scattering one more tuple appends it to exactly the buckets its key
/// hashes to.
pub proof fn lemma_scatter_bucket_push(c: Seq<Tuple>, d: nat, m: usize, j: usize, t: Tuple)
    ensures
        scatter_bucket(c.push(t), d, m, j) == if tuple_choices(t, d, m).contains(j) {
            scatter_bucket(c, d, m, j).push(t)
        } else {
            scatter_bucket(c, d, m, j)
        },
{
    assert(c.push(t).drop_last() =~= c);
    assert(c.push(t).last() == t);
}

/// Every tuple whose key hashes to bucket `j` appears in that bucket.
pub proof fn lemma_scatter_bucket_contains(c: Seq<Tuple>, d: nat, m: usize, j: usize, p: int)
    requires
        0 <= p < c.len(),
        tuple_choices(c[p], d, m).contains(j),
    ensures
        scatter_bucket(c, d, m, j).contains(c[p]),
    decreases c.len(),
{
    if p == c.len() - 1 {
        assert(c.last() == c[p]);
        let r = scatter_bucket(c, d, m, j);
        assert(r[r.len() - 1] == c[p]);
    } else {
        lemma_scatter_bucket_contains(c.drop_last(), d, m, j, p);
        assert(c.drop_last()[p] == c[p]);
        let rest = scatter_bucket(c.drop_last(), d, m, j);
        let w = choose|w: int| 0 <= w < rest.len() && rest[w] == c[p];
        assert(scatter_bucket(c, d, m, j)[w] == c[p]);
    }
}

/// Pushes `t` onto every bucket whose index `chs` lists.
fn push_to_buckets(collections: &mut Vec<Vec<Tuple>>, chs: &Vec<usize>, t: Tuple)
    requires
        chs@.no_duplicates(),
        all_below(chs@, old(collections)@.len() as usize),
    ensures
        final(collections)@.len() == old(collections)@.len(),
        forall|q: usize|
            q < old(collections)@.len() ==> final(collections)@[q as int]@ == (
            if chs@.contains(q) {
                old(collections)@[q as int]@.push(t)
            } else {
                old(collections)@[q as int]@
            }),
{
    let ghost orig = collections@;
    let mut a: usize = 0;
    while a < chs.len()
        invariant
            a <= chs@.len(),
            chs@.no_duplicates(),
            all_below(chs@, orig.len() as usize),
            collections@.len() == orig.len(),
            forall|q: usize|
                q < orig.len() ==> collections@[q as int]@ == (if chs@.take(a as int).contains(
                    q,
                ) {
                    orig[q as int]@.push(t)
                } else {
                    orig[q as int]@
                }),
        decreases chs@.len() - a,
    {
        let b = chs[a];
        proof {
            assert(!chs@.take(a as int).contains(b)) by {
                if chs@.take(a as int).contains(b) {
                    let w = choose|w: int| 0 <= w < a && #[trigger] chs@.take(a as int)[w] == b;
                    assert(chs@[w] == chs@[a as int]);
                }
            }
        }
        collections[b].push(t);
        proof {
            assert forall|q: usize| q < orig.len() implies (#[trigger] chs@.take(a + 1).contains(
                q,
            ) <==> (chs@.take(a as int).contains(q) || q == b)) by {
                if chs@.take(a + 1).contains(q) {
                    let w = choose|w: int| 0 <= w < a + 1 && #[trigger] chs@.take(a + 1)[w] == q;
                    if w < a {
                        assert(chs@.take(a as int)[w] == q);
                    }
                }
                if chs@.take(a as int).contains(q) {
                    let w = choose|w: int| 0 <= w < a && #[trigger] chs@.take(a as int)[w] == q;
                    assert(chs@.take(a + 1)[w] == q);
                }
                if q == b {
                    assert(chs@.take(a + 1)[a as int] == q);
                }
            }
        }
        a = a + 1;
    }
    proof {
        assert(chs@.take(chs@.len() as int) =~= chs@);
    }
}

/// Places every tuple of the collection into each of the `d` distinct
/// buckets its key hashes to.
#[verifier::rlimit(100)]
pub(crate) fn scatter(collection: &Vec<Tuple>, d: usize, m: usize) -> (r: Vec<Vec<Tuple>>)
    requires
        1 <= d,
        d <= m,
    ensures
        r@.len() == m,
        forall|j: usize| j < m ==> r@[j as int]@ == scatter_bucket(collection@, d as nat, m, j),
{
    let mut collections: Vec<Vec<Tuple>> = Vec::new();
    let mut j: usize = 0;
    while j < m
        invariant
            j <= m,
            collections@.len() == j,
            forall|q: int| 0 <= q < j ==> collections@[q]@ == Seq::<Tuple>::empty(),
        decreases m - j,
    {
        collections.push(Vec::new());
        j = j + 1;
    }
    proof {
        assert(collection@.subrange(0, 0) =~= Seq::<Tuple>::empty());
    }
    let mut i: usize = 0;
    while i < collection.len()
        invariant
            i <= collection@.len(),
            1 <= d <= m,
            collections@.len() == m,
            forall|q: usize| q < m ==> collections@[q as int]@ == scatter_bucket(
                collection@.subrange(0, i as int),
                d as nat,
                m,
                q,
            ),
        decreases collection@.len() - i,
    {
        let t = collection[i];
        let ghost prefix = collection@.subrange(0, i as int);
        let bytes = key_bytes(t.t.0);
        let chs = bucket_choices(d, &bytes, m);
        push_to_buckets(&mut collections, &chs, t);
        proof {
            assert(collection@.subrange(0, i + 1) =~= prefix.push(t));
            assert forall|q: usize| q < m implies collections@[q as int]@ == scatter_bucket(
                collection@.subrange(0, i + 1),
                d as nat,
                m,
                q,
            ) by {
                lemma_scatter_bucket_push(prefix, d as nat, m, q, t);
                assert(chs@ == tuple_choices(t, d as nat, m));
            }
        }
        i = i + 1;
    }
    proof {
        assert(collection@.subrange(0, collection@.len() as int) =~= collection@);
    }
    collections
}

/// Replicates `buckets` so that every physical bucket `j` of the
/// result holds a copy of logical bucket `j % buckets.len()`.
pub(crate) fn replicate_buckets(buckets: Vec<Vec<Tuple>>, total: usize) -> (r: Vec<Vec<Tuple>>)
    requires
        1 <= buckets@.len(),
        buckets@.len() <= total,
    ensures
        r@.len() == total,
        forall|j: usize| j < total ==> r@[j as int]@ == buckets@[(j as int) % (
        buckets@.len() as int)]@,
{
    let k = buckets.len();
    let mut out = buckets;
    let mut i: usize = k;
    proof {
        assert forall|j: usize| j < k implies #[trigger] out@[j as int]@ == out@[(j as int) % (
        k as int)]@ by {
            vstd::arithmetic::div_mod::lemma_small_mod(j as nat, k as nat);
        }
    }
    while i < total
        invariant
            1 <= k <= i <= total,
            out@.len() == i,
            forall|j: int| 0 <= j < k ==> out@[j] == buckets@[j],
            forall|j: usize| j < i ==> out@[j as int]@ == buckets@[(j as int) % (k as int)]@,
        decreases total - i,
    {
        let src = i % k;
        let copy = copy_tuples(&out[src]);
        proof {
            assert(i % k == (i as int) % (k as int));
        }
        out.push(copy);
        i = i + 1;
    }
    out
}

/// Relies on `rand::thread_rng` and `rand::RngCore::next_u32`: one
/// draw from the thread-local generator.  Nothing is assumed of the
/// value, so this item has no `ensures`.
#[verifier::external_body]
fn random_u32() -> (r: u32) {
    rand::thread_rng().next_u32()
}

/// A random index below `n`: the raw draw reduced modulo `n`.
pub(crate) fn random_below(n: usize) -> (r: usize)
    requires
        1 <= n,
    ensures
        r < n,
{
    (random_u32() as usize) % n
}

/// Copies a collection of tuples.
pub(crate) fn copy_tuples(v: &Vec<Tuple>) -> (r: Vec<Tuple>)
    ensures
        r@ == v@,
{
    let mut out: Vec<Tuple> = Vec::new();
    let mut i: usize = 0;
    while i < v.len()
        invariant
            i <= v@.len(),
            out@ == v@.subrange(0, i as int),
        decreases v@.len() - i,
    {
        out.push(v[i]);
        proof {
            assert(out@ =~= v@.subrange(0, i + 1));
        }
        i = i + 1;
    }
    proof {
        assert(v@.subrange(0, v@.len() as int) =~= v@);
    }
    out
}

} // verus!
