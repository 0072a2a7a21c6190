//! The sharding code.  Each tuple is hashed once into one of `k`
//! logical buckets; the logical buckets are then replicated `bound`
//! times, giving `m = k * bound` physical buckets where physical
//! bucket `j` holds a copy of logical bucket `j % k`.  A requested key
//! recomputes its hash `h` and probes the replicas `h, h + k,
//! h + 2k, …` until one is unused; when all `bound` replicas are
//! claimed the schedule fails.

use vstd::prelude::*;
use vstd::arithmetic::div_mod::{lemma_mod_bound, lemma_mod_multiples_vanish, lemma_small_mod};
use vstd::arithmetic::mul::{
    lemma_mul_inequality, lemma_mul_is_commutative, lemma_mul_is_distributive_sub,
};

use crate::pbc::hashing::{choices_spec, contains_usize, hash_and_mod, hash_mod, key_bytes, le8};
use crate::pbc::{
    keys_match, lemma_disjoint_push, lemma_sched_view_push, lemma_uses_push, replicate_buckets,
    scatter, scatter_bucket, sched_view, spec_disjoint, spec_uses, tuple_choices, BatchCode,
    Schedule, Tuple,
};

verus! {

pub struct ShardingCode {
    pub k: usize,
    /// The replica count: in the intended configuration
    /// `3 * ceil(ln k / ln ln k)`.  The formula is transcendental, so
    /// the caller computes it and construction checks its range.
    pub bound: usize,
}

impl ShardingCode {
    /// Requires `k > 15` (the retry-bound formula is meaningful only
    /// for `k` above `e^e`, so smaller batches are rejected outright)
    /// and `1 <= bound < k`: a bound of `k` or more means replication
    /// would already be cheaper.
    pub fn new(k: usize, bound: usize) -> (r: ShardingCode)
        requires
            15 < k,
            1 <= bound < k,
            k as int * bound as int <= usize::MAX as int,
        ensures
            r.k == k,
            r.bound == bound,
            r.wf(),
    {
        ShardingCode { k, bound }
    }
}

/// The first unused replica of logical bucket `h`, probing
/// `h + i*k, h + (i+1)*k, …` up to `bound` replicas.
pub open spec fn shard_probe(
    h: usize,
    k: usize,
    bound: usize,
    s: Seq<(u64, Seq<usize>)>,
    i: int,
) -> Option<usize>
    decreases bound - i,
{
    if i < 0 || i >= bound {
        None
    } else {
        let cand = (h + i * k) as usize;
        if !spec_uses(s, cand) {
            Some(cand)
        } else {
            shard_probe(h, k, bound, s, i + 1)
        }
    }
}

/// The schedule after the first `n` keys: each key hashes to its
/// logical bucket and takes the first unused replica, or the whole
/// schedule fails.
pub open spec fn shard_sched_rec(keys: Seq<u64>, n: int, k: usize, bound: usize) -> Option<
    Seq<(u64, Seq<usize>)>,
>
    decreases n,
{
    if n <= 0 {
        Some(Seq::empty())
    } else {
        match shard_sched_rec(keys, n - 1, k, bound) {
            None => None,
            Some(acc) => {
                let h = hash_mod(0, 0, le8(keys[n - 1]), k as nat) as usize;
                match shard_probe(h, k, bound, acc, 0) {
                    None => None,
                    Some(b) => Some(acc.push((keys[n - 1], seq![b]))),
                }
            },
        }
    }
}

/// Once a prefix of the keys fails, the whole request fails.
proof fn lemma_shard_rec_none(keys: Seq<u64>, n: int, n2: int, k: usize, bound: usize)
    requires
        shard_sched_rec(keys, n, k, bound) is None,
        n <= n2,
    ensures
        shard_sched_rec(keys, n2, k, bound) is None,
    decreases n2 - n,
{
    if n < n2 {
        lemma_shard_rec_none(keys, n, n2 - 1, k, bound);
    }
}

/// A successful probe returns an unused replica of logical bucket `h`.
pub proof fn lemma_shard_probe_props(
    h: usize,
    k: usize,
    bound: usize,
    s: Seq<(u64, Seq<usize>)>,
    i: int,
)
    requires
        h < k,
        1 <= k,
        k as int * bound as int <= usize::MAX as int,
    ensures
        shard_probe(h, k, bound, s, i) matches Some(b) ==> {
            &&& b < k as int * bound as int
            &&& (b as int) % (k as int) == h
            &&& !spec_uses(s, b)
        },
    decreases bound - i,
{
    if 0 <= i && i < bound {
        lemma_mul_inequality(i, bound - 1, k as int);
        lemma_mul_is_commutative(bound - 1, k as int);
        lemma_mul_is_commutative(i, k as int);
        lemma_mul_is_distributive_sub(k as int, bound as int, 1);
        let cand = (h + i * k) as usize;
        assert(h + i * k <= k as int * bound as int - 1);
        if !spec_uses(s, cand) {
            lemma_mod_multiples_vanish(i, h as int, k as int);
            lemma_small_mod(h as nat, k as nat);
        } else {
            lemma_shard_probe_props(h, k, bound, s, i + 1);
        }
    }
}

/// Every entry of a successful sharding schedule is a single replica
/// of the key's own logical bucket.
pub proof fn lemma_shard_rec_props(keys: Seq<u64>, n: int, k: usize, bound: usize)
    requires
        1 <= k,
        k as int * bound as int <= usize::MAX as int,
        n <= keys.len(),
    ensures
        shard_sched_rec(keys, n, k, bound) matches Some(s) ==> {
            &&& s.len() == if n <= 0 {
                0
            } else {
                n
            }
            &&& forall|i: int|
                0 <= i < s.len() ==> {
                    &&& (#[trigger] s[i]).0 == keys[i]
                    &&& s[i].1.len() == 1
                    &&& s[i].1[0] < k as int * bound as int
                    &&& (s[i].1[0] as int) % (k as int) == hash_mod(0, 0, le8(keys[i]), k as nat)
                }
        },
    decreases n,
{
    if n > 0 {
        lemma_shard_rec_props(keys, n - 1, k, bound);
        let rec1 = shard_sched_rec(keys, n - 1, k, bound);
        if rec1 is Some {
            let acc = rec1.unwrap();
            let h = hash_mod(0, 0, le8(keys[n - 1]), k as nat) as usize;
            crate::pbc::hashing::lemma_hash_mod_bound(0, 0, le8(keys[n - 1]), k as nat);
            lemma_shard_probe_props(h, k, bound, acc, 0);
        }
    }
}

/// Probes the replicas `h, h + k, …` of logical bucket `h` and
/// returns the first one the schedule does not use yet.
pub(crate) fn probe_replicas(
    h: usize,
    k: usize,
    bound: usize,
    used: &Vec<usize>,
    Ghost(view): Ghost<Seq<(u64, Seq<usize>)>>,
) -> (r: Option<usize>)
    requires
        h < k,
        1 <= k,
        k as int * bound as int <= usize::MAX as int,
        forall|b: usize| #[trigger] used@.contains(b) <==> spec_uses(view, b),
    ensures
        r == shard_probe(h, k, bound, view, 0),
        r matches Some(b) ==> !spec_uses(view, b),
{
    let mut p: usize = 0;
    while p < bound
        invariant
            p <= bound,
            h < k,
            1 <= k,
            k as int * bound as int <= usize::MAX as int,
            forall|b: usize| #[trigger] used@.contains(b) <==> spec_uses(view, b),
            shard_probe(h, k, bound, view, 0) == shard_probe(h, k, bound, view, p as int),
        decreases bound - p,
    {
        proof {
            lemma_mul_inequality(p as int, bound - 1, k as int);
            lemma_mul_is_commutative(bound - 1, k as int);
            lemma_mul_is_commutative(p as int, k as int);
            lemma_mul_is_distributive_sub(k as int, bound as int, 1);
        }
        let cand = h + p * k;
        if !contains_usize(used, cand) {
            proof {
                assert(shard_probe(h, k, bound, view, p as int) == Some(cand));
            }
            return Some(cand);
        }
        proof {
            assert(shard_probe(h, k, bound, view, p as int) == shard_probe(
                h,
                k,
                bound,
                view,
                p + 1,
            ));
        }
        p = p + 1;
    }
    None
}

impl BatchCode for ShardingCode {
    open spec fn wf(&self) -> bool {
        &&& 15 < self.k
        &&& 1 <= self.bound < self.k
        &&& self.k as int * self.bound as int <= usize::MAX as int
    }

    open spec fn num_buckets(&self) -> nat {
        self.k as nat * self.bound as nat
    }

    open spec fn capacity(&self) -> nat {
        self.k as nat
    }

    /// Physical bucket `j` holds exactly the tuples whose key hashes
    /// to logical bucket `j % k`, in input order.
    open spec fn encode_post(&self, c: Seq<Tuple>, r: Seq<Vec<Tuple>>) -> bool {
        forall|j: usize|
            j < r.len() ==> #[trigger] r[j as int]@ == scatter_bucket(
                c,
                1,
                self.k,
                ((j as int) % (self.k as int)) as usize,
            )
    }

    open spec fn sched_req(&self, keys: Seq<u64>) -> bool {
        true
    }

    /// The result is exactly the replica-probing schedule.
    open spec fn sched_post(&self, keys: Seq<u64>, r: Option<Seq<(u64, Seq<usize>)>>) -> bool {
        r == shard_sched_rec(keys, keys.len() as int, self.k, self.bound)
    }

    open spec fn decode_arity_ok(&self, n: nat) -> bool {
        n == 1
    }

    open spec fn decode_spec(&self, results: Seq<Tuple>) -> Tuple {
        results[0]
    }

    fn encode(&self, collection: &Vec<Tuple>) -> (r: Vec<Vec<Tuple>>) {
        let logical = scatter(collection, 1, self.k);
        proof {
            lemma_mul_inequality(1, self.bound as int, self.k as int);
            lemma_mul_is_commutative(self.bound as int, self.k as int);
        }
        let total = self.k * self.bound;
        let out = replicate_buckets(logical, total);
        proof {
            assert forall|j: usize| j < out@.len() implies out@[j as int]@ == scatter_bucket(
                collection@,
                1,
                self.k,
                ((j as int) % (self.k as int)) as usize,
            ) by {
                lemma_mod_bound(j as int, self.k as int);
            }
        }
        out
    }

    fn get_schedule(&self, keys: &Vec<u64>) -> (r: Option<Schedule>) {
        let k = self.k;
        let bound = self.bound;
        let mut schedule: Schedule = Vec::new();
        let mut used: Vec<usize> = Vec::new();
        let mut i: usize = 0;
        while i < keys.len()
            invariant
                i <= keys@.len(),
                k == self.k,
                bound == self.bound,
                15 < k,
                1 <= bound < k,
                k as int * bound as int <= usize::MAX as int,
                shard_sched_rec(keys@, i as int, k, bound) == Some(sched_view(schedule@)),
                forall|b: usize|
                    #[trigger] used@.contains(b) <==> spec_uses(sched_view(schedule@), b),
                spec_disjoint(sched_view(schedule@)),
                keys_match(sched_view(schedule@), keys@.subrange(0, i as int)),
            decreases keys@.len() - i,
        {
            let bytes = key_bytes(keys[i]);
            let h = hash_and_mod(0, 0, &bytes, k);
            let ghost view = sched_view(schedule@);
            let picked = probe_replicas(h, k, bound, &used, Ghost(view));
            if let Some(chosen) = picked {
                let entry_buckets: Vec<usize> = vec![chosen];
                proof {
                    assert(entry_buckets@ =~= seq![chosen]);
                    lemma_sched_view_push(schedule@, (keys@[i as int], entry_buckets));
                    lemma_disjoint_push(view, (keys@[i as int], entry_buckets@));
                    assert(shard_sched_rec(keys@, i + 1, k, bound) == Some(
                        view.push((keys@[i as int], seq![chosen])),
                    ));
                    crate::pbc::lemma_used_push(used@, chosen);
                    assert forall|b: usize| spec_uses(
                        view.push((keys@[i as int], entry_buckets@)),
                        b,
                    ) <==> (spec_uses(view, b) || entry_buckets@.contains(b)) by {
                        lemma_uses_push(view, (keys@[i as int], entry_buckets@), b);
                    }
                    assert(keys@.subrange(0, i + 1) =~= keys@.subrange(0, i as int).push(
                        keys@[i as int],
                    ));
                }
                schedule.push((keys[i], entry_buckets));
                used.push(chosen);
                i = i + 1;
            } else {
                proof {
                    assert(shard_sched_rec(keys@, i + 1, k, bound) is None);
                    lemma_shard_rec_none(keys@, i + 1, keys@.len() as int, k, bound);
                }
                return None;
            }
        }
        proof {
            assert(keys@.subrange(0, keys@.len() as int) =~= keys@);
        }
        Some(schedule)
    }

    fn decode(&self, results: &Vec<Tuple>) -> (r: Tuple) {
        results[0]
    }
}

/// Round trip: after encoding, every tuple whose key a successful
/// schedule covers sits in the single bucket scheduled for that key,
/// and `decode` of that tuple alone is the tuple itself.
#[verifier::rlimit(100)]
#[verifier::spinoff_prover]
pub proof fn lemma_sharding_round_trip(
    code: ShardingCode,
    c: Seq<Tuple>,
    keys: Seq<u64>,
    e: Seq<Vec<Tuple>>,
    s: Seq<(u64, Seq<usize>)>,
    i: int,
    p: int,
)
    requires
        code.wf(),
        e.len() == code.num_buckets(),
        code.encode_post(c, e),
        code.sched_post(keys, Some(s)),
        0 <= i < s.len(),
        0 <= p < c.len(),
        c[p].t.0 == keys[i],
        s.len() == keys.len(),
    ensures
        s[i].1.len() == 1,
        s[i].1[0] < e.len(),
        e[s[i].1[0] as int]@.contains(c[p]),
        code.decode_spec(seq![c[p]]) == c[p],
{
    lemma_shard_rec_props(keys, keys.len() as int, code.k, code.bound);
    let b = s[i].1[0];
    let logical = ((b as int) % (code.k as int)) as usize;
    assert(e[b as int]@ == scatter_bucket(c, 1, code.k, logical));
    assert(choices_spec(0, le8(keys[i]), code.k) =~= Seq::<usize>::empty());
    assert(tuple_choices(c[p], 1, code.k) == Seq::<usize>::empty().push(
        crate::pbc::hashing::fresh_choice(0, le8(keys[i]), code.k, Seq::empty(), 0),
    ));
    assert(!Seq::<usize>::empty().contains(
        hash_mod(0, 0, le8(keys[i]), code.k as nat) as usize,
    ));
    assert(tuple_choices(c[p], 1, code.k)[0] == hash_mod(0, 0, le8(keys[i]), code.k as nat));
    assert(tuple_choices(c[p], 1, code.k).contains(logical));
    crate::pbc::lemma_scatter_bucket_contains(c, 1, code.k, logical, p);
}

/// Sharding is deterministic: the contracts of `encode` and
/// `get_schedule` pin their results, so two invocations on equal
/// inputs return equal outputs.
pub proof fn lemma_sharding_deterministic(
    code: ShardingCode,
    c: Seq<Tuple>,
    keys: Seq<u64>,
    e1: Seq<Vec<Tuple>>,
    e2: Seq<Vec<Tuple>>,
    s1: Option<Seq<(u64, Seq<usize>)>>,
    s2: Option<Seq<(u64, Seq<usize>)>>,
)
    requires
        e1.len() == code.num_buckets() && code.encode_post(c, e1),
        e2.len() == code.num_buckets() && code.encode_post(c, e2),
        code.sched_post(keys, s1),
        code.sched_post(keys, s2),
    ensures
        e1.len() == e2.len(),
        forall|j: usize| j < e1.len() ==> #[trigger] e1[j as int]@ == e2[j as int]@,
        s1 == s2,
{
}

} // verus!
