//! The d-choices code: a batched greedy balanced allocation applied at
//! retrieval time.  Each tuple is hashed to `d` distinct logical
//! buckets in `[0, k)` and stored in each; the logical buckets are
//! replicated `bound` times.  A requested key recomputes its `d`
//! candidates and, candidate by candidate, probes the replicas for an
//! unused physical bucket.

use vstd::prelude::*;
use vstd::arithmetic::mul::{lemma_mul_inequality, lemma_mul_is_commutative};

use crate::pbc::hashing::{all_below, bucket_choices, choices_spec, key_bytes, le8};
use crate::pbc::sharding::{lemma_shard_probe_props, probe_replicas, shard_probe};
use crate::pbc::{
    keys_match, lemma_disjoint_push, lemma_sched_view_push, lemma_uses_push, replicate_buckets,
    scatter, scatter_bucket, sched_view, spec_disjoint, spec_uses, tuple_choices, BatchCode,
    Schedule, Tuple,
};

verus! {

pub struct ChoicesCode {
    pub k: usize,
    pub d: usize,
    /// The replica count: in the intended configuration
    /// `1 + ceil(ln ln k / ln d + 1)`.  The formula is transcendental,
    /// so the caller computes it and construction checks its range.
    pub bound: usize,
}

impl ChoicesCode {
    /// Requires `1 <= bound < k`: a bound of `k` or more means
    /// replication would already be cheaper.
    pub fn new(k: usize, d: usize, bound: usize) -> (r: ChoicesCode)
        requires
            1 <= d <= k,
            1 <= bound < k,
            k as int * bound as int <= usize::MAX as int,
        ensures
            r.k == k,
            r.d == d,
            r.bound == bound,
            r.wf(),
    {
        ChoicesCode { k, d, bound }
    }
}

/// The first unused physical bucket over the key's candidates: for
/// each candidate logical bucket in hash order, all `bound` replicas
/// are probed before the next candidate is tried.
pub open spec fn choice_probe(
    cands: Seq<usize>,
    ci: int,
    k: usize,
    bound: usize,
    s: Seq<(u64, Seq<usize>)>,
) -> Option<usize>
    decreases cands.len() - ci,
{
    if ci < 0 || ci >= cands.len() {
        None
    } else {
        match shard_probe(cands[ci], k, bound, s, 0) {
            Some(b) => Some(b),
            None => choice_probe(cands, ci + 1, k, bound, s),
        }
    }
}

/// The schedule after the first `n` keys.
pub open spec fn choices_sched_rec(
    keys: Seq<u64>,
    n: int,
    k: usize,
    d: usize,
    bound: usize,
) -> Option<Seq<(u64, Seq<usize>)>>
    decreases n,
{
    if n <= 0 {
        Some(Seq::empty())
    } else {
        match choices_sched_rec(keys, n - 1, k, d, bound) {
            None => None,
            Some(acc) => {
                let cands = choices_spec(d as nat, le8(keys[n - 1]), k);
                match choice_probe(cands, 0, k, bound, acc) {
                    None => None,
                    Some(b) => Some(acc.push((keys[n - 1], seq![b]))),
                }
            },
        }
    }
}

/// Once a prefix of the keys fails, the whole request fails.
proof fn lemma_choices_rec_none(keys: Seq<u64>, n: int, n2: int, k: usize, d: usize, bound: usize)
    requires
        choices_sched_rec(keys, n, k, d, bound) is None,
        n <= n2,
    ensures
        choices_sched_rec(keys, n2, k, d, bound) is None,
    decreases n2 - n,
{
    if n < n2 {
        lemma_choices_rec_none(keys, n, n2 - 1, k, d, bound);
    }
}

/// A successful candidate probe returns an unused replica of one of
/// the candidates.
proof fn lemma_choice_probe_props(
    cands: Seq<usize>,
    ci: int,
    k: usize,
    bound: usize,
    s: Seq<(u64, Seq<usize>)>,
)
    requires
        all_below(cands, k),
        1 <= k,
        k as int * bound as int <= usize::MAX as int,
    ensures
        choice_probe(cands, ci, k, bound, s) matches Some(b) ==> {
            &&& b < k as int * bound as int
            &&& cands.contains((((b as int) % (k as int)) as usize))
            &&& !spec_uses(s, b)
        },
    decreases cands.len() - ci,
{
    if 0 <= ci && ci < cands.len() {
        lemma_shard_probe_props(cands[ci], k, bound, s, 0);
        let probed = shard_probe(cands[ci], k, bound, s, 0);
        if probed is Some {
            let b = probed.unwrap();
            assert(cands[ci] == (((b as int) % (k as int)) as usize));
        } else {
            lemma_choice_probe_props(cands, ci + 1, k, bound, s);
        }
    }
}

/// Every entry of a successful d-choices schedule is a single replica
/// of one of the key's own candidate buckets.
pub proof fn lemma_choices_rec_props(keys: Seq<u64>, n: int, k: usize, d: usize, bound: usize)
    requires
        1 <= d <= k,
        k as int * bound as int <= usize::MAX as int,
        n <= keys.len(),
    ensures
        choices_sched_rec(keys, n, k, d, bound) matches Some(s) ==> {
            &&& s.len() == if n <= 0 {
                0
            } else {
                n
            }
            &&& forall|i: int|
                0 <= i < s.len() ==> {
                    &&& (#[trigger] s[i]).0 == keys[i]
                    &&& s[i].1.len() == 1
                    &&& s[i].1[0] < k as int * bound as int
                    &&& choices_spec(d as nat, le8(keys[i]), k).contains(
                        (((s[i].1[0] as int) % (k as int)) as usize),
                    )
                }
        },
    decreases n,
{
    if n > 0 {
        lemma_choices_rec_props(keys, n - 1, k, d, bound);
        let rec1 = choices_sched_rec(keys, n - 1, k, d, bound);
        if rec1 is Some {
            let acc = rec1.unwrap();
            let cands = choices_spec(d as nat, le8(keys[n - 1]), k);
            crate::pbc::hashing::lemma_choices_spec_props(d as nat, le8(keys[n - 1]), k);
            lemma_choice_probe_props(cands, 0, k, bound, acc);
        }
    }
}

/// Probes the candidates of one key, candidate by candidate and
/// replica by replica, for an unused physical bucket.
fn probe_candidates(
    chs: &Vec<usize>,
    k: usize,
    bound: usize,
    used: &Vec<usize>,
    Ghost(view): Ghost<Seq<(u64, Seq<usize>)>>,
) -> (r: Option<usize>)
    requires
        all_below(chs@, k),
        1 <= k,
        k as int * bound as int <= usize::MAX as int,
        forall|b: usize| #[trigger] used@.contains(b) <==> spec_uses(view, b),
    ensures
        r == choice_probe(chs@, 0, k, bound, view),
        r matches Some(b) ==> !spec_uses(view, b),
{
    let mut ci: usize = 0;
    while ci < chs.len()
        invariant
            ci <= chs@.len(),
            all_below(chs@, k),
            1 <= k,
            k as int * bound as int <= usize::MAX as int,
            forall|b: usize| #[trigger] used@.contains(b) <==> spec_uses(view, b),
            choice_probe(chs@, 0, k, bound, view) == choice_probe(chs@, ci as int, k, bound, view),
        decreases chs@.len() - ci,
    {
        let cand = chs[ci];
        let picked = probe_replicas(cand, k, bound, used, Ghost(view));
        if let Some(b) = picked {
            proof {
                assert(choice_probe(chs@, ci as int, k, bound, view) == Some(b));
            }
            return Some(b);
        }
        proof {
            assert(choice_probe(chs@, ci as int, k, bound, view) == choice_probe(
                chs@,
                ci + 1,
                k,
                bound,
                view,
            ));
        }
        ci = ci + 1;
    }
    None
}

impl BatchCode for ChoicesCode {
    open spec fn wf(&self) -> bool {
        &&& 1 <= self.d <= self.k
        &&& 1 <= self.bound < self.k
        &&& self.k as int * self.bound as int <= usize::MAX as int
    }

    open spec fn num_buckets(&self) -> nat {
        self.k as nat * self.bound as nat
    }

    open spec fn capacity(&self) -> nat {
        self.k as nat
    }

    /// Physical bucket `j` holds exactly the tuples one of whose `d`
    /// hash choices is logical bucket `j % k`, in input order.
    open spec fn encode_post(&self, c: Seq<Tuple>, r: Seq<Vec<Tuple>>) -> bool {
        forall|j: usize|
            j < r.len() ==> #[trigger] r[j as int]@ == scatter_bucket(
                c,
                self.d as nat,
                self.k,
                ((j as int) % (self.k as int)) as usize,
            )
    }

    open spec fn sched_req(&self, keys: Seq<u64>) -> bool {
        true
    }

    /// The result is exactly the greedy candidate-probing schedule.
    open spec fn sched_post(&self, keys: Seq<u64>, r: Option<Seq<(u64, Seq<usize>)>>) -> bool {
        r == choices_sched_rec(keys, keys.len() as int, self.k, self.d, self.bound)
    }

    open spec fn decode_arity_ok(&self, n: nat) -> bool {
        n == 1
    }

    open spec fn decode_spec(&self, results: Seq<Tuple>) -> Tuple {
        results[0]
    }

    fn encode(&self, collection: &Vec<Tuple>) -> (r: Vec<Vec<Tuple>>) {
        let logical = scatter(collection, self.d, self.k);
        proof {
            lemma_mul_inequality(1, self.bound as int, self.k as int);
            lemma_mul_is_commutative(self.bound as int, self.k as int);
        }
        let total = self.k * self.bound;
        let out = replicate_buckets(logical, total);
        proof {
            assert forall|j: usize| j < out@.len() implies #[trigger] out@[j as int]@
                == scatter_bucket(
                collection@,
                self.d as nat,
                self.k,
                ((j as int) % (self.k as int)) as usize,
            ) by {
                vstd::arithmetic::div_mod::lemma_mod_bound(j as int, self.k as int);
            }
        }
        out
    }

    fn get_schedule(&self, keys: &Vec<u64>) -> (r: Option<Schedule>) {
        let k = self.k;
        let d = self.d;
        let bound = self.bound;
        let mut schedule: Schedule = Vec::new();
        let mut used: Vec<usize> = Vec::new();
        let mut i: usize = 0;
        while i < keys.len()
            invariant
                i <= keys@.len(),
                k == self.k,
                d == self.d,
                bound == self.bound,
                1 <= d <= k,
                1 <= bound < k,
                k as int * bound as int <= usize::MAX as int,
                choices_sched_rec(keys@, i as int, k, d, bound) == Some(sched_view(schedule@)),
                forall|b: usize|
                    #[trigger] used@.contains(b) <==> spec_uses(sched_view(schedule@), b),
                spec_disjoint(sched_view(schedule@)),
                keys_match(sched_view(schedule@), keys@.subrange(0, i as int)),
            decreases keys@.len() - i,
        {
            let bytes = key_bytes(keys[i]);
            let chs = bucket_choices(d, &bytes, k);
            let ghost view = sched_view(schedule@);
            let picked = probe_candidates(&chs, k, bound, &used, Ghost(view));
            if let Some(chosen) = picked {
                let entry_buckets: Vec<usize> = vec![chosen];
                proof {
                    assert(entry_buckets@ =~= seq![chosen]);
                    lemma_sched_view_push(schedule@, (keys@[i as int], entry_buckets));
                    lemma_disjoint_push(view, (keys@[i as int], entry_buckets@));
                    assert(choices_sched_rec(keys@, i + 1, k, d, bound) == Some(
                        view.push((keys@[i as int], seq![chosen])),
                    ));
                    crate::pbc::lemma_used_push(used@, chosen);
                    assert forall|b: usize| spec_uses(
                        view.push((keys@[i as int], entry_buckets@)),
                        b,
                    ) <==> (spec_uses(view, b) || entry_buckets@.contains(b)) by {
                        lemma_uses_push(view, (keys@[i as int], entry_buckets@), b);
                    }
                    assert(keys@.subrange(0, i + 1) =~= keys@.subrange(0, i as int).push(
                        keys@[i as int],
                    ));
                }
                schedule.push((keys[i], entry_buckets));
                used.push(chosen);
                i = i + 1;
            } else {
                proof {
                    assert(choices_sched_rec(keys@, i + 1, k, d, bound) is None);
                    lemma_choices_rec_none(keys@, i + 1, keys@.len() as int, k, d, bound);
                }
                return None;
            }
        }
        proof {
            assert(keys@.subrange(0, keys@.len() as int) =~= keys@);
        }
        Some(schedule)
    }

    fn decode(&self, results: &Vec<Tuple>) -> (r: Tuple) {
        results[0]
    }
}

/// Round trip: after encoding, every tuple whose key a successful
/// schedule covers sits in the single bucket scheduled for that key,
/// and `decode` of that tuple alone is the tuple itself.
pub proof fn lemma_choices_round_trip(
    code: ChoicesCode,
    c: Seq<Tuple>,
    keys: Seq<u64>,
    e: Seq<Vec<Tuple>>,
    s: Seq<(u64, Seq<usize>)>,
    i: int,
    p: int,
)
    requires
        code.wf(),
        e.len() == code.num_buckets(),
        code.encode_post(c, e),
        code.sched_post(keys, Some(s)),
        0 <= i < s.len(),
        0 <= p < c.len(),
        c[p].t.0 == keys[i],
        s.len() == keys.len(),
    ensures
        s[i].1.len() == 1,
        s[i].1[0] < e.len(),
        e[s[i].1[0] as int]@.contains(c[p]),
        code.decode_spec(seq![c[p]]) == c[p],
{
    lemma_choices_rec_props(keys, keys.len() as int, code.k, code.d, code.bound);
    let b = s[i].1[0];
    let logical = ((b as int) % (code.k as int)) as usize;
    assert(e[b as int]@ == scatter_bucket(c, code.d as nat, code.k, logical));
    assert(tuple_choices(c[p], code.d as nat, code.k).contains(logical));
    crate::pbc::lemma_scatter_bucket_contains(c, code.d as nat, code.k, logical, p);
}

/// The d-choices code is deterministic: the contracts of `encode` and
/// `get_schedule` pin their results, so two invocations on equal
/// inputs return equal outputs.
pub proof fn lemma_choices_deterministic(
    code: ChoicesCode,
    c: Seq<Tuple>,
    keys: Seq<u64>,
    e1: Seq<Vec<Tuple>>,
    e2: Seq<Vec<Tuple>>,
    s1: Option<Seq<(u64, Seq<usize>)>>,
    s2: Option<Seq<(u64, Seq<usize>)>>,
)
    requires
        e1.len() == code.num_buckets() && code.encode_post(c, e1),
        e2.len() == code.num_buckets() && code.encode_post(c, e2),
        code.sched_post(keys, s1),
        code.sched_post(keys, s2),
    ensures
        e1.len() == e2.len(),
        forall|j: usize| j < e1.len() ==> #[trigger] e1[j as int]@ == e2[j as int]@,
        s1 == s2,
{
}

} // verus!
