//! The cuckoo code: retrieval-side cuckoo hashing.  Each tuple is
//! stored in all `d` of its candidate buckets among `m = ceil(k * r)`
//! buckets.  Scheduling assigns every requested key one of its own
//! candidates by cuckoo insertion: an occupied candidate's key is
//! evicted and reinserted, with a random choice among the candidates
//! and a global attempt limit.  Eviction draws from a thread-local
//! generator, so scheduling is the one non-deterministic operation of
//! the library: the contract states what holds of every outcome.

use vstd::prelude::*;
use vstd::arithmetic::div_mod::{
    lemma_div_is_ordered, lemma_div_multiples_vanish, lemma_fundamental_div_mod,
};
use vstd::arithmetic::mul::{lemma_mul_inequality, lemma_mul_is_commutative};

use crate::pbc::hashing::{all_below, bucket_choices, choices_spec, key_bytes, le8};
use crate::pbc::{
    keys_match, lemma_disjoint_push, lemma_sched_view_push, random_below, scatter, scatter_bucket,
    sched_view, spec_disjoint, spec_uses, tuple_choices, BatchCode, Schedule, Tuple,
};

verus! {

/// How many evictions one scheduling call tolerates before the whole
/// schedule is declared infeasible.
pub const MAX_ATTEMPTS: usize = 1000;

pub struct CuckooCode {
    pub k: usize,
    pub d: usize,
    /// The load factor `r = r_num / r_den`, as a ratio of integers;
    /// the bucket count is `ceil(k * r_num / r_den)`.
    pub r_num: usize,
    pub r_den: usize,
}

/// The bucket count: `ceil(k * r_num / r_den)`.
pub open spec fn cuckoo_m(k: usize, r_num: usize, r_den: usize) -> int {
    (k * r_num + r_den - 1) / (r_den as int)
}

/// The bucket count lies between `k` and `k * r_num + r_den - 1`.
pub proof fn lemma_cuckoo_m_bounds(k: usize, r_num: usize, r_den: usize)
    requires
        1 <= k,
        1 <= r_den <= r_num,
        k as int * r_num as int + r_den as int - 1 <= usize::MAX as int,
    ensures
        k <= cuckoo_m(k, r_num, r_den) <= usize::MAX,
{
    let num = k * r_num + r_den - 1;
    lemma_mul_inequality(r_den as int, r_num as int, k as int);
    lemma_mul_is_commutative(r_den as int, k as int);
    lemma_mul_is_commutative(r_num as int, k as int);
    assert(k * r_den <= num);
    lemma_div_is_ordered(k as int * r_den as int, num, r_den as int);
    lemma_div_multiples_vanish(k as int, r_den as int);
    assert(num / (r_den as int) <= num) by {
        lemma_fundamental_div_mod(num, r_den as int);
        lemma_mul_inequality(1, r_den as int, num / (r_den as int));
    }
}

impl CuckooCode {
    /// Requires at least two hash functions and a load factor above
    /// one, passed as the ratio `r_num / r_den`.
    pub fn new(k: usize, d: usize, r_num: usize, r_den: usize) -> (r: CuckooCode)
        requires
            1 <= k,
            2 <= d <= k,
            1 <= r_den < r_num,
            k as int * r_num as int + r_den as int - 1 <= usize::MAX as int,
        ensures
            r.k == k,
            r.d == d,
            r.r_num == r_num,
            r.r_den == r_den,
            r.wf(),
    {
        CuckooCode { k, d, r_num, r_den }
    }

    /// The number of buckets this code encodes into.
    pub fn num_buckets_exec(&self) -> (m: usize)
        requires
            self.wf(),
        ensures
            m as int == cuckoo_m(self.k, self.r_num, self.r_den),
            self.k <= m,
    {
        proof {
            lemma_cuckoo_m_bounds(self.k, self.r_num, self.r_den);
        }
        (self.k * self.r_num + (self.r_den - 1)) / self.r_den
    }
}

/// The candidate table is complete: one distinct, in-range candidate
/// list per requested key, as the key's hash functions give it.
pub open spec fn cands_wf(cands: Seq<Vec<usize>>, keys: Seq<u64>, d: usize, m: usize) -> bool {
    &&& cands.len() == keys.len()
    &&& forall|i: int|
        0 <= i < cands.len() ==> {
            &&& (#[trigger] cands[i])@ == choices_spec(d as nat, le8(keys[i]), m)
            &&& 1 <= cands[i]@.len()
            &&& all_below(cands[i]@, m)
        }
}

/// Every occupant of the table is a known key index sitting in one of
/// its own candidate buckets.
pub open spec fn occ_wf(occ: Seq<Option<usize>>, cands: Seq<Vec<usize>>) -> bool {
    forall|b: int|
        0 <= b < occ.len() && (#[trigger] occ[b]) is Some ==> {
            &&& occ[b].unwrap() < cands.len()
            &&& cands[occ[b].unwrap() as int]@.contains(b as usize)
        }
}

/// No key index occupies two buckets.
pub open spec fn occ_inj(occ: Seq<Option<usize>>) -> bool {
    forall|b1: int, b2: int|
        0 <= b1 < occ.len() && 0 <= b2 < occ.len() && b1 != b2 && (#[trigger] occ[b1]) is Some
            ==> occ[b1] != #[trigger] occ[b2]
}

/// Whether key index `ki` occupies some bucket.
pub open spec fn occ_has(occ: Seq<Option<usize>>, ki: usize) -> bool {
    exists|b: int| 0 <= b < occ.len() && occ[b] == Some(ki)
}

/// The first candidate bucket of `cand`, from position `a` on, that
/// the table does not occupy.
pub open spec fn first_free(cand: Seq<usize>, occ: Seq<Option<usize>>, a: int) -> Option<usize>
    decreases cand.len() - a,
{
    if a < 0 || a >= cand.len() {
        None
    } else if occ[cand[a] as int] is None {
        Some(cand[a])
    } else {
        first_free(cand, occ, a + 1)
    }
}

/// The candidate lists of all requested keys, in request order.
pub open spec fn all_cands(keys: Seq<u64>, d: usize, m: usize) -> Seq<Seq<usize>> {
    Seq::new(keys.len(), |i: int| choices_spec(d as nat, le8(keys[i]), m))
}

/// The eviction-free pass: every key, in request order, takes the
/// first of its candidate buckets that is still empty, and the pass
/// fails at the first key that finds none.  While this pass goes
/// through, the scheduler never consults the random generator, so
/// its failure is owed only when the pass itself gets stuck.
pub open spec fn greedy_pass(cands: Seq<Seq<usize>>, n: int, m: usize) -> Option<
    Seq<Option<usize>>,
>
    decreases n,
{
    if n <= 0 {
        Some(Seq::new(m as nat, |b: int| None::<usize>))
    } else {
        match greedy_pass(cands, n - 1, m) {
            None => None,
            Some(occ) => match first_free(cands[n - 1], occ, 0) {
                None => None,
                Some(b) => Some(occ.update(b as int, Some((n - 1) as usize))),
            },
        }
    }
}

/// Once the eviction-free pass is stuck, it stays stuck.
proof fn lemma_greedy_none(cands: Seq<Seq<usize>>, n: int, n2: int, m: usize)
    requires
        greedy_pass(cands, n, m) is None,
        n <= n2,
    ensures
        greedy_pass(cands, n2, m) is None,
    decreases n2 - n,
{
    if n < n2 {
        lemma_greedy_none(cands, n, n2 - 1, m);
    }
}

/// One cuckoo insertion: place `ki` in an empty candidate, or evict a
/// random occupant and reinsert it, giving up after `MAX_ATTEMPTS`
/// evictions.  On success the set of placed keys grows by exactly
/// `ki`; the occupancy invariants hold either way.  When one of the
/// key's candidates is empty and the budget is not yet spent, the
/// call takes the first empty candidate and cannot fail: failure is
/// owed only to a full candidate list or an exhausted budget.
fn cuckoo_insert(
    occ: &mut Vec<Option<usize>>,
    cands: &Vec<Vec<usize>>,
    ki: usize,
    attempt: usize,
) -> (ok: bool)
    requires
        occ_wf(old(occ)@, cands@),
        occ_inj(old(occ)@),
        forall|i: int| 0 <= i < cands@.len() ==> 1 <= (#[trigger] cands@[i])@.len(),
        forall|i: int| 0 <= i < cands@.len() ==> all_below((#[trigger] cands@[i])@, old(occ)@.len() as usize),
        ki < cands@.len(),
        !occ_has(old(occ)@, ki),
    ensures
        final(occ)@.len() == old(occ)@.len(),
        occ_wf(final(occ)@, cands@),
        occ_inj(final(occ)@),
        ok ==> forall|kj: usize|
            #[trigger] occ_has(final(occ)@, kj) <==> (occ_has(old(occ)@, kj) || kj == ki),
        attempt < MAX_ATTEMPTS ==> (first_free(cands@[ki as int]@, old(occ)@, 0) matches Some(b)
            ==> ok && final(occ)@ == old(occ)@.update(b as int, Some(ki))),
        attempt < MAX_ATTEMPTS ==> ((exists|a: int|
            0 <= a < cands@[ki as int]@.len() && old(occ)@[#[trigger] cands@[ki as int]@[a] as int] is None)
            ==> ok),
    decreases MAX_ATTEMPTS - attempt,
{
    if attempt >= MAX_ATTEMPTS {
        return false;
    }
    let ghost occ0 = occ@;
    let mylen = cands[ki].len();
    let mut a: usize = 0;
    while a < mylen
        invariant
            a <= mylen,
            occ@ == occ0,
            occ0 == old(occ)@,
            ki < cands@.len(),
            mylen == cands@[ki as int]@.len(),
            all_below(cands@[ki as int]@, occ0.len() as usize),
            occ_wf(occ0, cands@),
            occ_inj(occ0),
            !occ_has(occ0, ki),
            forall|q: int| 0 <= q < a ==> occ0[cands@[ki as int]@[q] as int] is Some,
            first_free(cands@[ki as int]@, occ0, 0) == first_free(cands@[ki as int]@, occ0, a as int),
        decreases mylen - a,
    {
        let b = cands[ki][a];
        if occ[b].is_none() {
            occ[b] = Some(ki);
            proof {
                assert(occ@ == occ0.update(b as int, Some(ki)));
                assert(cands@[ki as int]@[a as int] == b);
                assert(cands@[ki as int]@.contains(b));
                assert(first_free(cands@[ki as int]@, occ0, a as int) == Some(b));
                assert(occ_wf(occ@, cands@));
                assert forall|b1: int, b2: int|
                    0 <= b1 < occ@.len() && 0 <= b2 < occ@.len() && b1 != b2 && (#[trigger] occ@[b1]) is Some implies occ@[b1]
                    != #[trigger] occ@[b2] by {
                    if b1 != b && b2 != b {
                    } else if b1 == b && occ@[b2] is Some {
                        if occ@[b2] == Some(ki) {
                            assert(occ0[b2] == Some(ki));
                            assert(occ_has(occ0, ki));
                        }
                    } else if b2 == b && occ@[b1] is Some {
                        if occ@[b1] == Some(ki) {
                            assert(occ0[b1] == Some(ki));
                            assert(occ_has(occ0, ki));
                        }
                    }
                }
                assert forall|kj: usize| #[trigger] occ_has(occ@, kj) <==> (occ_has(occ0, kj)
                    || kj == ki) by {
                    if occ_has(occ@, kj) {
                        let w = choose|w: int| 0 <= w < occ@.len() && occ@[w] == Some(kj);
                        if w != b {
                            assert(occ0[w] == Some(kj));
                        }
                    }
                    if occ_has(occ0, kj) {
                        let w = choose|w: int| 0 <= w < occ0.len() && occ0[w] == Some(kj);
                        assert(w != b);
                        assert(occ@[w] == Some(kj));
                    }
                    if kj == ki {
                        assert(occ@[b as int] == Some(kj));
                    }
                }
            }
            return true;
        }
        proof {
            assert(first_free(cands@[ki as int]@, occ0, a as int) == first_free(
                cands@[ki as int]@,
                occ0,
                a + 1,
            ));
        }
        a = a + 1;
    }
    // All candidates are occupied: evict one at random; the
    // first-empty and empty-exists promises are vacuous here.
    proof {
        assert(first_free(cands@[ki as int]@, occ0, 0) is None);
    }
    let idx = random_below(mylen);
    let victim = cands[ki][idx];
    let prev = occ[victim];
    proof {
        assert(occ0[cands@[ki as int]@[idx as int] as int] is Some);
    }
    let old_ki = prev.unwrap();
    occ[victim] = Some(ki);
    let ghost mid = occ@;
    proof {
        assert(mid == occ0.update(victim as int, Some(ki)));
        assert(ki != old_ki) by {
            if ki == old_ki {
                assert(occ0[victim as int] == Some(ki));
                assert(occ_has(occ0, ki));
            }
        }
        assert(occ_wf(mid, cands@));
        assert forall|b1: int, b2: int|
            0 <= b1 < mid.len() && 0 <= b2 < mid.len() && b1 != b2 && (#[trigger] mid[b1]) is Some implies mid[b1]
            != #[trigger] mid[b2] by {
            if b1 != victim && b2 != victim {
            } else if b1 == victim && mid[b2] is Some {
                if mid[b2] == Some(ki) {
                    assert(occ0[b2] == Some(ki));
                    assert(occ_has(occ0, ki));
                }
            } else if b2 == victim && mid[b1] is Some {
                if mid[b1] == Some(ki) {
                    assert(occ0[b1] == Some(ki));
                    assert(occ_has(occ0, ki));
                }
            }
        }
        assert(!occ_has(mid, old_ki)) by {
            if occ_has(mid, old_ki) {
                let w = choose|w: int| 0 <= w < mid.len() && mid[w] == Some(old_ki);
                assert(w != victim);
                assert(occ0[w] == Some(old_ki));
                assert(occ0[victim as int] == Some(old_ki));
            }
        }
    }
    let ok = cuckoo_insert(occ, cands, old_ki, attempt + 1);
    proof {
        if ok {
            assert forall|kj: usize| #[trigger] occ_has(occ@, kj) <==> (occ_has(occ0, kj) || kj
                == ki) by {
                assert(occ_has(occ@, kj) <==> (occ_has(mid, kj) || kj == old_ki));
                if kj == ki {
                    assert(mid[victim as int] == Some(kj));
                    assert(occ_has(mid, kj));
                } else if kj == old_ki {
                    assert(occ0[victim as int] == Some(kj));
                    assert(occ_has(occ0, kj));
                } else {
                    if occ_has(mid, kj) {
                        let w = choose|w: int| 0 <= w < mid.len() && mid[w] == Some(kj);
                        assert(w != victim);
                        assert(occ0[w] == Some(kj));
                    }
                    if occ_has(occ0, kj) {
                        let w = choose|w: int| 0 <= w < occ0.len() && occ0[w] == Some(kj);
                        assert(w != victim);
                        assert(mid[w] == Some(kj));
                    }
                }
            }
        }
    }
    ok
}

/// The bucket that key index `ki` occupies.
fn find_slot(occ: &Vec<Option<usize>>, ki: usize) -> (r: usize)
    requires
        occ_has(occ@, ki),
    ensures
        r < occ@.len(),
        occ@[r as int] == Some(ki),
{
    let mut b: usize = 0;
    while b < occ.len()
        invariant
            b <= occ@.len(),
            occ_has(occ@, ki),
            forall|q: int| 0 <= q < b ==> occ@[q] != Some(ki),
        decreases occ@.len() - b,
    {
        if let Some(x) = occ[b] {
            if x == ki {
                return b;
            }
        }
        b = b + 1;
    }
    proof {
        let w = choose|w: int| 0 <= w < occ@.len() && occ@[w] == Some(ki);
        assert(false);
    }
    0
}

impl BatchCode for CuckooCode {
    open spec fn wf(&self) -> bool {
        &&& 1 <= self.k
        &&& 2 <= self.d <= self.k
        &&& 1 <= self.r_den < self.r_num
        &&& self.k as int * self.r_num as int + self.r_den as int - 1 <= usize::MAX as int
    }

    open spec fn num_buckets(&self) -> nat {
        cuckoo_m(self.k, self.r_num, self.r_den) as nat
    }

    open spec fn capacity(&self) -> nat {
        self.k as nat
    }

    /// Bucket `j` holds exactly the tuples one of whose `d` hash
    /// choices is `j`, in input order.
    open spec fn encode_post(&self, c: Seq<Tuple>, r: Seq<Vec<Tuple>>) -> bool {
        forall|j: usize|
            j < r.len() ==> #[trigger] r[j as int]@ == scatter_bucket(
                c,
                self.d as nat,
                cuckoo_m(self.k, self.r_num, self.r_den) as usize,
                j,
            )
    }

    open spec fn sched_req(&self, keys: Seq<u64>) -> bool {
        true
    }

    /// Eviction is randomized, so the result is not a function of the
    /// input; what holds of every outcome is: on success each key is
    /// assigned exactly one of its own candidate buckets, and failure
    /// is owed only when even the eviction-free first-fit pass gets
    /// stuck — while every key finds an empty candidate at its turn,
    /// the scheduler never consults the generator and must succeed.
    open spec fn sched_post(&self, keys: Seq<u64>, r: Option<Seq<(u64, Seq<usize>)>>) -> bool {
        let m = cuckoo_m(self.k, self.r_num, self.r_den) as usize;
        match r {
            Some(s) => forall|i: int|
                0 <= i < s.len() ==> {
                    &&& (#[trigger] s[i]).1.len() == 1
                    &&& choices_spec(self.d as nat, le8(keys[i]), m).contains(s[i].1[0])
                },
            None => greedy_pass(all_cands(keys, self.d, m), keys.len() as int, m) is None,
        }
    }

    open spec fn decode_arity_ok(&self, n: nat) -> bool {
        n == 1
    }

    open spec fn decode_spec(&self, results: Seq<Tuple>) -> Tuple {
        results[0]
    }

    fn encode(&self, collection: &Vec<Tuple>) -> (r: Vec<Vec<Tuple>>) {
        let m = self.num_buckets_exec();
        scatter(collection, self.d, m)
    }

    fn get_schedule(&self, keys: &Vec<u64>) -> (r: Option<Schedule>) {
        let m = self.num_buckets_exec();
        let d = self.d;
        let n = keys.len();

        // The candidate buckets of each requested key, as its hash
        // functions give them.
        let mut cands: Vec<Vec<usize>> = Vec::new();
        let mut i: usize = 0;
        while i < n
            invariant
                i <= n,
                n == keys@.len(),
                d == self.d,
                1 <= d <= m,
                m as int == cuckoo_m(self.k, self.r_num, self.r_den),
                cands@.len() == i,
                forall|q: int|
                    0 <= q < i ==> {
                        &&& (#[trigger] cands@[q])@ == choices_spec(d as nat, le8(keys@[q]), m)
                        &&& 1 <= cands@[q]@.len()
                        &&& all_below(cands@[q]@, m)
                    },
            decreases n - i,
        {
            let bytes = key_bytes(keys[i]);
            let chs = bucket_choices(d, &bytes, m);
            cands.push(chs);
            i = i + 1;
        }

        // Cuckoo-insert every key index into the occupancy table.
        let mut occ: Vec<Option<usize>> = Vec::new();
        let mut b: usize = 0;
        while b < m
            invariant
                b <= m,
                occ@.len() == b,
                forall|q: int| 0 <= q < b ==> occ@[q] is None,
            decreases m - b,
        {
            occ.push(None);
            b = b + 1;
        }
        proof {
            assert forall|kj: usize| !occ_has(occ@, kj) by {
                if occ_has(occ@, kj) {
                    let w = choose|w: int| 0 <= w < occ@.len() && occ@[w] == Some(kj);
                }
            }
            let g0 = greedy_pass(all_cands(keys@, d, m), 0, m);
            assert(g0 is Some);
            assert(g0.unwrap() =~= occ@);
        }
        let mut ki: usize = 0;
        while ki < n
            invariant
                ki <= n,
                n == keys@.len(),
                n == cands@.len(),
                d == self.d,
                m as int == cuckoo_m(self.k, self.r_num, self.r_den),
                occ@.len() == m,
                cands_wf(cands@, keys@, d, m),
                occ_wf(occ@, cands@),
                occ_inj(occ@),
                forall|kj: usize| #[trigger] occ_has(occ@, kj) <==> kj < ki,
                match greedy_pass(all_cands(keys@, d, m), ki as int, m) {
                    Some(gocc) => occ@ == gocc,
                    None => true,
                },
            decreases n - ki,
        {
            let ghost occ_before = occ@;
            let ghost acs = all_cands(keys@, d, m);
            proof {
                assert(cands@[ki as int]@ == acs[ki as int]);
            }
            if !cuckoo_insert(&mut occ, &cands, ki, 0) {
                proof {
                    let g = greedy_pass(acs, ki as int, m);
                    if g is Some {
                        assert(occ_before == g.unwrap());
                        assert(first_free(acs[ki as int], g.unwrap(), 0) is None);
                        assert(greedy_pass(acs, ki + 1, m) is None);
                    } else {
                        assert(greedy_pass(acs, ki + 1, m) is None);
                    }
                    lemma_greedy_none(acs, ki + 1, keys@.len() as int, m);
                    assert(m == cuckoo_m(self.k, self.r_num, self.r_den) as usize);
                }
                return None;
            }
            proof {
                let g = greedy_pass(acs, ki as int, m);
                if g is Some {
                    let gocc = g.unwrap();
                    assert(occ_before == gocc);
                    let ff = first_free(acs[ki as int], gocc, 0);
                    if ff is Some {
                        let fb = ff.unwrap();
                        assert(occ@ == occ_before.update(fb as int, Some(ki)));
                        assert(greedy_pass(acs, ki + 1, m) == Some(
                            gocc.update(fb as int, Some(ki)),
                        ));
                    } else {
                        assert(greedy_pass(acs, ki + 1, m) is None);
                    }
                } else {
                    assert(greedy_pass(acs, ki + 1, m) is None);
                }
            }
            ki = ki + 1;
        }

        // Read the assignment off the table, in request order.
        let mut schedule: Schedule = Vec::new();
        let mut si: usize = 0;
        while si < n
            invariant
                si <= n,
                n == keys@.len(),
                n == cands@.len(),
                d == self.d,
                m as int == cuckoo_m(self.k, self.r_num, self.r_den),
                occ@.len() == m,
                cands_wf(cands@, keys@, d, m),
                occ_wf(occ@, cands@),
                occ_inj(occ@),
                forall|kj: usize| #[trigger] occ_has(occ@, kj) <==> kj < n,
                schedule@.len() == si,
                keys_match(sched_view(schedule@), keys@.subrange(0, si as int)),
                spec_disjoint(sched_view(schedule@)),
                forall|j: int|
                    0 <= j < si ==> {
                        &&& (#[trigger] sched_view(schedule@)[j]).1.len() == 1
                        &&& sched_view(schedule@)[j].1[0] < m
                        &&& occ@[sched_view(schedule@)[j].1[0] as int] == Some(j as usize)
                    },
            decreases n - si,
        {
            let b = find_slot(&occ, si);
            let entry_buckets: Vec<usize> = vec![b];
            let ghost view = sched_view(schedule@);
            proof {
                assert(entry_buckets@ =~= seq![b]);
                lemma_sched_view_push(schedule@, (keys@[si as int], entry_buckets));
                assert forall|a: int| 0 <= a < entry_buckets@.len() implies !spec_uses(
                    view,
                    #[trigger] entry_buckets@[a],
                ) by {
                    if spec_uses(view, entry_buckets@[a]) {
                        let (x, y) = choose|x: int, y: int|
                            0 <= x < view.len() && 0 <= y < view[x].1.len() && view[x].1[y]
                                == entry_buckets@[a];
                        assert(occ@[view[x].1[0] as int] == Some(x as usize));
                    }
                }
                lemma_disjoint_push(view, (keys@[si as int], entry_buckets@));
                assert(keys@.subrange(0, si + 1) =~= keys@.subrange(0, si as int).push(
                    keys@[si as int],
                ));
            }
            schedule.push((keys[si], entry_buckets));
            si = si + 1;
        }
        proof {
            assert(keys@.subrange(0, keys@.len() as int) =~= keys@);
            assert forall|j: int| 0 <= j < sched_view(schedule@).len() implies {
                &&& (#[trigger] sched_view(schedule@)[j]).1.len() == 1
                &&& choices_spec(
                    self.d as nat,
                    le8(keys@[j]),
                    cuckoo_m(self.k, self.r_num, self.r_den) as usize,
                ).contains(sched_view(schedule@)[j].1[0])
            } by {
                let bj = sched_view(schedule@)[j].1[0];
                assert(occ@[bj as int] == Some(j as usize));
                assert(cands@[j]@.contains(bj));
            }
        }
        Some(schedule)
    }

    fn decode(&self, results: &Vec<Tuple>) -> (r: Tuple) {
        results[0]
    }
}

/// Round trip: after encoding, every tuple whose key a successful
/// schedule covers sits in the single candidate bucket scheduled for
/// that key, and `decode` of that tuple alone is the tuple itself.
pub proof fn lemma_cuckoo_round_trip(
    code: CuckooCode,
    c: Seq<Tuple>,
    keys: Seq<u64>,
    e: Seq<Vec<Tuple>>,
    s: Seq<(u64, Seq<usize>)>,
    i: int,
    p: int,
)
    requires
        code.wf(),
        e.len() == code.num_buckets(),
        code.encode_post(c, e),
        code.sched_post(keys, Some(s)),
        keys_match(s, keys),
        0 <= i < s.len(),
        0 <= p < c.len(),
        c[p].t.0 == keys[i],
    ensures
        s[i].1.len() == 1,
        s[i].1[0] < e.len(),
        e[s[i].1[0] as int]@.contains(c[p]),
        code.decode_spec(seq![c[p]]) == c[p],
{
    let m = cuckoo_m(code.k, code.r_num, code.r_den) as usize;
    lemma_cuckoo_m_bounds(code.k, code.r_num, code.r_den);
    let b = s[i].1[0];
    crate::pbc::hashing::lemma_choices_spec_props(code.d as nat, le8(keys[i]), m);
    let ss = Some(s).unwrap();
    assert(ss[i].1.len() == 1 && choices_spec(
        code.d as nat,
        le8(keys[i]),
        cuckoo_m(code.k, code.r_num, code.r_den) as usize,
    ).contains(ss[i].1[0]));
    assert(ss == s);
    assert(choices_spec(code.d as nat, le8(keys[i]), m).contains(b));
    assert(b < m) by {
        let cs = choices_spec(code.d as nat, le8(keys[i]), m);
        let w = choose|w: int| 0 <= w < cs.len() && #[trigger] cs[w] == b;
        assert(cs[w] < m);
    }
    assert(e[b as int]@ == scatter_bucket(c, code.d as nat, m, b));
    assert(tuple_choices(c[p], code.d as nat, m).contains(b));
    crate::pbc::lemma_scatter_bucket_contains(c, code.d as nat, m, b, p);
}

} // verus!
