//! The replication code: the trivial baseline.  `encode` returns `k`
//! exact copies of the collection, and key `i` of a batch is read from
//! bucket `i`.  No hashing is involved.

use vstd::prelude::*;

use crate::pbc::{
    buckets_view, copy_tuples, lemma_disjoint_push, lemma_sched_view_push, lemma_uses_push,
    sched_view, spec_disjoint, spec_uses, BatchCode, Schedule, Tuple,
};

verus! {

pub struct ReplicationCode {
    pub k: usize,
}

impl ReplicationCode {
    pub fn new(k: usize) -> (r: ReplicationCode)
        ensures
            r.k == k,
            r.wf(),
    {
        ReplicationCode { k }
    }
}

/// The schedule the replication code returns: key `i`, in arrival
/// order, is assigned bucket `i`.
pub open spec fn replication_sched_spec(keys: Seq<u64>) -> Seq<(u64, Seq<usize>)> {
    Seq::new(keys.len(), |i: int| (keys[i], seq![i as usize]))
}

impl BatchCode for ReplicationCode {
    open spec fn wf(&self) -> bool {
        true
    }

    open spec fn num_buckets(&self) -> nat {
        self.k as nat
    }

    open spec fn capacity(&self) -> nat {
        self.k as nat
    }

    /// Every bucket is an exact copy of the input collection.
    open spec fn encode_post(&self, c: Seq<Tuple>, r: Seq<Vec<Tuple>>) -> bool {
        forall|j: int| 0 <= j < r.len() ==> r[j]@ == c
    }

    open spec fn sched_req(&self, keys: Seq<u64>) -> bool {
        true
    }

    /// Replication always schedules: key `i` reads bucket `i`.
    open spec fn sched_post(&self, keys: Seq<u64>, r: Option<Seq<(u64, Seq<usize>)>>) -> bool {
        r == Some(replication_sched_spec(keys))
    }

    open spec fn decode_arity_ok(&self, n: nat) -> bool {
        n == 1
    }

    open spec fn decode_spec(&self, results: Seq<Tuple>) -> Tuple {
        results[0]
    }

    fn encode(&self, collection: &Vec<Tuple>) -> (r: Vec<Vec<Tuple>>)
    {
        let mut collections: Vec<Vec<Tuple>> = Vec::new();
        let mut i: usize = 0;
        while i < self.k
            invariant
                i <= self.k,
                collections@.len() == i,
                forall|j: int| 0 <= j < i ==> collections@[j]@ == collection@,
            decreases self.k - i,
        {
            collections.push(copy_tuples(collection));
            i = i + 1;
        }
        collections
    }

    fn get_schedule(&self, keys: &Vec<u64>) -> (r: Option<Schedule>)
    {
        let mut schedule: Schedule = Vec::new();
        let mut i: usize = 0;
        while i < keys.len()
            invariant
                i <= keys@.len(),
                keys@.len() <= self.k,
                sched_view(schedule@) == replication_sched_spec(keys@.subrange(0, i as int)),
                schedule@.len() == i,
                spec_disjoint(sched_view(schedule@)),
                forall|b: usize| spec_uses(sched_view(schedule@), b) ==> b < i,
            decreases keys@.len() - i,
        {
            let ghost old_view = sched_view(schedule@);
            let entry_buckets: Vec<usize> = vec![i];
            proof {
                assert(entry_buckets@ =~= seq![i]);
                lemma_sched_view_push(schedule@, (keys@[i as int], entry_buckets));
                lemma_disjoint_push(old_view, (keys@[i as int], entry_buckets@));
                assert forall|b: usize|
                    spec_uses(old_view.push((keys@[i as int], entry_buckets@)), b) implies b < i
                    + 1 by {
                    lemma_uses_push(old_view, (keys@[i as int], entry_buckets@), b);
                }
                assert(old_view.push((keys@[i as int], entry_buckets@))
                    =~= replication_sched_spec(keys@.subrange(0, i + 1)));
            }
            schedule.push((keys[i], entry_buckets));
            i = i + 1;
        }
        proof {
            assert(keys@.subrange(0, keys@.len() as int) =~= keys@);
        }
        Some(schedule)
    }

    fn decode(&self, results: &Vec<Tuple>) -> (r: Tuple)
    {
        results[0]
    }
}

/// Round trip: after encoding, every bucket is a full copy, so the
/// bucket scheduled for any requested key holds every tuple of the
/// collection, and `decode` of a single tuple is that tuple.
pub proof fn lemma_replication_round_trip(
    code: ReplicationCode,
    c: Seq<Tuple>,
    keys: Seq<u64>,
    e: Seq<Vec<Tuple>>,
    s: Seq<(u64, Seq<usize>)>,
    i: int,
    p: int,
)
    requires
        code.wf(),
        e.len() == code.num_buckets(),
        code.encode_post(c, e),
        code.sched_post(keys, Some(s)),
        keys.len() <= code.capacity(),
        0 <= i < s.len(),
        0 <= p < c.len(),
    ensures
        s[i].1.len() == 1,
        s[i].1[0] < e.len(),
        e[s[i].1[0] as int]@.contains(c[p]),
        code.decode_spec(seq![c[p]]) == c[p],
{
    assert(s[i].1 == seq![i as usize]);
    assert(e[i]@ == c);
    assert(e[i]@[p] == c[p]);
}

/// Replication is deterministic: the contracts of `encode` and
/// `get_schedule` pin their results, so two invocations on equal
/// inputs return equal outputs.
pub proof fn lemma_replication_deterministic(
    code: ReplicationCode,
    c: Seq<Tuple>,
    keys: Seq<u64>,
    e1: Seq<Vec<Tuple>>,
    e2: Seq<Vec<Tuple>>,
    s1: Option<Seq<(u64, Seq<usize>)>>,
    s2: Option<Seq<(u64, Seq<usize>)>>,
)
    requires
        e1.len() == code.num_buckets() && code.encode_post(c, e1),
        e2.len() == code.num_buckets() && code.encode_post(c, e2),
        code.sched_post(keys, s1),
        code.sched_post(keys, s2),
    ensures
        buckets_view(e1) == buckets_view(e2),
        s1 == s2,
{
    assert(buckets_view(e1) =~= buckets_view(e2));
}

} // verus!
