//! The Pung hybrid code: 2-way hashing into `k` logical buckets, each
//! of which is then encoded by an XOR subcube code into 9 sub-buckets
//! (4 systematic quarters and 5 XOR parities), for `m = 9k` buckets in
//! all.  Scheduling is data-dependent: the client must first learn,
//! for each key, the sub-buckets that hold a copy of it (the labels),
//! and each occurrence then offers four candidate retrieval sets whose
//! XOR reconstructs the tuple.

use vstd::prelude::*;
use vstd::arithmetic::div_mod::{lemma_fundamental_div_mod, lemma_fundamental_div_mod_converse};

use std::collections::HashMap;

use crate::pbc::hashing::all_below;
use crate::pbc::{
    copy_tuples, keys_match, lemma_disjoint_push, lemma_sched_view_push, lemma_uses_push, scatter,
    scatter_bucket, sched_view, spec_disjoint, spec_uses, xor_all, BatchCode, Schedule, Tuple,
};

verus! {

broadcast use vstd::std_specs::hash::group_hash_axioms;

pub struct PungCode {
    pub k: usize,
    /// For each key, the sub-buckets in which a tuple with that key
    /// appears after encoding.  Pung is the only data-dependent code:
    /// the labels must be set, once, before the first schedule call.
    pub labels: HashMap<u64, Vec<usize>>,
    pub labels_set: bool,
}

/// The first half of a bucket split at the midpoint, rounded up.
pub open spec fn front_half(s: Seq<Tuple>) -> Seq<Tuple> {
    s.take(((s.len() + 1) / 2) as int)
}

/// The second half of a bucket split at the midpoint, rounded up.
pub open spec fn back_half(s: Seq<Tuple>) -> Seq<Tuple> {
    s.skip(((s.len() + 1) / 2) as int)
}

/// Quarter `o` of a bucket: the bucket is halved, and each half is
/// halved again, always rounding the front part up.
pub open spec fn quarter(s: Seq<Tuple>, o: int) -> Seq<Tuple> {
    if o == 0 {
        front_half(front_half(s))
    } else if o == 1 {
        back_half(front_half(s))
    } else if o == 2 {
        front_half(back_half(s))
    } else {
        back_half(back_half(s))
    }
}

/// Elementwise XOR of two quarters.  When the first operand is one
/// tuple longer (odd splits), the missing trailing tuple is taken
/// verbatim from the first operand.
pub open spec fn parity(x: Seq<Tuple>, y: Seq<Tuple>) -> Seq<Tuple>
    recommends
        y.len() <= x.len(),
{
    Seq::new(x.len(), |i: int| if i < y.len() {
        x[i].xor_spec(y[i])
    } else {
        x[i]
    })
}

/// The 9 sub-buckets of one logical bucket: the four quarters, the
/// four pairwise parities, and the XOR of parities 4 and 5.
pub open spec fn encode_bucket_spec(b: Seq<Tuple>) -> Seq<Seq<Tuple>> {
    let q0 = quarter(b, 0);
    let q1 = quarter(b, 1);
    let q2 = quarter(b, 2);
    let q3 = quarter(b, 3);
    seq![
        q0,
        q1,
        q2,
        q3,
        parity(q0, q1),
        parity(q2, q3),
        parity(q0, q2),
        parity(q1, q3),
        parity(parity(q0, q1), parity(q2, q3)),
    ]
}

/// A copy of `v[lo..hi]`.
fn subvec(v: &Vec<Tuple>, lo: usize, hi: usize) -> (r: Vec<Tuple>)
    requires
        lo <= hi <= v@.len(),
    ensures
        r@ == v@.subrange(lo as int, hi as int),
{
    let mut out: Vec<Tuple> = Vec::new();
    let mut i: usize = lo;
    while i < hi
        invariant
            lo <= i <= hi <= v@.len(),
            out@ == v@.subrange(lo as int, i as int),
        decreases hi - i,
    {
        out.push(v[i]);
        proof {
            assert(out@ =~= v@.subrange(lo as int, i + 1));
        }
        i = i + 1;
    }
    out
}

/// The elementwise XOR of two sub-buckets, with the first operand's
/// trailing tuple taken verbatim where the second is shorter.
fn parity_vec(x: &Vec<Tuple>, y: &Vec<Tuple>) -> (r: Vec<Tuple>)
    requires
        y@.len() <= x@.len(),
    ensures
        r@ == parity(x@, y@),
{
    let mut out: Vec<Tuple> = Vec::new();
    let mut i: usize = 0;
    while i < x.len()
        invariant
            i <= x@.len(),
            y@.len() <= x@.len(),
            out@ == parity(x@, y@).take(i as int),
        decreases x@.len() - i,
    {
        if i < y.len() {
            out.push(x[i].bitxor(y[i]));
        } else {
            out.push(x[i]);
        }
        proof {
            assert(out@ =~= parity(x@, y@).take(i + 1));
        }
        i = i + 1;
    }
    proof {
        assert(parity(x@, y@).take(x@.len() as int) =~= parity(x@, y@));
    }
    out
}

/// Encodes one logical bucket into its 9 sub-buckets.
fn encode_bucket(bucket: &Vec<Tuple>) -> (r: Vec<Vec<Tuple>>)
    ensures
        r@.len() == 9,
        forall|o: int| 0 <= o < 9 ==> (#[trigger] r@[o])@ == encode_bucket_spec(bucket@)[o],
{
    let n = bucket.len();
    let h = n / 2 + n % 2;
    let h0 = h / 2 + h % 2;
    let nb = n - h;
    let h2 = nb / 2 + nb % 2;
    proof {
        lemma_fundamental_div_mod(n as int, 2);
        lemma_fundamental_div_mod(h as int, 2);
        lemma_fundamental_div_mod(nb as int, 2);
        assert(h == (n + 1) / 2);
        assert(h0 == (h + 1) / 2);
        assert(h2 == (nb + 1) / 2);
    }
    let q0 = subvec(bucket, 0, h0);
    let q1 = subvec(bucket, h0, h);
    let q2 = subvec(bucket, h, h + h2);
    let q3 = subvec(bucket, h + h2, n);
    proof {
        let b = bucket@;
        assert(front_half(b) =~= b.subrange(0, h as int));
        assert(back_half(b) =~= b.subrange(h as int, n as int));
        assert(quarter(b, 0) =~= b.subrange(0, h0 as int));
        assert(quarter(b, 1) =~= b.subrange(h0 as int, h as int));
        assert(quarter(b, 2) =~= b.subrange(h as int, h + h2));
        assert(quarter(b, 3) =~= b.subrange(h + h2, n as int));
    }
    let p01 = parity_vec(&q0, &q1);
    let p23 = parity_vec(&q2, &q3);
    let p02 = parity_vec(&q0, &q2);
    let p13 = parity_vec(&q1, &q3);
    let p45 = parity_vec(&p01, &p23);
    let mut out: Vec<Vec<Tuple>> = Vec::new();
    out.push(q0);
    out.push(q1);
    out.push(q2);
    out.push(q3);
    out.push(p01);
    out.push(p23);
    out.push(p02);
    out.push(p13);
    out.push(p45);
    out
}

impl PungCode {
    /// Requires `k > 4`: smaller batches are better served by a plain
    /// subcube batch code.
    pub fn new(k: usize) -> (r: PungCode)
        requires
            4 < k,
            9 * (k as int) <= usize::MAX as int,
        ensures
            r.k == k,
            !r.labels_set,
            r.wf(),
    {
        PungCode { k, labels: HashMap::new(), labels_set: false }
    }

    /// Installs the per-key placement sets.  Every recorded sub-bucket
    /// index must lie below `9k`; the code is ready to schedule
    /// afterwards.
    pub fn set_labels(&mut self, labels: HashMap<u64, Vec<usize>>)
        requires
            old(self).wf(),
            forall|key: u64|
                #[trigger] labels@.contains_key(key) ==> all_below(
                    labels@[key]@,
                    (9 * old(self).k as int) as usize,
                ),
        ensures
            final(self).wf(),
            final(self).k == old(self).k,
            final(self).labels@ == labels@,
            final(self).labels_set,
    {
        self.labels = labels;
        self.labels_set = true;
    }
}

/// The mathematical value of a list of candidate sets.
pub open spec fn sets_view(v: Seq<Vec<usize>>) -> Seq<Seq<usize>> {
    v.map_values(|x: Vec<usize>| x@)
}

/// The four candidate retrieval sets that one labelled occurrence
/// offers.  The occurrence lies in the block starting at
/// `s = 9 * (idx / 9)`; its offset within the block decides which
/// sub-bucket groups XOR to the wanted quarter.  Occurrences at
/// offsets 4 to 8 are parities and offer nothing.
pub open spec fn pung_candidate_sets(idx: usize) -> Seq<Seq<usize>> {
    let s = 9 * (idx / 9);
    let o = idx % 9;
    if o == 0 {
        seq![
            seq![(s) as usize],
            seq![(s + 1) as usize, (s + 4) as usize],
            seq![(s + 2) as usize, (s + 6) as usize],
            seq![(s + 3) as usize, (s + 5) as usize, (s + 7) as usize, (s + 8) as usize],
        ]
    } else if o == 1 {
        seq![
            seq![(s + 1) as usize],
            seq![(s) as usize, (s + 4) as usize],
            seq![(s + 3) as usize, (s + 7) as usize],
            seq![(s + 2) as usize, (s + 5) as usize, (s + 6) as usize, (s + 8) as usize],
        ]
    } else if o == 2 {
        seq![
            seq![(s + 2) as usize],
            seq![(s + 3) as usize, (s + 5) as usize],
            seq![(s) as usize, (s + 6) as usize],
            seq![(s + 1) as usize, (s + 4) as usize, (s + 7) as usize, (s + 8) as usize],
        ]
    } else if o == 3 {
        seq![
            seq![(s + 3) as usize],
            seq![(s + 2) as usize, (s + 5) as usize],
            seq![(s + 1) as usize, (s + 7) as usize],
            seq![(s) as usize, (s + 4) as usize, (s + 6) as usize, (s + 8) as usize],
        ]
    } else {
        Seq::empty()
    }
}

/// All candidate sets of a key, over its labelled occurrences in
/// order.
pub open spec fn pung_cands_for(choices: Seq<usize>, ci: int) -> Seq<Seq<usize>>
    decreases choices.len() - ci,
{
    if ci < 0 || ci >= choices.len() {
        Seq::empty()
    } else {
        pung_candidate_sets(choices[ci]) + pung_cands_for(choices, ci + 1)
    }
}

/// The first candidate set none of whose sub-buckets is claimed.
pub open spec fn pung_pick(cands: Seq<Seq<usize>>, ci: int, acc: Seq<(u64, Seq<usize>)>) -> Option<
    Seq<usize>,
>
    decreases cands.len() - ci,
{
    if ci < 0 || ci >= cands.len() {
        None
    } else if forall|a: int| 0 <= a < cands[ci].len() ==> !spec_uses(acc, #[trigger] cands[ci][a]) {
        Some(cands[ci])
    } else {
        pung_pick(cands, ci + 1, acc)
    }
}

/// The schedule after the first `n` keys: each key's labelled
/// occurrences offer candidate sets, and the first conflict-free set
/// is claimed whole, or the whole schedule fails.
pub open spec fn pung_sched_rec(keys: Seq<u64>, n: int, labels: Map<u64, Vec<usize>>) -> Option<
    Seq<(u64, Seq<usize>)>,
>
    decreases n,
{
    if n <= 0 {
        Some(Seq::empty())
    } else {
        match pung_sched_rec(keys, n - 1, labels) {
            None => None,
            Some(acc) => {
                let cands = pung_cands_for(labels[keys[n - 1]]@, 0);
                match pung_pick(cands, 0, acc) {
                    None => None,
                    Some(set) => Some(acc.push((keys[n - 1], set))),
                }
            },
        }
    }
}

/// Once a prefix of the keys fails, the whole request fails.
proof fn lemma_pung_rec_none(keys: Seq<u64>, n: int, n2: int, labels: Map<u64, Vec<usize>>)
    requires
        pung_sched_rec(keys, n, labels) is None,
        n <= n2,
    ensures
        pung_sched_rec(keys, n2, labels) is None,
    decreases n2 - n,
{
    if n < n2 {
        lemma_pung_rec_none(keys, n, n2 - 1, labels);
    }
}

/// A copy of a candidate set.
fn copy_indices(v: &Vec<usize>) -> (r: Vec<usize>)
    ensures
        r@ == v@,
{
    let mut out: Vec<usize> = Vec::new();
    let mut i: usize = 0;
    while i < v.len()
        invariant
            i <= v@.len(),
            out@ == v@.subrange(0, i as int),
        decreases v@.len() - i,
    {
        out.push(v[i]);
        proof {
            assert(out@ =~= v@.subrange(0, i + 1));
        }
        i = i + 1;
    }
    proof {
        assert(v@.subrange(0, v@.len() as int) =~= v@);
    }
    out
}

/// Builds the candidate sets of one key from its labelled
/// occurrences.
fn build_candidates(lab: &Vec<usize>, k: usize) -> (r: Vec<Vec<usize>>)
    requires
        all_below(lab@, (9 * k as int) as usize),
        9 * k as int <= usize::MAX as int,
    ensures
        sets_view(r@) == pung_cands_for(lab@, 0),
{
    let bound = 9 * k;
    let mut cand_sets: Vec<Vec<usize>> = Vec::new();
    let mut ci: usize = 0;
    proof {
        assert(sets_view(cand_sets@) =~= Seq::<Seq<usize>>::empty());
    }
    while ci < lab.len()
        invariant
            ci <= lab@.len(),
            bound == 9 * k as int,
            all_below(lab@, (9 * k as int) as usize),
            sets_view(cand_sets@) + pung_cands_for(lab@, ci as int) == pung_cands_for(lab@, 0),
        decreases lab@.len() - ci,
    {
        let idx = lab[ci];
        let base = 9 * (idx / 9);
        let off = idx % 9;
        proof {
            lemma_fundamental_div_mod(idx as int, 9);
            assert(9 * (idx as int / 9) < 9 * k as int);
            assert(idx as int / 9 < k as int);
            assert(base as int <= 9 * k as int - 9);
        }
        let ghost before = sets_view(cand_sets@);
        let ghost these = pung_candidate_sets(idx);
        if off == 0 {
            cand_sets.push(vec![base]);
            cand_sets.push(vec![base + 1, base + 4]);
            cand_sets.push(vec![base + 2, base + 6]);
            cand_sets.push(vec![base + 3, base + 5, base + 7, base + 8]);
            proof {
                assert(sets_view(cand_sets@) =~~= before + these);
            }
        } else if off == 1 {
            cand_sets.push(vec![base + 1]);
            cand_sets.push(vec![base, base + 4]);
            cand_sets.push(vec![base + 3, base + 7]);
            cand_sets.push(vec![base + 2, base + 5, base + 6, base + 8]);
            proof {
                assert(sets_view(cand_sets@) =~~= before + these);
            }
        } else if off == 2 {
            cand_sets.push(vec![base + 2]);
            cand_sets.push(vec![base + 3, base + 5]);
            cand_sets.push(vec![base, base + 6]);
            cand_sets.push(vec![base + 1, base + 4, base + 7, base + 8]);
            proof {
                assert(sets_view(cand_sets@) =~~= before + these);
            }
        } else if off == 3 {
            cand_sets.push(vec![base + 3]);
            cand_sets.push(vec![base + 2, base + 5]);
            cand_sets.push(vec![base + 1, base + 7]);
            cand_sets.push(vec![base, base + 4, base + 6, base + 8]);
            proof {
                assert(sets_view(cand_sets@) =~~= before + these);
            }
        } else {
            proof {
                assert(sets_view(cand_sets@) =~~= before + these);
            }
        }
        proof {
            assert(pung_cands_for(lab@, ci as int) == these + pung_cands_for(lab@, ci + 1));
            assert((before + these) + pung_cands_for(lab@, ci + 1) =~= before + (these
                + pung_cands_for(lab@, ci + 1)));
        }
        ci = ci + 1;
    }
    proof {
        assert(sets_view(cand_sets@) + Seq::<Seq<usize>>::empty() =~= sets_view(cand_sets@));
    }
    cand_sets
}

/// Whether none of the set's sub-buckets is claimed yet.
fn set_unused(set: &Vec<usize>, used: &Vec<usize>, Ghost(view): Ghost<Seq<(u64, Seq<usize>)>>) -> (r:
    bool)
    requires
        forall|b: usize| #[trigger] used@.contains(b) <==> spec_uses(view, b),
    ensures
        r == (forall|a: int| 0 <= a < set@.len() ==> !spec_uses(view, #[trigger] set@[a])),
{
    let mut a: usize = 0;
    while a < set.len()
        invariant
            a <= set@.len(),
            forall|b: usize| #[trigger] used@.contains(b) <==> spec_uses(view, b),
            forall|q: int| 0 <= q < a ==> !spec_uses(view, #[trigger] set@[q]),
        decreases set@.len() - a,
    {
        if crate::pbc::hashing::contains_usize(used, set[a]) {
            return false;
        }
        a = a + 1;
    }
    true
}

/// The first conflict-free candidate set, as an owned copy.
fn pick_set(
    cand_sets: &Vec<Vec<usize>>,
    used: &Vec<usize>,
    Ghost(view): Ghost<Seq<(u64, Seq<usize>)>>,
) -> (r: Option<Vec<usize>>)
    requires
        forall|b: usize| #[trigger] used@.contains(b) <==> spec_uses(view, b),
    ensures
        match r {
            Some(set) => {
                &&& pung_pick(sets_view(cand_sets@), 0, view) == Some(set@)
                &&& forall|a: int| 0 <= a < set@.len() ==> !spec_uses(view, #[trigger] set@[a])
            },
            None => pung_pick(sets_view(cand_sets@), 0, view) is None,
        },
{
    let ghost cands = sets_view(cand_sets@);
    let mut pi: usize = 0;
    while pi < cand_sets.len()
        invariant
            pi <= cand_sets@.len(),
            cands == sets_view(cand_sets@),
            forall|b: usize| #[trigger] used@.contains(b) <==> spec_uses(view, b),
            pung_pick(cands, 0, view) == pung_pick(cands, pi as int, view),
        decreases cand_sets@.len() - pi,
    {
        if set_unused(&cand_sets[pi], used, Ghost(view)) {
            let set = copy_indices(&cand_sets[pi]);
            proof {
                assert(cands[pi as int] == set@);
                assert(pung_pick(cands, pi as int, view) == Some(set@));
            }
            return Some(set);
        }
        proof {
            assert(cands[pi as int] == cand_sets@[pi as int]@);
            assert(pung_pick(cands, pi as int, view) == pung_pick(cands, pi + 1, view));
        }
        pi = pi + 1;
    }
    None
}

/// Appends every sub-bucket of the set to the claimed list.
fn push_all(used: &mut Vec<usize>, set: &Vec<usize>)
    ensures
        forall|b: usize|
            #[trigger] final(used)@.contains(b) <==> (old(used)@.contains(b) || set@.contains(b)),
{
    let ghost used0 = used@;
    let mut a: usize = 0;
    while a < set.len()
        invariant
            a <= set@.len(),
            forall|b: usize|
                #[trigger] used@.contains(b) <==> (used0.contains(b) || set@.take(
                    a as int,
                ).contains(b)),
        decreases set@.len() - a,
    {
        let x = set[a];
        proof {
            crate::pbc::lemma_used_push(used@, x);
            assert forall|b: usize| #[trigger] set@.take(a + 1).contains(b) <==> (set@.take(
                a as int,
            ).contains(b) || b == x) by {
                if set@.take(a + 1).contains(b) {
                    let w = choose|w: int| 0 <= w < a + 1 && #[trigger] set@.take(a + 1)[w] == b;
                    if w < a {
                        assert(set@.take(a as int)[w] == b);
                    }
                }
                if set@.take(a as int).contains(b) {
                    let w = choose|w: int| 0 <= w < a && #[trigger] set@.take(a as int)[w] == b;
                    assert(set@.take(a + 1)[w] == b);
                }
                if b == x {
                    assert(set@.take(a + 1)[a as int] == b);
                }
            }
        }
        used.push(x);
        a = a + 1;
    }
    proof {
        assert(set@.take(set@.len() as int) =~= set@);
    }
}

impl BatchCode for PungCode {
    open spec fn wf(&self) -> bool {
        &&& 4 < self.k
        &&& 9 * self.k as int <= usize::MAX as int
        &&& forall|key: u64|
            #[trigger] self.labels@.contains_key(key) ==> all_below(
                self.labels@[key]@,
                (9 * self.k as int) as usize,
            )
    }

    open spec fn num_buckets(&self) -> nat {
        (9 * self.k as int) as nat
    }

    open spec fn capacity(&self) -> nat {
        self.k as nat
    }

    /// Sub-bucket `9g + o` is sub-bucket `o` of the subcube encoding
    /// of logical bucket `g`, whose contents the 2-way hash decides.
    open spec fn encode_post(&self, c: Seq<Tuple>, r: Seq<Vec<Tuple>>) -> bool {
        forall|j: int|
            0 <= j < r.len() ==> (#[trigger] r[j])@ == encode_bucket_spec(
                scatter_bucket(c, 2, self.k, (j / 9) as usize),
            )[j % 9]
    }

    /// Scheduling needs the labels, and a label for every requested
    /// key.
    open spec fn sched_req(&self, keys: Seq<u64>) -> bool {
        &&& self.labels_set
        &&& forall|i: int| 0 <= i < keys.len() ==> self.labels@.contains_key(#[trigger] keys[i])
    }

    /// The result is exactly the first-fit schedule over the labelled
    /// candidate sets.
    open spec fn sched_post(&self, keys: Seq<u64>, r: Option<Seq<(u64, Seq<usize>)>>) -> bool {
        r == pung_sched_rec(keys, keys.len() as int, self.labels@)
    }

    /// One systematic tuple, one pair, or one four-way parity group.
    open spec fn decode_arity_ok(&self, n: nat) -> bool {
        n == 1 || n == 2 || n == 4
    }

    /// The XOR of all retrieved tuples; a single systematic tuple is
    /// returned verbatim.
    open spec fn decode_spec(&self, results: Seq<Tuple>) -> Tuple {
        xor_all(results)
    }

    fn encode(&self, collection: &Vec<Tuple>) -> (r: Vec<Vec<Tuple>>) {
        let k = self.k;
        let buckets = scatter(collection, 2, k);
        let mut collections: Vec<Vec<Tuple>> = Vec::new();
        let mut g: usize = 0;
        while g < k
            invariant
                g <= k,
                k == self.k,
                4 < k,
                9 * k as int <= usize::MAX as int,
                buckets@.len() == k,
                forall|q: usize| q < k ==> (#[trigger] buckets@[q as int])@ == scatter_bucket(
                    collection@,
                    2,
                    k,
                    q,
                ),
                collections@.len() == 9 * g,
                forall|j: int|
                    0 <= j < collections@.len() ==> (#[trigger] collections@[j])@
                        == encode_bucket_spec(
                        scatter_bucket(collection@, 2, k, (j / 9) as usize),
                    )[j % 9],
            decreases k - g,
        {
            let enc = encode_bucket(&buckets[g]);
            let mut o: usize = 0;
            while o < 9
                invariant
                    o <= 9,
                    g < k,
                    k == self.k,
                    9 * k as int <= usize::MAX as int,
                    enc@.len() == 9,
                    forall|q: int|
                        0 <= q < 9 ==> (#[trigger] enc@[q])@ == encode_bucket_spec(
                            scatter_bucket(collection@, 2, k, g),
                        )[q],
                    collections@.len() == 9 * g + o,
                    forall|j: int|
                        0 <= j < collections@.len() ==> (#[trigger] collections@[j])@
                            == encode_bucket_spec(
                            scatter_bucket(collection@, 2, k, (j / 9) as usize),
                        )[j % 9],
                decreases 9 - o,
            {
                collections.push(copy_tuples(&enc[o]));
                proof {
                    let j = collections@.len() - 1;
                    lemma_fundamental_div_mod_converse(j, 9, g as int, o as int);
                }
                o = o + 1;
            }
            g = g + 1;
        }
        collections
    }

    fn get_schedule(&self, keys: &Vec<u64>) -> (r: Option<Schedule>) {
        let n = keys.len();
        let mut schedule: Schedule = Vec::new();
        let mut used: Vec<usize> = Vec::new();
        let mut i: usize = 0;
        while i < n
            invariant
                i <= n,
                n == keys@.len(),
                self.wf(),
                self.sched_req(keys@),
                pung_sched_rec(keys@, i as int, self.labels@) == Some(sched_view(schedule@)),
                forall|b: usize|
                    #[trigger] used@.contains(b) <==> spec_uses(sched_view(schedule@), b),
                spec_disjoint(sched_view(schedule@)),
                keys_match(sched_view(schedule@), keys@.subrange(0, i as int)),
            decreases n - i,
        {
            let key = keys[i];
            let lab_opt = self.labels.get(&key);
            let lab = match lab_opt {
                Some(v) => v,
                None => {
                    proof {
                        assert(self.labels@.contains_key(keys@[i as int]));
                        assert(false);
                    }
                    return None;
                },
            };
            proof {
                assert(lab@ == self.labels@[keys@[i as int]]@);
            }
            let cand_sets = build_candidates(lab, self.k);
            let ghost view = sched_view(schedule@);
            let picked = pick_set(&cand_sets, &used, Ghost(view));
            if let Some(set) = picked {
                proof {
                    lemma_sched_view_push(schedule@, (keys@[i as int], set));
                    lemma_disjoint_push(view, (keys@[i as int], set@));
                    assert(pung_sched_rec(keys@, i + 1, self.labels@) == Some(
                        view.push((keys@[i as int], set@)),
                    ));
                    assert forall|b: usize| spec_uses(view.push((keys@[i as int], set@)), b) <==> (
                    spec_uses(view, b) || set@.contains(b)) by {
                        lemma_uses_push(view, (keys@[i as int], set@), b);
                    }
                    assert(keys@.subrange(0, i + 1) =~= keys@.subrange(0, i as int).push(
                        keys@[i as int],
                    ));
                }
                push_all(&mut used, &set);
                schedule.push((key, set));
                i = i + 1;
            } else {
                proof {
                    assert(pung_sched_rec(keys@, i + 1, self.labels@) is None);
                    lemma_pung_rec_none(keys@, i + 1, keys@.len() as int, self.labels@);
                }
                return None;
            }
        }
        proof {
            assert(keys@.subrange(0, keys@.len() as int) =~= keys@);
        }
        Some(schedule)
    }

    fn decode(&self, results: &Vec<Tuple>) -> (r: Tuple) {
        let mut acc = results[0];
        let mut i: usize = 1;
        while i < results.len()
            invariant
                1 <= i <= results@.len(),
                1 <= results@.len(),
                acc == xor_all(results@.take(i as int)),
            decreases results@.len() - i,
        {
            acc = acc.bitxor(results[i]);
            proof {
                assert(results@.take(i + 1).drop_last() =~= results@.take(i as int));
                assert(results@.take(i + 1).last() == results@[i as int]);
            }
            i = i + 1;
        }
        proof {
            assert(results@.take(results@.len() as int) =~= results@);
        }
        acc
    }
}


/// The fold of two tuples is their XOR.
pub proof fn lemma_xor_all_two(a: Tuple, b: Tuple)
    ensures
        xor_all(seq![a, b]) == a.xor_spec(b),
{
    let s = seq![a, b];
    assert(s.drop_last() =~= seq![a]);
    assert(s.last() == b);
    assert(xor_all(seq![a]) == a);
    assert(xor_all(s) == xor_all(seq![a]).xor_spec(b));
}

/// The fold of four tuples parenthesizes from the left:
/// `decode([a, b, c, d])` is `((a XOR b) XOR c) XOR d`.
pub proof fn lemma_xor_all_four(a: Tuple, b: Tuple, c: Tuple, d: Tuple)
    ensures
        xor_all(seq![a, b, c, d]) == a.xor_spec(b).xor_spec(c).xor_spec(d),
{
    let s = seq![a, b, c, d];
    assert(s.drop_last() =~= seq![a, b, c]);
    assert(seq![a, b, c].drop_last() =~= seq![a, b]);
    lemma_xor_all_two(a, b);
    assert(xor_all(seq![a, b, c]) == xor_all(seq![a, b]).xor_spec(c));
    assert(xor_all(s) == xor_all(seq![a, b, c]).xor_spec(d));
}

/// XOR cancellation: combining `a` with `a XOR b` gives `b`.
proof fn lemma_xor_left(a: Tuple, b: Tuple)
    ensures
        a.xor_spec(a.xor_spec(b)) == b,
{
    let (x, y) = (a.t.0, a.t.1);
    let (v, w) = (b.t.0, b.t.1);
    assert(x ^ (x ^ v) == v) by (bit_vector);
    assert(y ^ (y ^ w) == w) by (bit_vector);
}

/// XOR cancellation: combining `b` with `a XOR b` gives `a`.
proof fn lemma_xor_right(a: Tuple, b: Tuple)
    ensures
        b.xor_spec(a.xor_spec(b)) == a,
{
    let (x, y) = (a.t.0, a.t.1);
    let (v, w) = (b.t.0, b.t.1);
    assert(v ^ (x ^ v) == x) by (bit_vector);
    assert(w ^ (y ^ w) == y) by (bit_vector);
}

/// The four-way parity group of offset 0 recombines to the first
/// quarter.
proof fn lemma_xor_group0(a: Tuple, b: Tuple, c: Tuple, d: Tuple)
    ensures
        d.xor_spec(c.xor_spec(d)).xor_spec(b.xor_spec(d)).xor_spec(
            a.xor_spec(b).xor_spec(c.xor_spec(d)),
        ) == a,
{
    let (a0, a1) = (a.t.0, a.t.1);
    let (b0, b1) = (b.t.0, b.t.1);
    let (c0, c1) = (c.t.0, c.t.1);
    let (d0, d1) = (d.t.0, d.t.1);
    assert(((d0 ^ (c0 ^ d0)) ^ (b0 ^ d0)) ^ ((a0 ^ b0) ^ (c0 ^ d0)) == a0) by (bit_vector);
    assert(((d1 ^ (c1 ^ d1)) ^ (b1 ^ d1)) ^ ((a1 ^ b1) ^ (c1 ^ d1)) == a1) by (bit_vector);
}

/// The four-way parity group of offset 1 recombines to the second
/// quarter.
proof fn lemma_xor_group1(a: Tuple, b: Tuple, c: Tuple, d: Tuple)
    ensures
        c.xor_spec(c.xor_spec(d)).xor_spec(a.xor_spec(c)).xor_spec(
            a.xor_spec(b).xor_spec(c.xor_spec(d)),
        ) == b,
{
    let (a0, a1) = (a.t.0, a.t.1);
    let (b0, b1) = (b.t.0, b.t.1);
    let (c0, c1) = (c.t.0, c.t.1);
    let (d0, d1) = (d.t.0, d.t.1);
    assert(((c0 ^ (c0 ^ d0)) ^ (a0 ^ c0)) ^ ((a0 ^ b0) ^ (c0 ^ d0)) == b0) by (bit_vector);
    assert(((c1 ^ (c1 ^ d1)) ^ (a1 ^ c1)) ^ ((a1 ^ b1) ^ (c1 ^ d1)) == b1) by (bit_vector);
}

/// The four-way parity group of offset 2 recombines to the third
/// quarter.
proof fn lemma_xor_group2(a: Tuple, b: Tuple, c: Tuple, d: Tuple)
    ensures
        b.xor_spec(a.xor_spec(b)).xor_spec(b.xor_spec(d)).xor_spec(
            a.xor_spec(b).xor_spec(c.xor_spec(d)),
        ) == c,
{
    let (a0, a1) = (a.t.0, a.t.1);
    let (b0, b1) = (b.t.0, b.t.1);
    let (c0, c1) = (c.t.0, c.t.1);
    let (d0, d1) = (d.t.0, d.t.1);
    assert(((b0 ^ (a0 ^ b0)) ^ (b0 ^ d0)) ^ ((a0 ^ b0) ^ (c0 ^ d0)) == c0) by (bit_vector);
    assert(((b1 ^ (a1 ^ b1)) ^ (b1 ^ d1)) ^ ((a1 ^ b1) ^ (c1 ^ d1)) == c1) by (bit_vector);
}

/// The four-way parity group of offset 3 recombines to the fourth
/// quarter.
proof fn lemma_xor_group3(a: Tuple, b: Tuple, c: Tuple, d: Tuple)
    ensures
        a.xor_spec(a.xor_spec(b)).xor_spec(a.xor_spec(c)).xor_spec(
            a.xor_spec(b).xor_spec(c.xor_spec(d)),
        ) == d,
{
    let (a0, a1) = (a.t.0, a.t.1);
    let (b0, b1) = (b.t.0, b.t.1);
    let (c0, c1) = (c.t.0, c.t.1);
    let (d0, d1) = (d.t.0, d.t.1);
    assert(((a0 ^ (a0 ^ b0)) ^ (a0 ^ c0)) ^ ((a0 ^ b0) ^ (c0 ^ d0)) == d0) by (bit_vector);
    assert(((a1 ^ (a1 ^ b1)) ^ (a1 ^ c1)) ^ ((a1 ^ b1) ^ (c1 ^ d1)) == d1) by (bit_vector);
}

/// The quarters shrink from front to back: each parity's second
/// operand is no longer than its first, and the last quarter is the
/// shortest of all.
proof fn lemma_quarter_lens(b: Seq<Tuple>)
    ensures
        quarter(b, 0).len() >= quarter(b, 1).len() >= quarter(b, 3).len(),
        quarter(b, 0).len() >= quarter(b, 2).len() >= quarter(b, 3).len(),
        parity(quarter(b, 0), quarter(b, 1)).len() == quarter(b, 0).len(),
        parity(quarter(b, 2), quarter(b, 3)).len() == quarter(b, 2).len(),
        parity(quarter(b, 0), quarter(b, 2)).len() == quarter(b, 0).len(),
        parity(quarter(b, 1), quarter(b, 3)).len() == quarter(b, 1).len(),
        parity(parity(quarter(b, 0), quarter(b, 1)), parity(quarter(b, 2), quarter(b, 3))).len()
            == quarter(b, 0).len(),
{
}

/// Reading one tuple per sub-bucket of a candidate retrieval set and
/// XOR-combining them, at any position short enough for every quarter,
/// reconstructs the tuple of the systematic quarter that the offset
/// names.  `o` is the occurrence's offset within its block and `gi`
/// selects one of the four candidate sets; the set's indices are
/// relative to the block base.
pub proof fn lemma_pung_group_reconstructs(b: Seq<Tuple>, o: int, gi: int, p: int)
    requires
        0 <= o < 4,
        0 <= gi < 4,
        0 <= p < quarter(b, 3).len(),
    ensures
        ({
            let enc = encode_bucket_spec(b);
            let group = pung_candidate_sets(o as usize)[gi];
            xor_all(Seq::new(group.len(), |a: int| enc[group[a] as int][p])) == quarter(b, o)[p]
        }),
{
    let enc = encode_bucket_spec(b);
    let group = pung_candidate_sets(o as usize)[gi];
    let reads = Seq::new(group.len(), |a: int| enc[group[a] as int][p]);
    let q0 = quarter(b, 0);
    let q1 = quarter(b, 1);
    let q2 = quarter(b, 2);
    let q3 = quarter(b, 3);
    lemma_quarter_lens(b);
    assert((o as usize) / 9 == 0 && (o as usize) % 9 == o) by {
        lemma_fundamental_div_mod_converse(o, 9, 0, o);
    }
    assert(enc[4][p] == q0[p].xor_spec(q1[p]));
    assert(enc[5][p] == q2[p].xor_spec(q3[p]));
    assert(enc[6][p] == q0[p].xor_spec(q2[p]));
    assert(enc[7][p] == q1[p].xor_spec(q3[p]));
    assert(enc[8][p] == q0[p].xor_spec(q1[p]).xor_spec(q2[p].xor_spec(q3[p])));
    if gi == 0 {
        assert(reads =~= seq![enc[o][p]]);
    } else if gi == 1 {
        if o == 0 {
            assert(reads =~= seq![enc[1][p], enc[4][p]]);
            lemma_xor_all_two(enc[1][p], enc[4][p]);
            lemma_xor_right(q0[p], q1[p]);
        } else if o == 1 {
            assert(reads =~= seq![enc[0][p], enc[4][p]]);
            lemma_xor_all_two(enc[0][p], enc[4][p]);
            lemma_xor_left(q0[p], q1[p]);
        } else if o == 2 {
            assert(reads =~= seq![enc[3][p], enc[5][p]]);
            lemma_xor_all_two(enc[3][p], enc[5][p]);
            lemma_xor_right(q2[p], q3[p]);
        } else {
            assert(reads =~= seq![enc[2][p], enc[5][p]]);
            lemma_xor_all_two(enc[2][p], enc[5][p]);
            lemma_xor_left(q2[p], q3[p]);
        }
    } else if gi == 2 {
        if o == 0 {
            assert(reads =~= seq![enc[2][p], enc[6][p]]);
            lemma_xor_all_two(enc[2][p], enc[6][p]);
            lemma_xor_right(q0[p], q2[p]);
        } else if o == 1 {
            assert(reads =~= seq![enc[3][p], enc[7][p]]);
            lemma_xor_all_two(enc[3][p], enc[7][p]);
            lemma_xor_right(q1[p], q3[p]);
        } else if o == 2 {
            assert(reads =~= seq![enc[0][p], enc[6][p]]);
            lemma_xor_all_two(enc[0][p], enc[6][p]);
            lemma_xor_left(q0[p], q2[p]);
        } else {
            assert(reads =~= seq![enc[1][p], enc[7][p]]);
            lemma_xor_all_two(enc[1][p], enc[7][p]);
            lemma_xor_left(q1[p], q3[p]);
        }
    } else {
        if o == 0 {
            assert(reads =~= seq![enc[3][p], enc[5][p], enc[7][p], enc[8][p]]);
            lemma_xor_all_four(enc[3][p], enc[5][p], enc[7][p], enc[8][p]);
            lemma_xor_group0(q0[p], q1[p], q2[p], q3[p]);
        } else if o == 1 {
            assert(reads =~= seq![enc[2][p], enc[5][p], enc[6][p], enc[8][p]]);
            lemma_xor_all_four(enc[2][p], enc[5][p], enc[6][p], enc[8][p]);
            lemma_xor_group1(q0[p], q1[p], q2[p], q3[p]);
        } else if o == 2 {
            assert(reads =~= seq![enc[1][p], enc[4][p], enc[7][p], enc[8][p]]);
            lemma_xor_all_four(enc[1][p], enc[4][p], enc[7][p], enc[8][p]);
            lemma_xor_group2(q0[p], q1[p], q2[p], q3[p]);
        } else {
            assert(reads =~= seq![enc[0][p], enc[4][p], enc[6][p], enc[8][p]]);
            lemma_xor_all_four(enc[0][p], enc[4][p], enc[6][p], enc[8][p]);
            lemma_xor_group3(q0[p], q1[p], q2[p], q3[p]);
        }
    }
}

/// A chosen candidate set is one of the sets the key's label offers.
proof fn lemma_pung_pick_props(cands: Seq<Seq<usize>>, ci: int, acc: Seq<(u64, Seq<usize>)>)
    ensures
        pung_pick(cands, ci, acc) matches Some(set) ==> cands.contains(set),
    decreases cands.len() - ci,
{
    if 0 <= ci && ci < cands.len() {
        let picked = pung_pick(cands, ci, acc);
        if picked == Some(cands[ci]) {
        }
        lemma_pung_pick_props(cands, ci + 1, acc);
    }
}

/// Every entry of a successful Pung schedule is one of the candidate
/// retrieval sets that the key's own label offers.
pub proof fn lemma_pung_rec_props(keys: Seq<u64>, n: int, labels: Map<u64, Vec<usize>>)
    requires
        n <= keys.len(),
    ensures
        pung_sched_rec(keys, n, labels) matches Some(s) ==> {
            &&& s.len() == if n <= 0 {
                0
            } else {
                n
            }
            &&& forall|i: int|
                0 <= i < s.len() ==> {
                    &&& (#[trigger] s[i]).0 == keys[i]
                    &&& pung_cands_for(labels[keys[i]]@, 0).contains(s[i].1)
                }
        },
    decreases n,
{
    if n > 0 {
        lemma_pung_rec_props(keys, n - 1, labels);
        let rec1 = pung_sched_rec(keys, n - 1, labels);
        if rec1 is Some {
            let acc = rec1.unwrap();
            lemma_pung_pick_props(pung_cands_for(labels[keys[n - 1]]@, 0), 0, acc);
        }
    }
}

/// The Pung code is deterministic: the contracts of `encode` and
/// `get_schedule` pin their results, so two invocations on equal
/// inputs return equal outputs.
pub proof fn lemma_pung_deterministic(
    code: &PungCode,
    c: Seq<Tuple>,
    keys: Seq<u64>,
    e1: Seq<Vec<Tuple>>,
    e2: Seq<Vec<Tuple>>,
    s1: Option<Seq<(u64, Seq<usize>)>>,
    s2: Option<Seq<(u64, Seq<usize>)>>,
)
    requires
        e1.len() == code.num_buckets() && code.encode_post(c, e1),
        e2.len() == code.num_buckets() && code.encode_post(c, e2),
        code.sched_post(keys, s1),
        code.sched_post(keys, s2),
    ensures
        e1.len() == e2.len(),
        forall|j: int| 0 <= j < e1.len() ==> (#[trigger] e1[j])@ == e2[j]@,
        s1 == s2,
{
}


/// Round trip through the encoded database: any candidate retrieval
/// set offered by an occurrence at sub-bucket `idx` (a systematic
/// offset), read at one position per claimed sub-bucket and
/// XOR-combined, yields the tuple at that position of the systematic
/// quarter the occurrence names.  Positions at the very end of an odd
/// split are served by the systematic singleton set alone.
#[verifier::rlimit(100)]
#[verifier::spinoff_prover]
pub proof fn lemma_pung_round_trip(
    code: &PungCode,
    c: Seq<Tuple>,
    e: Seq<Vec<Tuple>>,
    idx: usize,
    gi: int,
    p: int,
)
    requires
        code.wf(),
        e.len() == code.num_buckets(),
        code.encode_post(c, e),
        idx < e.len(),
        (idx as int) % 9 < 4,
        0 <= gi < 4,
        0 <= p < quarter(scatter_bucket(c, 2, code.k, ((idx as int) / 9) as usize), 3).len(),
    ensures
        ({
            let group = pung_candidate_sets(idx)[gi];
            let bucket = scatter_bucket(c, 2, code.k, ((idx as int) / 9) as usize);
            xor_all(Seq::new(group.len(), |a: int| e[group[a] as int]@[p])) == quarter(
                bucket,
                (idx as int) % 9,
            )[p]
        }),
{
    let g = (idx as int) / 9;
    let o = (idx as int) % 9;
    let s = 9 * g;
    let bucket = scatter_bucket(c, 2, code.k, g as usize);
    let enc = encode_bucket_spec(bucket);
    lemma_pung_group_reconstructs(bucket, o, gi, p);
    lemma_quarter_lens(bucket);
    let group = pung_candidate_sets(idx)[gi];
    let rel = pung_candidate_sets((o as usize))[gi];
    let reads_abs = Seq::new(group.len(), |a: int| e[group[a] as int]@[p]);
    let reads_rel = Seq::new(rel.len(), |a: int| enc[rel[a] as int][p]);
    lemma_fundamental_div_mod(idx as int, 9);
    assert(g < code.k as int);
    assert((o as usize) as int / 9 == 0 && (o as usize) as int % 9 == o) by {
        lemma_fundamental_div_mod_converse(o, 9, 0, o);
    }
    assert forall|d: int| 0 <= d < 9 implies e[s + d]@ == enc[d] by {
        lemma_fundamental_div_mod_converse(s + d, 9, g, d);
    }
    let abs_sets = pung_candidate_sets(idx);
    let rel_sets = pung_candidate_sets((o as usize));
    assert forall|g2: int, a: int|
        0 <= g2 < 4 && 0 <= a < rel_sets[g2].len() implies abs_sets[g2].len()
        == rel_sets[g2].len() && abs_sets[g2][a] == s + #[trigger] rel_sets[g2][a]
            && rel_sets[g2][a] < 9 by {
        if o == 0 {
        } else if o == 1 {
        } else if o == 2 {
        } else {
        }
    }
    assert(reads_abs =~= reads_rel);
}


/// Every member of a key's flattened candidate list is one of the
/// four sets of one of its labelled occurrences, and that occurrence
/// is systematic (offsets 4 to 8 offer no sets).  Together with
/// `lemma_pung_rec_props` and `lemma_pung_round_trip` this closes the
/// round trip: a scheduled set is a candidate set of an occurrence of
/// the key, and reading it reconstructs the occurrence's quarter.
pub proof fn lemma_pung_cands_member(choices: Seq<usize>, ci: int, set: Seq<usize>)
    requires
        pung_cands_for(choices, ci).contains(set),
    ensures
        exists|cj: int, gi: int|
            {
                &&& ci <= cj < choices.len()
                &&& 0 <= gi < 4
                &&& #[trigger] pung_candidate_sets(choices[cj])[gi] == set
                &&& (choices[cj] as int) % 9 < 4
            },
    decreases choices.len() - ci,
{
    let flat = pung_cands_for(choices, ci);
    let head = pung_candidate_sets(choices[ci]);
    let rest = pung_cands_for(choices, ci + 1);
    let w = choose|w: int| 0 <= w < flat.len() && flat[w] == set;
    if w < head.len() {
        assert(pung_candidate_sets(choices[ci])[w] == set);
        assert((choices[ci] as int) % 9 < 4);
    } else {
        assert(rest[w - head.len()] == set);
        assert(rest.contains(set));
        lemma_pung_cands_member(choices, ci + 1, set);
        let (cj, gi) = choose|cj: int, gi: int|
            {
                &&& ci + 1 <= cj < choices.len()
                &&& 0 <= gi < 4
                &&& #[trigger] pung_candidate_sets(choices[cj])[gi] == set
                &&& (choices[cj] as int) % 9 < 4
            };
        assert(ci <= cj < choices.len() && 0 <= gi < 4 && pung_candidate_sets(choices[cj])[gi]
            == set && (choices[cj] as int) % 9 < 4);
    }
}

} // verus!



