//! Client-side helpers for fanning a batch schedule out across
//! per-bucket PIR instances.  The PIR engine itself (query encryption,
//! server expansion, reply decoding) is an external collaborator; only
//! the plain bookkeeping that decides *what* each bucket is asked
//! lives here.

use vstd::prelude::*;

use crate::pbc::Tuple;

verus! {

/// Per-bucket descriptors for the PIR engine: element count and
/// element byte size of each encoded bucket.
pub fn bucket_sizes(db: &Vec<Vec<Tuple>>, ele_size: u32) -> (r: Vec<(u32, u32)>)
    requires
        forall|i: int| 0 <= i < db@.len() ==> (#[trigger] db@[i])@.len() <= u32::MAX,
    ensures
        r@.len() == db@.len(),
        forall|i: int|
            0 <= i < r@.len() ==> (#[trigger] r@[i]).0 == db@[i]@.len() && r@[i].1 == ele_size,
{
    let mut out: Vec<(u32, u32)> = Vec::new();
    let mut i: usize = 0;
    while i < db.len()
        invariant
            i <= db@.len(),
            out@.len() == i,
            forall|q: int| 0 <= q < db@.len() ==> (#[trigger] db@[q])@.len() <= u32::MAX,
            forall|q: int|
                0 <= q < i ==> (#[trigger] out@[q]).0 == db@[q]@.len() && out@[q].1 == ele_size,
        decreases db@.len() - i,
    {
        out.push((db[i].len() as u32, ele_size));
        i = i + 1;
    }
    out
}

/// The index vector of one batch: where the schedule assigned a
/// bucket, its real index; everywhere else a uniformly random index
/// below that bucket's element count.  Every bucket is always queried,
/// so the pattern of queries does not reveal which buckets were real.
pub fn pad_indexes(assigned: &Vec<Option<u32>>, counts: &Vec<u32>) -> (r: Vec<u32>)
    requires
        assigned@.len() == counts@.len(),
        forall|i: int| 0 <= i < counts@.len() ==> 1 <= #[trigger] counts@[i],
        forall|i: int|
            0 <= i < assigned@.len() ==> ((#[trigger] assigned@[i]) matches Some(x) ==> x
                < counts@[i]),
    ensures
        r@.len() == counts@.len(),
        forall|i: int|
            0 <= i < r@.len() ==> match assigned@[i] {
                Some(x) => #[trigger] r@[i] == x,
                None => r@[i] < counts@[i],
            },
{
    let mut out: Vec<u32> = Vec::new();
    let mut i: usize = 0;
    while i < counts.len()
        invariant
            i <= counts@.len(),
            assigned@.len() == counts@.len(),
            out@.len() == i,
            forall|q: int| 0 <= q < counts@.len() ==> 1 <= #[trigger] counts@[q],
            forall|q: int|
                0 <= q < assigned@.len() ==> ((#[trigger] assigned@[q]) matches Some(x) ==> x
                    < counts@[q]),
            forall|q: int|
                0 <= q < i ==> match assigned@[q] {
                    Some(x) => #[trigger] out@[q] == x,
                    None => out@[q] < counts@[q],
                },
        decreases counts@.len() - i,
    {
        match assigned[i] {
            Some(x) => {
                out.push(x);
            },
            None => {
                let pad = crate::pbc::random_below(counts[i] as usize);
                out.push(pad as u32);
            },
        }
        i = i + 1;
    }
    out
}

/// The position of the first tuple with the given key in one bucket:
/// how a client turns a scheduled bucket into the in-bucket index its
/// PIR query asks for.
pub fn find_key_index(bucket: &Vec<Tuple>, key: u64) -> (r: Option<usize>)
    ensures
        match r {
            Some(p) => {
                &&& p < bucket@.len()
                &&& bucket@[p as int].t.0 == key
                &&& forall|q: int| 0 <= q < p ==> (#[trigger] bucket@[q]).t.0 != key
            },
            None => forall|q: int|
                0 <= q < bucket@.len() ==> (#[trigger] bucket@[q]).t.0 != key,
        },
{
    let mut i: usize = 0;
    while i < bucket.len()
        invariant
            i <= bucket@.len(),
            forall|q: int| 0 <= q < i ==> (#[trigger] bucket@[q]).t.0 != key,
        decreases bucket@.len() - i,
    {
        if bucket[i].t.0 == key {
            return Some(i);
        }
        i = i + 1;
    }
    None
}

} // verus!
