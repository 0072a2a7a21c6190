//! The hash-and-mod primitive shared by all hashing batch codes.
//!
//! `hash_and_mod(id, nonce, data, m)` hashes a domain-separation tag, a
//! retry nonce and the key's canonical bytes with SHA-256, reads the
//! digest as a little-endian unsigned integer, and reduces it modulo
//! `m`.  The tag and the nonce are fed in as fixed-width eight-byte
//! fields, so distinct `(id, nonce, data)` triples always hash distinct
//! byte strings.

use vstd::prelude::*;
use vstd::arithmetic::div_mod::{
    lemma_add_mod_noop, lemma_mod_bound, lemma_mul_mod_noop_right,
};

use crypto::digest::Digest;

verus! {

/// The eight bytes of `x`, least significant first: the canonical byte
/// string of a key, and also the fixed-width encoding of hash tags.
#[verifier::opaque]
pub open spec fn le8(x: u64) -> Seq<u8> {
    seq![
        (x % 0x100) as u8,
        ((x / 0x100) % 0x100) as u8,
        ((x / 0x10000) % 0x100) as u8,
        ((x / 0x1000000) % 0x100) as u8,
        ((x / 0x100000000) % 0x100) as u8,
        ((x / 0x10000000000) % 0x100) as u8,
        ((x / 0x1000000000000) % 0x100) as u8,
        ((x / 0x100000000000000) % 0x100) as u8,
    ]
}

/// A byte string read as a little-endian unsigned integer.
pub open spec fn le_nat(s: Seq<u8>) -> nat
    decreases s.len(),
{
    if s.len() == 0 {
        0
    } else {
        s[0] as nat + 256 * le_nat(s.subrange(1, s.len() as int))
    }
}

/// The SHA-256 digest of a byte string.  The digest depends on the
/// input alone; nothing else is assumed of it.
pub uninterp spec fn sha256_of(data: Seq<u8>) -> Seq<u8>;

/// The exact byte string that `hash_and_mod` hashes: fixed-width tag and
/// nonce, then the data.
pub open spec fn hash_input(id: u64, nonce: u64, data: Seq<u8>) -> Seq<u8> {
    le8(id) + le8(nonce) + data
}

/// What `hash_and_mod` returns: the digest of the tagged input, read
/// little-endian, reduced modulo `modulus`.
#[verifier::opaque]
pub open spec fn hash_mod(id: u64, nonce: u64, data: Seq<u8>, modulus: nat) -> nat
    recommends
        modulus >= 1,
{
    le_nat(sha256_of(hash_input(id, nonce, data))) % modulus
}

/// The hash-and-mod value is always below the modulus.
pub proof fn lemma_hash_mod_bound(id: u64, nonce: u64, data: Seq<u8>, modulus: nat)
    requires
        modulus >= 1,
    ensures
        hash_mod(id, nonce, data, modulus) < modulus,
{
    reveal(crate::pbc::hashing::hash_mod);
    lemma_mod_bound(le_nat(sha256_of(hash_input(id, nonce, data))) as int, modulus as int);
}

/// Two equal eight-byte encodings come from the same number.
pub proof fn lemma_le8_injective(x: u64, y: u64)
    requires
        le8(x) == le8(y),
    ensures
        x == y,
{
    reveal(crate::pbc::hashing::le8);
    assert(le8(x)[0] == le8(y)[0]);
    assert(le8(x)[1] == le8(y)[1]);
    assert(le8(x)[2] == le8(y)[2]);
    assert(le8(x)[3] == le8(y)[3]);
    assert(le8(x)[4] == le8(y)[4]);
    assert(le8(x)[5] == le8(y)[5]);
    assert(le8(x)[6] == le8(y)[6]);
    assert(le8(x)[7] == le8(y)[7]);
    assert(x == y) by (bit_vector)
        requires
            x % 0x100 == y % 0x100,
            (x / 0x100) % 0x100 == (y / 0x100) % 0x100,
            (x / 0x10000) % 0x100 == (y / 0x10000) % 0x100,
            (x / 0x1000000) % 0x100 == (y / 0x1000000) % 0x100,
            (x / 0x100000000) % 0x100 == (y / 0x100000000) % 0x100,
            (x / 0x10000000000) % 0x100 == (y / 0x10000000000) % 0x100,
            (x / 0x1000000000000) % 0x100 == (y / 0x1000000000000) % 0x100,
            (x / 0x100000000000000) % 0x100 == (y / 0x100000000000000) % 0x100,
    ;
}

/// Domain separation: hash inputs made with different tags differ,
/// whatever the nonces and the data.
pub proof fn lemma_hash_input_separated(i: u64, j: u64, n1: u64, n2: u64, d1: Seq<u8>, d2: Seq<u8>)
    requires
        i != j,
    ensures
        hash_input(i, n1, d1) != hash_input(j, n2, d2),
{
    if hash_input(i, n1, d1) == hash_input(j, n2, d2) {
        reveal(crate::pbc::hashing::le8);
        assert forall|q: int| 0 <= q < 8 implies le8(i)[q] == le8(j)[q] by {
            assert(hash_input(i, n1, d1)[q] == le8(i)[q]);
            assert(hash_input(j, n2, d2)[q] == le8(j)[q]);
        }
        assert(le8(i) =~= le8(j));
        lemma_le8_injective(i, j);
    }
}

/// Relies on `crypto::sha2::Sha256` through `crypto::digest::Digest`:
/// `input` absorbs the bytes, `result` writes the 32-byte digest, and
/// the digest is a function of the absorbed bytes alone.
#[verifier::external_body]
fn sha256(data: &Vec<u8>) -> (r: Vec<u8>)
    ensures
        r@ == sha256_of(data@),
        r@.len() == 32,
{
    let mut digest = crypto::sha2::Sha256::new();
    digest.input(data.as_slice());
    let mut out: Vec<u8> = vec![0u8; 32];
    digest.result(&mut out);
    out
}

/// Relies on `bincode::serialize`: with its default fixed-width
/// little-endian integer encoding a `u64` serializes to exactly its
/// eight bytes, least significant first, and writing eight bytes into a
/// fresh vector cannot fail.
#[verifier::external_body]
pub(crate) fn key_bytes(key: u64) -> (r: Vec<u8>)
    ensures
        r@ == le8(key),
{
    bincode::serialize(&key).unwrap()
}

/// Appends the eight little-endian bytes of `x`.
fn push_le8(out: &mut Vec<u8>, x: u64)
    ensures
        final(out)@ == old(out)@ + le8(x),
{
    out.push((x % 0x100) as u8);
    out.push(((x / 0x100) % 0x100) as u8);
    out.push(((x / 0x10000) % 0x100) as u8);
    out.push(((x / 0x1000000) % 0x100) as u8);
    out.push(((x / 0x100000000) % 0x100) as u8);
    out.push(((x / 0x10000000000) % 0x100) as u8);
    out.push(((x / 0x1000000000000) % 0x100) as u8);
    out.push(((x / 0x100000000000000) % 0x100) as u8);
    proof {
        reveal(crate::pbc::hashing::le8);
        assert(out@ =~= old(out)@ + le8(x));
    }
}

/// Reduces a little-endian byte string modulo `modulus`, by Horner
/// evaluation from the most significant byte down.
pub fn le_bytes_mod(bytes: &Vec<u8>, modulus: usize) -> (r: usize)
    requires
        1 <= modulus,
    ensures
        r as nat == le_nat(bytes@) % (modulus as nat),
        r < modulus,
{
    let m128: u128 = modulus as u128;
    let mut acc: u128 = 0;
    let mut i: usize = bytes.len();
    proof {
        assert(bytes@.subrange(i as int, bytes@.len() as int) =~= Seq::<u8>::empty());
        vstd::arithmetic::div_mod::lemma_small_mod(0, modulus as nat);
    }
    while i > 0
        invariant
            i <= bytes@.len(),
            1 <= modulus,
            m128 == modulus as u128,
            acc as nat == le_nat(bytes@.subrange(i as int, bytes@.len() as int)) % (
            modulus as nat),
            acc < m128,
        decreases i,
    {
        i = i - 1;
        let b = bytes[i];
        proof {
            let len = bytes@.len() as int;
            let tail = bytes@.subrange(i + 1, len);
            let whole = bytes@.subrange(i as int, len);
            assert(whole.subrange(1, whole.len() as int) =~= tail);
            assert(le_nat(whole) == b as nat + 256 * le_nat(tail));
            let m = modulus as int;
            let x = le_nat(tail) as int;
            lemma_mul_mod_noop_right(256, x, m);
            lemma_add_mod_noop(256 * (x % m), b as int, m);
            lemma_add_mod_noop(256 * x, b as int, m);
            lemma_mod_bound(b as int, m);
            lemma_mod_bound(256 * (x % m) + b as int, m);
            assert((256 * (x % m) + b as int) % m == (256 * x + b as int) % m);
        }
        acc = (acc * 256 + (b as u128)) % m128;
    }
    proof {
        assert(bytes@.subrange(0, bytes@.len() as int) =~= bytes@);
        assert(acc <= usize::MAX);
    }
    acc as usize
}

/// `SHA-256(tag ∥ nonce ∥ data)` read little-endian, reduced modulo
/// `modulus`.  The tag separates the hash functions of one code; the
/// nonce lets a code retry when a hash collides with an earlier choice
/// for the same key.
pub fn hash_and_mod(id: usize, nonce: usize, data: &Vec<u8>, modulus: usize) -> (r: usize)
    requires
        1 <= modulus,
    ensures
        r as nat == hash_mod(id as u64, nonce as u64, data@, modulus as nat),
        r < modulus,
{
    let mut input: Vec<u8> = Vec::new();
    push_le8(&mut input, id as u64);
    push_le8(&mut input, nonce as u64);
    let mut j: usize = 0;
    while j < data.len()
        invariant
            j <= data@.len(),
            input@ == le8(id as u64) + le8(nonce as u64) + data@.subrange(0, j as int),
        decreases data@.len() - j,
    {
        input.push(data[j]);
        proof {
            assert(input@ =~= le8(id as u64) + le8(nonce as u64) + data@.subrange(
                0,
                j + 1,
            ));
        }
        j = j + 1;
    }
    proof {
        assert(data@.subrange(0, data@.len() as int) =~= data@);
        assert(input@ =~= hash_input(id as u64, nonce as u64, data@));
        reveal(crate::pbc::hashing::hash_mod);
    }
    le_bytes_mod(&sha256(&input), modulus)
}

/// How many nonces a code tries before it falls back to the smallest
/// unused bucket.  With a collision-resistant hash the fallback is
/// never reached in practice; the bound makes every retry loop finite.
pub const NONCE_TRIES: u64 = 64;

/// All entries of `s` lie below `m`.
pub open spec fn all_below(s: Seq<usize>, m: usize) -> bool {
    forall|q: int| 0 <= q < s.len() ==> s[q] < m
}

/// The smallest bucket index in `j..m` that `taken` does not hold.
pub open spec fn fallback_choice(taken: Seq<usize>, m: usize, j: usize) -> usize
    decreases m - j,
{
    if j >= m {
        0
    } else if !taken.contains(j) {
        j
    } else {
        fallback_choice(taken, m, (j + 1) as usize)
    }
}

/// The bucket that hash function `id` assigns to `data`, avoiding the
/// buckets in `taken`: the first nonce whose hash is unused, or the
/// smallest unused bucket once `NONCE_TRIES` nonces are exhausted.
pub open spec fn fresh_choice(id: u64, data: Seq<u8>, m: usize, taken: Seq<usize>, nonce: u64) -> usize
    decreases NONCE_TRIES - nonce,
{
    let b = hash_mod(id, nonce, data, m as nat) as usize;
    if !taken.contains(b) {
        b
    } else if nonce >= NONCE_TRIES {
        fallback_choice(taken, m, 0)
    } else {
        fresh_choice(id, data, m, taken, (nonce + 1) as u64)
    }
}

/// The `d` distinct buckets that hash functions `0..d` assign to `data`.
pub open spec fn choices_spec(d: nat, data: Seq<u8>, m: usize) -> Seq<usize>
    decreases d,
{
    if d == 0 {
        Seq::empty()
    } else {
        let prev = choices_spec((d - 1) as nat, data, m);
        prev.push(fresh_choice((d - 1) as u64, data, m, prev, 0))
    }
}

/// Fewer than `m` distinct buckets cannot cover all of `0..m`.
proof fn lemma_missing_bucket_exists(taken: Seq<usize>, m: usize)
    requires
        taken.no_duplicates(),
        all_below(taken, m),
        taken.len() < m,
    ensures
        exists|b: usize| b < m && !taken.contains(b),
{
    let ints = taken.map_values(|x: usize| x as int);
    assert(ints.no_duplicates()) by {
        assert forall|p: int, q: int|
            0 <= p < ints.len() && 0 <= q < ints.len() && p != q implies ints[p] != ints[q] by {
            assert(taken[p] != taken[q]);
        }
    }
    ints.unique_seq_to_set();
    if forall|b: usize| !(b < m && !taken.contains(b)) {
        let range = vstd::set_lib::set_int_range(0, m as int);
        vstd::set_lib::lemma_int_range(0, m as int);
        assert forall|x: int| range.contains(x) implies ints.to_set().contains(x) by {
            let b = x as usize;
            assert(taken.contains(b));
            let q = choose|q: int| 0 <= q < taken.len() && taken[q] == b;
            assert(ints[q] == x);
        }
        vstd::set_lib::lemma_len_subset(range, ints.to_set());
    }
}

/// What the fallback returns is an unused bucket below `m`, given that
/// one exists at or above `j`.
proof fn lemma_fallback_choice_fresh(taken: Seq<usize>, m: usize, j: usize)
    requires
        exists|b: usize| j <= b < m && !taken.contains(b),
    ensures
        j <= fallback_choice(taken, m, j) < m,
        !taken.contains(fallback_choice(taken, m, j)),
    decreases m - j,
{
    let w = choose|b: usize| j <= b < m && !taken.contains(b);
    if taken.contains(j) {
        assert(j + 1 <= w < m && !taken.contains(w));
        lemma_fallback_choice_fresh(taken, m, (j + 1) as usize);
    }
}

/// A fresh choice is a bucket below `m` that `taken` does not hold.
proof fn lemma_fresh_choice(id: u64, data: Seq<u8>, m: usize, taken: Seq<usize>, nonce: u64)
    requires
        taken.no_duplicates(),
        all_below(taken, m),
        taken.len() < m,
    ensures
        fresh_choice(id, data, m, taken, nonce) < m,
        !taken.contains(fresh_choice(id, data, m, taken, nonce)),
    decreases NONCE_TRIES - nonce,
{
    let b = hash_mod(id, nonce, data, m as nat) as usize;
    lemma_hash_mod_bound(id, nonce, data, m as nat);
    if !taken.contains(b) {
    } else if nonce >= NONCE_TRIES {
        lemma_missing_bucket_exists(taken, m);
        lemma_fallback_choice_fresh(taken, m, 0);
    } else {
        lemma_fresh_choice(id, data, m, taken, (nonce + 1) as u64);
    }
}

/// The choice sequence holds `d` distinct buckets, all below `m`.
pub proof fn lemma_choices_spec_props(d: nat, data: Seq<u8>, m: usize)
    requires
        d <= m,
    ensures
        choices_spec(d, data, m).len() == d,
        choices_spec(d, data, m).no_duplicates(),
        all_below(choices_spec(d, data, m), m),
    decreases d,
{
    if d > 0 {
        lemma_choices_spec_props((d - 1) as nat, data, m);
        let prev = choices_spec((d - 1) as nat, data, m);
        lemma_fresh_choice((d - 1) as u64, data, m, prev, 0);
    }
}

/// Whether `v` holds `x`, by a linear scan.
pub(crate) fn contains_usize(v: &Vec<usize>, x: usize) -> (r: bool)
    ensures
        r == v@.contains(x),
{
    let mut i: usize = 0;
    while i < v.len()
        invariant
            i <= v@.len(),
            forall|q: int| 0 <= q < i ==> v@[q] != x,
        decreases v@.len() - i,
    {
        if v[i] == x {
            return true;
        }
        i = i + 1;
    }
    false
}

/// Maps `data` to `d` distinct buckets in `[0, m)`, one per hash
/// function, retrying with fresh nonces on collisions with earlier
/// choices.
pub fn bucket_choices(d: usize, data: &Vec<u8>, m: usize) -> (r: Vec<usize>)
    requires
        1 <= d,
        d <= m,
    ensures
        r@ == choices_spec(d as nat, data@, m),
        r@.len() == d,
        r@.no_duplicates(),
        all_below(r@, m),
{
    let mut chosen: Vec<usize> = Vec::new();
    let mut id: usize = 0;
    while id < d
        invariant
            id <= d,
            1 <= d <= m,
            chosen@ == choices_spec(id as nat, data@, m),
            chosen@.len() == id,
            chosen@.no_duplicates(),
            all_below(chosen@, m),
        decreases d - id,
    {
        let ghost taken = chosen@;
        let mut nonce: u64 = 0;
        let mut b = hash_and_mod(id, 0, data, m);
        while contains_usize(&chosen, b) && nonce < NONCE_TRIES
            invariant
                1 <= m,
                nonce <= NONCE_TRIES,
                chosen@ == taken,
                b as nat == hash_mod(id as u64, nonce, data@, m as nat),
                b < m,
                fresh_choice(id as u64, data@, m, taken, 0) == fresh_choice(
                    id as u64,
                    data@,
                    m,
                    taken,
                    nonce,
                ),
            decreases NONCE_TRIES - nonce,
        {
            nonce = nonce + 1;
            b = hash_and_mod(id, nonce as usize, data, m);
        }
        let fresh: usize;
        if !contains_usize(&chosen, b) {
            proof {
                assert(fresh_choice(id as u64, data@, m, taken, nonce) == b);
            }
            fresh = b;
        } else {
            proof {
                assert(fresh_choice(id as u64, data@, m, taken, nonce) == fallback_choice(
                    taken,
                    m,
                    0,
                ));
                lemma_missing_bucket_exists(taken, m);
            }
            let mut j: usize = 0;
            while contains_usize(&chosen, j)
                invariant
                    chosen@ == taken,
                    j <= m,
                    fallback_choice(taken, m, 0) == fallback_choice(taken, m, j),
                    exists|w: usize| j <= w < m && !taken.contains(w),
                decreases m - j,
            {
                proof {
                    let w = choose|w: usize| j <= w < m && !taken.contains(w);
                    assert(j + 1 <= w < m && !taken.contains(w));
                }
                j = j + 1;
            }
            proof {
                assert(fallback_choice(taken, m, j) == j);
            }
            fresh = j;
        }
        proof {
            assert(fresh == fresh_choice(id as u64, data@, m, taken, 0));
            assert(chosen@.push(fresh) == choices_spec((id + 1) as nat, data@, m));
            lemma_choices_spec_props((id + 1) as nat, data@, m);
        }
        chosen.push(fresh);
        id = id + 1;
    }
    chosen
}

} // verus!
