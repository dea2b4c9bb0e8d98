//! Message digests over chunk data: pure 32-byte fold digests.
//!
//! A digest folds every input byte into one lane of a 32-byte state, either
//! by exclusive or or by wrapping addition. Both algorithms are defined
//! exactly by [`digest_of`], so contracts downstream (digest validation in
//! the cache) can speak of the digest of a byte sequence directly.

use vstd::prelude::*;

verus! {

/// Message digest algorithms offered by the library.
#[derive(Clone, Copy, Debug, PartialEq, Eq, Structural)]
pub enum Algorithm {
    /// Fold each byte into its lane with exclusive or.
    XorFold,
    /// Fold each byte into its lane with wrapping addition.
    SumFold,
}

/// How one input byte changes the state byte of its lane.
pub open spec fn mix(alg: Algorithm, s: u8, b: u8) -> u8 {
    match alg {
        Algorithm::XorFold => s ^ b,
        Algorithm::SumFold => if s + b > u8::MAX {
            (s + b - 256) as u8
        } else {
            (s + b) as u8
        },
    }
}

/// State of a fold digest after consuming `data`, starting from all zeroes.
pub open spec fn digest_state(alg: Algorithm, data: Seq<u8>) -> Seq<u8>
    decreases data.len(),
{
    if data.len() == 0 {
        Seq::new(32, |i: int| 0u8)
    } else {
        let st = digest_state(alg, data.drop_last());
        st.update(((data.len() - 1) % 32) as int, mix(alg, st[(data.len() - 1) % 32], data.last()))
    }
}

/// The 32-byte digest of `data` under `alg`.
pub open spec fn digest_of(alg: Algorithm, data: Seq<u8>) -> Seq<u8> {
    digest_state(alg, data)
}

/// The state of a fold digest always stays 32 bytes wide.
pub proof fn lemma_digest_len(alg: Algorithm, data: Seq<u8>)
    ensures
        digest_of(alg, data).len() == 32,
    decreases data.len(),
{
    if data.len() > 0 {
        lemma_digest_len(alg, data.drop_last());
    }
}

/// Compute the digest of `data` under `alg`.
pub fn digest(alg: Algorithm, data: &Vec<u8>) -> (r: Vec<u8>)
    ensures
        r@ == digest_of(alg, data@),
        r@.len() == 32,
{
    let mut st: Vec<u8> = Vec::new();
    let mut z: usize = 0;
    while z < 32
        invariant
            st@ =~= Seq::new(z as nat, |i: int| 0u8),
            z <= 32,
        decreases 32 - z,
    {
        st.push(0u8);
        assert(st@ =~= Seq::new((z + 1) as nat, |i: int| 0u8));
        z += 1;
    }
    assert(st@ =~= digest_state(alg, data@.take(0)));

    let n: usize = data.len();
    let mut i: usize = 0;
    while i < n
        invariant
            n == data@.len(),
            0 <= i <= n,
            st@ == digest_state(alg, data@.take(i as int)),
            st@.len() == 32,
        decreases n - i,
    {
        proof {
            lemma_digest_len(alg, data@.take(i as int));
        }
        let lane: usize = i % 32;
        let b = data[i];
        let cur = st[lane];
        let next: u8 = match alg {
            Algorithm::XorFold => cur ^ b,
            Algorithm::SumFold => cur.wrapping_add(b),
        };
        assert(next == mix(alg, cur, b));
        st.set(lane, next);
        proof {
            let d = data@.take(i + 1);
            assert(d.drop_last() =~= data@.take(i as int));
            assert(d.last() == data@[i as int]);
            assert(st@ == digest_state(alg, d));
        }
        i += 1;
    }
    assert(data@.take(n as int) =~= data@);
    st
}

/// Check the digest of `data` against an expected 32-byte block id.
pub fn digest_check(data: &Vec<u8>, block_id: &Vec<u8>, alg: Algorithm) -> (r: bool)
    ensures
        r == (digest_of(alg, data@) == block_id@),
{
    let d = digest(alg, data);
    crate::model::bytes_eq(&d, block_id)
}

} // verus!
