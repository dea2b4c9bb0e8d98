//! Chunk compression: pure compress/decompress functions.
//!
//! The library ships one real codec, a byte run-length encoding, and the
//! degenerate plain codec that stores bytes unchanged. [`decode`] gives the
//! exact meaning of decompression for both, so the cache read path can state
//! what it writes into caller buffers.

use vstd::prelude::*;

verus! {

/// Data compression algorithms offered by the library.
#[derive(Clone, Copy, Debug, PartialEq, Eq, Structural)]
pub enum Algorithm {
    /// Bytes are stored unchanged.
    Plain,
    /// Byte run-length encoding: pairs of a run length (1..=255) and a byte.
    Rle,
}

/// Meaning of a run-length encoded stream: `None` when the stream is
/// malformed (odd length or a zero run length), else the expanded bytes.
pub open spec fn rle_decode(raw: Seq<u8>) -> Option<Seq<u8>>
    decreases raw.len(),
{
    if raw.len() == 0 {
        Some(Seq::empty())
    } else if raw.len() == 1 || raw[0] == 0 {
        None
    } else {
        match rle_decode(raw.skip(2)) {
            Option::None => Option::None,
            Option::Some(rest) => Option::Some(Seq::new(raw[0] as nat, |i: int| raw[1]) + rest),
        }
    }
}

/// What decompressing `raw` under `alg` yields; `None` when the codec
/// rejects the input.
pub open spec fn decode(alg: Algorithm, raw: Seq<u8>) -> Option<Seq<u8>> {
    match alg {
        Algorithm::Plain => Some(raw),
        Algorithm::Rle => rle_decode(raw),
    }
}

/// Decompress `raw` under `alg`.
///
/// Returns the decompressed bytes exactly when the codec accepts the input,
/// and `Decompression` otherwise.
pub fn decompress(alg: Algorithm, raw: &Vec<u8>) -> (r: Result<Vec<u8>, crate::StorageError>)
    ensures
        match decode(alg, raw@) {
            Option::Some(d) => r is Ok && r->Ok_0@ == d,
            Option::None => r == Result::<Vec<u8>, crate::StorageError>::Err(
                crate::StorageError::Decompression,
            ),
        },
{
    match alg {
        Algorithm::Plain => Ok(raw.clone()),
        Algorithm::Rle => rle_expand(raw),
    }
}

/// Expand a run-length encoded stream.
fn rle_expand(raw: &Vec<u8>) -> (r: Result<Vec<u8>, crate::StorageError>)
    ensures
        match rle_decode(raw@) {
            Option::Some(d) => r is Ok && r->Ok_0@ == d,
            Option::None => r == Result::<Vec<u8>, crate::StorageError>::Err(
                crate::StorageError::Decompression,
            ),
        },
{
    let n: usize = raw.len();
    let mut out: Vec<u8> = Vec::new();
    let mut i: usize = 0;
    proof {
        assert(raw@.skip(0) =~= raw@);
        assert(forall|rest: Seq<u8>| Seq::<u8>::empty() + rest =~= rest);
    }
    while i < n
        invariant
            n == raw@.len(),
            0 <= i <= n,
            i % 2 == 0,
            rle_decode(raw@) == match rle_decode(raw@.skip(i as int)) {
                Option::None => Option::None::<Seq<u8>>,
                Option::Some(rest) => Option::Some(out@ + rest),
            },
        decreases n - i,
    {
        let count = raw[i];
        if i + 1 == n || count == 0 {
            assert(rle_decode(raw@.skip(i as int)) is None);
            return Err(crate::StorageError::Decompression);
        }
        let byte = raw[i + 1];
        let ghost prev_out = out@;
        let mut k: usize = 0;
        while k < count as usize
            invariant
                out@ =~= prev_out + Seq::new(k as nat, |j: int| byte),
                k <= count,
            decreases count - k,
        {
            out.push(byte);
            assert(out@ =~= prev_out + Seq::new((k + 1) as nat, |j: int| byte));
            k += 1;
        }
        proof {
            let s = raw@.skip(i as int);
            assert(s.len() >= 2);
            assert(s[0] == count && s[1] == byte);
            assert(s.skip(2) =~= raw@.skip(i + 2));
            assert(rle_decode(s) == match rle_decode(raw@.skip(i + 2)) {
                Option::None => Option::None::<Seq<u8>>,
                Option::Some(rest) => Option::Some(Seq::new(count as nat, |j: int| byte) + rest),
            });
            assert(forall|rest: Seq<u8>|
                prev_out + (Seq::new(count as nat, |j: int| byte) + rest) =~= out@ + rest);
        }
        i += 2;
    }
    proof {
        assert(raw@.skip(n as int) =~= Seq::<u8>::empty());
        assert(rle_decode(raw@) == Some(out@ + Seq::<u8>::empty()));
        assert(out@ + Seq::<u8>::empty() =~= out@);
    }
    Ok(out)
}

/// Decoding distributes over concatenation of two well-formed streams.
proof fn lemma_rle_decode_concat(s1: Seq<u8>, s2: Seq<u8>)
    requires
        rle_decode(s1) is Some,
        rle_decode(s2) is Some,
    ensures
        rle_decode(s1 + s2) == Some(rle_decode(s1)->Some_0 + rle_decode(s2)->Some_0),
    decreases s1.len(),
{
    if s1.len() == 0 {
        assert(s1 + s2 =~= s2);
        assert(rle_decode(s1)->Some_0 + rle_decode(s2)->Some_0 =~= rle_decode(s2)->Some_0);
    } else {
        assert(s1.len() >= 2 && s1[0] != 0);
        lemma_rle_decode_concat(s1.skip(2), s2);
        let t = s1 + s2;
        assert(t.len() >= 2 && t[0] == s1[0] && t[1] == s1[1]);
        assert(t.skip(2) =~= s1.skip(2) + s2);
        let run = Seq::new(s1[0] as nat, |i: int| s1[1]);
        assert(rle_decode(t) == Some(run + (rle_decode(s1.skip(2))->Some_0 + rle_decode(s2)->Some_0)));
        assert(run + (rle_decode(s1.skip(2))->Some_0 + rle_decode(s2)->Some_0) =~= (run
            + rle_decode(s1.skip(2))->Some_0) + rle_decode(s2)->Some_0);
    }
}

/// Compress `data` under `alg`.
///
/// The result always decodes back to `data`: compression never loses bytes.
pub fn compress(alg: Algorithm, data: &Vec<u8>) -> (r: Vec<u8>)
    ensures
        decode(alg, r@) == Some(data@),
{
    match alg {
        Algorithm::Plain => data.clone(),
        Algorithm::Rle => rle_pack(data),
    }
}

/// Pack bytes into run-length pairs, capping each run at 255.
fn rle_pack(data: &Vec<u8>) -> (r: Vec<u8>)
    ensures
        rle_decode(r@) == Some(data@),
{
    let n: usize = data.len();
    let mut out: Vec<u8> = Vec::new();
    let mut i: usize = 0;
    while i < n
        invariant
            n == data@.len(),
            0 <= i <= n,
            rle_decode(out@) == Some(data@.take(i as int)),
        decreases n - i,
    {
        let byte = data[i];
        let mut run: u8 = 1;
        let start = i;
        i += 1;
        while i < n && run < 255 && data[i] == byte
            invariant
                n == data@.len(),
                start < i <= n,
                1 <= run <= 255,
                run == i - start,
                forall|k: int| start <= k < i ==> data@[k] == byte,
            decreases n - i,
        {
            run += 1;
            i += 1;
        }
        let ghost prev = out@;
        out.push(run);
        out.push(byte);
        proof {
            let pair = seq![run, byte];
            assert(rle_decode(pair.skip(2)) == Some(Seq::<u8>::empty())) by {
                assert(pair.skip(2) =~= Seq::<u8>::empty());
            }
            let runseq = Seq::new(run as nat, |j: int| byte);
            assert(rle_decode(pair) == Some(runseq + Seq::<u8>::empty()));
            lemma_rle_decode_concat(prev, pair);
            assert(out@ =~= prev + pair);
            assert(data@.take(start as int) + (runseq + Seq::<u8>::empty()) =~= data@.take(
                i as int,
            ));
        }
    }
    assert(data@.take(n as int) =~= data@);
    out
}

} // verus!
