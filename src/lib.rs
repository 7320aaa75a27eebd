//! Compression of permutations of `0..n` into a compact byte stream.
use vstd::prelude::*;
use codec::{decode, decode_range, decode_stream, decode_stream_range, encode, encodes, header_len};
use lehmer::{
    is_lehmer_code, is_permutation, lehmer_code, lemma_lehmer_code_bounds,
    lemma_perm_lehmer_round_trip, permutation_of,
};
use lr_array::MAX_BITS;

pub mod codec;
pub mod lehmer;
pub mod lr_array;

pub use lehmer::{lehmer_to_perm, perm_to_lehmer};
pub use lr_array::LRArray;

verus! {

/// Why an operation refused its input.
#[derive(Clone, Copy, PartialEq, Eq, Debug, Structural)]
pub enum PermError {
    /// The sequence is not a permutation, or not a Lehmer code.
    InvalidInput,
    /// The byte stream lacks its header, or a block ends early.
    MalformedStream,
    /// The requested range does not lie within the permutation.
    RangeOutOfBounds,
}

/// How a permutation is stored.
#[derive(Clone, Copy, PartialEq, Eq, Debug, Structural)]
pub enum CompressionMode {
    /// The values themselves are packed.
    Fast,
    /// The Lehmer code is packed: smaller, and slower to decode.
    Slow,
}

/// The sequence that the stream of `p` packs in `mode`.
pub open spec fn packed_values(mode: CompressionMode, p: Seq<u32>) -> Seq<u32> {
    match mode {
        CompressionMode::Fast => p,
        CompressionMode::Slow => lehmer_code(p),
    }
}

/// What decompressing `bytes` in `mode` gives.
pub open spec fn decompressed(mode: CompressionMode, bytes: Seq<u8>) -> Result<Seq<u32>, PermError> {
    match decode_stream(bytes) {
        None => Err(PermError::MalformedStream),
        Some(v) => match mode {
            CompressionMode::Fast => Ok(v),
            CompressionMode::Slow => if v.len() <= MAX_BITS && is_lehmer_code(v) {
                Ok(permutation_of(v))
            } else {
                Err(PermError::InvalidInput)
            },
        },
    }
}

/// What decompressing values `lo..hi` of `bytes` in `mode` gives.
pub open spec fn decompressed_range(mode: CompressionMode, bytes: Seq<u8>, lo: int, hi: int) -> Result<Seq<u32>, PermError> {
    match mode {
        CompressionMode::Fast => decode_stream_range(bytes, lo, hi),
        CompressionMode::Slow => if bytes.len() < 4 {
            Err(PermError::MalformedStream)
        } else if !(0 <= lo <= hi <= header_len(bytes)) {
            Err(PermError::RangeOutOfBounds)
        } else {
            match decompressed(mode, bytes) {
                Ok(v) => Ok(v.subrange(lo, hi)),
                Err(e) => Err(e),
            }
        },
    }
}

/// Compresses `perm`. In `Slow` mode the Lehmer code is packed, and the call
/// fails when `perm` is not a permutation; in `Fast` mode the values are
/// packed as they are.
pub fn compress_permutation(cmode: CompressionMode, perm: Vec<u32>) -> (r: Result<Vec<u8>, PermError>)
    requires
        perm@.len() <= u32::MAX,
        cmode == CompressionMode::Slow ==> perm@.len() <= MAX_BITS,
    ensures
        r is Ok <==> (cmode == CompressionMode::Fast || is_permutation(perm@)),
        r is Err ==> r == Err::<Vec<u8>, PermError>(PermError::InvalidInput),
        r matches Ok(bytes) ==> encodes(bytes@, packed_values(cmode, perm@)),
{
    let mut perm = perm;
    if cmode == CompressionMode::Slow {
        match lehmer::perm_to_lehmer(&mut perm) {
            Ok(()) => {},
            Err(e) => {
                return Err(e);
            },
        }
    }
    Ok(encode(&perm))
}

/// Decompresses a whole stream.
pub fn decompress_permutation(cmode: CompressionMode, data: &[u8]) -> (r: Result<Vec<u32>, PermError>)
    ensures
        match r {
            Ok(v) => decompressed(cmode, data@) == Ok::<Seq<u32>, PermError>(v@),
            Err(e) => decompressed(cmode, data@) == Err::<Seq<u32>, PermError>(e),
        },
{
    let mut vals = match decode(data) {
        Ok(v) => v,
        Err(e) => {
            return Err(e);
        },
    };
    if cmode == CompressionMode::Slow {
        if vals.len() > MAX_BITS {
            return Err(PermError::InvalidInput);
        }
        match lehmer::lehmer_to_perm(&mut vals) {
            Ok(()) => {},
            Err(e) => {
                return Err(e);
            },
        }
    }
    Ok(vals)
}

/// Decompresses the values at positions `range` of a stream. In `Fast` mode
/// only the blocks are decoded and the range is cut from them; in `Slow` mode
/// the whole permutation is decoded first.
pub fn decompress_permutation_range(
    cmode: CompressionMode,
    data: &[u8],
    range: std::ops::Range<usize>,
) -> (r: Result<Vec<u32>, PermError>)
    ensures
        match r {
            Ok(v) => decompressed_range(cmode, data@, range.start as int, range.end as int)
                == Ok::<Seq<u32>, PermError>(v@),
            Err(e) => decompressed_range(cmode, data@, range.start as int, range.end as int)
                == Err::<Seq<u32>, PermError>(e),
        },
{
    let lo = range.start;
    let hi = range.end;
    if cmode == CompressionMode::Fast {
        return decode_range(data, lo, hi);
    }
    if data.len() < 4 {
        return Err(PermError::MalformedStream);
    }
    let n = codec::read_header(data);
    if !(lo <= hi && hi <= n) {
        return Err(PermError::RangeOutOfBounds);
    }
    let perm = match decompress_permutation(cmode, data) {
        Ok(v) => v,
        Err(e) => {
            return Err(e);
        },
    };
    let mut out: Vec<u32> = Vec::with_capacity(hi - lo);
    let mut i: usize = lo;
    while i < hi
        invariant
            lo <= i <= hi,
            hi <= perm@.len(),
            out@ == perm@.subrange(lo as int, i as int),
        decreases hi - i,
    {
        out.push(perm[i]);
        proof {
            assert(perm@.subrange(lo as int, i + 1) =~= perm@.subrange(lo as int, i as int).push(perm@[i as int]));
        }
        i = i + 1;
    }
    Ok(out)
}

/// Decompressing what compressing a permutation gave returns the
/// permutation, in either mode.
pub proof fn lemma_compress_round_trip(mode: CompressionMode, p: Seq<u32>, bytes: Seq<u8>)
    requires
        is_permutation(p),
        p.len() <= u32::MAX,
        mode == CompressionMode::Slow ==> p.len() <= MAX_BITS,
        encodes(bytes, packed_values(mode, p)),
    ensures
        decompressed(mode, bytes) == Ok::<Seq<u32>, PermError>(p),
{
    if mode == CompressionMode::Slow {
        lemma_lehmer_code_bounds(p);
        lemma_perm_lehmer_round_trip(p);
    }
}

/// In `Fast` mode, decompressing the values `a..b` of what compressing a
/// permutation gave returns that slice of the permutation.
pub proof fn lemma_compress_range_round_trip(p: Seq<u32>, bytes: Seq<u8>, a: int, b: int)
    requires
        is_permutation(p),
        encodes(bytes, p),
        0 <= a <= b <= p.len(),
    ensures
        decompressed_range(CompressionMode::Fast, bytes, a, b) == Ok::<Seq<u32>, PermError>(p.subrange(a, b)),
{
}

} // verus!
