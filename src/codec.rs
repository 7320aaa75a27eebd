//! The framed byte stream: a little-endian `u32` length, then blocks of
//! `BLOCK_LEN` integers, each a width byte followed by the packed payload.
use vstd::prelude::*;
use vstd::arithmetic::power2::pow2;
use bitpacking::{BitPacker, BitPacker4x};
use crate::PermError;

verus! {

/// Number of integers in one block of the four-lane bit packer.
pub const BLOCK_LEN: usize = 128;

/// Every entry of `block` is below `2^w`.
pub open spec fn fits_width(block: Seq<u32>, w: int) -> bool {
    forall|i: int| 0 <= i < block.len() ==> (block[i] as nat) < pow2(w as nat)
}

/// The block that a payload of `16 * num_bits` bytes, packed at width
/// `num_bits`, holds.
pub uninterp spec fn unpacked(payload: Seq<u8>, num_bits: u8) -> Seq<u32>;

/// Relies on `BitPacker4x::num_bits`: the bit length of the largest entry of
/// a full block.
#[verifier::external_body]
fn block_width(block: &[u32]) -> (r: u8)
    requires
        block@.len() == BLOCK_LEN,
    ensures
        r <= 32,
        fits_width(block@, r as int),
        r == 0 || !fits_width(block@, r - 1),
{
    BitPacker4x::new().num_bits(block)
}

/// Relies on `BitPacker4x::compress`: it writes `16 * num_bits` bytes at the
/// start of `out`, which `BitPacker4x::decompress` at the same width reads
/// back as `block`.
#[verifier::external_body]
fn pack_block(block: &[u32], out: &mut Vec<u8>, num_bits: u8) -> (r: usize)
    requires
        block@.len() == BLOCK_LEN,
        num_bits <= 32,
        fits_width(block@, num_bits as int),
        old(out)@.len() >= 16 * num_bits,
    ensures
        r == 16 * num_bits,
        final(out)@.len() == old(out)@.len(),
        unpacked(final(out)@.subrange(0, r as int), num_bits) == block@,
{
    BitPacker4x::new().compress(block, out, num_bits)
}

/// Relies on `BitPacker4x::decompress`: it reads the `16 * num_bits` bytes of
/// `data` from `start` on and writes the block they hold to `out`.
#[verifier::external_body]
fn unpack_block(data: &[u8], start: usize, out: &mut Vec<u32>, num_bits: u8) -> (r: usize)
    requires
        num_bits <= 32,
        start + 16 * num_bits <= data@.len(),
        old(out)@.len() == BLOCK_LEN,
    ensures
        r == 16 * num_bits,
        final(out)@.len() == BLOCK_LEN,
        final(out)@ == unpacked(data@.subrange(start as int, start + r), num_bits),
{
    BitPacker4x::new().decompress(&data[start..], out, num_bits)
}

/// The length that the first four bytes give, read little-endian.
pub open spec fn header_len(bytes: Seq<u8>) -> int {
    bytes[0] + 256 * bytes[1] + 65536 * bytes[2] + 16777216 * bytes[3]
}

/// Number of blocks that hold `n` integers.
pub open spec fn num_blocks(n: int) -> int {
    (n + BLOCK_LEN - 1) / BLOCK_LEN as int
}

/// The values of the blocks from byte `pos` to the end of `bytes`; `None`
/// when a width exceeds 32 or a payload runs past the end.
pub open spec fn blocks_from(bytes: Seq<u8>, pos: int) -> Option<Seq<u32>>
    decreases bytes.len() - pos,
{
    if pos < 0 || pos >= bytes.len() {
        if pos == bytes.len() { Some(Seq::empty()) } else { None }
    } else {
        let w = bytes[pos];
        let end = pos + 1 + 16 * w;
        if w > 32 || end > bytes.len() {
            None
        } else {
            match blocks_from(bytes, end) {
                Some(rest) => Some(unpacked(bytes.subrange(pos + 1, end), w) + rest),
                None => None,
            }
        }
    }
}

/// The sequence that a stream holds: the values of its blocks, cut to the
/// length in its header. `None` when the header is missing, a block is
/// malformed, or the blocks hold fewer values than the header gives.
pub open spec fn decode_stream(bytes: Seq<u8>) -> Option<Seq<u32>> {
    if bytes.len() < 4 {
        None
    } else {
        match blocks_from(bytes, 4) {
            Some(vals) => if vals.len() >= header_len(bytes) {
                Some(vals.take(header_len(bytes)))
            } else {
                None
            },
            None => None,
        }
    }
}

/// Each block from byte `pos` on has the smallest width that holds its values.
pub open spec fn widths_minimal(bytes: Seq<u8>, pos: int) -> bool
    decreases bytes.len() - pos,
{
    if pos < 0 || pos >= bytes.len() {
        true
    } else {
        let w = bytes[pos];
        let end = pos + 1 + 16 * w;
        if w > 32 || end > bytes.len() {
            true
        } else {
            &&& (w == 0 || !fits_width(unpacked(bytes.subrange(pos + 1, end), w), w - 1))
            &&& widths_minimal(bytes, end)
        }
    }
}

/// `bytes` is a stream of `vals`: one block for each `BLOCK_LEN` values, and
/// no more than `4 + num_blocks(n) * (1 + 4 * BLOCK_LEN)` bytes.
pub open spec fn encodes(bytes: Seq<u8>, vals: Seq<u32>) -> bool {
    &&& decode_stream(bytes) == Some(vals)
    &&& blocks_from(bytes, 4) matches Some(all) && all.len() == BLOCK_LEN * num_blocks(vals.len() as int)
    &&& widths_minimal(bytes, 4)
    &&& bytes.len() <= 4 + num_blocks(vals.len() as int) * (1 + 4 * BLOCK_LEN)
}

/// Appending one well-formed block to a stream appends its values.
proof fn lemma_blocks_append(bytes: Seq<u8>, pos: int, chunk: Seq<u8>)
    requires
        0 <= pos <= bytes.len(),
        blocks_from(bytes, pos) is Some,
        chunk.len() >= 1,
        chunk[0] <= 32,
        chunk.len() == 1 + 16 * chunk[0],
    ensures
        blocks_from(bytes + chunk, pos) == Some(
            blocks_from(bytes, pos).unwrap() + unpacked(chunk.subrange(1, chunk.len() as int), chunk[0]),
        ),
        widths_minimal(bytes, pos) && (chunk[0] == 0 || !fits_width(
            unpacked(chunk.subrange(1, chunk.len() as int), chunk[0]),
            chunk[0] - 1,
        )) ==> widths_minimal(bytes + chunk, pos),
    decreases bytes.len() - pos,
{
    let s = bytes + chunk;
    if pos == bytes.len() {
        assert(s.subrange(pos + 1, pos + chunk.len()) =~= chunk.subrange(1, chunk.len() as int));
        assert(blocks_from(s, pos + chunk.len()) == Some(Seq::<u32>::empty()));
        assert(unpacked(chunk.subrange(1, chunk.len() as int), chunk[0]) + Seq::<u32>::empty()
            =~= unpacked(chunk.subrange(1, chunk.len() as int), chunk[0]));
        assert(Seq::<u32>::empty() + unpacked(chunk.subrange(1, chunk.len() as int), chunk[0])
            =~= unpacked(chunk.subrange(1, chunk.len() as int), chunk[0]));
        assert(widths_minimal(s, pos + chunk.len()));
    } else {
        let w = bytes[pos];
        let end = pos + 1 + 16 * w;
        lemma_blocks_append(bytes, end, chunk);
        assert(s[pos] == w);
        assert(s.subrange(pos + 1, end) =~= bytes.subrange(pos + 1, end));
        let head = unpacked(bytes.subrange(pos + 1, end), w);
        let rest = blocks_from(bytes, end).unwrap();
        let tail = unpacked(chunk.subrange(1, chunk.len() as int), chunk[0]);
        assert(head + (rest + tail) =~= (head + rest) + tail);
    }
}

/// Writes `vals` as a stream: the header, then each run of `BLOCK_LEN`
/// values, the last one padded with zeros, at the smallest width that holds
/// it.
pub fn encode(vals: &Vec<u32>) -> (r: Vec<u8>)
    requires
        vals@.len() <= u32::MAX,
    ensures
        encodes(r@, vals@),
{
    let n = vals.len();
    let n32 = n as u32;
    let b0 = n32 & 0xff;
    let b1 = (n32 >> 8) & 0xff;
    let b2 = (n32 >> 16) & 0xff;
    let b3 = (n32 >> 24) & 0xff;
    proof {
        assert(b0 <= 0xff && b1 <= 0xff && b2 <= 0xff && b3 <= 0xff) by (bit_vector)
            requires b0 == n32 & 0xff, b1 == (n32 >> 8) & 0xff, b2 == (n32 >> 16) & 0xff, b3 == (n32 >> 24) & 0xff;
        assert(n32 == b0 + 256 * b1 + 65536 * b2 + 16777216 * b3) by (bit_vector)
            requires b0 == n32 & 0xff, b1 == (n32 >> 8) & 0xff, b2 == (n32 >> 16) & 0xff, b3 == (n32 >> 24) & 0xff;
    }
    let mut out: Vec<u8> = Vec::new();
    out.push(b0 as u8);
    out.push(b1 as u8);
    out.push(b2 as u8);
    out.push(b3 as u8);
    proof {
        assert(blocks_from(out@, 4) == Some(Seq::<u32>::empty()));
    }
    let ghost hdr = out@;
    let mut block: Vec<u32> = vec![0; BLOCK_LEN];
    let mut scratch: Vec<u8> = vec![0; 4 * BLOCK_LEN];
    let ghost mut all: Seq<u32> = Seq::empty();
    let mut start: usize = 0;
    let ghost mut nb: int = 0;
    while start < n
        invariant
            n == vals@.len(),
            n <= u32::MAX,
            out@.len() >= 4,
            out@.subrange(0, 4) == hdr,
            header_len(hdr) == n,
            block@.len() == BLOCK_LEN,
            scratch@.len() == 4 * BLOCK_LEN,
            0 <= nb,
            all.len() == BLOCK_LEN * nb,
            start <= n,
            start < n ==> start == all.len(),
            start == n ==> n <= all.len() < n + BLOCK_LEN,
            blocks_from(out@, 4) == Some(all),
            widths_minimal(out@, 4),
            forall|i: int| 0 <= i < all.len() && i < n ==> all[i] == vals@[i],
            out@.len() <= 4 + nb * (1 + 4 * BLOCK_LEN),
        decreases n - start,
    {
        let mut j: usize = 0;
        while j < BLOCK_LEN
            invariant
                n == vals@.len(),
                start < n,
                0 <= j <= BLOCK_LEN,
                block@.len() == BLOCK_LEN,
                forall|i: int| 0 <= i < j ==> block@[i] == if start + i < n { vals@[start + i] } else { 0u32 },
            decreases BLOCK_LEN - j,
        {
            let v = if j < n - start { vals[start + j] } else { 0 };
            block.set(j, v);
            j = j + 1;
        }
        let w = block_width(block.as_slice());
        let ghost before = out@;
        out.push(w);
        let written = pack_block(block.as_slice(), &mut scratch, w);
        let mut q: usize = 0;
        while q < written
            invariant
                written == 16 * w,
                written <= scratch@.len(),
                0 <= q <= written,
                out@ == before.push(w) + scratch@.subrange(0, q as int),
            decreases written - q,
        {
            out.push(scratch[q]);
            proof {
                assert(before.push(w) + scratch@.subrange(0, q + 1) =~= (before.push(w) + scratch@.subrange(0, q as int)).push(scratch@[q as int]));
            }
            q = q + 1;
        }
        proof {
            let chunk = seq![w] + scratch@.subrange(0, written as int);
            assert(out@ =~= before + chunk);
            assert(chunk.subrange(1, chunk.len() as int) =~= scratch@.subrange(0, written as int));
            lemma_blocks_append(before, 4, chunk);
            all = all + block@;
            nb = nb + 1;
            assert(out@.subrange(0, 4) =~= before.subrange(0, 4));
            assert(nb * (1 + 4 * BLOCK_LEN) == (nb - 1) * (1 + 4 * BLOCK_LEN) + 1 + 4 * BLOCK_LEN) by (nonlinear_arith);
        }
        start = if n - start > BLOCK_LEN { start + BLOCK_LEN } else { n };
    }
    proof {
        assert(nb == num_blocks(n as int));
        assert(all.take(n as int) =~= vals@);
        assert(out@.subrange(0, 4) =~= hdr);
        assert(header_len(out@) == header_len(hdr));
    }
    out
}

/// Reads the length in the header.
pub(crate) fn read_header(data: &[u8]) -> (r: usize)
    requires
        data@.len() >= 4,
    ensures
        r == header_len(data@),
{
    let v: u32 = data[0] as u32 + 256 * (data[1] as u32) + 65536 * (data[2] as u32) + 16777216 * (data[3] as u32);
    v as usize
}

/// One more block: the stream's values so far, then the block's.
proof fn lemma_blocks_step(bytes: Seq<u8>, pos: int, done: Seq<u32>)
    requires
        0 <= pos < bytes.len(),
        bytes[pos] <= 32,
        pos + 1 + 16 * bytes[pos] <= bytes.len(),
        blocks_from(bytes, 4) == (match blocks_from(bytes, pos) {
            Some(rest) => Some(done + rest),
            None => None::<Seq<u32>>,
        }),
    ensures
        ({
            let end = pos + 1 + 16 * bytes[pos];
            let blk = unpacked(bytes.subrange(pos + 1, end), bytes[pos]);
            blocks_from(bytes, 4) == (match blocks_from(bytes, end) {
                Some(rest) => Some((done + blk) + rest),
                None => None::<Seq<u32>>,
            })
        }),
{
    let end = pos + 1 + 16 * bytes[pos];
    let blk = unpacked(bytes.subrange(pos + 1, end), bytes[pos]);
    if let Some(rest) = blocks_from(bytes, end) {
        assert(done + (blk + rest) =~= (done + blk) + rest);
    }
}

/// Reads a whole stream. Fails when it is malformed (see `decode_stream`).
pub fn decode(data: &[u8]) -> (r: Result<Vec<u32>, PermError>)
    ensures
        match r {
            Ok(v) => decode_stream(data@) == Some(v@),
            Err(e) => decode_stream(data@) is None && e == PermError::MalformedStream,
        },
{
    if data.len() < 4 {
        return Err(PermError::MalformedStream);
    }
    let n = read_header(data);
    let mut pos: usize = 4;
    let mut result: Vec<u32> = Vec::new();
    let mut block: Vec<u32> = vec![0; BLOCK_LEN];
    proof {
        assert(result@ + blocks_from(data@, 4).unwrap() =~= blocks_from(data@, 4).unwrap());
    }
    while pos < data.len()
        invariant
            4 <= pos <= data@.len(),
            block@.len() == BLOCK_LEN,
            blocks_from(data@, 4) == (match blocks_from(data@, pos as int) {
                Some(rest) => Some(result@ + rest),
                None => None::<Seq<u32>>,
            }),
        decreases data@.len() - pos,
    {
        let w = data[pos];
        if w > 32 || 16 * (w as usize) > data.len() - pos - 1 {
            return Err(PermError::MalformedStream);
        }
        let used = unpack_block(data, pos + 1, &mut block, w);
        proof {
            lemma_blocks_step(data@, pos as int, result@);
        }
        let ghost r0 = result@;
        let mut j: usize = 0;
        while j < BLOCK_LEN
            invariant
                block@.len() == BLOCK_LEN,
                0 <= j <= BLOCK_LEN,
                result@ == r0 + block@.take(j as int),
            decreases BLOCK_LEN - j,
        {
            result.push(block[j]);
            proof {
                assert(r0 + block@.take(j + 1) =~= (r0 + block@.take(j as int)).push(block@[j as int]));
            }
            j = j + 1;
        }
        proof {
            assert(block@.take(BLOCK_LEN as int) =~= block@);
        }
        pos = pos + 1 + used;
    }
    proof {
        assert(result@ + Seq::<u32>::empty() =~= result@);
    }
    if result.len() < n {
        return Err(PermError::MalformedStream);
    }
    result.truncate(n);
    Ok(result)
}

/// Values `lo..hi` of a stream, or why they cannot be had: a missing header,
/// a range outside the header's length, or a malformed block.
pub open spec fn decode_stream_range(bytes: Seq<u8>, lo: int, hi: int) -> Result<Seq<u32>, PermError> {
    if bytes.len() < 4 {
        Err(PermError::MalformedStream)
    } else if !(0 <= lo <= hi <= header_len(bytes)) {
        Err(PermError::RangeOutOfBounds)
    } else {
        match decode_stream(bytes) {
            Some(v) => Ok(v.subrange(lo, hi)),
            None => Err(PermError::MalformedStream),
        }
    }
}

/// `x` held within `0..=BLOCK_LEN`.
pub open spec fn clamp_block(x: int) -> int {
    if x < 0 { 0 } else if x > BLOCK_LEN { BLOCK_LEN as int } else { x }
}

/// Of the values `lo..hi`, those that a block appended to `done` brings.
proof fn lemma_window_step(done: Seq<u32>, blk: Seq<u32>, lo: int, hi: int)
    requires
        0 <= lo <= hi,
        blk.len() == BLOCK_LEN,
    ensures
        ({
            let l = done.len() as int;
            let all = done + blk;
            all.subrange(
                if lo < all.len() { lo } else { all.len() as int },
                if hi < all.len() { hi } else { all.len() as int },
            ) == done.subrange(if lo < l { lo } else { l }, if hi < l { hi } else { l })
                + blk.subrange(clamp_block(lo - l), clamp_block(hi - l))
        }),
{
    let l = done.len() as int;
    let all = done + blk;
    let a = if lo < all.len() { lo } else { all.len() as int };
    let b = if hi < all.len() { hi } else { all.len() as int };
    let a0 = if lo < l { lo } else { l };
    let b0 = if hi < l { hi } else { l };
    let lhs = all.subrange(a, b);
    let rhs = done.subrange(a0, b0) + blk.subrange(clamp_block(lo - l), clamp_block(hi - l));
    assert(lhs.len() == rhs.len());
    assert forall|i: int| 0 <= i < lhs.len() implies lhs[i] == rhs[i] by {
        if i < b0 - a0 {
        } else {
        }
    }
    assert(lhs =~= rhs);
}

/// Reads values `lo..hi` of a stream, walking its blocks in order and keeping
/// only the part of each that lies in the range.
pub fn decode_range(data: &[u8], lo: usize, hi: usize) -> (r: Result<Vec<u32>, PermError>)
    ensures
        match r {
            Ok(v) => decode_stream_range(data@, lo as int, hi as int) == Ok::<Seq<u32>, PermError>(v@),
            Err(e) => decode_stream_range(data@, lo as int, hi as int) == Err::<Seq<u32>, PermError>(e),
        },
{
    if data.len() < 4 {
        return Err(PermError::MalformedStream);
    }
    let n = read_header(data);
    if !(lo <= hi && hi <= n) {
        return Err(PermError::RangeOutOfBounds);
    }
    let first = lo / BLOCK_LEN;
    let last = hi / BLOCK_LEN;
    let mut pos: usize = 4;
    let mut idx: usize = 0;
    let mut result: Vec<u32> = Vec::new();
    let mut block: Vec<u32> = vec![0; BLOCK_LEN];
    let ghost mut done: Seq<u32> = Seq::empty();
    proof {
        assert(done + blocks_from(data@, 4).unwrap() =~= blocks_from(data@, 4).unwrap());
        assert(result@ =~= done.subrange(0, 0));
    }
    while pos < data.len()
        invariant
            4 <= pos <= data@.len(),
            block@.len() == BLOCK_LEN,
            lo <= hi <= n,
            n == header_len(data@),
            first == lo / BLOCK_LEN,
            last == hi / BLOCK_LEN,
            idx <= pos,
            done.len() == BLOCK_LEN * idx,
            blocks_from(data@, 4) == (match blocks_from(data@, pos as int) {
                Some(rest) => Some(done + rest),
                None => None::<Seq<u32>>,
            }),
            result@ == done.subrange(
                if lo < done.len() { lo as int } else { done.len() as int },
                if hi < done.len() { hi as int } else { done.len() as int },
            ),
        decreases data@.len() - pos,
    {
        let w = data[pos];
        if w > 32 || 16 * (w as usize) > data.len() - pos - 1 {
            return Err(PermError::MalformedStream);
        }
        let used = unpack_block(data, pos + 1, &mut block, w);
        proof {
            lemma_blocks_step(data@, pos as int, done);
            lemma_window_step(done, block@, lo as int, hi as int);
        }
        let ghost l = done.len() as int;
        if idx >= first && idx <= last {
            let start = idx * BLOCK_LEN;
            proof {
                assert(start <= hi) by (nonlinear_arith)
                    requires start == idx * 128, idx <= last, last == hi / 128;
                assert(lo < start + 128) by (nonlinear_arith)
                    requires start == idx * 128, idx >= first, first == lo / 128;
            }
            let rel_start = if lo > start { lo - start } else { 0 };
            let rel_end = if hi - start < BLOCK_LEN { hi - start } else { BLOCK_LEN };
            let ghost r0 = result@;
            let mut j: usize = rel_start;
            while j < rel_end
                invariant
                    block@.len() == BLOCK_LEN,
                    rel_start <= j <= rel_end <= BLOCK_LEN,
                    result@ == r0 + block@.subrange(rel_start as int, j as int),
                decreases rel_end - j,
            {
                result.push(block[j]);
                proof {
                    assert(r0 + block@.subrange(rel_start as int, j + 1)
                        =~= (r0 + block@.subrange(rel_start as int, j as int)).push(block@[j as int]));
                }
                j = j + 1;
            }
        } else {
            proof {
                if idx < first {
                    assert(l + 128 <= lo) by (nonlinear_arith)
                        requires l == 128 * idx, idx < first, first == lo / 128;
                } else {
                    assert(l > hi) by (nonlinear_arith)
                        requires l == 128 * idx, idx > last, last == hi / 128;
                }
                assert(result@ + block@.subrange(clamp_block(lo - l), clamp_block(hi - l)) =~= result@);
            }
        }
        proof {
            done = done + block@;
        }
        pos = pos + 1 + used;
        idx = idx + 1;
    }
    proof {
        assert(done + Seq::<u32>::empty() =~= done);
    }
    let need = n / BLOCK_LEN + if n % BLOCK_LEN == 0 { 0 } else { 1 };
    if idx < need {
        proof {
            assert(done.len() < n) by (nonlinear_arith)
                requires done.len() == 128 * idx, idx < need, need == n / 128 + if n % 128 == 0 { 0int } else { 1int };
        }
        return Err(PermError::MalformedStream);
    }
    proof {
        assert(done.len() >= n) by (nonlinear_arith)
            requires done.len() == 128 * idx, idx >= need, need == n / 128 + if n % 128 == 0 { 0int } else { 1int };
        assert(result@ =~= done.take(n as int).subrange(lo as int, hi as int));
    }
    Ok(result)
}

} // verus!
