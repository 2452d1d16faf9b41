//! Reed-Solomon error correction over GF(256), through the `reed_solomon`
//! crate.
//!
//! One block is 255 bytes: 191 data bytes and 64 parity bytes (25% parity),
//! so each block corrects up to 32 byte errors.

use vstd::prelude::*;
use reed_solomon::{Decoder as RsDecoder, Encoder as RsEncoder};

verus! {

/// Data bytes per block.
pub const RS_DATA_PER_BLOCK: usize = 191;
/// Parity bytes per block (25%).
pub const RS_PARITY_PER_BLOCK: usize = 64;
/// Codeword length of one block (always 255, the GF(256) maximum).
pub const RS_BLOCK_SIZE: usize = RS_DATA_PER_BLOCK + RS_PARITY_PER_BLOCK;

#[derive(Debug, PartialEq, Eq, Structural)]
pub enum EccError {
    /// The received length is not a multiple of `RS_BLOCK_SIZE`.
    InvalidLength,
    /// A block holds more errors than RS can correct.
    DecodeFailure,
}

/// The 255-byte codeword that `reed_solomon::Encoder::new(64).encode` returns
/// for a 191-byte block.
pub uninterp spec fn spec_rs_encode(block: Seq<u8>) -> Seq<u8>;

/// The data part of what `reed_solomon::Decoder::new(64).correct(chunk, None)`
/// returns for a 255-byte chunk, or `None` when it reports too many errors.
pub uninterp spec fn spec_rs_correct(chunk: Seq<u8>) -> Option<Seq<u8>>;

/// Calls `reed_solomon::Encoder::new(64)` and its `encode` on one 191-byte
/// block. Claims what the crate's source shows: the codeword is the 191 data
/// bytes followed by 64 parity bytes (it is named `spec_rs_encode`), and, as
/// the crate's documentation shows, `Decoder::correct` gives the data back
/// from an unaltered codeword.
#[verifier::external_body]
fn rs_encode_block(block: &[u8]) -> (codeword: Vec<u8>)
    requires
        block@.len() == RS_DATA_PER_BLOCK,
    ensures
        codeword@ == spec_rs_encode(block@),
        codeword@.len() == RS_BLOCK_SIZE,
        codeword@.subrange(0, RS_DATA_PER_BLOCK as int) == block@,
        spec_rs_correct(codeword@) == Some(block@),
{
    let encoded = RsEncoder::new(RS_PARITY_PER_BLOCK).encode(block);
    encoded[..].to_vec()
}

/// Number of positions at which two equally long byte sequences differ.
pub open spec fn byte_diffs(a: Seq<u8>, b: Seq<u8>) -> nat
    decreases a.len(),
{
    if a.len() == 0 {
        0
    } else {
        byte_diffs(a.drop_last(), b.drop_last()) + if a.last() != b.last() {
            1nat
        } else {
            0nat
        }
    }
}

/// The view of an optional byte vector.
pub open spec fn opt_bytes(v: Option<Vec<u8>>) -> Option<Seq<u8>> {
    match v {
        Some(d) => Some(d@),
        None => None,
    }
}

/// `out` is block `b` whenever `chunk` differs from the codeword of the
/// 191-byte block `b` in at most 32 bytes (half the parity).
pub open spec fn corrects_nearby(chunk: Seq<u8>, out: Option<Seq<u8>>) -> bool {
    forall|b: Seq<u8>|
        b.len() == RS_DATA_PER_BLOCK && #[trigger] byte_diffs(spec_rs_encode(b), chunk)
            <= RS_PARITY_PER_BLOCK / 2 ==> out == Some(b)
}

/// Calls `reed_solomon::Decoder::new(64)` and its `correct(chunk, None)` on
/// one 255-byte chunk; on success returns the corrected data part (191
/// bytes, `Buffer::data`). The result is named `spec_rs_correct`. As the
/// crate's Berlekamp-Massey/Forney decoder does for 64 parity bytes, a chunk
/// that differs from the codeword of some 191-byte block in at most 32 bytes
/// is corrected to that block. What it returns for chunks further from every
/// codeword is not claimed beyond the name.
#[verifier::external_body]
fn rs_correct_block(chunk: &[u8]) -> (data: Option<Vec<u8>>)
    requires
        chunk@.len() == RS_BLOCK_SIZE,
    ensures
        data is Some <==> spec_rs_correct(chunk@) is Some,
        data matches Some(d) ==> spec_rs_correct(chunk@) == Some(d@) && d@.len() == RS_DATA_PER_BLOCK,
        corrects_nearby(chunk@, opt_bytes(data)),
{
    match RsDecoder::new(RS_PARITY_PER_BLOCK).correct(chunk, None) {
        Ok(buffer) => Some(buffer.data().to_vec()),
        Err(_) => None,
    }
}

/// Block `i` (191 bytes) of a data stream.
pub open spec fn data_block(data: Seq<u8>, i: int) -> Seq<u8> {
    data.subrange(191 * i, 191 * i + 191)
}

/// Chunk `i` (255 bytes) of a codeword stream.
pub open spec fn code_chunk(received: Seq<u8>, i: int) -> Seq<u8> {
    received.subrange(255 * i, 255 * i + 255)
}

/// The codewords of the first `n` data blocks, concatenated.
pub open spec fn spec_encode_blocks_upto(data: Seq<u8>, n: nat) -> Seq<u8>
    decreases n,
{
    if n == 0 {
        Seq::empty()
    } else {
        spec_encode_blocks_upto(data, (n - 1) as nat) + spec_rs_encode(
            data_block(data, n - 1),
        )
    }
}

/// The codeword stream of a data stream made of whole 191-byte blocks.
pub open spec fn spec_encode_blocks(data: Seq<u8>) -> Seq<u8> {
    spec_encode_blocks_upto(data, data.len() / 191)
}

/// The corrected data of the first `n` chunks, concatenated, or `None` if
/// any of them cannot be corrected.
pub open spec fn spec_decode_blocks_upto(received: Seq<u8>, n: nat) -> Option<Seq<u8>>
    decreases n,
{
    if n == 0 {
        Some(Seq::empty())
    } else {
        match (
            spec_decode_blocks_upto(received, (n - 1) as nat),
            spec_rs_correct(code_chunk(received, n - 1)),
        ) {
            (Some(a), Some(b)) => Some(a + b),
            _ => None,
        }
    }
}

/// `received` is the codeword stream of `data` with at most 32 corrupted
/// bytes in each 255-byte block.
pub open spec fn correctable(received: Seq<u8>, data: Seq<u8>) -> bool {
    &&& data.len() % 191 == 0
    &&& received.len() == data.len() / 191 * 255
    &&& forall|i: int|
        0 <= i < data.len() / 191 ==> #[trigger] byte_diffs(
            spec_rs_encode(data_block(data, i)),
            code_chunk(received, i),
        ) <= 32
}

/// Result of decoding a codeword stream.
pub open spec fn spec_decode_blocks(received: Seq<u8>) -> Result<Seq<u8>, EccError> {
    if received.len() % 255 != 0 {
        Err(EccError::InvalidLength)
    } else {
        match spec_decode_blocks_upto(received, received.len() / 255) {
            Some(d) => Ok(d),
            None => Err(EccError::DecodeFailure),
        }
    }
}

/// Decoding chunks that are all valid codewords gives back the data.
proof fn lemma_decode_upto_codewords(received: Seq<u8>, data: Seq<u8>, n: nat)
    requires
        received.len() >= 255 * n,
        data.len() >= 191 * n,
        forall|i: int|
            0 <= i < n ==> #[trigger] spec_rs_correct(code_chunk(received, i)) == Some(
                data_block(data, i),
            ),
    ensures
        spec_decode_blocks_upto(received, n) == Some(data.subrange(0, 191 * n as int)),
    decreases n,
{
    if n == 0 {
        assert(data.subrange(0, 0) =~= Seq::<u8>::empty());
    } else {
        lemma_decode_upto_codewords(received, data, (n - 1) as nat);
        assert(spec_rs_correct(code_chunk(received, n - 1)) == Some(data_block(data, n - 1)));
        assert(data.subrange(0, 191 * (n - 1)) + data_block(data, n - 1) =~= data.subrange(
            0,
            191 * n as int,
        ));
    }
}

/// Encodes `N * RS_DATA_PER_BLOCK` data bytes into `N * RS_BLOCK_SIZE`
/// codeword bytes, block by block. Decoding the result gives the data back.
pub fn encode_blocks(data: &[u8]) -> (out: Vec<u8>)
    requires
        data@.len() % 191 == 0,
        data@.len() / 191 * 255 <= usize::MAX,
    ensures
        out@ == spec_encode_blocks(data@),
        out@.len() == data@.len() / 191 * 255,
        forall|i: int|
            0 <= i < data@.len() / 191 ==> #[trigger] code_chunk(out@, i) == spec_rs_encode(
                data_block(data@, i),
            ),
        spec_decode_blocks(out@) == Ok::<Seq<u8>, EccError>(data@),
{
    let n_blocks = data.len() / RS_DATA_PER_BLOCK;
    let mut out: Vec<u8> = Vec::with_capacity(n_blocks * RS_BLOCK_SIZE);
    let mut i: usize = 0;
    while i < n_blocks
        invariant
            n_blocks == data@.len() / 191,
            data@.len() == 191 * n_blocks,
            n_blocks * 255 <= usize::MAX,
            i <= n_blocks,
            out@ == spec_encode_blocks_upto(data@, i as nat),
            out@.len() == 255 * i,
            forall|j: int|
                0 <= j < i ==> #[trigger] spec_rs_correct(code_chunk(out@, j)) == Some(
                    data_block(data@, j),
                ),
            forall|j: int|
                0 <= j < i ==> #[trigger] code_chunk(out@, j) == spec_rs_encode(data_block(data@, j)),
        decreases n_blocks - i,
    {
        let start = i * RS_DATA_PER_BLOCK;
        let block = &data[start..start + RS_DATA_PER_BLOCK];
        let codeword = rs_encode_block(block);
        let ghost prev = out@;
        out.extend_from_slice(codeword.as_slice());
        proof {
            assert(out@ =~= prev + codeword@);
            assert(block@ == data_block(data@, i as int));
            assert forall|j: int| 0 <= j < i + 1 implies #[trigger] spec_rs_correct(
                code_chunk(out@, j),
            ) == Some(data_block(data@, j)) by {
                if j < i {
                    assert(code_chunk(out@, j) =~= code_chunk(prev, j));
                } else {
                    assert(code_chunk(out@, j) =~= codeword@);
                }
            }
            assert forall|j: int| 0 <= j < i + 1 implies #[trigger] code_chunk(out@, j)
                == spec_rs_encode(data_block(data@, j)) by {
                if j < i {
                    assert(code_chunk(out@, j) =~= code_chunk(prev, j));
                } else {
                    assert(code_chunk(out@, j) =~= codeword@);
                }
            }
        }
        i += 1;
    }
    proof {
        lemma_decode_upto_codewords(out@, data@, n_blocks as nat);
        assert(data@.subrange(0, 191 * n_blocks) =~= data@);
        assert(out@.len() / 255 == n_blocks);
    }
    out
}

/// Decodes `N * RS_BLOCK_SIZE` codeword bytes into `N * RS_DATA_PER_BLOCK`
/// data bytes. Fails with `InvalidLength` when the length is not a multiple
/// of `RS_BLOCK_SIZE`, and with `DecodeFailure` when some block cannot be
/// corrected. Every block with at most 32 corrupted bytes is corrected.
pub fn decode_blocks(received: &[u8]) -> (res: Result<Vec<u8>, EccError>)
    ensures
        match (res, spec_decode_blocks(received@)) {
            (Ok(v), Ok(d)) => v@ == d,
            (Err(e), Err(f)) => e == f,
            _ => false,
        },
        res matches Ok(v) ==> v@.len() == received@.len() / 255 * 191,
        forall|data: Seq<u8>|
            #[trigger] correctable(received@, data) ==> (res matches Ok(v) && v@ == data),
{
    if received.len() % RS_BLOCK_SIZE != 0 {
        return Err(EccError::InvalidLength);
    }
    let n_blocks = received.len() / RS_BLOCK_SIZE;
    let mut out: Vec<u8> = Vec::with_capacity(n_blocks * RS_DATA_PER_BLOCK);
    let mut i: usize = 0;
    while i < n_blocks
        invariant
            n_blocks == received@.len() / 255,
            received@.len() == 255 * n_blocks,
            received@.len() <= usize::MAX,
            i <= n_blocks,
            spec_decode_blocks_upto(received@, i as nat) == Some(out@),
            out@.len() == 191 * i,
            forall|data: Seq<u8>|
                #[trigger] correctable(received@, data) ==> out@ == data.subrange(0, 191 * i as int),
        decreases n_blocks - i,
    {
        let start = i * RS_BLOCK_SIZE;
        let chunk = &received[start..start + RS_BLOCK_SIZE];
        assert(chunk@ == code_chunk(received@, i as int));
        let ghost prev = out@;
        match rs_correct_block(chunk) {
            Some(recovered) => {
                out.extend_from_slice(recovered.as_slice());
                assert(out@ =~= spec_decode_blocks_upto(received@, i as nat).unwrap()
                    + recovered@);
                proof {
                    assert forall|data: Seq<u8>| #[trigger] correctable(received@, data) implies out@
                        == data.subrange(0, 191 * (i + 1) as int) by {
                        let b = data_block(data, i as int);
                        assert(byte_diffs(spec_rs_encode(b), chunk@) <= 32);
                        assert(recovered@ == b);
                        assert(data.subrange(0, 191 * i as int) + b =~= data.subrange(
                            0,
                            191 * (i + 1) as int,
                        ));
                    }
                }
            },
            None => {
                proof {
                    lemma_decode_none_propagates(received@, (i + 1) as nat, n_blocks as nat);
                    assert forall|data: Seq<u8>| !#[trigger] correctable(received@, data) by {
                        if correctable(received@, data) {
                            let b = data_block(data, i as int);
                            assert(byte_diffs(spec_rs_encode(b), chunk@) <= 32);
                        }
                    }
                }
                return Err(EccError::DecodeFailure);
            },
        }
        i += 1;
    }
    proof {
        assert forall|data: Seq<u8>| #[trigger] correctable(received@, data) implies out@ == data by {
            assert(data.subrange(0, data.len() as int) =~= data);
        }
    }
    Ok(out)
}

/// Once a prefix of chunks fails to decode, every longer prefix fails too.
proof fn lemma_decode_none_propagates(received: Seq<u8>, m: nat, n: nat)
    requires
        m <= n,
        spec_decode_blocks_upto(received, m) is None,
    ensures
        spec_decode_blocks_upto(received, n) is None,
    decreases n - m,
{
    if m < n {
        lemma_decode_none_propagates(received, m, (n - 1) as nat);
    }
}

} // verus!
