//! Tile payload codec: content classification, lossless compression with a
//! deterministic raw fallback, and the receiver-side decoder that dispatches
//! strictly on the scheme tag.

use crate::protocol::CompressionType;
use crate::protocol::TileData;
use crate::raw_tile_bytes;
use crate::raw_tile_len;
use vstd::prelude::*;
use vstd::slice::slice_to_vec;

verus! {

/// Bytes that lz4 block compression (size-prepended) produces for the given
/// input: a fixed function of the input bytes alone.
pub uninterp spec fn lz4_of(s: Seq<u8>) -> Seq<u8>;

/// Bytes that lz4 size-prepended decompression recovers from its input:
/// `Some` exactly on the inputs it accepts.
pub uninterp spec fn unlz4_of(s: Seq<u8>) -> Option<Seq<u8>>;

/// Relies on lz4_flex::compress_prepend_size: the output is a function of
/// the input bytes alone, and lz4_flex::decompress_size_prepended recovers
/// exactly the input from it (documented as a matched pair). The length
/// bound keeps the prepended little-endian u32 size honest.
#[verifier::external_body]
fn lz4_compress(input: &Vec<u8>) -> (r: Vec<u8>)
    requires
        input@.len() <= u32::MAX,
    ensures
        r@ == lz4_of(input@),
        unlz4_of(r@) == Some(input@),
{
    lz4_flex::compress_prepend_size(input.as_slice())
}

/// Relies on lz4_flex::decompress_size_prepended: a function of the input
/// bytes alone; malformed input is reported as an error, never a panic.
#[verifier::external_body]
fn lz4_decompress(input: &Vec<u8>) -> (r: Option<Vec<u8>>)
    ensures
        match r {
            Some(v) => unlz4_of(input@) == Some(v@),
            None => unlz4_of(input@) is None,
        },
{
    lz4_flex::decompress_size_prepended(input.as_slice()).ok()
}

/// The placeholder payload blitted for tile data that cannot be decoded.
pub open spec fn zero_fill() -> Seq<u8> {
    Seq::new(raw_tile_len() as nat, |i: int| 0u8)
}

fn zero_vec() -> (r: Vec<u8>)
    ensures
        r@ == zero_fill(),
{
    let n = raw_tile_bytes();
    let mut out: Vec<u8> = Vec::new();
    let mut j: usize = 0;
    while j < n
        invariant
            j <= n,
            out@.len() == j,
            forall|m: int| 0 <= m < j ==> out@[m] == 0u8,
        decreases n - j,
    {
        out.push(0u8);
        j = j + 1;
    }
    proof {
        assert(out@ =~= zero_fill());
    }
    out
}

/// Decoded payload of a tile under its scheme tag: raw bytes as they are,
/// lz4 blocks decompressed; data that does not decode, and the lossy
/// scheme (whose concrete codec is an external capability), yield the
/// placeholder fill.
pub open spec fn decode_tile_spec(c: CompressionType, data: Seq<u8>) -> Seq<u8> {
    match c {
        CompressionType::Raw => data,
        CompressionType::Lz4 => match unlz4_of(data) {
            Some(s) => s,
            None => zero_fill(),
        },
        CompressionType::Jpeg => zero_fill(),
    }
}

/// Decodes one tile's payload, dispatching strictly on the scheme tag.
pub fn decompress_tile(tile: &TileData) -> (r: Vec<u8>)
    ensures
        r@ == decode_tile_spec(tile.compression, tile.data@),
{
    match tile.compression {
        CompressionType::Raw => slice_to_vec(tile.data.as_slice()),
        CompressionType::Lz4 => match lz4_decompress(&tile.data) {
            Some(v) => v,
            None => zero_vec(),
        },
        CompressionType::Jpeg => zero_vec(),
    }
}

/// Whether the 4 channel bytes of pixel `q` and pixel `q + 1` differ.
pub open spec fn pixel_differs(data: Seq<u8>, q: int) -> bool {
    exists|c: int| 0 <= c < 4 && #[trigger] data[4 * q + c] != data[4 * (q + 1) + c]
}

/// How many of the first `m` adjacent pixel pairs differ.
pub open spec fn diff_count(data: Seq<u8>, m: int) -> int
    decreases m,
{
    if m <= 0 {
        0
    } else {
        diff_count(data, m - 1) + if pixel_differs(data, m - 1) {
            1int
        } else {
            0int
        }
    }
}

/// Content classifier: a payload reads as photographic (high-frequency)
/// when more than half of its adjacent pixel pairs differ; synthetic,
/// text-like content repeats pixels and stays below that.
pub open spec fn tile_is_complex(data: Seq<u8>) -> bool {
    let pairs = if data.len() as int / 4 - 1 > 0 {
        data.len() as int / 4 - 1
    } else {
        0
    };
    2 * diff_count(data, pairs) > pairs
}

fn pixels_differ(data: &Vec<u8>, q: usize) -> (r: bool)
    requires
        4 * q + 8 <= data@.len(),
    ensures
        r == pixel_differs(data@, q as int),
{
    let n: usize = data.len();
    let base = 4 * q;
    let r = data[base] != data[base + 4] || data[base + 1] != data[base + 5] || data[base + 2]
        != data[base + 6] || data[base + 3] != data[base + 7];
    proof {
        if r {
            assert(pixel_differs(data@, q as int)) by {
                if data@[4 * q as int] != data@[4 * q as int + 4] {
                    assert(data@[4 * (q as int) + 0] != data@[4 * (q as int + 1) + 0]);
                } else if data@[4 * q as int + 1] != data@[4 * q as int + 5] {
                    assert(data@[4 * (q as int) + 1] != data@[4 * (q as int + 1) + 1]);
                } else if data@[4 * q as int + 2] != data@[4 * q as int + 6] {
                    assert(data@[4 * (q as int) + 2] != data@[4 * (q as int + 1) + 2]);
                } else {
                    assert(data@[4 * (q as int) + 3] != data@[4 * (q as int + 1) + 3]);
                }
            }
        } else {
            assert forall|c: int| 0 <= c < 4 implies #[trigger] data@[4 * (q as int) + c]
                == data@[4 * (q as int + 1) + c] by {
                assert(data@[4 * q as int + c] == data@[4 * q as int + 4 + c]);
            }
        }
    }
    r
}

/// Classifies one tile payload; `true` means photographic, lossy-friendly
/// content, `false` means synthetic content that compresses losslessly.
pub fn check_tile_complexity(data: &Vec<u8>) -> (r: bool)
    ensures
        r == tile_is_complex(data@),
{
    let pixels = data.len() / 4;
    if pixels < 1 {
        return false;
    }
    let pairs = pixels - 1;
    let mut count: usize = 0;
    let mut q: usize = 0;
    while q < pairs
        invariant
            q <= pairs,
            pairs == data@.len() as int / 4 - 1,
            4 * (pairs + 1) <= data@.len() + 3,
            count <= q,
            count == diff_count(data@, q as int),
        decreases pairs - q,
    {
        proof {
            assert(4 * (q as int) + 8 <= data@.len()) by {
                assert(q as int + 2 <= pairs as int + 1);
                assert(4 * (q as int + 2) <= 4 * (pairs as int + 1));
            }
        }
        if pixels_differ(data, q) {
            count = count + 1;
        }
        q = q + 1;
    }
    2 * count > pairs
}

/// What the lossless encoding of `raw` is, scheme choice included: the
/// entropy-coded form exactly when it shrinks the payload, the raw bytes
/// only as the expansion fallback; never larger than raw, and its decode
/// reproduces `raw` exactly. Tag and bytes are both pinned, so nothing but
/// the one intended result satisfies this.
pub open spec fn lossless_encoding_of(raw: Seq<u8>, c: CompressionType, d: Seq<u8>) -> bool {
    &&& (c == CompressionType::Lz4 <==> lz4_of(raw).len() < raw.len())
    &&& (c == CompressionType::Raw <==> lz4_of(raw).len() >= raw.len())
    &&& (c == CompressionType::Raw ==> d == raw)
    &&& (c == CompressionType::Lz4 ==> d == lz4_of(raw) && unlz4_of(d) == Some(raw))
    &&& d.len() <= raw.len()
    &&& decode_tile_spec(c, d) == raw
}

/// Losslessly encodes one tile payload: lz4 exactly where it shrinks the
/// payload, raw otherwise, so the result never expands past raw size and
/// always decodes back to the original bytes.
pub fn encode_tile_lossless(raw: Vec<u8>) -> (r: (CompressionType, Vec<u8>))
    requires
        raw@.len() <= u32::MAX,
    ensures
        lossless_encoding_of(raw@, r.0, r.1@),
        r.1@.len() <= raw@.len(),
{
    let compressed = lz4_compress(&raw);
    if compressed.len() < raw.len() {
        (CompressionType::Lz4, compressed)
    } else {
        (CompressionType::Raw, raw)
    }
}

/// Law: lossless round trip. Whatever the lossless encoder emitted,
/// decoding by its scheme tag reproduces the original payload exactly.
pub proof fn lemma_lossless_round_trip(raw: Seq<u8>, c: CompressionType, d: Seq<u8>)
    requires
        lossless_encoding_of(raw, c, d),
    ensures
        decode_tile_spec(c, d) == raw,
{
}

/// Adaptive scheme choice for one tile. Photographic content takes the
/// lossy path when a lossy codec result is at hand; synthetic content, and
/// any tile whose lossy codec failed or is absent (`None`), deterministically
/// falls back to the lossless path — a tile is never dropped.
pub fn encode_tile(raw: Vec<u8>, lossy: Option<Vec<u8>>) -> (r: (CompressionType, Vec<u8>))
    requires
        raw@.len() <= u32::MAX,
    ensures
        tile_is_complex(raw@) && lossy is Some ==> r.0 == CompressionType::Jpeg && r.1@
            == lossy.unwrap()@,
        !(tile_is_complex(raw@) && lossy is Some) ==> lossless_encoding_of(raw@, r.0, r.1@)
            && r.1@.len() <= raw@.len(),
{
    if check_tile_complexity(&raw) {
        match lossy {
            Some(b) => {
                return (CompressionType::Jpeg, b);
            },
            None => {},
        }
    }
    encode_tile_lossless(raw)
}

} // verus!
