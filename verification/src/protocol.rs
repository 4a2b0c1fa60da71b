//! Wire packet schema: the tagged union exchanged between sender and
//! receiver, its binary form, and a verified encoder and decoder.
//!
//! The binary form is self-describing: a one-byte discriminant, followed by
//! the variant's fields, integers little-endian, byte sequences preceded by
//! their length.

use vstd::arithmetic::div_mod::lemma_div_denominator;
use vstd::arithmetic::div_mod::lemma_fundamental_div_mod;
use vstd::prelude::*;
use vstd::utf8::decode_utf8;
use vstd::utf8::encode_utf8;
use vstd::utf8::encode_utf8_decode_utf8;
use vstd::utf8::encode_utf8_valid_utf8;
use vstd::utf8::valid_utf8;

verus! {

/// Compression scheme tag carried by every tile; the receiver dispatches
/// decoding strictly by this tag.
#[derive(Clone, Copy, PartialEq, Eq, Structural, Debug)]
pub enum CompressionType {
    Raw,
    Lz4,
    Jpeg,
}

/// One encoded tile as it travels on the wire: grid-aligned coordinates,
/// the scheme its payload was encoded with, and the payload bytes.
#[derive(Clone, Debug)]
pub struct TileData {
    pub x: u16,
    pub y: u16,
    pub compression: CompressionType,
    pub data: Vec<u8>,
}

/// Mathematical view of a tile: same fields with the payload as a sequence.
pub struct TileView {
    pub x: u16,
    pub y: u16,
    pub compression: CompressionType,
    pub data: Seq<u8>,
}

impl View for TileData {
    type V = TileView;

    open spec fn view(&self) -> TileView {
        TileView { x: self.x, y: self.y, compression: self.compression, data: self.data@ }
    }
}

/// The wire packet: everything the two endpoints ever exchange.
#[derive(Clone, Debug)]
pub enum Packet {
    /// Peer announcement carrying the announcer's hostname.
    Discovery { hostname: String },
    /// Marks the beginning of a frame's tile traffic.
    FrameStart { frame_id: u32 },
    /// A batch of encoded tiles belonging to one frame.
    TileBatch { frame_id: u32, tiles: Vec<TileData> },
    /// Cursor overlay position in frame coordinates.
    Cursor { x: u16, y: u16 },
}

/// Mathematical view of a packet.
pub enum PacketView {
    Discovery { hostname: Seq<char> },
    FrameStart { frame_id: u32 },
    TileBatch { frame_id: u32, tiles: Seq<TileView> },
    Cursor { x: u16, y: u16 },
}

impl View for Packet {
    type V = PacketView;

    open spec fn view(&self) -> PacketView {
        match self {
            Packet::Discovery { hostname } => PacketView::Discovery { hostname: hostname@ },
            Packet::FrameStart { frame_id } => PacketView::FrameStart { frame_id: *frame_id },
            Packet::TileBatch { frame_id, tiles } => PacketView::TileBatch {
                frame_id: *frame_id,
                tiles: tiles_view(tiles@),
            },
            Packet::Cursor { x, y } => PacketView::Cursor { x: *x, y: *y },
        }
    }
}

/// Discriminant byte of each packet variant.
pub open spec fn packet_tag(p: PacketView) -> u8 {
    match p {
        PacketView::Discovery { .. } => 0,
        PacketView::FrameStart { .. } => 1,
        PacketView::TileBatch { .. } => 2,
        PacketView::Cursor { .. } => 3,
    }
}

/// Wire byte of each compression scheme.
pub open spec fn scheme_tag(c: CompressionType) -> u8 {
    match c {
        CompressionType::Raw => 0,
        CompressionType::Lz4 => 1,
        CompressionType::Jpeg => 2,
    }
}

/// Little-endian bytes of a 16-bit integer.
pub open spec fn u16_le(v: u16) -> Seq<u8> {
    seq![(v as int % 256) as u8, (v as int / 256) as u8]
}

/// Little-endian bytes of a 32-bit integer.
pub open spec fn u32_le(v: u32) -> Seq<u8> {
    seq![
        (v as int % 256) as u8,
        (v as int / 256 % 256) as u8,
        (v as int / 65536 % 256) as u8,
        (v as int / 16777216) as u8,
    ]
}

/// Wire form of one tile: x, y, scheme, payload length, payload.
pub open spec fn tile_wire(t: TileView) -> Seq<u8> {
    u16_le(t.x) + u16_le(t.y) + seq![scheme_tag(t.compression)] + u32_le(t.data.len() as u32)
        + t.data
}

/// Wire form of a tile list: each tile's wire form in order.
pub open spec fn tiles_wire(ts: Seq<TileView>) -> Seq<u8>
    decreases ts.len(),
{
    if ts.len() == 0 {
        Seq::empty()
    } else {
        tile_wire(ts[0]) + tiles_wire(ts.drop_first())
    }
}

/// Wire form of a whole packet.
pub open spec fn packet_wire(p: PacketView) -> Seq<u8> {
    seq![packet_tag(p)] + match p {
        PacketView::Discovery { hostname } => u16_le(encode_utf8(hostname).len() as u16)
            + encode_utf8(hostname),
        PacketView::FrameStart { frame_id } => u32_le(frame_id),
        PacketView::TileBatch { frame_id, tiles } => u32_le(frame_id) + u32_le(
            tiles.len() as u32,
        ) + tiles_wire(tiles),
        PacketView::Cursor { x, y } => u16_le(x) + u16_le(y),
    }
}

/// Serialized length of one tile: 9 header bytes plus the payload.
pub open spec fn tile_wire_len(t: TileView) -> int {
    9 + t.data.len() as int
}

/// Serialized length of a tile list.
pub open spec fn tiles_wire_len(ts: Seq<TileView>) -> int
    decreases ts.len(),
{
    if ts.len() == 0 {
        0
    } else {
        tile_wire_len(ts[0]) + tiles_wire_len(ts.drop_first())
    }
}

/// Serialized length of the batch envelope: discriminant, frame id,
/// tile count.
pub open spec fn batch_envelope_len() -> int {
    9
}

/// Serialized length of a whole tile-batch packet: envelope plus tiles.
pub open spec fn batch_wire_len(tiles: Seq<TileView>) -> int {
    batch_envelope_len() + tiles_wire_len(tiles)
}

/// A packet is wire-well-formed when every length field fits its width.
pub open spec fn wire_wf(p: PacketView) -> bool {
    match p {
        PacketView::Discovery { hostname } => encode_utf8(hostname).len() <= u16::MAX,
        PacketView::FrameStart { .. } => true,
        PacketView::TileBatch { tiles, .. } => tiles.len() <= u32::MAX && forall|k: int|
            0 <= k < tiles.len() ==> (#[trigger] tiles[k]).data.len() <= u32::MAX,
        PacketView::Cursor { .. } => true,
    }
}

/// The wire form of a tile is exactly `tile_wire_len` bytes.
pub proof fn lemma_tile_wire_len(t: TileView)
    ensures
        tile_wire(t).len() == tile_wire_len(t),
{
}

/// The wire form of a tile list is exactly `tiles_wire_len` bytes.
pub proof fn lemma_tiles_wire_len(ts: Seq<TileView>)
    ensures
        tiles_wire(ts).len() == tiles_wire_len(ts),
    decreases ts.len(),
{
    if ts.len() > 0 {
        lemma_tile_wire_len(ts[0]);
        lemma_tiles_wire_len(ts.drop_first());
    }
}

/// A tile-batch packet's wire form is exactly `batch_wire_len` bytes:
/// the batcher's budget arithmetic speaks of true serialized sizes.
pub proof fn lemma_batch_wire_len(frame_id: u32, tiles: Seq<TileView>)
    ensures
        packet_wire(PacketView::TileBatch { frame_id, tiles }).len() == batch_wire_len(tiles),
{
    lemma_tiles_wire_len(tiles);
}

/// View of a tile list.
pub open spec fn tiles_view(ts: Seq<TileData>) -> Seq<TileView> {
    ts.map_values(|t: TileData| t@)
}

/// Appending a tile to a list appends its wire form.
pub proof fn lemma_tiles_wire_push(ts: Seq<TileView>, t: TileView)
    ensures
        tiles_wire(ts.push(t)) == tiles_wire(ts) + tile_wire(t),
        tiles_wire_len(ts.push(t)) == tiles_wire_len(ts) + tile_wire_len(t),
    decreases ts.len(),
{
    if ts.len() == 0 {
        assert(ts.push(t)[0] == t);
        assert(ts.push(t).drop_first() =~= Seq::<TileView>::empty());
        assert(tiles_wire(ts.push(t)) == tile_wire(t) + tiles_wire(Seq::<TileView>::empty()));
        assert(tiles_wire(ts.push(t)) =~= tiles_wire(ts) + tile_wire(t));
        assert(tiles_wire_len(ts.push(t)) == tile_wire_len(t) + tiles_wire_len(
            Seq::<TileView>::empty(),
        ));
    } else {
        assert(ts.push(t)[0] == ts[0]);
        assert(ts.push(t).drop_first() =~= ts.drop_first().push(t));
        lemma_tiles_wire_push(ts.drop_first(), t);
        assert(tiles_wire_len(ts.push(t)) == tile_wire_len(ts[0]) + tiles_wire_len(
            ts.drop_first().push(t),
        ));
        assert(tiles_wire(ts.push(t)) =~= tiles_wire(ts) + tile_wire(t));
    }
}

/// Wire byte of a compression scheme.
pub fn scheme_byte(c: CompressionType) -> (r: u8)
    ensures
        r == scheme_tag(c),
{
    match c {
        CompressionType::Raw => 0,
        CompressionType::Lz4 => 1,
        CompressionType::Jpeg => 2,
    }
}

/// Scheme of a wire byte; unknown bytes are rejected.
pub fn scheme_of_byte(b: u8) -> (r: Option<CompressionType>)
    ensures
        r == scheme_of_tag(b),
{
    if b == 0 {
        Some(CompressionType::Raw)
    } else if b == 1 {
        Some(CompressionType::Lz4)
    } else if b == 2 {
        Some(CompressionType::Jpeg)
    } else {
        None
    }
}

/// Inverse of `scheme_tag`.
pub open spec fn scheme_of_tag(b: u8) -> Option<CompressionType> {
    if b == 0 {
        Some(CompressionType::Raw)
    } else if b == 1 {
        Some(CompressionType::Lz4)
    } else if b == 2 {
        Some(CompressionType::Jpeg)
    } else {
        None
    }
}

/// 16-bit integer denoted by two little-endian bytes.
pub open spec fn u16_from(b0: u8, b1: u8) -> u16 {
    (b0 as int + 256 * b1 as int) as u16
}

/// 32-bit integer denoted by four little-endian bytes.
pub open spec fn u32_from(b0: u8, b1: u8, b2: u8, b3: u8) -> u32 {
    (b0 as int + 256 * b1 as int + 65536 * b2 as int + 16777216 * b3 as int) as u32
}

fn push_u16_le(out: &mut Vec<u8>, v: u16)
    ensures
        final(out)@ == old(out)@ + u16_le(v),
{
    out.push((v % 256) as u8);
    out.push((v / 256) as u8);
    proof {
        assert(out@ =~= old(out)@ + u16_le(v));
    }
}

fn push_u32_le(out: &mut Vec<u8>, v: u32)
    ensures
        final(out)@ == old(out)@ + u32_le(v),
{
    out.push((v % 256) as u8);
    out.push((v / 256 % 256) as u8);
    out.push((v / 65536 % 256) as u8);
    out.push((v / 16777216) as u8);
    proof {
        assert(out@ =~= old(out)@ + u32_le(v));
    }
}

fn append_bytes(out: &mut Vec<u8>, src: &Vec<u8>)
    ensures
        final(out)@ == old(out)@ + src@,
{
    let mut j: usize = 0;
    while j < src.len()
        invariant
            j <= src.len(),
            out@ == old(out)@ + src@.take(j as int),
        decreases src.len() - j,
    {
        out.push(src[j]);
        proof {
            assert(src@.take(j as int + 1) =~= src@.take(j as int).push(src@[j as int]));
        }
        j = j + 1;
    }
    proof {
        assert(src@.take(src@.len() as int) =~= src@);
    }
}

fn append_tile(out: &mut Vec<u8>, t: &TileData)
    requires
        t.data@.len() <= u32::MAX,
    ensures
        final(out)@ == old(out)@ + tile_wire(t@),
{
    push_u16_le(out, t.x);
    push_u16_le(out, t.y);
    out.push(scheme_byte(t.compression));
    push_u32_le(out, t.data.len() as u32);
    append_bytes(out, &t.data);
    proof {
        assert(out@ =~= old(out)@ + tile_wire(t@));
    }
}

/// Serializes a packet into its wire form. Returns `None` exactly when a
/// length field would not fit its wire width.
#[verifier::rlimit(100)]
pub fn encode_packet(p: &Packet) -> (r: Option<Vec<u8>>)
    ensures
        match r {
            Some(v) => wire_wf(p@) && v@ == packet_wire(p@),
            None => !wire_wf(p@),
        },
{
    match p {
        Packet::Discovery { hostname } => {
            let hb = hostname.as_str().as_bytes_vec();
            if hb.len() > 0xFFFF {
                return None;
            }
            let mut out: Vec<u8> = Vec::new();
            out.push(0u8);
            push_u16_le(&mut out, hb.len() as u16);
            append_bytes(&mut out, &hb);
            proof {
                assert(out@ =~= packet_wire(p@));
            }
            Some(out)
        },
        Packet::FrameStart { frame_id } => {
            let mut out: Vec<u8> = Vec::new();
            out.push(1u8);
            push_u32_le(&mut out, *frame_id);
            proof {
                assert(out@ =~= packet_wire(p@));
            }
            Some(out)
        },
        Packet::TileBatch { frame_id, tiles } => {
            if tiles.len() > u32::MAX as usize {
                return None;
            }
            let mut out: Vec<u8> = Vec::new();
            out.push(2u8);
            push_u32_le(&mut out, *frame_id);
            push_u32_le(&mut out, tiles.len() as u32);
            let ghost prefix: Seq<u8> = out@;
            let ghost tv: Seq<TileView> = tiles_view(tiles@);
            let ghost fid: u32 = *frame_id;
            let mut k: usize = 0;
            while k < tiles.len()
                invariant
                    k <= tiles.len(),
                    tv == tiles_view(tiles@),
                    tv.len() == tiles@.len(),
                    p@ == (PacketView::TileBatch { frame_id: fid, tiles: tv }),
                    out@ == prefix + tiles_wire(tv.take(k as int)),
                    forall|j: int| 0 <= j < k ==> (#[trigger] tv[j]).data.len() <= u32::MAX,
                decreases tiles.len() - k,
            {
                let t = &tiles[k];
                assert(t@ == tv[k as int]);
                if t.data.len() > u32::MAX as usize {
                    proof {
                        assert(exists|j: int|
                            0 <= j < tv.len() && (#[trigger] tv[j]).data.len() > u32::MAX) by {
                            assert(tv[k as int].data.len() > u32::MAX);
                            assert((k as int) < tv.len());
                        }
                        assert(!wire_wf(p@));
                    }
                    return None;
                }
                append_tile(&mut out, t);
                proof {
                    let a = tv.take(k as int);
                    let x = tv[k as int];
                    lemma_tiles_wire_push(a, x);
                    assert(a.push(x) =~= tv.take(k as int + 1));
                    assert((prefix + tiles_wire(a)) + tile_wire(x) =~= prefix + (tiles_wire(a)
                        + tile_wire(x)));
                    assert(out@ == prefix + tiles_wire(tv.take(k as int + 1)));
                }
                k = k + 1;
            }
            proof {
                assert(tv.take(tiles@.len() as int) =~= tv);
                assert(out@ =~= packet_wire(p@));
                assert(wire_wf(p@));
            }
            Some(out)
        },
        Packet::Cursor { x, y } => {
            let mut out: Vec<u8> = Vec::new();
            out.push(3u8);
            push_u16_le(&mut out, *x);
            push_u16_le(&mut out, *y);
            proof {
                assert(out@ =~= packet_wire(p@));
            }
            Some(out)
        },
    }
}

/// Spec-level parse of one tile at position `i`: the tile and the index
/// just past it, or `None` where the bytes do not denote a tile.
pub open spec fn parse_tile(bytes: Seq<u8>, i: int) -> Option<(TileView, int)> {
    if 0 <= i && i + 9 <= bytes.len() {
        let x = u16_from(bytes[i], bytes[i + 1]);
        let y = u16_from(bytes[i + 2], bytes[i + 3]);
        let n = u32_from(bytes[i + 5], bytes[i + 6], bytes[i + 7], bytes[i + 8]) as int;
        match scheme_of_tag(bytes[i + 4]) {
            Some(c) => if i + 9 + n <= bytes.len() {
                Some(
                    (
                        TileView { x, y, compression: c, data: bytes.subrange(i + 9, i + 9 + n) },
                        i + 9 + n,
                    ),
                )
            } else {
                None
            },
            None => None,
        }
    } else {
        None
    }
}

/// Spec-level parse of `count` consecutive tiles starting at `i`.
pub open spec fn parse_tiles(bytes: Seq<u8>, i: int, count: int) -> Option<(Seq<TileView>, int)>
    decreases count,
{
    if count <= 0 {
        Some((Seq::empty(), i))
    } else {
        match parse_tile(bytes, i) {
            Some((t, j)) => match parse_tiles(bytes, j, count - 1) {
                Some((ts, end)) => Some((seq![t] + ts, end)),
                None => None,
            },
            None => None,
        }
    }
}

/// Prepends already-parsed tiles to the rest of a parse in progress.
pub open spec fn tiles_then(acc: Seq<TileView>, rem: Option<(Seq<TileView>, int)>) -> Option<
    (Seq<TileView>, int),
> {
    match rem {
        Some((ts, end)) => Some((acc + ts, end)),
        None => None,
    }
}

/// Spec-level parse of a whole datagram. `None` on anything malformed:
/// unknown discriminant, short or overlong input, invalid UTF-8, unknown
/// scheme byte.
pub open spec fn parse_packet(bytes: Seq<u8>) -> Option<PacketView> {
    if bytes.len() < 1 {
        None
    } else if bytes[0] == 0 {
        if bytes.len() >= 3 {
            let n = u16_from(bytes[1], bytes[2]) as int;
            if bytes.len() == 3 + n {
                let hb = bytes.subrange(3, 3 + n);
                if valid_utf8(hb) {
                    Some(PacketView::Discovery { hostname: decode_utf8(hb) })
                } else {
                    None
                }
            } else {
                None
            }
        } else {
            None
        }
    } else if bytes[0] == 1 {
        if bytes.len() == 5 {
            Some(
                PacketView::FrameStart {
                    frame_id: u32_from(bytes[1], bytes[2], bytes[3], bytes[4]),
                },
            )
        } else {
            None
        }
    } else if bytes[0] == 2 {
        if bytes.len() >= 9 {
            let fid = u32_from(bytes[1], bytes[2], bytes[3], bytes[4]);
            let cnt = u32_from(bytes[5], bytes[6], bytes[7], bytes[8]) as int;
            match parse_tiles(bytes, 9, cnt) {
                Some((ts, end)) => if end == bytes.len() {
                    Some(PacketView::TileBatch { frame_id: fid, tiles: ts })
                } else {
                    None
                },
                None => None,
            }
        } else {
            None
        }
    } else if bytes[0] == 3 {
        if bytes.len() == 5 {
            Some(PacketView::Cursor { x: u16_from(bytes[1], bytes[2]), y: u16_from(bytes[3], bytes[4]) })
        } else {
            None
        }
    } else {
        None
    }
}

/// Relies on String::from_utf8: it succeeds exactly on valid UTF-8 input
/// and returns the string those bytes encode.
#[verifier::external_body]
fn string_from_utf8(bytes: Vec<u8>) -> (r: Option<String>)
    ensures
        match r {
            Some(s) => valid_utf8(bytes@) && s@ == decode_utf8(bytes@),
            None => !valid_utf8(bytes@),
        },
{
    String::from_utf8(bytes).ok()
}

fn read_u16_le(bytes: &Vec<u8>, i: usize) -> (r: u16)
    requires
        i + 2 <= bytes@.len(),
    ensures
        r == u16_from(bytes@[i as int], bytes@[i as int + 1]),
{
    let _n: usize = bytes.len();
    (bytes[i] as u16) + 256 * (bytes[i + 1] as u16)
}

fn read_u32_le(bytes: &Vec<u8>, i: usize) -> (r: u32)
    requires
        i + 4 <= bytes@.len(),
    ensures
        r == u32_from(
            bytes@[i as int],
            bytes@[i as int + 1],
            bytes@[i as int + 2],
            bytes@[i as int + 3],
        ),
{
    let _n: usize = bytes.len();
    (bytes[i] as u32) + 256 * (bytes[i + 1] as u32) + 65536 * (bytes[i + 2] as u32) + 16777216
        * (bytes[i + 3] as u32)
}

fn copy_range(bytes: &Vec<u8>, start: usize, n: usize) -> (r: Vec<u8>)
    requires
        start + n <= bytes@.len(),
    ensures
        r@ == bytes@.subrange(start as int, start as int + n as int),
{
    let _total: usize = bytes.len();
    let mut out: Vec<u8> = Vec::new();
    proof {
        assert(out@ =~= bytes@.subrange(start as int, start as int));
    }
    let mut j: usize = 0;
    while j < n
        invariant
            j <= n,
            start + n <= bytes@.len(),
            bytes@.len() <= usize::MAX,
            out@ == bytes@.subrange(start as int, start as int + j as int),
        decreases n - j,
    {
        out.push(bytes[start + j]);
        proof {
            assert(bytes@.subrange(start as int, start as int + j as int + 1) =~= bytes@.subrange(
                start as int,
                start as int + j as int,
            ).push(bytes@[start as int + j as int]));
        }
        j = j + 1;
    }
    out
}

fn decode_tile(bytes: &Vec<u8>, i: usize) -> (r: Option<(TileData, usize)>)
    requires
        i <= bytes@.len(),
    ensures
        match r {
            Some(tj) => parse_tile(bytes@, i as int) == Some((tj.0@, tj.1 as int)) && i < tj.1
                <= bytes@.len(),
            None => parse_tile(bytes@, i as int) is None,
        },
{
    if bytes.len() - i < 9 {
        return None;
    }
    let x = read_u16_le(bytes, i);
    let y = read_u16_le(bytes, i + 2);
    let cb = bytes[i + 4];
    let n32 = read_u32_le(bytes, i + 5);
    let c = match scheme_of_byte(cb) {
        Some(c) => c,
        None => {
            return None;
        },
    };
    let n = n32 as usize;
    if n > bytes.len() - (i + 9) {
        return None;
    }
    let data = copy_range(bytes, i + 9, n);
    Some((TileData { x, y, compression: c, data }, i + 9 + n))
}

/// Parses a datagram into a packet, exactly as `parse_packet` describes;
/// returns `None` on every malformed input.
pub fn decode_packet(bytes: &Vec<u8>) -> (r: Option<Packet>)
    ensures
        match r {
            Some(pk) => parse_packet(bytes@) == Some(pk@),
            None => parse_packet(bytes@) is None,
        },
{
    if bytes.len() < 1 {
        return None;
    }
    let tag = bytes[0];
    if tag == 0 {
        if bytes.len() < 3 {
            return None;
        }
        let n = read_u16_le(bytes, 1) as usize;
        if bytes.len() != 3 + n {
            return None;
        }
        let hb = copy_range(bytes, 3, n);
        match string_from_utf8(hb) {
            Some(hostname) => Some(Packet::Discovery { hostname }),
            None => None,
        }
    } else if tag == 1 {
        if bytes.len() != 5 {
            return None;
        }
        Some(Packet::FrameStart { frame_id: read_u32_le(bytes, 1) })
    } else if tag == 2 {
        if bytes.len() < 9 {
            return None;
        }
        let frame_id = read_u32_le(bytes, 1);
        let cnt = read_u32_le(bytes, 5);
        let mut tiles: Vec<TileData> = Vec::new();
        let mut i: usize = 9;
        let mut k: u32 = 0;
        proof {
            let rem0 = parse_tiles(bytes@, 9, cnt as int);
            assert(tiles_view(tiles@) =~= Seq::<TileView>::empty());
            if rem0 is Some {
                assert(tiles_view(tiles@) + rem0.unwrap().0 =~= rem0.unwrap().0);
            }
            assert(parse_tiles(bytes@, 9, cnt as int) == tiles_then(tiles_view(tiles@), rem0));
        }
        while k < cnt
            invariant
                k <= cnt,
                9 <= i <= bytes@.len(),
                tiles@.len() == k,
                bytes@.len() >= 9,
                bytes@[0] == 2,
                frame_id == u32_from(bytes@[1], bytes@[2], bytes@[3], bytes@[4]),
                cnt == u32_from(bytes@[5], bytes@[6], bytes@[7], bytes@[8]),
                parse_tiles(bytes@, 9, cnt as int) == tiles_then(
                    tiles_view(tiles@),
                    parse_tiles(bytes@, i as int, cnt as int - k as int),
                ),
            decreases cnt - k,
        {
            match decode_tile(bytes, i) {
                Some(tj) => {
                    let (t, j) = tj;
                    proof {
                        let acc = tiles_view(tiles@);
                        let rem = parse_tiles(bytes@, j as int, cnt as int - k as int - 1);
                        assert(parse_tiles(bytes@, i as int, cnt as int - k as int)
                            == tiles_then(seq![t@], rem));
                        assert(tiles_view(tiles@.push(t)) =~= acc + seq![t@]);
                        if rem is Some {
                            let ts = rem.unwrap().0;
                            assert(acc + (seq![t@] + ts) =~= (acc + seq![t@]) + ts);
                        }
                        assert(tiles_then(acc, tiles_then(seq![t@], rem)) == tiles_then(
                            acc + seq![t@],
                            rem,
                        ));
                    }
                    tiles.push(t);
                    i = j;
                    k = k + 1;
                },
                None => {
                    return None;
                },
            }
        }
        proof {
            assert(parse_tiles(bytes@, i as int, 0) == Some((Seq::<TileView>::empty(), i as int)));
            assert(tiles_view(tiles@) + Seq::<TileView>::empty() =~= tiles_view(tiles@));
        }
        if i != bytes.len() {
            return None;
        }
        Some(Packet::TileBatch { frame_id, tiles })
    } else if tag == 3 {
        if bytes.len() != 5 {
            return None;
        }
        Some(Packet::Cursor { x: read_u16_le(bytes, 1), y: read_u16_le(bytes, 3) })
    } else {
        None
    }
}

proof fn lemma_u16_le_inverts(v: u16)
    ensures
        u16_from(u16_le(v)[0], u16_le(v)[1]) == v,
{
    lemma_fundamental_div_mod(v as int, 256);
}

proof fn lemma_u32_le_inverts(v: u32)
    ensures
        u32_from(u32_le(v)[0], u32_le(v)[1], u32_le(v)[2], u32_le(v)[3]) == v,
{
    let x = v as int;
    lemma_fundamental_div_mod(x, 256);
    lemma_fundamental_div_mod(x / 256, 256);
    lemma_fundamental_div_mod(x / 65536, 256);
    lemma_div_denominator(x, 256, 256);
    lemma_div_denominator(x, 65536, 256);
    assert(x / 256 / 256 == x / 65536);
    assert(x / 65536 / 256 == x / 16777216);
}

proof fn lemma_parse_tile_inverts(bytes: Seq<u8>, i: int, t: TileView)
    requires
        0 <= i,
        t.data.len() <= u32::MAX,
        i + tile_wire_len(t) <= bytes.len(),
        bytes.subrange(i, i + tile_wire_len(t)) == tile_wire(t),
    ensures
        parse_tile(bytes, i) == Some((t, i + tile_wire_len(t))),
{
    let w = tile_wire(t);
    let ln = tile_wire_len(t);
    let n = t.data.len() as int;
    lemma_tile_wire_len(t);
    assert forall|k: int| 0 <= k < ln implies bytes[i + k] == w[k] by {
        assert(bytes.subrange(i, i + ln)[k] == bytes[i + k]);
    }
    assert(w[0] == u16_le(t.x)[0]);
    assert(w[1] == u16_le(t.x)[1]);
    assert(w[2] == u16_le(t.y)[0]);
    assert(w[3] == u16_le(t.y)[1]);
    assert(w[4] == scheme_tag(t.compression));
    assert(w[5] == u32_le(n as u32)[0]);
    assert(w[6] == u32_le(n as u32)[1]);
    assert(w[7] == u32_le(n as u32)[2]);
    assert(w[8] == u32_le(n as u32)[3]);
    lemma_u16_le_inverts(t.x);
    lemma_u16_le_inverts(t.y);
    lemma_u32_le_inverts(n as u32);
    assert(scheme_of_tag(scheme_tag(t.compression)) == Some(t.compression));
    assert(bytes.subrange(i + 9, i + 9 + n) =~= t.data) by {
        assert forall|m: int| 0 <= m < n implies bytes[i + 9 + m] == t.data[m] by {
            assert(bytes[i + (9 + m)] == w[9 + m]);
            assert(w[9 + m] == t.data[m]);
        }
    }
}

proof fn lemma_parse_tiles_inverts(bytes: Seq<u8>, i: int, ts: Seq<TileView>)
    requires
        0 <= i,
        i + tiles_wire_len(ts) <= bytes.len(),
        bytes.subrange(i, i + tiles_wire_len(ts)) == tiles_wire(ts),
        forall|k: int| 0 <= k < ts.len() ==> (#[trigger] ts[k]).data.len() <= u32::MAX,
    ensures
        parse_tiles(bytes, i, ts.len() as int) == Some((ts, i + tiles_wire_len(ts))),
    decreases ts.len(),
{
    lemma_tiles_wire_len(ts);
    if ts.len() == 0 {
        assert(ts =~= Seq::<TileView>::empty());
    } else {
        let t0 = ts[0];
        let rest = ts.drop_first();
        let l0 = tile_wire_len(t0);
        let lr = tiles_wire_len(rest);
        lemma_tile_wire_len(t0);
        lemma_tiles_wire_len(rest);
        assert forall|k: int| 0 <= k < tiles_wire_len(ts) implies bytes[i + k] == tiles_wire(
            ts,
        )[k] by {
            assert(bytes.subrange(i, i + tiles_wire_len(ts))[k] == bytes[i + k]);
        }
        assert(bytes.subrange(i, i + l0) =~= tile_wire(t0)) by {
            assert forall|k: int| 0 <= k < l0 implies bytes.subrange(i, i + l0)[k] == tile_wire(
                t0,
            )[k] by {
                assert(bytes[i + k] == tiles_wire(ts)[k]);
                assert(tiles_wire(ts)[k] == tile_wire(t0)[k]);
            }
        }
        lemma_parse_tile_inverts(bytes, i, t0);
        assert(bytes.subrange(i + l0, i + l0 + lr) =~= tiles_wire(rest)) by {
            assert forall|k: int| 0 <= k < lr implies bytes.subrange(i + l0, i + l0 + lr)[k]
                == tiles_wire(rest)[k] by {
                assert(bytes[i + (l0 + k)] == tiles_wire(ts)[l0 + k]);
                assert(tiles_wire(ts)[l0 + k] == tiles_wire(rest)[k]);
            }
        }
        assert forall|k: int| 0 <= k < rest.len() implies (#[trigger] rest[k]).data.len()
            <= u32::MAX by {
            assert(rest[k] == ts[k + 1]);
        }
        lemma_parse_tiles_inverts(bytes, i + l0, rest);
        assert(seq![t0] + rest =~= ts);
    }
}

/// Law: the wire format is lossless. A wire-well-formed packet's encoding
/// parses back to exactly that packet, so the receiver can reconstruct
/// whatever the sender framed.
pub proof fn lemma_packet_round_trip(p: PacketView)
    requires
        wire_wf(p),
    ensures
        parse_packet(packet_wire(p)) == Some(p),
{
    let w = packet_wire(p);
    match p {
        PacketView::Discovery { hostname } => {
            let hb = encode_utf8(hostname);
            let n = hb.len() as int;
            assert(w.len() == 3 + n);
            assert(w[0] == 0);
            assert(w[1] == u16_le(n as u16)[0]);
            assert(w[2] == u16_le(n as u16)[1]);
            lemma_u16_le_inverts(n as u16);
            assert(w.subrange(3, 3 + n) =~= hb) by {
                assert forall|m: int| 0 <= m < n implies w.subrange(3, 3 + n)[m] == hb[m] by {
                    assert(w[3 + m] == hb[m]);
                }
            }
            encode_utf8_valid_utf8(hostname);
            encode_utf8_decode_utf8(hostname);
        },
        PacketView::FrameStart { frame_id } => {
            assert(w.len() == 5);
            assert(w[0] == 1);
            assert(w[1] == u32_le(frame_id)[0]);
            assert(w[2] == u32_le(frame_id)[1]);
            assert(w[3] == u32_le(frame_id)[2]);
            assert(w[4] == u32_le(frame_id)[3]);
            lemma_u32_le_inverts(frame_id);
        },
        PacketView::TileBatch { frame_id, tiles } => {
            let cnt = tiles.len() as u32;
            let lr = tiles_wire_len(tiles);
            lemma_tiles_wire_len(tiles);
            assert(w.len() == 9 + lr);
            assert(w[0] == 2);
            assert(w[1] == u32_le(frame_id)[0]);
            assert(w[2] == u32_le(frame_id)[1]);
            assert(w[3] == u32_le(frame_id)[2]);
            assert(w[4] == u32_le(frame_id)[3]);
            assert(w[5] == u32_le(cnt)[0]);
            assert(w[6] == u32_le(cnt)[1]);
            assert(w[7] == u32_le(cnt)[2]);
            assert(w[8] == u32_le(cnt)[3]);
            lemma_u32_le_inverts(frame_id);
            lemma_u32_le_inverts(cnt);
            assert(w.subrange(9, 9 + lr) =~= tiles_wire(tiles)) by {
                assert forall|m: int| 0 <= m < lr implies w.subrange(9, 9 + lr)[m] == tiles_wire(
                    tiles,
                )[m] by {
                    assert(w[9 + m] == tiles_wire(tiles)[m]);
                }
            }
            lemma_parse_tiles_inverts(w, 9, tiles);
        },
        PacketView::Cursor { x, y } => {
            assert(w.len() == 5);
            assert(w[0] == 3);
            assert(w[1] == u16_le(x)[0]);
            assert(w[2] == u16_le(x)[1]);
            assert(w[3] == u16_le(y)[0]);
            assert(w[4] == u16_le(y)[1]);
            lemma_u16_le_inverts(x);
            lemma_u16_le_inverts(y);
        },
    }
}

} // verus!
