//! Receiver-side reassembly: a persistent framebuffer that incoming tiles
//! are decoded and blitted into, a non-decreasing watermark with staleness
//! rejection, and a cursor overlay kept outside the pixel buffer so cursor
//! motion never leaves trails.

use crate::codec::decode_tile_spec;
use crate::codec::lossless_encoding_of;
use crate::diff::extract_spec;
use crate::diff::tile_payload_ok;
use crate::codec::decompress_tile;
use crate::protocol::tiles_view;
use crate::protocol::Packet;
use crate::protocol::PacketView;
use crate::protocol::TileData;
use crate::protocol::TileView;
use crate::TILE_SIZE;
use vstd::arithmetic::div_mod::lemma_fundamental_div_mod;
use vstd::arithmetic::div_mod::lemma_fundamental_div_mod_converse;
use vstd::prelude::*;

verus! {

/// The color written for one decoded pixel: its red, green and blue bytes
/// packed into a single word (alpha dropped).
pub open spec fn tile_pixel_value(raw: Seq<u8>, ti: int) -> u32 {
    ((raw[ti] as int) * 65536 + (raw[ti + 1] as int) * 256 + (raw[ti + 2] as int)) as u32
}

/// Whether blitting a payload anchored at (x, y) writes framebuffer index
/// `i`: the pixel lies inside the tile square and its payload bytes exist.
pub open spec fn blit_here(raw: Seq<u8>, x: int, y: int, i: int, width: int) -> bool {
    let py = i / width;
    let px = i % width;
    let ti = ((py - y) * (TILE_SIZE as int) + (px - x)) * 4;
    y <= py < y + TILE_SIZE && x <= px < x + TILE_SIZE && ti + 3 < raw.len()
}

/// The color index `i` receives from a payload anchored at (x, y).
pub open spec fn blit_val(raw: Seq<u8>, x: int, y: int, i: int, width: int) -> u32 {
    let py = i / width;
    let px = i % width;
    let ti = ((py - y) * (TILE_SIZE as int) + (px - x)) * 4;
    tile_pixel_value(raw, ti)
}

/// The framebuffer after blitting one decoded payload at (x, y): pixels
/// under the tile take its colors, every other pixel keeps its value.
pub open spec fn blit_spec(fb: Seq<u32>, raw: Seq<u8>, x: int, y: int, width: int) -> Seq<u32> {
    Seq::new(
        fb.len(),
        |i: int|
            if blit_here(raw, x, y, i, width) {
                blit_val(raw, x, y, i, width)
            } else {
                fb[i]
            },
    )
}

/// The framebuffer after decoding and blitting a tile list in order.
pub open spec fn apply_tiles_spec(fb: Seq<u32>, tiles: Seq<TileView>, width: int) -> Seq<u32>
    decreases tiles.len(),
{
    if tiles.len() == 0 {
        fb
    } else {
        let t = tiles[0];
        apply_tiles_spec(
            blit_spec(fb, decode_tile_spec(t.compression, t.data), t.x as int, t.y as int, width),
            tiles.drop_first(),
            width,
        )
    }
}

/// Progress order of the blit loops: pixels of earlier rows, then earlier
/// columns of the current row, are already written.
spec fn blit_before(x: int, y: int, i: int, width: int, row: int, col: int) -> bool {
    let py = i / width;
    let px = i % width;
    py - y < row || (py - y == row && px - x < col)
}

/// Decodes one tile and blits it into the framebuffer at the tile's
/// coordinates, bounds-checked against the stride and the buffer length.
/// Tiles reach this only through `apply_batch`, which discards stale
/// batches before any blit; `lemma_full_refresh_restores` states what a
/// refresh's blits restore.
pub fn draw_tile(fb: &mut Vec<u32>, tile: &TileData, stride: usize)
    requires
        1 <= stride <= u32::MAX,
    ensures
        final(fb)@ == blit_spec(
            old(fb)@,
            decode_tile_spec(tile.compression, tile.data@),
            tile.x as int,
            tile.y as int,
            stride as int,
        ),
{
    let raw = decompress_tile(tile);
    let ghost fb0: Seq<u32> = fb@;
    let ghost rawv: Seq<u8> = raw@;
    let ghost x: int = tile.x as int;
    let ghost y: int = tile.y as int;
    let ghost w: int = stride as int;
    let total: usize = fb.len();
    let stride64 = stride as u64;
    let mut r: usize = 0;
    while r < TILE_SIZE
        invariant
            r <= TILE_SIZE,
            1 <= w <= u32::MAX,
            w == stride as int,
            stride64 == stride as u64,
            x == tile.x as int,
            y == tile.y as int,
            rawv == raw@,
            total == fb@.len(),
            fb@.len() == fb0.len(),
            forall|i: int|
                0 <= i < fb0.len() ==> #[trigger] fb@[i] == if blit_here(rawv, x, y, i, w)
                    && blit_before(x, y, i, w, r as int, 0) {
                    blit_val(rawv, x, y, i, w)
                } else {
                    fb0[i]
                },
        decreases TILE_SIZE - r,
    {
        let mut c: usize = 0;
        while c < TILE_SIZE
            invariant
                r < TILE_SIZE,
                c <= TILE_SIZE,
                1 <= w <= u32::MAX,
                w == stride as int,
                stride64 == stride as u64,
                x == tile.x as int,
                y == tile.y as int,
                rawv == raw@,
                total == fb@.len(),
                fb@.len() == fb0.len(),
                forall|i: int|
                    0 <= i < fb0.len() ==> #[trigger] fb@[i] == if blit_here(rawv, x, y, i, w)
                        && blit_before(x, y, i, w, r as int, c as int) {
                        blit_val(rawv, x, y, i, w)
                    } else {
                        fb0[i]
                    },
            decreases TILE_SIZE - c,
        {
            let px64 = tile.x as u64 + c as u64;
            let py64 = tile.y as u64 + r as u64;
            let ti = (r * TILE_SIZE + c) * 4;
            if px64 < stride64 && ti + 3 < raw.len() {
                proof {
                    assert(py64 as int * stride64 as int <= 65567 * 4294967295) by (nonlinear_arith)
                        requires
                            0 <= py64 as int <= 65567,
                            0 <= stride64 as int <= 4294967295,
                    ;
                }
                let pos64 = py64 * stride64 + px64;
                if pos64 < total as u64 {
                    let idx = pos64 as usize;
                    let v: u32 = (raw[ti] as u32) * 65536 + (raw[ti + 1] as u32) * 256 + (raw[ti
                        + 2] as u32);
                    proof {
                        lemma_fundamental_div_mod_converse(
                            idx as int,
                            w,
                            y + r as int,
                            x + c as int,
                        );
                        assert(blit_here(rawv, x, y, idx as int, w));
                        assert(blit_val(rawv, x, y, idx as int, w) == v);
                    }
                    fb[idx] = v;
                    proof {
                        assert forall|i: int| 0 <= i < fb0.len() implies #[trigger] fb@[i] == if
                            blit_here(rawv, x, y, i, w) && blit_before(
                            x,
                            y,
                            i,
                            w,
                            r as int,
                            c as int + 1,
                        ) {
                            blit_val(rawv, x, y, i, w)
                        } else {
                            fb0[i]
                        } by {
                            if i != idx as int {
                                lemma_fundamental_div_mod(i, w);
                                lemma_fundamental_div_mod(idx as int, w);
                                assert(blit_before(x, y, i, w, r as int, c as int + 1)
                                    == blit_before(x, y, i, w, r as int, c as int));
                            }
                        }
                    }
                } else {
                    proof {
                        assert forall|i: int| 0 <= i < fb0.len() implies #[trigger] fb@[i] == if
                            blit_here(rawv, x, y, i, w) && blit_before(
                            x,
                            y,
                            i,
                            w,
                            r as int,
                            c as int + 1,
                        ) {
                            blit_val(rawv, x, y, i, w)
                        } else {
                            fb0[i]
                        } by {
                            if i / w == y + r as int && i % w == x + c as int {
                                lemma_fundamental_div_mod(i, w);
                            } else {
                                assert(blit_before(x, y, i, w, r as int, c as int + 1)
                                    == blit_before(x, y, i, w, r as int, c as int));
                            }
                        }
                    }
                }
            } else {
                proof {
                    assert forall|i: int| 0 <= i < fb0.len() implies #[trigger] fb@[i] == if
                        blit_here(rawv, x, y, i, w) && blit_before(
                        x,
                        y,
                        i,
                        w,
                        r as int,
                        c as int + 1,
                    ) {
                        blit_val(rawv, x, y, i, w)
                    } else {
                        fb0[i]
                    } by {
                        if i / w == y + r as int && i % w == x + c as int {
                            lemma_fundamental_div_mod(i, w);
                            if x + c as int >= w {
                                assert(false);
                            } else {
                                assert(!blit_here(rawv, x, y, i, w));
                            }
                        } else {
                            assert(blit_before(x, y, i, w, r as int, c as int + 1) == blit_before(
                                x,
                                y,
                                i,
                                w,
                                r as int,
                                c as int,
                            ));
                        }
                    }
                }
            }
            c = c + 1;
        }
        proof {
            assert forall|i: int| 0 <= i < fb0.len() implies (blit_here(rawv, x, y, i, w)
                && blit_before(x, y, i, w, r as int, TILE_SIZE as int)) == (blit_here(
                rawv,
                x,
                y,
                i,
                w,
            ) && blit_before(x, y, i, w, r as int + 1, 0)) by {}
        }
        r = r + 1;
    }
    proof {
        assert(fb@ =~= blit_spec(fb0, rawv, x, y, w));
    }
}

/// Staleness test: a batch older than the watermark by more than the
/// tolerance window must never regress newer pixels.
pub open spec fn is_stale(frame_id: u32, watermark: u32, window: u32) -> bool {
    watermark > window && (frame_id as int) < watermark as int - window as int
}

/// Receiver-side state: the persistent framebuffer, its dimensions, the
/// watermark of applied frames, the staleness tolerance, and the cursor
/// overlay position (composited at presentation, never written into the
/// pixel buffer).
pub struct FrameReassembler {
    pub fb: Vec<u32>,
    pub width: usize,
    pub height: usize,
    pub watermark: u32,
    pub staleness_window: u32,
    pub cursor_x: u16,
    pub cursor_y: u16,
}

impl FrameReassembler {
    /// Well-formed: the framebuffer is exactly width × height words and
    /// the stride stays in 32-bit range.
    pub open spec fn wf(&self) -> bool {
        &&& self.fb@.len() == self.width as int * self.height as int
        &&& 1 <= self.width <= u32::MAX
    }

    /// A fresh receiver: placeholder-filled framebuffer, watermark zero,
    /// cursor at the origin.
    pub fn new(width: usize, height: usize, staleness_window: u32) -> (r: FrameReassembler)
        requires
            1 <= width <= u32::MAX,
            width as int * height as int <= usize::MAX,
        ensures
            r.wf(),
            r.width == width,
            r.height == height,
            r.watermark == 0,
            r.staleness_window == staleness_window,
            forall|i: int| 0 <= i < r.fb@.len() ==> r.fb@[i] == 0xFF000033u32,
            r.cursor_x == 0 && r.cursor_y == 0,
    {
        let n = width * height;
        let mut fb: Vec<u32> = Vec::new();
        let mut j: usize = 0;
        while j < n
            invariant
                j <= n,
                fb@.len() == j,
                forall|i: int| 0 <= i < j ==> fb@[i] == 0xFF000033u32,
            decreases n - j,
        {
            fb.push(0xFF000033);
            j = j + 1;
        }
        FrameReassembler {
            fb,
            width,
            height,
            watermark: 0,
            staleness_window,
            cursor_x: 0,
            cursor_y: 0,
        }
    }

    /// Applies one tile batch. A stale batch leaves the framebuffer — and
    /// everything else — exactly as it was; otherwise every tile is decoded
    /// and blitted in order and the watermark rises to the batch's frame id
    /// if that is higher. The watermark never decreases.
    pub fn apply_batch(&mut self, frame_id: u32, tiles: &Vec<TileData>)
        requires
            old(self).wf(),
        ensures
            final(self).wf(),
            final(self).width == old(self).width,
            final(self).height == old(self).height,
            final(self).staleness_window == old(self).staleness_window,
            final(self).cursor_x == old(self).cursor_x,
            final(self).cursor_y == old(self).cursor_y,
            final(self).watermark >= old(self).watermark,
            is_stale(frame_id, old(self).watermark, old(self).staleness_window) ==> final(self).fb@
                == old(self).fb@ && final(self).watermark == old(self).watermark,
            !is_stale(frame_id, old(self).watermark, old(self).staleness_window) ==> {
                &&& final(self).fb@ == apply_tiles_spec(
                    old(self).fb@,
                    tiles_view(tiles@),
                    old(self).width as int,
                )
                &&& final(self).watermark as int == if frame_id > old(self).watermark {
                    frame_id as int
                } else {
                    old(self).watermark as int
                }
            },
    {
        if self.staleness_window < self.watermark && frame_id < self.watermark
            - self.staleness_window {
            return;
        }
        let ghost fbstart: Seq<u32> = self.fb@;
        let ghost tv: Seq<TileView> = tiles_view(tiles@);
        let ghost w: int = self.width as int;
        proof {
            assert(tv.skip(0) =~= tv);
        }
        let mut k: usize = 0;
        while k < tiles.len()
            invariant
                k <= tiles@.len(),
                tv == tiles_view(tiles@),
                tv.len() == tiles@.len(),
                w == self.width as int,
                1 <= self.width <= u32::MAX,
                self.width == old(self).width,
                self.height == old(self).height,
                self.staleness_window == old(self).staleness_window,
                self.cursor_x == old(self).cursor_x,
                self.cursor_y == old(self).cursor_y,
                self.watermark == old(self).watermark,
                fbstart == old(self).fb@,
                self.fb@.len() == fbstart.len(),
                apply_tiles_spec(fbstart, tv, w) == apply_tiles_spec(self.fb@, tv.skip(k as int), w),
            decreases tiles@.len() - k,
        {
            let t = &tiles[k];
            proof {
                assert(tv.skip(k as int)[0] == t@);
                assert(tv.skip(k as int).drop_first() =~= tv.skip(k as int + 1));
            }
            draw_tile(&mut self.fb, t, self.width);
            k = k + 1;
        }
        proof {
            assert(tv.skip(tv.len() as int) =~= Seq::<TileView>::empty());
        }
        if frame_id > self.watermark {
            self.watermark = frame_id;
        }
    }

    /// Demultiplexes one inbound packet: tile batches go through staleness
    /// checking and blitting, cursor updates move only the overlay, and
    /// everything else (discovery, frame markers) leaves the receiver state
    /// alone.
    pub fn handle_packet(&mut self, p: &Packet)
        requires
            old(self).wf(),
        ensures
            final(self).wf(),
            final(self).width == old(self).width,
            final(self).height == old(self).height,
            final(self).staleness_window == old(self).staleness_window,
            final(self).watermark >= old(self).watermark,
            match p@ {
                PacketView::TileBatch { frame_id, tiles } => {
                    &&& final(self).cursor_x == old(self).cursor_x
                    &&& final(self).cursor_y == old(self).cursor_y
                    &&& is_stale(frame_id, old(self).watermark, old(self).staleness_window)
                        ==> final(self).fb@ == old(self).fb@ && final(self).watermark == old(
                        self,
                    ).watermark
                    &&& !is_stale(frame_id, old(self).watermark, old(self).staleness_window) ==> {
                        &&& final(self).fb@ == apply_tiles_spec(
                            old(self).fb@,
                            tiles,
                            old(self).width as int,
                        )
                        &&& final(self).watermark as int == if frame_id > old(self).watermark {
                            frame_id as int
                        } else {
                            old(self).watermark as int
                        }
                    }
                },
                PacketView::Cursor { x, y } => {
                    &&& final(self).fb@ == old(self).fb@
                    &&& final(self).watermark == old(self).watermark
                    &&& final(self).cursor_x == x
                    &&& final(self).cursor_y == y
                },
                _ => *final(self) == *old(self),
            },
    {
        match p {
            Packet::TileBatch { frame_id, tiles } => {
                self.apply_batch(*frame_id, tiles);
            },
            Packet::Cursor { x, y } => {
                self.cursor_x = *x;
                self.cursor_y = *y;
            },
            _ => {},
        }
    }
}

/// Whether some tile of the list blits framebuffer index `i`.
pub open spec fn covered_by(tiles: Seq<TileView>, i: int, width: int) -> bool
    decreases tiles.len(),
{
    if tiles.len() == 0 {
        false
    } else {
        let t = tiles[0];
        blit_here(decode_tile_spec(t.compression, t.data), t.x as int, t.y as int, i, width)
            || covered_by(tiles.drop_first(), i, width)
    }
}

/// A pixel two framebuffers agree on, they still agree on after applying
/// the same tiles.
proof fn lemma_apply_pointwise(
    fb1: Seq<u32>,
    fb2: Seq<u32>,
    tiles: Seq<TileView>,
    width: int,
    i: int,
)
    requires
        fb1.len() == fb2.len(),
        0 <= i < fb1.len(),
        fb1[i] == fb2[i],
    ensures
        apply_tiles_spec(fb1, tiles, width)[i] == apply_tiles_spec(fb2, tiles, width)[i],
    decreases tiles.len(),
{
    if tiles.len() > 0 {
        let t = tiles[0];
        let d = decode_tile_spec(t.compression, t.data);
        let b1 = blit_spec(fb1, d, t.x as int, t.y as int, width);
        let b2 = blit_spec(fb2, d, t.x as int, t.y as int, width);
        lemma_apply_pointwise(b1, b2, tiles.drop_first(), width, i);
    }
}

/// A tile known to blit a pixel makes the whole list cover it.
proof fn lemma_member_covered(tiles: Seq<TileView>, k: int, i: int, width: int)
    requires
        0 <= k < tiles.len(),
        blit_here(
            decode_tile_spec(tiles[k].compression, tiles[k].data),
            tiles[k].x as int,
            tiles[k].y as int,
            i,
            width,
        ),
    ensures
        covered_by(tiles, i, width),
    decreases k,
{
    if k > 0 {
        assert(tiles.drop_first()[k - 1] == tiles[k]);
        lemma_member_covered(tiles.drop_first(), k - 1, i, width);
    }
}

/// A full-refresh tile list — sound payloads for every grid tile — covers
/// every in-frame pixel.
proof fn lemma_full_list_covers(
    tiles: Seq<TileView>,
    curr: Seq<u8>,
    i: int,
    w: int,
    h: int,
)
    requires
        0 < w <= 65535,
        0 < h <= 65535,
        curr.len() == 4 * w * h,
        0 <= i < w * h,
        forall|j: int| 0 <= j < tiles.len() ==> tile_payload_ok(#[trigger] tiles[j], curr, w, h),
        forall|tx: int, ty: int|
            0 <= tx < w && 0 <= ty < h && #[trigger] (tx % 32) == 0 && #[trigger] (ty % 32) == 0
                ==> exists|j: int|
                0 <= j < tiles.len() && (#[trigger] tiles[j]).x == tx && tiles[j].y == ty,
    ensures
        covered_by(tiles, i, w),
{
    let px = i % w;
    let py = i / w;
    lemma_fundamental_div_mod(i, w);
    assert(0 <= px < w && 0 <= py < h) by (nonlinear_arith)
        requires
            0 < w,
            0 <= i < w * h,
            i == w * py + px,
            0 <= px < w,
    ;
    let tx = 32 * (px / 32);
    let ty = 32 * (py / 32);
    lemma_fundamental_div_mod(px, 32);
    lemma_fundamental_div_mod(py, 32);
    assert(tx % 32 == 0 && ty % 32 == 0 && tx <= px < tx + 32 && ty <= py < ty + 32 && 0 <= tx && 0
        <= ty) by (nonlinear_arith)
        requires
            px == 32 * (px / 32) + px % 32,
            py == 32 * (py / 32) + py % 32,
            0 <= px % 32 < 32,
            0 <= py % 32 < 32,
            0 <= px,
            0 <= py,
            tx == 32 * (px / 32),
            ty == 32 * (py / 32),
    ;
    let j = choose|j: int|
        0 <= j < tiles.len() && (#[trigger] tiles[j]).x == tx && tiles[j].y == ty;
    let t = tiles[j];
    assert(tile_payload_ok(t, curr, w, h));
    let d = decode_tile_spec(t.compression, t.data);
    assert(d == extract_spec(curr, tx, ty, w, h));
    assert(d.len() == 32 * 32 * 4);
    assert(blit_here(d, tx, ty, i, w));
    lemma_member_covered(tiles, j, i, w);
}

/// Law: full-refresh convergence. Any pixel covered by a refresh tile list
/// ends up identical on two receivers whose framebuffers differed
/// arbitrarily before — in particular, a receiver that lost every batch of
/// an earlier frame converges to the sender's state once a refresh cycle
/// covers the pixel, since the blitted color comes from the refresh
/// payload alone.
pub proof fn lemma_refresh_converges(
    fb1: Seq<u32>,
    fb2: Seq<u32>,
    tiles: Seq<TileView>,
    width: int,
    i: int,
)
    requires
        fb1.len() == fb2.len(),
        0 <= i < fb1.len(),
        covered_by(tiles, i, width),
    ensures
        apply_tiles_spec(fb1, tiles, width)[i] == apply_tiles_spec(fb2, tiles, width)[i],
    decreases tiles.len(),
{
    let t = tiles[0];
    let d = decode_tile_spec(t.compression, t.data);
    let b1 = blit_spec(fb1, d, t.x as int, t.y as int, width);
    let b2 = blit_spec(fb2, d, t.x as int, t.y as int, width);
    if covered_by(tiles.drop_first(), i, width) {
        lemma_refresh_converges(b1, b2, tiles.drop_first(), width, i);
    } else {
        assert(b1[i] == b2[i]);
        lemma_apply_pointwise(b1, b2, tiles.drop_first(), width, i);
    }
}

/// Law: a full-frame refresh restores every in-frame pixel to a value that
/// does not depend on the receiver's prior framebuffer. A receiver that
/// lost all of an earlier frame's batches therefore holds the same pixels,
/// after the refresh, as one that missed nothing — the refresh bounds the
/// lifetime of any corruption a lost batch caused.
pub proof fn lemma_full_refresh_restores(
    tiles: Seq<TileView>,
    curr: Seq<u8>,
    fb1: Seq<u32>,
    fb2: Seq<u32>,
    w: int,
    h: int,
)
    requires
        0 < w <= 65535,
        0 < h <= 65535,
        curr.len() == 4 * w * h,
        fb1.len() == fb2.len(),
        fb1.len() == w * h,
        forall|j: int| 0 <= j < tiles.len() ==> tile_payload_ok(#[trigger] tiles[j], curr, w, h),
        forall|tx: int, ty: int|
            0 <= tx < w && 0 <= ty < h && #[trigger] (tx % 32) == 0 && #[trigger] (ty % 32) == 0
                ==> exists|j: int|
                0 <= j < tiles.len() && (#[trigger] tiles[j]).x == tx && tiles[j].y == ty,
    ensures
        forall|i: int|
            0 <= i < fb1.len() ==> #[trigger] apply_tiles_spec(fb1, tiles, w)[i]
                == apply_tiles_spec(fb2, tiles, w)[i],
{
    assert forall|i: int| 0 <= i < fb1.len() implies #[trigger] apply_tiles_spec(fb1, tiles, w)[i]
        == apply_tiles_spec(fb2, tiles, w)[i] by {
        lemma_full_list_covers(tiles, curr, i, w, h);
        lemma_refresh_converges(fb1, fb2, tiles, w, i);
    }
}

} // verus!
