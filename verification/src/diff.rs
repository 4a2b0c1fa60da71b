//! Tile diff engine: partitions a frame into a fixed grid, finds the tiles
//! whose pixels changed against the retained snapshot, copies each changed
//! tile into the snapshot so later frames diff against the just-sent state,
//! and hands the changed tiles to the encoder. Trailing partial tiles are
//! clipped — nothing is ever read out of bounds — and extraction pads them
//! with a fixed fill value.

use crate::codec::check_tile_complexity;
use crate::codec::encode_tile;
use crate::codec::lossless_encoding_of;
use crate::protocol::TileData;
use crate::protocol::TileView;
use crate::TILE_SIZE;
use vstd::arithmetic::div_mod::lemma_fundamental_div_mod;
use vstd::arithmetic::div_mod::lemma_fundamental_div_mod_converse;
use vstd::prelude::*;

verus! {

/// Tile columns actually inside the frame: the edge tile is clipped.
pub open spec fn clip_w(tx: int, width: int) -> int {
    if tx + TILE_SIZE <= width {
        TILE_SIZE as int
    } else {
        width - tx
    }
}

/// Tile rows actually inside the frame.
pub open spec fn clip_h(ty: int, height: int) -> int {
    if ty + TILE_SIZE <= height {
        TILE_SIZE as int
    } else {
        height - ty
    }
}

/// Frame-buffer byte index of channel byte `col` in row `row` of the tile
/// anchored at (tx, ty), in a 4-channel frame of the given width.
pub open spec fn frame_byte_index(tx: int, ty: int, row: int, col: int, width: int) -> int {
    ((ty + row) * width + tx) * 4 + col
}

/// Whether the tile at (tx, ty) holds different pixels in the two buffers,
/// comparing only bytes inside the frame.
pub open spec fn spec_tile_changed(
    curr: Seq<u8>,
    prev: Seq<u8>,
    tx: int,
    ty: int,
    width: int,
    height: int,
) -> bool {
    exists|row: int, col: int|
        0 <= row < clip_h(ty, height) && 0 <= col < 4 * clip_w(tx, width) && curr[#[trigger] frame_byte_index(
            tx,
            ty,
            row,
            col,
            width,
        )] != prev[frame_byte_index(tx, ty, row, col, width)]
}

/// Whether byte index `i` lies inside the clipped region of the tile at
/// (tx, ty).
pub open spec fn in_tile(i: int, tx: int, ty: int, width: int, height: int) -> bool {
    exists|row: int, col: int|
        0 <= row < clip_h(ty, height) && 0 <= col < 4 * clip_w(tx, width) && i
            == #[trigger] frame_byte_index(tx, ty, row, col, width)
}

/// Every byte of a tile's clipped region stays inside the frame buffer.
proof fn lemma_frame_index_bound(tx: int, ty: int, row: int, col: int, width: int, height: int)
    requires
        0 <= tx < width,
        0 <= ty,
        0 <= row,
        ty + row < height,
        0 <= col < 4 * clip_w(tx, width),
    ensures
        0 <= frame_byte_index(tx, ty, row, col, width),
        frame_byte_index(tx, ty, row, col, width) < 4 * width * height,
{
    let py = ty + row;
    assert(0 <= ((py * width) + tx) * 4 + col && ((py * width) + tx) * 4 + col < 4 * width
        * height) by (nonlinear_arith)
        requires
            0 <= py,
            py < height,
            0 <= tx,
            0 <= col,
            4 * tx + col < 4 * width,
    ;
}

/// Compares the tile at (x, y) between capture and snapshot, row by row
/// with early exit on the first mismatch.
pub fn is_tile_changed(
    curr: &Vec<u8>,
    prev: &Vec<u8>,
    x: usize,
    y: usize,
    width: usize,
    height: usize,
) -> (r: bool)
    requires
        width <= 65535,
        height <= 65535,
        x < width,
        y < height,
        curr@.len() == 4 * width * height,
        prev@.len() == curr@.len(),
    ensures
        r == spec_tile_changed(curr@, prev@, x as int, y as int, width as int, height as int),
{
    let cw = if x + TILE_SIZE <= width {
        TILE_SIZE
    } else {
        width - x
    };
    let mut row: usize = 0;
    while row < TILE_SIZE && y + row < height
        invariant
            row <= TILE_SIZE,
            width <= 65535,
            height <= 65535,
            x < width,
            y < height,
            curr@.len() == 4 * width * height,
            prev@.len() == curr@.len(),
            cw == clip_w(x as int, width as int),
            forall|r2: int, c2: int|
                0 <= r2 < row && r2 < clip_h(y as int, height as int) && 0 <= c2 < 4 * clip_w(
                    x as int,
                    width as int,
                ) ==> curr@[#[trigger] frame_byte_index(x as int, y as int, r2, c2, width as int)]
                    == prev@[frame_byte_index(x as int, y as int, r2, c2, width as int)],
        decreases TILE_SIZE - row,
    {
        let _total: usize = curr.len();
        proof {
            lemma_frame_index_bound(x as int, y as int, row as int, 0, width as int, height as int);
            assert(0 <= (y + row) as int * (width as int)) by (nonlinear_arith)
                requires
                    0 <= (y + row) as int,
                    0 <= width as int,
            ;
        }
        let base = ((y + row) * width + x) * 4;
        let mut col: usize = 0;
        while col < 4 * cw
            invariant
                col <= 4 * cw,
                row < TILE_SIZE,
                y + row < height,
                width <= 65535,
                height <= 65535,
                x < width,
                y < height,
                curr@.len() == 4 * width * height,
                prev@.len() == curr@.len(),
                cw == clip_w(x as int, width as int),
                base == ((y + row) * width + x) * 4,
                forall|c2: int|
                    0 <= c2 < col ==> curr@[#[trigger] frame_byte_index(
                        x as int,
                        y as int,
                        row as int,
                        c2,
                        width as int,
                    )] == prev@[frame_byte_index(x as int, y as int, row as int, c2, width as int)],
            decreases 4 * cw - col,
        {
            proof {
                lemma_frame_index_bound(
                    x as int,
                    y as int,
                    row as int,
                    col as int,
                    width as int,
                    height as int,
                );
            }
            let _total2: usize = curr.len();
            if curr[base + col] != prev[base + col] {
                return true;
            }
            col = col + 1;
        }
        row = row + 1;
    }
    proof {
        assert(!spec_tile_changed(curr@, prev@, x as int, y as int, width as int, height as int))
            by {
            assert forall|r2: int, c2: int|
                0 <= r2 < clip_h(y as int, height as int) && 0 <= c2 < 4 * clip_w(
                    x as int,
                    width as int,
                ) implies curr@[#[trigger] frame_byte_index(
                x as int,
                y as int,
                r2,
                c2,
                width as int,
            )] == prev@[frame_byte_index(x as int, y as int, r2, c2, width as int)] by {}
        }
    }
    false
}

/// Copies the tile at (x, y) from the capture into the snapshot, clipped to
/// the frame; every byte outside the tile keeps its value.
pub fn copy_tile_to_prev(
    curr: &Vec<u8>,
    prev: &mut Vec<u8>,
    x: usize,
    y: usize,
    width: usize,
    height: usize,
)
    requires
        width <= 65535,
        height <= 65535,
        x < width,
        y < height,
        curr@.len() == 4 * width * height,
        old(prev)@.len() == curr@.len(),
    ensures
        final(prev)@.len() == old(prev)@.len(),
        forall|i: int|
            0 <= i < old(prev)@.len() ==> #[trigger] final(prev)@[i] == if in_tile(
                i,
                x as int,
                y as int,
                width as int,
                height as int,
            ) {
                curr@[i]
            } else {
                old(prev)@[i]
            },
{
    let ghost prev0: Seq<u8> = prev@;
    let cw = if x + TILE_SIZE <= width {
        TILE_SIZE
    } else {
        width - x
    };
    let mut row: usize = 0;
    while row < TILE_SIZE && y + row < height
        invariant
            row <= TILE_SIZE,
            width <= 65535,
            height <= 65535,
            x < width,
            y < height,
            curr@.len() == 4 * width * height,
            prev0.len() == curr@.len(),
            prev@.len() == prev0.len(),
            cw == clip_w(x as int, width as int),
            forall|i: int|
                0 <= i < prev0.len() ==> #[trigger] prev@[i] == if copied_upto(
                    i,
                    x as int,
                    y as int,
                    width as int,
                    height as int,
                    row as int,
                    0,
                ) {
                    curr@[i]
                } else {
                    prev0[i]
                },
        decreases TILE_SIZE - row,
    {
        let _total: usize = curr.len();
        proof {
            lemma_frame_index_bound(x as int, y as int, row as int, 0, width as int, height as int);
            assert(0 <= (y + row) as int * (width as int)) by (nonlinear_arith)
                requires
                    0 <= (y + row) as int,
                    0 <= width as int,
            ;
        }
        let base = ((y + row) * width + x) * 4;
        let mut col: usize = 0;
        while col < 4 * cw
            invariant
                col <= 4 * cw,
                row < TILE_SIZE,
                y + row < height,
                width <= 65535,
                height <= 65535,
                x < width,
                y < height,
                curr@.len() == 4 * width * height,
                prev0.len() == curr@.len(),
                prev@.len() == prev0.len(),
                cw == clip_w(x as int, width as int),
                base == ((y + row) * width + x) * 4,
                forall|i: int|
                    0 <= i < prev0.len() ==> #[trigger] prev@[i] == if copied_upto(
                        i,
                        x as int,
                        y as int,
                        width as int,
                        height as int,
                        row as int,
                        col as int,
                    ) {
                        curr@[i]
                    } else {
                        prev0[i]
                    },
            decreases 4 * cw - col,
        {
            proof {
                lemma_frame_index_bound(
                    x as int,
                    y as int,
                    row as int,
                    col as int,
                    width as int,
                    height as int,
                );
            }
            let _total2: usize = curr.len();
            let idx = base + col;
            let v = curr[idx];
            prev[idx] = v;
            proof {
                assert forall|i: int| 0 <= i < prev0.len() implies #[trigger] prev@[i]
                    == if copied_upto(
                    i,
                    x as int,
                    y as int,
                    width as int,
                    height as int,
                    row as int,
                    col as int + 1,
                ) {
                    curr@[i]
                } else {
                    prev0[i]
                } by {
                    if i == idx as int {
                        assert(copied_upto(
                            i,
                            x as int,
                            y as int,
                            width as int,
                            height as int,
                            row as int,
                            col as int + 1,
                        )) by {
                            assert(i == frame_byte_index(
                                x as int,
                                y as int,
                                row as int,
                                col as int,
                                width as int,
                            ));
                        }
                    } else {
                        assert(copied_upto(
                            i,
                            x as int,
                            y as int,
                            width as int,
                            height as int,
                            row as int,
                            col as int + 1,
                        ) == copied_upto(
                            i,
                            x as int,
                            y as int,
                            width as int,
                            height as int,
                            row as int,
                            col as int,
                        )) by {
                            lemma_copied_upto_step(
                                i,
                                x as int,
                                y as int,
                                width as int,
                                height as int,
                                row as int,
                                col as int,
                                idx as int,
                            );
                        }
                    }
                }
            }
            col = col + 1;
        }
        proof {
            assert forall|i: int| 0 <= i < prev0.len() implies #[trigger] copied_upto(
                i,
                x as int,
                y as int,
                width as int,
                height as int,
                row as int,
                4 * clip_w(x as int, width as int),
            ) == copied_upto(
                i,
                x as int,
                y as int,
                width as int,
                height as int,
                row as int + 1,
                0,
            ) by {}
        }
        row = row + 1;
    }
    proof {
        if y as int + TILE_SIZE as int <= height as int {
            assert(TILE_SIZE as int == clip_h(y as int, height as int));
        }
        assert forall|i: int| 0 <= i < prev0.len() implies #[trigger] in_tile(
            i,
            x as int,
            y as int,
            width as int,
            height as int,
        ) == copied_upto(
            i,
            x as int,
            y as int,
            width as int,
            height as int,
            clip_h(y as int, height as int),
            0,
        ) by {}
        assert forall|i: int| 0 <= i < prev0.len() implies #[trigger] prev@[i] == if in_tile(
            i,
            x as int,
            y as int,
            width as int,
            height as int,
        ) {
            curr@[i]
        } else {
            prev0[i]
        } by {}
    }
}

/// The bytes already copied by the loops: full rows before `row`, then the
/// first `col` channel bytes of `row`.
spec fn copied_upto(
    i: int,
    tx: int,
    ty: int,
    width: int,
    height: int,
    row: int,
    col: int,
) -> bool {
    exists|r2: int, c2: int|
        0 <= r2 < clip_h(ty, height) && 0 <= c2 < 4 * clip_w(tx, width) && (r2 < row || (r2 == row
            && c2 < col)) && i == #[trigger] frame_byte_index(tx, ty, r2, c2, width)
}

/// One copy step extends the copied region by exactly the byte it wrote.
proof fn lemma_copied_upto_step(
    i: int,
    tx: int,
    ty: int,
    width: int,
    height: int,
    row: int,
    col: int,
    idx: int,
)
    requires
        0 <= tx < width,
        0 <= ty,
        0 <= row < clip_h(ty, height),
        0 <= col < 4 * clip_w(tx, width),
        idx == frame_byte_index(tx, ty, row, col, width),
        i != idx,
    ensures
        copied_upto(i, tx, ty, width, height, row, col + 1) == copied_upto(
            i,
            tx,
            ty,
            width,
            height,
            row,
            col,
        ),
{
    if copied_upto(i, tx, ty, width, height, row, col + 1) {
        let (r2, c2) = choose|r2: int, c2: int|
            0 <= r2 < clip_h(ty, height) && 0 <= c2 < 4 * clip_w(tx, width) && (r2 < row || (r2
                == row && c2 < col + 1)) && i == #[trigger] frame_byte_index(tx, ty, r2, c2, width);
        if r2 == row && c2 == col {
            assert(i == idx);
        } else {
            assert(r2 < row || (r2 == row && c2 < col));
            assert(copied_upto(i, tx, ty, width, height, row, col));
        }
    }
}

/// The payload extracted for one tile: tile-edge² pixels of 4 channel
/// bytes, taken from the frame where the tile overlaps it and padded with
/// a fixed fill value beyond the frame's edges.
pub open spec fn extract_spec(curr: Seq<u8>, tx: int, ty: int, width: int, height: int) -> Seq<
    u8,
> {
    Seq::new(
        (TILE_SIZE * TILE_SIZE * 4) as nat,
        |p: int|
            {
                let row = p / (4 * TILE_SIZE as int);
                let col = p % (4 * TILE_SIZE as int);
                if row < clip_h(ty, height) && col < 4 * clip_w(tx, width) {
                    curr[frame_byte_index(tx, ty, row, col, width)]
                } else {
                    0u8
                }
            },
    )
}

/// Copies one tile's pixels out of the frame into a fixed-size payload,
/// padding clipped rows and columns with the fill value.
pub fn extract_tile(curr: &Vec<u8>, x: usize, y: usize, width: usize, height: usize) -> (r: Vec<
    u8,
>)
    requires
        width <= 65535,
        height <= 65535,
        x < width,
        y < height,
        curr@.len() == 4 * width * height,
    ensures
        r@ == extract_spec(curr@, x as int, y as int, width as int, height as int),
{
    let ghost xs: Seq<u8> = extract_spec(curr@, x as int, y as int, width as int, height as int);
    let cw = if x + TILE_SIZE <= width {
        TILE_SIZE
    } else {
        width - x
    };
    let mut out: Vec<u8> = Vec::new();
    let mut row: usize = 0;
    while row < TILE_SIZE
        invariant
            row <= TILE_SIZE,
            width <= 65535,
            height <= 65535,
            x < width,
            y < height,
            curr@.len() == 4 * width * height,
            cw == clip_w(x as int, width as int),
            xs == extract_spec(curr@, x as int, y as int, width as int, height as int),
            out@.len() == row * 128,
            forall|p: int| 0 <= p < out@.len() ==> out@[p] == xs[p],
        decreases TILE_SIZE - row,
    {
        let mut col: usize = 0;
        while col < 128
            invariant
                col <= 128,
                row < TILE_SIZE,
                width <= 65535,
                height <= 65535,
                x < width,
                y < height,
                curr@.len() == 4 * width * height,
                cw == clip_w(x as int, width as int),
                xs == extract_spec(curr@, x as int, y as int, width as int, height as int),
                out@.len() == row * 128 + col,
                forall|p: int| 0 <= p < out@.len() ==> out@[p] == xs[p],
            decreases 128 - col,
        {
            let v: u8 = if y + row < height && col < 4 * cw {
                let _total: usize = curr.len();
                proof {
                    lemma_frame_index_bound(
                        x as int,
                        y as int,
                        row as int,
                        col as int,
                        width as int,
                        height as int,
                    );
                    assert(0 <= (y + row) as int * (width as int)) by (nonlinear_arith)
                        requires
                            0 <= (y + row) as int,
                            0 <= width as int,
                    ;
                }
                curr[((y + row) * width + x) * 4 + col]
            } else {
                0
            };
            proof {
                lemma_fundamental_div_mod_converse(
                    row as int * 128 + col as int,
                    128,
                    row as int,
                    col as int,
                );
                assert(xs[row as int * 128 + col as int] == v);
            }
            out.push(v);
            col = col + 1;
        }
        row = row + 1;
    }
    proof {
        assert(out@ =~= xs);
    }
    out
}

/// Two grid anchors within one tile edge of each other coincide.
proof fn lemma_aligned_close(a: int, b: int)
    requires
        a % 32 == 0,
        b % 32 == 0,
        b - 32 < a < b + 32,
    ensures
        a == b,
{
    lemma_fundamental_div_mod(a, 32);
    lemma_fundamental_div_mod(b, 32);
    assert(a == b) by (nonlinear_arith)
        requires
            a == 32 * (a / 32) + a % 32,
            b == 32 * (b / 32) + b % 32,
            a % 32 == 0,
            b % 32 == 0,
            b - 32 < a < b + 32,
    ;
}

/// A grid anchor below another anchor plus one edge is at most that anchor.
proof fn lemma_aligned_le(a: int, b: int)
    requires
        a % 32 == 0,
        b % 32 == 0,
        a < b + 32,
    ensures
        a <= b,
{
    lemma_fundamental_div_mod(a, 32);
    lemma_fundamental_div_mod(b, 32);
    assert(a <= b) by (nonlinear_arith)
        requires
            a == 32 * (a / 32) + a % 32,
            b == 32 * (b / 32) + b % 32,
            a % 32 == 0,
            b % 32 == 0,
            a < b + 32,
    ;
}

/// Distinct grid tiles own disjoint byte regions.
proof fn lemma_regions_disjoint(
    i: int,
    tx1: int,
    ty1: int,
    tx2: int,
    ty2: int,
    width: int,
    height: int,
)
    requires
        0 <= tx1 < width,
        0 <= ty1 < height,
        tx1 % 32 == 0,
        ty1 % 32 == 0,
        0 <= tx2 < width,
        0 <= ty2 < height,
        tx2 % 32 == 0,
        ty2 % 32 == 0,
        !(tx1 == tx2 && ty1 == ty2),
        in_tile(i, tx1, ty1, width, height),
    ensures
        !in_tile(i, tx2, ty2, width, height),
{
    if in_tile(i, tx2, ty2, width, height) {
        let (r1, c1) = choose|r1: int, c1: int|
            0 <= r1 < clip_h(ty1, height) && 0 <= c1 < 4 * clip_w(tx1, width) && i
                == #[trigger] frame_byte_index(tx1, ty1, r1, c1, width);
        let (r2, c2) = choose|r2: int, c2: int|
            0 <= r2 < clip_h(ty2, height) && 0 <= c2 < 4 * clip_w(tx2, width) && i
                == #[trigger] frame_byte_index(tx2, ty2, r2, c2, width);
        assert(ty1 + r1 == ty2 + r2 && 4 * tx1 + c1 == 4 * tx2 + c2) by (nonlinear_arith)
            requires
                ((ty1 + r1) * width + tx1) * 4 + c1 == ((ty2 + r2) * width + tx2) * 4 + c2,
                0 <= 4 * tx1 + c1 < 4 * width,
                0 <= 4 * tx2 + c2 < 4 * width,
                0 <= ty1 + r1,
                0 <= ty2 + r2,
                0 < width,
        ;
        lemma_aligned_close(ty1, ty2);
        lemma_aligned_close(tx1, tx2);
        assert(false);
    }
}

/// Grid positions strictly before (tx, ty) in row-major order.
pub open spec fn grid_before(tx2: int, ty2: int, tx: int, ty: int) -> bool {
    ty2 < ty || (ty2 == ty && tx2 < tx)
}

/// One emitted tile: grid-aligned, inside the frame, and carrying a
/// lossless encoding of the capture's pixels at its position.
pub open spec fn tile_payload_ok(t: TileView, curr: Seq<u8>, width: int, height: int) -> bool {
    &&& t.x as int % 32 == 0
    &&& t.y as int % 32 == 0
    &&& (t.x as int) < width
    &&& (t.y as int) < height
    &&& t.data.len() <= TILE_SIZE * TILE_SIZE * 4
    &&& lossless_encoding_of(
        extract_spec(curr, t.x as int, t.y as int, width, height),
        t.compression,
        t.data,
    )
}

/// One tile the diff pass emits: a sound payload for a tile that truly
/// changed against the old snapshot.
pub open spec fn tile_entry_ok(
    t: TileView,
    curr: Seq<u8>,
    prev0: Seq<u8>,
    width: int,
    height: int,
) -> bool {
    &&& tile_payload_ok(t, curr, width, height)
    &&& spec_tile_changed(curr, prev0, t.x as int, t.y as int, width, height)
}

/// Diffs one captured frame against the retained snapshot. Returns the
/// changed tiles, losslessly encoded, in row-major grid order, exactly one
/// entry per changed tile; copies each changed tile into the snapshot, so
/// that afterwards no grid tile differs between capture and snapshot — a
/// second pass over the same capture therefore returns an empty list.
#[verifier::rlimit(100)]
pub fn process_frame(curr: &Vec<u8>, prev: &mut Vec<u8>, width: usize, height: usize) -> (r: Vec<
    TileData,
>)
    requires
        width <= 65535,
        height <= 65535,
        curr@.len() == 4 * width * height,
        old(prev)@.len() == curr@.len(),
    ensures
        final(prev)@.len() == old(prev)@.len(),
        forall|tx: int, ty: int|
            0 <= tx < width && 0 <= ty < height && tx % 32 == 0 && ty % 32 == 0
                ==> !#[trigger] spec_tile_changed(
                curr@,
                final(prev)@,
                tx,
                ty,
                width as int,
                height as int,
            ),
        forall|j: int|
            0 <= j < r@.len() ==> tile_entry_ok(
                (#[trigger] r@[j])@,
                curr@,
                old(prev)@,
                width as int,
                height as int,
            ),
        forall|tx: int, ty: int|
            0 <= tx < width && 0 <= ty < height && tx % 32 == 0 && ty % 32 == 0
                && #[trigger] spec_tile_changed(
                curr@,
                old(prev)@,
                tx,
                ty,
                width as int,
                height as int,
            ) ==> exists|j: int|
                0 <= j < r@.len() && (#[trigger] r@[j])@.x == tx && r@[j]@.y == ty,
        forall|j1: int, j2: int|
            #![trigger r@[j1], r@[j2]]
            0 <= j1 < j2 < r@.len() ==> (r@[j1]@.y < r@[j2]@.y || (r@[j1]@.y == r@[j2]@.y
                && r@[j1]@.x < r@[j2]@.x)),
{
    let ghost prev0: Seq<u8> = prev@;
    let ghost w: int = width as int;
    let ghost h: int = height as int;
    let mut changes: Vec<TileData> = Vec::new();
    let mut ty: usize = 0;
    while ty < height
        invariant
            ty % 32 == 0,
            width <= 65535,
            height <= 65535,
            w == width as int,
            h == height as int,
            curr@.len() == 4 * width * height,
            prev0.len() == curr@.len(),
            prev@.len() == prev0.len(),
            prev0 == old(prev)@,
            forall|tx2: int, ty2: int|
                0 <= tx2 < w && 0 <= ty2 < h && tx2 % 32 == 0 && ty2 % 32 == 0 && grid_before(
                    tx2,
                    ty2,
                    0,
                    ty as int,
                ) ==> !#[trigger] spec_tile_changed(curr@, prev@, tx2, ty2, w, h),
            forall|tx2: int, ty2: int, row: int, col: int|
                0 <= tx2 < w && 0 <= ty2 < h && tx2 % 32 == 0 && ty2 % 32 == 0 && !grid_before(
                    tx2,
                    ty2,
                    0,
                    ty as int,
                ) && 0 <= row < clip_h(ty2, h) && 0 <= col < 4 * clip_w(tx2, w)
                    ==> prev@[#[trigger] frame_byte_index(tx2, ty2, row, col, w)]
                    == prev0[frame_byte_index(tx2, ty2, row, col, w)],
            forall|j: int|
                0 <= j < changes@.len() ==> tile_entry_ok((#[trigger] changes@[j])@, curr@, prev0, w, h),
            forall|tx2: int, ty2: int|
                0 <= tx2 < w && 0 <= ty2 < h && tx2 % 32 == 0 && ty2 % 32 == 0 && grid_before(
                    tx2,
                    ty2,
                    0,
                    ty as int,
                ) && #[trigger] spec_tile_changed(curr@, prev0, tx2, ty2, w, h) ==> exists|j: int|
                    0 <= j < changes@.len() && (#[trigger] changes@[j])@.x == tx2 && changes@[j]@.y
                        == ty2,
            forall|j: int|
                0 <= j < changes@.len() ==> grid_before(
                    (#[trigger] changes@[j])@.x as int,
                    changes@[j]@.y as int,
                    0,
                    ty as int,
                ),
            forall|j1: int, j2: int|
                #![trigger changes@[j1], changes@[j2]]
                0 <= j1 < j2 < changes@.len() ==> (changes@[j1]@.y < changes@[j2]@.y || (
                changes@[j1]@.y == changes@[j2]@.y && changes@[j1]@.x < changes@[j2]@.x)),
        decreases height + 32 - ty,
    {
        let mut tx: usize = 0;
        while tx < width
            invariant
                tx % 32 == 0,
                ty % 32 == 0,
                ty < height,
                width <= 65535,
                height <= 65535,
                w == width as int,
                h == height as int,
                curr@.len() == 4 * width * height,
                prev0.len() == curr@.len(),
                prev@.len() == prev0.len(),
                prev0 == old(prev)@,
                forall|tx2: int, ty2: int|
                    0 <= tx2 < w && 0 <= ty2 < h && tx2 % 32 == 0 && ty2 % 32 == 0 && grid_before(
                        tx2,
                        ty2,
                        tx as int,
                        ty as int,
                    ) ==> !#[trigger] spec_tile_changed(curr@, prev@, tx2, ty2, w, h),
                forall|tx2: int, ty2: int, row: int, col: int|
                    0 <= tx2 < w && 0 <= ty2 < h && tx2 % 32 == 0 && ty2 % 32 == 0 && !grid_before(
                        tx2,
                        ty2,
                        tx as int,
                        ty as int,
                    ) && 0 <= row < clip_h(ty2, h) && 0 <= col < 4 * clip_w(tx2, w)
                        ==> prev@[#[trigger] frame_byte_index(tx2, ty2, row, col, w)]
                        == prev0[frame_byte_index(tx2, ty2, row, col, w)],
                forall|j: int|
                    0 <= j < changes@.len() ==> tile_entry_ok(
                        (#[trigger] changes@[j])@,
                        curr@,
                        prev0,
                        w,
                        h,
                    ),
                forall|tx2: int, ty2: int|
                    0 <= tx2 < w && 0 <= ty2 < h && tx2 % 32 == 0 && ty2 % 32 == 0 && grid_before(
                        tx2,
                        ty2,
                        tx as int,
                        ty as int,
                    ) && #[trigger] spec_tile_changed(curr@, prev0, tx2, ty2, w, h) ==> exists|
                        j: int,
                    |
                        0 <= j < changes@.len() && (#[trigger] changes@[j])@.x == tx2
                            && changes@[j]@.y == ty2,
                forall|j: int|
                    0 <= j < changes@.len() ==> grid_before(
                        (#[trigger] changes@[j])@.x as int,
                        changes@[j]@.y as int,
                        tx as int,
                        ty as int,
                    ),
                forall|j1: int, j2: int|
                    #![trigger changes@[j1], changes@[j2]]
                    0 <= j1 < j2 < changes@.len() ==> (changes@[j1]@.y < changes@[j2]@.y || (
                    changes@[j1]@.y == changes@[j2]@.y && changes@[j1]@.x < changes@[j2]@.x)),
            decreases width + 32 - tx,
        {
            proof {
                assert forall|row: int, col: int|
                    0 <= row < clip_h(ty as int, h) && 0 <= col < 4 * clip_w(tx as int, w) implies
                    prev@[#[trigger] frame_byte_index(tx as int, ty as int, row, col, w)]
                        == prev0[frame_byte_index(tx as int, ty as int, row, col, w)] by {}
                assert(spec_tile_changed(curr@, prev@, tx as int, ty as int, w, h)
                    == spec_tile_changed(curr@, prev0, tx as int, ty as int, w, h)) by {
                    if spec_tile_changed(curr@, prev@, tx as int, ty as int, w, h) {
                        let (row, col) = choose|row: int, col: int|
                            0 <= row < clip_h(ty as int, h) && 0 <= col < 4 * clip_w(tx as int, w)
                                && curr@[#[trigger] frame_byte_index(
                                tx as int,
                                ty as int,
                                row,
                                col,
                                w,
                            )] != prev@[frame_byte_index(tx as int, ty as int, row, col, w)];
                        assert(curr@[frame_byte_index(tx as int, ty as int, row, col, w)]
                            != prev0[frame_byte_index(tx as int, ty as int, row, col, w)]);
                    }
                    if spec_tile_changed(curr@, prev0, tx as int, ty as int, w, h) {
                        let (row, col) = choose|row: int, col: int|
                            0 <= row < clip_h(ty as int, h) && 0 <= col < 4 * clip_w(tx as int, w)
                                && curr@[#[trigger] frame_byte_index(
                                tx as int,
                                ty as int,
                                row,
                                col,
                                w,
                            )] != prev0[frame_byte_index(tx as int, ty as int, row, col, w)];
                        assert(curr@[frame_byte_index(tx as int, ty as int, row, col, w)]
                            != prev@[frame_byte_index(tx as int, ty as int, row, col, w)]);
                    }
                }
            }
            let ghost prev_in: Seq<u8> = prev@;
            if is_tile_changed(curr, prev, tx, ty, width, height) {
                copy_tile_to_prev(curr, prev, tx, ty, width, height);
                let raw = extract_tile(curr, tx, ty, width, height);
                let enc = encode_tile(raw, None);
                let ghost before_push: Seq<TileData> = changes@;
                changes.push(TileData { x: tx as u16, y: ty as u16, compression: enc.0, data: enc.1 });
                proof {
                    lemma_process_step_changed(
                        curr@,
                        prev_in,
                        prev@,
                        tx as int,
                        ty as int,
                        w,
                        h,
                    );
                    assert forall|tx2: int, ty2: int|
                        0 <= tx2 < w && 0 <= ty2 < h && tx2 % 32 == 0 && ty2 % 32 == 0 && (
                        grid_before(tx2, ty2, tx as int, ty as int) || (tx2 == tx as int && ty2
                            == ty as int)) implies !#[trigger] spec_tile_changed(
                        curr@,
                        prev@,
                        tx2,
                        ty2,
                        w,
                        h,
                    ) by {
                        if !(tx2 == tx as int && ty2 == ty as int) {
                            assert(!spec_tile_changed(curr@, prev_in, tx2, ty2, w, h));
                        }
                    }
                    let ghost newj: int = changes@.len() - 1;
                    assert(changes@[newj]@.x == tx as u16 && changes@[newj]@.y == ty as u16);
                    assert forall|tx2: int, ty2: int|
                        0 <= tx2 < w && 0 <= ty2 < h && tx2 % 32 == 0 && ty2 % 32 == 0 && (
                        grid_before(tx2, ty2, tx as int, ty as int) || (tx2 == tx as int && ty2
                            == ty as int)) && #[trigger] spec_tile_changed(
                        curr@,
                        prev0,
                        tx2,
                        ty2,
                        w,
                        h,
                    ) implies exists|j: int|
                        0 <= j < changes@.len() && (#[trigger] changes@[j])@.x == tx2
                            && changes@[j]@.y == ty2 by {
                        if tx2 == tx as int && ty2 == ty as int {
                            assert(0 <= newj < changes@.len() && changes@[newj]@.x == tx2
                                && changes@[newj]@.y == ty2);
                        } else {
                            let j0 = choose|j: int|
                                0 <= j < before_push.len() && (#[trigger] before_push[j])@.x == tx2
                                    && before_push[j]@.y == ty2;
                            assert(changes@[j0] == before_push[j0]);
                            assert(0 <= j0 < changes@.len() && changes@[j0]@.x == tx2
                                && changes@[j0]@.y == ty2);
                        }
                    }
                }
            } else {
                proof {
                    assert forall|tx2: int, ty2: int|
                        0 <= tx2 < w && 0 <= ty2 < h && tx2 % 32 == 0 && ty2 % 32 == 0 && (
                        grid_before(tx2, ty2, tx as int, ty as int) || (tx2 == tx as int && ty2
                            == ty as int)) implies !#[trigger] spec_tile_changed(
                        curr@,
                        prev@,
                        tx2,
                        ty2,
                        w,
                        h,
                    ) by {}
                }
            }
            tx = tx + 32;
            proof {
                assert forall|tx2: int, ty2: int|
                    0 <= tx2 < w && 0 <= ty2 < h && tx2 % 32 == 0 && ty2 % 32 == 0 && grid_before(
                        tx2,
                        ty2,
                        tx as int,
                        ty as int,
                    ) && !grid_before(tx2, ty2, tx as int - 32, ty as int) implies tx2 == tx as int
                    - 32 && ty2 == ty as int by {
                    lemma_aligned_close(tx2, tx as int - 32);
                }
            }
        }
        proof {
            assert forall|tx2: int, ty2: int|
                0 <= tx2 < w && 0 <= ty2 < h && tx2 % 32 == 0 && ty2 % 32 == 0 && grid_before(
                    tx2,
                    ty2,
                    0,
                    ty as int + 32,
                ) implies grid_before(tx2, ty2, tx as int, ty as int) by {
                if ty2 == ty as int {
                    assert(tx2 < tx as int);
                } else {
                    lemma_aligned_le(ty2, ty as int);
                }
            }
        }
        ty = ty + 32;
    }
    proof {
        assert forall|tx2: int, ty2: int|
            0 <= tx2 < w && 0 <= ty2 < h && tx2 % 32 == 0 && ty2 % 32 == 0 implies grid_before(
            tx2,
            ty2,
            0,
            ty as int,
        ) by {}
    }
    changes
}

/// Emits every grid tile of the frame, changed or not — the periodic
/// full-frame refresh that bounds the lifetime of pixel corruption from a
/// lost batch — and syncs the snapshot to the capture as it goes.
pub fn refresh_frame(curr: &Vec<u8>, prev: &mut Vec<u8>, width: usize, height: usize) -> (r: Vec<
    TileData,
>)
    requires
        width <= 65535,
        height <= 65535,
        curr@.len() == 4 * width * height,
        old(prev)@.len() == curr@.len(),
    ensures
        final(prev)@.len() == old(prev)@.len(),
        forall|tx: int, ty: int|
            0 <= tx < width && 0 <= ty < height && tx % 32 == 0 && ty % 32 == 0
                ==> !#[trigger] spec_tile_changed(
                curr@,
                final(prev)@,
                tx,
                ty,
                width as int,
                height as int,
            ),
        forall|j: int|
            0 <= j < r@.len() ==> tile_payload_ok(
                (#[trigger] r@[j])@,
                curr@,
                width as int,
                height as int,
            ),
        forall|tx: int, ty: int|
            0 <= tx < width && 0 <= ty < height && #[trigger] (tx % 32) == 0 && #[trigger] (ty
                % 32) == 0 ==> exists|j: int|
                0 <= j < r@.len() && (#[trigger] r@[j])@.x == tx && r@[j]@.y == ty,
{
    let ghost w: int = width as int;
    let ghost h: int = height as int;
    let mut changes: Vec<TileData> = Vec::new();
    let mut ty: usize = 0;
    while ty < height
        invariant
            ty % 32 == 0,
            width <= 65535,
            height <= 65535,
            w == width as int,
            h == height as int,
            curr@.len() == 4 * width * height,
            prev@.len() == curr@.len(),
            forall|tx2: int, ty2: int|
                0 <= tx2 < w && 0 <= ty2 < h && tx2 % 32 == 0 && ty2 % 32 == 0 && grid_before(
                    tx2,
                    ty2,
                    0,
                    ty as int,
                ) ==> !#[trigger] spec_tile_changed(curr@, prev@, tx2, ty2, w, h),
            forall|j: int|
                0 <= j < changes@.len() ==> tile_payload_ok((#[trigger] changes@[j])@, curr@, w, h),
            forall|tx2: int, ty2: int|
                0 <= tx2 < w && 0 <= ty2 < h && #[trigger] (tx2 % 32) == 0 && #[trigger] (ty2 % 32)
                    == 0 && grid_before(tx2, ty2, 0, ty as int) ==> exists|j: int|
                    0 <= j < changes@.len() && (#[trigger] changes@[j])@.x == tx2 && changes@[j]@.y
                        == ty2,
        decreases height + 32 - ty,
    {
        let mut tx: usize = 0;
        while tx < width
            invariant
                tx % 32 == 0,
                ty % 32 == 0,
                ty < height,
                width <= 65535,
                height <= 65535,
                w == width as int,
                h == height as int,
                curr@.len() == 4 * width * height,
                prev@.len() == curr@.len(),
                forall|tx2: int, ty2: int|
                    0 <= tx2 < w && 0 <= ty2 < h && tx2 % 32 == 0 && ty2 % 32 == 0 && grid_before(
                        tx2,
                        ty2,
                        tx as int,
                        ty as int,
                    ) ==> !#[trigger] spec_tile_changed(curr@, prev@, tx2, ty2, w, h),
                forall|j: int|
                    0 <= j < changes@.len() ==> tile_payload_ok(
                        (#[trigger] changes@[j])@,
                        curr@,
                        w,
                        h,
                    ),
                forall|tx2: int, ty2: int|
                    0 <= tx2 < w && 0 <= ty2 < h && #[trigger] (tx2 % 32) == 0 && #[trigger] (ty2
                        % 32) == 0 && grid_before(tx2, ty2, tx as int, ty as int) ==> exists|
                        j: int,
                    |
                        0 <= j < changes@.len() && (#[trigger] changes@[j])@.x == tx2
                            && changes@[j]@.y == ty2,
            decreases width + 32 - tx,
        {
            let ghost prev_in: Seq<u8> = prev@;
            let ghost before_push: Seq<TileData> = changes@;
            copy_tile_to_prev(curr, prev, tx, ty, width, height);
            let raw = extract_tile(curr, tx, ty, width, height);
            let enc = encode_tile(raw, None);
            changes.push(TileData { x: tx as u16, y: ty as u16, compression: enc.0, data: enc.1 });
            proof {
                lemma_process_step_changed(curr@, prev_in, prev@, tx as int, ty as int, w, h);
                assert forall|tx2: int, ty2: int|
                    0 <= tx2 < w && 0 <= ty2 < h && tx2 % 32 == 0 && ty2 % 32 == 0 && (grid_before(
                        tx2,
                        ty2,
                        tx as int,
                        ty as int,
                    ) || (tx2 == tx as int && ty2 == ty as int)) implies
                    !#[trigger] spec_tile_changed(curr@, prev@, tx2, ty2, w, h) by {
                    if !(tx2 == tx as int && ty2 == ty as int) {
                        assert(!spec_tile_changed(curr@, prev_in, tx2, ty2, w, h));
                    }
                }
                let ghost newj: int = changes@.len() - 1;
                assert(changes@[newj]@.x == tx as u16 && changes@[newj]@.y == ty as u16);
                assert forall|tx2: int, ty2: int|
                    0 <= tx2 < w && 0 <= ty2 < h && #[trigger] (tx2 % 32) == 0 && #[trigger] (ty2
                        % 32) == 0 && (grid_before(tx2, ty2, tx as int, ty as int) || (tx2 == tx
                        as int && ty2 == ty as int)) implies exists|j: int|
                        0 <= j < changes@.len() && (#[trigger] changes@[j])@.x == tx2
                            && changes@[j]@.y == ty2 by {
                    if tx2 == tx as int && ty2 == ty as int {
                        assert(0 <= newj < changes@.len() && changes@[newj]@.x == tx2
                            && changes@[newj]@.y == ty2);
                    } else {
                        let j0 = choose|j: int|
                            0 <= j < before_push.len() && (#[trigger] before_push[j])@.x == tx2
                                && before_push[j]@.y == ty2;
                        assert(changes@[j0] == before_push[j0]);
                        assert(0 <= j0 < changes@.len() && changes@[j0]@.x == tx2
                            && changes@[j0]@.y == ty2);
                    }
                }
            }
            tx = tx + 32;
            proof {
                assert forall|tx2: int, ty2: int|
                    0 <= tx2 < w && 0 <= ty2 < h && tx2 % 32 == 0 && ty2 % 32 == 0 && grid_before(
                        tx2,
                        ty2,
                        tx as int,
                        ty as int,
                    ) && !grid_before(tx2, ty2, tx as int - 32, ty as int) implies tx2 == tx as int
                    - 32 && ty2 == ty as int by {
                    lemma_aligned_close(tx2, tx as int - 32);
                }
            }
        }
        proof {
            assert forall|tx2: int, ty2: int|
                0 <= tx2 < w && 0 <= ty2 < h && tx2 % 32 == 0 && ty2 % 32 == 0 && grid_before(
                    tx2,
                    ty2,
                    0,
                    ty as int + 32,
                ) implies grid_before(tx2, ty2, tx as int, ty as int) by {
                if ty2 == ty as int {
                    assert(tx2 < tx as int);
                } else {
                    lemma_aligned_le(ty2, ty as int);
                }
            }
        }
        ty = ty + 32;
    }
    proof {
        assert forall|tx2: int, ty2: int|
            0 <= tx2 < w && 0 <= ty2 < h && tx2 % 32 == 0 && ty2 % 32 == 0 implies grid_before(
            tx2,
            ty2,
            0,
            ty as int,
        ) by {}
    }
    changes
}

/// Facts established by copying one changed tile into the snapshot: the
/// tile now matches the capture, earlier tiles still match it, and every
/// untouched tile region is as it was.
proof fn lemma_process_step_changed(
    curr: Seq<u8>,
    prev_in: Seq<u8>,
    prev: Seq<u8>,
    tx: int,
    ty: int,
    w: int,
    h: int,
)
    requires
        0 <= tx < w,
        0 <= ty < h,
        w <= 65535,
        h <= 65535,
        tx % 32 == 0,
        ty % 32 == 0,
        curr.len() == 4 * w * h,
        prev_in.len() == curr.len(),
        prev.len() == prev_in.len(),
        forall|i: int|
            0 <= i < prev_in.len() ==> #[trigger] prev[i] == if in_tile(i, tx, ty, w, h) {
                curr[i]
            } else {
                prev_in[i]
            },
    ensures
        !spec_tile_changed(curr, prev, tx, ty, w, h),
        forall|tx2: int, ty2: int|
            0 <= tx2 < w && 0 <= ty2 < h && tx2 % 32 == 0 && ty2 % 32 == 0 && !(tx2 == tx && ty2
                == ty) && !#[trigger] spec_tile_changed(curr, prev_in, tx2, ty2, w, h)
                ==> !spec_tile_changed(curr, prev, tx2, ty2, w, h),
        forall|tx2: int, ty2: int, row: int, col: int|
            0 <= tx2 < w && 0 <= ty2 < h && tx2 % 32 == 0 && ty2 % 32 == 0 && !(tx2 == tx && ty2
                == ty) && 0 <= row < clip_h(ty2, h) && 0 <= col < 4 * clip_w(tx2, w)
                ==> prev[#[trigger] frame_byte_index(tx2, ty2, row, col, w)]
                == prev_in[frame_byte_index(tx2, ty2, row, col, w)],
{
    assert forall|row: int, col: int|
        0 <= row < clip_h(ty, h) && 0 <= col < 4 * clip_w(tx, w) implies curr[#[trigger] frame_byte_index(
        tx,
        ty,
        row,
        col,
        w,
    )] == prev[frame_byte_index(tx, ty, row, col, w)] by {
        let i = frame_byte_index(tx, ty, row, col, w);
        assert(in_tile(i, tx, ty, w, h));
        lemma_frame_index_bound(tx, ty, row, col, w, h);
    }
    assert forall|tx2: int, ty2: int, row: int, col: int|
        0 <= tx2 < w && 0 <= ty2 < h && tx2 % 32 == 0 && ty2 % 32 == 0 && !(tx2 == tx && ty2 == ty)
            && 0 <= row < clip_h(ty2, h) && 0 <= col < 4 * clip_w(tx2, w) implies
        prev[#[trigger] frame_byte_index(tx2, ty2, row, col, w)] == prev_in[frame_byte_index(
        tx2,
        ty2,
        row,
        col,
        w,
    )] by {
        let i = frame_byte_index(tx2, ty2, row, col, w);
        assert(in_tile(i, tx2, ty2, w, h));
        lemma_regions_disjoint(i, tx2, ty2, tx, ty, w, h);
        lemma_frame_index_bound(tx2, ty2, row, col, w, h);
    }
    assert forall|tx2: int, ty2: int|
        0 <= tx2 < w && 0 <= ty2 < h && tx2 % 32 == 0 && ty2 % 32 == 0 && !(tx2 == tx && ty2 == ty)
            && !#[trigger] spec_tile_changed(curr, prev_in, tx2, ty2, w, h) implies
        !spec_tile_changed(curr, prev, tx2, ty2, w, h) by {
        if spec_tile_changed(curr, prev, tx2, ty2, w, h) {
            let (row, col) = choose|row: int, col: int|
                0 <= row < clip_h(ty2, h) && 0 <= col < 4 * clip_w(tx2, w)
                    && curr[#[trigger] frame_byte_index(tx2, ty2, row, col, w)]
                    != prev[frame_byte_index(tx2, ty2, row, col, w)];
            let i = frame_byte_index(tx2, ty2, row, col, w);
            assert(in_tile(i, tx2, ty2, w, h));
            lemma_regions_disjoint(i, tx2, ty2, tx, ty, w, h);
            lemma_frame_index_bound(tx2, ty2, row, col, w, h);
            assert(curr[i] != prev_in[i]);
        }
    }
}

/// Law: a frame diffed against an identical snapshot flags no tile. The
/// diff pass leaves the snapshot equal to the capture on every grid tile,
/// so a second pass over the same capture flags nothing.
pub proof fn lemma_identical_frames_no_change(
    frame: Seq<u8>,
    tx: int,
    ty: int,
    width: int,
    height: int,
)
    ensures
        !spec_tile_changed(frame, frame, tx, ty, width, height),
{
}

/// Law: a diff list whose entries are all genuinely changed tiles is empty
/// whenever capture and snapshot are equal — the second of two identical
/// consecutive frames produces no traffic.
pub proof fn lemma_second_pass_empty(
    entries: Seq<TileView>,
    frame: Seq<u8>,
    width: int,
    height: int,
)
    requires
        forall|j: int|
            0 <= j < entries.len() ==> tile_entry_ok(
                #[trigger] entries[j],
                frame,
                frame,
                width,
                height,
            ),
    ensures
        entries.len() == 0,
{
    if entries.len() > 0 {
        assert(tile_entry_ok(entries[0], frame, frame, width, height));
        assert(!spec_tile_changed(
            frame,
            frame,
            entries[0].x as int,
            entries[0].y as int,
            width,
            height,
        ));
    }
}

} // verus!
