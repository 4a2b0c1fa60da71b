//! Packet batcher: packs one frame's encoded tiles into transport units,
//! greedily and in order, so that every unit's full serialized size —
//! envelope plus tiles — stays within the payload budget, and no tile is
//! ever split across two units. A tile too large for an empty unit is
//! reported back, never sent.

use crate::protocol::batch_envelope_len;
use crate::protocol::batch_wire_len;
use crate::protocol::tile_wire_len;
use crate::protocol::tiles_view;
use crate::protocol::tiles_wire_len;
use crate::protocol::TileData;
use crate::protocol::TileView;
use vstd::prelude::*;

verus! {

/// Whether one tile can travel at all: an otherwise empty unit holding
/// just this tile stays within the budget.
pub open spec fn tile_fits(t: TileView, budget: int) -> bool {
    batch_envelope_len() + tile_wire_len(t) <= budget
}

/// The tiles of `ts` that fit the budget, in their original order.
pub open spec fn fitting_tiles(ts: Seq<TileView>, budget: int) -> Seq<TileView>
    decreases ts.len(),
{
    if ts.len() == 0 {
        Seq::empty()
    } else {
        let rest = fitting_tiles(ts.drop_first(), budget);
        if tile_fits(ts[0], budget) {
            seq![ts[0]] + rest
        } else {
            rest
        }
    }
}

/// The tiles of `ts` that exceed the budget on their own, in order.
pub open spec fn oversized_tiles(ts: Seq<TileView>, budget: int) -> Seq<TileView>
    decreases ts.len(),
{
    if ts.len() == 0 {
        Seq::empty()
    } else {
        let rest = oversized_tiles(ts.drop_first(), budget);
        if tile_fits(ts[0], budget) {
            rest
        } else {
            seq![ts[0]] + rest
        }
    }
}

/// All tiles of a batch list, concatenated in order.
pub open spec fn batches_flat(bs: Seq<Vec<TileData>>) -> Seq<TileView>
    decreases bs.len(),
{
    if bs.len() == 0 {
        Seq::empty()
    } else {
        batches_flat(bs.drop_last()) + tiles_view(bs.last()@)
    }
}

/// Greedy batcher configured with the serialized-size budget of one
/// transport unit (the transport's maximum datagram payload).
pub struct PacketBatcher {
    pub budget: usize,
}

impl PacketBatcher {
    /// The budget bound is a machine limit: size sums are computed in
    /// 64-bit arithmetic.
    pub fn new(budget: usize) -> (r: PacketBatcher)
        requires
            budget <= u32::MAX,
        ensures
            r.budget == budget,
    {
        PacketBatcher { budget }
    }

    /// Packs the frame's tiles into batches. Every batch is non-empty and
    /// its whole serialized form fits the budget; the batches concatenated
    /// are exactly the tiles that fit, in order — no tile spans two
    /// batches — and the second result reports the tiles that could not
    /// travel at all.
    pub fn batch_tiles(&self, tiles: Vec<TileData>) -> (r: (Vec<Vec<TileData>>, Vec<TileData>))
        requires
            self.budget <= u32::MAX,
        ensures
            forall|b: int|
                0 <= b < r.0@.len() ==> batch_wire_len(tiles_view((#[trigger] r.0@[b])@))
                    <= self.budget,
            forall|b: int| 0 <= b < r.0@.len() ==> (#[trigger] r.0@[b])@.len() > 0,
            batches_flat(r.0@) == fitting_tiles(tiles_view(tiles@), self.budget as int),
            tiles_view(r.1@) == oversized_tiles(tiles_view(tiles@), self.budget as int),
    {
        let budget64 = self.budget as u64;
        let ghost all: Seq<TileView> = tiles_view(tiles@);
        let ghost bint: int = self.budget as int;
        let mut rest = tiles;
        let mut batches: Vec<Vec<TileData>> = Vec::new();
        let mut cur: Vec<TileData> = Vec::new();
        let mut cur_size: u64 = 0;
        let mut rejected: Vec<TileData> = Vec::new();
        let ghost k: int = 0;
        proof {
            assert(tiles_view(rest@) =~= all);
            assert(all.skip(0) =~= all);
            assert(batches_flat(batches@) + tiles_view(cur@) + fitting_tiles(all.skip(0), bint)
                =~= fitting_tiles(all, bint));
            assert(tiles_view(rejected@) + oversized_tiles(all.skip(0), bint) =~= oversized_tiles(
                all,
                bint,
            ));
        }
        while rest.len() > 0
            invariant
                0 <= k <= all.len(),
                rest@.len() == all.len() - k,
                tiles_view(rest@) == all.skip(k),
                cur_size == tiles_wire_len(tiles_view(cur@)),
                cur@.len() > 0 ==> batch_envelope_len() + cur_size <= bint,
                bint <= u32::MAX,
                bint == budget64 as int,
                forall|b: int|
                    0 <= b < batches@.len() ==> batch_wire_len(
                        tiles_view((#[trigger] batches@[b])@),
                    ) <= bint,
                forall|b: int| 0 <= b < batches@.len() ==> (#[trigger] batches@[b])@.len() > 0,
                fitting_tiles(all, bint) == batches_flat(batches@) + tiles_view(cur@)
                    + fitting_tiles(all.skip(k), bint),
                oversized_tiles(all, bint) == tiles_view(rejected@) + oversized_tiles(
                    all.skip(k),
                    bint,
                ),
            decreases rest@.len(),
        {
            proof {
                assert(tiles_view(rest@)[0] == rest@[0]@);
            }
            let t = rest.remove(0);
            proof {
                assert(all.skip(k)[0] == t@);
                assert(all.skip(k).drop_first() =~= all.skip(k + 1));
                assert(tiles_view(rest@) =~= all.skip(k + 1));
            }
            let tlen = t.data.len() as u64;
            if budget64 < 18 || tlen > budget64 - 18 {
                proof {
                    assert(!tile_fits(all.skip(k)[0], bint));
                    assert(oversized_tiles(all.skip(k), bint) == seq![t@] + oversized_tiles(
                        all.skip(k + 1),
                        bint,
                    ));
                    assert(fitting_tiles(all.skip(k), bint) == fitting_tiles(
                        all.skip(k + 1),
                        bint,
                    ));
                    assert(tiles_view(rejected@.push(t)) =~= tiles_view(rejected@) + seq![t@]);
                    assert(tiles_view(rejected@) + (seq![t@] + oversized_tiles(
                        all.skip(k + 1),
                        bint,
                    )) =~= (tiles_view(rejected@) + seq![t@]) + oversized_tiles(
                        all.skip(k + 1),
                        bint,
                    ));
                }
                rejected.push(t);
                proof {
                    k = k + 1;
                }
                continue;
            }
            proof {
                assert(tile_fits(all.skip(k)[0], bint));
                assert(fitting_tiles(all.skip(k), bint) == seq![t@] + fitting_tiles(
                    all.skip(k + 1),
                    bint,
                ));
                assert(oversized_tiles(all.skip(k), bint) == oversized_tiles(
                    all.skip(k + 1),
                    bint,
                ));
            }
            if cur.len() > 0 && 9 + cur_size + 9 + tlen > budget64 {
                proof {
                    assert(batch_wire_len(tiles_view(cur@)) <= bint);
                    assert(batches_flat(batches@.push(cur)) == batches_flat(batches@)
                        + tiles_view(cur@)) by {
                        assert(batches@.push(cur).drop_last() =~= batches@);
                    }
                }
                batches.push(cur);
                cur = Vec::new();
                cur_size = 0;
                proof {
                    assert(tiles_view(cur@) =~= Seq::<TileView>::empty());
                    assert(tiles_wire_len(tiles_view(cur@)) == 0);
                    assert(batches_flat(batches@) + Seq::<TileView>::empty() =~= batches_flat(
                        batches@,
                    ));
                }
            }
            proof {
                crate::protocol::lemma_tiles_wire_push(tiles_view(cur@), t@);
                assert(tiles_view(cur@.push(t)) =~= tiles_view(cur@).push(t@));
                assert(tiles_view(cur@).push(t@) =~= tiles_view(cur@) + seq![t@]);
                assert((batches_flat(batches@) + tiles_view(cur@)) + (seq![t@] + fitting_tiles(
                    all.skip(k + 1),
                    bint,
                )) =~= (batches_flat(batches@) + (tiles_view(cur@) + seq![t@])) + fitting_tiles(
                    all.skip(k + 1),
                    bint,
                ));
            }
            cur_size = cur_size + 9 + tlen;
            cur.push(t);
            proof {
                k = k + 1;
            }
        }
        proof {
            assert(all.skip(all.len() as int) =~= Seq::<TileView>::empty());
            assert(tiles_view(rejected@) + Seq::<TileView>::empty() =~= tiles_view(rejected@));
        }
        if cur.len() > 0 {
            proof {
                assert(batches_flat(batches@.push(cur)) == batches_flat(batches@) + tiles_view(
                    cur@,
                )) by {
                    assert(batches@.push(cur).drop_last() =~= batches@);
                }
            }
            batches.push(cur);
        } else {
            proof {
                assert(tiles_view(cur@) =~= Seq::<TileView>::empty());
                assert(batches_flat(batches@) + Seq::<TileView>::empty() =~= batches_flat(
                    batches@,
                ));
            }
        }
        (batches, rejected)
    }
}

} // verus!
