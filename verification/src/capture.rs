//! Frame source: supplies fixed-resolution 4-channel pixel buffers. This
//! one synthesizes a moving test pattern — a bar sweeping over a gradient —
//! from the wall-clock milliseconds the caller passes in, so the pattern
//! itself is a pure function of its inputs.

use vstd::prelude::*;

verus! {

/// The byte at index `i` of the pattern: a 50-pixel bar at `offset` in
/// every row, over a coordinate gradient background, 4 bytes per pixel.
pub open spec fn pattern_byte(width: int, offset: int, i: int) -> u8 {
    let p = i / 4;
    let ch = i % 4;
    let x = p % width;
    let y = p / width;
    if offset <= x < offset + 50 {
        if ch == 0 || ch == 3 {
            255
        } else {
            0
        }
    } else {
        if ch == 0 {
            (x % 255) as u8
        } else if ch == 1 {
            (y % 255) as u8
        } else if ch == 2 {
            100
        } else {
            255
        }
    }
}

/// A fixed-resolution frame source.
pub struct ScreenCapturer {
    pub width: usize,
    pub height: usize,
}

impl ScreenCapturer {
    /// The mirrored display's fixed resolution.
    pub fn new() -> (r: ScreenCapturer)
        ensures
            r.width == 1920,
            r.height == 1080,
    {
        ScreenCapturer { width: 1920, height: 1080 }
    }

    /// Produces one frame of the moving pattern for the given clock
    /// reading: the bar advances one pixel every ten milliseconds and
    /// wraps at the right edge.
    pub fn capture_frame(&self, timestamp_millis: u64) -> (r: Vec<u8>)
        requires
            1 <= self.width <= 65535,
            1 <= self.height <= 65535,
            4 * self.width * self.height <= usize::MAX,
        ensures
            r@.len() == 4 * self.width * self.height,
            forall|i: int|
                0 <= i < r@.len() ==> r@[i] == pattern_byte(
                    self.width as int,
                    (timestamp_millis / 10) as int % self.width as int,
                    i,
                ),
    {
        let offset: usize = ((timestamp_millis / 10) % (self.width as u64)) as usize;
        let ghost off: int = (timestamp_millis / 10) as int % self.width as int;
        proof {
            assert(offset == off);
        }
        let total: usize = 4 * self.width * self.height;
        let mut out: Vec<u8> = Vec::new();
        let mut i: usize = 0;
        while i < total
            invariant
                i <= total,
                1 <= self.width <= 65535,
                1 <= self.height <= 65535,
                total == 4 * self.width * self.height,
                offset == off,
                out@.len() == i,
                forall|j: int|
                    0 <= j < i ==> out@[j] == pattern_byte(self.width as int, off, j),
            decreases total - i,
        {
            let p = i / 4;
            let ch = i % 4;
            let x = p % self.width;
            let y = p / self.width;
            let b: u8 = if offset <= x && x < offset + 50 {
                if ch == 0 || ch == 3 {
                    255
                } else {
                    0
                }
            } else {
                if ch == 0 {
                    (x % 255) as u8
                } else if ch == 1 {
                    (y % 255) as u8
                } else if ch == 2 {
                    100
                } else {
                    255
                }
            };
            proof {
                assert(b == pattern_byte(self.width as int, off, i as int));
            }
            out.push(b);
            i = i + 1;
        }
        out
    }
}

} // verus!
