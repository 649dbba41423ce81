//! The particle model: a raindrop with a position and a combined
//! size/speed scalar, together with its per-tick update rule.

use vstd::prelude::*;

verus! {

/// A falling drop. `x` and `y` are the top-left corner of its bounding box
/// in buffer pixel coordinates; both may transiently lie outside the buffer
/// (`y` is negative right after the drop is recycled above the screen).
///
/// `z` couples visual size to fall speed: the bounding box is `z` pixels
/// tall and `z / 4` pixels wide, and the drop falls `max(z / 4, 1)` pixels
/// per tick, so larger drops are thicker and faster.
#[derive(Clone, Copy, PartialEq, Eq, Structural, Debug)]
pub struct Drop {
    pub x: i32,
    pub y: i32,
    pub z: i32,
}

/// Pixels a drop falls in one tick: `max(z / 4, 1)`, with division
/// truncating toward zero. For `z < 4` both roundings of `z / 4` fall
/// below 1, so the step is 1 and even tiny drops keep moving.
pub open spec fn step(z: int) -> int {
    if z / 4 >= 1 {
        z / 4
    } else {
        1
    }
}

/// Width of a drop's bounding box: `z / 4` pixels, truncating division,
/// so drops with `z < 4` are zero pixels wide (and hence invisible).
pub open spec fn box_width(z: int) -> int {
    if z >= 0 {
        z / 4
    } else {
        0
    }
}

/// The drop as it stands after one `update` call: moved down by its step,
/// otherwise unchanged.
pub open spec fn advanced(p: Drop) -> Drop {
    Drop { y: (p.y + step(p.z as int)) as i32, ..p }
}

/// The drop's fields stay clear of the `i32` limits that one tick of
/// simulation touches: advancing must not overflow `y`, and recycling
/// must be able to negate `z`.
pub open spec fn fits(p: Drop) -> bool {
    &&& p.y + step(p.z as int) <= i32::MAX
    &&& i32::MIN < p.z
}

/// Every drop of the sequence `fits`.
pub open spec fn all_fit(ps: Seq<Drop>) -> bool {
    forall|t: int| 0 <= t < ps.len() ==> fits(#[trigger] ps[t])
}

impl Drop {
    /// Advance the drop one tick: `y += max(z / 4, 1)`; `x` and `z` are
    /// untouched.
    pub fn update(&mut self)
        requires
            old(self).y + step(old(self).z as int) <= i32::MAX,
        ensures
            *final(self) == advanced(*old(self)),
    {
        let s: i32 = if self.z >= 4 {
            ((self.z as u32) / 4) as i32
        } else {
            1
        };
        assert(s == step(self.z as int));
        self.y = self.y + s;
    }
}

} // verus!
