//! Lane routing: the fixed offsets that single out a layer's own lane.

use vstd::prelude::*;

verus! {

/// Offset of the mix-down gate: `4` on the layer's own lane, `-4` elsewhere.
pub fn pre_off(layer: usize, lane: usize, lanes: usize) -> (off: i32)
    requires
        lanes != 0,
    ensures
        off == if lane == layer % lanes {
            4i32
        } else {
            -4i32
        },
{
    if lane == layer % lanes {
        4
    } else {
        -4
    }
}

/// Offset of the scatter gate: `0` on the layer's own lane, `-4` elsewhere.
pub fn post_off(layer: usize, lane: usize, lanes: usize) -> (off: i32)
    requires
        lanes != 0,
    ensures
        off == if lane == layer % lanes {
            0i32
        } else {
            -4i32
        },
{
    if lane == layer % lanes {
        0
    } else {
        -4
    }
}

} // verus!
