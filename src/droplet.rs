//! The droplet entity.
use vstd::prelude::*;
use crate::fixed::SCALE;
use crate::random::random_below;

verus! {

/// One droplet of the field. Lengths, sizes and speeds are fixed-point values
/// (millionths of a unit); `y` decreases as the droplet falls.
#[derive(Clone, Copy, Debug, PartialEq, Eq, Structural)]
pub struct Droplet {
    pub x: i64,
    pub y: i64,
    /// Radius-like scale factor of the droplet.
    pub size: i64,
    /// Radius of the droplet's circle in the collision index.
    pub radius: i64,
    pub x_speed: i64,
    pub y_speed: i64,
    /// Ticks left before the next phase change.
    pub seed: i32,
    /// Set when the droplet has just absorbed another one.
    pub collided: bool,
    pub skipping: bool,
    pub slowing: bool,
    /// Tombstone: the droplet keeps its slot but takes no further part.
    pub deleted: bool,
}

/// Largest droplet size the motion model takes (about a million units).
pub const SIZE_LIMIT: i64 = 0x100_0000_0000;

/// Largest magnitude of a position or speed component the motion model takes.
pub const MOTION_LIMIT: i64 = 0x1000_0000_0000_0000;

/// A droplet whose values keep one tick's arithmetic within 64 bits.
pub open spec fn motion_ready(d: Droplet) -> bool {
    &&& 0 < d.size <= SIZE_LIMIT
    &&& -MOTION_LIMIT <= d.x <= MOTION_LIMIT
    &&& -MOTION_LIMIT <= d.y <= MOTION_LIMIT
    &&& -MOTION_LIMIT <= d.x_speed <= MOTION_LIMIT
    &&& -MOTION_LIMIT <= d.y_speed <= MOTION_LIMIT
}

impl Droplet {
    /// A fresh droplet at rest at `(x, y)`: its collision circle has half its size.
    pub fn new(x: i64, y: i64, size: i64) -> (d: Droplet)
        requires
            size > 0,
        ensures
            d == (Droplet {
                x,
                y,
                size,
                radius: (size / 2) as i64,
                x_speed: 0,
                y_speed: 0,
                seed: 0,
                collided: false,
                skipping: false,
                slowing: false,
                deleted: false,
            }),
    {
        Droplet {
            x,
            y,
            size,
            radius: size / 2,
            x_speed: 0,
            y_speed: 0,
            seed: 0,
            collided: false,
            skipping: false,
            slowing: false,
            deleted: false,
        }
    }
}

/// Smallest size of a freshly scattered droplet (one and a half units).
pub const SPAWN_SIZE_MIN: i64 = 1_500_000;

/// Bound, exclusive, on the size of a freshly scattered droplet (seven units).
pub const SPAWN_SIZE_END: i64 = 7_000_000;

/// A droplet as scattered at the start: at rest, within a `width` by `height`
/// field, with a size in `[SPAWN_SIZE_MIN, SPAWN_SIZE_END)`.
pub open spec fn scattered(d: Droplet, width: int, height: int) -> bool {
    &&& 0 <= d.x < width * SCALE
    &&& 0 <= d.y < height * SCALE
    &&& SPAWN_SIZE_MIN <= d.size < SPAWN_SIZE_END
    &&& d == Droplet::new_spec(d.x, d.y, d.size)
}

impl Droplet {
    pub open spec fn new_spec(x: i64, y: i64, size: i64) -> Droplet {
        Droplet {
            x,
            y,
            size,
            radius: (size / 2) as i64,
            x_speed: 0,
            y_speed: 0,
            seed: 0,
            collided: false,
            skipping: false,
            slowing: false,
            deleted: false,
        }
    }
}

/// Scatters `count` droplets at random over a field of `width` by `height`
/// units, each at rest with a random size.
pub fn scatter_droplets(count: usize, width: u32, height: u32) -> (ds: Vec<Droplet>)
    requires
        width > 0,
        height > 0,
    ensures
        ds@.len() == count,
        forall|i: int| 0 <= i < count ==> scattered(#[trigger] ds@[i], width as int, height as int),
{
    let mut ds: Vec<Droplet> = Vec::new();
    let xs: u64 = (width as u64) * (SCALE as u64);
    let ys: u64 = (height as u64) * (SCALE as u64);
    assert(xs > 0 && ys > 0) by (nonlinear_arith)
        requires
            xs == width * 1_000_000,
            ys == height * 1_000_000,
            width > 0,
            height > 0,
    ;
    let mut i: usize = 0;
    while i < count
        invariant
            i <= count,
            ds@.len() == i,
            xs == width * SCALE,
            ys == height * SCALE,
            xs > 0,
            ys > 0,
            forall|j: int| 0 <= j < i ==> scattered(#[trigger] ds@[j], width as int, height as int),
        decreases count - i,
    {
        let x = random_below(xs) as i64;
        let y = random_below(ys) as i64;
        let size = SPAWN_SIZE_MIN + random_below((SPAWN_SIZE_END - SPAWN_SIZE_MIN) as u64) as i64;
        ds.push(Droplet::new(x, y, size));
        i = i + 1;
    }
    ds
}

} // verus!
