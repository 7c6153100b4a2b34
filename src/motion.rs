//! The motion model: one tick of phase changes, velocity and position for each
//! live droplet.
use vstd::prelude::*;
use crate::droplet::{Droplet, motion_ready, SIZE_LIMIT, MOTION_LIMIT};
use crate::fixed::{SCALE, trunc_div, fixed_product, fixed_mul};
use crate::random::random_below;

verus! {

/// Gravity applied during one tick, in fixed-point units per tick.
#[derive(Clone, Copy, Debug, PartialEq, Eq, Structural)]
pub struct Gravity {
    pub x: i64,
    pub y: i64,
}

/// Largest magnitude of a per-tick gravity component.
pub const GRAVITY_LIMIT: i64 = 0x100_0000_0000;

pub open spec fn gravity_ready(g: Gravity) -> bool {
    &&& -GRAVITY_LIMIT <= g.x <= GRAVITY_LIMIT
    &&& -GRAVITY_LIMIT <= g.y <= GRAVITY_LIMIT
}

/// A speed component scaled by the damping factor nine tenths, toward zero.
pub open spec fn damped(v: int) -> int {
    trunc_div(v * 9, 10)
}

/// The countdown drawn for a droplet of `size` from the uniform draw
/// `frac / SCALE` in `[0, 1)`: the floor of `size * draw * 100` in whole units.
pub open spec fn seed_of(size: int, frac: int) -> int {
    (size * frac * 100) / (SCALE as int * SCALE as int)
}

/// Steps 1 and 2 of a tick: the phase decision, then the countdown step.
pub open spec fn phase_changed(d: Droplet, frac: int) -> Droplet {
    let d1 = if d.collided {
        Droplet {
            collided: false,
            seed: seed_of(d.size as int, frac) as i32,
            skipping: false,
            slowing: false,
            ..d
        }
    } else if d.seed <= 0 {
        Droplet {
            seed: seed_of(d.size as int, frac) as i32,
            skipping: !d.skipping,
            slowing: true,
            ..d
        }
    } else {
        d
    };
    Droplet { seed: (d1.seed - 1) as i32, ..d1 }
}

/// The velocity update of a tick.
pub open spec fn accelerated(d: Droplet, g: Gravity) -> Droplet {
    if d.y_speed > 0 {
        if d.slowing {
            let ys = damped(d.y_speed as int);
            Droplet {
                y_speed: ys as i64,
                x_speed: damped(d.x_speed as int) as i64,
                slowing: ys >= g.y,
                ..d
            }
        } else if d.skipping {
            Droplet { y_speed: g.y, x_speed: g.x, ..d }
        } else {
            Droplet {
                y_speed: (d.y_speed + fixed_product(g.y as int, d.size as int)) as i64,
                x_speed: (d.x_speed + fixed_product(g.x as int, d.size as int)) as i64,
                ..d
            }
        }
    } else {
        Droplet { y_speed: g.y, x_speed: g.x, ..d }
    }
}

/// The position update of a tick: down by the vertical speed, across by the
/// horizontal one.
pub open spec fn displaced(d: Droplet) -> Droplet {
    Droplet { y: (d.y - d.y_speed) as i64, x: (d.x + d.x_speed) as i64, ..d }
}

/// A droplet after one tick under gravity `g`, with `frac` the uniform draw used
/// if its countdown is drawn anew. A deleted droplet does not change.
pub open spec fn ticked(d: Droplet, g: Gravity, frac: int) -> Droplet {
    if d.deleted {
        d
    } else {
        displaced(accelerated(phase_changed(d, frac), g))
    }
}

proof fn lemma_trunc_div_bound(n: int, d: int, m: int)
    requires
        d > 0,
        m >= 0,
        -(m * d) <= n <= m * d,
    ensures
        -m <= trunc_div(n, d) <= m,
{
    if n >= 0 {
        assert(n / d <= (m * d) / d) by {
            vstd::arithmetic::div_mod::lemma_div_is_ordered(n, m * d, d);
        }
        vstd::arithmetic::div_mod::lemma_div_by_multiple(m, d);
        assert(n / d >= 0) by {
            vstd::arithmetic::div_mod::lemma_div_pos_is_pos(n, d);
        }
    } else {
        assert((-n) / d <= (m * d) / d) by {
            vstd::arithmetic::div_mod::lemma_div_is_ordered(-n, m * d, d);
        }
        vstd::arithmetic::div_mod::lemma_div_by_multiple(m, d);
        assert((-n) / d >= 0) by {
            vstd::arithmetic::div_mod::lemma_div_pos_is_pos(-n, d);
        }
    }
}

proof fn lemma_gravity_times_size(g: int, s: int)
    requires
        -GRAVITY_LIMIT <= g <= GRAVITY_LIMIT,
        0 < s <= SIZE_LIMIT,
    ensures
        -0x2000_0000_0000_0000 <= fixed_product(g, s) <= 0x2000_0000_0000_0000,
{
    assert(-(0x2000_0000_0000_0000 * SCALE) <= g * s <= 0x2000_0000_0000_0000 * SCALE)
        by (nonlinear_arith)
        requires
            -0x100_0000_0000 <= g <= 0x100_0000_0000,
            0 < s <= 0x100_0000_0000,
            SCALE == 1_000_000,
    ;
    lemma_trunc_div_bound(g * s, SCALE as int, 0x2000_0000_0000_0000);
}

/// `v` scaled by the damping factor, toward zero.
pub fn damp(v: i64) -> (r: i64)
    requires
        -MOTION_LIMIT <= v <= MOTION_LIMIT,
    ensures
        r == damped(v as int),
        -MOTION_LIMIT <= r <= MOTION_LIMIT,
{
    proof {
        lemma_trunc_div_bound(v * 9, 10, MOTION_LIMIT as int);
    }
    let n: i128 = (v as i128) * 9;
    if n >= 0 {
        ((n as u128) / 10) as i64
    } else {
        -((((-n) as u128) / 10) as i128) as i64
    }
}

/// The countdown drawn for a droplet of `size` from the draw `frac`.
pub fn draw_seed(size: i64, frac: u64) -> (r: i32)
    requires
        0 < size <= SIZE_LIMIT,
        frac < SCALE,
    ensures
        r == seed_of(size as int, frac as int),
        r >= 0,
{
    assert(size * frac * 100 <= 0x100_0000_0000 * 1_000_000 * 100) by (nonlinear_arith)
        requires
            0 < size <= 0x100_0000_0000,
            0 <= frac < 1_000_000,
    ;
    let n: u128 = (size as u128) * (frac as u128) * 100;
    let r: u128 = n / 1_000_000_000_000;
    assert(r <= 0x100_0000_0000 * 1_000_000 * 100 / 1_000_000_000_000) by {
        vstd::arithmetic::div_mod::lemma_div_is_ordered(
            n as int,
            0x100_0000_0000int * 1_000_000 * 100,
            1_000_000_000_000int,
        );
    }
    r as i32
}

/// Advances one droplet by one tick under gravity `g`, with `frac` the uniform
/// draw (in millionths) used if its countdown is drawn anew.
pub fn tick(d: &mut Droplet, g: Gravity, frac: u64)
    requires
        old(d).deleted || motion_ready(*old(d)),
        gravity_ready(g),
        frac < SCALE,
    ensures
        *final(d) == ticked(*old(d), g, frac as int),
{
    if d.deleted {
        return;
    }
    if d.collided {
        d.collided = false;
        d.seed = draw_seed(d.size, frac);
        d.skipping = false;
        d.slowing = false;
    } else if d.seed <= 0 {
        d.seed = draw_seed(d.size, frac);
        d.skipping = !d.skipping;
        d.slowing = true;
    }
    d.seed = d.seed - 1;
    if d.y_speed > 0 {
        if d.slowing {
            d.y_speed = damp(d.y_speed);
            d.x_speed = damp(d.x_speed);
            if d.y_speed < g.y {
                d.slowing = false;
            }
        } else if d.skipping {
            d.y_speed = g.y;
            d.x_speed = g.x;
        } else {
            proof {
                lemma_gravity_times_size(g.y as int, d.size as int);
                lemma_gravity_times_size(g.x as int, d.size as int);
            }
            d.y_speed = d.y_speed + fixed_mul(g.y, d.size);
            d.x_speed = d.x_speed + fixed_mul(g.x, d.size);
        }
    } else {
        d.y_speed = g.y;
        d.x_speed = g.x;
    }
    d.y = d.y - d.y_speed;
    d.x = d.x + d.x_speed;
}

/// Gravity per second, in fixed-point units: vertical (downward) and horizontal.
#[derive(Clone, Copy, Debug, PartialEq, Eq, Structural)]
pub struct GravityConfig {
    pub per_second_y: i64,
    pub per_second_x: i64,
}

/// Largest magnitude of a per-second gravity factor (about sixteen units).
pub const FACTOR_LIMIT: i64 = 0x100_0000;

/// Longest tick the motion model takes, in microseconds (about nine hours).
pub const DT_LIMIT: u64 = 0x8_0000_0000;

pub open spec fn config_ready(c: GravityConfig) -> bool {
    &&& -FACTOR_LIMIT <= c.per_second_y <= FACTOR_LIMIT
    &&& -FACTOR_LIMIT <= c.per_second_x <= FACTOR_LIMIT
}

/// The gravity of a tick that lasted `dt` microseconds: each factor times the
/// elapsed seconds.
pub open spec fn gravity_of(c: GravityConfig, dt: int) -> Gravity {
    Gravity {
        x: fixed_product(c.per_second_x as int, dt) as i64,
        y: fixed_product(c.per_second_y as int, dt) as i64,
    }
}

impl GravityConfig {
    /// The standard field: a fifth of a unit per second downward, none across.
    pub fn standard() -> (c: GravityConfig)
        ensures
            c == (GravityConfig { per_second_y: 200_000, per_second_x: 0 }),
            config_ready(c),
    {
        GravityConfig { per_second_y: 200_000, per_second_x: 0 }
    }
}

proof fn lemma_factor_times_dt(f: int, dt: int)
    requires
        -FACTOR_LIMIT <= f <= FACTOR_LIMIT,
        0 <= dt <= DT_LIMIT,
    ensures
        -GRAVITY_LIMIT <= fixed_product(f, dt) <= GRAVITY_LIMIT,
{
    assert(-(GRAVITY_LIMIT * SCALE) <= f * dt <= GRAVITY_LIMIT * SCALE) by (nonlinear_arith)
        requires
            -0x100_0000 <= f <= 0x100_0000,
            0 <= dt <= 0x8_0000_0000,
            SCALE == 1_000_000,
            GRAVITY_LIMIT == 0x100_0000_0000,
    ;
    lemma_trunc_div_bound(f * dt, SCALE as int, GRAVITY_LIMIT as int);
}

/// The gravity of a tick that lasted `dt` microseconds.
pub fn gravity_for(c: GravityConfig, dt: u64) -> (g: Gravity)
    requires
        config_ready(c),
        dt <= DT_LIMIT,
    ensures
        g == gravity_of(c, dt as int),
        gravity_ready(g),
{
    proof {
        lemma_factor_times_dt(c.per_second_x as int, dt as int);
        lemma_factor_times_dt(c.per_second_y as int, dt as int);
    }
    Gravity { x: fixed_mul(c.per_second_x, dt as i64), y: fixed_mul(c.per_second_y, dt as i64) }
}

/// Every droplet is deleted or within the motion model's range.
pub open spec fn field_ready(ds: Seq<Droplet>) -> bool {
    forall|i: int| 0 <= i < ds.len() ==> (#[trigger] ds[i]).deleted || motion_ready(ds[i])
}

/// Whether every droplet is deleted or within the motion model's range.
pub fn is_field_ready(droplets: &Vec<Droplet>) -> (r: bool)
    ensures
        r == field_ready(droplets@),
{
    let mut i: usize = 0;
    while i < droplets.len()
        invariant
            i <= droplets@.len(),
            forall|j: int| 0 <= j < i ==> (#[trigger] droplets@[j]).deleted || motion_ready(droplets@[j]),
        decreases droplets@.len() - i,
    {
        let d = droplets[i];
        if !d.deleted && !(0 < d.size && d.size <= SIZE_LIMIT && -MOTION_LIMIT <= d.x && d.x
            <= MOTION_LIMIT && -MOTION_LIMIT <= d.y && d.y <= MOTION_LIMIT && -MOTION_LIMIT
            <= d.x_speed && d.x_speed <= MOTION_LIMIT && -MOTION_LIMIT <= d.y_speed && d.y_speed
            <= MOTION_LIMIT) {
            return false;
        }
        i = i + 1;
    }
    true
}

/// A live droplet that moves: the collision index must follow it.
pub open spec fn moves(d: Droplet) -> bool {
    !d.deleted && (d.x_speed != 0 || d.y_speed != 0)
}

/// The slots among the first `n` whose droplet moves, in increasing order.
pub open spec fn moving_slots(ds: Seq<Droplet>, n: int) -> Seq<usize>
    decreases n,
{
    if n <= 0 {
        seq![]
    } else if moves(ds[n - 1]) {
        moving_slots(ds, n - 1).push((n - 1) as usize)
    } else {
        moving_slots(ds, n - 1)
    }
}

proof fn lemma_moving_slots_prefix(a: Seq<Droplet>, b: Seq<Droplet>, n: int)
    requires
        0 <= n <= a.len(),
        n <= b.len(),
        forall|j: int| 0 <= j < n ==> a[j] == b[j],
    ensures
        moving_slots(a, n) == moving_slots(b, n),
    decreases n,
{
    if n > 0 {
        lemma_moving_slots_prefix(a, b, n - 1);
    }
}

/// `after` is `before` advanced by one tick under gravity `g`, droplet `i`
/// using the uniform draw `fracs[i]`.
pub open spec fn field_ticked(before: Seq<Droplet>, after: Seq<Droplet>, g: Gravity, fracs: Seq<u64>) -> bool {
    &&& after.len() == before.len()
    &&& fracs.len() == before.len()
    &&& forall|i: int| 0 <= i < fracs.len() ==> fracs[i] < SCALE
    &&& forall|i: int|
        0 <= i < before.len() ==> after[i] == ticked(#[trigger] before[i], g, fracs[i] as int)
}

/// Advances every droplet by one tick under gravity `g`; droplet `i` uses the
/// draw `fracs[i]`. Returns the slots of the droplets that move afterwards.
pub fn advance_droplets(droplets: &mut Vec<Droplet>, g: Gravity, fracs: &Vec<u64>) -> (moving: Vec<usize>)
    requires
        field_ready(old(droplets)@),
        gravity_ready(g),
        fracs@.len() == old(droplets)@.len(),
        forall|i: int| 0 <= i < fracs@.len() ==> fracs@[i] < SCALE,
    ensures
        final(droplets)@.len() == old(droplets)@.len(),
        forall|i: int|
            0 <= i < old(droplets)@.len() ==> final(droplets)@[i] == ticked(
                #[trigger] old(droplets)@[i],
                g,
                fracs@[i] as int,
            ),
        moving@ == moving_slots(final(droplets)@, final(droplets)@.len() as int),
{
    let ghost start = droplets@;
    let mut moving: Vec<usize> = Vec::new();
    let mut i: usize = 0;
    while i < droplets.len()
        invariant
            droplets@.len() == start.len(),
            fracs@.len() == start.len(),
            i <= start.len(),
            field_ready(start),
            gravity_ready(g),
            forall|j: int| 0 <= j < fracs@.len() ==> fracs@[j] < SCALE,
            forall|j: int| 0 <= j < i ==> droplets@[j] == ticked(#[trigger] start[j], g, fracs@[j] as int),
            forall|j: int| i <= j < start.len() ==> droplets@[j] == start[j],
            moving@ == moving_slots(droplets@, i as int),
        decreases start.len() - i,
    {
        let mut d = droplets[i];
        assert(start[i as int].deleted || motion_ready(start[i as int]));
        tick(&mut d, g, fracs[i]);
        let ghost before = droplets@;
        droplets.set(i, d);
        proof {
            lemma_moving_slots_prefix(before, droplets@, i as int);
        }
        if !d.deleted && (d.x_speed != 0 || d.y_speed != 0) {
            moving.push(i);
        }
        i = i + 1;
    }
    moving
}

/// Advances every droplet by one tick that lasted `dt` microseconds, drawing
/// each droplet's uniform value from the thread's random generator. Returns the
/// slots of the droplets that move afterwards. A tick in which no time passed
/// is a zero-motion tick: no droplet changes and none is reported as moving.
pub fn gravity_non_linear(droplets: &mut Vec<Droplet>, c: GravityConfig, dt: u64) -> (moving: Vec<usize>)
    requires
        field_ready(old(droplets)@),
        config_ready(c),
        dt <= DT_LIMIT,
    ensures
        final(droplets)@.len() == old(droplets)@.len(),
        dt == 0 ==> final(droplets)@ == old(droplets)@ && moving@.len() == 0,
        dt > 0 ==> exists|fracs: Seq<u64>|
            #[trigger] field_ticked(old(droplets)@, final(droplets)@, gravity_of(c, dt as int), fracs),
        dt > 0 ==> moving@ == moving_slots(final(droplets)@, final(droplets)@.len() as int),
{
    if dt == 0 {
        return Vec::new();
    }
    let g = gravity_for(c, dt);
    let mut fracs: Vec<u64> = Vec::new();
    let mut i: usize = 0;
    while i < droplets.len()
        invariant
            i <= droplets@.len(),
            fracs@.len() == i,
            forall|j: int| 0 <= j < fracs@.len() ==> fracs@[j] < SCALE,
        decreases droplets@.len() - i,
    {
        let f = random_below(SCALE as u64);
        fracs.push(f);
        i = i + 1;
    }
    let moving = advance_droplets(droplets, g, &fracs);
    assert(field_ticked(old(droplets)@, droplets@, g, fracs@));
    moving
}

/// In the accelerating phase (neither slowing nor skipping, no fresh merge, the
/// countdown still running) and under non-negative vertical gravity, a tick does
/// not decrease the vertical speed and leaves the droplet accelerating.
pub proof fn lemma_fall_monotonic(d: Droplet, g: Gravity, frac: int)
    requires
        motion_ready(d),
        gravity_ready(g),
        g.y >= 0,
        !d.deleted,
        !d.collided,
        !d.slowing,
        !d.skipping,
        d.seed > 0,
    ensures
        ticked(d, g, frac).y_speed >= d.y_speed,
        !ticked(d, g, frac).slowing,
        !ticked(d, g, frac).skipping,
{
    if d.y_speed > 0 {
        assert(g.y * d.size >= 0) by (nonlinear_arith)
            requires
                g.y >= 0,
                d.size > 0,
        ;
        lemma_gravity_times_size(g.y as int, d.size as int);
        assert(fixed_product(g.y as int, d.size as int) >= 0);
    }
}

/// A deleted droplet is left exactly as it is by a tick.
pub proof fn lemma_deleted_inert(d: Droplet, g: Gravity, frac: int)
    requires
        d.deleted,
    ensures
        ticked(d, g, frac) == d,
{
}

/// When the countdown has run out and no merge intervened, a tick flips
/// `skipping` and starts slowing.
pub proof fn lemma_expiry_toggles(d: Droplet, g: Gravity, frac: int)
    requires
        !d.deleted,
        !d.collided,
        d.seed <= 0,
    ensures
        ticked(d, g, frac).skipping == !d.skipping,
        !ticked(d, g, frac).collided,
        !ticked(d, g, frac).deleted,
{
}

/// While the countdown runs and no merge intervened, a tick keeps `skipping`.
pub proof fn lemma_countdown_keeps_skipping(d: Droplet, g: Gravity, frac: int)
    requires
        !d.deleted,
        !d.collided,
        d.seed > 0,
    ensures
        ticked(d, g, frac).skipping == d.skipping,
        !ticked(d, g, frac).collided,
        !ticked(d, g, frac).deleted,
{
}

/// The droplet after the first `n` ticks of a run: tick `k` has gravity `gs[k]`
/// and draw `fracs[k]`.
pub open spec fn ticks(d: Droplet, gs: Seq<Gravity>, fracs: Seq<int>, n: nat) -> Droplet
    decreases n,
{
    if n == 0 {
        d
    } else {
        ticked(ticks(d, gs, fracs, (n - 1) as nat), gs[n - 1], fracs[n - 1])
    }
}

proof fn lemma_accelerating_run(d: Droplet, g: Gravity, gs: Seq<Gravity>, fracs: Seq<int>, k: nat)
    requires
        gravity_ready(g),
        g.y >= 0,
        forall|j: int| 0 <= j < gs.len() ==> gs[j] == g,
        k <= gs.len(),
        !d.deleted,
        !d.collided,
        !d.slowing,
        !d.skipping,
        d.seed >= gs.len(),
        forall|j: nat| j < gs.len() ==> motion_ready(#[trigger] ticks(d, gs, fracs, j)),
    ensures
        ({
            let dk = ticks(d, gs, fracs, k);
            &&& !dk.deleted && !dk.collided && !dk.slowing && !dk.skipping
            &&& dk.seed == d.seed - k
        }),
        k < gs.len() ==> ticks(d, gs, fracs, k + 1).y_speed >= ticks(d, gs, fracs, k).y_speed,
    decreases k,
{
    if k > 0 {
        lemma_accelerating_run(d, g, gs, fracs, (k - 1) as nat);
    }
    if k < gs.len() {
        let dk = ticks(d, gs, fracs, k);
        assert(motion_ready(dk));
        lemma_fall_monotonic(dk, g, fracs[k as int]);
    }
}

/// Over a run of ticks under one non-negative vertical gravity, a droplet that
/// starts accelerating, with a countdown that outlasts the run, never loses
/// vertical speed from one tick to the next.
pub proof fn lemma_fall_monotonic_run(d: Droplet, g: Gravity, gs: Seq<Gravity>, fracs: Seq<int>)
    requires
        gravity_ready(g),
        g.y >= 0,
        forall|j: int| 0 <= j < gs.len() ==> gs[j] == g,
        !d.deleted,
        !d.collided,
        !d.slowing,
        !d.skipping,
        d.seed >= gs.len(),
        forall|j: nat| j < gs.len() ==> motion_ready(#[trigger] ticks(d, gs, fracs, j)),
    ensures
        forall|k: nat|
            k < gs.len() ==> #[trigger] ticks(d, gs, fracs, k + 1).y_speed >= ticks(
                d,
                gs,
                fracs,
                k,
            ).y_speed,
{
    assert forall|k: nat| k < gs.len() implies #[trigger] ticks(d, gs, fracs, k + 1).y_speed
        >= ticks(d, gs, fracs, k).y_speed by {
        lemma_accelerating_run(d, g, gs, fracs, k);
    }
}

proof fn lemma_skipping_flipped_between(
    d: Droplet,
    gs: Seq<Gravity>,
    fracs: Seq<int>,
    n: nat,
    k: nat,
)
    requires
        !d.deleted,
        !d.collided,
        d.seed <= 0,
        1 <= k < n,
        forall|j: nat| 1 <= j < n - 1 ==> (#[trigger] ticks(d, gs, fracs, j)).seed > 0,
    ensures
        ticks(d, gs, fracs, k).skipping == !d.skipping,
        !ticks(d, gs, fracs, k).collided,
        !ticks(d, gs, fracs, k).deleted,
    decreases k,
{
    if k == 1 {
        assert(ticks(d, gs, fracs, 0) == d);
        lemma_expiry_toggles(d, gs[0], fracs[0]);
    } else {
        let p = (k - 1) as nat;
        lemma_skipping_flipped_between(d, gs, fracs, n, p);
        assert(ticks(d, gs, fracs, p).seed > 0);
        lemma_countdown_keeps_skipping(ticks(d, gs, fracs, p), gs[p as int], fracs[p as int]);
    }
}

/// Two consecutive natural expirations of the countdown (no merge, and no
/// expiration in between) bring `skipping` back to its value before the first.
pub proof fn lemma_two_expiries_restore(d: Droplet, gs: Seq<Gravity>, fracs: Seq<int>, n: nat)
    requires
        n >= 2,
        gs.len() >= n,
        fracs.len() >= n,
        !d.deleted,
        !d.collided,
        d.seed <= 0,
        forall|j: nat| 1 <= j < n - 1 ==> (#[trigger] ticks(d, gs, fracs, j)).seed > 0,
        ticks(d, gs, fracs, (n - 1) as nat).seed <= 0,
    ensures
        ticks(d, gs, fracs, n).skipping == d.skipping,
{
    let p = (n - 1) as nat;
    lemma_skipping_flipped_between(d, gs, fracs, n, p);
    lemma_expiry_toggles(ticks(d, gs, fracs, p), gs[p as int], fracs[p as int]);
}

} // verus!
