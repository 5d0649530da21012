//! The integer side of canyon generation and of the dithered banks: when a
//! slice carries a fuel depot, and which colour a dither cell takes.
//! Wall positions and the density threshold are floating point and stay
//! with the renderer.

use vstd::prelude::*;

verus! {

/// Slices before the first fuel depot.
pub const DEPOT_INITIAL_COUNTDOWN: u32 = 15;

/// Fewest slices between two depots.
pub const DEPOT_INTERVAL_MIN: u32 = 12;

/// The countdown after a depot is drawn below this.
pub const DEPOT_INTERVAL_MAX: u32 = 28;

/// `macroquad::rand::gen_range` on `u32`: it scales a 32-bit random draw
/// into `[low, high)` in `f64` and truncates. For bounds up to 65536 the
/// scaled value stays below `high`, so the result lies in `[low, high)`.
/// Which value comes out depends on the generator's state.
#[verifier::external_body]
fn random_u32_in(low: u32, high: u32) -> (r: u32)
    requires
        low < high <= 65536,
    ensures
        low <= r < high,
{
    macroquad::rand::gen_range(low, high)
}

/// When slices carry a fuel depot: a countdown of depot-less slices.
pub struct DepotSchedule {
    pub countdown: u32,
}

impl DepotSchedule {
    /// The first depot comes after `DEPOT_INITIAL_COUNTDOWN` slices.
    pub fn new() -> (d: Self)
        ensures
            d.countdown == DEPOT_INITIAL_COUNTDOWN,
    {
        DepotSchedule { countdown: DEPOT_INITIAL_COUNTDOWN }
    }

    /// One generated slice: it carries a depot when the countdown has run
    /// out, and the countdown restarts from `fresh`; otherwise the countdown
    /// goes down by one. `fresh` matters only when a depot is placed.
    pub fn advance_with(&mut self, fresh: u32) -> (depot: bool)
        ensures
            depot == (old(self).countdown == 0),
            depot ==> final(self).countdown == fresh,
            !depot ==> final(self).countdown == old(self).countdown - 1,
    {
        if self.countdown == 0 {
            self.countdown = fresh;
            true
        } else {
            self.countdown = self.countdown - 1;
            false
        }
    }

    /// One generated slice, drawing the next interval at random in
    /// `[DEPOT_INTERVAL_MIN, DEPOT_INTERVAL_MAX)` when a depot is placed:
    /// between two depots lie from 12 to 27 slices without one.
    pub fn advance(&mut self) -> (depot: bool)
        ensures
            depot == (old(self).countdown == 0),
            depot ==> DEPOT_INTERVAL_MIN <= final(self).countdown < DEPOT_INTERVAL_MAX,
            !depot ==> final(self).countdown == old(self).countdown - 1,
    {
        let fresh = if self.countdown == 0 {
            random_u32_in(DEPOT_INTERVAL_MIN, DEPOT_INTERVAL_MAX)
        } else {
            0
        };
        self.advance_with(fresh)
    }
}

/// The checkerboard half of the dither: cells whose coordinates add up to
/// an even number.
pub fn dither_bayer(cx: i32, cy: i32) -> (b: bool)
    requires
        i32::MIN <= cx + cy <= i32::MAX,
    ensures
        b == ((cx + cy) % 2 == 0),
{
    let s = cx + cy;
    let b = (s & 1) == 0;
    assert(((s & 1) == 0) == (s % 2 == 0)) by (bit_vector);
    b
}

/// The low byte of the 32-bit two's-complement product `v * k`.
pub open spec fn low_byte_of_product(v: i32, k: nat) -> u8 {
    (((v as u32) as nat * k) % 256) as u8
}

/// The per-cell jitter byte of the dither: the low byte of
/// `cx * 7919 XOR cy * 6151` in 32-bit wrapping arithmetic.
pub fn dither_jitter(cx: i32, cy: i32) -> (j: u8)
    ensures
        j == low_byte_of_product(cx, 7919) ^ low_byte_of_product(cy, 6151),
{
    let a = (cx as u32).wrapping_mul(7919);
    let b = (cy as u32).wrapping_mul(6151);
    let x = (a ^ b) & 0xff;
    proof {
        let ua = (cx as u32) as nat * 7919;
        let ub = (cy as u32) as nat * 6151;
        vstd::arithmetic::div_mod::lemma_mod_mod(ua as int, 256, 0x1000000);
        vstd::arithmetic::div_mod::lemma_mod_mod(ub as int, 256, 0x1000000);
        assert(a as nat == ua % 0x100000000);
        assert(b as nat == ub % 0x100000000);
        assert(a % 256 == ua % 256);
        assert(b % 256 == ub % 256);
        assert(((a ^ b) & 0xff) == ((a % 256) as u8 ^ (b % 256) as u8) as u32) by (bit_vector);
    }
    x as u8
}

} // verus!
