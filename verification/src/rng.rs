//! The JKISS32 pseudo-random number generator.
//!
//! A small, fast generator combining a xorshift, an add-with-carry and a
//! Weyl sequence, seeded from four 32-bit words.  Its output stream is fully
//! specified, so every draw is reproducible.

use vstd::prelude::*;

verus! {

/// The 16-byte seed state: four 32-bit words.
#[derive(Clone, Copy, Debug, PartialEq, Eq, Structural)]
pub struct JKiss32RngSeed {
    pub x: u32,
    pub y: u32,
    pub z: u32,
    pub w: u32,
}

impl JKiss32RngSeed {
    /// The all-zero seed.
    pub fn zeroed() -> (seed: JKiss32RngSeed)
        ensures
            seed == (JKiss32RngSeed { x: 0, y: 0, z: 0, w: 0 }),
    {
        JKiss32RngSeed { x: 0, y: 0, z: 0, w: 0 }
    }
}

/// Generator state: the evolving seed words plus the add-with-carry flag.
#[derive(Clone, Copy, Debug, PartialEq, Eq, Structural)]
pub struct JKiss32Rng {
    pub seed: JKiss32RngSeed,
    pub c: bool,
}

/// 32-bit wrapping addition.
pub open spec fn wadd(a: u32, b: u32) -> u32 {
    ((a + b) % 0x100000000int) as u32
}

/// The `y` word after the three xorshift steps of one draw.
pub open spec fn spec_shift_y(y: u32) -> u32 {
    let y1 = y ^ (y << 5u32);
    let y2 = y1 ^ (y1 >> 7u32);
    y2 ^ (y2 << 22u32)
}

/// The `z + w + carry` sum of one draw, before the sign split.
pub open spec fn spec_t(s: JKiss32Rng) -> u32 {
    wadd(wadd(s.seed.z, s.seed.w), if s.c {
        1u32
    } else {
        0u32
    })
}

/// The generator state after one draw.
pub open spec fn spec_step(s: JKiss32Rng) -> JKiss32Rng {
    let t = spec_t(s);
    JKiss32Rng {
        seed: JKiss32RngSeed {
            x: wadd(s.seed.x, 1411392427u32),
            y: spec_shift_y(s.seed.y),
            z: s.seed.w,
            w: t & 0x7FFFFFFFu32,
        },
        c: t >= 0x80000000u32,
    }
}

/// The value returned by one draw: the wrapping sum of the stepped `x`, `y`
/// and `w` words.
pub open spec fn spec_output(s: JKiss32Rng) -> u32 {
    let n = spec_step(s);
    wadd(wadd(n.seed.x, n.seed.y), n.seed.w)
}

impl JKiss32Rng {
    /// Starts the stream at `seed` with a clear carry.
    pub fn from_seed(seed: JKiss32RngSeed) -> (rng: JKiss32Rng)
        ensures
            rng == (JKiss32Rng { seed, c: false }),
    {
        JKiss32Rng { seed, c: false }
    }

    /// Draws the next 32-bit value and advances the state.
    #[verifier::rlimit(50)]
    pub fn next_u32(&mut self) -> (r: u32)
        ensures
            *final(self) == spec_step(*old(self)),
            r == spec_output(*old(self)),
    {
        let y0 = self.seed.y;
        let y1 = y0 ^ (y0 << 5u32);
        let y2 = y1 ^ (y1 >> 7u32);
        let y3 = y2 ^ (y2 << 22u32);
        self.seed.y = y3;
        let t = self.seed.z.wrapping_add(self.seed.w).wrapping_add(
            if self.c {
                1u32
            } else {
                0u32
            },
        );
        self.seed.z = self.seed.w;
        self.c = t >= 0x80000000u32;
        self.seed.w = t & 0x7FFFFFFFu32;
        self.seed.x = self.seed.x.wrapping_add(1411392427u32);
        self.seed.x.wrapping_add(self.seed.y).wrapping_add(self.seed.w)
    }

    /// Draws 64 bits: the first draw fills the high word, the second the low.
    pub fn next_u64(&mut self) -> (r: u64)
        ensures
            *final(self) == spec_step(spec_step(*old(self))),
            r == (spec_output(*old(self)) as u64) * 0x100000000u64 + spec_output(
                spec_step(*old(self)),
            ) as u64,
    {
        let hi = self.next_u32();
        let lo = self.next_u32();
        let h64 = hi as u64;
        let l64 = lo as u64;
        let r = (h64 << 32u64) | l64;
        proof {
            assert((h64 << 32u64) | l64 == h64 * 0x100000000u64 + l64) by (bit_vector)
                requires
                    h64 <= 0xFFFFFFFFu64,
                    l64 <= 0xFFFFFFFFu64,
            ;
        }
        r
    }
}

} // verus!
