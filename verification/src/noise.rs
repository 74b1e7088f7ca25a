//! The lattice of the noise that worlds are made from.
//!
//! A value depends on its place and a seed alone, so every node and every renderer sees the same
//! galaxy without sending it.
use vstd::prelude::*;

verus! {

/// The value at a lattice point, in 2^24ths.
pub open spec fn lattice_of(x: i32, y: i32, seed: u32) -> u32 {
    let a = 0x811c_9dc5u32 ^ seed.wrapping_mul(0x9e37_79b9);
    let b = (a ^ (x as u32)).wrapping_mul(0x0100_0193);
    let c = (b ^ (y as u32)).wrapping_mul(0x0100_0193);
    let d = (c ^ (c >> 15)).wrapping_mul(0x2c1b_3c6d);
    (d ^ (d >> 12)) & 0x00ff_ffff
}

/// The value at a lattice point, in 2^24ths.
pub fn lattice(x: i32, y: i32, seed: u32) -> (v: u32)
    ensures
        v == lattice_of(x, y, seed),
        v < 0x0100_0000,
{
    let a: u32 = 0x811c_9dc5u32 ^ seed.wrapping_mul(0x9e37_79b9);
    let b: u32 = (a ^ (x as u32)).wrapping_mul(0x0100_0193);
    let c: u32 = (b ^ (y as u32)).wrapping_mul(0x0100_0193);
    let d: u32 = (c ^ (c >> 15)).wrapping_mul(0x2c1b_3c6d);
    let e: u32 = d ^ (d >> 12);
    assert(e & 0x00ff_ffff < 0x0100_0000) by (bit_vector);
    e & 0x00ff_ffff
}

/// The seed of an octave.
pub open spec fn octave_seed_of(seed: u32, octave: u32) -> u32 {
    seed.wrapping_add(octave.wrapping_mul(101))
}

/// The seed of an octave: each layer of the noise is a lattice of its own.
pub fn octave_seed(seed: u32, octave: u32) -> (s: u32)
    ensures
        s == octave_seed_of(seed, octave),
{
    seed.wrapping_add(octave.wrapping_mul(101))
}

/// The lattice has 24 bits, and each octave has a lattice of its own, 101 seeds further.
pub proof fn law_lattice(x: i32, y: i32, seed: u32, octave: u32)
    requires
        octave < 0xffff_ffff,
    ensures
        lattice_of(x, y, seed) < 0x100_0000,
        octave_seed_of(seed, 0) == seed,
        octave_seed_of(seed, (octave + 1) as u32) == octave_seed_of(seed, octave).wrapping_add(101),
{
    let a = 0x811c_9dc5u32 ^ seed.wrapping_mul(0x9e37_79b9);
    let b = (a ^ (x as u32)).wrapping_mul(0x0100_0193);
    let c = (b ^ (y as u32)).wrapping_mul(0x0100_0193);
    let d = (c ^ (c >> 15)).wrapping_mul(0x2c1b_3c6d);
    assert((d ^ (d >> 12)) & 0x00ff_ffff < 0x100_0000) by (bit_vector);
}

} // verus!
