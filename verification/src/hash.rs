//! Byte hashes that every node computes alike.
use vstd::prelude::*;
use vstd::string::*;

verus! {

pub const FNV32_BASIS: u32 = 0x811c_9dc5;

pub const FNV32_PRIME: u32 = 0x0100_0193;

pub const FNV64_BASIS: u64 = 0xcbf2_9ce4_8422_2325;

pub const FNV64_PRIME: u64 = 0x0000_0100_0000_01b3;

/// One FNV-1a step over 32 bits.
pub open spec fn fnv32_step(h: u32, b: u8) -> u32 {
    (h ^ (b as u32)).wrapping_mul(FNV32_PRIME)
}

/// FNV-1a over 32 bits, from the state `h`.
pub open spec fn fnv32_from(h: u32, bytes: Seq<u8>) -> u32
    decreases bytes.len(),
{
    if bytes.len() == 0 {
        h
    } else {
        fnv32_step(fnv32_from(h, bytes.drop_last()), bytes.last())
    }
}

/// One FNV-1a step over 64 bits.
pub open spec fn fnv64_step(h: u64, b: u8) -> u64 {
    (h ^ (b as u64)).wrapping_mul(FNV64_PRIME)
}

/// FNV-1a over 64 bits, from the state `h`.
pub open spec fn fnv64_from(h: u64, bytes: Seq<u8>) -> u64
    decreases bytes.len(),
{
    if bytes.len() == 0 {
        h
    } else {
        fnv64_step(fnv64_from(h, bytes.drop_last()), bytes.last())
    }
}

/// FNV-1a over 32 bits of the UTF-8 bytes of a text.
pub fn fnv1a(s: &str) -> (h: u32)
    ensures
        h == fnv32_from(FNV32_BASIS, s.spec_bytes()),
{
    let bytes = s.as_bytes();
    let mut h: u32 = FNV32_BASIS;
    let mut i: usize = 0;
    while i < bytes.len()
        invariant
            i <= bytes@.len(),
            h == fnv32_from(FNV32_BASIS, bytes@.subrange(0, i as int)),
        decreases bytes@.len() - i,
    {
        assert(bytes@.subrange(0, i + 1).drop_last() =~= bytes@.subrange(0, i as int));
        h = (h ^ bytes[i] as u32).wrapping_mul(FNV32_PRIME);
        i = i + 1;
    }
    assert(bytes@.subrange(0, i as int) =~= bytes@);
    h
}

/// FNV-1a over 64 bits, from the state `h`, of the bytes.
pub fn fnv64(h: u64, bytes: &[u8]) -> (r: u64)
    ensures
        r == fnv64_from(h, bytes@),
{
    let mut out: u64 = h;
    let mut i: usize = 0;
    assert(bytes@.subrange(0, 0) =~= Seq::<u8>::empty());
    while i < bytes.len()
        invariant
            i <= bytes@.len(),
            out == fnv64_from(h, bytes@.subrange(0, i as int)),
        decreases bytes@.len() - i,
    {
        assert(bytes@.subrange(0, i + 1).drop_last() =~= bytes@.subrange(0, i as int));
        out = (out ^ bytes[i] as u64).wrapping_mul(FNV64_PRIME);
        i = i + 1;
    }
    assert(bytes@.subrange(0, i as int) =~= bytes@);
    out
}

/// Hashing goes byte by byte: a hash of two parts is the hash of the second, begun from that of the first. A byte is
/// folded in and then multiplied by the prime; nothing hashes to where it began.
pub proof fn law_hashes_go_on(h: u64, g: u32, a: Seq<u8>, b: Seq<u8>, x: u8)
    ensures
        fnv64_from(h, a + b) == fnv64_from(fnv64_from(h, a), b),
        fnv32_from(g, a + b) == fnv32_from(fnv32_from(g, a), b),
        fnv64_from(h, Seq::empty()) == h,
        fnv32_from(g, Seq::empty()) == g,
        fnv64_from(h, seq![x]) as int == ((h ^ x as u64) as int * 1_099_511_628_211)
            % 0x1_0000_0000_0000_0000,
        fnv32_from(g, seq![x]) as int == ((g ^ x as u32) as int * 16_777_619) % 0x1_0000_0000,
    decreases b.len(),
{
    if b.len() == 0 {
        assert(a + b =~= a);
    } else {
        assert((a + b).drop_last() =~= a + b.drop_last());
        assert((a + b).last() == b.last());
        law_hashes_go_on(h, g, a, b.drop_last(), x);
    }
    assert(seq![x].drop_last() =~= Seq::<u8>::empty());
    assert(fnv64_from(h, seq![x].drop_last()) == h);
    assert(fnv32_from(g, seq![x].drop_last()) == g);
}

} // verus!
