//! Sectors: the squares of the galaxy that nodes host.
use vstd::prelude::*;
use vstd::string::*;

use crate::hash::{fnv64, fnv64_from, FNV64_BASIS};
use crate::order::{views, Ordered};
use crate::text::{char_seqs, dec_int, fields, parse_i32, parsed_signed, push_dec_signed, split_fields};

verus! {

/// The address of a sector.
#[derive(Debug, Clone, Copy, PartialEq, Eq, PartialOrd, Ord, Hash, Structural)]
pub struct SectorId {
    pub sx: i32,
    pub sy: i32,
}

impl View for SectorId {
    type V = SectorId;

    open spec fn view(&self) -> SectorId {
        *self
    }
}

impl Ordered for SectorId {
    open spec fn below(a: SectorId, b: SectorId) -> bool {
        a.sx < b.sx || (a.sx == b.sx && a.sy < b.sy)
    }

    fn is_below(&self, other: &Self) -> (r: bool) {
        self.sx < other.sx || (self.sx == other.sx && self.sy < other.sy)
    }

    proof fn below_irreflexive(a: SectorId) {
    }

    proof fn below_transitive(a: SectorId, b: SectorId, c: SectorId) {
    }

    proof fn below_total(a: SectorId, b: SectorId) {
    }
}

/// `sx_sy` in decimal.
pub open spec fn sector_token(s: SectorId) -> Seq<char> {
    dec_int(s.sx as int).push('_') + dec_int(s.sy as int)
}

/// The sector that a token names.
pub open spec fn sector_of_token(token: Seq<char>) -> Option<SectorId> {
    let f = fields(token, '_');
    if f.len() == 2 {
        match (
            parsed_signed(f[0], i32::MIN as int, i32::MAX as int),
            parsed_signed(f[1], i32::MIN as int, i32::MAX as int),
        ) {
            (Some(x), Some(y)) => Some(SectorId { sx: x as i32, sy: y as i32 }),
            _ => None,
        }
    } else {
        None
    }
}

impl SectorId {
    pub fn new(sx: i32, sy: i32) -> (s: Self)
        ensures
            s.sx == sx,
            s.sy == sy,
    {
        SectorId { sx, sy }
    }

    /// The token of the sector in topic names.
    pub fn token(&self) -> (s: String)
        ensures
            s@ == sector_token(*self),
    {
        let mut s: String = String::new();
        push_dec_signed(&mut s, self.sx as i64);
        s.push('_');
        push_dec_signed(&mut s, self.sy as i64);
        assert(s@ =~= sector_token(*self));
        s
    }

    /// The sector that a token names; none where it is malformed.
    pub fn parse(token: &str) -> (r: Option<SectorId>)
        ensures
            r == sector_of_token(token@),
    {
        let parts = split_fields(token, '_');
        assert(parts@.len() == char_seqs(parts@).len());
        if parts.len() != 2 {
            return None;
        }
        assert(forall|i: int| 0 <= i < 2 ==> char_seqs(parts@)[i] == #[trigger] parts@[i]@);
        match (parse_i32(&parts[0]), parse_i32(&parts[1])) {
            (Some(sx), Some(sy)) => Some(SectorId { sx, sy }),
            _ => None,
        }
    }
}

/// The sectors are the same or touch each other, by an edge or a corner.
pub open spec fn adjoin(a: SectorId, b: SectorId) -> bool {
    -1 <= a.sx - b.sx <= 1 && -1 <= a.sy - b.sy <= 1
}

impl SectorId {
    /// The neighbourhood of the sector: itself and the sectors that touch it.
    pub fn neighbors(&self) -> (r: Vec<SectorId>)
        ensures
            forall|n: SectorId| #[trigger] r@.contains(n) <==> adjoin(*self, n),
            r@.no_duplicates(),
    {
        let mut out: Vec<SectorId> = Vec::new();
        let x: i64 = self.sx as i64;
        let y: i64 = self.sy as i64;
        let mut i: i64 = 0;
        while i < 9
            invariant
                0 <= i <= 9,
                x == self.sx,
                y == self.sy,
                out@.no_duplicates(),
                forall|n: SectorId| #[trigger]
                    out@.contains(n) <==> adjoin(*self, n) && place_in(*self, n) < i,
            decreases 9 - i,
        {
            let sx: i64 = x + i % 3 - 1;
            let sy: i64 = y + i / 3 - 1;
            let ghost before = out@;
            if -0x8000_0000 <= sx && sx <= 0x7fff_ffff && -0x8000_0000 <= sy && sy <= 0x7fff_ffff {
                let n = SectorId { sx: sx as i32, sy: sy as i32 };
                proof {
                    assert(place_in(*self, n) == i);
                    assert(!before.contains(n));
                    assert forall|k: int| 0 <= k < before.len() implies before[k] != n by {
                        assert(before.contains(before[k]));
                    }
                }
                out.push(n);
                assert(out@[before.len() as int] == n);
            }
            proof {
                assert forall|n: SectorId| #[trigger]
                    out@.contains(n) <==> adjoin(*self, n) && place_in(*self, n) < i + 1 by {
                    if before.contains(n) {
                        let k = choose|k: int| 0 <= k < before.len() && before[k] == n;
                        assert(out@[k] == n);
                    }
                    if adjoin(*self, n) && place_in(*self, n) == i {
                        assert(n.sx == sx && n.sy == sy);
                    }
                }
            }
            i = i + 1;
        }
        out
    }
}

/// The place of a sector in the neighbourhood of another, row by row.
spec fn place_in(here: SectorId, n: SectorId) -> int {
    (n.sy - here.sy + 1) * 3 + (n.sx - here.sx + 1)
}

/// The weight of a host for a sector: a hash of both.
pub open spec fn shard_weight(sector: Seq<char>, host: Seq<char>) -> u64 {
    fnv64_from(
        fnv64_from(FNV64_BASIS, vstd::utf8::encode_utf8(sector)),
        vstd::utf8::encode_utf8(host),
    )
}

/// The host at `at` has the largest weight for the sector, the first one on a tie.
pub open spec fn holds_shard(sector: Seq<char>, hosts: Seq<Seq<char>>, at: int) -> bool {
    &&& 0 <= at < hosts.len()
    &&& forall|j: int|
        0 <= j < hosts.len() ==> {
            &&& shard_weight(sector, #[trigger] hosts[j]) <= shard_weight(sector, hosts[at])
            &&& j < at ==> shard_weight(sector, hosts[j]) < shard_weight(sector, hosts[at])
        }
}

/// The host that a sector falls to. Every node computes the same one, so sectors spread over the hosts
/// without a scheduler.
pub fn shard_for<'a>(sector: &str, hosts: &'a Vec<String>) -> (r: Option<&'a String>)
    ensures
        r is None <==> hosts@.len() == 0,
        r is Some ==> exists|at: int| #[trigger]
            holds_shard(sector@, views(hosts@), at) && *r->0 == hosts@[at],
{
    if hosts.len() == 0 {
        return None;
    }
    let ghost all = views(hosts@);
    let seed: u64 = fnv64(FNV64_BASIS, sector.as_bytes());
    let mut best: usize = 0;
    let mut best_weight: u64 = fnv64(seed, hosts[0].as_str().as_bytes());
    let mut i: usize = 1;
    assert(all[0] == hosts@[0]@);
    while i < hosts.len()
        invariant
            best < i <= hosts@.len(),
            all == views(hosts@),
            seed == fnv64_from(FNV64_BASIS, vstd::utf8::encode_utf8(sector@)),
            best_weight == shard_weight(sector@, all[best as int]),
            forall|j: int|
                0 <= j < i ==> {
                    &&& shard_weight(sector@, #[trigger] all[j]) <= best_weight
                    &&& j < best ==> shard_weight(sector@, all[j]) < best_weight
                },
        decreases hosts@.len() - i,
    {
        let w: u64 = fnv64(seed, hosts[i].as_str().as_bytes());
        assert(all[i as int] == hosts@[i as int]@);
        if w > best_weight {
            best = i;
            best_weight = w;
        }
        i = i + 1;
    }
    assert(holds_shard(sector@, all, best as int));
    Some(&hosts[best])
}

/// One host holds a sector, and it keeps it when another host goes.
pub proof fn law_shards_stay(sector: Seq<char>, hosts: Seq<Seq<char>>, at: int, gone: int)
    requires
        holds_shard(sector, hosts, at),
        0 <= gone < hosts.len(),
        gone != at,
    ensures
        forall|j: int| #[trigger] holds_shard(sector, hosts, j) ==> j == at,
        holds_shard(
            sector,
            hosts.remove(gone),
            if gone < at {
                at - 1
            } else {
                at
            },
        ),
{
    let left = hosts.remove(gone);
    let now = if gone < at {
        at - 1
    } else {
        at
    };
    assert(left[now] == hosts[at]);
    assert forall|j: int| 0 <= j < left.len() implies {
        &&& shard_weight(sector, #[trigger] left[j]) <= shard_weight(sector, left[now])
        &&& j < now ==> shard_weight(sector, left[j]) < shard_weight(sector, left[now])
    } by {
        let k = if j < gone {
            j
        } else {
            j + 1
        };
        assert(left[j] == hosts[k]);
    }
    assert forall|j: int| #[trigger] holds_shard(sector, hosts, j) implies j == at by {
        assert(hosts[j] == hosts[j]);
        assert(hosts[at] == hosts[at]);
    }
}

/// A token is read back as the sector that it was made from.
pub proof fn law_sector_token_roundtrip(s: SectorId)
    ensures
        sector_of_token(sector_token(s)) == Some(s),
{
    let (x, y) = (dec_int(s.sx as int), dec_int(s.sy as int));
    lemma_no_underscore(s.sx as int);
    lemma_no_underscore(s.sy as int);
    crate::text::lemma_fields_single(x, '_');
    crate::text::lemma_fields_extend(x, y, '_');
    assert(fields(sector_token(s), '_') =~= seq![x, y]);
    crate::text::lemma_dec_int_parses(s.sx as int, i32::MIN as int, i32::MAX as int);
    crate::text::lemma_dec_int_parses(s.sy as int, i32::MIN as int, i32::MAX as int);
}

proof fn lemma_no_underscore(n: int)
    ensures
        !dec_int(n).contains('_'),
{
    let m = if n < 0 {
        (-n) as nat
    } else {
        n as nat
    };
    crate::text::lemma_dec_spells(m);
    crate::text::lemma_digits_without(crate::text::dec(m), '_');
    if dec_int(n).contains('_') {
        let i = choose|i: int| 0 <= i < dec_int(n).len() && dec_int(n)[i] == '_';
        if n < 0 {
            assert(i > 0);
            assert(crate::text::dec(m)[i - 1] == '_');
        }
    }
}

/// A sector falls to a host of the greatest weight for it, and to one only: whichever two places hold it, they are the
/// same. The weight depends on the sector and on that host alone.
pub proof fn law_greatest_weight_holds_the_shard(sector: Seq<char>, hosts: Seq<Seq<char>>, at: int, j: int)
    requires
        holds_shard(sector, hosts, at),
        0 <= j < hosts.len(),
    ensures
        0 <= at < hosts.len(),
        shard_weight(sector, hosts[j]) <= shard_weight(sector, hosts[at]),
        shard_weight(sector, hosts[j]) == shard_weight(sector, hosts[at]) ==> at <= j,
        holds_shard(sector, hosts, j) ==> j == at,
{
    assert(shard_weight(sector, hosts[j]) <= shard_weight(sector, hosts[at]));
}

/// Sectors that touch are neighbours of each other, at most one step away along each axis, and a sector is in its own
/// neighbourhood.
pub proof fn law_neighbourhood(a: SectorId, dx: int, dy: int)
    requires
        i32::MIN <= a.sx + dx <= i32::MAX,
        i32::MIN <= a.sy + dy <= i32::MAX,
    ensures
        ({
            let b = SectorId { sx: (a.sx + dx) as i32, sy: (a.sy + dy) as i32 };
            &&& adjoin(a, b) <==> (dx == -1 || dx == 0 || dx == 1) && (dy == -1 || dy == 0 || dy == 1)
            &&& adjoin(a, b) == adjoin(b, a)
        }),
{
}

/// The token of a sector is its column and its row, with a bar between them.
pub proof fn law_sector_token_shape(s: SectorId)
    ensures
        sector_token(s) == crate::text::dec_int(s.sx as int) + seq!['_'] + crate::text::dec_int(
            s.sy as int,
        ),
{
    assert(sector_token(s) =~= crate::text::dec_int(s.sx as int) + seq!['_'] + crate::text::dec_int(
        s.sy as int,
    ));
}

} // verus!
