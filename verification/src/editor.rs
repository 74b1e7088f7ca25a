//! The ship editor: parts on a grid, lowered into a design.
//!
//! Lengths are thousandths of a unit and angles millionths of a radian, as in designs.
use vstd::prelude::*;

use crate::blueprint::{
    is_craft_of, is_lone_object, is_plain, law_known_objects_resolve, object_of, parts_of_loose,
    resolve_design, scope_of, stock_of, Blueprint, Catalog, Fault, FaultView, Placement,
    PlacementKind, ResolvedCraft, Setting, SettingView, Transform2D, MAX_BLUEPRINT_DEPTH,
};
use crate::order::views;
use crate::text::chars_of;

verus! {

/// The side of a grid cell, unless a design says otherwise.
pub const GRID: i32 = 2000;

/// The most parts that a design can have.
pub const MAX_PARTS: usize = 256;

/// A part in a cell of the grid, turned by quarters.
#[derive(Debug, PartialEq, Eq)]
pub struct PlacedPart {
    pub def: String,
    pub gx: i32,
    pub gy: i32,
    pub rot: u8,
}

#[verifier::ext_equal]
pub struct PartView {
    pub def: Seq<char>,
    pub gx: i32,
    pub gy: i32,
    pub rot: u8,
}

impl View for PlacedPart {
    type V = PartView;

    open spec fn view(&self) -> PartView {
        PartView { def: self.def@, gx: self.gx, gy: self.gy, rot: self.rot }
    }
}

/// The angle of a number of quarter turns.
pub open spec fn turned(rot: u8) -> int {
    let q = rot % 4;
    if q == 0 {
        0
    } else if q == 1 {
        1_570_796
    } else if q == 2 {
        3_141_593
    } else {
        4_712_389
    }
}

impl PlacedPart {
    pub fn new(def: &str, gx: i32, gy: i32) -> (p: Self)
        ensures
            p@ == (PartView { def: def@, gx, gy, rot: 0 }),
    {
        PlacedPart { def: def.to_string(), gx, gy, rot: 0 }
    }

    /// The angle of the part.
    pub fn angle(&self) -> (a: i32)
        ensures
            a == turned(self.rot),
    {
        let q: u8 = self.rot % 4;
        if q == 0 {
            0
        } else if q == 1 {
            1_570_796
        } else if q == 2 {
            3_141_593
        } else {
            4_712_389
        }
    }
}

pub open spec fn parts_seen(parts: Seq<PlacedPart>) -> Seq<PartView> {
    crate::order::views(parts)
}

/// The part lies in the cell.
pub open spec fn lies_in(gx: i32, gy: i32) -> spec_fn(PartView) -> bool {
    |p: PartView| p.gx == gx && p.gy == gy
}

/// The topmost part in a cell, or -1.
pub open spec fn topmost(parts: Seq<PartView>, gx: i32, gy: i32) -> int
    decreases parts.len(),
{
    if parts.len() == 0 {
        -1
    } else if lies_in(gx, gy)(parts.last()) {
        parts.len() - 1
    } else {
        topmost(parts.drop_last(), gx, gy)
    }
}

/// The topmost part of a cell lies in it, and nothing above it does.
pub proof fn law_topmost_is_topmost(parts: Seq<PartView>, gx: i32, gy: i32)
    ensures
        -1 <= topmost(parts, gx, gy) < parts.len(),
        topmost(parts, gx, gy) >= 0 ==> lies_in(gx, gy)(parts[topmost(parts, gx, gy)]),
        forall|i: int|
            topmost(parts, gx, gy) < i < parts.len() ==> !lies_in(gx, gy)(#[trigger] parts[i]),
    decreases parts.len(),
{
    if parts.len() > 0 && !lies_in(gx, gy)(parts.last()) {
        let rest = parts.drop_last();
        law_topmost_is_topmost(rest, gx, gy);
        assert forall|i: int| topmost(parts, gx, gy) < i < parts.len() implies !lies_in(gx, gy)(
            #[trigger] parts[i],
        ) by {
            if i < rest.len() {
                assert(rest[i] == parts[i]);
            }
        }
    }
}

/// A letter or digit of ASCII.
pub open spec fn is_word(c: char) -> bool {
    ('0' <= c && c <= '9') || ('A' <= c && c <= 'Z') || ('a' <= c && c <= 'z')
}

/// A character in lower case.
pub open spec fn lower(c: char) -> char {
    if 'A' <= c && c <= 'Z' {
        (c as u32 + 32) as char
    } else {
        c
    }
}

/// The words of a text in lower case, with one dash between two of them.
pub open spec fn dashed(s: Seq<char>) -> Seq<char>
    decreases s.len(),
{
    if s.len() == 0 {
        Seq::empty()
    } else {
        let rest = s.drop_last();
        let before = dashed(rest);
        let c = s.last();
        if !is_word(c) {
            before
        } else if before.len() > 0 && !is_word(rest.last()) {
            before.push('-').push(lower(c))
        } else {
            before.push(lower(c))
        }
    }
}

/// The slug of a name.
pub open spec fn slug_of(name: Seq<char>) -> Seq<char> {
    if dashed(name).len() == 0 {
        "design"@
    } else {
        dashed(name)
    }
}

fn is_word_char(c: char) -> (r: bool)
    ensures
        r == is_word(c),
{
    ('0' <= c && c <= '9') || ('A' <= c && c <= 'Z') || ('a' <= c && c <= 'z')
}

fn lower_char(c: char) -> (r: char)
    ensures
        r == lower(c),
{
    if 'A' <= c && c <= 'Z' {
        (c as u8 + 32) as char
    } else {
        c
    }
}

/// A design on the grid.
#[derive(Debug, PartialEq)]
pub struct ShipEditor {
    pub name: String,
    pub grid: i32,
    pub parts: Vec<PlacedPart>,
}

/// The side of a cell: a grid that makes no sense counts as the usual one.
pub open spec fn side(grid: i32) -> i32 {
    if grid > 0 {
        grid
    } else {
        GRID
    }
}

/// The placement of a part.
pub open spec fn placed(p: Placement, part: PartView, grid: i32) -> bool {
    &&& is_plain(
        p,
        Transform2D {
            x: (part.gx * side(grid)) as i32,
            y: (part.gy * side(grid)) as i32,
            rot: turned(part.rot) as i32,
        },
    )
    &&& p.kind matches PlacementKind::Object { def } && def@ == part.def
}

/// The design of an editor's parts.
pub open spec fn is_design_of(b: Blueprint, e: ShipEditor) -> bool {
    &&& b.id@ == slug_of(e.name@)
    &&& b.name@ == e.name@
    &&& b.params@.len() == 0
    &&& b.root@.len() == e.parts@.len()
    &&& forall|i: int|
        0 <= i < b.root@.len() ==> placed(#[trigger] b.root@[i], e.parts@[i]@, e.grid)
}

impl Default for ShipEditor {
    fn default() -> (e: Self)
        ensures
            e.name@ == "Untitled"@,
            e.grid == GRID,
            e.parts@.len() == 0,
    {
        ShipEditor { name: "Untitled".to_string(), grid: GRID, parts: Vec::new() }
    }
}

impl ShipEditor {
    pub fn new(name: &str) -> (e: Self)
        ensures
            e.name@ == name@,
            e.grid == GRID,
            e.parts@.len() == 0,
    {
        ShipEditor { name: name.to_string(), grid: GRID, parts: Vec::new() }
    }

    pub fn is_empty(&self) -> (r: bool)
        ensures
            r == (self.parts@.len() == 0),
    {
        self.parts.len() == 0
    }

    pub fn len(&self) -> (n: usize)
        ensures
            n == self.parts@.len(),
    {
        self.parts.len()
    }

    /// The coordinates of all cells can be told.
    pub open spec fn lowerable(&self) -> bool {
        forall|i: int|
            0 <= i < self.parts@.len() ==> {
                let p = #[trigger] self.parts@[i];
                &&& i32::MIN <= p.gx * side(self.grid) <= i32::MAX
                &&& i32::MIN <= p.gy * side(self.grid) <= i32::MAX
            }
    }

    /// Places a part on top of a cell. A full design stays as it is.
    pub fn place(&mut self, def: &str, gx: i32, gy: i32, rot: u8)
        ensures
            final(self).name == old(self).name,
            final(self).grid == old(self).grid,
            parts_seen(final(self).parts@) == (if old(self).parts@.len() >= MAX_PARTS {
                parts_seen(old(self).parts@)
            } else {
                parts_seen(old(self).parts@).push(PartView { def: def@, gx, gy, rot: rot % 4 })
            }),
    {
        if self.parts.len() >= MAX_PARTS {
            return ;
        }
        self.parts.push(PlacedPart { def: def.to_string(), gx, gy, rot: rot % 4 });
        assert(parts_seen(self.parts@) =~= parts_seen(old(self).parts@).push(
            PartView { def: def@, gx, gy, rot: rot % 4 },
        ));
    }

    fn top_at(&self, gx: i32, gy: i32) -> (r: Option<usize>)
        ensures
            match r {
                None => topmost(parts_seen(self.parts@), gx, gy) == -1,
                Some(i) => i == topmost(parts_seen(self.parts@), gx, gy) && i < self.parts@.len(),
            },
    {
        let ghost seen = parts_seen(self.parts@);
        let mut i: usize = self.parts.len();
        assert(seen.subrange(0, i as int) =~= seen);
        while i > 0
            invariant
                i <= self.parts@.len(),
                seen == parts_seen(self.parts@),
                topmost(seen.subrange(0, i as int), gx, gy) == topmost(seen, gx, gy),
            decreases i,
        {
            i = i - 1;
            let p = &self.parts[i];
            proof {
                let upto = seen.subrange(0, i + 1);
                assert(upto.last() == p@);
                assert(upto.drop_last() =~= seen.subrange(0, i as int));
            }
            if p.gx == gx && p.gy == gy {
                return Some(i);
            }
        }
        None
    }

    /// Removes the topmost part of a cell. The result says whether there was one.
    pub fn remove_at(&mut self, gx: i32, gy: i32) -> (r: bool)
        ensures
            final(self).name == old(self).name,
            final(self).grid == old(self).grid,
            ({
                let top = topmost(parts_seen(old(self).parts@), gx, gy);
                &&& r == (top >= 0)
                &&& final(self).parts@ == (if r {
                    old(self).parts@.remove(top)
                } else {
                    old(self).parts@
                })
            }),
    {
        match self.top_at(gx, gy) {
            None => false,
            Some(i) => {
                self.parts.remove(i);
                true
            },
        }
    }

    /// Turns the topmost part of a cell by a quarter. The result says whether there was one.
    pub fn rotate_at(&mut self, gx: i32, gy: i32) -> (r: bool)
        ensures
            final(self).name == old(self).name,
            final(self).grid == old(self).grid,
            ({
                let top = topmost(parts_seen(old(self).parts@), gx, gy);
                let part = old(self).parts@[top];
                &&& r == (top >= 0)
                &&& final(self).parts@ == (if r {
                    old(self).parts@.update(
                        top,
                        PlacedPart { rot: ((part.rot % 4 + 1) % 4) as u8, ..part },
                    )
                } else {
                    old(self).parts@
                })
            }),
    {
        match self.top_at(gx, gy) {
            None => false,
            Some(i) => {
                let rot: u8 = (self.parts[i].rot % 4 + 1) % 4;
                self.parts[i].rot = rot;
                true
            },
        }
    }

    /// The parts of a cell, from the lowest to the topmost.
    pub fn parts_at(&self, gx: i32, gy: i32) -> (r: Vec<&PlacedPart>)
        ensures
            Seq::new(r@.len(), |i: int| r@[i]@) == parts_seen(self.parts@).filter(lies_in(gx, gy)),
    {
        let ghost seen = parts_seen(self.parts@);
        let ghost p = lies_in(gx, gy);
        let mut out: Vec<&PlacedPart> = Vec::new();
        let mut i: usize = 0;
        proof {
            reveal(Seq::filter);
            assert(seen.subrange(0, 0) =~= Seq::<PartView>::empty());
            assert(Seq::new(out@.len(), |k: int| out@[k]@) =~= Seq::<PartView>::empty());
        }
        while i < self.parts.len()
            invariant
                i <= self.parts@.len(),
                seen == parts_seen(self.parts@),
                p == lies_in(gx, gy),
                Seq::new(out@.len(), |k: int| out@[k]@) == seen.subrange(0, i as int).filter(p),
            decreases self.parts@.len() - i,
        {
            let part = &self.parts[i];
            proof {
                assert(seen[i as int] == part@);
                assert(seen.subrange(0, i + 1) =~= seen.subrange(0, i as int).push(part@));
                crate::sort::lemma_filter_push(seen.subrange(0, i as int), part@, p);
            }
            let ghost before = out@;
            if part.gx == gx && part.gy == gy {
                out.push(part);
                assert(Seq::new(out@.len(), |k: int| out@[k]@) =~= Seq::new(
                    before.len(),
                    |k: int| before[k]@,
                ).push(part@));
            }
            i = i + 1;
        }
        assert(seen.subrange(0, i as int) =~= seen);
        out
    }

    /// The design of the parts: each stands at its cell, turned.
    pub fn to_blueprint(&self) -> (b: Blueprint)
        requires
            self.lowerable(),
        ensures
            is_design_of(b, *self),
    {
        let g: i32 = if self.grid > 0 {
            self.grid
        } else {
            GRID
        };
        let mut root: Vec<Placement> = Vec::new();
        let mut i: usize = 0;
        while i < self.parts.len()
            invariant
                i <= self.parts@.len(),
                g == side(self.grid),
                self.lowerable(),
                root@.len() == i,
                forall|j: int|
                    0 <= j < i ==> placed(#[trigger] root@[j], self.parts@[j]@, self.grid),
            decreases self.parts@.len() - i,
        {
            let p = &self.parts[i];
            assert(*p == self.parts@[i as int]);
            let at = Transform2D::new(
                (p.gx as i64 * g as i64) as i32,
                (p.gy as i64 * g as i64) as i32,
                p.angle(),
            );
            root.push(Placement::object(p.def.as_str(), at));
            i = i + 1;
        }
        Blueprint { id: self.slug(), name: self.name.clone(), params: Vec::new(), root }
    }

    /// The design resolved against a catalogue, as it will be flown. Fails only where a part is not in the
    /// catalogue.
    pub fn preview(&self, catalog: &Catalog) -> (r: Result<ResolvedCraft, Fault>)
        requires
            self.lowerable(),
        ensures
            exists|b: Blueprint| #[trigger]
                is_design_of(b, *self) && (match r {
                    Ok(craft) => {
                        &&& parts_of_loose(stock_of(*catalog), b, Seq::empty()) is Ok
                        &&& views(craft.parts@) == parts_of_loose(
                            stock_of(*catalog),
                            b,
                            Seq::empty(),
                        )->Ok_0
                        &&& is_craft_of(craft, craft.parts@)
                    },
                    Err(e) => parts_of_loose(stock_of(*catalog), b, Seq::empty()) == Err::<
                        Seq<crate::blueprint::PartView>,
                        FaultView,
                    >(e@),
                }),
            r is Ok <==> forall|i: int|
                0 <= i < self.parts@.len() ==> object_of(
                    catalog.objects@,
                    (#[trigger] self.parts@[i]).def@,
                ) is Some,
            r is Ok ==> r->Ok_0.parts@.len() == self.parts@.len(),
    {
        let b = self.to_blueprint();
        let args: Vec<Setting> = Vec::new();
        proof {
            assert(views(args@) =~= Seq::<SettingView>::empty());
            assert forall|i: int| 0 <= i < b.root@.len() implies is_lone_object(
                #[trigger] b.root@[i],
            ) && b.root@[i].kind->def@ == self.parts@[i].def@ by {
                assert(placed(b.root@[i], self.parts@[i]@, self.grid));
            }
            law_known_objects_resolve(
                stock_of(*catalog),
                b.root@,
                b.root@.len(),
                scope_of(b.params@, Seq::empty()),
                (MAX_BLUEPRINT_DEPTH + 1) as nat,
                seq![b.id@],
            );
            if forall|i: int|
                0 <= i < self.parts@.len() ==> object_of(
                    catalog.objects@,
                    (#[trigger] self.parts@[i]).def@,
                ) is Some {
                assert forall|i: int| 0 <= i < b.root@.len() implies object_of(
                    catalog.objects@,
                    (#[trigger] b.root@[i]).kind->def@,
                ) is Some by {
                    assert(self.parts@[i].def@ == b.root@[i].kind->def@);
                }
            }
            if forall|i: int|
                0 <= i < b.root@.len() ==> object_of(
                    catalog.objects@,
                    (#[trigger] b.root@[i]).kind->def@,
                ) is Some {
                assert forall|i: int| 0 <= i < self.parts@.len() implies object_of(
                    catalog.objects@,
                    (#[trigger] self.parts@[i]).def@,
                ) is Some by {
                    assert(self.parts@[i].def@ == b.root@[i].kind->def@);
                }
            }
        }
        let r = resolve_design(catalog, &b, &args);
        assert(is_design_of(b, *self));
        r
    }

    /// The name as it can stand in a path: words in lower case with dashes between them.
    pub fn slug(&self) -> (s: String)
        ensures
            s@ == slug_of(self.name@),
    {
        let chars = chars_of(self.name.as_str());
        let mut out: String = String::new();
        let mut some: bool = false;
        let mut i: usize = 0;
        assert(chars@.subrange(0, 0) =~= Seq::<char>::empty());
        while i < chars.len()
            invariant
                i <= chars@.len(),
                out@ == dashed(chars@.subrange(0, i as int)),
                some == (out@.len() > 0),
            decreases chars@.len() - i,
        {
            let c: char = chars[i];
            proof {
                let upto = chars@.subrange(0, i + 1);
                assert(upto.last() == c);
                assert(upto.drop_last() =~= chars@.subrange(0, i as int));
                if i > 0 {
                    assert(upto.drop_last().last() == chars@[i - 1]);
                }
                if i == 0 {
                    assert(out@.len() == 0);
                }
            }
            if is_word_char(c) {
                if some && i > 0 && !is_word_char(chars[i - 1]) {
                    out.push('-');
                }
                out.push(lower_char(c));
                some = true;
            }
            i = i + 1;
        }
        assert(chars@.subrange(0, i as int) =~= chars@);
        if some {
            out
        } else {
            "design".to_string()
        }
    }

    /// A small ship that flies.
    pub fn starter() -> (e: Self)
        ensures
            e.name@ == "My Ship"@,
            e.grid == GRID,
            parts_seen(e.parts@) == seq![
                PartView { def: "struct-block"@, gx: 0, gy: 0, rot: 0 },
                PartView { def: "command-center"@, gx: 0, gy: 0, rot: 0 },
                PartView { def: "reactor"@, gx: 0, gy: 1, rot: 0 },
                PartView { def: "struct-block"@, gx: 0, gy: 1, rot: 0 },
                PartView { def: "thruster"@, gx: -1i32, gy: -1i32, rot: 0 },
                PartView { def: "thruster"@, gx: 1, gy: -1i32, rot: 0 },
                PartView { def: "gun"@, gx: 0, gy: 2, rot: 0 },
                PartView { def: "armor-wedge"@, gx: 0, gy: 3, rot: 0 },
            ],
    {
        let mut e = ShipEditor::new("My Ship");
        e.place("struct-block", 0, 0, 0);
        e.place("command-center", 0, 0, 0);
        e.place("reactor", 0, 1, 0);
        e.place("struct-block", 0, 1, 0);
        e.place("thruster", -1, -1, 0);
        e.place("thruster", 1, -1, 0);
        e.place("gun", 0, 2, 0);
        e.place("armor-wedge", 0, 3, 0);
        e
    }
}

/// A slug holds small letters, digits and single dashes between them, and nothing else.
pub proof fn law_slug_is_safe(name: Seq<char>)
    ensures
        slug_of(name).len() > 0,
        forall|i: int|
            0 <= i < slug_of(name).len() ==> is_slug_char(#[trigger] slug_of(name)[i]),
        slug_of(name)[0] != '-',
        slug_of(name).last() != '-',
        forall|i: int, j: int|
            0 <= i && j == i + 1 && j < slug_of(name).len() && #[trigger] slug_of(name)[i] == '-'
                ==> #[trigger] slug_of(name)[j] != '-',
{
    reveal_strlit("design");
    lemma_dashed_safe(name);
}

pub open spec fn is_slug_char(c: char) -> bool {
    c == '-' || ('0' <= c && c <= '9') || ('a' <= c && c <= 'z')
}

proof fn lemma_dashed_safe(s: Seq<char>)
    ensures
        forall|i: int| 0 <= i < dashed(s).len() ==> is_slug_char(#[trigger] dashed(s)[i]),
        dashed(s).len() > 0 ==> dashed(s)[0] != '-' && dashed(s).last() != '-',
        forall|i: int, j: int|
            0 <= i && j == i + 1 && j < dashed(s).len() && #[trigger] dashed(s)[i] == '-'
                ==> #[trigger] dashed(s)[j] != '-',
    decreases s.len(),
{
    if s.len() > 0 {
        let rest = s.drop_last();
        let c = s.last();
        lemma_dashed_safe(rest);
        if is_word(c) {
            let l = lower(c);
            assert(is_slug_char(l) && l != '-');
            let before = dashed(rest);
            let after = dashed(s);
            assert forall|i: int| 0 <= i < after.len() implies is_slug_char(#[trigger] after[i]) by {
                if i < before.len() {
                    assert(after[i] == before[i]);
                }
            }
            assert forall|i: int, j: int|
                0 <= i && j == i + 1 && j < after.len() && #[trigger] after[i]
                    == '-' implies #[trigger] after[j] != '-' by {
                if i < before.len() {
                    assert(after[i] == before[i]);
                }
                if j < before.len() {
                    assert(after[j] == before[j]);
                }
            }
        }
    }
}

/// A part is turned by quarters of a full turn, to the nearest millionth of a radian: four quarters are none, and each adds as much as the
/// one before.
pub proof fn law_quarter_turns(rot: u8)
    ensures
        -1 <= turned(rot) - (rot % 4) * 1_570_796 <= 1,
        rot % 4 == 0 ==> turned(rot) == 0,
        rot < 252 ==> turned((rot + 4) as u8) == turned(rot),
        rot % 4 != 3 ==> 1_570_796 <= turned((rot + 1) as u8) - turned(rot) <= 1_570_797,
{
}

/// A design has a placement for each part, in their order, of the part's object: as many sides of the grid from the middle as the part's cell,
/// along each axis.
pub proof fn law_designs_follow_the_grid(b: Blueprint, e: ShipEditor, i: int)
    requires
        is_design_of(b, e),
        e.lowerable(),
        0 <= i < e.parts@.len(),
    ensures
        b.root@.len() == e.parts@.len(),
        b.name@ == e.name@,
        b.root@[i].kind matches PlacementKind::Object { def } && def@ == e.parts@[i].def@,
        e.grid > 0 ==> b.root@[i].at.x == e.parts@[i].gx * e.grid && b.root@[i].at.y == e.parts@[i].gy
            * e.grid,
        e.grid <= 0 ==> b.root@[i].at.x == e.parts@[i].gx * 2000 && b.root@[i].at.y == e.parts@[i].gy
            * 2000,
        b.root@[i].at.rot == turned(e.parts@[i].rot),
        b.root@[i].children@.len() == 0 && b.root@[i].repeat is None && b.root@[i].shape is None,
{
    assert(placed(b.root@[i], e.parts@[i]@, e.grid));
    let p = e.parts@[i];
    assert(i32::MIN <= p.gx * side(e.grid) <= i32::MAX);
}

/// The last part that was placed in a cell is its topmost.
pub proof fn law_last_placed_is_topmost(parts: Seq<PartView>, p: PartView, gx: i32, gy: i32)
    ensures
        topmost(parts.push(p), p.gx, p.gy) == parts.len(),
        p.gx != gx || p.gy != gy ==> topmost(parts.push(p), gx, gy) == topmost(parts, gx, gy),
        topmost(Seq::empty(), gx, gy) == -1,
{
    assert(parts.push(p).drop_last() =~= parts);
}

/// A slug keeps all that a name has of letters and digits, in small letters and in their order.
pub proof fn law_slug_keeps_the_words(name: Seq<char>)
    ensures
        dashed(name).filter(|c: char| c != '-') == name.filter(|c: char| is_word(c)).map_values(
            |c: char| lower(c),
        ),
        name.filter(|c: char| is_word(c)).len() > 0 ==> slug_of(name) == dashed(name),
    decreases name.len(),
{
    let keep = |c: char| c != '-';
    let word = |c: char| is_word(c);
    let low = |c: char| lower(c);
    reveal(Seq::filter);
    if name.len() > 0 {
        let rest = name.drop_last();
        let c = name.last();
        law_slug_keeps_the_words(rest);
        let before = dashed(rest);
        assert(name =~= rest.push(c));
        crate::sort::lemma_filter_push(rest, c, word);
        if is_word(c) {
            assert(lower(c) != '-');
            crate::sort::lemma_filter_push(before, '-', keep);
            crate::sort::lemma_filter_push(before.push('-'), lower(c), keep);
            crate::sort::lemma_filter_push(before, lower(c), keep);
            assert(rest.filter(word).push(c).map_values(low) =~= rest.filter(word).map_values(low).push(
                lower(c),
            ));
        }
    } else {
        assert(dashed(name).filter(keep) =~= name.filter(word).map_values(low));
    }
    if name.filter(word).len() > 0 {
        assert(dashed(name).filter(keep).len() > 0);
        dashed(name).lemma_filter_len(keep);
    }
}

} // verus!
