//! What a designer is told of a fault.
use vstd::prelude::*;
use vstd::string::*;

use crate::blueprint::{Fault, FaultView, ObjectCategory, MAX_BLUEPRINT_DEPTH};
use crate::order::views;
use crate::text::{dec, push_dec};

verus! {

/// The name of a category.
pub open spec fn category_text(c: ObjectCategory) -> Seq<char> {
    match c {
        ObjectCategory::Structure => "Structure"@,
        ObjectCategory::Armor => "Armor"@,
        ObjectCategory::Weapon => "Weapon"@,
        ObjectCategory::Turret => "Turret"@,
        ObjectCategory::Gun => "Gun"@,
        ObjectCategory::Thruster => "Thruster"@,
        ObjectCategory::CommandCenter => "CommandCenter"@,
        ObjectCategory::Radar => "Radar"@,
        ObjectCategory::Sensor => "Sensor"@,
        ObjectCategory::StorageTank => "StorageTank"@,
        ObjectCategory::Container => "Container"@,
        ObjectCategory::Upgrade => "Upgrade"@,
    }
}

fn category_str(c: ObjectCategory) -> (s: &'static str)
    ensures
        s@ == category_text(c),
{
    match c {
        ObjectCategory::Structure => "Structure",
        ObjectCategory::Armor => "Armor",
        ObjectCategory::Weapon => "Weapon",
        ObjectCategory::Turret => "Turret",
        ObjectCategory::Gun => "Gun",
        ObjectCategory::Thruster => "Thruster",
        ObjectCategory::CommandCenter => "CommandCenter",
        ObjectCategory::Radar => "Radar",
        ObjectCategory::Sensor => "Sensor",
        ObjectCategory::StorageTank => "StorageTank",
        ObjectCategory::Container => "Container",
        ObjectCategory::Upgrade => "Upgrade",
    }
}

/// The designs of a path, each with an arrow to the next and the last with one to where it leads.
pub open spec fn arrows(path: Seq<Seq<char>>, n: nat) -> Seq<char>
    decreases n,
{
    if n == 0 {
        Seq::empty()
    } else {
        arrows(path, (n - 1) as nat) + path[n - 1] + " -> "@
    }
}

/// A path of designs that leads back into itself.
pub open spec fn loop_text(path: Seq<Seq<char>>, id: Seq<char>) -> Seq<char> {
    if path.len() == 0 {
        " -> "@ + id
    } else {
        arrows(path, path.len()) + id
    }
}

/// An object with its category.
pub open spec fn object_text(def: Seq<char>, c: ObjectCategory) -> Seq<char> {
    def + " ("@ + category_text(c) + ")"@
}

/// A fault in the words of the check of a catalogue.
pub open spec fn checked_words(f: FaultView) -> Seq<char> {
    match f {
        FaultView::UnknownBlueprint { id } => "unknown blueprint "@ + id,
        FaultView::UnknownObject { def } => "unknown object "@ + def,
        FaultView::Cycle { path, id } => "blueprint cycle: "@ + loop_text(path, id),
        FaultView::TooDeep { id } => "blueprint too deep at "@ + id,
        FaultView::NotInside { def, category } => object_text(def, category)
            + " must be placed inside a structure/container"@,
        FaultView::HoldsNothing { def, category } => object_text(def, category)
            + " cannot hold child objects"@,
        FaultView::BadShape { def } => "object "@ + def + ": unsound shape"@,
        FaultView::BadPlacedShape { def } => "placement of "@ + def + ": unsound shape"@,
    }
}

/// A fault in the words of the resolution of a design.
pub open spec fn resolved_words(f: FaultView) -> Seq<char> {
    match f {
        FaultView::Cycle { path, id } => "blueprint cycle detected: "@ + loop_text(path, id),
        FaultView::TooDeep { id } => "blueprint nesting exceeded "@ + dec(
            MAX_BLUEPRINT_DEPTH as nat,
        ) + " (cycle or too deep) at "@ + id,
        _ => checked_words(f),
    }
}

fn with(head: &str, rest: &str) -> (s: String)
    ensures
        s@ == head@ + rest@,
{
    let mut s: String = head.to_string();
    s.append(rest);
    s
}

fn push_loop(s: &mut String, path: &Vec<String>, id: &str)
    ensures
        final(s)@ == old(s)@ + loop_text(views(path@), id@),
{
    let ghost start = s@;
    if path.len() == 0 {
        s.append(" -> ");
        s.append(id);
        assert(s@ =~= start + loop_text(views(path@), id@));
        return;
    }
    let mut i: usize = 0;
    assert(s@ =~= start + arrows(views(path@), 0));
    while i < path.len()
        invariant
            i <= path@.len(),
            s@ == start + arrows(views(path@), i as nat),
        decreases path@.len() - i,
    {
        s.append(path[i].as_str());
        s.append(" -> ");
        i = i + 1;
        assert(views(path@)[i - 1] == path@[i - 1]@);
        assert(s@ =~= start + arrows(views(path@), i as nat));
    }
    s.append(id);
    assert(s@ =~= start + loop_text(views(path@), id@));
}

fn object_words(def: &str, c: ObjectCategory, rest: &str) -> (s: String)
    ensures
        s@ == object_text(def@, c) + rest@,
{
    let mut s: String = with(def, " (");
    s.append(category_str(c));
    s.append(")");
    s.append(rest);
    s
}

impl Fault {
    /// What the check of a catalogue tells of the fault.
    pub fn check_message(&self) -> (s: String)
        ensures
            s@ == checked_words(self@),
    {
        match self {
            Fault::UnknownBlueprint { id } => with("unknown blueprint ", id.as_str()),
            Fault::UnknownObject { def } => with("unknown object ", def.as_str()),
            Fault::Cycle { path, id } => {
                let mut s: String = "blueprint cycle: ".to_string();
                push_loop(&mut s, path, id.as_str());
                s
            },
            Fault::TooDeep { id } => with("blueprint too deep at ", id.as_str()),
            Fault::NotInside { def, category } => object_words(
                def.as_str(),
                *category,
                " must be placed inside a structure/container",
            ),
            Fault::HoldsNothing { def, category } => object_words(
                def.as_str(),
                *category,
                " cannot hold child objects",
            ),
            Fault::BadShape { def } => {
                let mut s: String = with("object ", def.as_str());
                s.append(": unsound shape");
                s
            },
            Fault::BadPlacedShape { def } => {
                let mut s: String = with("placement of ", def.as_str());
                s.append(": unsound shape");
                s
            },
        }
    }

    /// What the resolution of a design tells of the fault.
    pub fn message(&self) -> (s: String)
        ensures
            s@ == resolved_words(self@),
    {
        match self {
            Fault::Cycle { path, id } => {
                let mut s: String = "blueprint cycle detected: ".to_string();
                push_loop(&mut s, path, id.as_str());
                s
            },
            Fault::TooDeep { id } => {
                let mut s: String = "blueprint nesting exceeded ".to_string();
                push_dec(&mut s, MAX_BLUEPRINT_DEPTH as u64);
                s.append(" (cycle or too deep) at ");
                s.append(id.as_str());
                s
            },
            _ => self.check_message(),
        }
    }
}

} // verus!
