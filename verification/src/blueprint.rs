//! Building: objects are placed to design a craft, designs are nested in designs, and a design is
//! resolved into the parts that it stands for.
//!
//! What is decided here is which parts there are, in what order, with which sizes and inside of which
//! frames, and whether a catalogue is sound. A part's place is the chain of frames from the craft down to
//! it; composing the chain, like measuring shapes, is left to whoever draws the craft. Lengths and
//! settings are in thousandths, angles in millionths of a radian.
use vstd::prelude::*;
use vstd::string::*;

use crate::order::views;
use crate::replication::{clone_texts, lists_text};
use crate::sort::{sort_stably, stably_sorted};
use crate::text::same_text;
use crate::wire::text_of;

pub mod words;

verus! {

/// How many designs may be nested in each other below the outermost.
pub const MAX_BLUEPRINT_DEPTH: usize = 16;

/// What an object is.
#[derive(Debug, Clone, Copy, PartialEq, Eq, Structural)]
pub enum ObjectCategory {
    Structure,
    Armor,
    Weapon,
    Turret,
    Gun,
    Thruster,
    CommandCenter,
    Radar,
    Sensor,
    StorageTank,
    Container,
    Upgrade,
}

/// Objects can be placed inside of it.
pub open spec fn is_holder(c: ObjectCategory) -> bool {
    c is Structure || c is Container
}

/// It must be placed inside of a holder.
pub open spec fn is_interior(c: ObjectCategory) -> bool {
    c is CommandCenter || c is Radar || c is Sensor || c is Upgrade
}

impl ObjectCategory {
    pub fn holds_children(self) -> (r: bool)
        ensures
            r == is_holder(self),
    {
        match self {
            ObjectCategory::Structure => true,
            ObjectCategory::Container => true,
            _ => false,
        }
    }

    pub fn must_be_interior(self) -> (r: bool)
        ensures
            r == is_interior(self),
    {
        match self {
            ObjectCategory::CommandCenter => true,
            ObjectCategory::Radar => true,
            ObjectCategory::Sensor => true,
            ObjectCategory::Upgrade => true,
            _ => false,
        }
    }
}

/// What an object contributes, in thousandths.
#[derive(Debug, PartialEq)]
pub struct ObjectStats {
    pub thrust: i64,
    /// Power generated, or consumed where it is negative.
    pub power: i64,
    /// The weapon that a mount fires.
    pub weapon: Option<String>,
    pub capacity: i64,
    pub sensor_range: i64,
    pub armor: i32,
    pub boost: i64,
}

pub struct StatsView {
    pub thrust: i64,
    pub power: i64,
    pub weapon: Option<Seq<char>>,
    pub capacity: i64,
    pub sensor_range: i64,
    pub armor: i32,
    pub boost: i64,
}

impl View for ObjectStats {
    type V = StatsView;

    open spec fn view(&self) -> StatsView {
        StatsView {
            thrust: self.thrust,
            power: self.power,
            weapon: text_of(self.weapon),
            capacity: self.capacity,
            sensor_range: self.sensor_range,
            armor: self.armor,
            boost: self.boost,
        }
    }
}

impl Default for ObjectStats {
    fn default() -> (s: Self)
        ensures
            s@ == (StatsView {
                thrust: 0,
                power: 0,
                weapon: None,
                capacity: 0,
                sensor_range: 0,
                armor: 0,
                boost: 0,
            }),
    {
        ObjectStats {
            thrust: 0,
            power: 0,
            weapon: None,
            capacity: 0,
            sensor_range: 0,
            armor: 0,
            boost: 0,
        }
    }
}

impl Clone for ObjectStats {
    fn clone(&self) -> (r: Self)
        ensures
            r@ == self@,
    {
        ObjectStats {
            thrust: self.thrust,
            power: self.power,
            weapon: match &self.weapon {
                Some(w) => Some(w.clone()),
                None => None,
            },
            capacity: self.capacity,
            sensor_range: self.sensor_range,
            armor: self.armor,
            boost: self.boost,
        }
    }
}

/// The number of a shape in the list of shapes that goes with a catalogue.
pub type ShapeId = u32;

/// An object that can be built.
#[derive(Debug, PartialEq)]
pub struct ObjectDef {
    pub id: String,
    pub name: String,
    pub category: ObjectCategory,
    pub shape: ShapeId,
    /// Mass of the shape at its own size.
    pub mass: i64,
    pub hp: i32,
    pub stats: ObjectStats,
}

impl ObjectDef {
    /// An object of unit mass and a hundred hit points that contributes nothing.
    pub fn new(id: &str, name: &str, category: ObjectCategory, shape: ShapeId) -> (o: Self)
        ensures
            o.id@ == id@,
            o.name@ == name@,
            o.category == category,
            o.shape == shape,
            o.mass == 1000,
            o.hp == 100,
            o.stats.thrust == 0,
            o.stats.power == 0,
            o.stats.weapon is None,
            o.stats.capacity == 0,
            o.stats.sensor_range == 0,
            o.stats.armor == 0,
            o.stats.boost == 0,
    {
        ObjectDef {
            id: id.to_string(),
            name: name.to_string(),
            category,
            shape,
            mass: 1000,
            hp: 100,
            stats: ObjectStats::default(),
        }
    }

    pub fn mass(self, m: i64) -> (o: Self)
        ensures
            o == (ObjectDef { mass: m, ..self }),
    {
        ObjectDef { mass: m, ..self }
    }

    pub fn hp(self, h: i32) -> (o: Self)
        ensures
            o == (ObjectDef { hp: h, ..self }),
    {
        ObjectDef { hp: h, ..self }
    }

    pub fn stats(self, s: ObjectStats) -> (o: Self)
        ensures
            o == (ObjectDef { stats: s, ..self }),
    {
        ObjectDef { stats: s, ..self }
    }
}

/// A placement in the frame of its parent.
#[derive(Debug, Clone, Copy, PartialEq, Eq, Structural)]
pub struct Transform2D {
    pub x: i32,
    pub y: i32,
    pub rot: i32,
}

impl Transform2D {
    pub fn new(x: i32, y: i32, rot: i32) -> (t: Self)
        ensures
            t == (Transform2D { x, y, rot }),
    {
        Transform2D { x, y, rot }
    }

    /// In its parent's own place.
    pub fn identity() -> (t: Self)
        ensures
            t == (Transform2D { x: 0, y: 0, rot: 0 }),
    {
        Transform2D { x: 0, y: 0, rot: 0 }
    }
}

/// A frame: where an instance of a placement stands in the frame of its parent.
#[derive(Debug, Clone, Copy, PartialEq, Eq, Structural)]
pub struct Frame {
    pub x: i64,
    pub y: i64,
    pub rot: i64,
    /// The place that is reached, taken from the outermost frame, counts with the other sign for `x` and
    /// for the angle.
    pub mirrored: bool,
}

/// A placement made many times, each a step further.
#[derive(Debug, Clone, Copy, PartialEq, Eq, Structural)]
pub struct Repeat {
    pub count: u32,
    pub dx: i32,
    pub dy: i32,
    pub drot: i32,
}

/// A value for a name.
#[derive(Debug, PartialEq)]
pub struct Setting {
    pub key: String,
    pub value: i64,
}

pub struct SettingView {
    pub key: Seq<char>,
    pub value: i64,
}

impl View for Setting {
    type V = SettingView;

    open spec fn view(&self) -> SettingView {
        SettingView { key: self.key@, value: self.value }
    }
}

/// A name whose value is that of a variable.
#[derive(Debug, PartialEq)]
pub struct Binding {
    pub key: String,
    pub var: String,
}

/// What a placement stands for.
#[derive(Debug, PartialEq)]
pub enum PlacementKind {
    /// An object of the catalogue.
    Object { def: String },
    /// Another design, with values for its parameters, given or bound to variables here.
    Blueprint { id: String, args: Vec<Setting>, arg_bind: Vec<Binding> },
}

/// A placement of a design.
#[derive(Debug, PartialEq)]
pub struct Placement {
    pub at: Transform2D,
    pub kind: PlacementKind,
    /// Sizes that are given: `w`, `h` and `r`.
    pub params: Vec<Setting>,
    /// Sizes that are bound to variables.
    pub bind: Vec<Binding>,
    /// A shape in place of the object's own.
    pub shape: Option<ShapeId>,
    /// What is placed inside of the object.
    pub children: Vec<Placement>,
    pub repeat: Option<Repeat>,
}

/// A plain placement at a transform: no sizes, nothing inside, made once.
pub open spec fn is_plain(p: Placement, at: Transform2D) -> bool {
    &&& p.at == at
    &&& p.params@.len() == 0
    &&& p.bind@.len() == 0
    &&& p.shape is None
    &&& p.children@.len() == 0
    &&& p.repeat is None
}

impl Placement {
    /// An object at a transform.
    pub fn object(def: &str, at: Transform2D) -> (p: Self)
        ensures
            is_plain(p, at),
            p.kind matches PlacementKind::Object { def: d } && d@ == def@,
    {
        Placement {
            at,
            kind: PlacementKind::Object { def: def.to_string() },
            params: Vec::new(),
            bind: Vec::new(),
            shape: None,
            children: Vec::new(),
            repeat: None,
        }
    }

    /// Another design at a transform.
    pub fn blueprint(id: &str, at: Transform2D) -> (p: Self)
        ensures
            is_plain(p, at),
            p.kind matches PlacementKind::Blueprint { id: d, args, arg_bind } && d@ == id@
                && args@.len() == 0 && arg_bind@.len() == 0,
    {
        Placement {
            at,
            kind: PlacementKind::Blueprint {
                id: id.to_string(),
                args: Vec::new(),
                arg_bind: Vec::new(),
            },
            params: Vec::new(),
            bind: Vec::new(),
            shape: None,
            children: Vec::new(),
            repeat: None,
        }
    }

    /// With things placed inside.
    pub fn with_children(self, children: Vec<Placement>) -> (p: Self)
        ensures
            p == (Placement { children, ..self }),
    {
        Placement { children, ..self }
    }

    /// With a size. The last value that is given for a name counts.
    pub fn with_param(self, key: &str, v: i64) -> (p: Self)
        ensures
            p.at == self.at,
            p.kind == self.kind,
            p.bind == self.bind,
            p.shape == self.shape,
            p.children == self.children,
            p.repeat == self.repeat,
            views(p.params@) == views(self.params@).push(SettingView { key: key@, value: v }),
    {
        let ghost before = self.params@;
        let mut p: Placement = self;
        p.params.push(Setting { key: key.to_string(), value: v });
        assert(views(p.params@) =~= views(before).push(SettingView { key: key@, value: v }));
        p
    }

    /// With a size that is bound to a variable. The last binding of a name alone counts.
    pub fn with_bind(self, key: &str, var: &str) -> (p: Self)
        ensures
            p.at == self.at,
            p.kind == self.kind,
            p.params == self.params,
            p.shape == self.shape,
            p.children == self.children,
            p.repeat == self.repeat,
            p.bind@.len() == self.bind@.len() + 1,
            p.bind@.drop_last() == self.bind@,
            p.bind@.last().key@ == key@,
            p.bind@.last().var@ == var@,
    {
        let mut p: Placement = self;
        p.bind.push(Binding { key: key.to_string(), var: var.to_string() });
        assert(p.bind@.drop_last() =~= self.bind@);
        p
    }

    /// With a value for a parameter of the other design; the last one for a name counts. An object takes
    /// none.
    pub fn with_arg(self, name: &str, v: i64) -> (p: Self)
        ensures
            p.at == self.at,
            p.params == self.params,
            p.bind == self.bind,
            p.shape == self.shape,
            p.children == self.children,
            p.repeat == self.repeat,
            match self.kind {
                PlacementKind::Object { def } => p.kind == self.kind,
                PlacementKind::Blueprint { id, args, arg_bind } => p.kind
                    matches PlacementKind::Blueprint { id: i, args: a, arg_bind: b } && i == id
                    && b == arg_bind && views(a@) == views(args@).push(
                    SettingView { key: name@, value: v },
                ),
            },
    {
        let mut p: Placement = self;
        match p.kind {
            PlacementKind::Object { def } => {
                p.kind = PlacementKind::Object { def };
            },
            PlacementKind::Blueprint { id, args, arg_bind } => {
                let ghost before = args@;
                let mut args = args;
                args.push(Setting { key: name.to_string(), value: v });
                assert(views(args@) =~= views(before).push(SettingView { key: name@, value: v }));
                p.kind = PlacementKind::Blueprint { id, args, arg_bind };
            },
        }
        p
    }

    /// With a parameter of the other design that is bound to a variable; the last binding of a name alone
    /// counts. An object takes none.
    pub fn with_arg_bind(self, name: &str, var: &str) -> (p: Self)
        ensures
            p.at == self.at,
            p.params == self.params,
            p.bind == self.bind,
            p.shape == self.shape,
            p.children == self.children,
            p.repeat == self.repeat,
            match self.kind {
                PlacementKind::Object { def } => p.kind == self.kind,
                PlacementKind::Blueprint { id, args, arg_bind } => p.kind
                    matches PlacementKind::Blueprint { id: i, args: a, arg_bind: b } && i == id
                    && a == args && b@.len() == arg_bind@.len() + 1 && b@.drop_last()
                    == arg_bind@ && b@.last().key@ == name@ && b@.last().var@ == var@,
            },
    {
        let mut p: Placement = self;
        match p.kind {
            PlacementKind::Object { def } => {
                p.kind = PlacementKind::Object { def };
            },
            PlacementKind::Blueprint { id, args, arg_bind } => {
                let ghost before = arg_bind@;
                let mut arg_bind = arg_bind;
                arg_bind.push(Binding { key: name.to_string(), var: var.to_string() });
                assert(arg_bind@.drop_last() =~= before);
                p.kind = PlacementKind::Blueprint { id, args, arg_bind };
            },
        }
        p
    }

    /// Made many times.
    pub fn with_repeat(self, repeat: Repeat) -> (p: Self)
        ensures
            p == (Placement { repeat: Some(repeat), ..self }),
    {
        Placement { repeat: Some(repeat), ..self }
    }

    /// With another shape.
    pub fn with_shape(self, shape: ShapeId) -> (p: Self)
        ensures
            p == (Placement { shape: Some(shape), ..self }),
    {
        Placement { shape: Some(shape), ..self }
    }
}

/// A parameter of a design.
#[derive(Debug, PartialEq)]
pub struct BpParam {
    pub name: String,
    pub default: i64,
    pub min: Option<i64>,
    pub max: Option<i64>,
}

/// A design.
#[derive(Debug, PartialEq)]
pub struct Blueprint {
    pub id: String,
    pub name: String,
    pub params: Vec<BpParam>,
    pub root: Vec<Placement>,
}

/// The objects and designs that there are.
pub struct Catalog<'a> {
    pub objects: &'a Vec<ObjectDef>,
    pub blueprints: &'a Vec<Blueprint>,
}

/// The first object of an id.
pub open spec fn object_of(objects: Seq<ObjectDef>, id: Seq<char>) -> Option<ObjectDef>
    decreases objects.len(),
{
    if objects.len() == 0 {
        None
    } else {
        match object_of(objects.drop_last(), id) {
            Some(o) => Some(o),
            None => if objects.last().id@ == id {
                Some(objects.last())
            } else {
                None
            },
        }
    }
}

/// The first design of an id.
pub open spec fn blueprint_of(blueprints: Seq<Blueprint>, id: Seq<char>) -> Option<Blueprint>
    decreases blueprints.len(),
{
    if blueprints.len() == 0 {
        None
    } else {
        match blueprint_of(blueprints.drop_last(), id) {
            Some(b) => Some(b),
            None => if blueprints.last().id@ == id {
                Some(blueprints.last())
            } else {
                None
            },
        }
    }
}

proof fn lemma_object_early(s: Seq<ObjectDef>, id: Seq<char>, n: int)
    requires
        0 <= n <= s.len(),
        object_of(s.subrange(0, n), id) is Some,
    ensures
        object_of(s, id) == object_of(s.subrange(0, n), id),
    decreases s.len(),
{
    if n < s.len() {
        assert(s.drop_last().subrange(0, n) =~= s.subrange(0, n));
        lemma_object_early(s.drop_last(), id, n);
    } else {
        assert(s.subrange(0, n) =~= s);
    }
}

proof fn lemma_blueprint_early(s: Seq<Blueprint>, id: Seq<char>, n: int)
    requires
        0 <= n <= s.len(),
        blueprint_of(s.subrange(0, n), id) is Some,
    ensures
        blueprint_of(s, id) == blueprint_of(s.subrange(0, n), id),
    decreases s.len(),
{
    if n < s.len() {
        assert(s.drop_last().subrange(0, n) =~= s.subrange(0, n));
        lemma_blueprint_early(s.drop_last(), id, n);
    } else {
        assert(s.subrange(0, n) =~= s);
    }
}

impl<'a> Catalog<'a> {
    /// The object of an id.
    pub fn object(&self, id: &str) -> (r: Option<&'a ObjectDef>)
        ensures
            match r {
                Some(o) => object_of(self.objects@, id@) == Some(*o),
                None => object_of(self.objects@, id@) is None,
            },
    {
        let mut i: usize = 0;
        assert(self.objects@.subrange(0, 0) =~= Seq::<ObjectDef>::empty());
        while i < self.objects.len()
            invariant
                i <= self.objects@.len(),
                object_of(self.objects@.subrange(0, i as int), id@) is None,
            decreases self.objects@.len() - i,
        {
            let ghost next = self.objects@.subrange(0, i + 1);
            assert(next.drop_last() =~= self.objects@.subrange(0, i as int));
            if same_text(self.objects[i].id.as_str(), id) {
                proof {
                    lemma_object_early(self.objects@, id@, i + 1);
                }
                return Some(&self.objects[i]);
            }
            i = i + 1;
        }
        assert(self.objects@.subrange(0, i as int) =~= self.objects@);
        None
    }

    /// The design of an id.
    pub fn blueprint(&self, id: &str) -> (r: Option<&'a Blueprint>)
        ensures
            match r {
                Some(b) => blueprint_of(self.blueprints@, id@) == Some(*b),
                None => blueprint_of(self.blueprints@, id@) is None,
            },
    {
        let mut i: usize = 0;
        assert(self.blueprints@.subrange(0, 0) =~= Seq::<Blueprint>::empty());
        while i < self.blueprints.len()
            invariant
                i <= self.blueprints@.len(),
                blueprint_of(self.blueprints@.subrange(0, i as int), id@) is None,
            decreases self.blueprints@.len() - i,
        {
            let ghost next = self.blueprints@.subrange(0, i + 1);
            assert(next.drop_last() =~= self.blueprints@.subrange(0, i as int));
            if same_text(self.blueprints[i].id.as_str(), id) {
                proof {
                    lemma_blueprint_early(self.blueprints@, id@, i + 1);
                }
                return Some(&self.blueprints[i]);
            }
            i = i + 1;
        }
        assert(self.blueprints@.subrange(0, i as int) =~= self.blueprints@);
        None
    }
}

/// A part of a craft.
#[derive(Debug, PartialEq)]
pub struct ResolvedPart {
    pub def: String,
    pub category: ObjectCategory,
    /// The frames from the craft down to the part.
    pub frames: Vec<Frame>,
    /// The shape to draw.
    pub shape: ShapeId,
    /// The shape that the object's mass and hit points go with.
    pub own_shape: ShapeId,
    /// The sizes to draw it in, where they are not its own.
    pub w: Option<i64>,
    pub h: Option<i64>,
    pub r: Option<i64>,
    pub mass: i64,
    pub hp: i32,
    pub stats: ObjectStats,
}

pub struct PartView {
    pub def: Seq<char>,
    pub category: ObjectCategory,
    pub frames: Seq<Frame>,
    pub shape: ShapeId,
    pub own_shape: ShapeId,
    pub w: Option<i64>,
    pub h: Option<i64>,
    pub r: Option<i64>,
    pub mass: i64,
    pub hp: i32,
    pub stats: StatsView,
}

impl View for ResolvedPart {
    type V = PartView;

    open spec fn view(&self) -> PartView {
        PartView {
            def: self.def@,
            category: self.category,
            frames: self.frames@,
            shape: self.shape,
            own_shape: self.own_shape,
            w: self.w,
            h: self.h,
            r: self.r,
            mass: self.mass,
            hp: self.hp,
            stats: self.stats@,
        }
    }
}

/// What is wrong with a design or a catalogue.
#[derive(Debug, PartialEq)]
#[allow(inconsistent_fields)]
pub enum Fault {
    UnknownBlueprint { id: String },
    UnknownObject { def: String },
    /// A design is nested in itself, by way of the designs on the path.
    Cycle { path: Vec<String>, id: String },
    TooDeep { id: String },
    /// The object must be placed inside of a holder.
    NotInside { def: String, category: ObjectCategory },
    /// The object cannot hold others.
    HoldsNothing { def: String, category: ObjectCategory },
    /// The shape of an object is unsound.
    BadShape { def: String },
    /// The shape of a placement is unsound.
    BadPlacedShape { def: String },
}

#[allow(inconsistent_fields)]
pub enum FaultView {
    UnknownBlueprint { id: Seq<char> },
    UnknownObject { def: Seq<char> },
    Cycle { path: Seq<Seq<char>>, id: Seq<char> },
    TooDeep { id: Seq<char> },
    NotInside { def: Seq<char>, category: ObjectCategory },
    HoldsNothing { def: Seq<char>, category: ObjectCategory },
    BadShape { def: Seq<char> },
    BadPlacedShape { def: Seq<char> },
}

impl View for Fault {
    type V = FaultView;

    open spec fn view(&self) -> FaultView {
        match *self {
            Fault::UnknownBlueprint { id } => FaultView::UnknownBlueprint { id: id@ },
            Fault::UnknownObject { def } => FaultView::UnknownObject { def: def@ },
            Fault::Cycle { path, id } => FaultView::Cycle { path: views(path@), id: id@ },
            Fault::TooDeep { id } => FaultView::TooDeep { id: id@ },
            Fault::NotInside { def, category } => FaultView::NotInside { def: def@, category },
            Fault::HoldsNothing { def, category } => FaultView::HoldsNothing {
                def: def@,
                category,
            },
            Fault::BadShape { def } => FaultView::BadShape { def: def@ },
            Fault::BadPlacedShape { def } => FaultView::BadPlacedShape { def: def@ },
        }
    }
}

/// The last value that is given for a name.
pub open spec fn value_of(settings: Seq<SettingView>, key: Seq<char>) -> Option<i64>
    decreases settings.len(),
{
    if settings.len() == 0 {
        None
    } else if settings.last().key == key {
        Some(settings.last().value)
    } else {
        value_of(settings.drop_last(), key)
    }
}

/// The value that a name is bound to: that of the variable in its last binding, where that variable is
/// there. Earlier bindings of the name count for nothing.
pub open spec fn bound_value(
    bind: Seq<Binding>,
    scope: Seq<SettingView>,
    key: Seq<char>,
) -> Option<i64>
    decreases bind.len(),
{
    if bind.len() == 0 {
        None
    } else if bind.last().key@ == key {
        value_of(scope, bind.last().var@)
    } else {
        bound_value(bind.drop_last(), scope, key)
    }
}

/// Whether some binding is one of a name.
pub open spec fn binds(bind: Seq<Binding>, key: Seq<char>) -> bool {
    exists|i: int| 0 <= i < bind.len() && (#[trigger] bind[i]).key@ == key
}

/// The size of a placement: the variable that it is bound to, or else the one that is given.
pub open spec fn size_of(p: Placement, scope: Seq<SettingView>, key: Seq<char>) -> Option<i64> {
    match bound_value(p.bind@, scope, key) {
        Some(v) => Some(v),
        None => value_of(views(p.params@), key),
    }
}

/// A value held to the limits that there are.
pub open spec fn limited(v: i64, min: Option<i64>, max: Option<i64>) -> i64 {
    let low = match min {
        Some(m) => if v < m {
            m
        } else {
            v
        },
        None => v,
    };
    match max {
        Some(m) => if low > m {
            m
        } else {
            low
        },
        None => low,
    }
}

/// The variable that a parameter becomes.
pub open spec fn variable_of(p: BpParam, args: Seq<SettingView>) -> SettingView {
    let v = match value_of(args, p.name@) {
        Some(v) => v,
        None => p.default,
    };
    SettingView { key: p.name@, value: limited(v, p.min, p.max) }
}

/// The variables of a design: its parameters, as given or by default, held to their limits.
pub open spec fn scope_of(params: Seq<BpParam>, args: Seq<SettingView>) -> Seq<SettingView> {
    params.map_values(|p: BpParam| variable_of(p, args))
}

/// The values that the last binding of each name gives, where the variable is there.
pub open spec fn bound_args(bind: Seq<Binding>, scope: Seq<SettingView>) -> Seq<SettingView>
    decreases bind.len(),
{
    if bind.len() == 0 {
        Seq::empty()
    } else {
        let after = bound_args(bind.drop_first(), scope);
        if binds(bind.drop_first(), bind[0].key@) {
            after
        } else {
            match value_of(scope, bind[0].var@) {
                Some(v) => after.push(SettingView { key: bind[0].key@, value: v }),
                None => after,
            }
        }
    }
}

/// What the first binding of a list adds to the rest.
proof fn lemma_first_binding(bind: Seq<Binding>, scope: Seq<SettingView>, key: Seq<char>)
    requires
        bind.len() > 0,
    ensures
        bound_value(bind, scope, key) == (if binds(bind.drop_first(), key) {
            bound_value(bind.drop_first(), scope, key)
        } else if bind[0].key@ == key {
            value_of(scope, bind[0].var@)
        } else {
            None
        }),
        !binds(bind, key) ==> bound_value(bind, scope, key) is None,
    decreases bind.len(),
{
    let rest = bind.drop_first();
    if bind.len() == 1 {
        assert(bind.drop_last() =~= Seq::<Binding>::empty());
        assert(bind.last() == bind[0]);
    } else {
        let less = bind.drop_last();
        assert(less.drop_first() =~= rest.drop_last());
        assert(less[0] == bind[0]);
        assert(rest.last() == bind.last());
        lemma_first_binding(less, scope, key);
        if bind.last().key@ == key {
            assert(rest[rest.len() - 1].key@ == key);
        } else {
            assert(binds(rest, key) <==> binds(rest.drop_last(), key)) by {
                if binds(rest, key) {
                    let i = choose|i: int| 0 <= i < rest.len() && (#[trigger] rest[i]).key@ == key;
                    assert(rest.drop_last()[i].key@ == key);
                }
                if binds(rest.drop_last(), key) {
                    let less_rest = rest.drop_last();
                    let i = choose|i: int|
                        0 <= i < less_rest.len() && (#[trigger] less_rest[i]).key@ == key;
                    assert(rest[i].key@ == key);
                }
            }
        }
    }
    if !binds(bind, key) {
        assert(bind[0].key@ != key);
        if binds(rest, key) {
            let i = choose|i: int| 0 <= i < rest.len() && (#[trigger] rest[i]).key@ == key;
            assert(bind[i + 1].key@ == key);
        }
    }
}

proof fn lemma_value_behind(a: Seq<SettingView>, b: Seq<SettingView>, key: Seq<char>)
    ensures
        value_of(a + b, key) == (match value_of(b, key) {
            Some(v) => Some(v),
            None => value_of(a, key),
        }),
    decreases b.len(),
{
    if b.len() == 0 {
        assert(a + b =~= a);
    } else {
        assert((a + b).last() == b.last());
        assert((a + b).drop_last() =~= a + b.drop_last());
        lemma_value_behind(a, b.drop_last(), key);
    }
}

proof fn lemma_bound_args(bind: Seq<Binding>, scope: Seq<SettingView>, key: Seq<char>)
    ensures
        value_of(bound_args(bind, scope), key) == bound_value(bind, scope, key),
    decreases bind.len(),
{
    if bind.len() > 0 {
        let rest = bind.drop_first();
        lemma_bound_args(rest, scope, key);
        lemma_first_binding(bind, scope, key);
        if rest.len() > 0 {
            lemma_first_binding(rest, scope, key);
        }
        let after = bound_args(rest, scope);
        if let Some(v) = value_of(scope, bind[0].var@) {
            let s = SettingView { key: bind[0].key@, value: v };
            assert(after.push(s).drop_last() =~= after);
            assert(after.push(s).last() == s);
        }
    }
}

/// A parameter of a nested design is what its last binding says, where the variable in it is there; else
/// the last value that is given. What was bound or given before that counts for nothing.
pub proof fn law_last_binding_decides(
    args: Seq<SettingView>,
    bind: Seq<Binding>,
    scope: Seq<SettingView>,
    key: Seq<char>,
)
    ensures
        value_of(args + bound_args(bind, scope), key) == (match bound_value(bind, scope, key) {
            Some(v) => Some(v),
            None => value_of(args, key),
        }),
        bind.len() > 0 && bind.last().key@ == key ==> bound_value(bind, scope, key) == value_of(
            scope,
            bind.last().var@,
        ),
{
    lemma_bound_args(bind, scope, key);
    lemma_value_behind(args, bound_args(bind, scope), key);
}

/// The frame of an instance of a placement.
pub open spec fn frame_of(p: Placement, i: int) -> Frame {
    match p.repeat {
        Some(r) => Frame {
            x: (p.at.x + r.dx * i) as i64,
            y: (p.at.y + r.dy * i) as i64,
            rot: (p.at.rot + r.drot * i) as i64,
            mirrored: false,
        },
        None => Frame {
            x: p.at.x as i64,
            y: p.at.y as i64,
            rot: p.at.rot as i64,
            mirrored: false,
        },
    }
}

/// How often a placement is made.
pub open spec fn count_of(p: Placement) -> nat {
    match p.repeat {
        Some(r) => if r.count == 0 {
            1
        } else {
            r.count as nat
        },
        None => 1,
    }
}

/// The part that an instance of an object's placement becomes.
pub open spec fn part_of(
    p: Placement,
    od: ObjectDef,
    scope: Seq<SettingView>,
    frames: Seq<Frame>,
) -> PartView {
    PartView {
        def: od.id@,
        category: od.category,
        frames,
        shape: match p.shape {
            Some(s) => s,
            None => od.shape,
        },
        own_shape: od.shape,
        w: size_of(p, scope, "w"@),
        h: size_of(p, scope, "h"@),
        r: size_of(p, scope, "r"@),
        mass: od.mass,
        hp: od.hp,
        stats: od.stats@,
    }
}

/// What a catalogue holds.
pub struct Stock {
    pub objects: Seq<ObjectDef>,
    pub blueprints: Seq<Blueprint>,
}

/// The parts of a design in some frames, or what is wrong with it. `fuel` is how many designs may still
/// be entered; `path` are those that it is nested in.
pub open spec fn parts_of_design(
    c: Stock,
    id: Seq<char>,
    args: Seq<SettingView>,
    frames: Seq<Frame>,
    fuel: nat,
    path: Seq<Seq<char>>,
) -> Result<Seq<PartView>, FaultView>
    decreases fuel, 1int, path, 0int,
{
    if fuel == 0 {
        Err(FaultView::TooDeep { id })
    } else if path.contains(id) {
        Err(FaultView::Cycle { path, id })
    } else {
        match blueprint_of(c.blueprints, id) {
            None => Err(FaultView::UnknownBlueprint { id }),
            Some(bp) => parts_of_list(
                c,
                bp.root@,
                bp.root@.len(),
                scope_of(bp.params@, args),
                frames,
                fuel,
                path.push(id),
            ),
        }
    }
}

/// The parts of the first `n` of some placements.
pub open spec fn parts_of_list(
    c: Stock,
    list: Seq<Placement>,
    n: nat,
    scope: Seq<SettingView>,
    frames: Seq<Frame>,
    fuel: nat,
    path: Seq<Seq<char>>,
) -> Result<Seq<PartView>, FaultView>
    decreases fuel, 0int, list, n,
{
    if n == 0 || n > list.len() {
        Ok(Seq::empty())
    } else {
        match parts_of_list(c, list, (n - 1) as nat, scope, frames, fuel, path) {
            Err(e) => Err(e),
            Ok(before) => match parts_of_copies(
                c,
                list[n - 1],
                count_of(list[n - 1]),
                scope,
                frames,
                fuel,
                path,
            ) {
                Err(e) => Err(e),
                Ok(more) => Ok(before + more),
            },
        }
    }
}

/// The parts of the first `n` instances of a placement.
pub open spec fn parts_of_copies(
    c: Stock,
    p: Placement,
    n: nat,
    scope: Seq<SettingView>,
    frames: Seq<Frame>,
    fuel: nat,
    path: Seq<Seq<char>>,
) -> Result<Seq<PartView>, FaultView>
    decreases fuel, 0int, p, n + 1,
{
    if n == 0 {
        Ok(Seq::empty())
    } else {
        match parts_of_copies(c, p, (n - 1) as nat, scope, frames, fuel, path) {
            Err(e) => Err(e),
            Ok(before) => match parts_of_instance(
                c,
                p,
                scope,
                frames.push(frame_of(p, n - 1)),
                fuel,
                path,
            ) {
                Err(e) => Err(e),
                Ok(more) => Ok(before + more),
            },
        }
    }
}

/// The parts of one instance of a placement: the object with what is inside of it, or the parts of the
/// design.
pub open spec fn parts_of_instance(
    c: Stock,
    p: Placement,
    scope: Seq<SettingView>,
    frames: Seq<Frame>,
    fuel: nat,
    path: Seq<Seq<char>>,
) -> Result<Seq<PartView>, FaultView>
    decreases fuel, 0int, p, 0int,
{
    match p.kind {
        PlacementKind::Object { def } => match object_of(c.objects, def@) {
            None => Err(FaultView::UnknownObject { def: def@ }),
            Some(od) => match parts_of_list(
                c,
                p.children@,
                p.children@.len(),
                scope,
                frames,
                fuel,
                path,
            ) {
                Err(e) => Err(e),
                Ok(inside) => Ok(seq![part_of(p, od, scope, frames)] + inside),
            },
        },
        PlacementKind::Blueprint { id, args, arg_bind } => if fuel == 0 {
            Err(FaultView::TooDeep { id: id@ })
        } else {
            parts_of_design(
                c,
                id@,
                views(args@) + bound_args(arg_bind@, scope),
                frames,
                (fuel - 1) as nat,
                path,
            )
        },
    }
}

fn lookup(settings: &Vec<Setting>, key: &str) -> (r: Option<i64>)
    ensures
        r == value_of(views(settings@), key@),
{
    let ghost all = views(settings@);
    let mut found: Option<i64> = None;
    let mut i: usize = 0;
    assert(all.subrange(0, 0) =~= Seq::<SettingView>::empty());
    while i < settings.len()
        invariant
            i <= settings@.len(),
            all == views(settings@),
            found == value_of(all.subrange(0, i as int), key@),
        decreases settings@.len() - i,
    {
        proof {
            let next = all.subrange(0, i + 1);
            assert(next.drop_last() =~= all.subrange(0, i as int));
            assert(next.last() == settings@[i as int]@);
        }
        if same_text(settings[i].key.as_str(), key) {
            found = Some(settings[i].value);
        }
        i = i + 1;
    }
    assert(all.subrange(0, i as int) =~= all);
    found
}

fn size_in(p: &Placement, scope: &Vec<Setting>, key: &str) -> (r: Option<i64>)
    ensures
        r == size_of(*p, views(scope@), key@),
{
    let ghost vars = views(scope@);
    let mut found: Option<i64> = None;
    let mut i: usize = 0;
    assert(p.bind@.subrange(0, 0) =~= Seq::<Binding>::empty());
    while i < p.bind.len()
        invariant
            i <= p.bind@.len(),
            vars == views(scope@),
            found == bound_value(p.bind@.subrange(0, i as int), vars, key@),
        decreases p.bind@.len() - i,
    {
        let b = &p.bind[i];
        proof {
            let next = p.bind@.subrange(0, i + 1);
            assert(next.drop_last() =~= p.bind@.subrange(0, i as int));
            assert(next.last() == *b);
        }
        if same_text(b.key.as_str(), key) {
            found = lookup(scope, b.var.as_str());
        }
        i = i + 1;
    }
    assert(p.bind@.subrange(0, i as int) =~= p.bind@);
    match found {
        Some(v) => Some(v),
        None => lookup(&p.params, key),
    }
}

fn limit(v: i64, min: Option<i64>, max: Option<i64>) -> (r: i64)
    ensures
        r == limited(v, min, max),
{
    let low: i64 = match min {
        Some(m) => if v < m {
            m
        } else {
            v
        },
        None => v,
    };
    match max {
        Some(m) => if low > m {
            m
        } else {
            low
        },
        None => low,
    }
}

fn variables(params: &Vec<BpParam>, args: &Vec<Setting>) -> (r: Vec<Setting>)
    ensures
        views(r@) == scope_of(params@, views(args@)),
{
    let mut out: Vec<Setting> = Vec::new();
    let mut i: usize = 0;
    while i < params.len()
        invariant
            i <= params@.len(),
            out@.len() == i,
            forall|j: int|
                0 <= j < i ==> (#[trigger] out@[j])@ == variable_of(params@[j], views(args@)),
        decreases params@.len() - i,
    {
        let p = &params[i];
        let v: i64 = match lookup(args, p.name.as_str()) {
            Some(v) => v,
            None => p.default,
        };
        out.push(Setting { key: p.name.clone(), value: limit(v, p.min, p.max) });
        i = i + 1;
    }
    assert(views(out@) =~= scope_of(params@, views(args@)));
    out
}

fn arguments(args: &Vec<Setting>, bind: &Vec<Binding>, scope: &Vec<Setting>) -> (r: Vec<Setting>)
    ensures
        views(r@) == views(args@) + bound_args(bind@, views(scope@)),
{
    let mut out: Vec<Setting> = Vec::new();
    let mut i: usize = 0;
    while i < args.len()
        invariant
            i <= args@.len(),
            out@.len() == i,
            forall|j: int| 0 <= j < i ==> (#[trigger] out@[j])@ == args@[j]@,
        decreases args@.len() - i,
    {
        out.push(Setting { key: args[i].key.clone(), value: args[i].value });
        i = i + 1;
    }
    let ghost given = views(args@);
    let ghost vars = views(scope@);
    let mut k: usize = bind.len();
    proof {
        assert(bind@.skip(k as int) =~= Seq::<Binding>::empty());
        assert(views(out@) =~= given + bound_args(bind@.skip(k as int), vars));
    }
    while k > 0
        invariant
            k <= bind@.len(),
            vars == views(scope@),
            views(out@) == given + bound_args(bind@.skip(k as int), vars),
        decreases k,
    {
        let ghost before = views(out@);
        let ghost bound = bound_args(bind@.skip(k as int), vars);
        let b = &bind[k - 1];
        proof {
            let next = bind@.skip(k - 1);
            assert(next.drop_first() =~= bind@.skip(k as int));
            assert(next[0] == *b);
        }
        if !bound_again(bind, k, b.key.as_str()) {
            if let Some(v) = lookup(scope, b.var.as_str()) {
                out.push(Setting { key: b.key.clone(), value: v });
                proof {
                    let s = SettingView { key: b.key@, value: v };
                    assert(views(out@) =~= before.push(s));
                    assert((given + bound).push(s) =~= given + bound.push(s));
                }
            }
        }
        k = k - 1;
    }
    assert(bind@.skip(0) =~= bind@);
    out
}

/// Whether a name is bound from a place in a list on.
fn bound_again(bind: &Vec<Binding>, from: usize, key: &str) -> (r: bool)
    requires
        from <= bind@.len(),
    ensures
        r == binds(bind@.skip(from as int), key@),
{
    let ghost rest = bind@.skip(from as int);
    let mut i: usize = from;
    while i < bind.len()
        invariant
            from <= i <= bind@.len(),
            rest == bind@.skip(from as int),
            forall|j: int| 0 <= j < i - from ==> (#[trigger] rest[j]).key@ != key@,
        decreases bind@.len() - i,
    {
        assert(rest[i - from] == bind@[i as int]);
        if same_text(bind[i].key.as_str(), key) {
            return true;
        }
        i = i + 1;
    }
    false
}

fn frame_at(p: &Placement, i: u32) -> (f: Frame)
    requires
        i < count_of(*p),
    ensures
        f == frame_of(*p, i as int),
{
    match &p.repeat {
        Some(r) => {
            proof {
                lemma_step(p.at.x, r.dx, i);
                lemma_step(p.at.y, r.dy, i);
                lemma_step(p.at.rot, r.drot, i);
            }
            Frame {
                x: p.at.x as i64 + r.dx as i64 * i as i64,
                y: p.at.y as i64 + r.dy as i64 * i as i64,
                rot: p.at.rot as i64 + r.drot as i64 * i as i64,
                mirrored: false,
            }
        },
        None => Frame {
            x: p.at.x as i64,
            y: p.at.y as i64,
            rot: p.at.rot as i64,
            mirrored: false,
        },
    }
}

proof fn lemma_step(a: i32, d: i32, i: u32)
    requires
        i < u32::MAX,
    ensures
        i64::MIN <= d * i <= i64::MAX,
        i64::MIN <= a + d * i <= i64::MAX,
{
    assert(-0x8000_0000 * 0xffff_fffe <= d * i <= 0x7fff_ffff * 0xffff_fffe) by (nonlinear_arith)
        requires
            -0x8000_0000 <= d <= 0x7fff_ffff,
            0 <= i <= 0xffff_fffe,
    ;
}

fn clone_frames(frames: &Vec<Frame>) -> (r: Vec<Frame>)
    ensures
        r@ == frames@,
{
    let mut out: Vec<Frame> = Vec::new();
    let mut i: usize = 0;
    while i < frames.len()
        invariant
            i <= frames@.len(),
            out@ == frames@.subrange(0, i as int),
        decreases frames@.len() - i,
    {
        out.push(frames[i]);
        i = i + 1;
        assert(out@ =~= frames@.subrange(0, i as int));
    }
    assert(frames@.subrange(0, i as int) =~= frames@);
    out
}

pub open spec fn stock_of(c: Catalog) -> Stock {
    Stock { objects: c.objects@, blueprints: c.blueprints@ }
}

/// The parts were appended, or the fault is the one that there is.
pub(crate) open spec fn delivered(
    r: Result<(), Fault>,
    before: Seq<ResolvedPart>,
    after: Seq<ResolvedPart>,
    want: Result<Seq<PartView>, FaultView>,
) -> bool {
    match r {
        Ok(u) => want is Ok && views(after) == views(before) + want->Ok_0,
        Err(e) => want == Err::<Seq<PartView>, FaultView>(e@),
    }
}

pub(crate) fn resolve_blueprint_into(
    catalog: &Catalog,
    id: &str,
    args: &Vec<Setting>,
    frames: &Vec<Frame>,
    fuel: usize,
    path: &Vec<String>,
    out: &mut Vec<ResolvedPart>,
) -> (r: Result<(), Fault>)
    ensures
        delivered(
            r,
            old(out)@,
            final(out)@,
            parts_of_design(
                stock_of(*catalog),
                id@,
                views(args@),
                frames@,
                fuel as nat,
                views(path@),
            ),
        ),
    decreases fuel, 1int, path@, 0int,
{
    if fuel == 0 {
        return Err(Fault::TooDeep { id: id.to_string() });
    }
    if lists_text(path, id) {
        return Err(Fault::Cycle { path: clone_texts(path), id: id.to_string() });
    }
    let bp: &Blueprint = match catalog.blueprint(id) {
        Some(b) => b,
        None => {
            return Err(Fault::UnknownBlueprint { id: id.to_string() });
        },
    };
    let scope = variables(&bp.params, args);
    let mut inner: Vec<String> = clone_texts(path);
    inner.push(id.to_string());
    assert(views(inner@) =~= views(path@).push(id@));
    resolve_list(catalog, &bp.root, &scope, frames, fuel, &inner, out)
}

fn resolve_list(
    catalog: &Catalog,
    list: &Vec<Placement>,
    scope: &Vec<Setting>,
    frames: &Vec<Frame>,
    fuel: usize,
    path: &Vec<String>,
    out: &mut Vec<ResolvedPart>,
) -> (r: Result<(), Fault>)
    ensures
        delivered(
            r,
            old(out)@,
            final(out)@,
            parts_of_list(
                stock_of(*catalog),
                list@,
                list@.len(),
                views(scope@),
                frames@,
                fuel as nat,
                views(path@),
            ),
        ),
    decreases fuel, 0int, list@, list@.len(),
{
    let ghost c = stock_of(*catalog);
    let ghost before = views(out@);
    let mut i: usize = 0;
    assert(before + Seq::<PartView>::empty() =~= before);
    while i < list.len()
        invariant
            i <= list@.len(),
            c == stock_of(*catalog),
            ({
                let so_far = parts_of_list(
                    c,
                    list@,
                    i as nat,
                    views(scope@),
                    frames@,
                    fuel as nat,
                    views(path@),
                );
                so_far is Ok && views(out@) == before + so_far->Ok_0
            }),
        decreases list@.len() - i,
    {
        let ghost so_far = parts_of_list(
            c,
            list@,
            i as nat,
            views(scope@),
            frames@,
            fuel as nat,
            views(path@),
        )->Ok_0;
        let ghost held = out@;
        match resolve_placement(catalog, &list[i], scope, frames, fuel, path, out) {
            Ok(u) => {
                proof {
                    let more = parts_of_copies(
                        c,
                        list@[i as int],
                        count_of(list@[i as int]),
                        views(scope@),
                        frames@,
                        fuel as nat,
                        views(path@),
                    )->Ok_0;
                    assert(before + so_far + more =~= before + (so_far + more));
                }
            },
            Err(e) => {
                proof {
                    lemma_list_fails(
                        c,
                        list@,
                        (i + 1) as nat,
                        list@.len(),
                        views(scope@),
                        frames@,
                        fuel as nat,
                        views(path@),
                        e@,
                    );
                }
                return Err(e);
            },
        }
        i = i + 1;
    }
    Ok(())
}

/// A list whose first placements fail fails as a whole, and for the same reason.
proof fn lemma_list_fails(
    c: Stock,
    list: Seq<Placement>,
    n: nat,
    m: nat,
    scope: Seq<SettingView>,
    frames: Seq<Frame>,
    fuel: nat,
    path: Seq<Seq<char>>,
    e: FaultView,
)
    requires
        n <= m <= list.len(),
        parts_of_list(c, list, n, scope, frames, fuel, path) == Err::<Seq<PartView>, FaultView>(e),
    ensures
        parts_of_list(c, list, m, scope, frames, fuel, path) == Err::<Seq<PartView>, FaultView>(e),
    decreases m,
{
    if n < m {
        lemma_list_fails(c, list, n, (m - 1) as nat, scope, frames, fuel, path, e);
    }
}

proof fn lemma_copies_fail(
    c: Stock,
    p: Placement,
    n: nat,
    m: nat,
    scope: Seq<SettingView>,
    frames: Seq<Frame>,
    fuel: nat,
    path: Seq<Seq<char>>,
    e: FaultView,
)
    requires
        n <= m,
        parts_of_copies(c, p, n, scope, frames, fuel, path) == Err::<Seq<PartView>, FaultView>(e),
    ensures
        parts_of_copies(c, p, m, scope, frames, fuel, path) == Err::<Seq<PartView>, FaultView>(e),
    decreases m,
{
    if n < m {
        lemma_copies_fail(c, p, n, (m - 1) as nat, scope, frames, fuel, path, e);
    }
}

fn resolve_placement(
    catalog: &Catalog,
    placement: &Placement,
    scope: &Vec<Setting>,
    frames: &Vec<Frame>,
    fuel: usize,
    path: &Vec<String>,
    out: &mut Vec<ResolvedPart>,
) -> (r: Result<(), Fault>)
    ensures
        delivered(
            r,
            old(out)@,
            final(out)@,
            parts_of_copies(
                stock_of(*catalog),
                *placement,
                count_of(*placement),
                views(scope@),
                frames@,
                fuel as nat,
                views(path@),
            ),
        ),
    decreases fuel, 0int, *placement, 1int,
{
    let ghost c = stock_of(*catalog);
    let ghost before = views(out@);
    let n: u32 = match &placement.repeat {
        Some(r) => if r.count == 0 {
            1
        } else {
            r.count
        },
        None => 1,
    };
    let mut i: u32 = 0;
    assert(before + Seq::<PartView>::empty() =~= before);
    while i < n
        invariant
            i <= n == count_of(*placement),
            c == stock_of(*catalog),
            ({
                let so_far = parts_of_copies(
                    c,
                    *placement,
                    i as nat,
                    views(scope@),
                    frames@,
                    fuel as nat,
                    views(path@),
                );
                so_far is Ok && views(out@) == before + so_far->Ok_0
            }),
        decreases n - i,
    {
        let ghost so_far = parts_of_copies(
            c,
            *placement,
            i as nat,
            views(scope@),
            frames@,
            fuel as nat,
            views(path@),
        )->Ok_0;
        let mut world: Vec<Frame> = clone_frames(frames);
        world.push(frame_at(placement, i));
        assert(world@ =~= frames@.push(frame_of(*placement, i as int)));
        match resolve_instance(catalog, placement, scope, &world, fuel, path, out) {
            Ok(u) => {
                proof {
                    let more = parts_of_instance(
                        c,
                        *placement,
                        views(scope@),
                        world@,
                        fuel as nat,
                        views(path@),
                    )->Ok_0;
                    assert(before + so_far + more =~= before + (so_far + more));
                }
            },
            Err(e) => {
                proof {
                    lemma_copies_fail(
                        c,
                        *placement,
                        (i + 1) as nat,
                        n as nat,
                        views(scope@),
                        frames@,
                        fuel as nat,
                        views(path@),
                        e@,
                    );
                }
                return Err(e);
            },
        }
        i = i + 1;
    }
    Ok(())
}

fn resolve_instance(
    catalog: &Catalog,
    placement: &Placement,
    scope: &Vec<Setting>,
    world: &Vec<Frame>,
    fuel: usize,
    path: &Vec<String>,
    out: &mut Vec<ResolvedPart>,
) -> (r: Result<(), Fault>)
    ensures
        delivered(
            r,
            old(out)@,
            final(out)@,
            parts_of_instance(
                stock_of(*catalog),
                *placement,
                views(scope@),
                world@,
                fuel as nat,
                views(path@),
            ),
        ),
    decreases fuel, 0int, *placement, 0int,
{
    let ghost before = views(out@);
    match &placement.kind {
        PlacementKind::Object { def } => {
            let od: &ObjectDef = match catalog.object(def.as_str()) {
                Some(o) => o,
                None => {
                    return Err(Fault::UnknownObject { def: def.clone() });
                },
            };
            let part = ResolvedPart {
                def: od.id.clone(),
                category: od.category,
                frames: clone_frames(world),
                shape: match placement.shape {
                    Some(s) => s,
                    None => od.shape,
                },
                own_shape: od.shape,
                w: size_in(placement, scope, "w"),
                h: size_in(placement, scope, "h"),
                r: size_in(placement, scope, "r"),
                mass: od.mass,
                hp: od.hp,
                stats: od.stats.clone(),
            };
            out.push(part);
            proof {
                assert(part@ == part_of(*placement, *od, views(scope@), world@));
                assert(views(out@) =~= before.push(part@));
            }
            match resolve_list(catalog, &placement.children, scope, world, fuel, path, out) {
                Ok(u) => {
                    proof {
                        let inside = parts_of_list(
                            stock_of(*catalog),
                            placement.children@,
                            placement.children@.len(),
                            views(scope@),
                            world@,
                            fuel as nat,
                            views(path@),
                        )->Ok_0;
                        assert(before.push(part@) + inside =~= before + (seq![part@] + inside));
                    }
                    Ok(())
                },
                Err(e) => Err(e),
            }
        },
        PlacementKind::Blueprint { id, args, arg_bind } => {
            if fuel == 0 {
                return Err(Fault::TooDeep { id: id.clone() });
            }
            let given = arguments(args, arg_bind, scope);
            resolve_blueprint_into(catalog, id.as_str(), &given, world, fuel - 1, path, out)
        },
    }
}

/// A craft: its parts, and what they contribute together.
#[derive(Debug, PartialEq)]
pub struct ResolvedCraft {
    pub parts: Vec<ResolvedPart>,
    pub total_thrust: i128,
    pub net_power: i128,
    /// The weapons that are mounted, in order.
    pub weapon_mounts: Vec<String>,
    pub storage_capacity: i128,
}

/// What some parts contribute together.
pub open spec fn sum_of(parts: Seq<ResolvedPart>, f: spec_fn(ResolvedPart) -> i64) -> int
    decreases parts.len(),
{
    if parts.len() == 0 {
        0
    } else {
        sum_of(parts.drop_last(), f) + f(parts.last())
    }
}

pub open spec fn thrust() -> spec_fn(ResolvedPart) -> i64 {
    |p: ResolvedPart| p.stats.thrust
}

pub open spec fn power() -> spec_fn(ResolvedPart) -> i64 {
    |p: ResolvedPart| p.stats.power
}

pub open spec fn capacity() -> spec_fn(ResolvedPart) -> i64 {
    |p: ResolvedPart| p.stats.capacity
}

/// The weapons of some parts, in the order of the parts.
pub open spec fn weapons_of(parts: Seq<ResolvedPart>) -> Seq<String>
    decreases parts.len(),
{
    if parts.len() == 0 {
        Seq::empty()
    } else {
        match parts.last().stats.weapon {
            Some(w) => weapons_of(parts.drop_last()).push(w),
            None => weapons_of(parts.drop_last()),
        }
    }
}

/// What a craft of some parts amounts to.
pub open spec fn is_craft_of(c: ResolvedCraft, parts: Seq<ResolvedPart>) -> bool {
    &&& c.parts@ == parts
    &&& c.total_thrust == sum_of(parts, thrust())
    &&& c.net_power == sum_of(parts, power())
    &&& c.storage_capacity == sum_of(parts, capacity())
    &&& c.weapon_mounts@ == stably_sorted(weapons_of(parts))
}

/// Adds up what some parts contribute.
pub fn aggregate(parts: Vec<ResolvedPart>) -> (c: ResolvedCraft)
    ensures
        is_craft_of(c, parts@),
{
    let mut total_thrust: i128 = 0;
    let mut net_power: i128 = 0;
    let mut storage_capacity: i128 = 0;
    let mut mounts: Vec<String> = Vec::new();
    let mut i: usize = 0;
    assert(parts@.subrange(0, 0) =~= Seq::<ResolvedPart>::empty());
    while i < parts.len()
        invariant
            i <= parts@.len(),
            total_thrust == sum_of(parts@.subrange(0, i as int), thrust()),
            net_power == sum_of(parts@.subrange(0, i as int), power()),
            storage_capacity == sum_of(parts@.subrange(0, i as int), capacity()),
            mounts@ == weapons_of(parts@.subrange(0, i as int)),
            -0x8000_0000_0000_0000 * i <= total_thrust <= 0x7fff_ffff_ffff_ffff * i,
            -0x8000_0000_0000_0000 * i <= net_power <= 0x7fff_ffff_ffff_ffff * i,
            -0x8000_0000_0000_0000 * i <= storage_capacity <= 0x7fff_ffff_ffff_ffff * i,
        decreases parts@.len() - i,
    {
        let p = &parts[i];
        proof {
            let next = parts@.subrange(0, i + 1);
            assert(next.drop_last() =~= parts@.subrange(0, i as int));
            assert(next.last() == *p);
        }
        total_thrust = total_thrust + p.stats.thrust as i128;
        net_power = net_power + p.stats.power as i128;
        storage_capacity = storage_capacity + p.stats.capacity as i128;
        if let Some(w) = &p.stats.weapon {
            mounts.push(w.clone());
        }
        i = i + 1;
    }
    assert(parts@.subrange(0, i as int) =~= parts@);
    ResolvedCraft {
        parts,
        total_thrust,
        net_power,
        weapon_mounts: sort_stably(mounts),
        storage_capacity,
    }
}

/// The parts of a design, with values for its parameters.
pub open spec fn parts_of(
    c: Stock,
    id: Seq<char>,
    args: Seq<SettingView>,
) -> Result<Seq<PartView>, FaultView> {
    parts_of_design(
        c,
        id,
        args,
        Seq::empty(),
        (MAX_BLUEPRINT_DEPTH + 1) as nat,
        Seq::empty(),
    )
}

/// Resolves a design into a craft. The values that are given take the place of its parameters'
/// defaults. Fails where something is unknown, where a design is nested in itself, and where designs are
/// nested too deeply.
pub fn resolve_blueprint(catalog: &Catalog, id: &str, args: &Vec<Setting>) -> (r: Result<
    ResolvedCraft,
    Fault,
>)
    ensures
        match r {
            Ok(craft) => {
                &&& parts_of(stock_of(*catalog), id@, views(args@)) is Ok
                &&& views(craft.parts@) == parts_of(stock_of(*catalog), id@, views(args@))->Ok_0
                &&& is_craft_of(craft, craft.parts@)
            },
            Err(e) => parts_of(stock_of(*catalog), id@, views(args@)) == Err::<
                Seq<PartView>,
                FaultView,
            >(e@),
        },
{
    let frames: Vec<Frame> = Vec::new();
    let path: Vec<String> = Vec::new();
    let mut parts: Vec<ResolvedPart> = Vec::new();
    proof {
        assert(frames@ =~= Seq::<Frame>::empty());
        assert(views(path@) =~= Seq::<Seq<char>>::empty());
        assert(views(parts@) =~= Seq::<PartView>::empty());
    }
    match resolve_blueprint_into(
        catalog,
        id,
        args,
        &frames,
        MAX_BLUEPRINT_DEPTH + 1,
        &path,
        &mut parts,
    ) {
        Ok(u) => {
            proof {
                let q = parts_of(stock_of(*catalog), id@, views(args@))->Ok_0;
                assert(Seq::<PartView>::empty() + q =~= q);
            }
            Ok(aggregate(parts))
        },
        Err(e) => Err(e),
    }
}

/// The parts of a design that is in no catalogue.
pub open spec fn parts_of_loose(
    c: Stock,
    bp: Blueprint,
    args: Seq<SettingView>,
) -> Result<Seq<PartView>, FaultView> {
    parts_of_list(
        c,
        bp.root@,
        bp.root@.len(),
        scope_of(bp.params@, args),
        Seq::empty(),
        (MAX_BLUEPRINT_DEPTH + 1) as nat,
        seq![bp.id@],
    )
}

/// Resolves a design that is in no catalogue, as one that is.
pub fn resolve_design(catalog: &Catalog, bp: &Blueprint, args: &Vec<Setting>) -> (r: Result<
    ResolvedCraft,
    Fault,
>)
    ensures
        match r {
            Ok(craft) => {
                &&& parts_of_loose(stock_of(*catalog), *bp, views(args@)) is Ok
                &&& views(craft.parts@) == parts_of_loose(
                    stock_of(*catalog),
                    *bp,
                    views(args@),
                )->Ok_0
                &&& is_craft_of(craft, craft.parts@)
            },
            Err(e) => parts_of_loose(stock_of(*catalog), *bp, views(args@)) == Err::<
                Seq<PartView>,
                FaultView,
            >(e@),
        },
{
    let frames: Vec<Frame> = Vec::new();
    let mut path: Vec<String> = Vec::new();
    path.push(bp.id.clone());
    let mut parts: Vec<ResolvedPart> = Vec::new();
    proof {
        assert(frames@ =~= Seq::<Frame>::empty());
        assert(views(path@) =~= seq![bp.id@]);
        assert(views(parts@) =~= Seq::<PartView>::empty());
    }
    let scope = variables(&bp.params, args);
    match resolve_list(
        catalog,
        &bp.root,
        &scope,
        &frames,
        MAX_BLUEPRINT_DEPTH + 1,
        &path,
        &mut parts,
    ) {
        Ok(u) => {
            proof {
                let q = parts_of_loose(stock_of(*catalog), *bp, views(args@))->Ok_0;
                assert(Seq::<PartView>::empty() + q =~= q);
            }
            Ok(aggregate(parts))
        },
        Err(e) => Err(e),
    }
}

/// A plain object without anything inside.
pub open spec fn is_lone_object(p: Placement) -> bool {
    p.kind is Object && p.children@.len() == 0 && p.repeat is None
}

/// Plain objects resolve if and only if all of them are in the catalogue, and one part comes of each.
pub proof fn law_known_objects_resolve(
    c: Stock,
    list: Seq<Placement>,
    n: nat,
    scope: Seq<SettingView>,
    fuel: nat,
    path: Seq<Seq<char>>,
)
    requires
        n <= list.len(),
        forall|i: int| 0 <= i < n ==> is_lone_object(#[trigger] list[i]),
    ensures
        ({
            let r = parts_of_list(c, list, n, scope, Seq::empty(), fuel, path);
            &&& r is Ok <==> forall|i: int|
                0 <= i < n ==> object_of(
                    c.objects,
                    (#[trigger] list[i]).kind->def@,
                ) is Some
            &&& r is Ok ==> r->Ok_0.len() == n
        }),
    decreases n,
{
    if n > 0 {
        law_known_objects_resolve(c, list, (n - 1) as nat, scope, fuel, path);
        let p = list[n - 1];
        let frames = Seq::<Frame>::empty().push(frame_of(p, 0));
        assert(count_of(p) == 1);
        assert(parts_of_list(c, p.children@, 0, scope, frames, fuel, path) == Ok::<
            Seq<PartView>,
            FaultView,
        >(Seq::empty()));
        assert(parts_of_copies(c, p, 0, scope, Seq::empty(), fuel, path) == Ok::<
            Seq<PartView>,
            FaultView,
        >(Seq::empty()));
        let one = parts_of_instance(c, p, scope, frames, fuel, path);
        assert(one is Ok <==> object_of(c.objects, p.kind->def@) is Some);
        assert(one is Ok ==> one->Ok_0.len() == 1);
        let copies = parts_of_copies(c, p, 1, scope, Seq::empty(), fuel, path);
        assert(copies is Ok <==> one is Ok);
        assert(copies is Ok ==> copies->Ok_0.len() == 1);
    }
}

/// The shape is one of those that there are, and is sound.
pub open spec fn is_sound(shapes: Seq<bool>, s: ShapeId) -> bool {
    s < shapes.len() && shapes[s as int]
}

/// What is wrong with a design, if anything is.
pub open spec fn flaw_of_design(
    c: Stock,
    shapes: Seq<bool>,
    id: Seq<char>,
    fuel: nat,
    path: Seq<Seq<char>>,
) -> Option<FaultView>
    decreases fuel, 1int, path, 0int,
{
    if path.contains(id) {
        Some(FaultView::Cycle { path, id })
    } else if fuel == 0 {
        Some(FaultView::TooDeep { id })
    } else {
        match blueprint_of(c.blueprints, id) {
            None => Some(FaultView::UnknownBlueprint { id }),
            Some(bp) => flaw_of_list(
                c,
                shapes,
                bp.root@,
                bp.root@.len(),
                None,
                fuel,
                path.push(id),
            ),
        }
    }
}

/// What is wrong with the first `n` of some placements inside of a parent.
pub open spec fn flaw_of_list(
    c: Stock,
    shapes: Seq<bool>,
    list: Seq<Placement>,
    n: nat,
    parent: Option<ObjectCategory>,
    fuel: nat,
    path: Seq<Seq<char>>,
) -> Option<FaultView>
    decreases fuel, 0int, list, n,
{
    if n == 0 || n > list.len() {
        None
    } else {
        match flaw_of_list(c, shapes, list, (n - 1) as nat, parent, fuel, path) {
            Some(e) => Some(e),
            None => flaw_of_placement(c, shapes, list[n - 1], parent, fuel, path),
        }
    }
}

/// What is wrong with a placement inside of a parent.
pub open spec fn flaw_of_placement(
    c: Stock,
    shapes: Seq<bool>,
    p: Placement,
    parent: Option<ObjectCategory>,
    fuel: nat,
    path: Seq<Seq<char>>,
) -> Option<FaultView>
    decreases fuel, 0int, p, 0int,
{
    match p.kind {
        PlacementKind::Object { def } => match object_of(c.objects, def@) {
            None => Some(FaultView::UnknownObject { def: def@ }),
            Some(od) => if is_interior(od.category) && !(parent is Some && is_holder(parent->0)) {
                Some(FaultView::NotInside { def: def@, category: od.category })
            } else if p.shape is Some && !is_sound(shapes, p.shape->0) {
                Some(FaultView::BadPlacedShape { def: def@ })
            } else if p.children@.len() > 0 && !is_holder(od.category) {
                Some(FaultView::HoldsNothing { def: def@, category: od.category })
            } else {
                flaw_of_list(
                    c,
                    shapes,
                    p.children@,
                    p.children@.len(),
                    Some(od.category),
                    fuel,
                    path,
                )
            },
        },
        PlacementKind::Blueprint { id, args, arg_bind } => if fuel == 0 {
            if path.contains(id@) {
                Some(FaultView::Cycle { path, id: id@ })
            } else {
                Some(FaultView::TooDeep { id: id@ })
            }
        } else {
            flaw_of_design(c, shapes, id@, (fuel - 1) as nat, path)
        },
    }
}

/// What is wrong with the shapes of the first `n` objects.
pub open spec fn flaw_of_objects(
    objects: Seq<ObjectDef>,
    shapes: Seq<bool>,
    n: nat,
) -> Option<FaultView>
    decreases n,
{
    if n == 0 {
        None
    } else {
        match flaw_of_objects(objects, shapes, (n - 1) as nat) {
            Some(e) => Some(e),
            None => if is_sound(shapes, objects[n - 1].shape) {
                None
            } else {
                Some(FaultView::BadShape { def: objects[n - 1].id@ })
            },
        }
    }
}

/// What is wrong with the first `n` designs.
pub open spec fn flaw_of_blueprints(c: Stock, shapes: Seq<bool>, n: nat) -> Option<FaultView>
    decreases n,
{
    if n == 0 {
        None
    } else {
        match flaw_of_blueprints(c, shapes, (n - 1) as nat) {
            Some(e) => Some(e),
            None => flaw_of_design(
                c,
                shapes,
                c.blueprints[n - 1].id@,
                (MAX_BLUEPRINT_DEPTH + 1) as nat,
                Seq::empty(),
            ),
        }
    }
}

/// What is wrong with a catalogue: first the shapes of its objects, then its designs.
pub open spec fn flaw_of_catalog(c: Stock, shapes: Seq<bool>) -> Option<FaultView> {
    match flaw_of_objects(c.objects, shapes, c.objects.len()) {
        Some(e) => Some(e),
        None => flaw_of_blueprints(c, shapes, c.blueprints.len()),
    }
}

spec fn found(r: Result<(), Fault>, flaw: Option<FaultView>) -> bool {
    match r {
        Ok(u) => flaw is None,
        Err(e) => flaw == Some(e@),
    }
}

fn shape_sound(shapes: &Vec<bool>, s: ShapeId) -> (r: bool)
    ensures
        r == is_sound(shapes@, s),
{
    (s as u64) < shapes.len() as u64 && shapes[s as usize]
}

fn check_blueprint(
    catalog: &Catalog,
    shapes: &Vec<bool>,
    id: &str,
    fuel: usize,
    path: &Vec<String>,
) -> (r: Result<(), Fault>)
    ensures
        found(
            r,
            flaw_of_design(stock_of(*catalog), shapes@, id@, fuel as nat, views(path@)),
        ),
    decreases fuel, 1int, path@, 0int,
{
    if lists_text(path, id) {
        return Err(Fault::Cycle { path: clone_texts(path), id: id.to_string() });
    }
    if fuel == 0 {
        return Err(Fault::TooDeep { id: id.to_string() });
    }
    let bp: &Blueprint = match catalog.blueprint(id) {
        Some(b) => b,
        None => {
            return Err(Fault::UnknownBlueprint { id: id.to_string() });
        },
    };
    let mut inner: Vec<String> = clone_texts(path);
    inner.push(id.to_string());
    assert(views(inner@) =~= views(path@).push(id@));
    check_list(catalog, shapes, &bp.root, None, fuel, &inner)
}

proof fn lemma_flaw_stays(
    c: Stock,
    shapes: Seq<bool>,
    list: Seq<Placement>,
    n: nat,
    m: nat,
    parent: Option<ObjectCategory>,
    fuel: nat,
    path: Seq<Seq<char>>,
)
    requires
        n <= m <= list.len(),
        flaw_of_list(c, shapes, list, n, parent, fuel, path) is Some,
    ensures
        flaw_of_list(c, shapes, list, m, parent, fuel, path) == flaw_of_list(
            c,
            shapes,
            list,
            n,
            parent,
            fuel,
            path,
        ),
    decreases m,
{
    if n < m {
        lemma_flaw_stays(c, shapes, list, n, (m - 1) as nat, parent, fuel, path);
    }
}

fn check_list(
    catalog: &Catalog,
    shapes: &Vec<bool>,
    list: &Vec<Placement>,
    parent: Option<ObjectCategory>,
    fuel: usize,
    path: &Vec<String>,
) -> (r: Result<(), Fault>)
    ensures
        found(
            r,
            flaw_of_list(
                stock_of(*catalog),
                shapes@,
                list@,
                list@.len(),
                parent,
                fuel as nat,
                views(path@),
            ),
        ),
    decreases fuel, 0int, list@, list@.len(),
{
    let ghost c = stock_of(*catalog);
    let mut i: usize = 0;
    while i < list.len()
        invariant
            i <= list@.len(),
            c == stock_of(*catalog),
            flaw_of_list(
                c,
                shapes@,
                list@,
                i as nat,
                parent,
                fuel as nat,
                views(path@),
            ) is None,
        decreases list@.len() - i,
    {
        match check_placement(catalog, shapes, &list[i], parent, fuel, path) {
            Ok(u) => {},
            Err(e) => {
                proof {
                    lemma_flaw_stays(
                        c,
                        shapes@,
                        list@,
                        (i + 1) as nat,
                        list@.len(),
                        parent,
                        fuel as nat,
                        views(path@),
                    );
                }
                return Err(e);
            },
        }
        i = i + 1;
    }
    Ok(())
}

fn check_placement(
    catalog: &Catalog,
    shapes: &Vec<bool>,
    p: &Placement,
    parent: Option<ObjectCategory>,
    fuel: usize,
    path: &Vec<String>,
) -> (r: Result<(), Fault>)
    ensures
        found(
            r,
            flaw_of_placement(
                stock_of(*catalog),
                shapes@,
                *p,
                parent,
                fuel as nat,
                views(path@),
            ),
        ),
    decreases fuel, 0int, *p, 0int,
{
    match &p.kind {
        PlacementKind::Object { def } => {
            let od: &ObjectDef = match catalog.object(def.as_str()) {
                Some(o) => o,
                None => {
                    return Err(Fault::UnknownObject { def: def.clone() });
                },
            };
            let category: ObjectCategory = od.category;
            let held: bool = match parent {
                Some(c) => c.holds_children(),
                None => false,
            };
            if category.must_be_interior() && !held {
                return Err(Fault::NotInside { def: def.clone(), category });
            }
            let bad: bool = match p.shape {
                Some(s) => !shape_sound(shapes, s),
                None => false,
            };
            if bad {
                return Err(Fault::BadPlacedShape { def: def.clone() });
            }
            if p.children.len() > 0 && !category.holds_children() {
                return Err(Fault::HoldsNothing { def: def.clone(), category });
            }
            check_list(catalog, shapes, &p.children, Some(category), fuel, path)
        },
        PlacementKind::Blueprint { id, args, arg_bind } => {
            if fuel == 0 {
                if lists_text(path, id.as_str()) {
                    return Err(Fault::Cycle { path: clone_texts(path), id: id.clone() });
                }
                return Err(Fault::TooDeep { id: id.clone() });
            }
            check_blueprint(catalog, shapes, id.as_str(), fuel - 1, path)
        },
    }
}

/// Checks a catalogue before it is used: the shapes of objects and placements are sound, whatever is
/// referred to is there, what must be inside of a holder is, nothing is inside of what cannot hold it,
/// and no design is nested in itself or too deeply. `shapes` says which shapes are sound.
pub fn validate_catalog(catalog: &Catalog, shapes: &Vec<bool>) -> (r: Result<(), Fault>)
    ensures
        match r {
            Ok(u) => flaw_of_catalog(stock_of(*catalog), shapes@) is None,
            Err(e) => flaw_of_catalog(stock_of(*catalog), shapes@) == Some(e@),
        },
{
    let ghost c = stock_of(*catalog);
    let mut i: usize = 0;
    while i < catalog.objects.len()
        invariant
            i <= catalog.objects@.len(),
            c == stock_of(*catalog),
            flaw_of_objects(c.objects, shapes@, i as nat) is None,
        decreases catalog.objects@.len() - i,
    {
        if !shape_sound(shapes, catalog.objects[i].shape) {
            proof {
                lemma_object_flaw_stays(c.objects, shapes@, (i + 1) as nat, c.objects.len());
            }
            return Err(Fault::BadShape { def: catalog.objects[i].id.clone() });
        }
        i = i + 1;
    }
    let path: Vec<String> = Vec::new();
    assert(views(path@) =~= Seq::<Seq<char>>::empty());
    let mut k: usize = 0;
    while k < catalog.blueprints.len()
        invariant
            k <= catalog.blueprints@.len(),
            c == stock_of(*catalog),
            views(path@) == Seq::<Seq<char>>::empty(),
            flaw_of_objects(c.objects, shapes@, c.objects.len()) is None,
            flaw_of_blueprints(c, shapes@, k as nat) is None,
        decreases catalog.blueprints@.len() - k,
    {
        match check_blueprint(
            catalog,
            shapes,
            catalog.blueprints[k].id.as_str(),
            MAX_BLUEPRINT_DEPTH + 1,
            &path,
        ) {
            Ok(u) => {},
            Err(e) => {
                proof {
                    lemma_design_flaw_stays(c, shapes@, (k + 1) as nat, c.blueprints.len());
                }
                return Err(e);
            },
        }
        k = k + 1;
    }
    Ok(())
}

proof fn lemma_object_flaw_stays(objects: Seq<ObjectDef>, shapes: Seq<bool>, n: nat, m: nat)
    requires
        n <= m,
        flaw_of_objects(objects, shapes, n) is Some,
    ensures
        flaw_of_objects(objects, shapes, m) == flaw_of_objects(objects, shapes, n),
    decreases m,
{
    if n < m {
        lemma_object_flaw_stays(objects, shapes, n, (m - 1) as nat);
    }
}

proof fn lemma_design_flaw_stays(c: Stock, shapes: Seq<bool>, n: nat, m: nat)
    requires
        n <= m,
        flaw_of_blueprints(c, shapes, n) is Some,
    ensures
        flaw_of_blueprints(c, shapes, m) == flaw_of_blueprints(c, shapes, n),
    decreases m,
{
    if n < m {
        lemma_design_flaw_stays(c, shapes, n, (m - 1) as nat);
    }
}

/// A catalogue that passes its check resolves: none of its designs fails, whatever values it is given.
pub proof fn law_sound_catalog_resolves(
    c: Stock,
    shapes: Seq<bool>,
    at: int,
    args: Seq<SettingView>,
)
    requires
        flaw_of_catalog(c, shapes) is None,
        0 <= at < c.blueprints.len(),
    ensures
        parts_of(c, c.blueprints[at].id@, args) is Ok,
{
    if flaw_of_blueprints(c, shapes, (at + 1) as nat) is Some {
        lemma_design_flaw_stays(c, shapes, (at + 1) as nat, c.blueprints.len());
    }
    lemma_sound_design(
        c,
        shapes,
        c.blueprints[at].id@,
        args,
        Seq::empty(),
        (MAX_BLUEPRINT_DEPTH + 1) as nat,
        Seq::empty(),
    );
}

pub proof fn lemma_sound_design(
    c: Stock,
    shapes: Seq<bool>,
    id: Seq<char>,
    args: Seq<SettingView>,
    frames: Seq<Frame>,
    fuel: nat,
    path: Seq<Seq<char>>,
)
    requires
        flaw_of_design(c, shapes, id, fuel, path) is None,
    ensures
        parts_of_design(c, id, args, frames, fuel, path) is Ok,
    decreases fuel, 1int, path, 0int,
{
    let bp = blueprint_of(c.blueprints, id)->0;
    lemma_sound_list(
        c,
        shapes,
        bp.root@,
        bp.root@.len(),
        None,
        scope_of(bp.params@, args),
        frames,
        fuel,
        path.push(id),
    );
}

proof fn lemma_sound_list(
    c: Stock,
    shapes: Seq<bool>,
    list: Seq<Placement>,
    n: nat,
    parent: Option<ObjectCategory>,
    scope: Seq<SettingView>,
    frames: Seq<Frame>,
    fuel: nat,
    path: Seq<Seq<char>>,
)
    requires
        n <= list.len(),
        flaw_of_list(c, shapes, list, n, parent, fuel, path) is None,
    ensures
        parts_of_list(c, list, n, scope, frames, fuel, path) is Ok,
    decreases fuel, 0int, list, n,
{
    if n > 0 {
        lemma_sound_list(
            c,
            shapes,
            list,
            (n - 1) as nat,
            parent,
            scope,
            frames,
            fuel,
            path,
        );
        lemma_sound_copies(
            c,
            shapes,
            list[n - 1],
            count_of(list[n - 1]),
            parent,
            scope,
            frames,
            fuel,
            path,
        );
    }
}

proof fn lemma_sound_copies(
    c: Stock,
    shapes: Seq<bool>,
    p: Placement,
    n: nat,
    parent: Option<ObjectCategory>,
    scope: Seq<SettingView>,
    frames: Seq<Frame>,
    fuel: nat,
    path: Seq<Seq<char>>,
)
    requires
        flaw_of_placement(c, shapes, p, parent, fuel, path) is None,
    ensures
        parts_of_copies(c, p, n, scope, frames, fuel, path) is Ok,
    decreases fuel, 0int, p, n + 1,
{
    if n > 0 {
        lemma_sound_copies(
            c,
            shapes,
            p,
            (n - 1) as nat,
            parent,
            scope,
            frames,
            fuel,
            path,
        );
        lemma_sound_instance(
            c,
            shapes,
            p,
            parent,
            scope,
            frames.push(frame_of(p, n - 1)),
            fuel,
            path,
        );
    }
}

proof fn lemma_sound_instance(
    c: Stock,
    shapes: Seq<bool>,
    p: Placement,
    parent: Option<ObjectCategory>,
    scope: Seq<SettingView>,
    frames: Seq<Frame>,
    fuel: nat,
    path: Seq<Seq<char>>,
)
    requires
        flaw_of_placement(c, shapes, p, parent, fuel, path) is None,
    ensures
        parts_of_instance(c, p, scope, frames, fuel, path) is Ok,
    decreases fuel, 0int, p, 0int,
{
    match p.kind {
        PlacementKind::Object { def } => {
            let od = object_of(c.objects, def@)->0;
            lemma_sound_list(
                c,
                shapes,
                p.children@,
                p.children@.len(),
                Some(od.category),
                scope,
                frames,
                fuel,
                path,
            );
        },
        PlacementKind::Blueprint { id, args, arg_bind } => {
            lemma_sound_design(
                c,
                shapes,
                id@,
                views(args@) + bound_args(arg_bind@, scope),
                frames,
                (fuel - 1) as nat,
                path,
            );
        },
    }
}

/// A design that is nested in itself never resolves.
pub proof fn law_cycles_are_refused(
    c: Stock,
    id: Seq<char>,
    args: Seq<SettingView>,
    frames: Seq<Frame>,
    fuel: nat,
    path: Seq<Seq<char>>,
)
    requires
        path.contains(id),
    ensures
        parts_of_design(c, id, args, frames, fuel, path) is Err,
{
}

/// The copies of a placement march on: the first stands where the placement says, each next one a step
/// further in `x`, in `y` and in rotation, and nothing else tells them apart.
pub proof fn law_copies_march_on(p: Placement, i: int)
    requires
        0 <= i < count_of(p),
    ensures
        frame_of(p, 0).x == p.at.x,
        frame_of(p, 0).y == p.at.y,
        frame_of(p, 0).rot == p.at.rot,
        !frame_of(p, i).mirrored,
        p.repeat matches Some(r) ==> count_of(p) == (if r.count == 0 { 1int } else { r.count as int }),
        p.repeat is None ==> count_of(p) == 1,
        i > 0 ==> {
            let r = p.repeat->0;
            &&& p.repeat is Some
            &&& frame_of(p, i).x - frame_of(p, i - 1).x == r.dx
            &&& frame_of(p, i).y - frame_of(p, i - 1).y == r.dy
            &&& frame_of(p, i).rot - frame_of(p, i - 1).rot == r.drot
        },
{
    if let Some(r) = p.repeat {
        lemma_step(p.at.x, r.dx, i as u32);
        lemma_step(p.at.y, r.dy, i as u32);
        lemma_step(p.at.rot, r.drot, i as u32);
        assert(r.dx * 0 == 0 && r.dy * 0 == 0 && r.drot * 0 == 0);
        if i > 0 {
            lemma_step(p.at.x, r.dx, (i - 1) as u32);
            lemma_step(p.at.y, r.dy, (i - 1) as u32);
            lemma_step(p.at.rot, r.drot, (i - 1) as u32);
            assert(r.dx * i - r.dx * (i - 1) == r.dx) by (nonlinear_arith);
            assert(r.dy * i - r.dy * (i - 1) == r.dy) by (nonlinear_arith);
            assert(r.drot * i - r.drot * (i - 1) == r.drot) by (nonlinear_arith);
        }
    }
}

/// A known object that is placed `count` times becomes that many parts, one for each copy: the i-th stands in
/// the frames of its parent and in one of its own, which is i steps from the placement's in each of `x`, `y`
/// and rotation. Each has the object's mass, hull and category, and its shape unless the placement has another.
pub proof fn law_every_copy_is_a_part(
    c: Stock,
    p: Placement,
    od: ObjectDef,
    scope: Seq<SettingView>,
    frames: Seq<Frame>,
    fuel: nat,
    path: Seq<Seq<char>>,
    n: nat,
    i: int,
)
    requires
        p.kind matches PlacementKind::Object { def } && object_of(c.objects, def@) == Some(od),
        p.children@.len() == 0,
        0 <= i < n <= count_of(p),
    ensures
        ({
            let r = parts_of_copies(c, p, n, scope, frames, fuel, path);
            let part = r->Ok_0[i];
            let own = part.frames.last();
            let (dx, dy, drot) = match p.repeat {
                Some(r) => (r.dx as int, r.dy as int, r.drot as int),
                None => (0, 0, 0),
            };
            &&& r is Ok
            &&& r->Ok_0.len() == n
            &&& part.frames.drop_last() == frames
            &&& part.frames.len() == frames.len() + 1
            &&& own.x == p.at.x + i * dx
            &&& own.y == p.at.y + i * dy
            &&& own.rot == p.at.rot + i * drot
            &&& !own.mirrored
            &&& part.def == od.id@
            &&& part.category == od.category
            &&& part.mass == od.mass
            &&& part.hp == od.hp
            &&& part.stats == od.stats@
            &&& part.own_shape == od.shape
            &&& p.shape is None ==> part.shape == od.shape
            &&& p.shape matches Some(s) ==> part.shape == s
        }),
    decreases n,
{
    let at = frames.push(frame_of(p, n - 1));
    assert(parts_of_list(c, p.children@, 0, scope, at, fuel, path) == Ok::<
        Seq<PartView>,
        FaultView,
    >(Seq::empty()));
    let one = parts_of_instance(c, p, scope, at, fuel, path);
    assert(one->Ok_0 =~= seq![part_of(p, od, scope, at)]);
    if n > 1 {
        law_every_copy_is_a_part(
            c,
            p,
            od,
            scope,
            frames,
            fuel,
            path,
            (n - 1) as nat,
            if i < n - 1 {
                i
            } else {
                0
            },
        );
    }
    assert(at.drop_last() =~= frames);
    assert(parts_of_copies(c, p, 0, scope, frames, fuel, path) == Ok::<Seq<PartView>, FaultView>(
        Seq::empty(),
    ));
    let before = parts_of_copies(c, p, (n - 1) as nat, scope, frames, fuel, path)->Ok_0;
    let all = parts_of_copies(c, p, n, scope, frames, fuel, path)->Ok_0;
    assert(before.len() == n - 1);
    assert(all == before + one->Ok_0);
    if i < n - 1 {
        assert(all[i] == before[i]);
    } else {
        assert(all[i] == part_of(p, od, scope, at));
    }
    if let Some(r) = p.repeat {
        lemma_step(p.at.x, r.dx, (n - 1) as u32);
        lemma_step(p.at.y, r.dy, (n - 1) as u32);
        lemma_step(p.at.rot, r.drot, (n - 1) as u32);
        assert(r.dx * (n - 1) == (n - 1) * r.dx) by (nonlinear_arith);
        assert(r.dy * (n - 1) == (n - 1) * r.dy) by (nonlinear_arith);
        assert(r.drot * (n - 1) == (n - 1) * r.drot) by (nonlinear_arith);
    }
}

/// A part as it is seen from outside of some frames.
pub open spec fn seen_through(frames: Seq<Frame>, part: PartView) -> PartView {
    PartView { frames: frames + part.frames, ..part }
}

/// Some parts as they are seen from outside of some frames; what fails, fails all the same.
pub open spec fn all_seen_through(
    frames: Seq<Frame>,
    r: Result<Seq<PartView>, FaultView>,
) -> Result<Seq<PartView>, FaultView> {
    match r {
        Ok(parts) => Ok(parts.map_values(|p: PartView| seen_through(frames, p))),
        Err(e) => Err(e),
    }
}

/// A design keeps its build wherever it is put: in outer frames it has the very parts that it has alone, each
/// seen through those frames, and it fails for the same reason.
pub proof fn law_designs_are_rigid(
    c: Stock,
    id: Seq<char>,
    args: Seq<SettingView>,
    outer: Seq<Frame>,
    frames: Seq<Frame>,
    fuel: nat,
    path: Seq<Seq<char>>,
)
    ensures
        parts_of_design(c, id, args, outer + frames, fuel, path) == all_seen_through(
            outer,
            parts_of_design(c, id, args, frames, fuel, path),
        ),
    decreases fuel, 1int, path, 0int,
{
    if fuel > 0 && !path.contains(id) {
        if let Some(bp) = blueprint_of(c.blueprints, id) {
            lemma_rigid_list(
                c,
                bp.root@,
                bp.root@.len(),
                scope_of(bp.params@, args),
                outer,
                frames,
                fuel,
                path.push(id),
            );
        }
    }
}

proof fn lemma_rigid_list(
    c: Stock,
    list: Seq<Placement>,
    n: nat,
    scope: Seq<SettingView>,
    outer: Seq<Frame>,
    frames: Seq<Frame>,
    fuel: nat,
    path: Seq<Seq<char>>,
)
    ensures
        parts_of_list(c, list, n, scope, outer + frames, fuel, path) == all_seen_through(
            outer,
            parts_of_list(c, list, n, scope, frames, fuel, path),
        ),
    decreases fuel, 0int, list, n,
{
    let f = |p: PartView| seen_through(outer, p);
    if n == 0 || n > list.len() {
        assert(Seq::<PartView>::empty().map_values(f) =~= Seq::empty());
    } else {
        lemma_rigid_list(c, list, (n - 1) as nat, scope, outer, frames, fuel, path);
        let p = list[n - 1];
        lemma_rigid_copies(c, p, count_of(p), scope, outer, frames, fuel, path);
        let before = parts_of_list(c, list, (n - 1) as nat, scope, frames, fuel, path);
        let more = parts_of_copies(c, p, count_of(p), scope, frames, fuel, path);
        if before is Ok && more is Ok {
            assert((before->Ok_0 + more->Ok_0).map_values(f) =~= before->Ok_0.map_values(f)
                + more->Ok_0.map_values(f));
        }
    }
}

proof fn lemma_rigid_copies(
    c: Stock,
    p: Placement,
    n: nat,
    scope: Seq<SettingView>,
    outer: Seq<Frame>,
    frames: Seq<Frame>,
    fuel: nat,
    path: Seq<Seq<char>>,
)
    ensures
        parts_of_copies(c, p, n, scope, outer + frames, fuel, path) == all_seen_through(
            outer,
            parts_of_copies(c, p, n, scope, frames, fuel, path),
        ),
    decreases fuel, 0int, p, n + 1,
{
    let f = |p: PartView| seen_through(outer, p);
    if n == 0 {
        assert(Seq::<PartView>::empty().map_values(f) =~= Seq::empty());
    } else {
        lemma_rigid_copies(c, p, (n - 1) as nat, scope, outer, frames, fuel, path);
        let own = frame_of(p, n - 1);
        assert((outer + frames).push(own) =~= outer + frames.push(own));
        lemma_rigid_instance(c, p, scope, outer, frames.push(own), fuel, path);
        let before = parts_of_copies(c, p, (n - 1) as nat, scope, frames, fuel, path);
        let more = parts_of_instance(c, p, scope, frames.push(own), fuel, path);
        if before is Ok && more is Ok {
            assert((before->Ok_0 + more->Ok_0).map_values(f) =~= before->Ok_0.map_values(f)
                + more->Ok_0.map_values(f));
        }
    }
}

proof fn lemma_rigid_instance(
    c: Stock,
    p: Placement,
    scope: Seq<SettingView>,
    outer: Seq<Frame>,
    frames: Seq<Frame>,
    fuel: nat,
    path: Seq<Seq<char>>,
)
    ensures
        parts_of_instance(c, p, scope, outer + frames, fuel, path) == all_seen_through(
            outer,
            parts_of_instance(c, p, scope, frames, fuel, path),
        ),
    decreases fuel, 0int, p, 0int,
{
    let f = |p: PartView| seen_through(outer, p);
    match p.kind {
        PlacementKind::Object { def } => {
            if let Some(od) = object_of(c.objects, def@) {
                lemma_rigid_list(
                    c,
                    p.children@,
                    p.children@.len(),
                    scope,
                    outer,
                    frames,
                    fuel,
                    path,
                );
                let inside = parts_of_list(
                    c,
                    p.children@,
                    p.children@.len(),
                    scope,
                    frames,
                    fuel,
                    path,
                );
                let own = part_of(p, od, scope, frames);
                if inside is Ok {
                    assert((seq![own] + inside->Ok_0).map_values(f) =~= seq![
                        part_of(p, od, scope, outer + frames),
                    ] + inside->Ok_0.map_values(f));
                }
            }
        },
        PlacementKind::Blueprint { id, args, arg_bind } => {
            if fuel > 0 {
                law_designs_are_rigid(
                    c,
                    id@,
                    views(args@) + bound_args(arg_bind@, scope),
                    outer,
                    frames,
                    (fuel - 1) as nat,
                    path,
                );
            }
        },
    }
}

/// What stands inside of an object moves with it: after the object itself come the parts of what is inside,
/// which have all of the object's frames, and at least one of their own.
pub proof fn law_children_hang_in_their_parent(
    c: Stock,
    p: Placement,
    scope: Seq<SettingView>,
    frames: Seq<Frame>,
    fuel: nat,
    path: Seq<Seq<char>>,
    k: int,
)
    requires
        p.kind is Object,
        parts_of_instance(c, p, scope, frames, fuel, path) matches Ok(parts) && 0 <= k < parts.len(),
    ensures
        ({
            let parts = parts_of_instance(c, p, scope, frames, fuel, path)->Ok_0;
            &&& parts[0].frames == frames
            &&& parts[k].frames.len() >= frames.len()
            &&& parts[k].frames.take(frames.len() as int) == frames
            &&& k > 0 ==> parts[k].frames.len() > frames.len()
            &&& parts.len() > 1 ==> p.children@.len() > 0
        }),
{
    let none = Seq::<Frame>::empty();
    lemma_rigid_instance(c, p, scope, frames, none, fuel, path);
    assert(frames + none =~= frames);
    let alone = parts_of_instance(c, p, scope, none, fuel, path)->Ok_0;
    let parts = parts_of_instance(c, p, scope, frames, fuel, path)->Ok_0;
    assert(parts[k].frames == frames + alone[k].frames);
    assert(parts[k].frames.take(frames.len() as int) =~= frames);
    let inside = parts_of_list(c, p.children@, p.children@.len(), scope, none, fuel, path)->Ok_0;
    if k > 0 {
        assert(alone[k] == inside[k - 1]);
        lemma_own_frame_list(c, p.children@, p.children@.len(), scope, fuel, path, k - 1);
    }
}

/// Everything that is placed has a frame of its own.
proof fn lemma_own_frame_list(
    c: Stock,
    list: Seq<Placement>,
    n: nat,
    scope: Seq<SettingView>,
    fuel: nat,
    path: Seq<Seq<char>>,
    k: int,
)
    requires
        parts_of_list(c, list, n, scope, Seq::empty(), fuel, path) matches Ok(parts) && 0 <= k
            < parts.len(),
    ensures
        parts_of_list(c, list, n, scope, Seq::empty(), fuel, path)->Ok_0[k].frames.len() > 0,
    decreases n,
{
    if n > 0 && n <= list.len() {
        let none = Seq::<Frame>::empty();
        let before = parts_of_list(c, list, (n - 1) as nat, scope, none, fuel, path)->Ok_0;
        let p = list[n - 1];
        if k < before.len() {
            lemma_own_frame_list(c, list, (n - 1) as nat, scope, fuel, path, k);
        } else {
            lemma_own_frame_copies(c, p, count_of(p), scope, fuel, path, k - before.len());
        }
    }
}

proof fn lemma_own_frame_copies(
    c: Stock,
    p: Placement,
    n: nat,
    scope: Seq<SettingView>,
    fuel: nat,
    path: Seq<Seq<char>>,
    k: int,
)
    requires
        parts_of_copies(c, p, n, scope, Seq::empty(), fuel, path) matches Ok(parts) && 0 <= k
            < parts.len(),
    ensures
        parts_of_copies(c, p, n, scope, Seq::empty(), fuel, path)->Ok_0[k].frames.len() > 0,
    decreases n,
{
    if n > 0 {
        let none = Seq::<Frame>::empty();
        let before = parts_of_copies(c, p, (n - 1) as nat, scope, none, fuel, path)->Ok_0;
        if k < before.len() {
            lemma_own_frame_copies(c, p, (n - 1) as nat, scope, fuel, path, k);
        } else {
            let own = none.push(frame_of(p, n - 1));
            lemma_rigid_instance(c, p, scope, own, none, fuel, path);
            assert(own + none =~= own);
            let alone = parts_of_instance(c, p, scope, none, fuel, path)->Ok_0;
            let more = parts_of_instance(c, p, scope, own, fuel, path)->Ok_0;
            assert(more[k - before.len()].frames == own + alone[k - before.len()].frames);
        }
    }
}

/// A parameter of a design is what is given for it, or its default, moved no further than its limits ask: within
/// them it is as it is, below the least it is the least, above the most it is the most.
pub proof fn law_parameters_are_held(p: BpParam, args: Seq<SettingView>)
    ensures
        ({
            let v = match value_of(args, p.name@) {
                Some(v) => v,
                None => p.default,
            };
            let got = variable_of(p, args).value;
            let low = p.min matches Some(m) && v < m;
            let high = p.max matches Some(m) && v > m;
            &&& variable_of(p, args).key == p.name@
            &&& !low && !high ==> got == v
            &&& high ==> got == p.max->0
            &&& low && (p.max matches Some(m) ==> p.min->0 <= m) ==> got == p.min->0
            &&& p.max matches Some(m) ==> got <= m
            &&& (p.min matches Some(m) && (p.max matches Some(x) ==> m <= x)) ==> p.min->0 <= got
        }),
{
}

/// A size is what it is bound to, where the last binding names a variable that is there; else what is given, if
/// anything is.
pub proof fn law_sizes(p: Placement, scope: Seq<SettingView>, key: Seq<char>, var: Seq<char>, v: i64)
    ensures
        p.bind@.len() > 0 && p.bind@.last().key@ == key && p.bind@.last().var@ == var && value_of(
            scope,
            var,
        ) == Some(v) ==> size_of(p, scope, key) == Some(v),
        !binds(p.bind@, key) ==> size_of(p, scope, key) == value_of(views(p.params@), key),
{
    if !binds(p.bind@, key) && p.bind@.len() > 0 {
        lemma_first_binding(p.bind@, scope, key);
    }
}

/// The three sizes of a part are those that its placement has for `w`, `h` and `r`, each by its own name.
pub proof fn law_sizes_by_name(p: Placement, od: ObjectDef, scope: Seq<SettingView>, frames: Seq<Frame>)
    requires
        p.bind@.len() == 0,
    ensures
        part_of(p, od, scope, frames).w == value_of(views(p.params@), seq!['w']),
        part_of(p, od, scope, frames).h == value_of(views(p.params@), seq!['h']),
        part_of(p, od, scope, frames).r == value_of(views(p.params@), seq!['r']),
{
    reveal_strlit("w");
    reveal_strlit("h");
    reveal_strlit("r");
    assert("w"@ =~= seq!['w']);
    assert("h"@ =~= seq!['h']);
    assert("r"@ =~= seq!['r']);
}

/// The last value that is given for a name counts, and giving one leaves the others as they are.
pub proof fn law_last_value_counts(settings: Seq<SettingView>, key: Seq<char>, other: Seq<char>, v: i64)
    ensures
        value_of(Seq::empty(), key) is None,
        value_of(settings.push(SettingView { key, value: v }), key) == Some(v),
        other != key ==> value_of(settings.push(SettingView { key, value: v }), other) == value_of(
            settings,
            other,
        ),
{
    let more = settings.push(SettingView { key, value: v });
    assert(more.drop_last() =~= settings);
}

/// What parts contribute adds up: thrust to thrust, power to power, capacity to capacity, and each part's weapon
/// to the mounts.
pub proof fn law_contributions_add_up(a: Seq<ResolvedPart>, p: ResolvedPart)
    ensures
        sum_of(a.push(p), thrust()) == sum_of(a, thrust()) + p.stats.thrust,
        sum_of(a.push(p), power()) == sum_of(a, power()) + p.stats.power,
        sum_of(a.push(p), capacity()) == sum_of(a, capacity()) + p.stats.capacity,
        sum_of(Seq::empty(), thrust()) == 0,
        sum_of(Seq::empty(), power()) == 0,
        sum_of(Seq::empty(), capacity()) == 0,
        p.stats.weapon matches Some(w) ==> weapons_of(a.push(p)) == weapons_of(a).push(w),
        p.stats.weapon is None ==> weapons_of(a.push(p)) == weapons_of(a),
        weapons_of(Seq::empty()).len() == 0,
{
    assert(a.push(p).drop_last() =~= a);
}

/// Of several objects or designs of one id the first counts, and an id that none has is not found.
pub proof fn law_first_of_an_id_counts(
    objects: Seq<ObjectDef>,
    blueprints: Seq<Blueprint>,
    id: Seq<char>,
)
    ensures
        match object_of(objects, id) {
            Some(o) => exists|i: int|
                0 <= i < objects.len() && #[trigger] objects[i] == o && o.id@ == id && (forall|j: int|
                    0 <= j < i ==> (#[trigger] objects[j]).id@ != id),
            None => forall|j: int| 0 <= j < objects.len() ==> (#[trigger] objects[j]).id@ != id,
        },
        match blueprint_of(blueprints, id) {
            Some(b) => exists|i: int|
                0 <= i < blueprints.len() && #[trigger] blueprints[i] == b && b.id@ == id && (forall|
                    j: int,
                | 0 <= j < i ==> (#[trigger] blueprints[j]).id@ != id),
            None => forall|j: int| 0 <= j < blueprints.len() ==> (#[trigger] blueprints[j]).id@ != id,
        },
    decreases objects.len() + blueprints.len(),
{
    if objects.len() > 0 {
        let rest = objects.drop_last();
        law_first_of_an_id_counts(rest, blueprints, id);
        assert forall|i: int| 0 <= i < rest.len() implies #[trigger] rest[i] == objects[i] by {}
        if let Some(o) = object_of(rest, id) {
            let i = choose|i: int|
                0 <= i < rest.len() && #[trigger] rest[i] == o && o.id@ == id && (forall|j: int|
                    0 <= j < i ==> (#[trigger] rest[j]).id@ != id);
            assert(objects[i] == o);
            assert forall|j: int| 0 <= j < i implies (#[trigger] objects[j]).id@ != id by {
                assert(rest[j].id@ != id);
            }
        } else {
            assert forall|j: int| 0 <= j < rest.len() implies (#[trigger] objects[j]).id@ != id by {
                assert(rest[j].id@ != id);
            }
            assert(objects[objects.len() - 1] == objects.last());
        }
    }
    if blueprints.len() > 0 {
        let rest = blueprints.drop_last();
        law_first_of_an_id_counts(Seq::empty(), rest, id);
        assert forall|i: int| 0 <= i < rest.len() implies #[trigger] rest[i] == blueprints[i] by {}
        if let Some(o) = blueprint_of(rest, id) {
            let i = choose|i: int|
                0 <= i < rest.len() && #[trigger] rest[i] == o && o.id@ == id && (forall|j: int|
                    0 <= j < i ==> (#[trigger] rest[j]).id@ != id);
            assert(blueprints[i] == o);
            assert forall|j: int| 0 <= j < i implies (#[trigger] blueprints[j]).id@ != id by {
                assert(rest[j].id@ != id);
            }
        } else {
            assert forall|j: int| 0 <= j < rest.len() implies (#[trigger] blueprints[j]).id@
                != id by {
                assert(rest[j].id@ != id);
            }
            assert(blueprints[blueprints.len() - 1] == blueprints.last());
        }
    }
}

/// A catalogue that passes its check has its command centres, radars, sensors and upgrades inside of structures
/// and containers, and nothing inside of anything else.
pub proof fn law_checked_placements(
    c: Stock,
    shapes: Seq<bool>,
    p: Placement,
    od: ObjectDef,
    parent: Option<ObjectCategory>,
    fuel: nat,
    path: Seq<Seq<char>>,
)
    requires
        p.kind matches PlacementKind::Object { def } && object_of(c.objects, def@) == Some(od),
        flaw_of_placement(c, shapes, p, parent, fuel, path) is None,
    ensures
        od.category is CommandCenter || od.category is Radar || od.category is Sensor
            || od.category is Upgrade ==> parent == Some(ObjectCategory::Structure) || parent == Some(
            ObjectCategory::Container,
        ),
        p.children@.len() > 0 ==> od.category is Structure || od.category is Container,
        p.shape matches Some(s) ==> s < shapes.len() && shapes[s as int],
        flaw_of_list(c, shapes, p.children@, p.children@.len(), Some(od.category), fuel, path)
            is None,
{
}

/// A plain object of a category that may stand anywhere is no flaw, nor is one that must be inside where it is.
pub proof fn law_plain_placements_pass(
    c: Stock,
    shapes: Seq<bool>,
    p: Placement,
    od: ObjectDef,
    parent: Option<ObjectCategory>,
    fuel: nat,
    path: Seq<Seq<char>>,
)
    requires
        p.kind matches PlacementKind::Object { def } && object_of(c.objects, def@) == Some(od),
        p.children@.len() == 0,
        p.shape is None,
        !(od.category is CommandCenter || od.category is Radar || od.category is Sensor
            || od.category is Upgrade) || parent == Some(ObjectCategory::Structure) || parent == Some(
            ObjectCategory::Container,
        ),
    ensures
        flaw_of_placement(c, shapes, p, parent, fuel, path) is None,
{
}

/// A design that is not in the catalogue fails, as does one that stands in its own path or where seventeen are
/// nested already; and a design with nothing in it has no parts.
pub proof fn law_designs_that_fail(
    c: Stock,
    id: Seq<char>,
    args: Seq<SettingView>,
    frames: Seq<Frame>,
    fuel: nat,
    path: Seq<Seq<char>>,
)
    ensures
        blueprint_of(c.blueprints, id) is None ==> parts_of_design(
            c,
            id,
            args,
            frames,
            fuel,
            path,
        ) is Err,
        path.contains(id) ==> parts_of_design(c, id, args, frames, fuel, path) is Err,
        fuel == 0 ==> parts_of_design(c, id, args, frames, fuel, path) is Err,
        blueprint_of(c.blueprints, id) matches Some(bp) && bp.root@.len() == 0 && fuel > 0
            && !path.contains(id) ==> parts_of_design(c, id, args, frames, fuel, path) == Ok::<
            Seq<PartView>,
            FaultView,
        >(Seq::empty()),
        parts_of(c, id, args) == parts_of_design(c, id, args, Seq::empty(), 17, Seq::empty()),
{
}

/// A catalogue that passes its check has sound shapes for all its objects, and none of its designs has a flaw; and one with an unsound shape does not
/// pass.
pub proof fn law_checked_catalogues(c: Stock, shapes: Seq<bool>, i: int, j: int)
    requires
        flaw_of_catalog(c, shapes) is None,
        0 <= i < c.objects.len(),
        0 <= j < c.blueprints.len(),
    ensures
        c.objects[i].shape < shapes.len(),
        shapes[c.objects[i].shape as int],
        flaw_of_design(c, shapes, c.blueprints[j].id@, 17, Seq::empty()) is None,
{
    if flaw_of_objects(c.objects, shapes, (i + 1) as nat) is Some {
        lemma_object_flaw_stays(c.objects, shapes, (i + 1) as nat, c.objects.len());
    }
    if flaw_of_blueprints(c, shapes, (j + 1) as nat) is Some {
        lemma_design_flaw_stays(c, shapes, (j + 1) as nat, c.blueprints.len());
    }
}

/// A design has a flaw where it is unknown, stands in its own path, or is nested too deeply.
pub proof fn law_flaws_of_designs(c: Stock, shapes: Seq<bool>, id: Seq<char>, fuel: nat, path: Seq<Seq<char>>)
    ensures
        blueprint_of(c.blueprints, id) is None ==> flaw_of_design(c, shapes, id, fuel, path) is Some,
        path.contains(id) ==> flaw_of_design(c, shapes, id, fuel, path) is Some,
        fuel == 0 ==> flaw_of_design(c, shapes, id, fuel, path) is Some,
        blueprint_of(c.blueprints, id) matches Some(bp) && bp.root@.len() == 0 && fuel > 0
            && !path.contains(id) ==> flaw_of_design(c, shapes, id, fuel, path) is None,
{
}

/// A list of placements has a flaw as soon as one of them has.
pub proof fn law_one_flaw_spoils_a_list(
    c: Stock,
    shapes: Seq<bool>,
    list: Seq<Placement>,
    n: nat,
    parent: Option<ObjectCategory>,
    fuel: nat,
    path: Seq<Seq<char>>,
    i: int,
)
    requires
        0 <= i < n <= list.len(),
    ensures
        flaw_of_placement(c, shapes, list[i], parent, fuel, path) is Some ==> flaw_of_list(
            c,
            shapes,
            list,
            n,
            parent,
            fuel,
            path,
        ) is Some,
        flaw_of_list(c, shapes, list, n, parent, fuel, path) is None ==> flaw_of_placement(
            c,
            shapes,
            list[i],
            parent,
            fuel,
            path,
        ) is None,
    decreases n,
{
    if i < n - 1 {
        law_one_flaw_spoils_a_list(c, shapes, list, (n - 1) as nat, parent, fuel, path, i);
    }
}

/// The variables of a design are its parameters in their order.
pub proof fn law_variables_are_the_parameters(params: Seq<BpParam>, args: Seq<SettingView>, i: int)
    requires
        0 <= i < params.len(),
    ensures
        scope_of(params, args).len() == params.len(),
        scope_of(params, args)[i].key == params[i].name@,
        params[i].min is None && params[i].max is None ==> scope_of(params, args)[i].value == (
        match value_of(args, params[i].name@) {
            Some(v) => v,
            None => params[i].default,
        }),
{
}

/// What a craft amounts to is what its parts contribute, and its mounts are their weapons in order, none lost.
pub proof fn law_crafts_amount_to_their_parts(c: ResolvedCraft, parts: Seq<ResolvedPart>, i: int, j: int)
    requires
        is_craft_of(c, parts),
        0 <= i < j < c.weapon_mounts@.len(),
    ensures
        c.parts@ == parts,
        c.total_thrust == sum_of(parts, |p: ResolvedPart| p.stats.thrust),
        c.net_power == sum_of(parts, |p: ResolvedPart| p.stats.power),
        c.storage_capacity == sum_of(parts, |p: ResolvedPart| p.stats.capacity),
        c.weapon_mounts@.to_multiset() == weapons_of(parts).to_multiset(),
        !crate::text::text_below(c.weapon_mounts@[j]@, c.weapon_mounts@[i]@),
{
    crate::sort::lemma_stably_sorted(weapons_of(parts));
    assert(thrust() =~= |p: ResolvedPart| p.stats.thrust);
    assert(power() =~= |p: ResolvedPart| p.stats.power);
    assert(capacity() =~= |p: ResolvedPart| p.stats.capacity);
    let s = c.weapon_mounts@;
    assert(!crate::sort::Ranked::before(&s[j], &s[i]));
}

} // verus!
