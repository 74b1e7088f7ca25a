//! A tree of fattened boxes that follows moving objects around.
//!
//! Every leaf holds a box with some slack, so that an object can move a little before its leaf has to
//! be filed anew. A new leaf goes beside the node that it costs least to pair it with, and rotations
//! keep the branches of similar height.
use vstd::prelude::*;
use vstd::set_lib::{
    lemma_int_range, lemma_len_subset, lemma_set_disjoint_lens, set_int_range,
};

use crate::aabb::{encloses, lemma_filter_distinct, greater, growable, grown, hull, overlaps, Aabb};
use crate::sort::{lemma_filter_holds, lemma_filter_none, lemma_filter_push};

verus! {

/// The handle of a leaf. It stays valid until the leaf is removed, and may be handed out again then.
pub type Proxy = usize;

/// No node.
pub const NIL: usize = usize::MAX;

/// The most nodes that a tree can hold: their heights are counted in 31 bits.
pub const MAX_NODES: usize = 0x7fff_0000;

/// The slack of a tree that is made without one.
pub const DEFAULT_MARGIN: i32 = 8;

/// A node in the arena: a leaf, a fork of two, or a slot that waits to be used again.
#[derive(Debug)]
pub struct DynNode<T> {
    pub aabb: Aabb,
    pub parent: usize,
    pub child1: usize,
    pub child2: usize,
    /// 0 for a leaf, one more than the taller child for a fork, -1 for a free slot.
    pub height: i32,
    /// What a leaf carries.
    pub payload: Option<T>,
}

/// How the nodes in use hang together.
pub enum Shape {
    Leaf { id: usize },
    Fork { id: usize, one: Box<Shape>, two: Box<Shape> },
}

pub open spec fn label(s: Shape) -> usize {
    match s {
        Shape::Leaf { id } => id,
        Shape::Fork { id, one, two } => id,
    }
}

/// All nodes of a shape.
pub open spec fn members(s: Shape) -> Set<int>
    decreases s,
{
    match s {
        Shape::Leaf { id } => Set::empty().insert(id as int),
        Shape::Fork { id, one, two } => members(*one).union(members(*two)).insert(id as int),
    }
}

/// The leaves of a shape.
pub open spec fn leaves(s: Shape) -> Set<usize>
    decreases s,
{
    match s {
        Shape::Leaf { id } => Set::empty().insert(id),
        Shape::Fork { id, one, two } => leaves(*one).union(leaves(*two)),
    }
}

/// The leaves of a shape in the order in which a query comes upon them.
pub open spec fn order(s: Shape) -> Seq<usize>
    decreases s,
{
    match s {
        Shape::Leaf { id } => seq![id],
        Shape::Fork { id, one, two } => order(*two) + order(*one),
    }
}

pub open spec fn tall(s: Shape) -> int
    decreases s,
{
    match s {
        Shape::Leaf { id } => 0,
        Shape::Fork { id, one, two } => 1 + greater(tall(*one), tall(*two)),
    }
}

/// No node occurs twice.
pub open spec fn apart(s: Shape) -> bool
    decreases s,
{
    match s {
        Shape::Leaf { id } => true,
        Shape::Fork { id, one, two } => {
            &&& !members(*one).contains(id as int)
            &&& !members(*two).contains(id as int)
            &&& members(*one).disjoint(members(*two))
            &&& apart(*one)
            &&& apart(*two)
        },
    }
}

/// The links of the arena are those of the shape.
pub open spec fn rooted<T>(nodes: Seq<DynNode<T>>, s: Shape, parent: usize) -> bool
    decreases s,
{
    &&& label(s) < nodes.len()
    &&& nodes[label(s) as int].parent == parent
    &&& match s {
        Shape::Leaf { id } => nodes[id as int].payload is Some && nodes[id as int].height == 0,
        Shape::Fork { id, one, two } => {
            &&& nodes[id as int].payload is None
            &&& nodes[id as int].child1 == label(*one)
            &&& nodes[id as int].child2 == label(*two)
            &&& rooted(nodes, *one, id)
            &&& rooted(nodes, *two, id)
        },
    }
}

/// The boxes and heights of the forks are those of their children.
pub open spec fn fitted<T>(nodes: Seq<DynNode<T>>, s: Shape) -> bool
    decreases s,
{
    match s {
        Shape::Leaf { id } => true,
        Shape::Fork { id, one, two } => {
            &&& nodes[id as int].height == tall(s)
            &&& nodes[id as int].aabb == hull(
                nodes[label(*one) as int].aabb,
                nodes[label(*two) as int].aabb,
            )
            &&& fitted(nodes, *one)
            &&& fitted(nodes, *two)
        },
    }
}

/// The slots that wait are chained from the last to the first.
pub open spec fn chained<T>(nodes: Seq<DynNode<T>>, free: usize, spare: Seq<usize>) -> bool
    decreases spare.len(),
{
    if spare.len() == 0 {
        free == NIL
    } else {
        &&& free == spare.last()
        &&& free < nodes.len()
        &&& chained(nodes, nodes[free as int].child1, spare.drop_last())
    }
}

pub open spec fn members_of(s: Option<Shape>) -> Set<int> {
    match s {
        None => Set::empty(),
        Some(s) => members(s),
    }
}

pub open spec fn leaves_of(s: Option<Shape>) -> Set<usize> {
    match s {
        None => Set::empty(),
        Some(s) => leaves(s),
    }
}

pub open spec fn order_of(s: Option<Shape>) -> Seq<usize> {
    match s {
        None => Seq::empty(),
        Some(s) => order(s),
    }
}

/// A tree of boxes that follows moving objects around.
pub struct DynamicAabbTree<T> {
    pub nodes: Vec<DynNode<T>>,
    pub root: usize,
    pub free: usize,
    pub count: usize,
    /// The slack on every side of a box.
    pub fat_margin: i32,
    /// How the nodes in use hang together.
    pub shape: Ghost<Option<Shape>>,
    /// The slots that wait to be used again.
    pub spare: Ghost<Seq<usize>>,
}

/// The fat box and the payload of a leaf.
pub struct Entry<T> {
    pub fat: Aabb,
    pub payload: T,
}

impl<T> View for DynamicAabbTree<T> {
    type V = Map<usize, Entry<T>>;

    open spec fn view(&self) -> Map<usize, Entry<T>> {
        Map::new(
            |p: usize| leaves_of(self.shape@).contains(p),
            |p: usize| entry_of(self.nodes@[p as int]),
        )
    }
}

pub open spec fn entry_of<T>(n: DynNode<T>) -> Entry<T> {
    Entry { fat: n.aabb, payload: n.payload->0 }
}

/// The leaf's box overlaps the query.
pub open spec fn struck<T>(m: Map<usize, Entry<T>>, q: Aabb) -> spec_fn(usize) -> bool {
    |p: usize| overlaps(m[p].fat, q)
}

/// What happens to be free does not hang in the tree.
pub open spec fn sound<T>(
    nodes: Seq<DynNode<T>>,
    free: usize,
    spare: Seq<usize>,
    busy: Set<int>,
) -> bool {
    &&& nodes.len() <= MAX_NODES
    &&& chained(nodes, free, spare)
    &&& spare.no_duplicates()
    &&& forall|i: int| 0 <= i < spare.len() ==> !busy.contains((#[trigger] spare[i]) as int)
}

impl<T> DynamicAabbTree<T> {
    /// The nodes, the links and the free slots agree.
    pub open spec fn tidy(&self) -> bool {
        &&& sound(self.nodes@, self.free, self.spare@, members_of(self.shape@))
        &&& match self.shape@ {
            None => self.root == NIL,
            Some(s) => {
                &&& self.root == label(s)
                &&& rooted(self.nodes@, s, NIL)
                &&& fitted(self.nodes@, s)
                &&& apart(s)
            },
        }
    }

    pub open spec fn wf(&self) -> bool {
        &&& self.tidy()
        &&& self.count == leaves_of(self.shape@).len()
    }

    /// The slot that the `k`-th node to come is given: one that waits, the last first, or a new one.
    pub open spec fn slot(&self, k: int) -> usize {
        if k < self.spare@.len() {
            self.spare@[self.spare@.len() - 1 - k]
        } else {
            (self.nodes@.len() + k - self.spare@.len()) as usize
        }
    }

    /// The slots that still wait once `n` nodes have come.
    pub open spec fn spare_after(&self, n: int) -> Seq<usize> {
        if n < self.spare@.len() {
            self.spare@.take(self.spare@.len() - n)
        } else {
            Seq::empty()
        }
    }

    /// Nothing has been filed yet.
    pub open spec fn is_new(&self) -> bool {
        self.shape@ is None && self.nodes@.len() == 0 && self.spare@.len() == 0
    }

    /// How many slots there are once `n` nodes have come.
    pub open spec fn slots_after(&self, n: int) -> int {
        if n < self.spare@.len() {
            self.nodes@.len() as int
        } else {
            self.nodes@.len() + n - self.spare@.len()
        }
    }

    /// Another leaf fits in.
    pub open spec fn has_room(&self) -> bool {
        self.nodes@.len() + 2 <= MAX_NODES
    }

    /// The leaves that a query finds, in its order.
    pub open spec fn found(&self, q: Aabb) -> Seq<usize> {
        order_of(self.shape@).filter(struck(self@, q))
    }
}

/// A step down the tree: the fork, the child that was not taken, and whether the first one was.
pub struct Turn {
    pub id: usize,
    pub other: Shape,
    pub first: bool,
}

/// The fork of a turn with `s` on the side that was taken.
spec fn joined(t: Turn, s: Shape) -> Shape {
    if t.first {
        Shape::Fork { id: t.id, one: Box::new(s), two: Box::new(t.other) }
    } else {
        Shape::Fork { id: t.id, one: Box::new(t.other), two: Box::new(s) }
    }
}

/// The node that a path ends below.
spec fn above(path: Seq<Turn>) -> usize {
    if path.len() == 0 {
        NIL
    } else {
        path.last().id
    }
}

/// The top of a tree that is open at a path.
spec fn crest(path: Seq<Turn>, s: Shape) -> usize {
    if path.len() == 0 {
        label(s)
    } else {
        path[0].id
    }
}

/// The nodes of a path and of the branches beside it.
spec fn route(path: Seq<Turn>) -> Set<int>
    decreases path.len(),
{
    if path.len() == 0 {
        Set::empty()
    } else {
        route(path.drop_last()).union(members(path.last().other)).insert(path.last().id as int)
    }
}

/// The leaves of the branches beside a path.
spec fn fringe(path: Seq<Turn>) -> Set<usize>
    decreases path.len(),
{
    if path.len() == 0 {
        Set::empty()
    } else {
        fringe(path.drop_last()).union(leaves(path.last().other))
    }
}

/// The links of the arena are those of the path, which ends at the node `hole`.
spec fn strung<T>(nodes: Seq<DynNode<T>>, path: Seq<Turn>, hole: usize) -> bool
    decreases path.len(),
{
    path.len() == 0 || {
        let t = path.last();
        let n = nodes[t.id as int];
        &&& t.id < nodes.len()
        &&& n.payload is None
        &&& n.parent == above(path.drop_last())
        &&& n.child1 == (if t.first {
            hole
        } else {
            label(t.other)
        })
        &&& n.child2 == (if t.first {
            label(t.other)
        } else {
            hole
        })
        &&& rooted(nodes, t.other, t.id)
        &&& strung(nodes, path.drop_last(), t.id)
    }
}

/// No node of a path occurs twice.
spec fn spread(path: Seq<Turn>) -> bool
    decreases path.len(),
{
    path.len() == 0 || {
        let t = path.last();
        let rest = path.drop_last();
        &&& apart(t.other)
        &&& !members(t.other).contains(t.id as int)
        &&& !route(rest).contains(t.id as int)
        &&& members(t.other).disjoint(route(rest))
        &&& spread(rest)
    }
}

/// The branches beside a path are fitted.
spec fn trim<T>(nodes: Seq<DynNode<T>>, path: Seq<Turn>) -> bool
    decreases path.len(),
{
    path.len() == 0 || (fitted(nodes, path.last().other) && trim(nodes, path.drop_last()))
}

/// The tree is open at the end of the path, where `s` hangs.
spec fn open_at<T>(nodes: Seq<DynNode<T>>, path: Seq<Turn>, s: Shape) -> bool {
    &&& strung(nodes, path, label(s))
    &&& rooted(nodes, s, above(path))
    &&& apart(s)
    &&& spread(path)
    &&& members(s).disjoint(route(path))
}

spec fn extent(path: Seq<Turn>, s: Shape) -> Set<int> {
    route(path).union(members(s))
}

spec fn crown(path: Seq<Turn>, s: Shape) -> Set<usize> {
    fringe(path).union(leaves(s))
}

/// The recorded heights are unchanged.
spec fn level<T>(a: Seq<DynNode<T>>, b: Seq<DynNode<T>>, of: Set<int>) -> bool {
    forall|k: int| #[trigger] of.contains(k) ==> b[k].height == a[k].height
}

/// What the leaves hold is unchanged.
spec fn kept<T>(a: Seq<DynNode<T>>, b: Seq<DynNode<T>>, of: Set<usize>) -> bool {
    forall|p: usize| #[trigger] of.contains(p) ==> entry_of(b[p as int]) == entry_of(a[p as int])
}

proof fn lemma_label(s: Shape)
    ensures
        members(s).contains(label(s) as int),
{
}

proof fn lemma_leaves_are_members(s: Shape)
    ensures
        forall|p: usize| #[trigger] leaves(s).contains(p) ==> members(s).contains(p as int),
    decreases s,
{
    match s {
        Shape::Leaf { id } => {
            assert(leaves(s) == Set::empty().insert(id));
        },
        Shape::Fork { id, one, two } => {
            lemma_leaves_are_members(*one);
            lemma_leaves_are_members(*two);
            assert(leaves(s) == leaves(*one).union(leaves(*two)));
        },
    }
}

proof fn lemma_fringe_on_route(path: Seq<Turn>)
    ensures
        forall|p: usize| #[trigger] fringe(path).contains(p) ==> route(path).contains(p as int),
    decreases path.len(),
{
    if path.len() > 0 {
        lemma_fringe_on_route(path.drop_last());
        lemma_leaves_are_members(path.last().other);
        assert(fringe(path) == fringe(path.drop_last()).union(leaves(path.last().other)));
    }
}

/// A shape of `n` leaves has `2 n - 1` nodes, and is lower than `n`.
proof fn lemma_sizes(s: Shape)
    requires
        apart(s),
    ensures
        members(s).finite(),
        leaves(s).finite(),
        leaves(s).len() > 0,
        members(s).len() == 2 * leaves(s).len() - 1,
        0 <= tall(s) < leaves(s).len(),
    decreases s,
{
    match s {
        Shape::Leaf { id } => {},
        Shape::Fork { id, one, two } => {
            lemma_sizes(*one);
            lemma_sizes(*two);
            lemma_set_disjoint_lens(members(*one), members(*two));
            lemma_leaves_are_members(*one);
            lemma_leaves_are_members(*two);
            assert(leaves(*one).disjoint(leaves(*two)));
            lemma_set_disjoint_lens(leaves(*one), leaves(*two));
            assert(members(*one) + members(*two) =~= members(*one).union(members(*two)));
            assert(leaves(*one) + leaves(*two) =~= leaves(*one).union(leaves(*two)));
        },
    }
}

proof fn lemma_in_arena<T>(nodes: Seq<DynNode<T>>, s: Shape, parent: usize)
    requires
        rooted(nodes, s, parent),
    ensures
        forall|k: int| #[trigger] members(s).contains(k) ==> 0 <= k < nodes.len(),
    decreases s,
{
    match s {
        Shape::Leaf { id } => {
            assert(members(s) == Set::empty().insert(id as int));
        },
        Shape::Fork { id, one, two } => {
            lemma_in_arena(nodes, *one, id);
            lemma_in_arena(nodes, *two, id);
            assert(members(s) == members(*one).union(members(*two)).insert(id as int));
        },
    }
}

proof fn lemma_low<T>(nodes: Seq<DynNode<T>>, s: Shape, parent: usize)
    requires
        rooted(nodes, s, parent),
        apart(s),
    ensures
        0 <= tall(s) < nodes.len(),
        leaves(s).len() <= nodes.len(),
        members(s).len() <= nodes.len(),
{
    lemma_in_arena(nodes, s, parent);
    lemma_sizes(s);
    lemma_int_range(0, nodes.len() as int);
    assert(members(s).subset_of(set_int_range(0, nodes.len() as int)));
    lemma_len_subset(members(s), set_int_range(0, nodes.len() as int));
}

proof fn lemma_height<T>(nodes: Seq<DynNode<T>>, s: Shape, parent: usize)
    requires
        rooted(nodes, s, parent),
        fitted(nodes, s),
    ensures
        label(s) < nodes.len(),
        nodes[label(s) as int].height == tall(s),
{
}

proof fn lemma_same<T>(a: Seq<DynNode<T>>, b: Seq<DynNode<T>>, s: Shape, parent: usize)
    requires
        rooted(a, s, parent),
        a.len() <= b.len(),
        forall|k: int| #[trigger] members(s).contains(k) ==> b[k] == a[k],
    ensures
        rooted(b, s, parent),
        fitted(a, s) ==> fitted(b, s),
    decreases s,
{
    lemma_label(s);
    match s {
        Shape::Leaf { id } => {},
        Shape::Fork { id, one, two } => {
            assert forall|k: int| #[trigger] members(*one).contains(k) implies b[k] == a[k] by {
                assert(members(s).contains(k));
            }
            assert forall|k: int| #[trigger] members(*two).contains(k) implies b[k] == a[k] by {
                assert(members(s).contains(k));
            }
            lemma_same(a, b, *one, id);
            lemma_same(a, b, *two, id);
            lemma_label(*one);
            lemma_label(*two);
        },
    }
}

/// Two arenas that differ in a shape's topmost node alone, and there not in the links below it.
proof fn lemma_same_below<T>(
    a: Seq<DynNode<T>>,
    b: Seq<DynNode<T>>,
    s: Shape,
    parent: usize,
    other_parent: usize,
)
    requires
        rooted(a, s, parent),
        apart(s),
        a.len() <= b.len(),
        forall|k: int| #[trigger] members(s).contains(k) && k != label(s) ==> b[k] == a[k],
        b[label(s) as int] == (DynNode { parent: other_parent, ..a[label(s) as int] }),
    ensures
        rooted(b, s, other_parent),
        fitted(a, s) ==> fitted(b, s),
{
    match s {
        Shape::Leaf { id } => {},
        Shape::Fork { id, one, two } => {
            assert forall|k: int| #[trigger] members(*one).contains(k) implies b[k] == a[k] by {
                assert(members(s).contains(k));
            }
            assert forall|k: int| #[trigger] members(*two).contains(k) implies b[k] == a[k] by {
                assert(members(s).contains(k));
            }
            lemma_same(a, b, *one, id);
            lemma_same(a, b, *two, id);
            lemma_label(*one);
            lemma_label(*two);
        },
    }
}

proof fn lemma_strung_same<T>(a: Seq<DynNode<T>>, b: Seq<DynNode<T>>, path: Seq<Turn>, hole: usize)
    requires
        strung(a, path, hole),
        a.len() <= b.len(),
        forall|k: int| #[trigger] route(path).contains(k) ==> b[k] == a[k],
    ensures
        strung(b, path, hole),
        trim(a, path) ==> trim(b, path),
    decreases path.len(),
{
    if path.len() > 0 {
        let t = path.last();
        let rest = path.drop_last();
        assert(route(path).contains(t.id as int));
        assert forall|k: int| #[trigger] route(rest).contains(k) implies b[k] == a[k] by {
            assert(route(path).contains(k));
        }
        assert forall|k: int| #[trigger] members(t.other).contains(k) implies b[k] == a[k] by {
            assert(route(path).contains(k));
        }
        lemma_strung_same(a, b, rest, t.id);
        lemma_same(a, b, t.other, t.id);
    }
}

/// The arena with another node where the path ended.
spec fn rehung<T>(nodes: Seq<DynNode<T>>, path: Seq<Turn>, hole: usize) -> Seq<DynNode<T>> {
    if path.len() == 0 {
        nodes
    } else {
        let t = path.last();
        let n = nodes[t.id as int];
        nodes.update(
            t.id as int,
            if t.first {
                DynNode { child1: hole, ..n }
            } else {
                DynNode { child2: hole, ..n }
            },
        )
    }
}

proof fn lemma_rehung<T>(
    a: Seq<DynNode<T>>,
    b: Seq<DynNode<T>>,
    path: Seq<Turn>,
    hole: usize,
    other: usize,
)
    requires
        strung(a, path, hole),
        spread(path),
        a.len() <= b.len(),
        forall|k: int| #[trigger] route(path).contains(k) ==> b[k] == rehung(a, path, other)[k],
    ensures
        strung(b, path, other),
        trim(a, path) ==> trim(b, path),
{
    if path.len() > 0 {
        let t = path.last();
        let rest = path.drop_last();
        assert(route(path).contains(t.id as int));
        lemma_route_in_arena(a, path, hole);
        assert forall|k: int| #[trigger] route(rest).contains(k) implies b[k] == a[k] by {
            assert(route(path).contains(k));
            assert(k != t.id);
        }
        assert forall|k: int| #[trigger] members(t.other).contains(k) implies b[k] == a[k] by {
            assert(route(path).contains(k));
            assert(k != t.id);
        }
        lemma_strung_same(a, b, rest, t.id);
        lemma_same(a, b, t.other, t.id);
    }
}

proof fn lemma_route_in_arena<T>(nodes: Seq<DynNode<T>>, path: Seq<Turn>, hole: usize)
    requires
        strung(nodes, path, hole),
    ensures
        forall|k: int| #[trigger] route(path).contains(k) ==> 0 <= k < nodes.len(),
    decreases path.len(),
{
    if path.len() > 0 {
        let t = path.last();
        lemma_route_in_arena(nodes, path.drop_last(), t.id);
        lemma_in_arena(nodes, t.other, t.id);
        assert(route(path) == route(path.drop_last()).union(members(t.other)).insert(t.id as int));
    }
}

/// One step up keeps the tree open.
proof fn lemma_ascend<T>(nodes: Seq<DynNode<T>>, path: Seq<Turn>, s: Shape)
    requires
        open_at(nodes, path, s),
        path.len() > 0,
    ensures
        open_at(nodes, path.drop_last(), joined(path.last(), s)),
        extent(path.drop_last(), joined(path.last(), s)) == extent(path, s),
        crown(path.drop_last(), joined(path.last(), s)) == crown(path, s),
        crest(path.drop_last(), joined(path.last(), s)) == crest(path, s),
{
    let t = path.last();
    let rest = path.drop_last();
    let up = joined(t, s);
    assert(members(up) =~= members(s).union(members(t.other)).insert(t.id as int));
    assert(route(path) =~= route(rest).union(members(t.other)).insert(t.id as int));
    assert(route(path).contains(t.id as int));
    assert forall|k: int| members(s).contains(k) implies !members(t.other).contains(k)
        && !route(rest).contains(k) && k != t.id by {
        assert(!route(path).contains(k));
    }
    assert(members(up).disjoint(route(rest)));
    assert(apart(up));
    assert(extent(rest, up) =~= extent(path, s));
    assert(crown(rest, up) =~= crown(path, s));
}

/// A tree that is open at its top is closed.
proof fn lemma_at_the_top<T>(nodes: Seq<DynNode<T>>, path: Seq<Turn>, s: Shape)
    requires
        open_at(nodes, path, s),
        path.len() == 0,
    ensures
        extent(path, s) == members(s),
        crown(path, s) == leaves(s),
        rooted(nodes, s, NIL),
        apart(s),
        crest(path, s) == label(s),
{
    assert(extent(path, s) =~= members(s));
    assert(crown(path, s) =~= leaves(s));
}

/// The turn at a fork.
spec fn turn_of(s: Shape, first: bool) -> Turn {
    match s {
        Shape::Fork { id, one, two } => Turn {
            id,
            other: if first {
                *two
            } else {
                *one
            },
            first,
        },
        Shape::Leaf { id } => Turn { id, other: s, first },
    }
}

/// The first or the second child of a fork.
pub open spec fn child_of(s: Shape, first: bool) -> Shape {
    match s {
        Shape::Fork { id, one, two } => if first {
            *one
        } else {
            *two
        },
        Shape::Leaf { id } => s,
    }
}

/// One step down keeps the tree open.
proof fn lemma_descend<T>(nodes: Seq<DynNode<T>>, path: Seq<Turn>, s: Shape, first: bool)
    requires
        open_at(nodes, path, s),
        s is Fork,
    ensures
        open_at(nodes, path.push(turn_of(s, first)), child_of(s, first)),
        extent(path.push(turn_of(s, first)), child_of(s, first)) == extent(path, s),
        crown(path.push(turn_of(s, first)), child_of(s, first)) == crown(path, s),
        crest(path.push(turn_of(s, first)), child_of(s, first)) == crest(path, s),
        trim(nodes, path) && fitted(nodes, s) ==> trim(nodes, path.push(turn_of(s, first)))
            && fitted(nodes, child_of(s, first)),
{
    let t = turn_of(s, first);
    let c = child_of(s, first);
    let longer = path.push(t);
    assert(longer.drop_last() =~= path);
    assert(longer.last() == t);
    assert(members(s) =~= members(c).union(members(t.other)).insert(t.id as int));
    assert(members(s).contains(t.id as int));
    assert forall|k: int| members(t.other).contains(k) implies !route(path).contains(k) by {
        assert(members(s).contains(k));
    }
    assert forall|k: int| members(c).contains(k) implies !route(longer).contains(k) by {
        assert(members(s).contains(k));
    }
    assert(extent(longer, c) =~= extent(path, s));
    assert(crown(longer, c) =~= crown(path, s));
}

/// The shape without a leaf. The leaf's sibling takes the place of the fork above both, and the forks above
/// that are balanced.
pub open spec fn removed(s: Shape, leaf: usize) -> Shape
    decreases s,
{
    match s {
        Shape::Leaf { id } => s,
        Shape::Fork { id, one, two } => if *one == (Shape::Leaf { id: leaf }) {
            *two
        } else if *two == (Shape::Leaf { id: leaf }) {
            *one
        } else if leaves(*one).contains(leaf) {
            poised(Shape::Fork { id, one: Box::new(removed(*one, leaf)), two }, tall(s))
        } else {
            poised(Shape::Fork { id, one, two: Box::new(removed(*two, leaf)) }, tall(s))
        },
    }
}

proof fn lemma_lone_member(s: Shape)
    ensures
        forall|p: usize| s == (Shape::Leaf { id: p }) ==> #[trigger] members(s).contains(p as int),
{
}

/// The path to a node of an open tree.
proof fn lemma_find<T>(nodes: Seq<DynNode<T>>, path: Seq<Turn>, s: Shape, id: usize) -> (r: (
    Seq<Turn>,
    Shape,
))
    requires
        open_at(nodes, path, s),
        members(s).contains(id as int),
        trim(nodes, path),
        fitted(nodes, s),
    ensures
        open_at(nodes, r.0, r.1),
        label(r.1) == id,
        trim(nodes, r.0),
        fitted(nodes, r.1),
        extent(r.0, r.1) == extent(path, s),
        crown(r.0, r.1) == crown(path, s),
        crest(r.0, r.1) == crest(path, s),
        s is Leaf ==> r == (path, s),
        leaves(s).contains(id) && s is Fork ==> r.0.len() > path.len() && climbed(
            nodes,
            path,
            removed(s, id),
        ) == climbed(nodes, r.0.drop_last(), r.0.last().other),
    decreases s,
{
    match s {
        Shape::Leaf { id: own } => (path, s),
        Shape::Fork { id: own, one, two } => {
            lemma_leaves_are_members(*one);
            lemma_leaves_are_members(*two);
            if own == id {
                assert(leaves(s) == leaves(*one).union(leaves(*two)));
                (path, s)
            } else {
                let first = members(*one).contains(id as int);
                let t = turn_of(s, first);
                let c = child_of(s, first);
                lemma_descend(nodes, path, s, first);
                let r = lemma_find(nodes, path.push(t), c, id);
                if leaves(s).contains(id) {
                    assert(leaves(s) == leaves(*one).union(leaves(*two)));
                    assert(leaves(c).contains(id));
                    assert(path.push(t).drop_last() =~= path);
                    if c is Leaf {
                        assert(c == Shape::Leaf { id });
                        assert(members(c).contains(id as int));
                        assert(removed(s, id) == t.other);
                    } else {
                        lemma_height(nodes, s, above(path));
                        lemma_lone_member(*one);
                        lemma_lone_member(*two);
                        assert(removed(s, id) == poised(joined(t, removed(c, id)), tall(s)));
                    }
                }
                r
            }
        },
    }
}

/// Free slots that keep their links are chained as before.
proof fn lemma_chained_same<T>(
    a: Seq<DynNode<T>>,
    b: Seq<DynNode<T>>,
    free: usize,
    spare: Seq<usize>,
)
    requires
        chained(a, free, spare),
        a.len() <= b.len(),
        forall|i: int|
            0 <= i < spare.len() ==> b[(#[trigger] spare[i]) as int] == a[spare[i] as int],
    ensures
        chained(b, free, spare),
    decreases spare.len(),
{
    if spare.len() > 0 {
        assert(spare[spare.len() - 1] == free);
        let rest = spare.drop_last();
        assert forall|i: int| 0 <= i < rest.len() implies b[(#[trigger] rest[i]) as int]
            == a[rest[i] as int] by {
            assert(rest[i] == spare[i]);
        }
        lemma_chained_same(a, b, a[free as int].child1, rest);
    }
}

proof fn lemma_spare_in_arena<T>(nodes: Seq<DynNode<T>>, free: usize, spare: Seq<usize>)
    requires
        chained(nodes, free, spare),
    ensures
        forall|i: int| 0 <= i < spare.len() ==> (#[trigger] spare[i]) < nodes.len(),
    decreases spare.len(),
{
    if spare.len() > 0 {
        let rest = spare.drop_last();
        lemma_spare_in_arena(nodes, nodes[free as int].child1, rest);
        assert forall|i: int| 0 <= i < spare.len() implies (#[trigger] spare[i]) < nodes.len() by {
            if i < rest.len() {
                assert(rest[i] == spare[i]);
            }
        }
    }
}

spec fn fresh<T>(aabb: Aabb, payload: Option<T>) -> DynNode<T> {
    DynNode { aabb, parent: NIL, child1: NIL, child2: NIL, height: 0, payload }
}

impl<T> DynamicAabbTree<T> {
    /// Everything but the nodes and their links is as before.
    spec fn only_nodes_of(&self, old: &Self) -> bool {
        &&& self.nodes@.len() == old.nodes@.len()
        &&& self.free == old.free
        &&& self.count == old.count
        &&& self.fat_margin == old.fat_margin
        &&& self.shape == old.shape
        &&& self.spare == old.spare
    }

    /// Takes a slot for a node.
    fn take_slot(&mut self, aabb: Aabb, payload: Option<T>) -> (id: usize)
        requires
            old(self).nodes@.len() <= MAX_NODES,
            old(self).spare@.len() == 0 ==> old(self).nodes@.len() < MAX_NODES,
            chained(old(self).nodes@, old(self).free, old(self).spare@),
            old(self).spare@.no_duplicates(),
        ensures
            chained(final(self).nodes@, final(self).free, final(self).spare@),
            old(self).spare@.len() > 0 ==> id == old(self).spare@.last() && final(self).spare@
                == old(self).spare@.drop_last() && final(self).nodes@ == old(self).nodes@.update(
                id as int,
                fresh(aabb, payload),
            ),
            old(self).spare@.len() == 0 ==> id == old(self).nodes@.len() && final(self).spare@
                == old(self).spare@ && final(self).nodes@ == old(self).nodes@.push(
                fresh(aabb, payload),
            ),
            final(self).root == old(self).root,
            final(self).count == old(self).count,
            final(self).fat_margin == old(self).fat_margin,
            final(self).shape == old(self).shape,
    {
        let node = DynNode { aabb, parent: NIL, child1: NIL, child2: NIL, height: 0, payload };
        let ghost n0 = self.nodes@;
        let ghost spare = self.spare@;
        if self.free != NIL {
            let id: usize = self.free;
            self.free = self.nodes[id].child1;
            self.nodes.set(id, node);
            proof {
                self.spare@ = spare.drop_last();
                assert forall|i: int| 0 <= i < self.spare@.len() implies (#[trigger] self.spare@[i])
                    != id by {
                    assert(self.spare@[i] == spare[i]);
                    assert(spare[i] != spare[spare.len() - 1]);
                }
                lemma_spare_in_arena(n0, self.free, self.spare@);
                lemma_chained_same(n0, self.nodes@, self.free, self.spare@);
            }
            id
        } else {
            self.nodes.push(node);
            self.nodes.len() - 1
        }
    }

    /// Gives a slot back.
    fn freenode(&mut self, id: usize)
        requires
            id < old(self).nodes@.len() <= MAX_NODES,
            chained(old(self).nodes@, old(self).free, old(self).spare@),
            !old(self).spare@.contains(id),
        ensures
            chained(final(self).nodes@, final(self).free, final(self).spare@),
            final(self).spare@ == old(self).spare@.push(id),
            final(self).nodes@ == old(self).nodes@.update(
                id as int,
                DynNode {
                    child1: old(self).free,
                    height: -1i32,
                    payload: None,
                    ..old(self).nodes@[id as int]
                },
            ),
            final(self).root == old(self).root,
            final(self).count == old(self).count,
            final(self).fat_margin == old(self).fat_margin,
            final(self).shape == old(self).shape,
    {
        let ghost n0 = self.nodes@;
        let ghost spare = self.spare@;
        let ghost free = self.free;
        self.nodes[id].child1 = self.free;
        self.nodes[id].height = -1;
        self.nodes[id].payload = None;
        self.free = id;
        proof {
            self.spare@ = spare.push(id);
            assert(self.spare@.drop_last() =~= spare);
            assert forall|i: int| 0 <= i < spare.len() implies (#[trigger] spare[i]) != id by {
                assert(spare.contains(spare[i]));
            }
            lemma_spare_in_arena(n0, free, spare);
            lemma_chained_same(n0, self.nodes@, free, spare);
        }
    }

    /// Hangs `to` where `from` hung below `parent`, or at the top.
    fn hang(&mut self, parent: usize, from: usize, to: usize, Ghost(path): Ghost<Seq<Turn>>)
        requires
            parent == above(path),
            strung(old(self).nodes@, path, from),
            path.len() > 0 ==> label(path.last().other) != from,
            old(self).nodes@.len() <= MAX_NODES,
        ensures
            final(self).nodes@ == rehung(old(self).nodes@, path, to),
            final(self).root == (if path.len() == 0 {
                to
            } else {
                old(self).root
            }),
            final(self).only_nodes_of(old(self)),
    {
        if parent != NIL {
            if self.nodes[parent].child1 == from {
                self.nodes[parent].child1 = to;
            } else {
                self.nodes[parent].child2 = to;
            }
        } else {
            self.root = to;
        }
    }
}

proof fn lemma_laden<T>(nodes: Seq<DynNode<T>>, s: Shape, parent: usize)
    requires
        rooted(nodes, s, parent),
    ensures
        forall|p: usize| #[trigger] leaves(s).contains(p) ==> nodes[p as int].payload is Some,
    decreases s,
{
    match s {
        Shape::Leaf { id } => {
            assert(leaves(s) == Set::empty().insert(id));
        },
        Shape::Fork { id, one, two } => {
            lemma_laden(nodes, *one, id);
            lemma_laden(nodes, *two, id);
            assert(leaves(s) == leaves(*one).union(leaves(*two)));
        },
    }
}

proof fn lemma_fringe_laden<T>(nodes: Seq<DynNode<T>>, path: Seq<Turn>, hole: usize)
    requires
        strung(nodes, path, hole),
    ensures
        forall|p: usize| #[trigger] fringe(path).contains(p) ==> nodes[p as int].payload is Some,
    decreases path.len(),
{
    if path.len() > 0 {
        let t = path.last();
        lemma_fringe_laden(nodes, path.drop_last(), t.id);
        lemma_laden(nodes, t.other, t.id);
        assert(fringe(path) == fringe(path.drop_last()).union(leaves(t.other)));
    }
}

/// The shape after a rotation: the child on the heavy side comes to the top, keeps its taller child,
/// and leaves the other one to the node that it replaces.
pub open spec fn rotated(s: Shape, second: bool) -> Shape {
    let pivot = child_of(s, !second);
    let other = child_of(s, second);
    let f = child_of(pivot, true);
    let g = child_of(pivot, false);
    let keep = if tall(f) > tall(g) {
        f
    } else {
        g
    };
    let give = if tall(f) > tall(g) {
        g
    } else {
        f
    };
    let low = if second {
        Shape::Fork { id: label(s), one: Box::new(other), two: Box::new(give) }
    } else {
        Shape::Fork { id: label(s), one: Box::new(give), two: Box::new(other) }
    };
    Shape::Fork { id: label(pivot), one: Box::new(low), two: Box::new(keep) }
}

/// The shape after balancing a fork whose recorded height was `recorded`.
pub open spec fn poised(s: Shape, recorded: int) -> Shape {
    let lean = tall(child_of(s, false)) - tall(child_of(s, true));
    if recorded < 2 {
        s
    } else if lean > 1 {
        rotated(s, true)
    } else if lean < -1 {
        rotated(s, false)
    } else {
        s
    }
}

/// The whole tree once what hangs at the end of a path has changed to `s`: each fork on the way up is
/// balanced, as its recorded height has it.
spec fn climbed<T>(nodes: Seq<DynNode<T>>, path: Seq<Turn>, s: Shape) -> Shape
    decreases path.len(),
{
    if path.len() == 0 {
        s
    } else {
        let t = path.last();
        climbed(nodes, path.drop_last(), poised(joined(t, s), nodes[t.id as int].height as int))
    }
}

proof fn lemma_climbed_same<T>(
    a: Seq<DynNode<T>>,
    b: Seq<DynNode<T>>,
    path: Seq<Turn>,
    s: Shape,
)
    requires
        level(a, b, route(path)),
    ensures
        climbed(a, path, s) == climbed(b, path, s),
    decreases path.len(),
{
    if path.len() > 0 {
        let t = path.last();
        let rest = path.drop_last();
        assert(route(path).contains(t.id as int));
        assert forall|k: int| #[trigger] route(rest).contains(k) implies b[k].height
            == a[k].height by {
            assert(route(path).contains(k));
        }
        lemma_climbed_same(a, b, rest, poised(joined(t, s), a[t.id as int].height as int));
    }
}

/// Both children of a fork are fitted.
spec fn ripe<T>(nodes: Seq<DynNode<T>>, s: Shape) -> bool {
    &&& s is Fork
    &&& fitted(nodes, child_of(s, true))
    &&& fitted(nodes, child_of(s, false))
}

fn taller(a: i32, b: i32) -> (m: i32)
    ensures
        m == greater(a as int, b as int),
{
    if a < b {
        b
    } else {
        a
    }
}

impl<T> DynamicAabbTree<T> {
    #[verifier::rlimit(60)]
    fn rotate(
        &mut self,
        a: usize,
        pivot: usize,
        other: usize,
        pivot_is_child2: bool,
        Ghost(path): Ghost<Seq<Turn>>,
        Ghost(s): Ghost<Shape>,
    ) -> (r: usize)
        requires
            open_at(old(self).nodes@, path, s),
            ripe(old(self).nodes@, s),
            trim(old(self).nodes@, path),
            child_of(s, !pivot_is_child2) is Fork,
            a == label(s),
            pivot == label(child_of(s, !pivot_is_child2)),
            other == label(child_of(s, pivot_is_child2)),
            old(self).root == crest(path, s),
            old(self).nodes@.len() <= MAX_NODES,
        ensures
            open_at(final(self).nodes@, path, rotated(s, pivot_is_child2)),
            fitted(final(self).nodes@, rotated(s, pivot_is_child2)),
            trim(final(self).nodes@, path),
            members(rotated(s, pivot_is_child2)) == members(s),
            leaves(rotated(s, pivot_is_child2)) == leaves(s),
            kept(old(self).nodes@, final(self).nodes@, crown(path, s)),
            final(self).root == crest(path, rotated(s, pivot_is_child2)),
            r == label(rotated(s, pivot_is_child2)),
            level(old(self).nodes@, final(self).nodes@, route(path)),
            final(self).only_nodes_of(old(self)),
            forall|k: int|
                0 <= k < old(self).nodes@.len() && !extent(path, s).contains(k)
                    ==> #[trigger] final(self).nodes@[k] == old(self).nodes@[k],
    {
        let ghost n0 = self.nodes@;
        let ghost sp = child_of(s, !pivot_is_child2);
        let ghost so = child_of(s, pivot_is_child2);
        let ghost sf = child_of(sp, true);
        let ghost sg = child_of(sp, false);
        proof {
            lemma_in_arena(n0, s, above(path));
            lemma_label(s);
            lemma_label(sp);
            lemma_label(so);
            lemma_label(sf);
            lemma_label(sg);
            assert(members(sp) == members(sf).union(members(sg)).insert(pivot as int));
            assert(members(s) =~= members(so).union(members(sp)).insert(a as int));
            assert(rooted(n0, sp, a));
            assert(apart(sp));
            assert(rooted(n0, sf, pivot) && rooted(n0, sg, pivot));
            lemma_height(n0, sf, pivot);
            lemma_height(n0, sg, pivot);
            lemma_height(n0, so, a);
            lemma_low(n0, sf, pivot);
            lemma_low(n0, sg, pivot);
            lemma_low(n0, so, a);
            if path.len() > 0 {
                assert(route(path).contains(path.last().id as int));
                lemma_label(path.last().other);
                assert(members(path.last().other).subset_of(route(path)));
            }
            lemma_route_in_arena(n0, path, a);
        }
        let f: usize = self.nodes[pivot].child1;
        let g: usize = self.nodes[pivot].child2;
        let pp: usize = self.nodes[a].parent;
        self.nodes[pivot].child1 = a;
        self.nodes[pivot].parent = pp;
        self.nodes[a].parent = pivot;
        proof {
            lemma_strung_same(n0, self.nodes@, path, a);
        }
        self.hang(pp, a, pivot, Ghost(path));
        let f_taller: bool = self.nodes[f].height > self.nodes[g].height;
        let keep: usize = if f_taller {
            f
        } else {
            g
        };
        let give: usize = if f_taller {
            g
        } else {
            f
        };
        self.nodes[pivot].child2 = keep;
        if pivot_is_child2 {
            self.nodes[a].child2 = give;
        } else {
            self.nodes[a].child1 = give;
        }
        self.nodes[give].parent = a;
        let low: Aabb = self.nodes[other].aabb.union(&self.nodes[give].aabb);
        let high: Aabb = low.union(&self.nodes[keep].aabb);
        let low_height: i32 = 1 + taller(self.nodes[other].height, self.nodes[give].height);
        let high_height: i32 = 1 + taller(low_height, self.nodes[keep].height);
        self.nodes[a].aabb = low;
        self.nodes[pivot].aabb = high;
        self.nodes[a].height = low_height;
        self.nodes[pivot].height = high_height;
        proof {
            let n = self.nodes@;
            let sk = if tall(sf) > tall(sg) {
                sf
            } else {
                sg
            };
            let sv = if tall(sf) > tall(sg) {
                sg
            } else {
                sf
            };
            let s2 = rotated(s, pivot_is_child2);
            assert forall|k: int| #[trigger] members(so).contains(k) implies n[k] == n0[k] by {
                assert(members(s).contains(k));
            }
            assert forall|k: int| #[trigger] members(sk).contains(k) implies n[k] == n0[k] by {
                assert(members(sp).contains(k));
                assert(members(s).contains(k));
            }
            assert forall|k: int| #[trigger] members(sv).contains(k) && k != label(sv) implies n[k]
                == n0[k] by {
                assert(members(sp).contains(k));
                assert(members(s).contains(k));
            }
            lemma_same(n0, n, so, a);
            lemma_same(n0, n, sk, pivot);
            lemma_same_below(n0, n, sv, pivot, a);
            assert forall|k: int| #[trigger] route(path).contains(k) implies n[k] == rehung(
                n0,
                path,
                pivot,
            )[k] by {
                assert(!members(s).contains(k));
            }
            lemma_rehung(n0, n, path, a, pivot);
            let low_shape = child_of(s2, true);
            assert(members(low_shape) =~= members(so).union(members(sv)).insert(a as int));
            assert(members(s2) =~= members(low_shape).union(members(sk)).insert(pivot as int));
            assert(members(s2) =~= members(s));
            assert(leaves(sp) == leaves(sf).union(leaves(sg)));
            assert(leaves(s) =~= leaves(so).union(leaves(sp)));
            assert(leaves(low_shape) =~= leaves(so).union(leaves(sv)));
            assert(leaves(s2) =~= leaves(s));
            assert(rooted(n, low_shape, pivot));
            assert(apart(low_shape));
            assert(fitted(n, low_shape));
            lemma_laden(n0, s, above(path));
            lemma_fringe_laden(n0, path, a);
            lemma_fringe_on_route(path);
            lemma_leaves_are_members(s);
            assert forall|p: usize| #[trigger] crown(path, s).contains(p) implies entry_of(
                n[p as int],
            ) == entry_of(n0[p as int]) by {
                assert(n0[p as int].payload is Some);
                assert(p != a && p != pivot);
                assert(0 <= p < n0.len());
            }
        }
        pivot
    }

    /// Rotates a fork whose children differ in height by more than one. The result is the node that
    /// stands in its place.
    fn balance(&mut self, a: usize, Ghost(path): Ghost<Seq<Turn>>, Ghost(s): Ghost<Shape>) -> (r:
        usize)
        requires
            open_at(old(self).nodes@, path, s),
            ripe(old(self).nodes@, s),
            trim(old(self).nodes@, path),
            a == label(s),
            old(self).root == crest(path, s),
            old(self).nodes@.len() <= MAX_NODES,
        ensures
            ({
                let s2 = poised(s, old(self).nodes@[a as int].height as int);
                &&& open_at(final(self).nodes@, path, s2)
                &&& ripe(final(self).nodes@, s2)
                &&& members(s2) == members(s)
                &&& leaves(s2) == leaves(s)
                &&& final(self).root == crest(path, s2)
                &&& r == label(s2)
            }),
            trim(final(self).nodes@, path),
            kept(old(self).nodes@, final(self).nodes@, crown(path, s)),
            level(old(self).nodes@, final(self).nodes@, route(path)),
            final(self).only_nodes_of(old(self)),
            forall|k: int|
                0 <= k < old(self).nodes@.len() && !extent(path, s).contains(k)
                    ==> #[trigger] final(self).nodes@[k] == old(self).nodes@[k],
    {
        let ghost n0 = self.nodes@;
        let ghost one = child_of(s, true);
        let ghost two = child_of(s, false);
        proof {
            lemma_height(n0, one, a);
            lemma_height(n0, two, a);
            lemma_low(n0, one, a);
            lemma_low(n0, two, a);
        }
        if self.nodes[a].height < 2 {
            return a;
        }
        let b: usize = self.nodes[a].child1;
        let c: usize = self.nodes[a].child2;
        let lean: i32 = self.nodes[c].height - self.nodes[b].height;
        if lean > 1 {
            self.rotate(a, c, b, true, Ghost(path), Ghost(s))
        } else if lean < -1 {
            self.rotate(a, b, c, false, Ghost(path), Ghost(s))
        } else {
            a
        }
    }
}

impl<T> DynamicAabbTree<T> {
    /// Balances and refits a fork.
    fn refit(&mut self, a: usize, Ghost(path): Ghost<Seq<Turn>>, Ghost(s): Ghost<Shape>) -> (r:
        usize)
        requires
            open_at(old(self).nodes@, path, s),
            ripe(old(self).nodes@, s),
            trim(old(self).nodes@, path),
            a == label(s),
            old(self).root == crest(path, s),
            old(self).nodes@.len() <= MAX_NODES,
        ensures
            ({
                let s2 = poised(s, old(self).nodes@[a as int].height as int);
                &&& open_at(final(self).nodes@, path, s2)
                &&& fitted(final(self).nodes@, s2)
                &&& members(s2) == members(s)
                &&& leaves(s2) == leaves(s)
                &&& final(self).root == crest(path, s2)
                &&& r == label(s2)
            }),
            trim(final(self).nodes@, path),
            kept(old(self).nodes@, final(self).nodes@, crown(path, s)),
            level(old(self).nodes@, final(self).nodes@, route(path)),
            final(self).only_nodes_of(old(self)),
            forall|k: int|
                0 <= k < old(self).nodes@.len() && !extent(path, s).contains(k)
                    ==> #[trigger] final(self).nodes@[k] == old(self).nodes@[k],
    {
        let ghost n1 = self.nodes@;
        proof {
            lemma_in_arena(n1, s, above(path));
            lemma_label(s);
        }
        let ghost s2 = poised(s, n1[a as int].height as int);
        let i: usize = self.balance(a, Ghost(path), Ghost(s));
        let ghost n2 = self.nodes@;
        let ghost one = child_of(s2, true);
        let ghost two = child_of(s2, false);
        proof {
            lemma_in_arena(n2, s2, above(path));
            lemma_label(s2);
            lemma_label(one);
            lemma_label(two);
            lemma_height(n2, one, i);
            lemma_height(n2, two, i);
            lemma_low(n2, one, i);
            lemma_low(n2, two, i);
        }
        let c1: usize = self.nodes[i].child1;
        let c2: usize = self.nodes[i].child2;
        let height: i32 = 1 + taller(self.nodes[c1].height, self.nodes[c2].height);
        let aabb: Aabb = self.nodes[c1].aabb.union(&self.nodes[c2].aabb);
        self.nodes[i].height = height;
        self.nodes[i].aabb = aabb;
        proof {
            let n3 = self.nodes@;
            assert(!members(one).contains(i as int) && !members(two).contains(i as int));
            lemma_in_arena(n2, one, i);
            lemma_in_arena(n2, two, i);
            assert forall|k: int| 0 <= k < n2.len() && k != i implies #[trigger] n3[k] == n2[k] by {}
            lemma_same(n2, n3, one, i);
            lemma_same(n2, n3, two, i);
            lemma_route_in_arena(n2, path, i);
            lemma_fringe_on_route(path);
            lemma_leaves_are_members(s2);
            assert forall|k: int| #[trigger] route(path).contains(k) implies n3[k] == n2[k] by {
                assert(k != i);
            }
            lemma_strung_same(n2, n3, path, i);
            assert(rooted(n3, s2, above(path)));
            assert(fitted(n3, s2));
            lemma_laden(n2, s2, above(path));
            lemma_fringe_laden(n2, path, i);
            assert forall|p: usize| #[trigger] crown(path, s).contains(p) implies entry_of(
                n3[p as int],
            ) == entry_of(n1[p as int]) by {
                assert(n2[p as int].payload is Some);
                assert(entry_of(n2[p as int]) == entry_of(n1[p as int]));
            }
            assert(members(s).contains(i as int));
        }
        i
    }

    /// Walks up from a fork, balancing and refitting.
    #[verifier::rlimit(60)]
    fn refit_from(&mut self, start: usize, Ghost(from): Ghost<Seq<Turn>>, Ghost(at): Ghost<Shape>)
        requires
            open_at(old(self).nodes@, from, at),
            ripe(old(self).nodes@, at),
            trim(old(self).nodes@, from),
            start == label(at),
            old(self).root == crest(from, at),
            sound(old(self).nodes@, old(self).free, old(self).spare@, extent(from, at)),
        ensures
            final(self).tidy(),
            leaves_of(final(self).shape@) == crown(from, at),
            members_of(final(self).shape@) == extent(from, at),
            kept(old(self).nodes@, final(self).nodes@, crown(from, at)),
            final(self).nodes@.len() == old(self).nodes@.len(),
            final(self).count == old(self).count,
            final(self).fat_margin == old(self).fat_margin,
            final(self).spare == old(self).spare,
            final(self).shape@ == Some(
                climbed(
                    old(self).nodes@,
                    from,
                    poised(at, old(self).nodes@[start as int].height as int),
                ),
            ),
            forall|k: int|
                0 <= k < old(self).nodes@.len() && !extent(from, at).contains(k)
                    ==> #[trigger] final(self).nodes@[k] == old(self).nodes@[k],
    {
        let ghost n0 = self.nodes@;
        let ghost goal = climbed(n0, from, poised(at, n0[start as int].height as int));
        let ghost mut path = from;
        let ghost mut s = at;
        let mut i: usize = start;
        proof {
            lemma_in_arena(n0, at, above(from));
            lemma_label(at);
        }
        while i != NIL
            invariant
                n0 == old(self).nodes@,
                self.only_nodes_of(old(self)),
                open_at(self.nodes@, path, s),
                trim(self.nodes@, path),
                self.root == crest(path, s),
                sound(self.nodes@, self.free, self.spare@, extent(from, at)),
                extent(path, s) == extent(from, at),
                crown(path, s) == crown(from, at),
                kept(n0, self.nodes@, crown(from, at)),
                i != NIL ==> i == label(s) && ripe(self.nodes@, s),
                i == NIL ==> path.len() == 0 && fitted(self.nodes@, s),
                level(n0, self.nodes@, route(path)),
                i != NIL ==> goal == climbed(
                    n0,
                    path,
                    poised(s, self.nodes@[i as int].height as int),
                ),
                i == NIL ==> s == goal,
                forall|k: int|
                    0 <= k < n0.len() && !extent(from, at).contains(k)
                        ==> #[trigger] self.nodes@[k] == n0[k],
            decreases
                    if i == NIL {
                        0
                    } else {
                        path.len() + 1
                    },
        {
            let ghost n1 = self.nodes@;
            let ghost recorded = n1[i as int].height as int;
            i = self.refit(i, Ghost(path), Ghost(s));
            proof {
                let s2 = poised(s, recorded);
                assert(goal == climbed(n0, path, s2));
                assert forall|k: int| #[trigger] route(path).contains(k) implies self.nodes@[k].height
                    == n0[k].height by {
                    assert(n1[k].height == n0[k].height);
                }
                assert(extent(path, s2) == extent(path, s));
                assert(crown(path, s2) == crown(path, s));
                s = s2;
                assert forall|p: usize| #[trigger] crown(from, at).contains(p) implies entry_of(
                    self.nodes@[p as int],
                ) == entry_of(n0[p as int]) by {
                    assert(entry_of(n1[p as int]) == entry_of(n0[p as int]));
                }
                self.lemma_still_sound(n1, extent(from, at));
                lemma_in_arena(self.nodes@, s, above(path));
                lemma_label(s);
            }
            i = self.nodes[i].parent;
            proof {
                if path.len() > 0 {
                    lemma_ascend(self.nodes@, path, s);
                    let t = path.last();
                    lemma_route_in_arena(self.nodes@, path, label(s));
                    assert(route(path).contains(t.id as int));
                    assert(route(path.drop_last()).subset_of(route(path)));
                    assert(self.nodes@[t.id as int].height == n0[t.id as int].height);
                    s = joined(t, s);
                    path = path.drop_last();
                }
            }
        }
        proof {
            lemma_at_the_top(self.nodes@, path, s);
            self.shape@ = Some(s);
        }
    }

    /// Changes to nodes in use leave the free slots as they are.
    proof fn lemma_still_sound(&self, before: Seq<DynNode<T>>, busy: Set<int>)
        requires
            sound(before, self.free, self.spare@, busy),
            self.nodes@.len() == before.len(),
            forall|k: int|
                0 <= k < before.len() && !busy.contains(k) ==> #[trigger] self.nodes@[k]
                    == before[k],
        ensures
            sound(self.nodes@, self.free, self.spare@, busy),
    {
        let spare = self.spare@;
        lemma_spare_in_arena(before, self.free, spare);
        assert forall|i: int| 0 <= i < spare.len() implies self.nodes@[(#[trigger] spare[i]) as int]
            == before[spare[i] as int] by {
            assert(!busy.contains(spare[i] as int));
        }
        lemma_chained_same(before, self.nodes@, self.free, spare);
    }
}

/// The length of a box's edges.
pub open spec fn around(b: Aabb) -> int {
    2 * ((b.max_x - b.min_x) + (b.max_y - b.min_y))
}

/// The box around the leaves of a shape.
pub open spec fn span<T>(m: Map<usize, Entry<T>>, s: Shape) -> Aabb
    decreases s,
{
    match s {
        Shape::Leaf { id } => m[id].fat,
        Shape::Fork { id, one, two } => hull(span(m, *one), span(m, *two)),
    }
}

/// What it costs to go down into a node: how much its box grows, or for a leaf the box of the pair.
pub open spec fn going_down<T>(m: Map<usize, Entry<T>>, s: Shape, b: Aabb) -> int {
    let both = around(hull(span(m, s), b));
    if s is Leaf {
        both
    } else {
        both - around(span(m, s))
    }
}

/// What it costs to pair a new leaf with a node: a fork around both.
pub open spec fn pairing<T>(m: Map<usize, Entry<T>>, s: Shape, b: Aabb) -> int {
    2 * around(hull(span(m, s), b))
}

/// What it costs to pass through a fork on the way down: how much its box grows.
pub open spec fn passing<T>(m: Map<usize, Entry<T>>, s: Shape, b: Aabb) -> int {
    2 * (around(hull(span(m, s), b)) - around(span(m, s)))
}

/// A new leaf is paired with this node: it is a leaf itself, or to pair with it costs less than to go down
/// into either of its children.
pub open spec fn stops_at<T>(m: Map<usize, Entry<T>>, s: Shape, b: Aabb) -> bool {
    s is Leaf || {
        &&& pairing(m, s, b) < going_down(m, child_of(s, true), b) + passing(m, s, b)
        &&& pairing(m, s, b) < going_down(m, child_of(s, false), b) + passing(m, s, b)
    }
}

/// A fork of a node and a new leaf.
pub open spec fn paired(s: Shape, leaf: usize, id: usize) -> Shape {
    Shape::Fork { id, one: Box::new(s), two: Box::new(Shape::Leaf { id: leaf }) }
}

/// The shape with a new leaf, whose box is `b`. The leaf goes down into the child that costs less, the
/// second where both cost the same, until it is paired with a node under the new fork `id`. The forks above
/// are balanced on the way back.
pub open spec fn inserted<T>(
    m: Map<usize, Entry<T>>,
    s: Shape,
    leaf: usize,
    id: usize,
    b: Aabb,
) -> Shape
    decreases s,
{
    match s {
        Shape::Leaf { id: own } => poised(paired(s, leaf, id), 1),
        Shape::Fork { id: own, one, two } => if stops_at(m, s, b) {
            poised(paired(s, leaf, id), 1 + tall(s))
        } else if going_down(m, *one, b) < going_down(m, *two, b) {
            poised(
                Shape::Fork { id: own, one: Box::new(inserted(m, *one, leaf, id, b)), two },
                tall(s),
            )
        } else {
            poised(
                Shape::Fork { id: own, one, two: Box::new(inserted(m, *two, leaf, id, b)) },
                tall(s),
            )
        },
    }
}

proof fn lemma_child_leaves(s: Shape)
    requires
        s is Fork,
    ensures
        forall|p: usize| #[trigger]
            leaves(child_of(s, true)).contains(p) ==> leaves(s).contains(p),
        forall|p: usize| #[trigger]
            leaves(child_of(s, false)).contains(p) ==> leaves(s).contains(p),
{
    assert(leaves(s) == leaves(child_of(s, true)).union(leaves(child_of(s, false))));
}

/// The boxes of the forks are those around their leaves.
proof fn lemma_span<T>(nodes: Seq<DynNode<T>>, m: Map<usize, Entry<T>>, s: Shape, parent: usize)
    requires
        rooted(nodes, s, parent),
        fitted(nodes, s),
        forall|p: usize| #[trigger] leaves(s).contains(p) ==> m[p].fat == nodes[p as int].aabb,
    ensures
        nodes[label(s) as int].aabb == span(m, s),
    decreases s,
{
    match s {
        Shape::Leaf { id } => {
            assert(leaves(s).contains(id));
        },
        Shape::Fork { id, one, two } => {
            lemma_child_leaves(s);
            lemma_span(nodes, m, *one, id);
            lemma_span(nodes, m, *two, id);
        },
    }
}

/// Where a leaf goes depends on the boxes of the leaves alone.
proof fn lemma_span_same<T>(m: Map<usize, Entry<T>>, k: Map<usize, Entry<T>>, s: Shape)
    requires
        forall|p: usize| #[trigger] leaves(s).contains(p) ==> m[p].fat == k[p].fat,
    ensures
        span(m, s) == span(k, s),
    decreases s,
{
    match s {
        Shape::Leaf { id } => {
            assert(leaves(s).contains(id));
        },
        Shape::Fork { id, one, two } => {
            lemma_child_leaves(s);
            lemma_span_same(m, k, *one);
            lemma_span_same(m, k, *two);
        },
    }
}

proof fn lemma_inserted_same<T>(
    m: Map<usize, Entry<T>>,
    k: Map<usize, Entry<T>>,
    s: Shape,
    leaf: usize,
    id: usize,
    b: Aabb,
)
    requires
        forall|p: usize| #[trigger] leaves(s).contains(p) ==> m[p].fat == k[p].fat,
    ensures
        inserted(m, s, leaf, id, b) == inserted(k, s, leaf, id, b),
    decreases s,
{
    match s {
        Shape::Leaf { id: own } => {},
        Shape::Fork { id: own, one, two } => {
            lemma_child_leaves(s);
            lemma_span_same(m, k, s);
            lemma_span_same(m, k, *one);
            lemma_span_same(m, k, *two);
            lemma_inserted_same(m, k, *one, leaf, id, b);
            lemma_inserted_same(m, k, *two, leaf, id, b);
        },
    }
}

impl<T> DynamicAabbTree<T> {
    /// What it costs to go down into a child, which has the shape `s`.
    fn descend_cost(&self, child: usize, b: &Aabb, Ghost(s): Ghost<Shape>) -> (c: i64)
        requires
            child < self.nodes@.len(),
            child == label(s),
            self.nodes@[child as int].payload is Some <==> s is Leaf,
            self.nodes@[child as int].aabb == span(self@, s),
        ensures
            c == going_down(self@, s, *b),
            -0x8_0000_0000 <= c <= 0x8_0000_0000,
    {
        let combined: i64 = self.nodes[child].aabb.union(b).perimeter();
        if self.nodes[child].payload.is_some() {
            combined
        } else {
            combined - self.nodes[child].aabb.perimeter()
        }
    }

    /// The node to pair a new leaf with, and how it hangs in the tree. Filing the leaf there is filing it
    /// in the tree.
    fn best_sibling(&self, b: &Aabb) -> (r: (usize, Ghost<Seq<Turn>>, Ghost<Shape>))
        requires
            self.tidy(),
            self.shape@ is Some,
        ensures
            r.0 == label(r.2@),
            open_at(self.nodes@, r.1@, r.2@),
            trim(self.nodes@, r.1@),
            fitted(self.nodes@, r.2@),
            extent(r.1@, r.2@) == members_of(self.shape@),
            crown(r.1@, r.2@) == leaves_of(self.shape@),
            crest(r.1@, r.2@) == self.root,
            stops_at(self@, r.2@, *b),
            forall|leaf: usize, id: usize|
                #![trigger inserted(self@, self.shape@->0, leaf, id, *b)]
                inserted(self@, self.shape@->0, leaf, id, *b) == climbed(
                    self.nodes@,
                    r.1@,
                    poised(paired(r.2@, leaf, id), 1 + tall(r.2@)),
                ),
    {
        let ghost m = self@;
        let ghost whole = self.shape@->0;
        let ghost mut path: Seq<Turn> = Seq::empty();
        let ghost mut s = whole;
        let mut index: usize = self.root;
        proof {
            assert(route(path) =~= Set::empty());
            lemma_at_the_top(self.nodes@, path, s);
        }
        while self.nodes[index].payload.is_none()
            invariant_except_break
                forall|leaf: usize, id: usize|
                    #![trigger inserted(m, whole, leaf, id, *b)]
                    inserted(m, whole, leaf, id, *b) == climbed(
                        self.nodes@,
                        path,
                        inserted(m, s, leaf, id, *b),
                    ),
            invariant
                self.nodes@.len() <= MAX_NODES,
                m == self@,
                self.shape@ == Some(whole),
                index == label(s),
                index < self.nodes@.len(),
                open_at(self.nodes@, path, s),
                trim(self.nodes@, path),
                fitted(self.nodes@, s),
                extent(path, s) == members_of(self.shape@),
                crown(path, s) == leaves_of(self.shape@),
                crest(path, s) == self.root,
            ensures
                stops_at(m, s, *b),
                forall|leaf: usize, id: usize|
                    #![trigger inserted(m, whole, leaf, id, *b)]
                    inserted(m, whole, leaf, id, *b) == climbed(
                        self.nodes@,
                        path,
                        poised(paired(s, leaf, id), 1 + tall(s)),
                    ),
            decreases s,
        {
            let ghost one = child_of(s, true);
            let ghost two = child_of(s, false);
            proof {
                assert(s is Fork);
                lemma_height(self.nodes@, s, above(path));
                lemma_height(self.nodes@, one, index);
                lemma_height(self.nodes@, two, index);
                lemma_child_leaves(s);
                assert(rooted(self.nodes@, one, index) && rooted(self.nodes@, two, index));
                assert forall|p: usize| #[trigger] leaves(s).contains(p) implies m[p].fat
                    == self.nodes@[p as int].aabb by {
                    assert(crown(path, s).contains(p));
                }
                lemma_span(self.nodes@, m, s, above(path));
                lemma_span(self.nodes@, m, one, index);
                lemma_span(self.nodes@, m, two, index);
            }
            let c1: usize = self.nodes[index].child1;
            let c2: usize = self.nodes[index].child2;
            let area: i64 = self.nodes[index].aabb.perimeter();
            let combined: i64 = self.nodes[index].aabb.union(b).perimeter();
            let cost: i64 = 2 * combined;
            let inherit: i64 = 2 * (combined - area);
            let cost1: i64 = self.descend_cost(c1, b, Ghost(one)) + inherit;
            let cost2: i64 = self.descend_cost(c2, b, Ghost(two)) + inherit;
            if cost < cost1 && cost < cost2 {
                break;
            }
            let first: bool = cost1 < cost2;
            index = if first {
                c1
            } else {
                c2
            };
            proof {
                let t = turn_of(s, first);
                lemma_descend(self.nodes@, path, s, first);
                assert(path.push(t).drop_last() =~= path);
                assert forall|leaf: usize, id: usize|
                    #![trigger inserted(m, whole, leaf, id, *b)]
                    inserted(m, whole, leaf, id, *b) == climbed(
                        self.nodes@,
                        path.push(t),
                        inserted(m, child_of(s, first), leaf, id, *b),
                    ) by {
                    assert(inserted(m, s, leaf, id, *b) == poised(
                        joined(t, inserted(m, child_of(s, first), leaf, id, *b)),
                        tall(s),
                    ));
                }
                path = path.push(t);
                s = child_of(s, first);
            }
        }
        (index, Ghost(path), Ghost(s))
    }

    /// Puts a new fork in the place of a node, above the node and a leaf that hangs nowhere yet.
    #[verifier::rlimit(60)]
    fn pair(
        &mut self,
        sibling: usize,
        leaf: usize,
        Ghost(path): Ghost<Seq<Turn>>,
        Ghost(s): Ghost<Shape>,
    ) -> (new_parent: usize)
        requires
            open_at(old(self).nodes@, path, s),
            trim(old(self).nodes@, path),
            fitted(old(self).nodes@, s),
            sibling == label(s),
            crest(path, s) == old(self).root,
            sound(old(self).nodes@, old(self).free, old(self).spare@, extent(path, s)),
            leaf < old(self).nodes@.len(),
            !extent(path, s).contains(leaf as int),
            !old(self).spare@.contains(leaf),
            old(self).nodes@[leaf as int].payload is Some,
            old(self).nodes@[leaf as int].height == 0,
            old(self).spare@.len() == 0 ==> old(self).nodes@.len() < MAX_NODES,
        ensures
            ({
                let s2 = paired(s, leaf, new_parent);
                &&& new_parent == label(s2)
                &&& open_at(final(self).nodes@, path, s2)
                &&& ripe(final(self).nodes@, s2)
                &&& crest(path, s2) == final(self).root
                &&& sound(
                    final(self).nodes@,
                    final(self).free,
                    final(self).spare@,
                    extent(path, s2),
                )
                &&& leaves(s2) == leaves(s).insert(leaf)
                &&& kept(old(self).nodes@, final(self).nodes@, crown(path, s2))
            }),
            new_parent == old(self).slot(0),
            final(self).spare@ == old(self).spare_after(1),
            final(self).nodes@.len() == old(self).nodes@.len() + (if old(self).spare@.len() > 0 {
                0nat
            } else {
                1nat
            }),
            final(self).nodes@[new_parent as int].height == 1 + tall(s),
            level(old(self).nodes@, final(self).nodes@, route(path)),
            trim(final(self).nodes@, path),
            final(self).count == old(self).count,
            final(self).fat_margin == old(self).fat_margin,
            final(self).shape == old(self).shape,
    {
        let ghost n0 = self.nodes@;
        let ghost busy = extent(path, s);
        let ghost spare0 = self.spare@;
        let leaf_aabb: Aabb = self.nodes[leaf].aabb;
        proof {
            lemma_height(n0, s, above(path));
            lemma_low(n0, s, above(path));
            lemma_label(s);
            lemma_in_arena(n0, s, above(path));
            lemma_route_in_arena(n0, path, sibling);
            assert(route(path).subset_of(busy));
            assert(members(s).subset_of(busy));
            if path.len() > 0 {
                lemma_label(path.last().other);
                assert(route(path).contains(path.last().id as int));
                assert(members(path.last().other).subset_of(route(path)));
            }
            if spare0.len() > 0 {
                assert(spare0.contains(spare0.last()));
                assert(!busy.contains(spare0[spare0.len() - 1] as int));
            }
        }
        let old_parent: usize = self.nodes[sibling].parent;
        let height: i32 = self.nodes[sibling].height;
        let new_parent: usize = self.take_slot(self.nodes[sibling].aabb.union(&leaf_aabb), None);
        let ghost taken = self.nodes@;
        self.nodes[new_parent].parent = old_parent;
        self.nodes[new_parent].child1 = sibling;
        self.nodes[new_parent].child2 = leaf;
        self.nodes[new_parent].height = height + 1;
        self.nodes[sibling].parent = new_parent;
        self.nodes[leaf].parent = new_parent;
        let ghost n1 = self.nodes@;
        proof {
            assert forall|k: int|
                0 <= k < n0.len() && k != new_parent && k != sibling && k
                    != leaf implies #[trigger] n1[k] == n0[k] by {}
            lemma_strung_same(n0, n1, path, sibling);
        }
        self.hang(old_parent, sibling, new_parent, Ghost(path));
        let ghost n2 = self.nodes@;
        let ghost twig = Shape::Leaf { id: leaf };
        let ghost s2 = paired(s, leaf, new_parent);
        proof {
            assert forall|k: int|
                0 <= k < n0.len() && k != new_parent && k != sibling && k != leaf && !route(
                    path,
                ).contains(k) implies #[trigger] n2[k] == n0[k] by {}
            lemma_same_below(n0, n2, s, above(path), new_parent);
            assert forall|k: int| #[trigger] route(path).contains(k) implies n2[k] == rehung(
                n0,
                path,
                new_parent,
            )[k] by {
                assert(!members(s).contains(k));
            }
            lemma_rehung(n0, n2, path, sibling, new_parent);
            assert(members(twig) =~= Set::empty().insert(leaf as int));
            assert(leaves(twig) =~= Set::empty().insert(leaf));
            assert(members(s2) =~= members(s).union(members(twig)).insert(new_parent as int));
            assert(leaves(s2) =~= leaves(s).insert(leaf));
            assert(extent(path, s2) =~= busy.insert(leaf as int).insert(new_parent as int));
            assert(crown(path, s2) =~= crown(path, s).insert(leaf));
            assert(rooted(n2, twig, new_parent));
            assert(rooted(n2, s2, above(path)));
            assert(!members(s).contains(new_parent as int));
            assert(members(s).disjoint(members(twig)));
            assert(apart(twig));
            assert(apart(s2));
            assert(members(s2).disjoint(route(path)));
            assert(ripe(n2, s2));
            lemma_leaves_are_members(s);
            lemma_fringe_on_route(path);
            assert forall|p: usize| #[trigger] crown(path, s2).contains(p) implies entry_of(
                n2[p as int],
            ) == entry_of(n0[p as int]) by {
                assert(p == leaf || busy.contains(p as int));
            }
            let wide = extent(path, s2);
            assert forall|i: int| 0 <= i < self.spare@.len() implies !wide.contains(
                (#[trigger] self.spare@[i]) as int,
            ) by {
                assert(self.spare@[i] == spare0[i]);
                assert(spare0.contains(spare0[i]));
                assert(!busy.contains(spare0[i] as int));
            }
            self.lemma_still_sound(taken, wide);
        }
        proof {
            if spare0.len() > 0 {
                assert(self.spare@ =~= old(self).spare_after(1));
            } else {
                assert(self.spare@ =~= Seq::empty());
            }
        }
        new_parent
    }

    /// Files the first leaf.
    fn plant(&mut self, leaf: usize)
        requires
            old(self).tidy(),
            old(self).root == NIL,
            leaf < old(self).nodes@.len(),
            !old(self).spare@.contains(leaf),
            old(self).nodes@[leaf as int].payload is Some,
            old(self).nodes@[leaf as int].height == 0,
        ensures
            final(self).tidy(),
            old(self).shape@ is None,
            final(self).shape@ == Some(Shape::Leaf { id: leaf }),
            leaves_of(final(self).shape@) == leaves_of(old(self).shape@).insert(leaf),
            kept(old(self).nodes@, final(self).nodes@, leaves_of(final(self).shape@)),
            final(self).count == old(self).count,
            final(self).fat_margin == old(self).fat_margin,
            final(self).spare == old(self).spare,
            final(self).nodes@.len() == old(self).nodes@.len(),
    {
        let ghost n0 = self.nodes@;
        proof {
            if self.shape@ is Some {
                lemma_height(self.nodes@, self.shape@->0, NIL);
            }
        }
        self.root = leaf;
        self.nodes[leaf].parent = NIL;
        proof {
            let s = Shape::Leaf { id: leaf };
            self.shape@ = Some(s);
            assert(leaves(s) =~= Set::empty().insert(leaf));
            assert(members(s) =~= Set::empty().insert(leaf as int));
            self.lemma_leaf_apart(n0, leaf);
        }
    }

    /// Files a leaf that hangs nowhere yet.
    fn insert_leaf(&mut self, leaf: usize)
        requires
            old(self).tidy(),
            leaf < old(self).nodes@.len(),
            !members_of(old(self).shape@).contains(leaf as int),
            !old(self).spare@.contains(leaf),
            old(self).nodes@[leaf as int].payload is Some,
            old(self).nodes@[leaf as int].height == 0,
            old(self).shape@ is Some && old(self).spare@.len() == 0 ==> old(self).nodes@.len()
                < MAX_NODES,
        ensures
            final(self).tidy(),
            leaves_of(final(self).shape@) == leaves_of(old(self).shape@).insert(leaf),
            kept(old(self).nodes@, final(self).nodes@, leaves_of(final(self).shape@)),
            match old(self).shape@ {
                None => {
                    &&& final(self).shape@ == Some(Shape::Leaf { id: leaf })
                    &&& final(self).spare@ == old(self).spare@
                    &&& final(self).nodes@.len() == old(self).nodes@.len()
                },
                Some(s) => {
                    &&& final(self).shape@ == Some(
                        inserted(
                            old(self)@,
                            s,
                            leaf,
                            old(self).slot(0),
                            old(self).nodes@[leaf as int].aabb,
                        ),
                    )
                    &&& final(self).spare@ == old(self).spare_after(1)
                    &&& final(self).nodes@.len() == old(self).nodes@.len() + (if old(
                        self,
                    ).spare@.len() > 0 {
                        0nat
                    } else {
                        1nat
                    })
                },
            },
            final(self).count == old(self).count,
            final(self).fat_margin == old(self).fat_margin,
    {
        if self.root == NIL {
            self.plant(leaf);
            return ;
        }
        proof {
            assert(self.shape@ is Some);
        }
        let leaf_aabb: Aabb = self.nodes[leaf].aabb;
        let (sibling, Ghost(path), Ghost(s)) = self.best_sibling(&leaf_aabb);
        let ghost goal = inserted(self@, self.shape@->0, leaf, self.slot(0), leaf_aabb);
        let ghost n0 = self.nodes@;
        let new_parent: usize = self.pair(sibling, leaf, Ghost(path), Ghost(s));
        let ghost s2 = paired(s, leaf, new_parent);
        proof {
            lemma_climbed_same(n0, self.nodes@, path, poised(s2, 1 + tall(s)));
            assert(goal == climbed(self.nodes@, path, poised(s2, 1 + tall(s))));
            assert(crown(path, s2) =~= leaves_of(self.shape@).insert(leaf));
        }
        self.refit_from(new_parent, Ghost(path), Ghost(s2));
    }

    proof fn lemma_leaf_apart(&self, before: Seq<DynNode<T>>, leaf: usize)
        requires
            sound(before, self.free, self.spare@, Set::empty()),
            leaf < before.len(),
            !self.spare@.contains(leaf),
            self.nodes@ == before.update(
                leaf as int,
                DynNode { parent: NIL, ..before[leaf as int] },
            ),
        ensures
            sound(self.nodes@, self.free, self.spare@, Set::empty().insert(leaf as int)),
    {
        let busy: Set<int> = Set::empty().insert(leaf as int);
        let spare = self.spare@;
        assert forall|i: int| 0 <= i < spare.len() implies !busy.contains(
            (#[trigger] spare[i]) as int,
        ) by {
            assert(spare.contains(spare[i]));
        }
        self.lemma_still_sound(before, busy);
    }
}

impl<T> DynamicAabbTree<T> {
    /// Takes a leaf out of the tree. Its node stays as it is.
    #[verifier::rlimit(40)]
    fn remove_leaf(&mut self, leaf: usize)
        requires
            old(self).tidy(),
            leaves_of(old(self).shape@).contains(leaf),
        ensures
            final(self).tidy(),
            leaves_of(final(self).shape@) == leaves_of(old(self).shape@).remove(leaf),
            kept(old(self).nodes@, final(self).nodes@, leaves_of(old(self).shape@)),
            leaf < final(self).nodes@.len(),
            !members_of(final(self).shape@).contains(leaf as int),
            !final(self).spare@.contains(leaf),
            final(self).nodes@[leaf as int].payload is Some,
            final(self).nodes@[leaf as int].height == 0,
            match old(self).shape@->0 {
                Shape::Leaf { id } => {
                    &&& final(self).shape@ is None
                    &&& final(self).spare@ == old(self).spare@
                },
                Shape::Fork { id, one, two } => {
                    &&& final(self).shape@ == Some(removed(old(self).shape@->0, leaf))
                    &&& final(self).spare@ == old(self).spare@.push(
                        old(self).nodes@[leaf as int].parent,
                    )
                },
            },
            final(self).nodes@.len() == old(self).nodes@.len(),
            final(self).count == old(self).count,
            final(self).fat_margin == old(self).fat_margin,
    {
        let ghost n0 = self.nodes@;
        let ghost whole = self.shape@->0;
        let ghost busy = members(whole);
        let ghost spare0 = self.spare@;
        let ghost (path, s) = self.lemma_path_to(leaf);
        if leaf == self.root {
            self.root = NIL;
            proof {
                self.shape@ = None;
                assert forall|i: int| 0 <= i < spare0.len() implies spare0[i] != leaf by {
                    assert(!busy.contains(spare0[i] as int));
                }
            }
            return ;
        }
        let parent: usize = self.nodes[leaf].parent;
        let ghost t = path.last();
        let ghost up = path.drop_last();
        proof {
            lemma_route_in_arena(n0, path, leaf);
            lemma_label(t.other);
            assert(route(path).contains(t.id as int));
            assert(route(path) =~= route(up).union(members(t.other)).insert(t.id as int));
            assert(extent(path, s) =~= busy);
            lemma_in_arena(n0, t.other, t.id);
            lemma_route_in_arena(n0, up, t.id);
            if up.len() > 0 {
                lemma_label(up.last().other);
                assert(route(up).contains(up.last().id as int));
                assert(members(up.last().other).subset_of(route(up)));
            }
            assert forall|i: int| 0 <= i < spare0.len() implies spare0[i] != leaf && spare0[i]
                != parent by {
                assert(!busy.contains(spare0[i] as int));
            }
        }
        let grand: usize = self.nodes[parent].parent;
        let sibling: usize = if self.nodes[parent].child1 == leaf {
            self.nodes[parent].child2
        } else {
            self.nodes[parent].child1
        };
        self.hang(grand, parent, sibling, Ghost(up));
        self.nodes[sibling].parent = grand;
        proof {
            self.lemma_still_sound(n0, busy);
        }
        self.freenode(parent);
        let ghost n2 = self.nodes@;
        let ghost rest = extent(up, t.other);
        proof {
            assert forall|k: int| #[trigger] members(t.other).contains(k) && k != sibling implies n2[k]
                == n0[k] by {
                assert(!route(up).contains(k));
            }
            lemma_same_below(n0, n2, t.other, parent, grand);
            assert forall|k: int| #[trigger] route(up).contains(k) implies n2[k] == rehung(
                n0,
                up,
                sibling,
            )[k] by {
                assert(!members(t.other).contains(k));
            }
            lemma_rehung(n0, n2, up, parent, sibling);
            assert(open_at(n2, up, t.other));
            assert(crown(up, t.other) =~= leaves(whole).remove(leaf)) by {
                assert(fringe(path) == fringe(up).union(leaves(t.other)));
                assert(crown(path, s) =~= fringe(up).union(leaves(t.other)).insert(leaf));
                assert(members(s).contains(leaf as int));
                assert(!route(path).contains(leaf as int));
                lemma_fringe_on_route(up);
                lemma_leaves_are_members(t.other);
            }
            assert(busy =~= rest.insert(parent as int).insert(leaf as int));
            lemma_leaves_are_members(whole);
            lemma_laden(n0, whole, NIL);
            assert forall|p: usize| #[trigger] leaves(whole).contains(p) implies entry_of(
                n2[p as int],
            ) == entry_of(n0[p as int]) by {
                assert(busy.contains(p as int));
                assert(n0[p as int].payload is Some);
                assert(p != parent);
            }
            assert forall|i: int| 0 <= i < self.spare@.len() implies !rest.contains(
                (#[trigger] self.spare@[i]) as int,
            ) by {
                if i < spare0.len() {
                    assert(self.spare@[i] == spare0[i]);
                    assert(!busy.contains(spare0[i] as int));
                }
            }
        }
        if grand != NIL {
            let ghost above_path = up.drop_last();
            let ghost fork = joined(up.last(), t.other);
            proof {
                lemma_ascend(n2, up, t.other);
            }
            proof {
                assert forall|k: int| #[trigger] route(up).contains(k) implies n2[k].height
                    == n0[k].height by {
                    assert(!members(t.other).contains(k));
                }
                lemma_climbed_same(n0, n2, up, t.other);
            }
            self.refit_from(grand, Ghost(above_path), Ghost(fork));
        } else {
            proof {
                lemma_at_the_top(n2, up, t.other);
                self.shape@ = Some(t.other);
            }
        }
    }

    /// The path to a leaf.
    proof fn lemma_path_to(&self, leaf: usize) -> (r: (Seq<Turn>, Shape))
        requires
            self.tidy(),
            leaves_of(self.shape@).contains(leaf),
        ensures
            open_at(self.nodes@, r.0, r.1),
            trim(self.nodes@, r.0),
            r.1 == (Shape::Leaf { id: leaf }),
            leaf < self.nodes@.len(),
            self.nodes@[leaf as int].parent == above(r.0),
            self.nodes@[leaf as int].payload is Some,
            self.nodes@[leaf as int].height == 0,
            extent(r.0, r.1) == members(self.shape@->0),
            crown(r.0, r.1) == leaves(self.shape@->0),
            crest(r.0, r.1) == self.root,
            members(r.1) == Set::<int>::empty().insert(leaf as int),
            leaves(r.1) == Set::<usize>::empty().insert(leaf),
            r.0.len() == 0 <==> leaf == self.root,
            r.0.len() == 0 ==> leaves(self.shape@->0) == Set::<usize>::empty().insert(leaf),
            r.0.len() == 0 ==> self.shape@ == Some(Shape::Leaf { id: leaf }),
            r.0.len() > 0 ==> self.shape@->0 is Fork && removed(self.shape@->0, leaf) == climbed(
                self.nodes@,
                r.0.drop_last(),
                r.0.last().other,
            ),
    {
        let whole = self.shape@->0;
        let top: Seq<Turn> = Seq::empty();
        assert(route(top) =~= Set::empty());
        lemma_at_the_top(self.nodes@, top, whole);
        lemma_leaves_are_members(whole);
        let (path, s) = lemma_find(self.nodes@, top, whole, leaf);
        lemma_laden(self.nodes@, whole, NIL);
        assert(s == Shape::Leaf { id: leaf });
        if path.len() == 0 {
            lemma_at_the_top(self.nodes@, path, s);
        } else {
            assert(route(path).contains(path[0].id as int)) by {
                lemma_top_on_route(path);
            }
        }
        (path, s)
    }
}

proof fn lemma_top_on_route(path: Seq<Turn>)
    requires
        path.len() > 0,
    ensures
        route(path).contains(path[0].id as int),
    decreases path.len(),
{
    if path.len() > 1 {
        lemma_top_on_route(path.drop_last());
    }
}

/// The leaves that a walk finds which passes over every fork whose box misses the query.
spec fn sought<T>(nodes: Seq<DynNode<T>>, s: Shape, q: Aabb) -> Seq<usize>
    decreases s,
{
    if !overlaps(nodes[label(s) as int].aabb, q) {
        Seq::empty()
    } else {
        match s {
            Shape::Leaf { id } => seq![id],
            Shape::Fork { id, one, two } => sought(nodes, *two, q) + sought(nodes, *one, q),
        }
    }
}

/// What is left to find while the walk still has these branches to visit, the last one first.
spec fn pending<T>(nodes: Seq<DynNode<T>>, todo: Seq<Shape>, q: Aabb) -> Seq<usize>
    decreases todo.len(),
{
    if todo.len() == 0 {
        Seq::empty()
    } else {
        sought(nodes, todo.last(), q) + pending(nodes, todo.drop_last(), q)
    }
}

spec fn hangs<T>(nodes: Seq<DynNode<T>>, s: Shape) -> bool {
    rooted(nodes, s, nodes[label(s) as int].parent)
}

spec fn bulk(s: Shape) -> nat
    decreases s,
{
    match s {
        Shape::Leaf { id } => 1,
        Shape::Fork { id, one, two } => 1 + bulk(*one) + bulk(*two),
    }
}

spec fn load(todo: Seq<Shape>) -> nat
    decreases todo.len(),
{
    if todo.len() == 0 {
        0
    } else {
        bulk(todo.last()) + load(todo.drop_last())
    }
}

/// The box of a shape's top holds those of its leaves.
proof fn lemma_enclosed<T>(nodes: Seq<DynNode<T>>, s: Shape)
    requires
        fitted(nodes, s),
    ensures
        forall|p: usize| #[trigger]
            leaves(s).contains(p) ==> encloses(nodes[label(s) as int].aabb, nodes[p as int].aabb),
    decreases s,
{
    match s {
        Shape::Leaf { id } => {
            assert(leaves(s) == Set::empty().insert(id));
        },
        Shape::Fork { id, one, two } => {
            lemma_enclosed(nodes, *one);
            lemma_enclosed(nodes, *two);
            assert(leaves(s) == leaves(*one).union(leaves(*two)));
        },
    }
}

proof fn lemma_order(s: Shape)
    ensures
        forall|i: int| 0 <= i < order(s).len() ==> leaves(s).contains(#[trigger] order(s)[i]),
        forall|p: usize| #[trigger] leaves(s).contains(p) ==> order(s).contains(p),
    decreases s,
{
    match s {
        Shape::Leaf { id } => {
            assert(leaves(s) == Set::empty().insert(id));
            assert(order(s)[0] == id);
        },
        Shape::Fork { id, one, two } => {
            lemma_order(*one);
            lemma_order(*two);
            assert(leaves(s) == leaves(*one).union(leaves(*two)));
            assert(order(s) == order(*two) + order(*one));
            assert forall|p: usize| #[trigger] leaves(s).contains(p) implies order(s).contains(p) by {
                if leaves(*two).contains(p) {
                    let i = choose|i: int| 0 <= i < order(*two).len() && order(*two)[i] == p;
                    assert(order(s)[i] == p);
                } else {
                    let i = choose|i: int| 0 <= i < order(*one).len() && order(*one)[i] == p;
                    assert(order(s)[order(*two).len() + i] == p);
                }
            }
        },
    }
}

/// Passing over the forks that miss the query passes over no leaf that it strikes.
proof fn lemma_sought<T>(nodes: Seq<DynNode<T>>, s: Shape, q: Aabb, p: spec_fn(usize) -> bool)
    requires
        fitted(nodes, s),
        forall|k: usize| #[trigger]
            leaves(s).contains(k) ==> p(k) == overlaps(nodes[k as int].aabb, q),
    ensures
        sought(nodes, s, q) == order(s).filter(p),
    decreases s,
{
    reveal(Seq::filter);
    if !overlaps(nodes[label(s) as int].aabb, q) {
        lemma_enclosed(nodes, s);
        lemma_order(s);
        lemma_filter_none(order(s), p);
    } else {
        match s {
            Shape::Leaf { id } => {
                assert(leaves(s).contains(id));
                assert(Seq::<usize>::empty().push(id) =~= seq![id]);
                lemma_filter_push(Seq::empty(), id, p);
                assert(order(s).filter(p) =~= seq![id]);
            },
            Shape::Fork { id, one, two } => {
                assert(leaves(s) == leaves(*one).union(leaves(*two)));
                assert forall|k: usize|
                    leaves(*one).contains(k) || leaves(*two).contains(k) implies p(k) == overlaps(
                    nodes[k as int].aabb,
                    q,
                ) by {
                    assert(leaves(s).contains(k));
                }
                lemma_sought(nodes, *one, q, p);
                lemma_sought(nodes, *two, q, p);
                Seq::filter_distributes_over_add(order(*two), order(*one), p);
            },
        }
    }
}

/// How a tree is filed once a leaf with a box has come.
pub open spec fn has_gained<T>(
    before: DynamicAabbTree<T>,
    after: DynamicAabbTree<T>,
    leaf: usize,
    b: Aabb,
) -> bool {
    &&& leaf == before.slot(0)
    &&& match before.shape@ {
        None => {
            &&& after.shape@ == Some(Shape::Leaf { id: leaf })
            &&& after.spare@ == before.spare_after(1)
            &&& after.nodes@.len() == before.slots_after(1)
        },
        Some(s) => {
            &&& after.shape@ == Some(inserted(before@, s, leaf, before.slot(1), b))
            &&& after.spare@ == before.spare_after(2)
            &&& after.nodes@.len() == before.slots_after(2)
        },
    }
}

/// How a tree is filed once a leaf is gone. Its slot and that of the fork above it wait to be used again.
pub open spec fn has_lost<T>(
    before: DynamicAabbTree<T>,
    after: DynamicAabbTree<T>,
    leaf: usize,
) -> bool {
    &&& after.nodes@.len() == before.nodes@.len()
    &&& match before.shape@->0 {
        Shape::Leaf { id } => {
            &&& after.shape@ is None
            &&& after.spare@ == before.spare@.push(leaf)
        },
        Shape::Fork { id, one, two } => {
            &&& after.shape@ == Some(removed(before.shape@->0, leaf))
            &&& after.spare@ == before.spare@.push(before.nodes@[leaf as int].parent).push(leaf)
        },
    }
}

/// How a tree is filed once a leaf is filed anew with another box: as if it had gone and come again.
pub open spec fn has_moved<T>(
    before: DynamicAabbTree<T>,
    after: DynamicAabbTree<T>,
    leaf: usize,
    b: Aabb,
) -> bool {
    &&& after.nodes@.len() == before.nodes@.len()
    &&& after.spare@ == before.spare@
    &&& after.shape@ == Some(
        match before.shape@->0 {
            Shape::Leaf { id } => Shape::Leaf { id: leaf },
            Shape::Fork { id, one, two } => inserted(
                before@,
                removed(before.shape@->0, leaf),
                leaf,
                before.nodes@[leaf as int].parent,
                b,
            ),
        },
    )
}

impl<T> DynamicAabbTree<T> {
    pub fn new(fat_margin: i32) -> (t: Self)
        ensures
            t.wf(),
            t@ == Map::<usize, Entry<T>>::empty(),
            t.fat_margin == fat_margin,
            t.is_new(),
            t.has_room(),
    {
        let t = DynamicAabbTree {
            nodes: Vec::new(),
            root: NIL,
            free: NIL,
            count: 0,
            fat_margin,
            shape: Ghost(None),
            spare: Ghost(Seq::empty()),
        };
        assert(t@ =~= Map::<usize, Entry<T>>::empty());
        t
    }

    /// How many leaves there are.
    pub fn len(&self) -> (n: usize)
        requires
            self.wf(),
        ensures
            self@.dom().finite(),
            n == self@.dom().len(),
    {
        proof {
            assert(self@.dom() =~= leaves_of(self.shape@));
            if let Some(s) = self.shape@ {
                lemma_sizes(s);
            }
        }
        self.count
    }

    pub fn is_empty(&self) -> (r: bool)
        requires
            self.wf(),
        ensures
            r == (self@.dom() == Set::<usize>::empty()),
    {
        proof {
            assert(self@.dom() =~= leaves_of(self.shape@));
            if let Some(s) = self.shape@ {
                lemma_sizes(s);
            }
        }
        self.count == 0
    }

    /// Adds a leaf for a box, with slack around it.
    pub fn insert(&mut self, tight: Aabb, payload: T) -> (proxy: Proxy)
        requires
            old(self).wf(),
            old(self).has_room(),
            growable(tight, old(self).fat_margin as int),
        ensures
            final(self).wf(),
            !old(self)@.contains_key(proxy),
            final(self)@ == old(self)@.insert(
                proxy,
                Entry { fat: grown(tight, old(self).fat_margin as int), payload },
            ),
            has_gained(
                *old(self),
                *final(self),
                proxy,
                grown(tight, old(self).fat_margin as int),
            ),
            final(self).fat_margin == old(self).fat_margin,
            final(self).nodes@.len() <= old(self).nodes@.len() + 2,
    {
        let ghost n0 = self.nodes@;
        let ghost spare0 = self.spare@;
        let ghost shape0 = self.shape@;
        let ghost busy = members_of(shape0);
        let fat: Aabb = tight.expanded(self.fat_margin);
        let leaf: usize = self.take_slot(fat, Some(payload));
        let ghost n1 = self.nodes@;
        proof {
            if spare0.len() > 0 {
                assert(!busy.contains(spare0[spare0.len() - 1] as int));
            }
            if let Some(s) = shape0 {
                lemma_in_arena(n0, s, NIL);
                lemma_low(n0, s, NIL);
                lemma_sizes(s);
                lemma_leaves_are_members(s);
                lemma_same(n0, n1, s, NIL);
            }
            assert forall|i: int| 0 <= i < self.spare@.len() implies !busy.contains(
                (#[trigger] self.spare@[i]) as int,
            ) && self.spare@[i] != leaf by {
                assert(self.spare@[i] == spare0[i]);
                if spare0.len() > 0 {
                    assert(spare0[i] != spare0[spare0.len() - 1]);
                }
                assert(!busy.contains(spare0[i] as int));
            }
            assert(self.tidy());
            assert(!leaves_of(shape0).contains(leaf));
            assert(self@ =~= old(self)@);
            if spare0.len() > 0 {
                assert(self.spare@ =~= old(self).spare_after(1));
                assert(self.spare_after(1) =~= old(self).spare_after(2));
            } else {
                assert(self.spare@ =~= Seq::empty());
            }
            assert(self.slot(0) == old(self).slot(1));
        }
        self.insert_leaf(leaf);
        self.count = self.count + 1;
        proof {
            assert forall|p: usize| leaves_of(shape0).contains(p) implies entry_of(
                self.nodes@[p as int],
            ) == entry_of(n0[p as int]) by {
                assert(leaves_of(self.shape@).contains(p));
                assert(entry_of(self.nodes@[p as int]) == entry_of(n1[p as int]));
                assert(busy.contains(p as int));
            }
            assert(leaves_of(self.shape@).contains(leaf));
            assert(self@ =~= old(self)@.insert(leaf, Entry { fat, payload }));
        }
        leaf
    }

    /// Moves a leaf. While the new box lies in the fat one nothing changes; otherwise the leaf is filed
    /// anew with a fresh fat box. The result says whether it was.
    pub fn update(&mut self, proxy: Proxy, tight: Aabb) -> (refiled: bool)
        requires
            old(self).wf(),
            old(self)@.contains_key(proxy),
            growable(tight, old(self).fat_margin as int),
        ensures
            final(self).wf(),
            refiled == !encloses(old(self)@[proxy].fat, tight),
            !refiled ==> *final(self) == *old(self),
            refiled ==> final(self)@ == old(self)@.insert(
                proxy,
                Entry {
                    fat: grown(tight, old(self).fat_margin as int),
                    payload: old(self)@[proxy].payload,
                },
            ),
            refiled ==> has_moved(
                *old(self),
                *final(self),
                proxy,
                grown(tight, old(self).fat_margin as int),
            ),
            final(self).fat_margin == old(self).fat_margin,
            final(self).nodes@.len() == old(self).nodes@.len(),
    {
        let ghost n0 = self.nodes@;
        let ghost shape0 = self.shape@;
        proof {
            let r = self.lemma_path_to(proxy);
        }
        if self.nodes[proxy].aabb.contains(&tight) {
            return false;
        }
        self.remove_leaf(proxy);
        let ghost n1 = self.nodes@;
        let fat: Aabb = tight.expanded(self.fat_margin);
        self.nodes[proxy].aabb = fat;
        let ghost n2 = self.nodes@;
        let ghost busy = members_of(self.shape@);
        proof {
            if let Some(s) = self.shape@ {
                lemma_in_arena(n1, s, NIL);
                lemma_same(n1, n2, s, NIL);
                lemma_leaves_are_members(s);
            }
            let spare = self.spare@;
            lemma_spare_in_arena(n1, self.free, spare);
            assert forall|i: int| 0 <= i < spare.len() implies n2[(#[trigger] spare[i]) as int]
                == n1[spare[i] as int] by {
                assert(spare.contains(spare[i]));
            }
            lemma_chained_same(n1, n2, self.free, spare);
            assert(self.tidy());
        }
        let ghost shape1 = self.shape@;
        let ghost mid = *self;
        proof {
            if let Some(s1) = shape1 {
                assert forall|p: usize| #[trigger] leaves(s1).contains(p) implies mid@[p].fat
                    == old(self)@[p].fat by {
                    assert(busy.contains(p as int));
                    assert(leaves_of(shape0).contains(p));
                    assert(entry_of(n1[p as int]) == entry_of(n0[p as int]));
                }
                lemma_inserted_same(
                    mid@,
                    old(self)@,
                    s1,
                    proxy,
                    old(self).nodes@[proxy as int].parent,
                    fat,
                );
                assert(mid.spare_after(1) =~= old(self).spare@);
            }
        }
        self.insert_leaf(proxy);
        proof {
            assert(leaves_of(self.shape@) =~= leaves_of(shape0));
            assert forall|p: usize| leaves_of(shape1).contains(p) implies entry_of(
                self.nodes@[p as int],
            ) == entry_of(n0[p as int]) by {
                assert(leaves_of(self.shape@).contains(p));
                assert(entry_of(self.nodes@[p as int]) == entry_of(n2[p as int]));
                assert(busy.contains(p as int));
                assert(leaves_of(shape0).contains(p));
                assert(entry_of(n1[p as int]) == entry_of(n0[p as int]));
            }
            assert(leaves_of(self.shape@).contains(proxy));
            assert(entry_of(n1[proxy as int]) == entry_of(n0[proxy as int]));
            assert(self@ =~= old(self)@.insert(
                proxy,
                Entry { fat, payload: old(self)@[proxy].payload },
            ));
        }
        true
    }

    /// Removes a leaf.
    pub fn remove(&mut self, proxy: Proxy)
        requires
            old(self).wf(),
            old(self)@.contains_key(proxy),
        ensures
            final(self).wf(),
            final(self)@ == old(self)@.remove(proxy),
            has_lost(*old(self), *final(self), proxy),
            final(self).fat_margin == old(self).fat_margin,
    {
        let ghost n0 = self.nodes@;
        let ghost shape0 = self.shape@;
        proof {
            lemma_sizes(shape0->0);
        }
        self.remove_leaf(proxy);
        let ghost n1 = self.nodes@;
        let ghost busy = members_of(self.shape@);
        let ghost spare = self.spare@;
        self.freenode(proxy);
        proof {
            if let Some(s) = self.shape@ {
                lemma_in_arena(n1, s, NIL);
                lemma_same(n1, self.nodes@, s, NIL);
                lemma_leaves_are_members(s);
            }
            assert forall|i: int| 0 <= i < self.spare@.len() implies !busy.contains(
                (#[trigger] self.spare@[i]) as int,
            ) by {
                if i < spare.len() {
                    assert(self.spare@[i] == spare[i]);
                }
            }
            assert forall|i: int, j: int|
                0 <= i < self.spare@.len() && 0 <= j < self.spare@.len() && i
                    != j implies self.spare@[i] != self.spare@[j] by {
                if i < spare.len() {
                    assert(spare.contains(spare[i]));
                }
                if j < spare.len() {
                    assert(spare.contains(spare[j]));
                }
            }
            assert(self.tidy());
        }
        self.count = self.count - 1;
        proof {
            assert forall|p: usize| leaves_of(self.shape@).contains(p) implies entry_of(
                self.nodes@[p as int],
            ) == entry_of(n0[p as int]) by {
                assert(leaves_of(shape0).contains(p));
                assert(entry_of(n1[p as int]) == entry_of(n0[p as int]));
                assert(busy.contains(p as int));
            }
            assert(self@ =~= old(self)@.remove(proxy));
        }
    }

    /// The leaves whose fat boxes overlap the query.
    fn query_proxies(&self, q: &Aabb) -> (r: Vec<usize>)
        requires
            self.wf(),
        ensures
            r@ == self.found(*q),
            forall|i: int| 0 <= i < r@.len() ==> self@.contains_key(#[trigger] r@[i]),
    {
        let mut out: Vec<usize> = Vec::new();
        if self.root == NIL {
            proof {
                if let Some(s) = self.shape@ {
                    lemma_height(self.nodes@, s, NIL);
                }
                reveal(Seq::filter);
                assert(self.found(*q) =~= Seq::<usize>::empty());
            }
            return out;
        }
        let ghost nodes = self.nodes@;
        let ghost whole = self.shape@->0;
        let ghost mut todo: Seq<Shape> = seq![whole];
        let mut stack: Vec<usize> = Vec::new();
        stack.push(self.root);
        proof {
            assert(todo.drop_last() =~= Seq::<Shape>::empty());
            assert(pending(nodes, todo.drop_last(), *q) == Seq::<usize>::empty());
            assert(load(todo.drop_last()) == 0);
            assert(pending(nodes, todo, *q) =~= sought(nodes, whole, *q));
        }
        while stack.len() > 0
            invariant
                nodes == self.nodes@,
                nodes.len() <= MAX_NODES,
                stack@.len() == todo.len(),
                forall|i: int|
                    0 <= i < todo.len() ==> stack@[i] == label(#[trigger] todo[i]) && hangs(
                        nodes,
                        todo[i],
                    ),
                sought(nodes, whole, *q) == out@ + pending(nodes, todo, *q),
            decreases load(todo),
        {
            let ghost s = todo.last();
            proof {
                assert(todo[todo.len() - 1] == s);
            }
            let ghost before = todo;
            let ghost rest = todo.drop_last();
            let id: usize = stack.pop().unwrap();
            proof {
                todo = rest;
                assert forall|i: int| 0 <= i < rest.len() implies stack@[i] == label(
                    #[trigger] rest[i],
                ) && hangs(nodes, rest[i]) by {
                    assert(rest[i] == before[i]);
                }
            }
            if self.nodes[id].aabb.intersects(q) {
                if self.nodes[id].payload.is_some() {
                    out.push(id);
                    proof {
                        assert(sought(nodes, s, *q) == seq![id]);
                        assert(out@ + pending(nodes, rest, *q) =~= sought(nodes, whole, *q));
                    }
                } else {
                    let c1: usize = self.nodes[id].child1;
                    let c2: usize = self.nodes[id].child2;
                    stack.push(c1);
                    stack.push(c2);
                    proof {
                        let one = child_of(s, true);
                        let two = child_of(s, false);
                        let mid = rest.push(one);
                        todo = mid.push(two);
                        assert(todo.drop_last() =~= mid);
                        assert(mid.drop_last() =~= rest);
                        assert(rooted(nodes, one, id) && rooted(nodes, two, id));
                        assert(pending(nodes, mid, *q) == sought(nodes, one, *q) + pending(
                            nodes,
                            rest,
                            *q,
                        ));
                        assert(out@ + pending(nodes, todo, *q) =~= sought(nodes, whole, *q));
                        assert(load(mid) == bulk(one) + load(rest));
                        assert forall|i: int| 0 <= i < todo.len() implies stack@[i] == label(
                            #[trigger] todo[i],
                        ) && hangs(nodes, todo[i]) by {
                            if i < rest.len() {
                                assert(todo[i] == rest[i]);
                            } else if i == rest.len() {
                                assert(todo[i] == one);
                            } else {
                                assert(todo[i] == two);
                            }
                        }
                    }
                }
            } else {
                proof {
                    assert(sought(nodes, s, *q) =~= Seq::<usize>::empty());
                    assert(out@ + pending(nodes, rest, *q) =~= sought(nodes, whole, *q));
                }
            }
        }
        proof {
            lemma_sought(nodes, whole, *q, struck(self@, *q));
            assert(out@ =~= self.found(*q));
            lemma_order(whole);
            assert forall|i: int| 0 <= i < out@.len() implies self@.contains_key(
                #[trigger] out@[i],
            ) by {
                lemma_filter_holds(order(whole), struck(self@, *q), out@[i]);
            }
        }
        out
    }

    /// The payloads of all leaves whose fat boxes overlap the query.
    pub fn query(&self, q: &Aabb) -> (r: Vec<T>) where T: Clone
        requires
            self.wf(),
        ensures
            r@.len() == self.found(*q).len(),
            forall|k: int|
                0 <= k < r@.len() ==> cloned::<T>(
                    self@[self.found(*q)[k]].payload,
                    #[trigger] r@[k],
                ),
    {
        let places = self.query_proxies(q);
        let mut out: Vec<T> = Vec::new();
        let mut k: usize = 0;
        while k < places.len()
            invariant
                k <= places@.len(),
                self.wf(),
                places@ == self.found(*q),
                forall|i: int| 0 <= i < places@.len() ==> self@.contains_key(#[trigger] places@[i]),
                out@.len() == k,
                forall|j: int|
                    0 <= j < k ==> cloned::<T>(
                        self@[self.found(*q)[j]].payload,
                        #[trigger] out@[j],
                    ),
            decreases places@.len() - k,
        {
            let p: usize = places[k];
            proof {
                assert(self@.contains_key(places@[k as int]));
                let r = self.lemma_path_to(p);
            }
            if let Some(payload) = &self.nodes[p].payload {
                out.push(payload.clone());
            }
            k = k + 1;
        }
        out
    }

    /// The fat box of a leaf.
    pub fn proxy_aabb(&self, proxy: Proxy) -> (b: Aabb)
        requires
            self.wf(),
            self@.contains_key(proxy),
        ensures
            b == self@[proxy].fat,
    {
        proof {
            let r = self.lemma_path_to(proxy);
        }
        self.nodes[proxy].aabb
    }

    /// How many levels there are above the lowest leaf.
    pub fn height(&self) -> (h: i32)
        requires
            self.wf(),
        ensures
            h == (match self.shape@ {
                None => 0,
                Some(s) => tall(s),
            }),
            h == 0 || h < self@.dom().len(),
    {
        proof {
            if let Some(s) = self.shape@ {
                lemma_height(self.nodes@, s, NIL);
                lemma_sizes(s);
            }
            assert(self@.dom() =~= leaves_of(self.shape@));
        }
        if self.root == NIL {
            0
        } else {
            self.nodes[self.root].height
        }
    }
}

impl<T> Default for DynamicAabbTree<T> {
    fn default() -> (t: Self)
        ensures
            t.wf(),
            t@ == Map::<usize, Entry<T>>::empty(),
            t.fat_margin == DEFAULT_MARGIN,
            t.is_new(),
    {
        DynamicAabbTree::new(DEFAULT_MARGIN)
    }
}

/// A query finds a leaf if and only if its fat box overlaps, and finds no leaf twice.
pub proof fn law_query_is_exact<T>(t: DynamicAabbTree<T>, q: Aabb, p: usize)
    requires
        t.wf(),
    ensures
        t.found(q).contains(p) <==> t@.contains_key(p) && overlaps(t@[p].fat, q),
        t.found(q).no_duplicates(),
{
    reveal(Seq::filter);
    let pred = struck(t@, q);
    match t.shape@ {
        None => {},
        Some(s) => {
            lemma_order(s);
            lemma_order_distinct(s);
            lemma_filter_distinct(order(s), pred);
            if t.found(q).contains(p) {
                lemma_filter_holds(order(s), pred, p);
            }
            if t@.contains_key(p) && overlaps(t@[p].fat, q) {
                let i = choose|i: int| 0 <= i < order(s).len() && order(s)[i] == p;
                order(s).lemma_filter_contains(pred, i);
            }
        },
    }
}

proof fn lemma_order_distinct(s: Shape)
    requires
        apart(s),
    ensures
        order(s).no_duplicates(),
    decreases s,
{
    match s {
        Shape::Leaf { id } => {},
        Shape::Fork { id, one, two } => {
            lemma_order_distinct(*one);
            lemma_order_distinct(*two);
            lemma_order(*one);
            lemma_order(*two);
            lemma_leaves_are_members(*one);
            lemma_leaves_are_members(*two);
            let a = order(*two);
            let b = order(*one);
            assert(order(s) == a + b);
            assert forall|i: int, j: int|
                0 <= i < a.len() + b.len() && 0 <= j < a.len() + b.len() && i != j implies (a
                + b)[i] != (a + b)[j] by {
                if i < a.len() && j >= a.len() {
                    assert(leaves(*two).contains(a[i]) && leaves(*one).contains(b[j - a.len()]));
                }
                if j < a.len() && i >= a.len() {
                    assert(leaves(*two).contains(a[j]) && leaves(*one).contains(b[i - a.len()]));
                }
            }
        },
    }
}

/// Filing a leaf adds it to the leaves, and taking it out again removes it; nobody else comes or goes.
pub proof fn law_filing_keeps_the_others<T>(
    m: Map<usize, Entry<T>>,
    s: Shape,
    leaf: usize,
    id: usize,
    b: Aabb,
)
    ensures
        leaves(inserted(m, s, leaf, id, b)) == leaves(s).insert(leaf),
    decreases s,
{
    match s {
        Shape::Leaf { id: own } => {
            lemma_poised_leaves(paired(s, leaf, id), 1);
            assert(leaves(paired(s, leaf, id)) =~= leaves(s).insert(leaf)) by {
                assert(leaves(Shape::Leaf { id: leaf }) =~= Set::empty().insert(leaf));
            }
        },
        Shape::Fork { id: own, one, two } => {
            law_filing_keeps_the_others(m, *one, leaf, id, b);
            law_filing_keeps_the_others(m, *two, leaf, id, b);
            let first = Shape::Fork {
                id: own,
                one: Box::new(inserted(m, *one, leaf, id, b)),
                two,
            };
            let second = Shape::Fork {
                id: own,
                one,
                two: Box::new(inserted(m, *two, leaf, id, b)),
            };
            lemma_poised_leaves(first, tall(s));
            lemma_poised_leaves(second, tall(s));
            lemma_poised_leaves(paired(s, leaf, id), 1 + tall(s));
            assert(leaves(Shape::Leaf { id: leaf }) =~= Set::empty().insert(leaf));
            assert(leaves(paired(s, leaf, id)) =~= leaves(s).insert(leaf));
            assert(leaves(first) =~= leaves(s).insert(leaf));
            assert(leaves(second) =~= leaves(s).insert(leaf));
        },
    }
}

proof fn lemma_poised_leaves(s: Shape, recorded: int)
    requires
        s is Fork,
    ensures
        leaves(poised(s, recorded)) == leaves(s),
{
    let one = child_of(s, true);
    let two = child_of(s, false);
    assert(leaves(s) == leaves(one).union(leaves(two)));
    let lean = tall(two) - tall(one);
    lemma_tall(one);
    lemma_tall(two);
    if recorded >= 2 && (lean > 1 || lean < -1) {
        let second = lean > 1;
        let pivot = child_of(s, !second);
        let other = child_of(s, second);
        assert(pivot is Fork);
        let f = child_of(pivot, true);
        let g = child_of(pivot, false);
        assert(leaves(pivot) == leaves(f).union(leaves(g)));
        let r = rotated(s, second);
        let low = child_of(r, true);
        let keep = child_of(r, false);
        assert(leaves(r) == leaves(low).union(leaves(keep)));
        assert(leaves(low) == leaves(child_of(low, true)).union(leaves(child_of(low, false))));
        assert(leaves(r) =~= leaves(s));
    }
}

proof fn lemma_tall(s: Shape)
    ensures
        tall(s) >= 0,
        s is Leaf ==> tall(s) == 0,
        s is Fork ==> tall(s) > 0,
    decreases s,
{
    if let Shape::Fork { id, one, two } = s {
        lemma_tall(*one);
        lemma_tall(*two);
    }
}

/// A rotation lowers what leans: a fork whose children differ by two levels is no higher afterwards, and lower where the heavy
/// child leans too.
pub proof fn law_rotations_level(s: Shape, recorded: int)
    requires
        s is Fork,
        recorded >= 2,
    ensures
        tall(poised(s, recorded)) <= tall(s),
        -1 <= tall(child_of(s, false)) - tall(child_of(s, true)) <= 1 ==> poised(s, recorded) == s,
        ({
            let one = child_of(s, true);
            let two = child_of(s, false);
            &&& tall(two) - tall(one) == 2 && tall(child_of(two, true)) != tall(child_of(two, false))
                ==> tall(poised(s, recorded)) < tall(s)
            &&& tall(one) - tall(two) == 2 && tall(child_of(one, true)) != tall(child_of(one, false))
                ==> tall(poised(s, recorded)) < tall(s)
        }),
{
    let one = child_of(s, true);
    let two = child_of(s, false);
    lemma_tall(one);
    lemma_tall(two);
    assert(tall(s) == 1 + greater(tall(one), tall(two)));
    let lean = tall(two) - tall(one);
    if lean > 1 || lean < -1 {
        let second = lean > 1;
        let pivot = child_of(s, !second);
        let other = child_of(s, second);
        let f = child_of(pivot, true);
        let g = child_of(pivot, false);
        lemma_tall(f);
        lemma_tall(g);
        lemma_tall(other);
        assert(tall(pivot) == 1 + greater(tall(f), tall(g)));
        let r = rotated(s, second);
        let low = child_of(r, true);
        let keep = child_of(r, false);
        assert(tall(r) == 1 + greater(tall(low), tall(keep)));
        assert(tall(low) == 1 + greater(tall(child_of(low, true)), tall(child_of(low, false))));
    }
}

/// What a box costs is the length of its edges: twice its width and its height.
pub proof fn law_edges(b: Aabb, w: int, h: int)
    requires
        b.max_x == b.min_x + w,
        b.max_y == b.min_y + h,
    ensures
        around(b) == w + h + w + h,
{
}

/// Where a third leaf goes. With `p` for the edges around all three, it is paired with the one of the two that it costs less to be
/// boxed together with, the second where both cost the same, unless to stay beside the pair of them costs less than either.
pub proof fn law_third_leaf<T>(
    m: Map<usize, Entry<T>>,
    a: usize,
    c: usize,
    fork: usize,
    leaf: usize,
    id: usize,
    b: Aabb,
)
    ensures
        ({
            let (la, lc, ln) = (
                Shape::Leaf { id: a },
                Shape::Leaf { id: c },
                Shape::Leaf { id: leaf },
            );
            let s = Shape::Fork { id: fork, one: Box::new(la), two: Box::new(lc) };
            let all = around(hull(hull(m[a].fat, m[c].fat), b));
            let grow = 2 * (all - around(hull(m[a].fat, m[c].fat)));
            let with_a = around(hull(m[a].fat, b)) + grow;
            let with_c = around(hull(m[c].fat, b)) + grow;
            let r = inserted(m, s, leaf, id, b);
            &&& 2 * all < with_a && 2 * all < with_c ==> r == (Shape::Fork {
                id,
                one: Box::new(s),
                two: Box::new(ln),
            })
            &&& !(2 * all < with_a && 2 * all < with_c) && with_a < with_c ==> r == (Shape::Fork {
                id: fork,
                one: Box::new(Shape::Fork { id, one: Box::new(la), two: Box::new(ln) }),
                two: Box::new(lc),
            })
            &&& !(2 * all < with_a && 2 * all < with_c) && with_a >= with_c ==> r == (Shape::Fork {
                id: fork,
                one: Box::new(la),
                two: Box::new(Shape::Fork { id, one: Box::new(lc), two: Box::new(ln) }),
            })
        }),
{
    let (la, lc, ln) = (Shape::Leaf { id: a }, Shape::Leaf { id: c }, Shape::Leaf { id: leaf });
    let s = Shape::Fork { id: fork, one: Box::new(la), two: Box::new(lc) };
    assert(tall(la) == 0 && tall(lc) == 0 && tall(ln) == 0);
    assert(tall(s) == 1);
    assert(span(m, s) == hull(m[a].fat, m[c].fat));
    assert(inserted(m, la, leaf, id, b) == paired(la, leaf, id));
    assert(inserted(m, lc, leaf, id, b) == paired(lc, leaf, id));
    assert(tall(paired(la, leaf, id)) == 1);
    assert(tall(paired(lc, leaf, id)) == 1);
}

/// Taking a leaf out of a tree leaves all others in it.
pub proof fn law_removing_keeps_the_others(s: Shape, leaf: usize)
    requires
        apart(s),
        s is Fork,
        leaves(s).contains(leaf),
    ensures
        leaves(removed(s, leaf)) == leaves(s).remove(leaf),
    decreases s,
{
    if let Shape::Fork { id, one, two } = s {
        lemma_leaves_are_members(*one);
        lemma_leaves_are_members(*two);
        assert(leaves(s) == leaves(*one).union(leaves(*two)));
        let gone = Shape::Leaf { id: leaf };
        if *one == gone {
            assert(leaves(gone) =~= Set::empty().insert(leaf));
            assert(members(*one).contains(leaf as int));
            assert(leaves(*two) =~= leaves(s).remove(leaf));
        } else if *two == gone {
            assert(leaves(gone) =~= Set::empty().insert(leaf));
            assert(members(*two).contains(leaf as int));
            assert(leaves(*one) =~= leaves(s).remove(leaf));
        } else if leaves(*one).contains(leaf) {
            if *one is Leaf {
                assert(leaves(*one) =~= Set::empty().insert((*one)->Leaf_id));
            } else {
                law_removing_keeps_the_others(*one, leaf);
            }
            let t = Shape::Fork { id, one: Box::new(removed(*one, leaf)), two };
            lemma_poised_leaves(t, tall(s));
            assert(leaves(t) =~= leaves(s).remove(leaf));
        } else {
            if *two is Leaf {
                assert(leaves(*two) =~= Set::empty().insert((*two)->Leaf_id));
            } else {
                law_removing_keeps_the_others(*two, leaf);
            }
            let t = Shape::Fork { id, one, two: Box::new(removed(*two, leaf)) };
            lemma_poised_leaves(t, tall(s));
            assert(leaves(t) =~= leaves(s).remove(leaf));
        }
    }
}

} // verus!
