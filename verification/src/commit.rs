//! The id of a commit in the chain of reshapes: a hash over the id that it extends, the epoch and the
//! reshape spelled out.
use vstd::prelude::*;
use vstd::string::*;
use vstd::utf8::*;

use crate::galaxy::CellId;
use crate::galaxywire::{OpView, ShapeOp};
use crate::hash::{fnv64, fnv64_from, FNV64_BASIS};
use crate::order::views;
use crate::text::{dec, hex_digits, push_dec, push_hex};

verus! {

/// What `{:?}` prints of a text: the text in quotes, with what cannot be shown escaped.
pub uninterp spec fn debug_text(s: Seq<char>) -> Seq<char>;

/// `format!` with `{:?}` of a `&str`. What it prints is a function of the text alone and goes by the
/// name `debug_text`; which characters are escaped is not stated.
#[verifier::external_body]
fn debug_str(s: &str) -> (r: String)
    ensures
        r@ == debug_text(s@),
{
    format!("{:?}", s)
}

pub open spec fn cell_debug(c: CellId) -> Seq<char> {
    "CellId { depth: "@ + dec(c.depth as nat) + ", x: "@ + dec(c.x as nat) + ", y: "@ + dec(
        c.y as nat,
    ) + " }"@
}

pub open spec fn four_cells(c: Seq<CellId>) -> Seq<char> {
    "["@ + cell_debug(c[0]) + ", "@ + cell_debug(c[1]) + ", "@ + cell_debug(c[2]) + ", "@ + cell_debug(
        c[3],
    ) + "]"@
}

pub open spec fn four_texts(t: Seq<Seq<char>>) -> Seq<char> {
    "["@ + debug_text(t[0]) + ", "@ + debug_text(t[1]) + ", "@ + debug_text(t[2]) + ", "@ + debug_text(
        t[3],
    ) + "]"@
}

pub open spec fn maybe_text(t: Option<Seq<char>>) -> Seq<char> {
    match t {
        Some(s) => "Some("@ + debug_text(s) + ")"@,
        None => "None"@,
    }
}

/// A reshape spelled out.
pub open spec fn op_debug(op: OpView) -> Seq<char> {
    match op {
        OpView::Split { cell, children, place_on, from_snapshot } => "Split { cell: "@ + cell_debug(
            cell,
        ) + ", children: "@ + four_cells(children) + ", place_on: "@ + four_texts(place_on)
            + ", from_snapshot: "@ + debug_text(from_snapshot) + " }"@,
        OpView::Merge { parent, from_snapshots, place_on } => "Merge { parent: "@ + cell_debug(
            parent,
        ) + ", from_snapshots: "@ + four_texts(from_snapshots) + ", place_on: "@ + debug_text(
            place_on,
        ) + " }"@,
        OpView::Place { cell, node, from_snapshot } => "Place { cell: "@ + cell_debug(cell)
            + ", node: "@ + debug_text(node) + ", from_snapshot: "@ + maybe_text(from_snapshot)
            + " }"@,
        OpView::Migrate { cell, from, to, snapshot } => "Migrate { cell: "@ + cell_debug(cell)
            + ", from: "@ + debug_text(from) + ", to: "@ + debug_text(to) + ", snapshot: "@
            + debug_text(snapshot) + " }"@,
    }
}

/// What the id of a commit is a hash of.
pub open spec fn commit_text(prev: Seq<char>, epoch: u64, spelled: Seq<char>) -> Seq<char> {
    prev + "|"@ + dec(epoch as nat) + "|"@ + spelled
}

/// The id of a commit whose reshape is spelled out.
pub open spec fn spelled_id(prev: Seq<char>, epoch: u64, spelled: Seq<char>) -> Seq<char> {
    "sc"@ + hex_digits(
        fnv64_from(FNV64_BASIS, encode_utf8(commit_text(prev, epoch, spelled))) as nat,
        16,
    )
}

/// The id of a commit.
pub open spec fn commit_id_of(prev: Seq<char>, epoch: u64, op: OpView) -> Seq<char> {
    spelled_id(prev, epoch, op_debug(op))
}

fn spell_cell(c: &CellId) -> (s: String)
    ensures
        s@ == cell_debug(*c),
{
    let mut s: String = "CellId { depth: ".to_string();
    push_dec(&mut s, c.depth as u64);
    s.append(", x: ");
    push_dec(&mut s, c.x as u64);
    s.append(", y: ");
    push_dec(&mut s, c.y as u64);
    s.append(" }");
    s
}

fn spell_cells(c: &[CellId; 4]) -> (s: String)
    ensures
        s@ == four_cells(c@),
{
    let mut s: String = "[".to_string();
    s.append(spell_cell(&c[0]).as_str());
    s.append(", ");
    s.append(spell_cell(&c[1]).as_str());
    s.append(", ");
    s.append(spell_cell(&c[2]).as_str());
    s.append(", ");
    s.append(spell_cell(&c[3]).as_str());
    s.append("]");
    s
}

fn spell_texts(t: &[String; 4]) -> (s: String)
    ensures
        s@ == four_texts(views(t@)),
{
    let mut s: String = "[".to_string();
    s.append(debug_str(t[0].as_str()).as_str());
    s.append(", ");
    s.append(debug_str(t[1].as_str()).as_str());
    s.append(", ");
    s.append(debug_str(t[2].as_str()).as_str());
    s.append(", ");
    s.append(debug_str(t[3].as_str()).as_str());
    s.append("]");
    s
}

/// A reshape spelled out.
pub fn spell_op(op: &ShapeOp) -> (s: String)
    ensures
        s@ == op_debug(op@),
{
    match op {
        ShapeOp::Split { cell, children, place_on, from_snapshot } => {
            let mut s: String = "Split { cell: ".to_string();
            s.append(spell_cell(cell).as_str());
            s.append(", children: ");
            s.append(spell_cells(children).as_str());
            s.append(", place_on: ");
            s.append(spell_texts(place_on).as_str());
            s.append(", from_snapshot: ");
            s.append(debug_str(from_snapshot.as_str()).as_str());
            s.append(" }");
            s
        },
        ShapeOp::Merge { parent, from_snapshots, place_on } => {
            let mut s: String = "Merge { parent: ".to_string();
            s.append(spell_cell(parent).as_str());
            s.append(", from_snapshots: ");
            s.append(spell_texts(from_snapshots).as_str());
            s.append(", place_on: ");
            s.append(debug_str(place_on.as_str()).as_str());
            s.append(" }");
            s
        },
        ShapeOp::Place { cell, node, from_snapshot } => {
            let mut s: String = "Place { cell: ".to_string();
            s.append(spell_cell(cell).as_str());
            s.append(", node: ");
            s.append(debug_str(node.as_str()).as_str());
            s.append(", from_snapshot: ");
            let from: String = match from_snapshot {
                Some(cid) => {
                    let mut t: String = "Some(".to_string();
                    t.append(debug_str(cid.as_str()).as_str());
                    t.append(")");
                    t
                },
                None => "None".to_string(),
            };
            s.append(from.as_str());
            s.append(" }");
            s
        },
        ShapeOp::Migrate { cell, from, to, snapshot } => {
            let mut s: String = "Migrate { cell: ".to_string();
            s.append(spell_cell(cell).as_str());
            s.append(", from: ");
            s.append(debug_str(from.as_str()).as_str());
            s.append(", to: ");
            s.append(debug_str(to.as_str()).as_str());
            s.append(", snapshot: ");
            s.append(debug_str(snapshot.as_str()).as_str());
            s.append(" }");
            s
        },
    }
}

/// The id of the commit that extends `prev` by a reshape that is spelled out.
pub fn id_of_spelled(prev: &str, epoch: u64, spelled: &str) -> (s: String)
    ensures
        s@ == spelled_id(prev@, epoch, spelled@),
{
    let mut text: String = prev.to_string();
    text.append("|");
    push_dec(&mut text, epoch);
    text.append("|");
    text.append(spelled);
    let h: u64 = fnv64(FNV64_BASIS, text.as_str().as_bytes());
    let mut s: String = "sc".to_string();
    push_hex(&mut s, h, 16);
    s
}

/// The id of the commit that extends `prev` by a reshape.
pub fn commit_id(prev: &str, epoch: u64, op: &ShapeOp) -> (s: String)
    ensures
        s@ == commit_id_of(prev@, epoch, op@),
{
    id_of_spelled(prev, epoch, spell_op(op).as_str())
}

/// Two spelled numbers with something that is no digit behind them are the same number with the same behind it, or differ.
proof fn lemma_number_ends(a: nat, b: nat, s: Seq<char>, t: Seq<char>)
    requires
        s.len() > 0,
        t.len() > 0,
        !crate::text::is_digit(s[0]),
        !crate::text::is_digit(t[0]),
        dec(a) + s == dec(b) + t,
    ensures
        a == b,
        s == t,
{
    let (x, y) = (dec(a), dec(b));
    crate::text::lemma_dec_spells(a);
    crate::text::lemma_dec_spells(b);
    let (u, v) = (x + s, y + t);
    if x.len() < y.len() {
        assert(u[x.len() as int] == s[0]);
        assert(v[x.len() as int] == y[x.len() as int]);
    } else if y.len() < x.len() {
        assert(v[y.len() as int] == t[0]);
        assert(u[y.len() as int] == x[y.len() as int]);
    }
    assert(x =~= u.subrange(0, x.len() as int));
    assert(y =~= v.subrange(0, y.len() as int));
    assert(s =~= u.subrange(x.len() as int, u.len() as int));
    assert(t =~= v.subrange(y.len() as int, v.len() as int));
}

/// What is hashed for a commit names all of it: commits after an id of the same length with the same text extend the same id, in the same epoch, by the same
/// spelled reshape.
pub proof fn law_commit_text_is_faithful(
    prev: Seq<char>,
    epoch: u64,
    spelled: Seq<char>,
    other_prev: Seq<char>,
    other_epoch: u64,
    other: Seq<char>,
)
    requires
        prev.len() == other_prev.len(),
        commit_text(prev, epoch, spelled) == commit_text(other_prev, other_epoch, other),
    ensures
        prev == other_prev,
        epoch == other_epoch,
        spelled == other,
{
    reveal_strlit("|");
    let (a, b) = (commit_text(prev, epoch, spelled), commit_text(other_prev, other_epoch, other));
    let n = prev.len() as int;
    assert(prev =~= a.subrange(0, n));
    assert(other_prev =~= b.subrange(0, n));
    let (s, t) = ("|"@ + spelled, "|"@ + other);
    assert(a.subrange(n + 1, a.len() as int) =~= dec(epoch as nat) + s);
    assert(b.subrange(n + 1, b.len() as int) =~= dec(other_epoch as nat) + t);
    lemma_number_ends(epoch as nat, other_epoch as nat, s, t);
    assert(spelled =~= s.subrange(1, s.len() as int));
    assert(other =~= t.subrange(1, t.len() as int));
}

/// What stands behind a tag and a number goes by both.
proof fn lemma_tagged(tag: Seq<char>, a: nat, b: nat, s: Seq<char>, t: Seq<char>)
    requires
        s.len() > 0,
        t.len() > 0,
        !crate::text::is_digit(s[0]),
        !crate::text::is_digit(t[0]),
        tag + (dec(a) + s) == tag + (dec(b) + t),
    ensures
        a == b,
        s == t,
{
    let (x, y) = (dec(a) + s, dec(b) + t);
    let (u, v) = (tag + x, tag + y);
    assert(x =~= u.subrange(tag.len() as int, u.len() as int));
    assert(y =~= v.subrange(tag.len() as int, v.len() as int));
    lemma_number_ends(a, b, s, t);
}

proof fn lemma_regrouped(h: Seq<char>, a: Seq<char>, m: Seq<char>, b: Seq<char>, n: Seq<char>, c: Seq<char>, e: Seq<char>)
    ensures
        h + a + m + b + n + c + e == h + (a + (m + (b + (n + (c + e))))),
{
    assert(h + a + m + b + n + c + e =~= h + (a + (m + (b + (n + (c + e))))));
}

/// A cell is spelled in full: no two cells are spelled alike.
pub proof fn law_cells_are_spelled_apart(a: CellId, b: CellId)
    requires
        cell_debug(a) == cell_debug(b),
    ensures
        a == b,
{
    let (h, m, n, e) = ("CellId { depth: "@, ", x: "@, ", y: "@, " }"@);
    assert(m.len() > 0 && m[0] == ',' && n.len() > 0 && n[0] == ',' && e.len() > 0 && e[0] == ' ') by {
        reveal_strlit(", x: ");
        reveal_strlit(", y: ");
        reveal_strlit(" }");
    }
    lemma_regrouped(h, dec(a.depth as nat), m, dec(a.x as nat), n, dec(a.y as nat), e);
    lemma_regrouped(h, dec(b.depth as nat), m, dec(b.x as nat), n, dec(b.y as nat), e);
    lemma_all_three(
        h,
        m,
        n,
        e,
        (a.depth as nat, a.x as nat, a.y as nat),
        (b.depth as nat, b.x as nat, b.y as nat),
    );
}

proof fn lemma_all_three(
    h: Seq<char>,
    m: Seq<char>,
    n: Seq<char>,
    e: Seq<char>,
    a: (nat, nat, nat),
    b: (nat, nat, nat),
)
    requires
        m.len() > 0 && m[0] == ',',
        n.len() > 0 && n[0] == ',',
        e.len() > 0 && e[0] == ' ',
        h + (dec(a.0) + (m + (dec(a.1) + (n + (dec(a.2) + e))))) == h + (dec(b.0) + (m + (dec(b.1) + (n + (dec(b.2)
            + e))))),
    ensures
        a == b,
{
    let (y, z) = (n + (dec(a.2) + e), n + (dec(b.2) + e));
    assert(y[0] == n[0] && z[0] == n[0]);
    let (x, w) = (m + (dec(a.1) + y), m + (dec(b.1) + z));
    assert(x[0] == m[0] && w[0] == m[0]);
    lemma_tagged(h, a.0, b.0, x, w);
    lemma_tagged(m, a.1, b.1, y, z);
    lemma_tagged(n, a.2, b.2, e, e);
}

/// The id of a commit is short, and of the same length for all.
pub proof fn law_commit_ids(prev: Seq<char>, epoch: u64, op: OpView)
    ensures
        commit_id_of(prev, epoch, op).len() == 18,
        commit_id_of(prev, epoch, op)[0] == 's',
        commit_id_of(prev, epoch, op)[1] == 'c',
{
    reveal_strlit("sc");
    crate::text::law_hexadecimal(
        fnv64_from(FNV64_BASIS, encode_utf8(commit_text(prev, epoch, op_debug(op)))) as nat,
        0,
        16,
    );
}

} // verus!
