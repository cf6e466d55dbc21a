//! The tape universe and the head that walks it.
//!
//! A tape is a row of cells without end in either direction. A cell is empty
//! or holds a tape. The head stands on one cell and sees the cell's content,
//! the cells to its left and right, and the tapes that enclose the one it is
//! in. Nothing is ever changed in place: every operation hands back a new
//! head, and heads share what they have in common.

use crate::text::{ascii, ascii_string};
use std::sync::Arc;
use vstd::prelude::*;

verus! {

/// What a cell holds: nothing, or a tape.
#[verifier::ext_equal]
pub enum Slot {
    Empty,
    Full(Box<TapeView>),
}

/// A tape as seen from its origin cell. `left` and `right` list the
/// neighbours of the origin, nearest first. Cells beyond their ends are
/// empty, and neither ends in an empty cell.
#[verifier::ext_equal]
pub struct TapeView {
    pub origin: Slot,
    pub left: Seq<Slot>,
    pub right: Seq<Slot>,
}

/// The cells beside the one through which the head went down.
#[verifier::ext_equal]
pub struct Level {
    pub left: Seq<Slot>,
    pub right: Seq<Slot>,
}

/// Everything a head can ever come to see: the cell it stands on, the rest
/// of that cell's tape, and the enclosing tapes, innermost first. Tapes
/// beyond the end of `parent` are empty.
#[verifier::ext_equal]
pub struct HeadView {
    pub child: Slot,
    pub left: Seq<Slot>,
    pub right: Seq<Slot>,
    pub parent: Seq<Level>,
}

/// Puts a cell in front of a row of cells. A row that would hold nothing but
/// one empty cell is the empty row.
pub open spec fn cons(first: Slot, rest: Seq<Slot>) -> Seq<Slot> {
    if first is Empty && rest.len() == 0 {
        Seq::empty()
    } else {
        seq![first] + rest
    }
}

/// The nearest cell of a row.
pub open spec fn nearest(row: Seq<Slot>) -> Slot {
    if row.len() == 0 {
        Slot::Empty
    } else {
        row[0]
    }
}

/// The row without its nearest cell.
pub open spec fn beyond(row: Seq<Slot>) -> Seq<Slot> {
    if row.len() == 0 {
        row
    } else {
        row.drop_first()
    }
}

/// A row that does not end in an empty cell.
pub open spec fn trimmed(row: Seq<Slot>) -> bool {
    row.len() > 0 ==> row.last() is Full
}

impl Level {
    pub open spec fn blank() -> Level {
        Level { left: Seq::empty(), right: Seq::empty() }
    }

    pub open spec fn is_blank(self) -> bool {
        self.left.len() == 0 && self.right.len() == 0
    }
}

/// Puts a level below a stack of levels. A stack that would hold nothing but
/// one blank level is the empty stack.
pub open spec fn cons_level(first: Level, rest: Seq<Level>) -> Seq<Level> {
    if first.is_blank() && rest.len() == 0 {
        Seq::empty()
    } else {
        seq![first] + rest
    }
}

/// The innermost level of a stack.
pub open spec fn innermost(levels: Seq<Level>) -> Level {
    if levels.len() == 0 {
        Level::blank()
    } else {
        levels[0]
    }
}

/// The stack without its innermost level.
pub open spec fn outside(levels: Seq<Level>) -> Seq<Level> {
    if levels.len() == 0 {
        levels
    } else {
        levels.drop_first()
    }
}

/// A stack of levels that does not end in a blank one.
pub open spec fn trimmed_levels(levels: Seq<Level>) -> bool {
    levels.len() > 0 ==> !levels.last().is_blank()
}

impl TapeView {
    pub open spec fn blank() -> TapeView {
        TapeView { origin: Slot::Empty, left: Seq::empty(), right: Seq::empty() }
    }
}

impl Slot {
    /// The tape in the cell; the blank tape for an empty cell.
    pub open spec fn tape(self) -> TapeView {
        match self {
            Slot::Empty => TapeView::blank(),
            Slot::Full(t) => *t,
        }
    }
}

impl HeadView {
    /// The head in a universe of empty cells.
    pub open spec fn blank() -> HeadView {
        HeadView {
            child: Slot::Empty,
            left: Seq::empty(),
            right: Seq::empty(),
            parent: Seq::empty(),
        }
    }

    /// One cell to the left: the cell left behind becomes the nearest on the
    /// right.
    pub open spec fn move_left(self) -> HeadView {
        HeadView {
            child: nearest(self.left),
            left: beyond(self.left),
            right: cons(self.child, self.right),
            parent: self.parent,
        }
    }

    /// One cell to the right: the cell left behind becomes the nearest on
    /// the left.
    pub open spec fn move_right(self) -> HeadView {
        HeadView {
            child: nearest(self.right),
            left: cons(self.child, self.left),
            right: beyond(self.right),
            parent: self.parent,
        }
    }

    /// Down into the tape of the focused cell, onto its origin. What
    /// surrounded the head becomes the innermost level.
    pub open spec fn enter(self) -> HeadView {
        let inner = self.child.tape();
        HeadView {
            child: inner.origin,
            left: inner.left,
            right: inner.right,
            parent: cons_level(Level { left: self.left, right: self.right }, self.parent),
        }
    }

    /// Up out of the current tape, which becomes the content of the focused
    /// cell, whatever it holds.
    pub open spec fn exit(self) -> HeadView {
        let around = innermost(self.parent);
        HeadView {
            child: Slot::Full(
                Box::new(TapeView { origin: self.child, left: self.left, right: self.right }),
            ),
            left: around.left,
            right: around.right,
            parent: outside(self.parent),
        }
    }

    /// The same head on an emptied cell.
    pub open spec fn null_child(self) -> HeadView {
        HeadView { child: Slot::Empty, ..self }
    }

    /// Whether the focused cell holds a tape.
    pub open spec fn has_child(self) -> bool {
        self.child is Full
    }

    /// The same head with the content of the cell that `other` stands on.
    pub open spec fn copy_child_from(self, other: HeadView) -> HeadView {
        HeadView { child: other.child, ..self }
    }

    /// No row ends in an empty cell and the levels do not end in a blank one.
    pub open spec fn trimmed(self) -> bool {
        &&& trimmed(self.left)
        &&& trimmed(self.right)
        &&& trimmed_levels(self.parent)
    }
}

struct Tape {
    next: Option<Arc<Tape>>,
    left: Option<Arc<Cell>>,
    right: Option<Arc<Cell>>,
}

struct Cell {
    child: Option<Arc<Tape>>,
    next: Option<Arc<Cell>>,
}

/// The head: a cursor into the universe of nested tapes.
pub struct Head {
    parent: Option<Arc<Tape>>,
    child: Option<Arc<Tape>>,
    left: Option<Arc<Cell>>,
    right: Option<Arc<Cell>>,
}

spec fn slot_of(t: &Option<Arc<Tape>>) -> Slot
    decreases t, 1int,
{
    match t {
        None => Slot::Empty,
        Some(tape) => Slot::Full(Box::new(tape_of(&**tape))),
    }
}

spec fn tape_of(t: &Tape) -> TapeView
    decreases t, 0int,
{
    TapeView { origin: slot_of(&t.next), left: row_of(&t.left), right: row_of(&t.right) }
}

spec fn row_of(c: &Option<Arc<Cell>>) -> Seq<Slot>
    decreases c,
{
    match c {
        None => Seq::empty(),
        Some(cell) => cons(slot_of(&cell.child), row_of(&cell.next)),
    }
}

spec fn levels_of(p: &Option<Arc<Tape>>) -> Seq<Level>
    decreases p,
{
    match p {
        None => Seq::empty(),
        Some(tape) => cons_level(
            Level { left: row_of(&tape.left), right: row_of(&tape.right) },
            levels_of(&tape.next),
        ),
    }
}

/// A row stored without a node that stands for empty cells only.
spec fn row_compact(c: &Option<Arc<Cell>>) -> bool
    decreases c,
{
    match c {
        None => true,
        Some(cell) => {
            &&& cell.child.is_some() || cell.next.is_some()
            &&& slot_compact(&cell.child)
            &&& row_compact(&cell.next)
        },
    }
}

spec fn slot_compact(t: &Option<Arc<Tape>>) -> bool
    decreases t,
{
    match t {
        None => true,
        Some(tape) => {
            &&& slot_compact(&tape.next)
            &&& row_compact(&tape.left)
            &&& row_compact(&tape.right)
        },
    }
}

spec fn levels_compact(p: &Option<Arc<Tape>>) -> bool
    decreases p,
{
    match p {
        None => true,
        Some(tape) => {
            &&& tape.next.is_some() || tape.left.is_some() || tape.right.is_some()
            &&& row_compact(&tape.left)
            &&& row_compact(&tape.right)
            &&& levels_compact(&tape.next)
        },
    }
}

impl View for Head {
    type V = HeadView;

    closed spec fn view(&self) -> HeadView {
        HeadView {
            child: slot_of(&self.child),
            left: row_of(&self.left),
            right: row_of(&self.right),
            parent: levels_of(&self.parent),
        }
    }
}

/// `Arc::clone` of std: a second handle to the value that the first one
/// points to. The value itself is not copied.
#[verifier::external_body]
fn share<T>(handle: &Arc<T>) -> (r: Arc<T>)
    ensures
        r == *handle,
{
    Arc::clone(handle)
}

fn share_opt<T>(handle: &Option<Arc<T>>) -> (r: Option<Arc<T>>)
    ensures
        r == *handle,
{
    match handle {
        Some(h) => Some(share(h)),
        None => None,
    }
}

proof fn lemma_cons(first: Slot, rest: Seq<Slot>)
    ensures
        nearest(cons(first, rest)) == first,
        beyond(cons(first, rest)) == rest,
        trimmed(rest) ==> trimmed(cons(first, rest)),
{
    if !(first is Empty && rest.len() == 0) {
        assert((seq![first] + rest).drop_first() =~= rest);
    }
}

proof fn lemma_cons_level(first: Level, rest: Seq<Level>)
    ensures
        innermost(cons_level(first, rest)).left == first.left,
        innermost(cons_level(first, rest)).right == first.right,
        outside(cons_level(first, rest)) == rest,
        trimmed_levels(rest) ==> trimmed_levels(cons_level(first, rest)),
{
    if !(first.is_blank() && rest.len() == 0) {
        assert((seq![first] + rest).drop_first() =~= rest);
    } else {
        assert(first.left =~= Seq::empty());
        assert(first.right =~= Seq::empty());
    }
}

impl Head {
    #[verifier::type_invariant]
    spec fn inv(&self) -> bool {
        self.compact()
    }

    /// The head stores no node that stands for empty cells only, so that two
    /// heads that see the same universe are stored alike. Every head that
    /// the operations of this module give is stored so.
    pub closed spec fn compact(&self) -> bool {
        &&& slot_compact(&self.child)
        &&& row_compact(&self.left)
        &&& row_compact(&self.right)
        &&& levels_compact(&self.parent)
    }

    /// Whether the head holds no node at all.
    pub closed spec fn bare(&self) -> bool {
        self.parent is None && self.child is None && self.left is None && self.right is None
    }

    /// A head in a universe of empty cells.
    pub fn new() -> (r: Head)
        ensures
            r@ == HeadView::blank(),
            r.compact(),
            r.bare(),
    {
        Head { left: None, right: None, parent: None, child: None }
    }

    /// Steps one cell to the left.
    pub fn move_left(&self) -> (r: Head)
        ensures
            r@ == self@.move_left(),
            r.compact(),
    {
        proof {
            use_type_invariant(self);
        }
        let (child, left) = match &self.left {
            Some(cell) => (share_opt(&cell.child), share_opt(&cell.next)),
            None => (None, None),
        };
        let right = if self.right.is_none() && self.child.is_none() {
            None
        } else {
            Some(Arc::new(Cell { child: share_opt(&self.child), next: share_opt(&self.right) }))
        };
        proof {
            lemma_cons(slot_of(&child), row_of(&left));
        }
        Head { parent: share_opt(&self.parent), child, left, right }
    }

    /// Steps one cell to the right.
    pub fn move_right(&self) -> (r: Head)
        ensures
            r@ == self@.move_right(),
            r.compact(),
    {
        proof {
            use_type_invariant(self);
        }
        let (child, right) = match &self.right {
            Some(cell) => (share_opt(&cell.child), share_opt(&cell.next)),
            None => (None, None),
        };
        let left = if self.left.is_none() && self.child.is_none() {
            None
        } else {
            Some(Arc::new(Cell { child: share_opt(&self.child), next: share_opt(&self.left) }))
        };
        proof {
            lemma_cons(slot_of(&child), row_of(&right));
        }
        Head { parent: share_opt(&self.parent), child, left, right }
    }

    /// Goes down into the tape of the focused cell. An empty cell is entered
    /// as a tape of empty cells.
    pub fn enter(&self) -> (r: Head)
        ensures
            r@ == self@.enter(),
            r.compact(),
    {
        proof {
            use_type_invariant(self);
        }
        let (child, left, right) = match &self.child {
            Some(tape) => (share_opt(&tape.next), share_opt(&tape.left), share_opt(&tape.right)),
            None => (None, None, None),
        };
        let parent = if self.left.is_none() && self.parent.is_none() && self.right.is_none() {
            None
        } else {
            Some(
                Arc::new(
                    Tape {
                        next: share_opt(&self.parent),
                        left: share_opt(&self.left),
                        right: share_opt(&self.right),
                    },
                ),
            )
        };
        Head { parent, child, left, right }
    }

    /// Goes up to the enclosing tape. The tape that the head leaves becomes
    /// the content of the cell it arrives on, also where that tape is empty.
    pub fn exit(&self) -> (r: Head)
        ensures
            r@ == self@.exit(),
            r.compact(),
    {
        proof {
            use_type_invariant(self);
        }
        let (parent, left, right) = match &self.parent {
            Some(tape) => (share_opt(&tape.next), share_opt(&tape.left), share_opt(&tape.right)),
            None => (None, None, None),
        };
        let child = Some(
            Arc::new(
                Tape {
                    next: share_opt(&self.child),
                    left: share_opt(&self.left),
                    right: share_opt(&self.right),
                },
            ),
        );
        proof {
            lemma_cons_level(
                Level { left: row_of(&left), right: row_of(&right) },
                levels_of(&parent),
            );
        }
        Head { parent, child, left, right }
    }

    fn set_child(&self, new_child: Option<Arc<Tape>>) -> (r: Head)
        requires
            slot_compact(&new_child),
        ensures
            r@ == (HeadView { child: slot_of(&new_child), ..self@ }),
            r.compact(),
    {
        proof {
            use_type_invariant(self);
        }
        Head {
            parent: share_opt(&self.parent),
            child: new_child,
            left: share_opt(&self.left),
            right: share_opt(&self.right),
        }
    }

    /// Empties the focused cell.
    pub fn null_child(&self) -> (r: Head)
        ensures
            r@ == self@.null_child(),
            r.compact(),
    {
        proof {
            use_type_invariant(self);
        }
        self.set_child(None)
    }

    /// Whether the focused cell holds a tape.
    pub fn has_child(&self) -> (r: bool)
        ensures
            r == self@.has_child(),
    {
        self.child.is_some()
    }

    /// This head, with the focused cell holding what the cell under `other`
    /// holds.
    pub fn copy_child_from(&self, other: &Head) -> (r: Head)
        ensures
            r@ == self@.copy_child_from(other@),
            r.compact(),
    {
        proof {
            use_type_invariant(self);
            use_type_invariant(other);
        }
        self.set_child(share_opt(&other.child))
    }
}

impl Clone for Head {
    /// Another head at the same place. The tapes are shared, not copied.
    fn clone(&self) -> (r: Head)
        ensures
            r == *self,
    {
        proof {
            use_type_invariant(self);
        }
        Head {
            parent: share_opt(&self.parent),
            child: share_opt(&self.child),
            left: share_opt(&self.left),
            right: share_opt(&self.right),
        }
    }
}

} // verus!

verus! {

proof fn lemma_row_trimmed(c: &Option<Arc<Cell>>)
    ensures
        trimmed(row_of(c)),
    decreases c,
{
    if let Some(cell) = c {
        lemma_row_trimmed(&cell.next);
        lemma_cons(slot_of(&cell.child), row_of(&cell.next));
    }
}

proof fn lemma_levels_trimmed(p: &Option<Arc<Tape>>)
    ensures
        trimmed_levels(levels_of(p)),
    decreases p,
{
    if let Some(tape) = p {
        lemma_levels_trimmed(&tape.next);
        lemma_cons_level(
            Level { left: row_of(&tape.left), right: row_of(&tape.right) },
            levels_of(&tape.next),
        );
    }
}

proof fn lemma_uncons(row: Seq<Slot>)
    requires
        trimmed(row),
    ensures
        cons(nearest(row), beyond(row)) == row,
{
    if row.len() > 0 {
        assert(seq![row[0]] + row.drop_first() =~= row);
    }
}

proof fn lemma_uncons_level(levels: Seq<Level>)
    requires
        trimmed_levels(levels),
    ensures
        cons_level(innermost(levels), outside(levels)) == levels,
{
    if levels.len() > 0 {
        assert(seq![levels[0]] + levels.drop_first() =~= levels);
    }
}

proof fn lemma_compact_row_seen(c: &Option<Arc<Cell>>)
    requires
        row_compact(c),
    ensures
        c is Some ==> row_of(c).len() > 0,
    decreases c,
{
    if let Some(cell) = c {
        if cell.next.is_some() {
            lemma_compact_row_seen(&cell.next);
        }
        let first = slot_of(&cell.child);
        let rest = row_of(&cell.next);
        assert(first is Full || rest.len() > 0);
        assert((seq![first] + rest).len() > 0);
    }
}

proof fn lemma_compact_levels_seen(p: &Option<Arc<Tape>>)
    requires
        levels_compact(p),
    ensures
        p is Some ==> levels_of(p).len() > 0,
    decreases p,
{
    if let Some(tape) = p {
        lemma_compact_row_seen(&tape.left);
        lemma_compact_row_seen(&tape.right);
        if tape.next.is_some() {
            lemma_compact_levels_seen(&tape.next);
        }
        let first = Level { left: row_of(&tape.left), right: row_of(&tape.right) };
        let rest = levels_of(&tape.next);
        assert(!first.is_blank() || rest.len() > 0);
        assert((seq![first] + rest).len() > 0);
    }
}

proof fn lemma_slot_stored_alike(a: &Option<Arc<Tape>>, b: &Option<Arc<Tape>>)
    requires
        slot_compact(a),
        slot_compact(b),
        slot_of(a) == slot_of(b),
    ensures
        a == b,
    decreases a,
{
    if let Some(ta) = a {
        let tb = b->Some_0;
        lemma_slot_stored_alike(&ta.next, &tb.next);
        lemma_row_stored_alike(&ta.left, &tb.left);
        lemma_row_stored_alike(&ta.right, &tb.right);
    }
}

proof fn lemma_row_stored_alike(a: &Option<Arc<Cell>>, b: &Option<Arc<Cell>>)
    requires
        row_compact(a),
        row_compact(b),
        row_of(a) == row_of(b),
    ensures
        a == b,
    decreases a,
{
    lemma_compact_row_seen(&a);
    lemma_compact_row_seen(&b);
    if let Some(ca) = a {
        let cb = b->Some_0;
        lemma_compact_row_seen(&ca.next);
        lemma_compact_row_seen(&cb.next);
        lemma_cons(slot_of(&ca.child), row_of(&ca.next));
        lemma_cons(slot_of(&cb.child), row_of(&cb.next));
        lemma_slot_stored_alike(&ca.child, &cb.child);
        lemma_row_stored_alike(&ca.next, &cb.next);
    }
}

proof fn lemma_levels_stored_alike(a: &Option<Arc<Tape>>, b: &Option<Arc<Tape>>)
    requires
        levels_compact(a),
        levels_compact(b),
        levels_of(a) == levels_of(b),
    ensures
        a == b,
    decreases a,
{
    lemma_compact_levels_seen(&a);
    lemma_compact_levels_seen(&b);
    if let Some(ta) = a {
        let tb = b->Some_0;
        lemma_compact_levels_seen(&ta.next);
        lemma_compact_levels_seen(&tb.next);
        lemma_cons_level(
            Level { left: row_of(&ta.left), right: row_of(&ta.right) },
            levels_of(&ta.next),
        );
        lemma_cons_level(
            Level { left: row_of(&tb.left), right: row_of(&tb.right) },
            levels_of(&tb.next),
        );
        lemma_row_stored_alike(&ta.left, &tb.left);
        lemma_row_stored_alike(&ta.right, &tb.right);
        lemma_levels_stored_alike(&ta.next, &tb.next);
    }
}

/// What a head sees is written down without empty cells at the far end of a
/// row and without blank levels at the far end of the enclosing tapes.
pub proof fn view_is_trimmed(h: &Head)
    ensures
        h@.trimmed(),
{
    lemma_row_trimmed(&h.left);
    lemma_row_trimmed(&h.right);
    lemma_levels_trimmed(&h.parent);
}

/// A step to the left and a step back to the right lead to where the head
/// was.
pub proof fn left_then_right(h: &Head)
    ensures
        h@.move_left().move_right() == h@,
{
    view_is_trimmed(h);
    lemma_uncons(h@.left);
    lemma_cons(h@.child, h@.right);
}

/// A step to the right and a step back to the left lead to where the head
/// was.
pub proof fn right_then_left(h: &Head)
    ensures
        h@.move_right().move_left() == h@,
{
    view_is_trimmed(h);
    lemma_uncons(h@.right);
    lemma_cons(h@.child, h@.left);
}

/// Going up and coming down again leads to where the head was.
pub proof fn exit_then_enter(h: &Head)
    ensures
        h@.exit().enter() == h@,
{
    view_is_trimmed(h);
    lemma_uncons_level(h@.parent);
}

/// Going down into a cell that holds a tape and coming up again leads to
/// where the head was. From an empty cell the way down and up leaves a tape
/// of empty cells in the cell, so the law does not hold there.
pub proof fn enter_then_exit(h: &Head)
    requires
        h@.has_child(),
    ensures
        h@.enter().exit() == h@,
{
    lemma_cons_level(Level { left: h@.left, right: h@.right }, h@.parent);
    assert(h@.enter().exit().child =~~= h@.child);
}

/// Going down into an empty cell and coming up again fills the cell.
pub proof fn enter_then_exit_fills(h: &Head)
    requires
        !h@.has_child(),
    ensures
        h@.enter().exit() == (HeadView { child: Slot::Full(Box::new(TapeView::blank())), ..h@ }),
{
    lemma_cons_level(Level { left: h@.left, right: h@.right }, h@.parent);
}

/// An emptied cell holds no tape.
pub proof fn nulled_has_no_child(h: &Head)
    ensures
        !h@.null_child().has_child(),
{
}

/// Emptying a cell twice is emptying it once.
pub proof fn null_child_twice(h: &Head)
    ensures
        h@.null_child().null_child() == h@.null_child(),
{
}

/// Two compact heads that see the same universe are stored alike.
pub proof fn compact_heads_alike(a: &Head, b: &Head)
    requires
        a.compact(),
        b.compact(),
        a@ == b@,
    ensures
        a == b,
{
    lemma_slot_stored_alike(&a.child, &b.child);
    lemma_row_stored_alike(&a.left, &b.left);
    lemma_row_stored_alike(&a.right, &b.right);
    lemma_levels_stored_alike(&a.parent, &b.parent);
}

/// A compact head in a universe of empty cells holds no node, however it
/// came there.
pub proof fn compact_blank_is_bare(h: &Head)
    requires
        h.compact(),
        h@ == HeadView::blank(),
    ensures
        h.bare(),
{
    lemma_compact_row_seen(&h.left);
    lemma_compact_row_seen(&h.right);
    lemma_compact_levels_seen(&h.parent);
}

} // verus!

verus! {

/// How deep the origin cells of a tape are nested: nothing for a tape with
/// an empty origin, one more than the tape in the origin otherwise.
pub open spec fn depth(tape: TapeView) -> nat
    decreases tape,
{
    match tape.origin {
        Slot::Empty => 0,
        Slot::Full(inner) => depth(*inner) + 1,
    }
}

/// The character that a cell is drawn with: `_` for an empty cell, `#` for
/// one that holds a tape. In the detailed form a tape of depth nine or less
/// is drawn with its depth.
pub open spec fn glyph(slot: Slot, detailed: bool) -> char {
    match slot {
        Slot::Empty => '_',
        Slot::Full(tape) => if detailed && depth(*tape) <= 9 {
            (48 + depth(*tape)) as char
        } else {
            '#'
        },
    }
}

/// The glyphs of a row of cells.
pub open spec fn glyphs(row: Seq<Slot>, detailed: bool) -> Seq<char> {
    Seq::new(row.len(), |k: int| glyph(row[k], detailed))
}

/// The characters with a blank before and behind each.
pub open spec fn spaced(chars: Seq<char>) -> Seq<char>
    decreases chars.len(),
{
    if chars.len() == 0 {
        Seq::empty()
    } else {
        spaced(chars.drop_last()) + seq![' ', chars.last(), ' ']
    }
}

impl HeadView {
    /// The tape that the head is on, drawn on one line: its cells from the
    /// farthest that holds a tape on the left to the farthest on the right,
    /// the focused cell in square brackets.
    pub open spec fn drawn(self, detailed: bool) -> Seq<char> {
        spaced(glyphs(self.left, detailed).reverse()) + seq!['[', glyph(self.child, detailed), ']']
            + spaced(glyphs(self.right, detailed))
    }
}

proof fn lemma_compact_row(c: &Option<Arc<Cell>>)
    requires
        row_compact(c),
        c is Some,
    ensures
        row_of(c) == seq![slot_of(&c->Some_0.child)] + row_of(&c->Some_0.next),
{
    let cell = c->Some_0;
    lemma_compact_row_seen(&cell.next);
}

/// The glyph of a cell, as a byte.
fn fmt_cell_depth(child: &Option<Arc<Tape>>, detailed: bool) -> (r: u8)
    ensures
        r < 128,
        r as char == glyph(slot_of(child), detailed),
{
    match child {
        None => 0x5f,
        Some(tape) => {
            if detailed {
                let depth = tape.get_depth();
                if depth > 9 {
                    0x23
                } else {
                    0x30 + depth
                }
            } else {
                0x23
            }
        },
    }
}

impl Tape {
    /// The depth of the tape, as far as ten.
    fn get_depth(&self) -> (r: u8)
        ensures
            r <= 10,
            r as nat == if depth(tape_of(self)) <= 10 {
                depth(tape_of(self))
            } else {
                10
            },
    {
        let mut count: u8 = 0;
        let mut tape: &Tape = self;
        loop
            invariant
                count <= 10,
                depth(tape_of(self)) == count + depth(tape_of(tape)),
            decreases 10 - count,
        {
            if count >= 10 {
                return 10;
            }
            match &tape.next {
                None => {
                    return count;
                },
                Some(next) => {
                    tape = &**next;
                    count = count + 1;
                },
            }
        }
    }
}

/// The glyphs of a row, nearest cell first.
fn row_glyphs(row: &Option<Arc<Cell>>, detailed: bool) -> (r: Vec<u8>)
    requires
        row_compact(row),
    ensures
        ascii(r@) == glyphs(row_of(row), detailed),
        forall|k: int| 0 <= k < r@.len() ==> #[trigger] r@[k] < 128,
{
    let mut out: Vec<u8> = Vec::new();
    let mut rest = row;
    assert(ascii(out@) + glyphs(row_of(rest), detailed) =~= glyphs(row_of(row), detailed));
    loop
        invariant
            row_compact(rest),
            ascii(out@) + glyphs(row_of(rest), detailed) == glyphs(row_of(row), detailed),
            forall|k: int| 0 <= k < out@.len() ==> #[trigger] out@[k] < 128,
        decreases rest,
    {
        match rest {
            None => {
                assert(ascii(out@) + glyphs(row_of(rest), detailed) =~= ascii(out@));
                return out;
            },
            Some(cell) => {
                proof {
                    lemma_compact_row(rest);
                }
                let ghost before = out@;
                let ghost seen = row_of(rest);
                out.push(fmt_cell_depth(&cell.child, detailed));
                rest = &cell.next;
                assert(ascii(out@) + glyphs(row_of(rest), detailed) =~= ascii(before) + glyphs(
                    seen,
                    detailed,
                )) by {
                    assert(seen.drop_first() =~= row_of(rest));
                    assert(glyphs(seen, detailed) =~= seq![glyph(seen[0], detailed)] + glyphs(
                        seen.drop_first(),
                        detailed,
                    ));
                }
            },
        }
    }
}

impl Head {
    /// Draws the tape that the head is on. The detailed form tells how deep
    /// the tape in a cell is nested, as far as nine.
    pub fn render(&self, detailed: bool) -> (r: String)
        ensures
            r@ == self@.drawn(detailed),
    {
        proof {
            use_type_invariant(self);
        }
        let left = row_glyphs(&self.left, detailed);
        let right = row_glyphs(&self.right, detailed);
        let mut out: Vec<u8> = Vec::new();
        let ghost far_first = glyphs(self@.left, detailed).reverse();
        let mut i = left.len();
        assert(ascii(out@) =~= spaced(far_first.subrange(0, 0)));
        while i > 0
            invariant
                i <= left@.len(),
                far_first == ascii(left@).reverse(),
                ascii(out@) == spaced(far_first.subrange(0, left@.len() - i)),
                forall|k: int| 0 <= k < left@.len() ==> #[trigger] left@[k] < 128,
                forall|k: int| 0 <= k < out@.len() ==> #[trigger] out@[k] < 128,
            decreases i,
        {
            i = i - 1;
            let ghost before = out@;
            let ghost done = far_first.subrange(0, left@.len() - i - 1);
            let ghost more = far_first.subrange(0, left@.len() - i);
            out.push(0x20);
            out.push(left[i]);
            out.push(0x20);
            assert(more.drop_last() =~= done);
            assert(more.last() == left@[i as int] as char);
            assert(ascii(out@) =~= ascii(before) + seq![' ', left@[i as int] as char, ' ']);
        }
        assert(far_first.subrange(0, left@.len() as int) =~= far_first);
        let ghost left_done = out@;
        out.push(0x5b);
        out.push(fmt_cell_depth(&self.child, detailed));
        out.push(0x5d);
        let ghost middle = out@;
        assert(ascii(middle) =~= spaced(far_first) + seq![
            '[',
            glyph(self@.child, detailed),
            ']',
        ]);
        let ghost near_first = glyphs(self@.right, detailed);
        let mut j: usize = 0;
        assert(near_first.subrange(0, 0) =~= Seq::<char>::empty());
        assert(ascii(out@) =~= ascii(middle) + spaced(near_first.subrange(0, 0)));
        while j < right.len()
            invariant
                j <= right@.len(),
                near_first == ascii(right@),
                ascii(out@) == ascii(middle) + spaced(near_first.subrange(0, j as int)),
                forall|k: int| 0 <= k < right@.len() ==> #[trigger] right@[k] < 128,
                forall|k: int| 0 <= k < out@.len() ==> #[trigger] out@[k] < 128,
            decreases right@.len() - j,
        {
            let ghost before = out@;
            let ghost done = near_first.subrange(0, j as int);
            let ghost more = near_first.subrange(0, j + 1);
            out.push(0x20);
            out.push(right[j]);
            out.push(0x20);
            assert(more.drop_last() =~= done);
            assert(more.last() == right@[j as int] as char);
            assert(ascii(out@) =~= ascii(before) + seq![' ', right@[j as int] as char, ' ']);
            j = j + 1;
        }
        assert(near_first.subrange(0, right@.len() as int) =~= near_first);
        ascii_string(out)
    }
}

} // verus!
