//! The linker: gives every jump of a body the index that it leads to.
//!
//! Conditionals and loops are bracketed independently of each other. An `if`
//! is closed by the next `else` or `endif` that is not taken by a later
//! opener; an `else` closes and opens at once. A `loop` is closed by its
//! `endloop`. The jump of an `if` or `else` leads to its closer, the jump of
//! an `endloop` leads back to its `loop`.

use crate::parser::{error_at, ParseError, ParseErrorKind};
use crate::program::{body_of, lands, op_of, Body, Instruction, InstructionSeq, Op};
use vstd::prelude::*;

verus! {

/// Whether the instruction closes a conditional.
pub open spec fn closes_if(op: Op) -> bool {
    op is Else || op is EndIf
}

/// Whether the instruction opens a conditional.
pub open spec fn opens_if(op: Op) -> bool {
    op is If || op is Else
}

/// The same instruction with another place to jump to.
pub open spec fn with_target(op: Op, target: nat) -> Op {
    match op {
        Op::If(_) => Op::If(target),
        Op::Else(_) => Op::Else(target),
        Op::EndLoop(_) => Op::EndLoop(target),
        _ => op,
    }
}

/// The conditionals that are open after the first `n` instructions of a
/// body, outermost first, each by the index of its `if` or `else`. A closer
/// that finds none open is passed over.
pub open spec fn open_ifs(body: Body, n: nat) -> Seq<nat>
    decreases n,
{
    if n == 0 {
        Seq::empty()
    } else {
        let at = (n - 1) as nat;
        let before = open_ifs(body, at);
        match body[at as int].1 {
            Op::If(_) => before.push(at),
            Op::Else(_) => if before.len() > 0 {
                before.drop_last().push(at)
            } else {
                before
            },
            Op::EndIf => if before.len() > 0 {
                before.drop_last()
            } else {
                before
            },
            _ => before,
        }
    }
}

/// Whether the instruction at `i` closes a conditional where none is open.
pub open spec fn stray_closer(body: Body, i: int) -> bool {
    &&& 0 <= i < body.len()
    &&& closes_if(body[i].1)
    &&& open_ifs(body, i as nat).len() == 0
}

/// The index of the first stray closer at or after `from`; the length of the
/// body where there is none.
pub open spec fn first_stray_closer(body: Body, from: nat) -> nat
    decreases body.len() - from,
{
    if from >= body.len() {
        body.len()
    } else if stray_closer(body, from as int) {
        from
    } else {
        first_stray_closer(body, from + 1)
    }
}

/// The body after the closers among its first `n` instructions have each
/// given their index to the conditional they close.
pub open spec fn link_ifs(body: Body, n: nat) -> Body
    decreases n,
{
    if n == 0 {
        body
    } else {
        let at = (n - 1) as nat;
        let linked = link_ifs(body, at);
        let open = open_ifs(body, at);
        if closes_if(body[at as int].1) && open.len() > 0 {
            let opener = open.last() as int;
            linked.update(opener, (linked[opener].0, with_target(linked[opener].1, at)))
        } else {
            linked
        }
    }
}

/// What linking the conditionals of a body comes to: the body as it is left,
/// and the error, if the conditionals are not balanced. The first closer
/// without an opener is an error, and nothing behind it is looked at; so is,
/// at the end, the opener that was opened last and not closed.
pub open spec fn ifs_resolved(body: Body) -> (Body, Option<ParseError>) {
    let stop = first_stray_closer(body, 0);
    let open = open_ifs(body, body.len());
    (
        link_ifs(body, stop),
        if stop < body.len() {
            Some(error_at(ParseErrorKind::UnmatchedElseOrEndIf, body[stop as int].0))
        } else if open.len() > 0 {
            Some(error_at(ParseErrorKind::UnmatchedIf, body[open.last() as int].0))
        } else {
            None
        },
    )
}

/// The loops that are open after the first `n` instructions of a body,
/// outermost first, each by the index of its `loop`. An `endloop` that finds
/// none open is passed over.
pub open spec fn open_loops(body: Body, n: nat) -> Seq<nat>
    decreases n,
{
    if n == 0 {
        Seq::empty()
    } else {
        let at = (n - 1) as nat;
        let before = open_loops(body, at);
        match body[at as int].1 {
            Op::Loop => before.push(at),
            Op::EndLoop(_) => if before.len() > 0 {
                before.drop_last()
            } else {
                before
            },
            _ => before,
        }
    }
}

/// Whether the instruction at `i` ends a loop where none is open.
pub open spec fn stray_end(body: Body, i: int) -> bool {
    &&& 0 <= i < body.len()
    &&& body[i].1 is EndLoop
    &&& open_loops(body, i as nat).len() == 0
}

/// The index of the first stray `endloop` at or after `from`; the length of
/// the body where there is none.
pub open spec fn first_stray_end(body: Body, from: nat) -> nat
    decreases body.len() - from,
{
    if from >= body.len() {
        body.len()
    } else if stray_end(body, from as int) {
        from
    } else {
        first_stray_end(body, from + 1)
    }
}

/// The body after each `endloop` among its first `n` instructions has been
/// given the index of the `loop` that it ends.
pub open spec fn link_loops(body: Body, n: nat) -> Body
    decreases n,
{
    if n == 0 {
        body
    } else {
        let at = (n - 1) as nat;
        let linked = link_loops(body, at);
        let open = open_loops(body, at);
        if body[at as int].1 is EndLoop && open.len() > 0 {
            linked.update(at as int, (linked[at as int].0, Op::EndLoop(open.last())))
        } else {
            linked
        }
    }
}

/// What linking the loops of a body comes to: the body as it is left, and
/// the error, if the loops are not balanced. The first `endloop` without a
/// `loop` is an error, and nothing behind it is looked at; so is, at the
/// end, the `loop` that was opened last and not ended.
pub open spec fn loops_resolved(body: Body) -> (Body, Option<ParseError>) {
    let stop = first_stray_end(body, 0);
    let open = open_loops(body, body.len());
    (
        link_loops(body, stop),
        if stop < body.len() {
            Some(error_at(ParseErrorKind::UnmatchedEndLoop, body[stop as int].0))
        } else if open.len() > 0 {
            Some(error_at(ParseErrorKind::UnmatchedLoop, body[open.last() as int].0))
        } else {
            None
        },
    )
}

/// What linking a body comes to: first its conditionals, then, if they are
/// balanced, its loops.
pub open spec fn jumps_resolved(body: Body) -> (Body, Option<ParseError>) {
    let (with_ifs, failed) = ifs_resolved(body);
    if failed is Some {
        (with_ifs, failed)
    } else {
        loops_resolved(with_ifs)
    }
}

/// Two instructions that differ at most in where they jump to.
pub open spec fn same_but_target(a: Op, b: Op) -> bool {
    match a {
        Op::If(_) => b is If,
        Op::Else(_) => b is Else,
        Op::EndLoop(_) => b is EndLoop,
        _ => a == b,
    }
}

/// Two bodies that differ at most in where their instructions jump to.
pub open spec fn same_but_targets(a: Body, b: Body) -> bool {
    &&& a.len() == b.len()
    &&& forall|i: int|
        0 <= i < a.len() ==> (#[trigger] a[i]).0 == b[i].0 && same_but_target(a[i].1, b[i].1)
}

spec fn as_nats(indices: Seq<usize>) -> Seq<nat> {
    Seq::new(indices.len(), |k: int| indices[k] as nat)
}

proof fn lemma_open_ifs_members(body: Body, n: nat)
    requires
        n <= body.len(),
    ensures
        forall|k: int|
            0 <= k < open_ifs(body, n).len() ==> (#[trigger] open_ifs(body, n)[k]) < n && opens_if(
                body[open_ifs(body, n)[k] as int].1,
            ),
    decreases n,
{
    if n > 0 {
        let at = (n - 1) as nat;
        let before = open_ifs(body, at);
        let after = open_ifs(body, n);
        lemma_open_ifs_members(body, at);
        assert forall|k: int| 0 <= k < after.len() implies (#[trigger] after[k]) < n && opens_if(
            body[after[k] as int].1,
        ) by {
            if k < before.len() && after[k] == before[k] {
            } else {
                assert(after[k] == at);
            }
        }
    }
}

proof fn lemma_link_ifs_shape(body: Body, n: nat)
    requires
        n <= body.len(),
    ensures
        same_but_targets(body, link_ifs(body, n)),
        forall|i: int|
            0 <= i < body.len() && !opens_if(body[i].1) ==> (#[trigger] link_ifs(body, n)[i])
                == body[i],
        forall|i: int| n <= i < body.len() ==> (#[trigger] link_ifs(body, n)[i]) == body[i],
    decreases n,
{
    if n > 0 {
        let at = (n - 1) as nat;
        lemma_link_ifs_shape(body, at);
        lemma_open_ifs_members(body, at);
    }
}

proof fn lemma_no_stray_before(body: Body, from: nat, upto: nat)
    requires
        from <= upto <= body.len(),
        forall|i: int| from <= i < upto ==> !stray_closer(body, i),
    ensures
        first_stray_closer(body, from) == first_stray_closer(body, upto),
    decreases upto - from,
{
    if from < upto {
        lemma_no_stray_before(body, from + 1, upto);
    }
}

/// Gives every `if` and `else` of the body the index of the `else` or
/// `endif` that closes it. Stops at the first `else` or `endif` that closes
/// nothing; reports, at the end, the `if` or `else` that was opened last and
/// not closed.
pub fn resolve_conditions(instructions: &mut InstructionSeq) -> (r: Result<(), ParseError>)
    ensures
        body_of(final(instructions)@) == ifs_resolved(body_of(old(instructions)@)).0,
        r == match ifs_resolved(body_of(old(instructions)@)).1 {
            Some(e) => Err::<(), ParseError>(e),
            None => Ok::<(), ParseError>(()),
        },
{
    let ghost body = body_of(instructions@);
    let len = instructions.len();
    let mut open: Vec<usize> = Vec::new();
    let mut idx: usize = 0;
    while idx < len
        invariant
            body == body_of(old(instructions)@),
            instructions.len() == len,
            body.len() == len,
            idx <= len,
            body_of(instructions@) == link_ifs(body, idx as nat),
            as_nats(open@) == open_ifs(body, idx as nat),
            forall|i: int| 0 <= i < idx ==> !stray_closer(body, i),
        decreases len - idx,
    {
        proof {
            lemma_link_ifs_shape(body, idx as nat);
            lemma_open_ifs_members(body, idx as nat);
        }
        let ghost before = open_ifs(body, idx as nat);
        let ghost linked = link_ifs(body, idx as nat);
        assert(linked[idx as int].1 == op_of(&instructions@[idx as int].1));
        let (closes, opens) = match &instructions[idx].1 {
            Instruction::If(_) => (false, true),
            Instruction::Else(_) => (true, true),
            Instruction::EndIf => (true, false),
            _ => (false, false),
        };
        assert(closes == closes_if(body[idx as int].1));
        assert(opens == opens_if(body[idx as int].1));
        if closes {
            match open.pop() {
                None => {
                    proof {
                        assert(before.len() == as_nats(open@).len());
                        assert(stray_closer(body, idx as int));
                        lemma_no_stray_before(body, 0, idx as nat);
                        assert(first_stray_closer(body, idx as nat) == idx);
                        assert(linked[idx as int].0 == instructions@[idx as int].0);
                    }
                    return Err(
                        ParseError {
                            kind: ParseErrorKind::UnmatchedElseOrEndIf,
                            offset: instructions[idx].0,
                            length: 1,
                        },
                    );
                },
                Some(opener) => {
                    assert(opener as nat == before.last()) by {
                        assert(as_nats(open@.push(opener)) == before);
                        assert(as_nats(open@.push(opener))[open@.len() as int] == opener as nat);
                    }
                    assert(linked[opener as int].1 == op_of(&instructions@[opener as int].1));
                    let offset = instructions[opener].0;
                    let relinked = match &instructions[opener].1 {
                        Instruction::If(_) => Instruction::If(idx),
                        _ => Instruction::Else(idx),
                    };
                    instructions.set(opener, (offset, relinked));
                    assert(body_of(instructions@) =~= link_ifs(body, (idx + 1) as nat));
                    assert(as_nats(open@) =~= before.drop_last());
                },
            }
        }
        if opens {
            open.push(idx);
        }
        assert(as_nats(open@) =~= open_ifs(body, (idx + 1) as nat));
        idx = idx + 1;
    }
    proof {
        lemma_no_stray_before(body, 0, len as nat);
        lemma_open_ifs_members(body, len as nat);
        lemma_link_ifs_shape(body, len as nat);
    }
    match open.pop() {
        Some(opener) => {
            assert(opener as nat == open_ifs(body, len as nat).last()) by {
                assert(as_nats(open@.push(opener))[open@.len() as int] == opener as nat);
            }
            Err(
                ParseError {
                    kind: ParseErrorKind::UnmatchedIf,
                    offset: instructions[opener].0,
                    length: 1,
                },
            )
        },
        None => Ok(()),
    }
}

proof fn lemma_open_loops_members(body: Body, n: nat)
    requires
        n <= body.len(),
    ensures
        forall|k: int|
            0 <= k < open_loops(body, n).len() ==> (#[trigger] open_loops(body, n)[k]) < n
                && body[open_loops(body, n)[k] as int].1 is Loop,
    decreases n,
{
    if n > 0 {
        let at = (n - 1) as nat;
        let before = open_loops(body, at);
        let after = open_loops(body, n);
        lemma_open_loops_members(body, at);
        assert forall|k: int| 0 <= k < after.len() implies (#[trigger] after[k]) < n
            && body[after[k] as int].1 is Loop by {
            if k < before.len() && after[k] == before[k] {
            } else {
                assert(after[k] == at);
            }
        }
    }
}

proof fn lemma_link_loops_shape(body: Body, n: nat)
    requires
        n <= body.len(),
    ensures
        same_but_targets(body, link_loops(body, n)),
        forall|i: int|
            0 <= i < body.len() && !(body[i].1 is EndLoop) ==> (#[trigger] link_loops(body, n)[i])
                == body[i],
        forall|i: int| n <= i < body.len() ==> (#[trigger] link_loops(body, n)[i]) == body[i],
    decreases n,
{
    if n > 0 {
        lemma_link_loops_shape(body, (n - 1) as nat);
    }
}

proof fn lemma_no_stray_end_before(body: Body, from: nat, upto: nat)
    requires
        from <= upto <= body.len(),
        forall|i: int| from <= i < upto ==> !stray_end(body, i),
    ensures
        first_stray_end(body, from) == first_stray_end(body, upto),
    decreases upto - from,
{
    if from < upto {
        lemma_no_stray_end_before(body, from + 1, upto);
    }
}

/// Gives every `endloop` of the body the index of the `loop` that it ends.
/// Stops at the first `endloop` that ends nothing; reports, at the end, the
/// `loop` that was opened last and not ended.
pub fn resolve_loops(instructions: &mut InstructionSeq) -> (r: Result<(), ParseError>)
    ensures
        body_of(final(instructions)@) == loops_resolved(body_of(old(instructions)@)).0,
        r == match loops_resolved(body_of(old(instructions)@)).1 {
            Some(e) => Err::<(), ParseError>(e),
            None => Ok::<(), ParseError>(()),
        },
{
    let ghost body = body_of(instructions@);
    let len = instructions.len();
    let mut open: Vec<usize> = Vec::new();
    let mut idx: usize = 0;
    while idx < len
        invariant
            body == body_of(old(instructions)@),
            instructions.len() == len,
            body.len() == len,
            idx <= len,
            body_of(instructions@) == link_loops(body, idx as nat),
            as_nats(open@) == open_loops(body, idx as nat),
            forall|i: int| 0 <= i < idx ==> !stray_end(body, i),
        decreases len - idx,
    {
        proof {
            lemma_link_loops_shape(body, idx as nat);
            lemma_open_loops_members(body, idx as nat);
        }
        let ghost before = open_loops(body, idx as nat);
        let ghost linked = link_loops(body, idx as nat);
        assert(linked[idx as int].1 == op_of(&instructions@[idx as int].1));
        let (ends, opens) = match &instructions[idx].1 {
            Instruction::EndLoop(_) => (true, false),
            Instruction::Loop => (false, true),
            _ => (false, false),
        };
        if ends {
            match open.pop() {
                None => {
                    proof {
                        assert(before.len() == as_nats(open@).len());
                        assert(stray_end(body, idx as int));
                        lemma_no_stray_end_before(body, 0, idx as nat);
                        assert(first_stray_end(body, idx as nat) == idx);
                        assert(linked[idx as int].0 == instructions@[idx as int].0);
                    }
                    return Err(
                        ParseError {
                            kind: ParseErrorKind::UnmatchedEndLoop,
                            offset: instructions[idx].0,
                            length: 1,
                        },
                    );
                },
                Some(opener) => {
                    assert(opener as nat == before.last()) by {
                        assert(as_nats(open@.push(opener)) == before);
                        assert(as_nats(open@.push(opener))[open@.len() as int] == opener as nat);
                    }
                    let offset = instructions[idx].0;
                    instructions.set(idx, (offset, Instruction::EndLoop(opener)));
                    assert(body_of(instructions@) =~= link_loops(body, (idx + 1) as nat));
                    assert(as_nats(open@) =~= before.drop_last());
                },
            }
        }
        if opens {
            open.push(idx);
        }
        assert(as_nats(open@) =~= open_loops(body, (idx + 1) as nat));
        idx = idx + 1;
    }
    proof {
        lemma_no_stray_end_before(body, 0, len as nat);
        lemma_open_loops_members(body, len as nat);
        lemma_link_loops_shape(body, len as nat);
    }
    match open.pop() {
        Some(opener) => {
            assert(opener as nat == open_loops(body, len as nat).last()) by {
                assert(as_nats(open@.push(opener))[open@.len() as int] == opener as nat);
            }
            Err(
                ParseError {
                    kind: ParseErrorKind::UnmatchedLoop,
                    offset: instructions[opener].0,
                    length: 1,
                },
            )
        },
        None => Ok(()),
    }
}

/// Whether the instruction at `c` closes the conditional that the
/// instruction at `j` opened.
pub open spec fn closed_by(body: Body, j: int, c: int) -> bool {
    &&& 0 <= j < c < body.len()
    &&& closes_if(body[c].1)
    &&& open_ifs(body, c as nat).len() > 0
    &&& open_ifs(body, c as nat).last() == j
}

/// Whether the instruction at `c` is an `else` that follows another `else`
/// of the same conditional.
pub open spec fn second_else(body: Body, c: int) -> bool {
    &&& 0 <= c < body.len()
    &&& body[c].1 is Else
    &&& open_ifs(body, c as nat).len() > 0
    &&& body[open_ifs(body, c as nat).last() as int].1 is Else
}

/// Where the opener at `j` stands after the first `n` instructions: still
/// open and untouched, or closed and pointing to its closer.
spec fn opener_settled(body: Body, n: nat, j: int) -> bool {
    if open_ifs(body, n).contains(j as nat) {
        link_ifs(body, n)[j] == body[j]
    } else {
        exists|c: int|
            c < n && #[trigger] closed_by(body, j, c) && link_ifs(body, n)[j] == (
                body[j].0,
                with_target(body[j].1, c as nat),
            )
    }
}

proof fn lemma_first_stray_closer(body: Body, from: nat)
    requires
        from <= body.len(),
    ensures
        from <= first_stray_closer(body, from) <= body.len(),
        first_stray_closer(body, from) < body.len() ==> stray_closer(
            body,
            first_stray_closer(body, from) as int,
        ),
        forall|i: int| from <= i < first_stray_closer(body, from) ==> !stray_closer(body, i),
    decreases body.len() - from,
{
    if from < body.len() && !stray_closer(body, from as int) {
        lemma_first_stray_closer(body, from + 1);
    }
}

proof fn lemma_first_stray_end(body: Body, from: nat)
    requires
        from <= body.len(),
    ensures
        from <= first_stray_end(body, from) <= body.len(),
        first_stray_end(body, from) < body.len() ==> stray_end(
            body,
            first_stray_end(body, from) as int,
        ),
        forall|i: int| from <= i < first_stray_end(body, from) ==> !stray_end(body, i),
    decreases body.len() - from,
{
    if from < body.len() && !stray_end(body, from as int) {
        lemma_first_stray_end(body, from + 1);
    }
}

proof fn lemma_ifs_settled(body: Body, n: nat)
    requires
        n <= body.len(),
        forall|i: int| 0 <= i < n ==> !stray_closer(body, i),
    ensures
        forall|j: int| 0 <= j < n && opens_if(body[j].1) ==> #[trigger] opener_settled(body, n, j),
        forall|a: int, b: int|
            0 <= a < b < open_ifs(body, n).len() ==> open_ifs(body, n)[a] < open_ifs(body, n)[b],
    decreases n,
{
    if n > 0 {
        let at = (n - 1) as nat;
        let before = open_ifs(body, at);
        let after = open_ifs(body, n);
        let linked_before = link_ifs(body, at);
        let linked_after = link_ifs(body, n);
        lemma_ifs_settled(body, at);
        lemma_open_ifs_members(body, at);
        lemma_open_ifs_members(body, n);
        lemma_link_ifs_shape(body, at);
        lemma_link_ifs_shape(body, n);
        let closing = closes_if(body[at as int].1) && before.len() > 0;
        assert forall|j: int| 0 <= j < n && opens_if(body[j].1) implies #[trigger] opener_settled(
            body,
            n,
            j,
        ) by {
            if j == at {
                assert(!stray_closer(body, at as int));
                assert(after == if body[at as int].1 is If {
                    before.push(at)
                } else {
                    before.drop_last().push(at)
                });
                assert(after.last() == at);
                assert(after.contains(at));
                assert(linked_after[j] == body[j]);
            } else {
                assert(opener_settled(body, at, j));
                if before.contains(j as nat) {
                    let k = choose|k: int| 0 <= k < before.len() && before[k] == j as nat;
                    if closing && before.last() == j {
                        assert(closed_by(body, j, at as int));
                        assert(!after.contains(j as nat)) by {
                            if after.contains(j as nat) {
                                let m = choose|m: int| 0 <= m < after.len() && after[m] == j as nat;
                                if m < before.len() - 1 {
                                    assert(before[m] == j as nat);
                                }
                            }
                        }
                    } else {
                        if closing {
                            assert(k < before.len() - 1);
                            assert(after[k] == j as nat);
                        } else {
                            assert(after[k] == j as nat);
                        }
                        assert(after.contains(j as nat));
                        assert(linked_after[j] == linked_before[j]);
                    }
                } else {
                    let c = choose|c: int|
                        c < at && #[trigger] closed_by(body, j, c) && linked_before[j] == (
                            body[j].0,
                            with_target(body[j].1, c as nat),
                        );
                    assert(!after.contains(j as nat)) by {
                        if after.contains(j as nat) {
                            let m = choose|m: int| 0 <= m < after.len() && after[m] == j as nat;
                            if m < before.len() && after[m] == before[m] {
                                assert(before.contains(j as nat));
                            }
                        }
                    }
                    if closing {
                        assert(before.contains(before.last()));
                    }
                    assert(linked_after[j] == linked_before[j]);
                    assert(c < n && closed_by(body, j, c));
                }
            }
        }
    }
}

proof fn lemma_loops_settled(body: Body, n: nat)
    requires
        n <= body.len(),
    ensures
        forall|i: int|
            0 <= i < n && body[i].1 is EndLoop && !stray_end(body, i) ==> (#[trigger] link_loops(
                body,
                n,
            )[i]).1 == Op::EndLoop(open_loops(body, i as nat).last()),
    decreases n,
{
    if n > 0 {
        lemma_loops_settled(body, (n - 1) as nat);
        lemma_link_loops_shape(body, (n - 1) as nat);
    }
}

proof fn lemma_shape_chain(a: Body, b: Body, c: Body)
    requires
        same_but_targets(a, b),
        same_but_targets(b, c),
    ensures
        same_but_targets(a, c),
{
    assert forall|i: int| 0 <= i < a.len() implies (#[trigger] a[i]).0 == c[i].0
        && same_but_target(a[i].1, c[i].1) by {
        assert(b[i].0 == c[i].0);
    }
}

/// In a body that was linked without an error, every jump leads to an
/// instruction of the kind it is meant for: each `if` and `else` forward to
/// the `else` or `endif` that closes it, each `endloop` back to its `loop`.
/// Nothing but the places that the jumps lead to has changed.
pub proof fn resolved_jumps_land(body: Body)
    requires
        jumps_resolved(body).1 is None,
    ensures
        same_but_targets(body, jumps_resolved(body).0),
        forall|i: int| 0 <= i < body.len() ==> lands(jumps_resolved(body).0, i),
        forall|i: int|
            0 <= i < body.len() && opens_if(body[i].1) ==> exists|c: int| #[trigger]
                closed_by(body, i, c) && jumps_resolved(body).0[i].1 == with_target(
                    body[i].1,
                    c as nat,
                ),
{
    let len = body.len();
    let with_ifs = link_ifs(body, len);
    let done = link_loops(with_ifs, len);
    lemma_link_ifs_shape(body, len);
    lemma_first_stray_closer(body, 0);
    lemma_first_stray_end(with_ifs, 0);
    assert(first_stray_closer(body, 0) == len);
    assert(open_ifs(body, len).len() == 0);
    assert(first_stray_end(with_ifs, 0) == len);
    assert(jumps_resolved(body).0 == done);
    lemma_ifs_settled(body, len);
    lemma_link_ifs_shape(body, len);
    lemma_link_loops_shape(with_ifs, len);
    lemma_loops_settled(with_ifs, len);
    lemma_shape_chain(body, with_ifs, done);
    assert forall|i: int| 0 <= i < len && opens_if(body[i].1) implies exists|c: int| #[trigger]
        closed_by(body, i, c) && done[i].1 == with_target(body[i].1, c as nat) by {
        assert(opener_settled(body, len, i));
        assert(!open_ifs(body, len).contains(i as nat));
        let c = choose|c: int|
            c < len && #[trigger] closed_by(body, i, c) && with_ifs[i] == (
                body[i].0,
                with_target(body[i].1, c as nat),
            );
        assert(with_ifs[i].0 == body[i].0);
        assert(!(with_ifs[i].1 is EndLoop));
        assert(done[i] == with_ifs[i]);
    }
    assert forall|i: int| 0 <= i < len implies lands(done, i) by {
        assert(same_but_target(body[i].1, done[i].1));
        if opens_if(body[i].1) {
            let c = choose|c: int| #[trigger]
                closed_by(body, i, c) && done[i].1 == with_target(body[i].1, c as nat);
            assert(same_but_target(body[c].1, done[c].1));
        } else if body[i].1 is EndLoop {
            assert(same_but_target(body[i].1, with_ifs[i].1));
            assert(!stray_end(with_ifs, i));
            lemma_open_loops_members(with_ifs, i as nat);
            let t = open_loops(with_ifs, i as nat).last() as int;
            assert(done[i].1 == Op::EndLoop(t as nat));
            assert(same_but_target(with_ifs[t].1, done[t].1));
        }
    }
}

/// In a body that was linked without an error and in which no conditional
/// has a second `else`, the jump of every `else` leads to an `endif`.
pub proof fn resolved_else_leads_to_endif(body: Body)
    requires
        jumps_resolved(body).1 is None,
        forall|c: int| !second_else(body, c),
    ensures
        forall|i: int|
            0 <= i < body.len() ==> match (#[trigger] jumps_resolved(body).0[i]).1 {
                Op::Else(t) => i < t < body.len() && jumps_resolved(body).0[t as int].1 is EndIf,
                _ => true,
            },
{
    resolved_jumps_land(body);
    let done = jumps_resolved(body).0;
    assert forall|i: int| 0 <= i < body.len() implies match (#[trigger] done[i]).1 {
        Op::Else(t) => i < t < body.len() && done[t as int].1 is EndIf,
        _ => true,
    } by {
        assert(same_but_target(body[i].1, done[i].1));
        if done[i].1 is Else {
            let c = choose|c: int| #[trigger]
                closed_by(body, i, c) && done[i].1 == with_target(body[i].1, c as nat);
            assert(!second_else(body, c));
            assert(same_but_target(body[c].1, done[c].1));
        }
    }
}

/// A body whose brackets are not balanced is rejected with the one-byte span
/// of the bracket that has no partner: of the first `else` or `endif`
/// without an `if`; or, where there is none, of the `if` or `else` that was
/// opened last and not closed; or, where the conditionals are balanced, of
/// the first `endloop` without a `loop`, or of the `loop` that was opened
/// last and not ended.
pub proof fn rejected_at_the_bracket(body: Body)
    requires
        jumps_resolved(body).1 is Some,
        forall|i: int| 0 <= i < body.len() ==> (#[trigger] body[i]).0 <= usize::MAX,
    ensures
        jumps_resolved(body).1->Some_0.length == 1,
        exists|i: int|
            0 <= i < body.len() && jumps_resolved(body).1->Some_0.offset == (#[trigger] body[i]).0
                && match jumps_resolved(body).1->Some_0.kind {
                ParseErrorKind::UnmatchedElseOrEndIf => stray_closer(body, i) && forall|j: int|
                    0 <= j < i ==> !stray_closer(body, j),
                ParseErrorKind::UnmatchedIf => opens_if(body[i].1) && open_ifs(
                    body,
                    body.len(),
                ).len() > 0 && open_ifs(body, body.len()).last() == i,
                ParseErrorKind::UnmatchedEndLoop => body[i].1 is EndLoop && ifs_resolved(body).1
                    is None,
                ParseErrorKind::UnmatchedLoop => body[i].1 is Loop && ifs_resolved(body).1
                    is None,
                _ => false,
            },
{
    let len = body.len();
    lemma_first_stray_closer(body, 0);
    lemma_open_ifs_members(body, len);
    let stop = first_stray_closer(body, 0);
    if stop < len {
        assert(jumps_resolved(body).1->Some_0.offset == body[stop as int].0);
    } else if open_ifs(body, len).len() > 0 {
        let i = open_ifs(body, len).last() as int;
        assert(jumps_resolved(body).1->Some_0.offset == body[i].0);
    } else {
        let with_ifs = link_ifs(body, len);
        lemma_link_ifs_shape(body, len);
        lemma_first_stray_end(with_ifs, 0);
        lemma_open_loops_members(with_ifs, len);
        let stop = first_stray_end(with_ifs, 0);
        if stop < len {
            assert(same_but_target(body[stop as int].1, with_ifs[stop as int].1));
            assert(body[stop as int].0 == with_ifs[stop as int].0);
            assert(jumps_resolved(body).1->Some_0.offset == body[stop as int].0);
        } else {
            let i = open_loops(with_ifs, len).last() as int;
            assert(same_but_target(body[i].1, with_ifs[i].1));
            assert(body[i].0 == with_ifs[i].0);
            assert(jumps_resolved(body).1->Some_0.offset == body[i].0);
        }
    }
}

/// Gives every jump of the body the index that it leads to: first the
/// conditionals, then the loops. The bodies of blocks and forks inside it
/// are not looked into.
pub fn resolve_jumps(instructions: &mut InstructionSeq) -> (r: Result<(), ParseError>)
    ensures
        body_of(final(instructions)@) == jumps_resolved(body_of(old(instructions)@)).0,
        r == match jumps_resolved(body_of(old(instructions)@)).1 {
            Some(e) => Err::<(), ParseError>(e),
            None => Ok::<(), ParseError>(()),
        },
        r is Ok ==> forall|i: int|
            0 <= i < final(instructions)@.len() ==> lands(body_of(final(instructions)@), i),
{
    proof {
        let body = body_of(instructions@);
        if jumps_resolved(body).1 is None {
            resolved_jumps_land(body);
        }
    }
    match resolve_conditions(instructions) {
        Err(e) => Err(e),
        Ok(()) => resolve_loops(instructions),
    }
}

} // verus!
