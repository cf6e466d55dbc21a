//! What holds of the machine over one step and over many.

use crate::program::{lands, linked, Body, Op, ProgramView};
use crate::runtime::io::{bits_on_read, bits_on_write};
use crate::runtime::{silent, ExecDebugInfo, FrameView, RuntimeError, RuntimeView};
use crate::tape::HeadView;
use vstd::prelude::*;

verus! {

/// Whether a body, with the bodies of its blocks and forks, is free of
/// instructions that draw a bit or read one.
pub open spec fn asks_nothing(body: Body) -> bool
    decreases body,
{
    forall|i: int|
        0 <= i < body.len() ==> match (#[trigger] body[i]).1 {
            Op::Random | Op::Input => false,
            Op::Block(inner) | Op::Fork(inner) => asks_nothing(inner),
            _ => true,
        }
}

impl RuntimeView {
    /// Whether nothing that the machine can come to execute draws a bit or
    /// reads one.
    pub open spec fn asks_nothing(self) -> bool {
        &&& asks_nothing(self.body)
        &&& forall|k: int| 0 <= k < self.stack.len() ==> asks_nothing((#[trigger] self.stack[k]).body)
        &&& forall|name: Seq<char>| #[trigger]
            self.program.subroutines.contains_key(name) ==> asks_nothing(
                self.program.subroutines[name],
            )
    }

    /// The machine after `n` steps, the step of index `k` drawing the bit
    /// `chance(k)` and being answered `source(k)` by the byte source. A step
    /// that fails counts as a step.
    pub open spec fn after(
        self,
        n: nat,
        chance: spec_fn(nat) -> bool,
        source: spec_fn(nat) -> Option<u8>,
    ) -> RuntimeView
        decreases n,
    {
        if n == 0 {
            self
        } else {
            let k = (n - 1) as nat;
            self.after(k, chance, source).step(chance(k), source(k)).0
        }
    }

    /// What the step of index `k` reports.
    pub open spec fn report(
        self,
        k: nat,
        chance: spec_fn(nat) -> bool,
        source: spec_fn(nat) -> Option<u8>,
    ) -> Result<ExecDebugInfo, RuntimeError> {
        self.after(k, chance, source).step(chance(k), source(k)).1
    }
}

proof fn lemma_advance_asks_nothing(s: RuntimeView)
    requires
        s.asks_nothing(),
    ensures
        s.advance().asks_nothing(),
    decreases s.stack.len(),
{
    let next = RuntimeView { ip: s.ip + 1, ..s };
    if !(next.ip < next.body.len() || next.stack.len() == 0) {
        let back = next.resume();
        assert(asks_nothing(next.stack.last().body));
        assert forall|k: int| 0 <= k < back.stack.len() implies asks_nothing(
            (#[trigger] back.stack[k]).body,
        ) by {
            assert(back.stack[k] == next.stack[k]);
        }
        lemma_advance_asks_nothing(back);
    }
}

proof fn lemma_call_asks_nothing(s: RuntimeView, body: Body, kept: Option<HeadView>)
    requires
        s.asks_nothing(),
        asks_nothing(body),
    ensures
        s.call(body, kept).asks_nothing(),
{
    let called = s.call(body, kept);
    assert forall|k: int| 0 <= k < called.stack.len() implies asks_nothing(
        (#[trigger] called.stack[k]).body,
    ) by {
        if k < s.stack.len() {
            assert(called.stack[k] == s.stack[k]);
        }
    }
}

/// A step of a machine that can come to execute no random and no input
/// instruction is the same whatever bit is drawn and whatever the byte
/// source answers, and it leaves such a machine.
pub proof fn step_asks_nothing(
    s: RuntimeView,
    chance: bool,
    source: Option<u8>,
    other_chance: bool,
    other_source: Option<u8>,
)
    requires
        s.asks_nothing(),
    ensures
        s.step(chance, source) == s.step(other_chance, other_source),
        s.step(chance, source).0.asks_nothing(),
{
    match s.current() {
        None => {},
        Some(op) => {
            assert(op == s.body[s.ip as int].1);
            match op {
                Op::Nop | Op::EndIf | Op::Loop | Op::Halt => {
                    lemma_advance_asks_nothing(s);
                },
                Op::Left => {
                    lemma_advance_asks_nothing(RuntimeView { head: s.head.move_left(), ..s });
                },
                Op::Right => {
                    lemma_advance_asks_nothing(RuntimeView { head: s.head.move_right(), ..s });
                },
                Op::Enter => {
                    lemma_advance_asks_nothing(RuntimeView { head: s.head.enter(), ..s });
                },
                Op::Exit => {
                    lemma_advance_asks_nothing(RuntimeView { head: s.head.exit(), ..s });
                },
                Op::Null => {
                    lemma_advance_asks_nothing(RuntimeView { head: s.head.null_child(), ..s });
                },
                Op::If(target) => {
                    lemma_advance_asks_nothing(s);
                    lemma_advance_asks_nothing(RuntimeView { ip: target, ..s });
                },
                Op::Else(target) | Op::EndLoop(target) => {
                    lemma_advance_asks_nothing(RuntimeView { ip: target, ..s });
                },
                Op::Block(body) => {
                    lemma_call_asks_nothing(s, body, None);
                },
                Op::Call(name) => {
                    if s.program.subroutines.contains_key(name) {
                        lemma_call_asks_nothing(s, s.program.subroutines[name], None);
                    }
                },
                Op::Fork(body) => {
                    lemma_call_asks_nothing(s, body, Some(s.head));
                },
                Op::Random | Op::Input => {},
                Op::Output => {
                    let written = bits_on_write(s.output, s.head.has_child());
                    lemma_advance_asks_nothing(RuntimeView { output: written.1, ..s });
                },
            }
        },
    }
}

/// Two runs of a machine that can come to execute no random and no input
/// instruction go through the same states and report the same, step for
/// step, whatever bits are drawn and whatever the byte source answers.
pub proof fn runs_agree(
    s: RuntimeView,
    n: nat,
    chance: spec_fn(nat) -> bool,
    source: spec_fn(nat) -> Option<u8>,
    other_chance: spec_fn(nat) -> bool,
    other_source: spec_fn(nat) -> Option<u8>,
)
    requires
        s.asks_nothing(),
    ensures
        s.after(n, chance, source) == s.after(n, other_chance, other_source),
        s.after(n, chance, source).asks_nothing(),
        s.report(n, chance, source) == s.report(n, other_chance, other_source),
    decreases n,
{
    if n > 0 {
        let k = (n - 1) as nat;
        runs_agree(s, k, chance, source, other_chance, other_source);
        step_asks_nothing(
            s.after(k, chance, source),
            chance(k),
            source(k),
            other_chance(k),
            other_source(k),
        );
    }
    step_asks_nothing(
        s.after(n, chance, source),
        chance(n),
        source(n),
        other_chance(n),
        other_source(n),
    );
}

/// The bit that is drawn matters to a random instruction only, and the
/// answer of the byte source to an input instruction only, and to that only
/// where no bit is pending.
pub proof fn step_asks_where_it_must(
    s: RuntimeView,
    chance: bool,
    source: Option<u8>,
    other_chance: bool,
    other_source: Option<u8>,
)
    ensures
        s.current() != Some(Op::Random) ==> s.step(chance, source) == s.step(other_chance, source),
        s.current() != Some(Op::Input) || s.input.len() > 0 ==> s.step(chance, source) == s.step(
            chance,
            other_source,
        ),
{
}

/// A fork starts its body on the head as it is, and keeps the head, with
/// the body and the place to come back to, on top of the stack.
pub proof fn fork_keeps_the_head(s: RuntimeView, body: Body, chance: bool, source: Option<u8>)
    requires
        s.current() == Some(Op::Fork(body)),
    ensures
        s.step(chance, source).1 == Ok::<ExecDebugInfo, RuntimeError>(silent()),
        s.step(chance, source).0.head == s.head,
        s.step(chance, source).0.body == body,
        s.step(chance, source).0.ip == 0,
        s.step(chance, source).0.stack == s.stack.push(
            FrameView { body: s.body, ip: s.ip, head: Some(s.head) },
        ),
{
}

/// Coming back from the body of a fork, the head is the one that the fork
/// started from, except that the focused cell holds what the cell under the
/// head holds on which the body ended.
pub proof fn fork_gives_back_the_child(s: RuntimeView, kept: HeadView)
    requires
        s.stack.len() > 0,
        s.stack.last().head == Some(kept),
    ensures
        s.resume().head == (HeadView { child: s.head.child, ..kept }),
        s.resume().body == s.stack.last().body,
        s.resume().ip == s.stack.last().ip,
        s.resume().stack == s.stack.drop_last(),
{
}

proof fn lemma_advance_pops(s: RuntimeView)
    ensures
        s.advance().stack.len() <= s.stack.len(),
        forall|k: int| 0 <= k < s.advance().stack.len() ==> s.advance().stack[k] == s.stack[k],
    decreases s.stack.len(),
{
    let next = RuntimeView { ip: s.ip + 1, ..s };
    if !(next.ip < next.body.len() || next.stack.len() == 0) {
        let back = next.resume();
        lemma_advance_pops(back);
        assert forall|k: int| 0 <= k < s.advance().stack.len() implies s.advance().stack[k]
            == s.stack[k] by {
            assert(back.stack[k] == s.stack[k]);
        }
    }
}

/// The three ways in which a step goes on: it fails and leaves the machine
/// as it is; it starts a body; or it works on the head, the pointer and the
/// buffers, which gives `worked`, and goes on to the next instruction.
spec fn step_goes(s: RuntimeView, after: RuntimeView, worked: RuntimeView) -> bool {
    ||| after == s
    ||| exists|body: Body, kept: Option<HeadView>| after == #[trigger] s.call(body, kept)
    ||| worked.stack == s.stack && worked.body == s.body && after == worked.advance()
}

spec fn worked_on(s: RuntimeView, chance: bool, source: Option<u8>) -> RuntimeView {
    match s.current() {
        Some(Op::Left) => RuntimeView { head: s.head.move_left(), ..s },
        Some(Op::Right) => RuntimeView { head: s.head.move_right(), ..s },
        Some(Op::Enter) => RuntimeView { head: s.head.enter(), ..s },
        Some(Op::Exit) => RuntimeView { head: s.head.exit(), ..s },
        Some(Op::Null) => RuntimeView { head: s.head.null_child(), ..s },
        Some(Op::If(target)) => if s.head.has_child() {
            s
        } else {
            RuntimeView { ip: target, ..s }
        },
        Some(Op::Else(target)) | Some(Op::EndLoop(target)) => RuntimeView { ip: target, ..s },
        Some(Op::Random) => RuntimeView {
            head: if chance {
                s.head
            } else {
                s.head.null_child()
            },
            ..s
        },
        Some(Op::Input) => {
            let bits = bits_on_read(s.input, source);
            RuntimeView {
                head: if bits[0] {
                    s.head
                } else {
                    s.head.null_child()
                },
                input: bits.drop_first(),
                ..s
            }
        },
        Some(Op::Output) => RuntimeView {
            output: bits_on_write(s.output, s.head.has_child()).1,
            ..s
        },
        _ => s,
    }
}

proof fn lemma_step_goes(s: RuntimeView, chance: bool, source: Option<u8>)
    ensures
        step_goes(s, s.step(chance, source).0, worked_on(s, chance, source)),
{
    match s.current() {
        Some(Op::Block(body)) => {
            assert(s.step(chance, source).0 == s.call(body, None));
        },
        Some(Op::Fork(body)) => {
            assert(s.step(chance, source).0 == s.call(body, Some(s.head)));
        },
        Some(Op::Call(name)) => {
            if s.program.subroutines.contains_key(name) {
                assert(s.step(chance, source).0 == s.call(s.program.subroutines[name], None));
            }
        },
        _ => {},
    }
}

/// A step leaves the suspended bodies as they are: it takes some off the
/// top of the stack or puts one on top, and changes none below. So what a
/// fork has kept stays until the machine comes back to it.
pub proof fn step_keeps_what_is_suspended(s: RuntimeView, chance: bool, source: Option<u8>)
    ensures
        forall|k: int|
            0 <= k < s.stack.len() && k < s.step(chance, source).0.stack.len() ==> s.step(
                chance,
                source,
            ).0.stack[k] == s.stack[k],
        s.step(chance, source).0.stack.len() <= s.stack.len() + 1,
{
    lemma_step_goes(s, chance, source);
    lemma_advance_pops(worked_on(s, chance, source));
}

/// While the body of a fork runs, the stack holds what the fork has kept:
/// the head that the fork started from, the body that it stands in and its
/// place in that body. Below that, the stack is as it was.
pub proof fn fork_is_kept_while_its_body_runs(
    s: RuntimeView,
    body: Body,
    n: nat,
    chance: spec_fn(nat) -> bool,
    source: spec_fn(nat) -> Option<u8>,
)
    requires
        s.current() == Some(Op::Fork(body)),
        n >= 1,
        forall|k: nat| 1 <= k <= n ==> (#[trigger] s.after(k, chance, source)).stack.len()
            > s.stack.len(),
    ensures
        s.after(n, chance, source).stack[s.stack.len() as int] == (FrameView {
            body: s.body,
            ip: s.ip,
            head: Some(s.head),
        }),
        forall|i: int|
            0 <= i < s.stack.len() ==> s.after(n, chance, source).stack[i] == s.stack[i],
    decreases n,
{
    if n == 1 {
        assert(s.after(0, chance, source) == s);
        assert(s.after(1, chance, source) == s.step(chance(0), source(0)).0);
    } else {
        let before = s.after((n - 1) as nat, chance, source);
        assert(before.stack.len() > s.stack.len());
        fork_is_kept_while_its_body_runs(s, body, (n - 1) as nat, chance, source);
        step_keeps_what_is_suspended(before, chance((n - 1) as nat), source((n - 1) as nat));
        assert(s.after(n, chance, source).stack.len() > s.stack.len());
    }
}

proof fn lemma_advance_comes_back(s: RuntimeView, depth: nat, frame: FrameView)
    requires
        depth < s.stack.len(),
        s.stack[depth as int] == frame,
        s.advance().stack.len() == depth,
    ensures
        s.advance().body == frame.body,
        s.advance().ip == frame.ip + 1,
        frame.head matches Some(kept) ==> s.advance().head == (HeadView {
            child: s.advance().head.child,
            ..kept
        }),
    decreases s.stack.len(),
{
    let next = RuntimeView { ip: s.ip + 1, ..s };
    let back = next.resume();
    assert(s.advance() == back.advance());
    lemma_advance_pops(back);
    if s.stack.len() == depth + 1 {
        let last = RuntimeView { ip: back.ip + 1, ..back };
        if !(last.ip < last.body.len() || last.stack.len() == 0) {
            lemma_advance_pops(last.resume());
        }
    } else {
        assert(back.stack[depth as int] == s.stack[depth as int]);
        lemma_advance_comes_back(back, depth, frame);
    }
}

/// When the machine comes back from the body of a fork to the body that the
/// fork stands in, it goes on behind the fork, and its head is the head that
/// the fork started from, but for what the focused cell holds.
pub proof fn fork_comes_back_to_its_head(
    s: RuntimeView,
    body: Body,
    n: nat,
    chance: spec_fn(nat) -> bool,
    source: spec_fn(nat) -> Option<u8>,
)
    requires
        s.current() == Some(Op::Fork(body)),
        n >= 1,
        forall|k: nat| 1 <= k <= n ==> (#[trigger] s.after(k, chance, source)).stack.len()
            > s.stack.len(),
        s.after(n + 1, chance, source).stack.len() == s.stack.len(),
    ensures
        s.after(n + 1, chance, source).head == (HeadView {
            child: s.after(n + 1, chance, source).head.child,
            ..s.head
        }),
        s.after(n + 1, chance, source).body == s.body,
        s.after(n + 1, chance, source).ip == s.ip + 1,
        s.after(n + 1, chance, source).stack == s.stack,
{
    let before = s.after(n, chance, source);
    let after = s.after(n + 1, chance, source);
    let frame = FrameView { body: s.body, ip: s.ip, head: Some(s.head) };
    fork_is_kept_while_its_body_runs(s, body, n, chance, source);
    assert(after == before.step(chance(n), source(n)).0);
    lemma_step_goes(before, chance(n), source(n));
    let worked = worked_on(before, chance(n), source(n));
    assert(after == worked.advance());
    lemma_advance_comes_back(worked, s.stack.len(), frame);
    lemma_advance_pops(worked);
    assert(after.stack =~= s.stack);
}

/// A call of a subroutine that the program has starts the body of the
/// subroutine and suspends the body that made the call, whatever is
/// suspended already and whatever body makes the call, the subroutine's own
/// too.
pub proof fn call_starts_the_subroutine(
    s: RuntimeView,
    name: Seq<char>,
    chance: bool,
    source: Option<u8>,
)
    requires
        s.current() == Some(Op::Call(name)),
        s.program.subroutines.contains_key(name),
    ensures
        s.step(chance, source).1 == Ok::<ExecDebugInfo, RuntimeError>(silent()),
        s.step(chance, source).0.body == s.program.subroutines[name],
        s.step(chance, source).0.ip == 0,
        s.step(chance, source).0.head == s.head,
        s.step(chance, source).0.stack == s.stack.push(
            FrameView { body: s.body, ip: s.ip, head: None },
        ),
{
}

impl RuntimeView {
    /// What holds of a machine that was started on a linked program, however
    /// many steps it has made: every jump of every body that it holds lands;
    /// every suspended body was suspended at one of its instructions; and
    /// the pointer is at an instruction, or at the end of the main body with
    /// nothing suspended, or in an empty body.
    pub open spec fn sound(self) -> bool {
        &&& self.holds_linked()
        &&& self.ip <= self.body.len()
        &&& self.ip < self.body.len() || self.stack.len() == 0 || self.body.len() == 0
    }

    /// Whether every jump of every body that the machine holds lands, and
    /// every suspended body was suspended at one of its instructions.
    pub open spec fn holds_linked(self) -> bool {
        &&& self.program.linked()
        &&& linked(self.body)
        &&& forall|k: int|
            0 <= k < self.stack.len() ==> linked((#[trigger] self.stack[k]).body) && self.stack[k].ip
                < self.stack[k].body.len()
    }
}

proof fn lemma_advance_sound(s: RuntimeView)
    requires
        s.ip < s.body.len(),
        s.holds_linked(),
    ensures
        s.advance().sound(),
    decreases s.stack.len(),
{
    let next = RuntimeView { ip: s.ip + 1, ..s };
    if !(next.ip < next.body.len() || next.stack.len() == 0) {
        let back = next.resume();
        assert forall|k: int| 0 <= k < back.stack.len() implies linked(
            (#[trigger] back.stack[k]).body,
        ) && back.stack[k].ip < back.stack[k].body.len() by {
            assert(back.stack[k] == s.stack[k]);
        }
        assert(linked(s.stack.last().body));
        lemma_advance_sound(back);
    }
}

/// A machine at the start of a linked program is sound.
pub proof fn start_is_sound(program: ProgramView)
    requires
        program.linked(),
    ensures
        RuntimeView::start(program).sound(),
{
}

/// A step leaves a sound machine sound.
pub proof fn step_keeps_sound(s: RuntimeView, chance: bool, source: Option<u8>)
    requires
        s.sound(),
    ensures
        s.step(chance, source).0.sound(),
{
    match s.current() {
        None => {},
        Some(op) => {
            assert(op == s.body[s.ip as int].1);
            assert(lands(s.body, s.ip as int));
            match op {
                Op::Block(body) | Op::Fork(body) => {
                    let called = s.step(chance, source).0;
                    assert forall|k: int| 0 <= k < called.stack.len() implies linked(
                        (#[trigger] called.stack[k]).body,
                    ) && called.stack[k].ip < called.stack[k].body.len() by {
                        if k < s.stack.len() {
                            assert(called.stack[k] == s.stack[k]);
                        }
                    }
                },
                Op::Call(name) => {
                    let called = s.step(chance, source).0;
                    if s.program.subroutines.contains_key(name) {
                        assert forall|k: int| 0 <= k < called.stack.len() implies linked(
                            (#[trigger] called.stack[k]).body,
                        ) && called.stack[k].ip < called.stack[k].body.len() by {
                            if k < s.stack.len() {
                                assert(called.stack[k] == s.stack[k]);
                            }
                        }
                    }
                },
                _ => {
                    lemma_step_goes(s, chance, source);
                    lemma_advance_sound(worked_on(s, chance, source));
                },
            }
        },
    }
}

/// A sound machine ends and fails in these ways only. It reports the end of
/// the program where, and only where, the pointer is at the end of the main
/// body and nothing is suspended. It reports the pointer out of bounds
/// where, and only where, it has entered an empty body. All else is in the
/// hands of the program: a halt instruction, and a call of a subroutine that
/// the program does not have.
pub proof fn sound_machine_fails_by_the_program(s: RuntimeView, chance: bool, source: Option<u8>)
    requires
        s.sound(),
    ensures
        s.step(chance, source).1 == Err::<ExecDebugInfo, RuntimeError>(RuntimeError::EndOfProgram)
            <==> s.ip == s.body.len() && s.stack.len() == 0,
        s.step(chance, source).1 == Err::<ExecDebugInfo, RuntimeError>(
            RuntimeError::InstructionPointerOutOfBounds,
        ) <==> s.body.len() == 0 && s.stack.len() > 0,
        s.step(chance, source).1 == Err::<ExecDebugInfo, RuntimeError>(RuntimeError::Halt)
            <==> s.current() == Some(Op::Halt),
        s.step(chance, source).1 == Err::<ExecDebugInfo, RuntimeError>(
            RuntimeError::SubroutineNotFound,
        ) <==> exists|name: Seq<char>|
            s.current() == Some(Op::Call(name)) && !s.program.subroutines.contains_key(name),
{
    match s.current() {
        Some(Op::Call(name)) => {
            if !s.program.subroutines.contains_key(name) {
                assert(s.current() == Some(Op::Call(name))
                    && !s.program.subroutines.contains_key(name));
            }
        },
        _ => {},
    }
}

} // verus!
