//! The execution engine: a machine that runs one instruction at a time.
//!
//! The machine owns the head, the body it is executing with a pointer into
//! it, a stack of suspended bodies, and the two bit buffers. It never reads
//! or writes a byte itself: a step is told what the byte source would answer
//! and reports the byte that it completed.

pub mod io;
pub mod runs;

use crate::parser::report::{pest_line_col, position_line_col};
use crate::program::{
    body_of, lands, linked, op_of, share, Body, Instruction, InstructionBlock, Op, Program,
    ProgramView,
};
use crate::runtime::io::{bits_on_read, bits_on_write, StdInBitBuffer, StdOutBitBuffer};
use crate::runtime::runs::step_keeps_sound;
use crate::tape::{Head, HeadView};
use rand::RngCore;
use vstd::prelude::*;

verus! {

/// What a successful step reports: the bit that it tested, drew, read or
/// wrote, if it did, and the byte that it completed, if it did.
#[derive(Debug, Clone, Copy, PartialEq, Eq)]
pub struct ExecDebugInfo {
    pub bit: Option<bool>,
    pub output: Option<u8>,
}

/// Why a step did not succeed.
#[derive(Debug, Clone, Copy, PartialEq, Eq)]
pub enum RuntimeError {
    /// Nothing is left to execute.
    EndOfProgram,
    /// The instruction pointer is outside the body while bodies are
    /// suspended: an empty block was entered.
    InstructionPointerOutOfBounds,
    /// A call names a subroutine that the program does not have.
    SubroutineNotFound,
    /// A halt instruction was executed. The machine can go on.
    Halt,
}

/// A suspended body: where to go on once the body above it has ended. A
/// fork also keeps the head it started from.
#[verifier::ext_equal]
pub struct FrameView {
    pub body: Body,
    pub ip: nat,
    pub head: Option<HeadView>,
}

/// The machine as a mathematical value.
#[verifier::ext_equal]
pub struct RuntimeView {
    pub program: ProgramView,
    pub head: HeadView,
    pub body: Body,
    pub ip: nat,
    pub stack: Seq<FrameView>,
    pub input: Seq<bool>,
    pub output: Seq<bool>,
}

/// The report of a step that has no bit and no byte to tell of.
pub open spec fn silent() -> ExecDebugInfo {
    ExecDebugInfo { bit: None, output: None }
}

/// The report of a step that dealt with `bit`.
pub open spec fn told(bit: bool) -> ExecDebugInfo {
    ExecDebugInfo { bit: Some(bit), output: None }
}

impl RuntimeView {
    /// The machine at the start of a program.
    pub open spec fn start(program: ProgramView) -> RuntimeView {
        RuntimeView {
            program,
            head: HeadView::blank(),
            body: program.instructions,
            ip: 0,
            stack: Seq::empty(),
            input: Seq::empty(),
            output: Seq::empty(),
        }
    }

    /// The instruction under the pointer, if the pointer is inside the body.
    pub open spec fn current(self) -> Option<Op> {
        if self.ip < self.body.len() {
            Some(self.body[self.ip as int].1)
        } else {
            None
        }
    }

    /// The line and the column in the source text at which the instruction
    /// under the pointer was written, where `pest` can tell them.
    pub open spec fn position(self) -> Option<(nat, nat)> {
        if self.ip < self.body.len() {
            pest_line_col(self.program.source, self.body[self.ip as int].0)
        } else {
            None
        }
    }

    /// Back to the body on top of the stack, at the instruction that
    /// suspended it. Where that was a fork, the head is the one the fork
    /// started from, but for the focused cell, which holds what the cell
    /// under the present head holds.
    pub open spec fn resume(self) -> RuntimeView {
        let frame = self.stack.last();
        RuntimeView {
            head: match frame.head {
                Some(kept) => kept.copy_child_from(self.head),
                None => self.head,
            },
            body: frame.body,
            ip: frame.ip,
            stack: self.stack.drop_last(),
            ..self
        }
    }

    /// On to the next instruction. Past the end of a body the machine goes
    /// back to the body below, and on from there; with no body below it
    /// stays past the end.
    pub open spec fn advance(self) -> RuntimeView
        decreases self.stack.len(),
    {
        let next = RuntimeView { ip: self.ip + 1, ..self };
        if next.ip < next.body.len() || next.stack.len() == 0 {
            next
        } else {
            next.resume().advance()
        }
    }

    /// Suspends the body and starts `body`; `kept` is the head to come back
    /// to, where the new body is that of a fork.
    pub open spec fn call(self, body: Body, kept: Option<HeadView>) -> RuntimeView {
        RuntimeView {
            body,
            ip: 0,
            stack: self.stack.push(FrameView { body: self.body, ip: self.ip, head: kept }),
            ..self
        }
    }

    /// The machine and the report after one step. `chance` is the bit that a
    /// random instruction draws and `source` what the byte source answers
    /// when an input instruction needs a byte.
    pub open spec fn step(self, chance: bool, source: Option<u8>) -> (
        RuntimeView,
        Result<ExecDebugInfo, RuntimeError>,
    ) {
        match self.current() {
            None => (
                self,
                Err(
                    if self.stack.len() == 0 {
                        RuntimeError::EndOfProgram
                    } else {
                        RuntimeError::InstructionPointerOutOfBounds
                    },
                ),
            ),
            Some(op) => match op {
                Op::Nop | Op::EndIf | Op::Loop => (self.advance(), Ok(silent())),
                Op::Left => (
                    RuntimeView { head: self.head.move_left(), ..self }.advance(),
                    Ok(silent()),
                ),
                Op::Right => (
                    RuntimeView { head: self.head.move_right(), ..self }.advance(),
                    Ok(silent()),
                ),
                Op::Enter => (
                    RuntimeView { head: self.head.enter(), ..self }.advance(),
                    Ok(silent()),
                ),
                Op::Exit => (
                    RuntimeView { head: self.head.exit(), ..self }.advance(),
                    Ok(silent()),
                ),
                Op::Null => (
                    RuntimeView { head: self.head.null_child(), ..self }.advance(),
                    Ok(silent()),
                ),
                Op::If(target) => if self.head.has_child() {
                    (self.advance(), Ok(told(true)))
                } else {
                    (RuntimeView { ip: target, ..self }.advance(), Ok(told(false)))
                },
                Op::Else(target) | Op::EndLoop(target) => (
                    RuntimeView { ip: target, ..self }.advance(),
                    Ok(silent()),
                ),
                Op::Block(body) => (self.call(body, None), Ok(silent())),
                Op::Call(name) => if self.program.subroutines.contains_key(name) {
                    (self.call(self.program.subroutines[name], None), Ok(silent()))
                } else {
                    (self, Err(RuntimeError::SubroutineNotFound))
                },
                Op::Fork(body) => (self.call(body, Some(self.head)), Ok(silent())),
                Op::Random => (
                    RuntimeView {
                        head: if chance {
                            self.head
                        } else {
                            self.head.null_child()
                        },
                        ..self
                    }.advance(),
                    Ok(told(chance)),
                ),
                Op::Input => {
                    let bits = bits_on_read(self.input, source);
                    (
                        RuntimeView {
                            head: if bits[0] {
                                self.head
                            } else {
                                self.head.null_child()
                            },
                            input: bits.drop_first(),
                            ..self
                        }.advance(),
                        Ok(told(bits[0])),
                    )
                },
                Op::Output => {
                    let bit = self.head.has_child();
                    let (full, rest) = bits_on_write(self.output, bit);
                    (
                        RuntimeView { output: rest, ..self }.advance(),
                        Ok(ExecDebugInfo { bit: Some(bit), output: full }),
                    )
                },
                Op::Halt => (self.advance(), Err(RuntimeError::Halt)),
            },
        }
    }
}

/// A suspended body.
enum Frame {
    Block { body: InstructionBlock, ip: usize },
    Fork { body: InstructionBlock, ip: usize, head: Head },
}

impl View for Frame {
    type V = FrameView;

    closed spec fn view(&self) -> FrameView {
        match self {
            Frame::Block { body, ip } => FrameView {
                body: body_of(body@),
                ip: *ip as nat,
                head: None,
            },
            Frame::Fork { body, ip, head } => FrameView {
                body: body_of(body@),
                ip: *ip as nat,
                head: Some(head@),
            },
        }
    }
}

impl Frame {
    #[verifier::type_invariant]
    spec fn sound(&self) -> bool {
        &&& linked(self@.body)
        &&& self@.ip < self@.body.len()
    }
}

/// A body whose jumps land.
struct Linked {
    block: InstructionBlock,
}

impl Linked {
    #[verifier::type_invariant]
    spec fn sound(&self) -> bool {
        linked(body_of(self.block@))
    }
}

/// The machine.
pub struct Runtime {
    program: Program,
    head: Head,
    executing_block: Linked,
    instruction_pointer: usize,
    call_stack: Vec<Frame>,
    input_buffer: StdInBitBuffer,
    output_buffer: StdOutBitBuffer,
}

impl View for Runtime {
    type V = RuntimeView;

    closed spec fn view(&self) -> RuntimeView {
        RuntimeView {
            program: self.program@,
            head: self.head@,
            body: body_of(self.executing_block.block@),
            ip: self.instruction_pointer as nat,
            stack: Seq::new(self.call_stack@.len(), |k: int| self.call_stack@[k]@),
            input: self.input_buffer@,
            output: self.output_buffer@,
        }
    }
}

impl Runtime {
    /// A machine at the start of `program`, with a head in a universe of
    /// empty cells and nothing in its buffers.
    pub fn new(program: Program) -> (r: Runtime)
        ensures
            r@ == RuntimeView::start(program@),
            r@.sound(),
    {
        let executing_block = Linked { block: share(program.instructions()) };
        Runtime {
            program,
            head: Head::new(),
            executing_block,
            instruction_pointer: 0,
            call_stack: Vec::new(),
            input_buffer: StdInBitBuffer::new(),
            output_buffer: StdOutBitBuffer::new(),
        }
    }

    /// The program that the machine runs.
    pub fn get_program(&self) -> (r: &Program)
        ensures
            r@ == self@.program,
    {
        &self.program
    }

    /// The head.
    pub fn get_head(&self) -> (r: &Head)
        ensures
            r@ == self@.head,
    {
        &self.head
    }

    /// The body that the machine is executing.
    pub fn get_executing_block(&self) -> (r: &InstructionBlock)
        ensures
            body_of(r@) == self@.body,
    {
        &self.executing_block.block
    }

    /// The index, in the body that the machine is executing, of the
    /// instruction that comes next.
    pub fn get_instruction_pointer(&self) -> (r: usize)
        ensures
            r == self@.ip,
    {
        self.instruction_pointer
    }

    /// The instruction under the pointer, with its source offset.
    pub fn fetch_instruction(&self) -> (r: Result<&(usize, Instruction), RuntimeError>)
        ensures
            match r {
                Ok(found) => self@.ip < self@.body.len() && (found.0 as nat, op_of(&found.1))
                    == self@.body[self@.ip as int],
                Err(e) => self@.ip >= self@.body.len()
                    && e == RuntimeError::InstructionPointerOutOfBounds,
            },
    {
        if self.instruction_pointer < self.executing_block.block.len() {
            Ok(&self.executing_block.block[self.instruction_pointer])
        } else {
            Err(RuntimeError::InstructionPointerOutOfBounds)
        }
    }

    /// The line and the column, both counted from one, at which the
    /// instruction that comes next was written; nothing where none comes
    /// next.
    pub fn position(&self) -> (r: Option<(usize, usize)>)
        ensures
            match r {
                Some((line, col)) => self@.position() == Some((line as nat, col as nat)),
                None => self@.position() is None,
            },
    {
        match self.fetch_instruction() {
            Ok(found) => position_line_col(self.program.source().as_str(), found.0),
            Err(_) => None,
        }
    }

    /// Whether the next step asks the byte source for a byte.
    pub fn awaits_input(&self) -> (r: bool)
        ensures
            r == (self@.current() == Some(Op::Input) && self@.input.len() == 0),
    {
        match self.fetch_instruction() {
            Ok(found) => match &found.1 {
                Instruction::Input => self.input_buffer.is_drained(),
                _ => false,
            },
            Err(_) => false,
        }
    }

    fn awaits_chance(&self) -> (r: bool)
        ensures
            r == (self@.current() == Some(Op::Random)),
    {
        match self.fetch_instruction() {
            Ok(found) => match &found.1 {
                Instruction::Random => true,
                _ => false,
            },
            Err(_) => false,
        }
    }

    /// Moves the pointer to the next instruction, through the ends of as many
    /// bodies as end there.
    fn go_to_next_instruction(&mut self) -> (r: Result<(), RuntimeError>)
        requires
            old(self)@.ip < old(self)@.body.len(),
        ensures
            final(self)@ == old(self)@.advance(),
            r == if final(self)@.ip < final(self)@.body.len() {
                Ok::<(), RuntimeError>(())
            } else {
                Err::<(), RuntimeError>(RuntimeError::EndOfProgram)
            },
    {
        loop
            invariant
                self@.ip < self@.body.len(),
                self@.advance() == old(self)@.advance(),
            decreases self.call_stack@.len(),
        {
            let ghost before = self@;
            let len = self.executing_block.block.len();
            self.instruction_pointer = self.instruction_pointer + 1;
            if self.instruction_pointer >= len {
                let ghost frames = self.call_stack@;
                match self.call_stack.pop() {
                    None => {
                        return Err(RuntimeError::EndOfProgram);
                    },
                    Some(frame) => {
                        proof {
                            use_type_invariant(&frame);
                        }
                        match frame {
                            Frame::Block { body, ip } => {
                                self.executing_block = Linked { block: body };
                                self.instruction_pointer = ip;
                            },
                            Frame::Fork { body, ip, head } => {
                                self.head = head.copy_child_from(&self.head);
                                self.executing_block = Linked { block: body };
                                self.instruction_pointer = ip;
                            },
                        }
                    },
                }
                proof {
                    let next = RuntimeView { ip: before.ip + 1, ..before };
                    assert(next.stack.last() == frames.last()@);
                    assert(self@.stack =~= next.stack.drop_last());
                    assert(self@ == next.resume());
                }
            } else {
                return Ok(());
            }
        }
    }

    /// Suspends the body that is executing and starts `body`.
    fn call(&mut self, body: InstructionBlock, kept: Option<Head>)
        requires
            old(self)@.ip < old(self)@.body.len(),
            linked(body_of(body@)),
        ensures
            final(self)@ == old(self)@.call(
                body_of(body@),
                match kept {
                    Some(head) => Some(head@),
                    None => None,
                },
            ),
    {
        proof {
            use_type_invariant(&self.executing_block);
        }
        let suspended = share(&self.executing_block.block);
        let frame = match kept {
            Some(head) => Frame::Fork { body: suspended, ip: self.instruction_pointer, head },
            None => Frame::Block { body: suspended, ip: self.instruction_pointer },
        };
        let ghost pushed = frame@;
        self.call_stack.push(frame);
        self.executing_block = Linked { block: body };
        self.instruction_pointer = 0;
        assert(self@.stack =~= old(self)@.stack.push(pushed));
    }

    /// Executes one instruction. `word` is the number that a random
    /// instruction draws, of which the lowest bit counts; `source` is what
    /// the byte source answers when an input instruction needs a byte.
    pub fn step_with(&mut self, word: u32, source: Option<u8>) -> (r: Result<
        ExecDebugInfo,
        RuntimeError,
    >)
        ensures
            final(self)@ == old(self)@.step(word % 2 == 1, source).0,
            r == old(self)@.step(word % 2 == 1, source).1,
            old(self)@.sound() ==> final(self)@.sound(),
    {
        proof {
            use_type_invariant(&self.executing_block);
            if self@.sound() {
                step_keeps_sound(self@, word % 2 == 1, source);
            }
        }
        if self.instruction_pointer >= self.executing_block.block.len() {
            return Err(
                if self.call_stack.len() == 0 {
                    RuntimeError::EndOfProgram
                } else {
                    RuntimeError::InstructionPointerOutOfBounds
                },
            );
        }
        let block = share(&self.executing_block.block);
        let ghost body = body_of(block@);
        let ghost at = self.instruction_pointer as int;
        assert(body[at].1 == op_of(&block@[at].1));
        assert(lands(body, at));
        let mut info = ExecDebugInfo { bit: None, output: None };
        match &block[self.instruction_pointer].1 {
            Instruction::Nop | Instruction::EndIf | Instruction::Loop => {},
            Instruction::Left => {
                self.head = self.head.move_left();
            },
            Instruction::Right => {
                self.head = self.head.move_right();
            },
            Instruction::Enter => {
                self.head = self.head.enter();
            },
            Instruction::Exit => {
                self.head = self.head.exit();
            },
            Instruction::Null => {
                self.head = self.head.null_child();
            },
            Instruction::If(destination) => {
                if self.head.has_child() {
                    info.bit = Some(true);
                } else {
                    info.bit = Some(false);
                    self.instruction_pointer = *destination;
                }
            },
            Instruction::Else(destination) | Instruction::EndLoop(destination) => {
                self.instruction_pointer = *destination;
            },
            Instruction::Block(instruction_block) => {
                self.call(share(instruction_block), None);
                return Ok(info);
            },
            Instruction::Call(subroutine_name) => {
                let found = match self.program.subroutine(subroutine_name.as_str()) {
                    Some(subroutine) => share(subroutine),
                    None => {
                        return Err(RuntimeError::SubroutineNotFound);
                    },
                };
                self.call(found, None);
                return Ok(info);
            },
            Instruction::Fork(instruction_block) => {
                let kept = self.head.clone();
                self.call(share(instruction_block), Some(kept));
                return Ok(info);
            },
            Instruction::Random => {
                if word % 2 == 1 {
                    info.bit = Some(true);
                } else {
                    info.bit = Some(false);
                    self.head = self.head.null_child();
                }
            },
            Instruction::Input => {
                if self.input_buffer.read_bit(source) {
                    info.bit = Some(true);
                } else {
                    info.bit = Some(false);
                    self.head = self.head.null_child();
                }
            },
            Instruction::Output => {
                let bit = self.head.has_child();
                info.bit = Some(bit);
                info.output = self.output_buffer.write_bit(bit);
            },
            Instruction::Halt => {
                let _ = self.go_to_next_instruction();
                return Err(RuntimeError::Halt);
            },
        }
        let _ = self.go_to_next_instruction();
        Ok(info)
    }

    /// Executes one instruction, drawing a number from the thread's random
    /// generator where the instruction is a random one. `source` is what the
    /// byte source answers when an input instruction needs a byte. The step
    /// is the one that `step_with` makes on one of the two bits.
    pub fn step(&mut self, source: Option<u8>) -> (r: Result<ExecDebugInfo, RuntimeError>)
        ensures
            old(self)@.sound() ==> final(self)@.sound(),
            (final(self)@ == old(self)@.step(false, source).0 && r == old(self)@.step(
                false,
                source,
            ).1) || (final(self)@ == old(self)@.step(true, source).0 && r == old(self)@.step(
                true,
                source,
            ).1),
    {
        let word = if self.awaits_chance() {
            random_word()
        } else {
            0
        };
        self.step_with(word, source)
    }
}

/// `rand::thread_rng().next_u32()`: the next number of the random generator
/// that `rand` keeps for each thread. Nothing is claimed of the number.
/// `rand` panics where the system gives it nothing to seed the generator
/// with.
#[verifier::external_body]
fn random_word() -> u32 {
    rand::thread_rng().next_u32()
}

} // verus!
