//! Programs: instructions, bodies of instructions, and named subroutines.

use std::rc::Rc;
use vstd::hash_map::StringHashMap;
use vstd::prelude::*;

verus! {

/// A body as the interpreter holds it: instructions, each with the byte
/// offset in the source text at which it was written.
pub type InstructionSeq = Vec<(usize, Instruction)>;

/// A body that several holders share.
pub type InstructionBlock = Rc<InstructionSeq>;

/// The subroutines of a program, by name.
pub type Subroutines = StringHashMap<InstructionBlock>;

/// One instruction. The number in `If`, `Else` and `EndLoop` is the index,
/// within the same body, of the instruction to jump to.
#[derive(Debug, PartialEq, Eq)]
pub enum Instruction {
    Nop,
    Left,
    Right,
    Enter,
    Exit,
    Null,
    If(usize),
    Else(usize),
    EndIf,
    Loop,
    EndLoop(usize),
    Block(InstructionBlock),
    Random,
    Input,
    Output,
    Halt,
    Call(String),
    Fork(InstructionBlock),
}

/// An instruction as a mathematical value.
#[verifier::ext_equal]
pub enum Op {
    Nop,
    Left,
    Right,
    Enter,
    Exit,
    Null,
    If(nat),
    Else(nat),
    EndIf,
    Loop,
    EndLoop(nat),
    Block(Seq<(nat, Op)>),
    Random,
    Input,
    Output,
    Halt,
    Call(Seq<char>),
    Fork(Seq<(nat, Op)>),
}

/// A body as a mathematical value: each instruction with its source offset.
pub type Body = Seq<(nat, Op)>;

pub open spec fn op_of(instruction: &Instruction) -> Op
    decreases instruction,
{
    match instruction {
        Instruction::Nop => Op::Nop,
        Instruction::Left => Op::Left,
        Instruction::Right => Op::Right,
        Instruction::Enter => Op::Enter,
        Instruction::Exit => Op::Exit,
        Instruction::Null => Op::Null,
        Instruction::If(t) => Op::If(*t as nat),
        Instruction::Else(t) => Op::Else(*t as nat),
        Instruction::EndIf => Op::EndIf,
        Instruction::Loop => Op::Loop,
        Instruction::EndLoop(t) => Op::EndLoop(*t as nat),
        Instruction::Block(body) => Op::Block(body_of(body@)),
        Instruction::Random => Op::Random,
        Instruction::Input => Op::Input,
        Instruction::Output => Op::Output,
        Instruction::Halt => Op::Halt,
        Instruction::Call(name) => Op::Call(name@),
        Instruction::Fork(body) => Op::Fork(body_of(body@)),
    }
}

pub open spec fn body_of(code: Seq<(usize, Instruction)>) -> Body
    decreases code,
{
    Seq::new(
        code.len(),
        |k: int|
            if 0 <= k < code.len() {
                (code[k].0 as nat, op_of(&code[k].1))
            } else {
                (0, Op::Nop)
            },
    )
}

/// Whether the jump at index `i` of a body, if there is one, leads to an
/// instruction of the kind that it is meant for: a conditional forward to an
/// `Else` or `EndIf` of the same body, the end of a loop back to a `Loop`.
pub open spec fn lands(body: Body, i: int) -> bool {
    match body[i].1 {
        Op::If(t) | Op::Else(t) => i < t < body.len() && (body[t as int].1 is Else
            || body[t as int].1 is EndIf),
        Op::EndLoop(t) => t < i && body[t as int].1 is Loop,
        _ => true,
    }
}

/// Whether every jump of a body lands, in the body itself and in the bodies
/// of its blocks and forks.
pub open spec fn linked(body: Body) -> bool
    decreases body,
{
    forall|i: int|
        0 <= i < body.len() ==> lands(body, i) && match (#[trigger] body[i]).1 {
            Op::Block(inner) | Op::Fork(inner) => linked(inner),
            _ => true,
        }
}

/// Whether every jump lands in the body that the instruction holds, if it is
/// a block or a fork.
pub open spec fn linked_inside(op: Op) -> bool {
    match op {
        Op::Block(inner) | Op::Fork(inner) => linked(inner),
        _ => true,
    }
}

/// A program as a mathematical value.
#[verifier::ext_equal]
pub struct ProgramView {
    pub source: Seq<char>,
    pub subroutines: Map<Seq<char>, Body>,
    pub instructions: Body,
}

impl ProgramView {
    /// Whether every jump of the program lands.
    pub open spec fn linked(self) -> bool {
        &&& linked(self.instructions)
        &&& forall|name: Seq<char>| #[trigger]
            self.subroutines.contains_key(name) ==> linked(self.subroutines[name])
    }
}

/// The bodies of a table of subroutines.
pub open spec fn bodies_of(table: Map<Seq<char>, InstructionBlock>) -> Map<Seq<char>, Body> {
    Map::new(|name: Seq<char>| table.contains_key(name), |name: Seq<char>| body_of(table[name]@))
}

/// A program ready to run: the text it was read from, its main body and its
/// subroutines, with every jump resolved.
pub struct Program {
    source: String,
    subroutines: Subroutines,
    instructions: InstructionBlock,
}

impl View for Program {
    type V = ProgramView;

    closed spec fn view(&self) -> ProgramView {
        ProgramView {
            source: self.source@,
            subroutines: bodies_of(self.subroutines@),
            instructions: body_of(self.instructions@),
        }
    }
}

/// `Rc::clone` of std: a second handle to the value that the first one
/// points to. The value itself is not copied.
#[verifier::external_body]
pub(crate) fn share<T>(handle: &Rc<T>) -> (r: Rc<T>)
    ensures
        r == *handle,
{
    Rc::clone(handle)
}

impl Program {
    #[verifier::type_invariant]
    spec fn inv(&self) -> bool {
        self@.linked()
    }

    /// Puts a program together from parts whose jumps all land.
    pub(crate) fn assemble(
        source: String,
        subroutines: Subroutines,
        instructions: InstructionBlock,
    ) -> (r: Program)
        requires
            linked(body_of(instructions@)),
            forall|name: Seq<char>| #[trigger]
                subroutines@.contains_key(name) ==> linked(body_of(subroutines@[name]@)),
        ensures
            r@ == (ProgramView {
                source: source@,
                subroutines: bodies_of(subroutines@),
                instructions: body_of(instructions@),
            }),
    {
        Program { source, subroutines, instructions }
    }

    /// The text that the program was read from.
    pub fn source(&self) -> (r: &String)
        ensures
            r@ == self@.source,
    {
        &self.source
    }

    /// The main body.
    pub fn instructions(&self) -> (r: &InstructionBlock)
        ensures
            body_of(r@) == self@.instructions,
            self@.linked(),
    {
        proof {
            use_type_invariant(self);
        }
        &self.instructions
    }

    /// The body of the subroutine of that name, if the program has one.
    pub fn subroutine(&self, name: &str) -> (r: Option<&InstructionBlock>)
        ensures
            r is Some <==> self@.subroutines.contains_key(name@),
            r matches Some(body) ==> body_of(body@) == self@.subroutines[name@],
            self@.linked(),
    {
        proof {
            use_type_invariant(self);
        }
        self.subroutines.get(name)
    }
}

} // verus!
