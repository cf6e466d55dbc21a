//! The grammar: from the bytes of a source text to instructions.
//!
//! A program is a row of instructions and subroutine definitions. Between
//! any two of them, and between the parts of one, whitespace and comments
//! may stand; a comment runs from `//` to the end of the line.
//!
//! - `. < > e x n ( | ) [ ] ? i o h` are instructions of one character.
//! - `{ ... }` is a block.
//! - `f { ... }` is a fork.
//! - `! name` calls a subroutine.
//! - `@ name { ... }` defines a subroutine, outside any block.
//!
//! A name is one word or several, a word being letters, digits and `_`.
//! However the words are spaced in the text, the name holds them one space
//! apart.

use crate::parser::syntactic::{
    jumps_resolved, rejected_at_the_bracket, resolve_jumps, resolved_jumps_land, same_but_target,
};
use crate::parser::{error_at, ParseError, ParseErrorKind};
use crate::program::{
    bodies_of, body_of, lands, linked, linked_inside, op_of, Body, Instruction, InstructionSeq, Op,
    Program, ProgramView, Subroutines,
};
use crate::text::{ascii, ascii_string};
use std::rc::Rc;
use vstd::hash_map::StringHashMap;
use vstd::prelude::*;
use vstd::utf8::encode_utf8;

verus! {

/// The byte of a blank.
pub const BLANK: u8 = 0x20;

/// The byte of a tab.
pub const TAB: u8 = 0x09;

/// The byte of a line feed.
pub const NEWLINE: u8 = 0x0a;

/// The byte of a carriage return.
pub const RETURN: u8 = 0x0d;

/// The byte of `/`.
pub const SLASH: u8 = 0x2f;

/// The byte of `a`.
pub const LOWER_A: u8 = 0x61;

/// The byte of `z`.
pub const LOWER_Z: u8 = 0x7a;

/// The byte of `A`.
pub const UPPER_A: u8 = 0x41;

/// The byte of `Z`.
pub const UPPER_Z: u8 = 0x5a;

/// The byte of `0`.
pub const DIGIT_0: u8 = 0x30;

/// The byte of `9`.
pub const DIGIT_9: u8 = 0x39;

/// The byte of `_`.
pub const UNDERSCORE: u8 = 0x5f;

/// The byte of `.`.
pub const DOT: u8 = 0x2e;

/// The byte of `<`.
pub const LESS: u8 = 0x3c;

/// The byte of `>`.
pub const GREATER: u8 = 0x3e;

/// The byte of `e`.
pub const LOWER_E: u8 = 0x65;

/// The byte of `x`.
pub const LOWER_X: u8 = 0x78;

/// The byte of `n`.
pub const LOWER_N: u8 = 0x6e;

/// The byte of `(`.
pub const OPEN_PAREN: u8 = 0x28;

/// The byte of `|`.
pub const BAR: u8 = 0x7c;

/// The byte of `)`.
pub const CLOSE_PAREN: u8 = 0x29;

/// The byte of `[`.
pub const OPEN_BRACKET: u8 = 0x5b;

/// The byte of `]`.
pub const CLOSE_BRACKET: u8 = 0x5d;

/// The byte of `?`.
pub const QUESTION: u8 = 0x3f;

/// The byte of `i`.
pub const LOWER_I: u8 = 0x69;

/// The byte of `o`.
pub const LOWER_O: u8 = 0x6f;

/// The byte of `h`.
pub const LOWER_H: u8 = 0x68;

/// The byte of `{`.
pub const OPEN_BRACE: u8 = 0x7b;

/// The byte of `}`.
pub const CLOSE_BRACE: u8 = 0x7d;

/// The byte of `f`.
pub const LOWER_F: u8 = 0x66;

/// The byte of `!`.
pub const BANG: u8 = 0x21;

/// The byte of `@`.
pub const AT_SIGN: u8 = 0x40;

/// Whether the byte is a blank, a tab or an end of line.
pub open spec fn is_space(byte: u8) -> bool {
    byte == BLANK || byte == TAB || byte == NEWLINE || byte == RETURN
}

/// Whether the byte can stand in a word: a letter, a digit or `_`.
pub open spec fn is_word_byte(byte: u8) -> bool {
    (LOWER_A <= byte <= LOWER_Z) || (UPPER_A <= byte <= UPPER_Z) || (DIGIT_0 <= byte <= DIGIT_9) || byte == UNDERSCORE
}

/// Whether a byte of that value stands at `pos`.
pub open spec fn has(src: Seq<u8>, pos: nat, byte: u8) -> bool {
    pos < src.len() && src[pos as int] == byte
}

/// The end of the line that `pos` is in: the place of the next end-of-line
/// byte, or the end of the text.
pub open spec fn line_end(src: Seq<u8>, pos: nat) -> nat
    decreases src.len() - pos,
{
    if pos >= src.len() || src[pos as int] == NEWLINE {
        pos
    } else {
        line_end(src, pos + 1)
    }
}

/// The first place at or after `pos` that is neither whitespace nor in a
/// comment.
pub open spec fn skip(src: Seq<u8>, pos: nat) -> nat
    decreases src.len() - pos,
{
    if pos >= src.len() {
        pos
    } else if is_space(src[pos as int]) {
        skip(src, pos + 1)
    } else if has(src, pos, SLASH) && has(src, pos + 1, SLASH) {
        let end = line_end(src, pos + 2);
        if pos < end <= src.len() {
            skip(src, end)
        } else {
            pos
        }
    } else {
        pos
    }
}

/// The end of the word that begins at `pos`.
pub open spec fn word_end(src: Seq<u8>, pos: nat) -> nat
    decreases src.len() - pos,
{
    if pos < src.len() && is_word_byte(src[pos as int]) {
        word_end(src, pos + 1)
    } else {
        pos
    }
}

/// The characters of a stretch of the text, one for each byte.
pub open spec fn letters(src: Seq<u8>, from: nat, to: nat) -> Seq<char> {
    Seq::new((to - from) as nat, |k: int| src[from + k] as char)
}

/// The name that begins with the word at `pos`, and the place where its last
/// word ends.
pub open spec fn name_at(src: Seq<u8>, pos: nat) -> (Seq<char>, nat)
    decreases src.len() - pos,
{
    let end = word_end(src, pos);
    let next = skip(src, end);
    if pos < end && end <= next < src.len() && is_word_byte(src[next as int]) {
        let (more, last) = name_at(src, next);
        (letters(src, pos, end) + seq![' '] + more, last)
    } else {
        (letters(src, pos, end), end)
    }
}

/// The instruction that the character stands for, if it is one of those
/// written with one character. Jumps do not lead anywhere yet.
pub open spec fn basic_op(byte: u8) -> Option<Op> {
    if byte == DOT {
        Some(Op::Nop)
    } else if byte == LESS {
        Some(Op::Left)
    } else if byte == GREATER {
        Some(Op::Right)
    } else if byte == LOWER_E {
        Some(Op::Enter)
    } else if byte == LOWER_X {
        Some(Op::Exit)
    } else if byte == LOWER_N {
        Some(Op::Null)
    } else if byte == OPEN_PAREN {
        Some(Op::If(0))
    } else if byte == BAR {
        Some(Op::Else(0))
    } else if byte == CLOSE_PAREN {
        Some(Op::EndIf)
    } else if byte == OPEN_BRACKET {
        Some(Op::Loop)
    } else if byte == CLOSE_BRACKET {
        Some(Op::EndLoop(0))
    } else if byte == QUESTION {
        Some(Op::Random)
    } else if byte == LOWER_I {
        Some(Op::Input)
    } else if byte == LOWER_O {
        Some(Op::Output)
    } else if byte == LOWER_H {
        Some(Op::Halt)
    } else {
        None
    }
}

/// The length in bytes of the character that begins at `pos`, as its first
/// byte tells it, and no more than the text has left.
pub open spec fn char_len(src: Seq<u8>, pos: nat) -> nat {
    let first = src[pos as int];
    let told: nat = if first >= 0xf0 {
        4
    } else if first >= 0xe0 {
        3
    } else if first >= 0xc0 {
        2
    } else {
        1
    };
    if pos + told <= src.len() {
        told
    } else {
        (src.len() - pos) as nat
    }
}

/// The error about the character at `pos`, which begins no instruction.
pub open spec fn unrecognized(src: Seq<u8>, pos: nat) -> ParseError {
    ParseError {
        kind: ParseErrorKind::UnrecognizedInstruction,
        offset: pos as usize,
        length: char_len(src, pos) as usize,
    }
}

/// The place behind an item that began at `pos` and was found to end at
/// `end`. An item ends behind the place where it began and inside the text.
pub open spec fn behind(src: Seq<u8>, pos: nat, end: nat) -> nat {
    if pos < end <= src.len() {
        end
    } else {
        pos + 1
    }
}

/// The instruction that begins at `pos`, where a byte stands that is neither
/// whitespace nor the beginning of a comment, and the place behind it.
pub open spec fn instruction_at(src: Seq<u8>, pos: nat) -> Result<(Op, nat), ParseError>
    decreases src.len() - pos, 1nat,
{
    if pos >= src.len() {
        Err(unrecognized(src, pos))
    } else if src[pos as int] == OPEN_BRACE {
        match block_at(src, pos) {
            Ok((body, end)) => Ok((Op::Block(body), end)),
            Err(e) => Err(e),
        }
    } else if src[pos as int] == LOWER_F {
        let open = skip(src, pos + 1);
        if pos < open && has(src, open, OPEN_BRACE) {
            match block_at(src, open) {
                Ok((body, end)) => Ok((Op::Fork(body), end)),
                Err(e) => Err(e),
            }
        } else {
            Err(unrecognized(src, pos))
        }
    } else if src[pos as int] == BANG {
        let word = skip(src, pos + 1);
        if word < src.len() && is_word_byte(src[word as int]) {
            Ok((Op::Call(name_at(src, word).0), name_at(src, word).1))
        } else {
            Err(unrecognized(src, pos))
        }
    } else if src[pos as int] == AT_SIGN {
        Err(error_at(ParseErrorKind::NestedSubroutineDef, pos))
    } else {
        match basic_op(src[pos as int]) {
            Some(op) => Ok((op, pos + 1)),
            None => Err(unrecognized(src, pos)),
        }
    }
}

/// The block whose `{` stands at `open`: its body, linked, and the place
/// behind its `}`.
pub open spec fn block_at(src: Seq<u8>, open: nat) -> Result<(Body, nat), ParseError>
    decreases src.len() - open, 0nat,
{
    if open >= src.len() {
        Err(error_at(ParseErrorKind::UnclosedBlock, open))
    } else {
        rest_of_block(src, open + 1, Seq::empty(), open)
    }
}

/// The rest of the block whose `{` stands at `open`, from `pos` on, where
/// the instructions in `found` have been read already.
pub open spec fn rest_of_block(src: Seq<u8>, pos: nat, found: Body, open: nat) -> Result<
    (Body, nat),
    ParseError,
>
    decreases src.len() - pos, 2nat,
{
    let at = skip(src, pos);
    if at >= src.len() || at < pos {
        Err(error_at(ParseErrorKind::UnclosedBlock, open))
    } else if src[at as int] == CLOSE_BRACE {
        match jumps_resolved(found).1 {
            Some(e) => Err(e),
            None => Ok((jumps_resolved(found).0, at + 1)),
        }
    } else {
        match instruction_at(src, at) {
            Ok((op, end)) => rest_of_block(src, behind(src, at, end), found.push((at, op)), open),
            Err(e) => Err(e),
        }
    }
}

/// The subroutine definition whose `@` stands at `pos`: the name, the body,
/// linked, and the place behind the body.
pub open spec fn subroutine_at(src: Seq<u8>, pos: nat) -> Result<
    (Seq<char>, Body, nat),
    ParseError,
> {
    let word = skip(src, pos + 1);
    if word < src.len() && is_word_byte(src[word as int]) {
        let (name, end) = name_at(src, word);
        let open = skip(src, end);
        if has(src, open, OPEN_BRACE) {
            match block_at(src, open) {
                Ok((body, behind)) => Ok((name, body, behind)),
                Err(e) => Err(e),
            }
        } else {
            Err(error_at(ParseErrorKind::MalformedSubroutineDef, pos))
        }
    } else {
        Err(error_at(ParseErrorKind::MalformedSubroutineDef, pos))
    }
}

/// The rest of the program from `pos` on, where the instructions in `main`
/// and the subroutines in `subroutines` have been read already: the main
/// body, not yet linked, and the subroutines. Of two subroutines of one name
/// the later one stays.
pub open spec fn rest_of_program(
    src: Seq<u8>,
    pos: nat,
    main: Body,
    subroutines: Map<Seq<char>, Body>,
) -> Result<(Body, Map<Seq<char>, Body>), ParseError>
    decreases src.len() - pos,
{
    let at = skip(src, pos);
    if at >= src.len() || at < pos {
        Ok((main, subroutines))
    } else if src[at as int] == AT_SIGN {
        match subroutine_at(src, at) {
            Ok((name, body, end)) => rest_of_program(
                src,
                behind(src, at, end),
                main,
                subroutines.insert(name, body),
            ),
            Err(e) => Err(e),
        }
    } else {
        match instruction_at(src, at) {
            Ok((op, end)) => rest_of_program(src, behind(src, at, end), main.push((at, op)), subroutines),
            Err(e) => Err(e),
        }
    }
}

/// The program that a source text stands for: its main body and its
/// subroutines, all linked; or the first error in the text.
pub open spec fn program_of(src: Seq<u8>) -> Result<(Body, Map<Seq<char>, Body>), ParseError> {
    match rest_of_program(src, 0, Seq::empty(), Map::empty()) {
        Ok((main, subroutines)) => match jumps_resolved(main).1 {
            Some(e) => Err(e),
            None => Ok((jumps_resolved(main).0, subroutines)),
        },
        Err(e) => Err(e),
    }
}

proof fn lemma_skip_bounds(src: Seq<u8>, pos: nat)
    requires
        pos <= src.len(),
    ensures
        pos <= skip(src, pos) <= src.len(),
        skip(src, skip(src, pos)) == skip(src, pos),
    decreases src.len() - pos,
{
    if pos < src.len() {
        if is_space(src[pos as int]) {
            lemma_skip_bounds(src, pos + 1);
        } else if has(src, pos, SLASH) && has(src, pos + 1, SLASH) {
            lemma_line_end_bounds(src, pos + 2);
            lemma_skip_bounds(src, line_end(src, pos + 2));
        }
    }
}

proof fn lemma_line_end_bounds(src: Seq<u8>, pos: nat)
    requires
        pos <= src.len(),
    ensures
        pos <= line_end(src, pos) <= src.len(),
    decreases src.len() - pos,
{
    if pos < src.len() && src[pos as int] != NEWLINE {
        lemma_line_end_bounds(src, pos + 1);
    }
}

proof fn lemma_word_end_bounds(src: Seq<u8>, pos: nat)
    requires
        pos <= src.len(),
    ensures
        pos <= word_end(src, pos) <= src.len(),
        pos < src.len() && is_word_byte(src[pos as int]) ==> pos < word_end(src, pos),
        forall|k: int| pos <= k < word_end(src, pos) ==> is_word_byte(#[trigger] src[k]),
    decreases src.len() - pos,
{
    if pos < src.len() && is_word_byte(src[pos as int]) {
        lemma_word_end_bounds(src, pos + 1);
    }
}

proof fn lemma_name_bounds(src: Seq<u8>, pos: nat)
    requires
        pos < src.len(),
        is_word_byte(src[pos as int]),
    ensures
        pos < name_at(src, pos).1 <= src.len(),
    decreases src.len() - pos,
{
    lemma_word_end_bounds(src, pos);
    let end = word_end(src, pos);
    lemma_skip_bounds(src, end);
    let next = skip(src, end);
    if next < src.len() && is_word_byte(src[next as int]) {
        lemma_name_bounds(src, next);
    }
}

fn is_space_byte(byte: u8) -> (r: bool)
    ensures
        r == is_space(byte),
{
    byte == BLANK || byte == TAB || byte == NEWLINE || byte == RETURN
}

fn is_word(byte: u8) -> (r: bool)
    ensures
        r == is_word_byte(byte),
{
    (LOWER_A <= byte && byte <= LOWER_Z) || (UPPER_A <= byte && byte <= UPPER_Z) || (DIGIT_0 <= byte
        && byte <= DIGIT_9) || byte == UNDERSCORE
}

/// The first place at or after `pos` where neither whitespace nor a comment
/// stands.
fn skip_ignored(src: &[u8], pos: usize) -> (r: usize)
    requires
        pos <= src.len(),
    ensures
        r == skip(src@, pos as nat),
        pos <= r <= src.len(),
{
    let len = src.len();
    let mut at = pos;
    loop
        invariant
            len == src.len(),
            pos <= at <= len,
            skip(src@, at as nat) == skip(src@, pos as nat),
        decreases len - at,
    {
        if at >= len {
            return at;
        }
        let byte = src[at];
        if is_space_byte(byte) {
            at = at + 1;
        } else if byte == SLASH && at + 1 < len && src[at + 1] == SLASH {
            let ghost begun = at;
            at = at + 2;
            while at < len && src[at] != NEWLINE
                invariant
                    len == src.len(),
                    begun + 2 <= at <= len,
                    line_end(src@, at as nat) == line_end(src@, (begun + 2) as nat),
                decreases len - at,
            {
                at = at + 1;
            }
        } else {
            return at;
        }
    }
}

/// The instruction that a character stands for by itself, if it does.
pub fn tokenize_basic_instruction(byte: u8) -> (r: Option<Instruction>)
    ensures
        match r {
            Some(instruction) => basic_op(byte) == Some(op_of(&instruction)),
            None => basic_op(byte) is None,
        },
{
    if byte == DOT {
        Some(Instruction::Nop)
    } else if byte == LESS {
        Some(Instruction::Left)
    } else if byte == GREATER {
        Some(Instruction::Right)
    } else if byte == LOWER_E {
        Some(Instruction::Enter)
    } else if byte == LOWER_X {
        Some(Instruction::Exit)
    } else if byte == LOWER_N {
        Some(Instruction::Null)
    } else if byte == OPEN_PAREN {
        Some(Instruction::If(0))
    } else if byte == BAR {
        Some(Instruction::Else(0))
    } else if byte == CLOSE_PAREN {
        Some(Instruction::EndIf)
    } else if byte == OPEN_BRACKET {
        Some(Instruction::Loop)
    } else if byte == CLOSE_BRACKET {
        Some(Instruction::EndLoop(0))
    } else if byte == QUESTION {
        Some(Instruction::Random)
    } else if byte == LOWER_I {
        Some(Instruction::Input)
    } else if byte == LOWER_O {
        Some(Instruction::Output)
    } else if byte == LOWER_H {
        Some(Instruction::Halt)
    } else {
        None
    }
}

/// The name that begins with the word at `pos`, its words one blank apart,
/// and the place where its last word ends.
fn tokenize_string(src: &[u8], pos: usize) -> (r: (String, usize))
    requires
        pos < src.len(),
        is_word_byte(src[pos as int]),
    ensures
        r.0@ == name_at(src@, pos as nat).0,
        r.1 == name_at(src@, pos as nat).1,
        pos < r.1 <= src.len(),
{
    let len = src.len();
    let mut name: Vec<u8> = Vec::new();
    let mut word = pos;
    proof {
        lemma_name_bounds(src@, pos as nat);
    }
    loop
        invariant
            len == src.len(),
            pos <= word < len,
            is_word_byte(src[word as int]),
            forall|k: int| 0 <= k < name@.len() ==> #[trigger] name@[k] < 128,
            name_at(src@, pos as nat).0 == ascii(name@) + name_at(src@, word as nat).0,
            name_at(src@, pos as nat).1 == name_at(src@, word as nat).1,
            pos < name_at(src@, pos as nat).1 <= len,
        decreases len - word,
    {
        let ghost kept = name@;
        let mut end = word;
        while end < len && is_word(src[end])
            invariant
                len == src.len(),
                word <= end <= len,
                word_end(src@, end as nat) == word_end(src@, word as nat),
                forall|k: int| word <= k < end ==> is_word_byte(#[trigger] src[k]),
                name@ == kept + src@.subrange(word as int, end as int),
                forall|k: int| 0 <= k < name@.len() ==> #[trigger] name@[k] < 128,
            decreases len - end,
        {
            name.push(src[end]);
            assert(name@ =~= kept + src@.subrange(word as int, end + 1));
            end = end + 1;
        }
        assert(end == word_end(src@, word as nat));
        assert(ascii(name@) =~= ascii(kept) + letters(src@, word as nat, end as nat));
        let next = skip_ignored(src, end);
        if next < len && is_word(src[next]) {
            name.push(BLANK);
            assert(ascii(name@) + name_at(src@, next as nat).0 =~= ascii(kept) + name_at(
                src@,
                word as nat,
            ).0) by {
                assert(ascii(seq![BLANK]) =~= seq![' ']);
                assert(name@ =~= kept + src@.subrange(word as int, end as int) + seq![BLANK]);
            }
            word = next;
        } else {
            return (ascii_string(name), end);
        }
    }
}

/// Whether the span of the error is a stretch of the text, of one byte at
/// least.
pub open spec fn spans(src: Seq<u8>, e: ParseError) -> bool {
    e.length >= 1 && e.offset + e.length <= src.len()
}

/// Whether every instruction of the body was read inside the text.
pub open spec fn read_inside(src: Seq<u8>, body: Body) -> bool {
    forall|k: int| 0 <= k < body.len() ==> (#[trigger] body[k]).0 < src.len()
}

proof fn lemma_link_error_spans(src: Seq<u8>, found: Body)
    requires
        src.len() <= usize::MAX,
        read_inside(src, found),
        jumps_resolved(found).1 is Some,
    ensures
        spans(src, jumps_resolved(found).1->Some_0),
{
    rejected_at_the_bracket(found);
}

/// What the grammar finds at a place in the text is sound. An instruction
/// ends behind the place where it begins and inside the text, and the body
/// that it holds, if it is a block or a fork, is linked. An error has a span
/// in the text.
pub proof fn instruction_is_sound(src: Seq<u8>, pos: nat)
    requires
        pos < src.len() <= usize::MAX,
    ensures
        match instruction_at(src, pos) {
            Ok((op, end)) => pos < end <= src.len() && linked_inside(op),
            Err(e) => spans(src, e),
        },
    decreases src.len() - pos, 1nat,
{
    if src[pos as int] == OPEN_BRACE {
        block_is_sound(src, pos);
    } else if src[pos as int] == LOWER_F {
        lemma_skip_bounds(src, pos + 1);
        let open = skip(src, pos + 1);
        if has(src, open, OPEN_BRACE) {
            block_is_sound(src, open);
        }
    } else if src[pos as int] == BANG {
        lemma_skip_bounds(src, pos + 1);
        let word = skip(src, pos + 1);
        if word < src.len() && is_word_byte(src[word as int]) {
            lemma_name_bounds(src, word);
        }
    }
}

/// A block that the grammar finds ends behind its `{` and inside the text,
/// and its body is linked. An error in it has a span in the text.
pub proof fn block_is_sound(src: Seq<u8>, open: nat)
    requires
        open < src.len() <= usize::MAX,
    ensures
        match block_at(src, open) {
            Ok((body, end)) => open < end <= src.len() && linked(body),
            Err(e) => spans(src, e),
        },
    decreases src.len() - open, 0nat,
{
    rest_of_block_is_sound(src, open + 1, Seq::empty(), open);
}

/// What the grammar finds of a block past the instructions read so far ends
/// behind them and inside the text, and is linked if the blocks and forks
/// read so far are. An error in it has a span in the text.
pub proof fn rest_of_block_is_sound(src: Seq<u8>, pos: nat, found: Body, open: nat)
    requires
        open < pos <= src.len() <= usize::MAX,
        read_inside(src, found),
        forall|k: int| 0 <= k < found.len() ==> linked_inside(#[trigger] found[k].1),
    ensures
        match rest_of_block(src, pos, found, open) {
            Ok((body, end)) => pos < end <= src.len() && linked(body),
            Err(e) => spans(src, e),
        },
    decreases src.len() - pos, 2nat,
{
    lemma_skip_bounds(src, pos);
    let at = skip(src, pos);
    if at < src.len() {
        if src[at as int] == CLOSE_BRACE {
            if jumps_resolved(found).1 is None {
                lemma_resolved_is_linked(found);
            } else {
                lemma_link_error_spans(src, found);
            }
        } else {
            instruction_is_sound(src, at);
            if let Ok((op, end)) = instruction_at(src, at) {
                let more = found.push((at, op));
                assert forall|k: int| 0 <= k < more.len() implies linked_inside(
                    #[trigger] more[k].1,
                ) && more[k].0 < src.len() by {
                    if k < found.len() {
                        assert(more[k] == found[k]);
                    }
                }
                rest_of_block_is_sound(src, end, more, open);
            }
        }
    }
}

/// A subroutine definition that the grammar finds ends behind its `@` and
/// inside the text, and its body is linked. An error in it has a span in the
/// text.
pub proof fn subroutine_is_sound(src: Seq<u8>, pos: nat)
    requires
        pos < src.len() <= usize::MAX,
    ensures
        match subroutine_at(src, pos) {
            Ok((name, body, end)) => pos < end <= src.len() && linked(body),
            Err(e) => spans(src, e),
        },
{
    lemma_skip_bounds(src, pos + 1);
    let word = skip(src, pos + 1);
    if word < src.len() && is_word_byte(src[word as int]) {
        lemma_name_bounds(src, word);
        let end = name_at(src, word).1;
        lemma_skip_bounds(src, end);
        if has(src, skip(src, end), OPEN_BRACE) {
            block_is_sound(src, skip(src, end));
        }
    }
}

proof fn lemma_rest_of_program_is_sound(
    src: Seq<u8>,
    pos: nat,
    main: Body,
    subroutines: Map<Seq<char>, Body>,
)
    requires
        pos <= src.len() <= usize::MAX,
        read_inside(src, main),
        forall|k: int| 0 <= k < main.len() ==> linked_inside(#[trigger] main[k].1),
        forall|name: Seq<char>| #[trigger]
            subroutines.contains_key(name) ==> linked(subroutines[name]),
    ensures
        match rest_of_program(src, pos, main, subroutines) {
            Ok((read, table)) => {
                &&& read_inside(src, read)
                &&& forall|k: int| 0 <= k < read.len() ==> linked_inside(#[trigger] read[k].1)
                &&& forall|name: Seq<char>| #[trigger]
                    table.contains_key(name) ==> linked(table[name])
            },
            Err(e) => spans(src, e),
        },
    decreases src.len() - pos,
{
    lemma_skip_bounds(src, pos);
    let at = skip(src, pos);
    if at < src.len() {
        if src[at as int] == AT_SIGN {
            subroutine_is_sound(src, at);
            if let Ok((name, body, end)) = subroutine_at(src, at) {
                lemma_rest_of_program_is_sound(src, end, main, subroutines.insert(name, body));
            }
        } else {
            instruction_is_sound(src, at);
            if let Ok((op, end)) = instruction_at(src, at) {
                let more = main.push((at, op));
                assert forall|k: int| 0 <= k < more.len() implies linked_inside(
                    #[trigger] more[k].1,
                ) && more[k].0 < src.len() by {
                    if k < main.len() {
                        assert(more[k] == main[k]);
                    }
                }
                lemma_rest_of_program_is_sound(src, end, more, subroutines);
            }
        }
    }
}

/// What the grammar makes of a text is sound. Every jump of a program lands:
/// in the main body, in every subroutine, and in every block and fork inside
/// them. An error has a span in the text, of one byte at least.
pub proof fn program_is_sound(src: Seq<u8>)
    requires
        src.len() <= usize::MAX,
    ensures
        match program_of(src) {
            Ok((main, subroutines)) => linked(main) && (forall|name: Seq<char>| #[trigger]
                subroutines.contains_key(name) ==> linked(subroutines[name])),
            Err(e) => spans(src, e),
        },
{
    lemma_rest_of_program_is_sound(src, 0, Seq::empty(), Map::empty());
    if let Ok((read, table)) = rest_of_program(src, 0, Seq::empty(), Map::empty()) {
        if jumps_resolved(read).1 is None {
            lemma_resolved_is_linked(read);
        } else {
            lemma_link_error_spans(src, read);
        }
    }
}

/// Whether what was read as an instruction is what the grammar says stands
/// there.
spec fn instruction_read(
    src: Seq<u8>,
    pos: nat,
    r: Result<(Instruction, usize), ParseError>,
) -> bool {
    match r {
        Ok((instruction, end)) => {
            &&& instruction_at(src, pos) == Ok::<(Op, nat), ParseError>(
                (op_of(&instruction), end as nat),
            )
            &&& pos < end <= src.len()
            &&& linked_inside(op_of(&instruction))
        },
        Err(e) => instruction_at(src, pos) == Err::<(Op, nat), ParseError>(e),
    }
}

/// Whether what was read as a block is what the grammar says stands there.
spec fn block_read(
    expected: Result<(Body, nat), ParseError>,
    src: Seq<u8>,
    pos: nat,
    r: Result<(InstructionSeq, usize), ParseError>,
) -> bool {
    match r {
        Ok((instructions, end)) => {
            &&& expected == Ok::<(Body, nat), ParseError>((body_of(instructions@), end as nat))
            &&& pos < end <= src.len()
            &&& linked(body_of(instructions@))
        },
        Err(e) => expected == Err::<(Body, nat), ParseError>(e),
    }
}

/// A body whose jumps were resolved, and whose blocks and forks hold linked
/// bodies, is linked.
proof fn lemma_resolved_is_linked(found: Body)
    requires
        jumps_resolved(found).1 is None,
        forall|k: int| 0 <= k < found.len() ==> linked_inside(#[trigger] found[k].1),
    ensures
        linked(jumps_resolved(found).0),
{
    resolved_jumps_land(found);
    let done = jumps_resolved(found).0;
    assert forall|i: int| 0 <= i < done.len() implies lands(done, i) && linked_inside(
        (#[trigger] done[i]).1,
    ) by {
        assert(linked_inside(found[i].1));
        assert(same_but_target(found[i].1, done[i].1));
    }
}

fn char_length(src: &[u8], pos: usize) -> (r: usize)
    requires
        pos < src.len(),
    ensures
        r == char_len(src@, pos as nat),
        1 <= r,
        pos + r <= src.len(),
{
    let first = src[pos];
    let told: usize = if first >= 0xf0 {
        4
    } else if first >= 0xe0 {
        3
    } else if first >= 0xc0 {
        2
    } else {
        1
    };
    if told <= src.len() - pos {
        told
    } else {
        src.len() - pos
    }
}

fn parse_error(kind: ParseErrorKind, offset: usize) -> (r: ParseError)
    ensures
        r == error_at(kind, offset as nat),
{
    ParseError { kind, offset, length: 1 }
}

fn unrecognized_at(src: &[u8], pos: usize) -> (r: ParseError)
    requires
        pos < src.len(),
    ensures
        r == unrecognized(src@, pos as nat),
{
    ParseError {
        kind: ParseErrorKind::UnrecognizedInstruction,
        offset: pos,
        length: char_length(src, pos),
    }
}

/// Reads the instruction that begins at `pos`.
fn tokenize_instruction(src: &[u8], pos: usize) -> (r: Result<(Instruction, usize), ParseError>)
    requires
        pos < src.len(),
    ensures
        instruction_read(src@, pos as nat, r),
    decreases src.len() - pos, 1nat,
{
    let byte = src[pos];
    if byte == OPEN_BRACE {
        match tokenize_block(src, pos) {
            Ok((body, end)) => Ok((Instruction::Block(Rc::new(body)), end)),
            Err(e) => Err(e),
        }
    } else if byte == LOWER_F {
        tokenize_block_instruction(src, pos)
    } else if byte == BANG {
        tokenize_string_instruction(src, pos)
    } else if byte == AT_SIGN {
        Err(parse_error(ParseErrorKind::NestedSubroutineDef, pos))
    } else {
        match tokenize_basic_instruction(byte) {
            Some(instruction) => Ok((instruction, pos + 1)),
            None => Err(unrecognized_at(src, pos)),
        }
    }
}

/// Reads the fork whose `f` stands at `pos`.
fn tokenize_block_instruction(src: &[u8], pos: usize) -> (r: Result<
    (Instruction, usize),
    ParseError,
>)
    requires
        pos < src.len(),
        src[pos as int] == LOWER_F,
    ensures
        instruction_read(src@, pos as nat, r),
    decreases src.len() - pos, 0nat,
{
    let open = skip_ignored(src, pos + 1);
    if open < src.len() && src[open] == OPEN_BRACE {
        match tokenize_block(src, open) {
            Ok((body, end)) => Ok((Instruction::Fork(Rc::new(body)), end)),
            Err(e) => Err(e),
        }
    } else {
        Err(unrecognized_at(src, pos))
    }
}

/// Reads the call whose `!` stands at `pos`.
fn tokenize_string_instruction(src: &[u8], pos: usize) -> (r: Result<
    (Instruction, usize),
    ParseError,
>)
    requires
        pos < src.len(),
        src[pos as int] == BANG,
    ensures
        instruction_read(src@, pos as nat, r),
{
    let word = skip_ignored(src, pos + 1);
    if word < src.len() && is_word(src[word]) {
        let (name, end) = tokenize_string(src, word);
        Ok((Instruction::Call(name), end))
    } else {
        Err(unrecognized_at(src, pos))
    }
}

/// Reads the block whose `{` stands at `open`, and links its body.
fn tokenize_block(src: &[u8], open: usize) -> (r: Result<(InstructionSeq, usize), ParseError>)
    requires
        open < src.len(),
        src[open as int] == OPEN_BRACE,
    ensures
        block_read(block_at(src@, open as nat), src@, open as nat, r),
    decreases src.len() - open, 0nat,
{
    let len = src.len();
    let mut found: InstructionSeq = Vec::new();
    let mut pos = open + 1;
    let ghost whole = block_at(src@, open as nat);
    assert(body_of(found@) =~= Seq::<(nat, Op)>::empty());
    loop
        invariant
            len == src.len(),
            open < pos <= len,
            whole == block_at(src@, open as nat),
            whole == rest_of_block(src@, pos as nat, body_of(found@), open as nat),
            forall|k: int|
                0 <= k < found@.len() ==> linked_inside(#[trigger] body_of(found@)[k].1),
        decreases len - pos,
    {
        let at = skip_ignored(src, pos);
        if at >= len {
            return Err(parse_error(ParseErrorKind::UnclosedBlock, open));
        }
        if src[at] == CLOSE_BRACE {
            let ghost read = body_of(found@);
            proof {
                if jumps_resolved(read).1 is None {
                    lemma_resolved_is_linked(read);
                }
            }
            return match resolve_jumps(&mut found) {
                Ok(()) => Ok((found, at + 1)),
                Err(e) => Err(e),
            };
        }
        let ghost before = body_of(found@);
        match tokenize_instruction(src, at) {
            Ok((instruction, end)) => {
                found.push((at, instruction));
                assert(body_of(found@) =~= before.push((at as nat, op_of(&instruction))));
                pos = end;
            },
            Err(e) => {
                return Err(e);
            },
        }
    }
}

/// Reads the subroutine definition whose `@` stands at `pos`.
fn tokenize_subroutine(src: &[u8], pos: usize) -> (r: Result<
    (String, InstructionSeq, usize),
    ParseError,
>)
    requires
        pos < src.len(),
        src[pos as int] == AT_SIGN,
    ensures
        match r {
            Ok((name, body, end)) => {
                &&& subroutine_at(src@, pos as nat) == Ok::<(Seq<char>, Body, nat), ParseError>(
                    (name@, body_of(body@), end as nat),
                )
                &&& pos < end <= src.len()
                &&& linked(body_of(body@))
            },
            Err(e) => subroutine_at(src@, pos as nat) == Err::<(Seq<char>, Body, nat), ParseError>(
                e,
            ),
        },
{
    let word = skip_ignored(src, pos + 1);
    if word < src.len() && is_word(src[word]) {
        let (name, end) = tokenize_string(src, word);
        let open = skip_ignored(src, end);
        if open < src.len() && src[open] == OPEN_BRACE {
            match tokenize_block(src, open) {
                Ok((body, behind)) => Ok((name, body, behind)),
                Err(e) => Err(e),
            }
        } else {
            Err(parse_error(ParseErrorKind::MalformedSubroutineDef, pos))
        }
    } else {
        Err(parse_error(ParseErrorKind::MalformedSubroutineDef, pos))
    }
}

/// Whether `r` is the program that the grammar makes of the text.
pub open spec fn program_read(text: Seq<char>, r: Result<Program, ParseError>) -> bool {
    match program_of(encode_utf8(text)) {
        Ok((main, subroutines)) => r is Ok && r->Ok_0@ == (ProgramView {
            source: text,
            subroutines,
            instructions: main,
        }),
        Err(e) => r is Err && r->Err_0 == e,
    }
}

/// Reads a whole source text and links what it holds.
pub fn parse_semantics(source_string: String) -> (r: Result<Program, ParseError>)
    ensures
        program_read(source_string@, r),
        encode_utf8(source_string@).len() <= usize::MAX,
{
    let mut instructions: InstructionSeq = Vec::new();
    let mut subroutines: Subroutines = StringHashMap::new();
    let src = source_string.as_str().as_bytes();
    let len = src.len();
    let mut pos: usize = 0;
    let ghost whole = rest_of_program(src@, 0, Seq::empty(), Map::empty());
    assert(body_of(instructions@) =~= Seq::<(nat, Op)>::empty());
    assert(bodies_of(subroutines@) =~= Map::<Seq<char>, Body>::empty());
    loop
        invariant
            len == src.len(),
            src@ == encode_utf8(source_string@),
            pos <= len,
            whole == rest_of_program(src@, 0, Seq::empty(), Map::empty()),
            whole == rest_of_program(
                src@,
                pos as nat,
                body_of(instructions@),
                bodies_of(subroutines@),
            ),
            forall|k: int|
                0 <= k < instructions@.len() ==> linked_inside(
                    #[trigger] body_of(instructions@)[k].1,
                ),
            forall|name: Seq<char>| #[trigger]
                subroutines@.contains_key(name) ==> linked(body_of(subroutines@[name]@)),
        decreases len - pos,
    {
        let at = skip_ignored(src, pos);
        if at >= len {
            let ghost read = body_of(instructions@);
            proof {
                if jumps_resolved(read).1 is None {
                    lemma_resolved_is_linked(read);
                }
            }
            return match resolve_jumps(&mut instructions) {
                Ok(()) => Ok(Program::assemble(source_string, subroutines, Rc::new(instructions))),
                Err(e) => Err(e),
            };
        }
        if src[at] == AT_SIGN {
            match tokenize_subroutine(src, at) {
                Ok((name, body, end)) => {
                    let ghost before = bodies_of(subroutines@);
                    subroutines.insert(name, Rc::new(body));
                    assert(bodies_of(subroutines@) =~= before.insert(name@, body_of(body@)));
                    pos = end;
                },
                Err(e) => {
                    return Err(e);
                },
            }
        } else {
            let ghost before = body_of(instructions@);
            match tokenize_instruction(src, at) {
                Ok((instruction, end)) => {
                    instructions.push((at, instruction));
                    assert(body_of(instructions@) =~= before.push(
                        (at as nat, op_of(&instruction)),
                    ));
                    pos = end;
                },
                Err(e) => {
                    return Err(e);
                },
            }
        }
    }
}

} // verus!
