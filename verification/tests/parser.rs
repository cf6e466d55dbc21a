use metatape::parser::{parse, ParseError, ParseErrorKind};
use metatape::program::{Instruction, Program};
use std::rc::Rc;

fn program(source: &str) -> Program {
    parse(source.to_string()).expect("the text is a program")
}

fn copy(instruction: &Instruction) -> Instruction {
    match instruction {
        Instruction::Nop => Instruction::Nop,
        Instruction::Left => Instruction::Left,
        Instruction::Right => Instruction::Right,
        Instruction::Enter => Instruction::Enter,
        Instruction::Exit => Instruction::Exit,
        Instruction::Null => Instruction::Null,
        Instruction::If(t) => Instruction::If(*t),
        Instruction::Else(t) => Instruction::Else(*t),
        Instruction::EndIf => Instruction::EndIf,
        Instruction::Loop => Instruction::Loop,
        Instruction::EndLoop(t) => Instruction::EndLoop(*t),
        Instruction::Block(body) => Instruction::Block(body.clone()),
        Instruction::Random => Instruction::Random,
        Instruction::Input => Instruction::Input,
        Instruction::Output => Instruction::Output,
        Instruction::Halt => Instruction::Halt,
        Instruction::Call(name) => Instruction::Call(name.clone()),
        Instruction::Fork(body) => Instruction::Fork(body.clone()),
    }
}

fn main_of(source: &str) -> Vec<(usize, Instruction)> {
    let program = program(source);
    let mut out = Vec::new();
    for (offset, instruction) in program.instructions().iter() {
        out.push((*offset, copy(instruction)));
    }
    out
}

fn error_of(source: &str) -> ParseError {
    match parse(source.to_string()) {
        Ok(_) => panic!("the text should be rejected"),
        Err(e) => e,
    }
}

fn one_byte(kind: ParseErrorKind, offset: usize) -> ParseError {
    ParseError { kind, offset, length: 1 }
}

#[test]
fn every_basic_instruction_is_read() {
    assert_eq!(
        main_of(".<>exn(|)[]?ioh"),
        vec![
            (0, Instruction::Nop),
            (1, Instruction::Left),
            (2, Instruction::Right),
            (3, Instruction::Enter),
            (4, Instruction::Exit),
            (5, Instruction::Null),
            (6, Instruction::If(7)),
            (7, Instruction::Else(8)),
            (8, Instruction::EndIf),
            (9, Instruction::Loop),
            (10, Instruction::EndLoop(9)),
            (11, Instruction::Random),
            (12, Instruction::Input),
            (13, Instruction::Output),
            (14, Instruction::Halt),
        ]
    );
}

#[test]
fn an_empty_text_is_an_empty_program() {
    assert_eq!(main_of(""), vec![]);
    assert_eq!(main_of("  \n\t\r "), vec![]);
    assert_eq!(main_of("// nothing here"), vec![]);
}

#[test]
fn the_source_is_kept() {
    let source = "o // out\n";
    assert_eq!(program(source).source(), source);
}

#[test]
fn whitespace_and_comments_are_passed_over() {
    assert_eq!(
        main_of(" e\t// enter ( [ {\n  x // leave\r\no"),
        vec![(1, Instruction::Enter), (20, Instruction::Exit), (32, Instruction::Output)]
    );
}

#[test]
fn a_comment_may_hold_any_character() {
    assert_eq!(
        main_of("o // caf\u{e9} \u{1f600} @ } !\no"),
        vec![(0, Instruction::Output), (22, Instruction::Output)]
    );
}

#[test]
fn a_single_slash_is_no_comment() {
    assert_eq!(
        error_of("o / o"),
        one_byte(ParseErrorKind::UnrecognizedInstruction, 2)
    );
}

#[test]
fn a_block_holds_its_body() {
    let inner = Rc::new(vec![(10, Instruction::Right)]);
    let outer = Rc::new(vec![(4, Instruction::Left), (6, Instruction::Fork(inner))]);
    assert_eq!(
        main_of("e { < f { > } } x"),
        vec![(0, Instruction::Enter), (2, Instruction::Block(outer)), (16, Instruction::Exit)]
    );
}

#[test]
fn an_empty_block_is_a_block() {
    assert_eq!(
        main_of("{}f{}"),
        vec![
            (0, Instruction::Block(Rc::new(vec![]))),
            (2, Instruction::Fork(Rc::new(vec![]))),
        ]
    );
}

#[test]
fn a_body_is_linked_by_itself() {
    let inner = Rc::new(vec![
        (3, Instruction::If(1)),
        (4, Instruction::EndIf),
        (5, Instruction::Loop),
        (6, Instruction::EndLoop(2)),
    ]);
    assert_eq!(
        main_of("[({()[]})]"),
        vec![
            (0, Instruction::Loop),
            (1, Instruction::If(3)),
            (2, Instruction::Block(inner)),
            (8, Instruction::EndIf),
            (9, Instruction::EndLoop(0)),
        ]
    );
}

#[test]
fn a_call_names_its_subroutine() {
    assert_eq!(
        main_of("!go !  stop_2 . !A9"),
        vec![
            (0, Instruction::Call("go".to_string())),
            (4, Instruction::Call("stop_2".to_string())),
            (14, Instruction::Nop),
            (16, Instruction::Call("A9".to_string())),
        ]
    );
}

#[test]
fn the_words_of_a_name_are_one_blank_apart() {
    assert_eq!(
        main_of("!print   h !print // c\n h . !a\tb\r\nc"),
        vec![
            (0, Instruction::Call("print h".to_string())),
            (11, Instruction::Call("print h".to_string())),
            (26, Instruction::Nop),
            (28, Instruction::Call("a b c".to_string())),
        ]
    );
}

#[test]
fn a_name_ends_before_what_is_no_word() {
    assert_eq!(
        main_of("!h!e<"),
        vec![
            (0, Instruction::Call("h".to_string())),
            (2, Instruction::Call("e".to_string())),
            (4, Instruction::Left),
        ]
    );
}

#[test]
fn subroutines_are_kept_by_name() {
    let program = program("@ print h { oo } o @x{<} !print h");
    assert_eq!(
        program.subroutine("print h").map(|body| body.as_ref()),
        Some(&vec![(12, Instruction::Output), (13, Instruction::Output)])
    );
    assert_eq!(
        program.subroutine("x").map(|body| body.as_ref()),
        Some(&vec![(22, Instruction::Left)])
    );
    assert!(program.subroutine("print").is_none());
    assert!(program.subroutine("h").is_none());
    assert_eq!(
        program.instructions().as_ref(),
        &vec![(17, Instruction::Output), (25, Instruction::Call("print h".to_string()))]
    );
}

#[test]
fn the_later_of_two_subroutines_of_one_name_stays() {
    let program = program("@a{<} @a{>}");
    assert_eq!(
        program.subroutine("a").map(|body| body.as_ref()),
        Some(&vec![(9, Instruction::Right)])
    );
}

#[test]
fn a_subroutine_body_is_linked() {
    let program = program("@ s { ( | ) [ ] }");
    assert_eq!(
        program.subroutine("s").map(|body| body.as_ref()),
        Some(&vec![
            (6, Instruction::If(1)),
            (8, Instruction::Else(2)),
            (10, Instruction::EndIf),
            (12, Instruction::Loop),
            (14, Instruction::EndLoop(3)),
        ])
    );
}

#[test]
fn an_unknown_character_is_rejected() {
    assert_eq!(error_of("o q"), one_byte(ParseErrorKind::UnrecognizedInstruction, 2));
    assert_eq!(error_of("{ o # }"), one_byte(ParseErrorKind::UnrecognizedInstruction, 4));
}

#[test]
fn the_span_of_an_unknown_character_is_the_character() {
    assert_eq!(
        error_of("o\u{e9}"),
        ParseError { kind: ParseErrorKind::UnrecognizedInstruction, offset: 1, length: 2 }
    );
    assert_eq!(
        error_of("\u{20ac}o"),
        ParseError { kind: ParseErrorKind::UnrecognizedInstruction, offset: 0, length: 3 }
    );
    assert_eq!(
        error_of("oo\u{1f600}"),
        ParseError { kind: ParseErrorKind::UnrecognizedInstruction, offset: 2, length: 4 }
    );
}

#[test]
fn a_stray_closing_brace_is_rejected() {
    assert_eq!(error_of("o } o"), one_byte(ParseErrorKind::UnrecognizedInstruction, 2));
}

#[test]
fn a_fork_without_a_block_is_rejected() {
    assert_eq!(error_of("o f o"), one_byte(ParseErrorKind::UnrecognizedInstruction, 2));
    assert_eq!(error_of("f"), one_byte(ParseErrorKind::UnrecognizedInstruction, 0));
}

#[test]
fn a_call_without_a_name_is_rejected() {
    assert_eq!(error_of("o ! <"), one_byte(ParseErrorKind::UnrecognizedInstruction, 2));
    assert_eq!(error_of("!"), one_byte(ParseErrorKind::UnrecognizedInstruction, 0));
}

#[test]
fn a_subroutine_inside_a_block_is_rejected() {
    assert_eq!(error_of("{ @ a { } }"), one_byte(ParseErrorKind::NestedSubroutineDef, 2));
    assert_eq!(error_of("@ a { o @ b { } }"), one_byte(ParseErrorKind::NestedSubroutineDef, 8));
    assert_eq!(error_of("f { @ a { } }"), one_byte(ParseErrorKind::NestedSubroutineDef, 4));
}

#[test]
fn a_subroutine_without_name_or_body_is_rejected() {
    assert_eq!(error_of("o @ { o }"), one_byte(ParseErrorKind::MalformedSubroutineDef, 2));
    assert_eq!(error_of("@ a o"), one_byte(ParseErrorKind::MalformedSubroutineDef, 0));
    assert_eq!(error_of("@ a"), one_byte(ParseErrorKind::MalformedSubroutineDef, 0));
    assert_eq!(error_of("@"), one_byte(ParseErrorKind::MalformedSubroutineDef, 0));
}

#[test]
fn an_unclosed_block_is_rejected_at_its_brace() {
    assert_eq!(error_of("o { o"), one_byte(ParseErrorKind::UnclosedBlock, 2));
    assert_eq!(error_of("{ f { o }"), one_byte(ParseErrorKind::UnclosedBlock, 0));
    assert_eq!(error_of("{ { o"), one_byte(ParseErrorKind::UnclosedBlock, 2));
    assert_eq!(error_of("@ a { o"), one_byte(ParseErrorKind::UnclosedBlock, 4));
}

#[test]
fn unmatched_bracket_is_rejected_at_the_opener() {
    assert_eq!(error_of("e(x"), one_byte(ParseErrorKind::UnmatchedIf, 1));
}

#[test]
fn unmatched_brackets_are_rejected_with_their_span() {
    assert_eq!(error_of("e)x"), one_byte(ParseErrorKind::UnmatchedElseOrEndIf, 1));
    assert_eq!(error_of("e|x"), one_byte(ParseErrorKind::UnmatchedElseOrEndIf, 1));
    assert_eq!(error_of("ee[x"), one_byte(ParseErrorKind::UnmatchedLoop, 2));
    assert_eq!(error_of("e x ]"), one_byte(ParseErrorKind::UnmatchedEndLoop, 4));
    assert_eq!(error_of("o { ( } )"), one_byte(ParseErrorKind::UnmatchedIf, 4));
    assert_eq!(error_of("@ a { ] } o"), one_byte(ParseErrorKind::UnmatchedEndLoop, 6));
}

#[test]
fn the_first_error_in_the_text_is_reported() {
    assert_eq!(error_of("( q"), one_byte(ParseErrorKind::UnrecognizedInstruction, 2));
    assert_eq!(error_of("{ ) } q"), one_byte(ParseErrorKind::UnmatchedElseOrEndIf, 2));
    assert_eq!(error_of(") { ( }"), one_byte(ParseErrorKind::UnmatchedIf, 4));
}

#[test]
fn every_kind_of_error_has_its_words() {
    let kinds = [
        (ParseErrorKind::UnrecognizedInstruction, "Unrecognized instruction"),
        (
            ParseErrorKind::NestedSubroutineDef,
            "Subroutines cannot be defined inside a subroutine or block",
        ),
        (ParseErrorKind::UnmatchedIf, "No matching 'endif' instruction"),
        (ParseErrorKind::UnmatchedElseOrEndIf, "No matching 'if' instruction"),
        (ParseErrorKind::UnmatchedLoop, "No matching 'endloop' instruction"),
        (ParseErrorKind::UnmatchedEndLoop, "No matching 'loop' instruction"),
        (ParseErrorKind::MalformedSubroutineDef, "Subroutine definition needs a name and a body"),
        (ParseErrorKind::UnclosedBlock, "No matching '}' for this block"),
    ];
    for (kind, words) in kinds {
        assert_eq!(one_byte(kind, 0).message(), words);
    }
}

#[test]
fn an_error_is_shown_in_its_line() {
    let source = "oo\n e(x // open\no\n";
    let error = error_of(source);
    assert_eq!(error, one_byte(ParseErrorKind::UnmatchedIf, 5));
    let shown = error.report(source).expect("the span is in the text");
    assert!(shown.contains("2:3"));
    assert!(shown.contains(" e(x // open"));
    assert!(shown.contains("No matching 'endif' instruction"));
}

#[test]
fn an_error_outside_the_text_is_not_shown() {
    let error = one_byte(ParseErrorKind::UnmatchedIf, 5);
    assert_eq!(error.report("e(x"), None);
    let inside = ParseError { kind: ParseErrorKind::UnrecognizedInstruction, offset: 1, length: 1 };
    assert_eq!(inside.report("o\u{e9}"), None);
    let endless =
        ParseError { kind: ParseErrorKind::UnrecognizedInstruction, offset: 1, length: usize::MAX };
    assert_eq!(endless.report("ooo"), None);
}

#[test]
fn a_text_is_a_program_or_an_error_shown() {
    assert!(metatape::program_from_source("ex< o".to_string()).is_ok());
    let told = match metatape::program_from_source("e\n]".to_string()) {
        Ok(_) => panic!("the text should be rejected"),
        Err(told) => told,
    };
    assert!(told.contains("2:1"));
    assert!(told.contains("No matching 'loop' instruction"));
}

#[test]
fn a_letter_that_only_looks_like_an_instruction_is_rejected() {
    assert_eq!(
        error_of("oooooooo\u{43e}"),
        ParseError { kind: ParseErrorKind::UnrecognizedInstruction, offset: 8, length: 2 }
    );
}
