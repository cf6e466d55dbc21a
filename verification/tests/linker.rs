use metatape::parser::syntactic::{resolve_conditions, resolve_jumps, resolve_loops};
use metatape::parser::{ParseError, ParseErrorKind};
use metatape::program::Instruction;

fn body(instructions: Vec<Instruction>) -> Vec<(usize, Instruction)> {
    let mut placed = Vec::new();
    for (index, instruction) in instructions.into_iter().enumerate() {
        placed.push((10 + 2 * index, instruction));
    }
    placed
}

fn ops(body: Vec<(usize, Instruction)>) -> Vec<Instruction> {
    body.into_iter().map(|placed| placed.1).collect()
}

#[test]
fn if_leads_to_its_endif() {
    let mut linked = body(vec![Instruction::If(0), Instruction::Nop, Instruction::EndIf]);
    assert_eq!(resolve_jumps(&mut linked), Ok(()));
    assert_eq!(
        ops(linked),
        vec![Instruction::If(2), Instruction::Nop, Instruction::EndIf]
    );
}

#[test]
fn if_leads_to_its_else_and_else_to_the_endif() {
    let mut linked = body(vec![
        Instruction::If(0),
        Instruction::Left,
        Instruction::Else(0),
        Instruction::Right,
        Instruction::EndIf,
    ]);
    assert_eq!(resolve_conditions(&mut linked), Ok(()));
    assert_eq!(
        ops(linked),
        vec![
            Instruction::If(2),
            Instruction::Left,
            Instruction::Else(4),
            Instruction::Right,
            Instruction::EndIf,
        ]
    );
}

#[test]
fn nested_conditionals_are_matched_inside_out() {
    let mut linked = body(vec![
        Instruction::If(0),
        Instruction::If(0),
        Instruction::EndIf,
        Instruction::Else(0),
        Instruction::If(0),
        Instruction::Else(0),
        Instruction::EndIf,
        Instruction::EndIf,
    ]);
    assert_eq!(resolve_jumps(&mut linked), Ok(()));
    assert_eq!(
        ops(linked),
        vec![
            Instruction::If(3),
            Instruction::If(2),
            Instruction::EndIf,
            Instruction::Else(7),
            Instruction::If(5),
            Instruction::Else(6),
            Instruction::EndIf,
            Instruction::EndIf,
        ]
    );
}

#[test]
fn a_second_else_closes_the_first() {
    let mut linked = body(vec![
        Instruction::If(0),
        Instruction::Else(0),
        Instruction::Else(0),
        Instruction::EndIf,
    ]);
    assert_eq!(resolve_jumps(&mut linked), Ok(()));
    assert_eq!(
        ops(linked),
        vec![
            Instruction::If(1),
            Instruction::Else(2),
            Instruction::Else(3),
            Instruction::EndIf,
        ]
    );
}

#[test]
fn endloop_leads_back_to_its_loop() {
    let mut linked = body(vec![
        Instruction::Nop,
        Instruction::Loop,
        Instruction::Loop,
        Instruction::EndLoop(0),
        Instruction::EndLoop(0),
    ]);
    assert_eq!(resolve_loops(&mut linked), Ok(()));
    assert_eq!(
        ops(linked),
        vec![
            Instruction::Nop,
            Instruction::Loop,
            Instruction::Loop,
            Instruction::EndLoop(2),
            Instruction::EndLoop(1),
        ]
    );
}

#[test]
fn loops_and_conditionals_do_not_see_each_other() {
    let mut linked = body(vec![
        Instruction::Loop,
        Instruction::If(0),
        Instruction::EndLoop(0),
        Instruction::EndIf,
    ]);
    assert_eq!(resolve_jumps(&mut linked), Ok(()));
    assert_eq!(
        ops(linked),
        vec![
            Instruction::Loop,
            Instruction::If(3),
            Instruction::EndLoop(0),
            Instruction::EndIf,
        ]
    );
}

#[test]
fn old_targets_are_overwritten() {
    let mut linked = body(vec![
        Instruction::If(7),
        Instruction::EndIf,
        Instruction::Loop,
        Instruction::EndLoop(9),
    ]);
    assert_eq!(resolve_jumps(&mut linked), Ok(()));
    assert_eq!(
        ops(linked),
        vec![
            Instruction::If(1),
            Instruction::EndIf,
            Instruction::Loop,
            Instruction::EndLoop(2),
        ]
    );
}

#[test]
fn offsets_and_other_instructions_are_kept() {
    let mut linked = body(vec![
        Instruction::Call("a b".to_string()),
        Instruction::If(0),
        Instruction::Halt,
        Instruction::EndIf,
    ]);
    assert_eq!(resolve_jumps(&mut linked), Ok(()));
    assert_eq!(
        linked,
        vec![
            (10, Instruction::Call("a b".to_string())),
            (12, Instruction::If(3)),
            (14, Instruction::Halt),
            (16, Instruction::EndIf),
        ]
    );
}

#[test]
fn an_empty_body_is_linked() {
    let mut linked: Vec<(usize, Instruction)> = Vec::new();
    assert_eq!(resolve_jumps(&mut linked), Ok(()));
    assert!(linked.is_empty());
}

#[test]
fn unmatched_endif_is_rejected_at_the_endif() {
    let mut linked = body(vec![Instruction::Nop, Instruction::EndIf, Instruction::EndIf]);
    assert_eq!(
        resolve_jumps(&mut linked),
        Err(ParseError { kind: ParseErrorKind::UnmatchedElseOrEndIf, offset: 12, length: 1 })
    );
}

#[test]
fn unmatched_else_is_rejected_at_the_else() {
    let mut linked = body(vec![
        Instruction::If(0),
        Instruction::EndIf,
        Instruction::Nop,
        Instruction::Else(0),
        Instruction::EndIf,
    ]);
    assert_eq!(
        resolve_conditions(&mut linked),
        Err(ParseError { kind: ParseErrorKind::UnmatchedElseOrEndIf, offset: 16, length: 1 })
    );
    assert_eq!(linked[0].1, Instruction::If(1));
}

#[test]
fn unmatched_if_is_rejected_at_the_last_one_opened() {
    let mut linked = body(vec![
        Instruction::If(0),
        Instruction::If(0),
        Instruction::If(0),
        Instruction::EndIf,
    ]);
    assert_eq!(
        resolve_jumps(&mut linked),
        Err(ParseError { kind: ParseErrorKind::UnmatchedIf, offset: 12, length: 1 })
    );
}

#[test]
fn an_else_without_endif_is_rejected_at_the_else() {
    let mut linked = body(vec![Instruction::If(0), Instruction::Else(0)]);
    assert_eq!(
        resolve_jumps(&mut linked),
        Err(ParseError { kind: ParseErrorKind::UnmatchedIf, offset: 12, length: 1 })
    );
}

#[test]
fn unmatched_endloop_is_rejected_at_the_endloop() {
    let mut linked = body(vec![
        Instruction::Loop,
        Instruction::EndLoop(0),
        Instruction::EndLoop(0),
        Instruction::Loop,
    ]);
    assert_eq!(
        resolve_loops(&mut linked),
        Err(ParseError { kind: ParseErrorKind::UnmatchedEndLoop, offset: 14, length: 1 })
    );
}

#[test]
fn unmatched_loop_is_rejected_at_the_last_one_opened() {
    let mut linked = body(vec![
        Instruction::Loop,
        Instruction::Nop,
        Instruction::Loop,
        Instruction::Loop,
        Instruction::EndLoop(0),
    ]);
    assert_eq!(
        resolve_jumps(&mut linked),
        Err(ParseError { kind: ParseErrorKind::UnmatchedLoop, offset: 14, length: 1 })
    );
}

#[test]
fn conditionals_are_checked_before_loops() {
    let mut linked = body(vec![Instruction::EndLoop(0), Instruction::If(0)]);
    assert_eq!(
        resolve_jumps(&mut linked),
        Err(ParseError { kind: ParseErrorKind::UnmatchedIf, offset: 12, length: 1 })
    );
}

#[test]
fn bodies_inside_are_not_looked_into() {
    let inner = std::rc::Rc::new(body(vec![Instruction::If(0)]));
    let mut linked = body(vec![Instruction::Block(inner.clone()), Instruction::Fork(inner)]);
    assert_eq!(resolve_jumps(&mut linked), Ok(()));
}

#[test]
fn every_target_of_a_linked_body_lands() {
    let mut linked = body(vec![
        Instruction::Loop,
        Instruction::If(0),
        Instruction::Loop,
        Instruction::If(0),
        Instruction::Else(0),
        Instruction::EndIf,
        Instruction::EndLoop(0),
        Instruction::Else(0),
        Instruction::EndIf,
        Instruction::EndLoop(0),
    ]);
    assert_eq!(resolve_jumps(&mut linked), Ok(()));
    for (index, placed) in linked.iter().enumerate() {
        match &placed.1 {
            Instruction::If(target) => {
                assert!(index < *target && *target < linked.len());
                assert!(matches!(linked[*target].1, Instruction::Else(_) | Instruction::EndIf));
            }
            Instruction::Else(target) => {
                assert!(index < *target && *target < linked.len());
                assert!(matches!(linked[*target].1, Instruction::EndIf));
            }
            Instruction::EndLoop(target) => {
                assert!(*target < index);
                assert!(matches!(linked[*target].1, Instruction::Loop));
            }
            _ => {}
        }
    }
}
