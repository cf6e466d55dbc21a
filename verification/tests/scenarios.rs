use metatape::parser::parse;
use metatape::program::Instruction;
use metatape::runtime::{ExecDebugInfo, Runtime, RuntimeError};

fn machine(source: &str) -> Runtime {
    Runtime::new(parse(source.to_string()).expect("the text is a program"))
}

fn run(source: &str, limit: usize) -> (Vec<u8>, Option<RuntimeError>) {
    let mut runtime = machine(source);
    let mut bytes = Vec::new();
    for _ in 0..limit {
        match runtime.step(None) {
            Ok(info) => {
                if let Some(byte) = info.output {
                    bytes.push(byte);
                }
            }
            Err(RuntimeError::Halt) => {}
            Err(e) => return (bytes, Some(e)),
        }
    }
    (bytes, None)
}

fn bits(source: &str, limit: usize) -> Vec<Option<bool>> {
    let mut runtime = machine(source);
    let mut out = Vec::new();
    for _ in 0..limit {
        match runtime.step(None) {
            Ok(info) => out.push(info.bit),
            Err(_) => break,
        }
    }
    out
}

const SILENT: ExecDebugInfo = ExecDebugInfo { bit: None, output: None };

#[test]
fn single_bit_out_emits_no_byte() {
    let mut runtime = machine("eox");
    assert_eq!(runtime.step(None), Ok(SILENT));
    assert_eq!(runtime.step(None), Ok(ExecDebugInfo { bit: Some(false), output: None }));
    assert_eq!(runtime.step(None), Ok(SILENT));
    assert_eq!(runtime.step(None), Err(RuntimeError::EndOfProgram));
    assert_eq!(runtime.step(None), Err(RuntimeError::EndOfProgram));
}

#[test]
fn eight_zeros_emit_one_zero_byte() {
    let (bytes, end) = run("oooooooo", 20);
    assert_eq!(bytes, vec![0x00]);
    assert_eq!(end, Some(RuntimeError::EndOfProgram));
}

#[test]
fn the_eighth_bit_completes_the_byte() {
    let mut runtime = machine("ooooooo o");
    for _ in 0..7 {
        assert_eq!(runtime.step(None), Ok(ExecDebugInfo { bit: Some(false), output: None }));
    }
    assert_eq!(runtime.step(None), Ok(ExecDebugInfo { bit: Some(false), output: Some(0) }));
}

#[test]
fn hello_subroutine_table() {
    let source = "@ _ { oo>o<ooooo } @ h { o>o<oo>o<ooo } @ e { o>oo<oo>o<o>o< } \
                  @ l { o>oo<o>oo<oo } @ o { o>oo<o>oooo< } ex< !h !e !l !l !o";
    let (bytes, end) = run(source, 1000);
    assert_eq!(bytes, vec![0x48, 0x65, 0x6c, 0x6c, 0x6f]);
    assert_eq!(end, Some(RuntimeError::EndOfProgram));
}

#[test]
fn loop_with_if_runs_on_without_growing() {
    let mut runtime = machine("[ei(x|xn)]");
    assert_eq!(runtime.step(None), Ok(SILENT));
    for round in 0..2000 {
        assert_eq!(runtime.get_instruction_pointer(), 1);
        assert_eq!(runtime.get_head().render(true), "[_]");
        let source = if round % 2 == 0 { None } else { Some(0xff) };
        for _ in 0..7 {
            assert!(runtime.step(source).is_ok());
        }
    }
    assert_eq!(runtime.get_instruction_pointer(), 1);
    assert_eq!(runtime.get_head().render(true), "[_]");
}

#[test]
fn halt_then_continue() {
    let mut runtime = machine("oh o");
    assert_eq!(runtime.step(None), Ok(ExecDebugInfo { bit: Some(false), output: None }));
    assert_eq!(runtime.step(None), Err(RuntimeError::Halt));
    assert_eq!(runtime.step(None), Ok(ExecDebugInfo { bit: Some(false), output: None }));
    assert_eq!(runtime.step(None), Err(RuntimeError::EndOfProgram));
}

#[test]
fn halt_at_the_end_is_followed_by_the_end() {
    let mut runtime = machine("h");
    assert_eq!(runtime.step(None), Err(RuntimeError::Halt));
    assert_eq!(runtime.step(None), Err(RuntimeError::EndOfProgram));
}

#[test]
fn an_empty_program_has_ended() {
    let mut runtime = machine(" // nothing\n");
    assert_eq!(runtime.step(None), Err(RuntimeError::EndOfProgram));
    assert_eq!(runtime.get_instruction_pointer(), 0);
}

#[test]
fn a_new_machine_is_at_the_start() {
    let runtime = machine("e{o}");
    assert_eq!(runtime.get_instruction_pointer(), 0);
    assert_eq!(runtime.get_head().render(true), "[_]");
    assert_eq!(runtime.get_executing_block().len(), 2);
    assert_eq!(runtime.get_program().source(), "e{o}");
    assert_eq!(runtime.fetch_instruction(), Ok(&(0, Instruction::Enter)));
    assert!(!runtime.awaits_input());
}

#[test]
fn fetch_fails_outside_the_body() {
    let mut runtime = machine("o");
    assert_eq!(runtime.fetch_instruction(), Ok(&(0, Instruction::Output)));
    assert!(runtime.step(None).is_ok());
    assert_eq!(runtime.get_instruction_pointer(), 1);
    assert_eq!(runtime.fetch_instruction(), Err(RuntimeError::InstructionPointerOutOfBounds));
}

#[test]
fn the_head_instructions_move_the_head() {
    let mut runtime = machine("ex<>>n.");
    let drawn = ["[_]", "[0]", "[_] 0 ", "[0]", " 0 [_]", " 0 [_]", " 0 [_]"];
    for expected in drawn {
        assert_eq!(runtime.step(None), Ok(SILENT));
        assert_eq!(runtime.get_head().render(true), expected);
    }
    assert_eq!(runtime.step(None), Err(RuntimeError::EndOfProgram));
}

#[test]
fn null_empties_the_cell() {
    assert_eq!(bits("exonon", 10), vec![None, None, Some(true), None, Some(false), None]);
}

#[test]
fn if_takes_the_first_branch_on_a_full_cell() {
    assert_eq!(
        bits("ex(o|no)o", 10),
        vec![None, None, Some(true), Some(true), None, Some(true)]
    );
}

#[test]
fn if_takes_the_second_branch_on_an_empty_cell() {
    assert_eq!(
        bits("(o|exo)o", 10),
        vec![Some(false), None, None, Some(true), None, Some(true)]
    );
}

#[test]
fn if_without_else_passes_over_its_body() {
    assert_eq!(bits("(ex)o", 10), vec![Some(false), Some(false)]);
    assert_eq!(bits("ex(n)o", 10), vec![None, None, Some(true), None, None, Some(false)]);
}

#[test]
fn a_loop_goes_round_until_it_is_left() {
    let source = "xxx [ o e ( | h ) ] ";
    let mut runtime = machine(source);
    let mut seen = Vec::new();
    let mut halted = false;
    for _ in 0..40 {
        match runtime.step(None) {
            Ok(info) => {
                if let Some(bit) = info.bit {
                    seen.push(bit);
                }
            }
            Err(RuntimeError::Halt) => {
                halted = true;
                break;
            }
            Err(e) => panic!("unexpected {:?}", e),
        }
    }
    assert!(halted);
    assert_eq!(seen, vec![true, true, true, true, true, false]);
}

#[test]
fn a_block_runs_on_the_head_itself() {
    assert_eq!(
        bits("{>ex}o<o", 20),
        vec![None, None, None, None, Some(true), None, Some(false)]
    );
}

#[test]
fn a_fork_gives_back_only_the_focused_cell() {
    assert_eq!(
        bits("f{>ex}o>o<o", 20),
        vec![None, None, None, None, Some(true), None, Some(false), None, Some(true)]
    );
}

#[test]
fn a_fork_restores_the_place_of_the_head() {
    let mut runtime = machine("ex< f{ >>>> ee n } .");
    for _ in 0..3 {
        assert!(runtime.step(None).is_ok());
    }
    assert_eq!(runtime.get_head().render(true), "[_] 0 ");
    for _ in 0..8 {
        assert!(runtime.step(None).is_ok());
    }
    assert_eq!(runtime.get_instruction_pointer(), 4);
    assert_eq!(runtime.get_head().render(true), "[_] 0 ");
}

#[test]
fn a_fork_can_empty_the_focused_cell() {
    assert_eq!(bits("ex f{n} o", 20), vec![None, None, None, None, Some(false)]);
}

#[test]
fn forks_inside_forks_come_back_in_turn() {
    assert_eq!(
        bits("f{ < f{ ex } o > } o", 20),
        vec![None, None, None, None, None, Some(true), None, Some(false)]
    );
}

#[test]
fn an_empty_block_stops_the_machine() {
    let mut runtime = machine("{}o");
    assert_eq!(runtime.step(None), Ok(SILENT));
    assert_eq!(runtime.step(None), Err(RuntimeError::InstructionPointerOutOfBounds));
    assert_eq!(runtime.step(None), Err(RuntimeError::InstructionPointerOutOfBounds));
}

#[test]
fn a_call_of_an_unknown_subroutine_fails() {
    let mut runtime = machine("o !nowhere o");
    assert!(runtime.step(None).is_ok());
    assert_eq!(runtime.step(None), Err(RuntimeError::SubroutineNotFound));
    assert_eq!(runtime.get_instruction_pointer(), 1);
    assert_eq!(runtime.step(None), Err(RuntimeError::SubroutineNotFound));
}

#[test]
fn a_subroutine_may_be_defined_after_its_call() {
    assert_eq!(bits("!late . o @late { ex }", 20), vec![None, None, None, None, Some(true)]);
}

#[test]
fn a_call_takes_the_words_that_follow_into_its_name() {
    let mut runtime = machine("!late o @late { ex }");
    assert_eq!(runtime.fetch_instruction(), Ok(&(0, Instruction::Call("late o".to_string()))));
    assert_eq!(runtime.step(None), Err(RuntimeError::SubroutineNotFound));
}

#[test]
fn a_subroutine_may_call_itself() {
    let mut runtime = machine("@ again { o !again } !again");
    let mut bytes = Vec::new();
    for _ in 0..30_000 {
        let info = runtime.step(None).expect("the machine goes on");
        if let Some(byte) = info.output {
            bytes.push(byte);
        }
    }
    assert_eq!(bytes.len(), 30_000 / 2 / 8);
    assert!(bytes.iter().all(|byte| *byte == 0));
}

#[test]
fn a_subroutine_that_calls_itself_comes_back() {
    let source = "@ down { ( e !down . x o | ) } xxx !down . h";
    let mut runtime = machine(source);
    let mut seen = Vec::new();
    let mut end = None;
    for _ in 0..200 {
        match runtime.step(None) {
            Ok(info) => {
                if info.bit.is_some() {
                    seen.push(info.bit);
                }
            }
            Err(e) => {
                end = Some(e);
                break;
            }
        }
    }
    assert_eq!(end, Some(RuntimeError::Halt));
    assert_eq!(
        seen,
        vec![
            Some(true),
            Some(true),
            Some(true),
            Some(false),
            Some(true),
            Some(true),
            Some(true)
        ]
    );
    assert_eq!(runtime.get_head().render(true), "[2]");
}

#[test]
fn a_random_instruction_keeps_the_cell_on_an_odd_number() {
    let mut runtime = machine("ex?o");
    assert!(runtime.step_with(0, None).is_ok());
    assert!(runtime.step_with(0, None).is_ok());
    assert_eq!(
        runtime.step_with(0x8000_0001, None),
        Ok(ExecDebugInfo { bit: Some(true), output: None })
    );
    assert_eq!(runtime.step_with(0, None), Ok(ExecDebugInfo { bit: Some(true), output: None }));
}

#[test]
fn a_random_instruction_empties_the_cell_on_an_even_number() {
    let mut runtime = machine("ex?o");
    assert!(runtime.step_with(1, None).is_ok());
    assert!(runtime.step_with(1, None).is_ok());
    assert_eq!(
        runtime.step_with(0xffff_fffe, None),
        Ok(ExecDebugInfo { bit: Some(false), output: None })
    );
    assert_eq!(runtime.step_with(1, None), Ok(ExecDebugInfo { bit: Some(false), output: None }));
}

#[test]
fn a_random_instruction_draws_a_bit() {
    let mut kept = 0;
    for _ in 0..200 {
        let mut runtime = machine("ex?o");
        assert!(runtime.step(None).is_ok());
        assert!(runtime.step(None).is_ok());
        let drawn = runtime.step(None).expect("a bit is drawn").bit.expect("and told");
        assert_eq!(runtime.step(None), Ok(ExecDebugInfo { bit: Some(drawn), output: None }));
        if drawn {
            kept += 1;
        }
    }
    assert!(0 < kept && kept < 200);
}

#[test]
fn input_bits_decide_over_the_cell() {
    let mut runtime = machine("ex i o i o");
    assert!(!runtime.awaits_input());
    assert!(runtime.step(None).is_ok());
    assert!(runtime.step(None).is_ok());
    assert!(runtime.awaits_input());
    assert_eq!(runtime.step(Some(0x80)), Ok(ExecDebugInfo { bit: Some(true), output: None }));
    assert!(!runtime.awaits_input());
    assert_eq!(runtime.step(Some(0xff)), Ok(ExecDebugInfo { bit: Some(true), output: None }));
    assert!(!runtime.awaits_input());
    assert_eq!(runtime.step(Some(0xff)), Ok(ExecDebugInfo { bit: Some(false), output: None }));
    assert_eq!(runtime.step(Some(0xff)), Ok(ExecDebugInfo { bit: Some(false), output: None }));
}

#[test]
fn a_failing_source_empties_the_cell() {
    assert_eq!(bits("exio", 10), vec![None, None, Some(false), Some(false)]);
}

#[test]
fn input_is_echoed_bit_by_bit() {
    let mut source = String::from("[");
    source.push_str("exio");
    source.push(']');
    let mut runtime = machine(&source);
    let input = [0x4d, 0x54, 0x00, 0xff];
    let mut next = 0;
    let mut bytes = Vec::new();
    while bytes.len() < input.len() {
        let byte = if runtime.awaits_input() {
            next += 1;
            Some(input[next - 1])
        } else {
            None
        };
        if let Some(byte) = runtime.step(byte).expect("the machine goes on").output {
            bytes.push(byte);
        }
    }
    assert_eq!(bytes, input.to_vec());
    assert_eq!(next, input.len());
}

#[test]
fn runs_without_chance_and_input_agree() {
    let source = "@ a { ex< o>o< f{ >ex } o } [ !a { e ( x | x n ) } !a h ]";
    let mut first = machine(source);
    let mut second = machine(source);
    for round in 0..5000u32 {
        let one = first.step_with(round, Some(round as u8));
        let other = second.step_with(round.wrapping_mul(7) + 1, None);
        assert_eq!(one, other);
        assert_eq!(first.get_instruction_pointer(), second.get_instruction_pointer());
        assert_eq!(first.get_head().render(true), second.get_head().render(true));
    }
}

#[test]
fn the_place_of_the_next_instruction_is_told() {
    let mut runtime = machine("e // caf\u{e9}\n  \u{20}{ o }");
    assert_eq!(runtime.position(), Some((1, 1)));
    assert!(runtime.step(None).is_ok());
    assert_eq!(runtime.position(), Some((2, 4)));
    assert!(runtime.step(None).is_ok());
    assert_eq!(runtime.position(), Some((2, 6)));
    assert!(runtime.step(None).is_ok());
    assert_eq!(runtime.position(), None);
}

#[test]
fn a_machine_comes_of_a_text() {
    let mut runtime = metatape::runtime_from_source("xo".to_string()).expect("a program");
    assert_eq!(runtime.get_instruction_pointer(), 0);
    assert!(runtime.step(None).is_ok());
    assert_eq!(runtime.step(None), Ok(ExecDebugInfo { bit: Some(true), output: None }));
    assert!(metatape::runtime_from_source("x)".to_string()).is_err());
}
