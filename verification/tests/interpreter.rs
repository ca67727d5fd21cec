use pipelang::machine::{OutEvent, PipeError, PipeInterpreter, RunOutcome};
use pipelang::token::tokenize;

const FUEL: u64 = 1_000_000;

#[test]
fn fresh_interpreter_is_all_zeros_at_position_zero() {
    let it = PipeInterpreter::new();
    assert_eq!(it.position(), 0);
    assert_eq!(it.cell(0), 0);
    assert_eq!(it.cell(15000), 0);
    assert_eq!(it.cell(29999), 0);
}

#[test]
fn empty_program_halts_immediately_with_tape_unchanged() {
    let mut it = PipeInterpreter::new();
    let r = it.interpret(tokenize(""), Vec::new(), FUEL);
    assert_eq!(r, Ok(RunOutcome::Halted(vec![])));
    assert_eq!(it.cell(0), 0);
    assert_eq!(it.cell(29999), 0);
    assert_eq!(it.position(), 0);
}

#[test]
fn unrecognized_source_runs_as_the_empty_program() {
    let mut it = PipeInterpreter::new();
    let r = it.interpret(tokenize("hello, world."), Vec::new(), FUEL);
    assert_eq!(r, Ok(RunOutcome::Halted(vec![])));
    assert_eq!(it.cell(0), 0);
}

#[test]
fn increment_and_decrement_wrap_modulo_30000() {
    let mut it = PipeInterpreter::new();
    let r = it.interpret(tokenize("-"), Vec::new(), FUEL);
    assert_eq!(r, Ok(RunOutcome::Halted(vec![])));
    assert_eq!(it.cell(0), 1);

    let mut it = PipeInterpreter::new();
    let r = it.interpret(tokenize("!"), Vec::new(), FUEL);
    assert_eq!(r, Ok(RunOutcome::Halted(vec![])));
    assert_eq!(it.cell(0), 29999);
}

#[test]
fn increment_then_decrement_restores_the_cell() {
    let mut it = PipeInterpreter::new();
    let r = it.interpret(tokenize("-!"), Vec::new(), FUEL);
    assert_eq!(r, Ok(RunOutcome::Halted(vec![])));
    assert_eq!(it.cell(0), 0);

    // the same starting from an arbitrary cell value
    let mut it = PipeInterpreter::new();
    let r = it.interpret(tokenize("/-!"), vec![String::from("5")], FUEL);
    assert_eq!(r, Ok(RunOutcome::Halted(vec![OutEvent::Prompt])));
    assert_eq!(it.cell(0), 5);
}

#[test]
fn thirty_thousand_increments_are_a_full_cycle() {
    let mut it = PipeInterpreter::new();
    let src = "-".repeat(30000);
    let r = it.interpret(tokenize(&src), Vec::new(), FUEL);
    assert_eq!(r, Ok(RunOutcome::Halted(vec![])));
    assert_eq!(it.cell(0), 0);
}

#[test]
fn reset_zeroes_the_tape_and_position() {
    let mut it = PipeInterpreter::new();
    let r = it.interpret(tokenize("/#"), vec![String::from("7")], FUEL);
    assert_eq!(r, Ok(RunOutcome::Halted(vec![OutEvent::Prompt])));
    assert_eq!(it.cell(0), 0);
    assert_eq!(it.cell(29999), 0);
    assert_eq!(it.position(), 0);

    let mut it = PipeInterpreter::new();
    it.reset();
    assert_eq!(it.cell(0), 0);
    assert_eq!(it.position(), 0);
}

#[test]
fn output_emits_cell_as_character_or_placeholder() {
    // cell 65 prints `A`
    let mut it = PipeInterpreter::new();
    let r = it.interpret(tokenize("/\\"), vec![String::from("65")], FUEL);
    assert_eq!(
        r,
        Ok(RunOutcome::Halted(vec![OutEvent::Prompt, OutEvent::Char('A')]))
    );
    assert_eq!(it.cell(0), 65);

    // cell 128 is out of the printable range: `?`
    let mut it = PipeInterpreter::new();
    let r = it.interpret(tokenize("/\\"), vec![String::from("128")], FUEL);
    assert_eq!(
        r,
        Ok(RunOutcome::Halted(vec![OutEvent::Prompt, OutEvent::Char('?')]))
    );

    // cell 29999 likewise
    let mut it = PipeInterpreter::new();
    let r = it.interpret(tokenize("/\\"), vec![String::from("29999")], FUEL);
    assert_eq!(
        r,
        Ok(RunOutcome::Halted(vec![OutEvent::Prompt, OutEvent::Char('?')]))
    );
}

#[test]
fn newline_token_emits_a_line_break() {
    let mut it = PipeInterpreter::new();
    let r = it.interpret(tokenize("\n"), Vec::new(), FUEL);
    assert_eq!(r, Ok(RunOutcome::Halted(vec![OutEvent::Newline])));
}

#[test]
fn input_stores_a_parsed_line_verbatim() {
    let mut it = PipeInterpreter::new();
    let r = it.interpret(tokenize("/"), vec![String::from("42")], FUEL);
    assert_eq!(r, Ok(RunOutcome::Halted(vec![OutEvent::Prompt])));
    assert_eq!(it.cell(0), 42);

    // out-of-range and negative values are stored without clamping
    let mut it = PipeInterpreter::new();
    let r = it.interpret(tokenize("/"), vec![String::from("40000")], FUEL);
    assert_eq!(r, Ok(RunOutcome::Halted(vec![OutEvent::Prompt])));
    assert_eq!(it.cell(0), 40000);

    let mut it = PipeInterpreter::new();
    let r = it.interpret(tokenize("/"), vec![String::from("-5")], FUEL);
    assert_eq!(r, Ok(RunOutcome::Halted(vec![OutEvent::Prompt])));
    assert_eq!(it.cell(0), -5);
}

#[test]
fn invalid_input_stores_zero_and_reports_it() {
    let mut it = PipeInterpreter::new();
    let r = it.interpret(tokenize("/"), vec![String::from("abc")], FUEL);
    assert_eq!(
        r,
        Ok(RunOutcome::Halted(vec![OutEvent::Prompt, OutEvent::InvalidInput]))
    );
    assert_eq!(it.cell(0), 0);
}

#[test]
fn exhausted_input_script_reads_as_an_empty_line() {
    let mut it = PipeInterpreter::new();
    let r = it.interpret(tokenize("/"), Vec::new(), FUEL);
    assert_eq!(
        r,
        Ok(RunOutcome::Halted(vec![OutEvent::Prompt, OutEvent::InvalidInput]))
    );
    assert_eq!(it.cell(0), 0);
}

#[test]
fn arithmetic_on_out_of_range_cells_uses_the_truncating_remainder() {
    // increment of -1 lands on 0
    let mut it = PipeInterpreter::new();
    let r = it.interpret(tokenize("/-"), vec![String::from("-1")], FUEL);
    assert_eq!(r, Ok(RunOutcome::Halted(vec![OutEvent::Prompt])));
    assert_eq!(it.cell(0), 0);

    // increment of -40000 keeps the sign: the remainder truncates toward zero
    let mut it = PipeInterpreter::new();
    let r = it.interpret(tokenize("/-"), vec![String::from("-40000")], FUEL);
    assert_eq!(r, Ok(RunOutcome::Halted(vec![OutEvent::Prompt])));
    assert_eq!(it.cell(0), -9999);

    // decrement of -5 adds 29999 and reduces
    let mut it = PipeInterpreter::new();
    let r = it.interpret(tokenize("/!"), vec![String::from("-5")], FUEL);
    assert_eq!(r, Ok(RunOutcome::Halted(vec![OutEvent::Prompt])));
    assert_eq!(it.cell(0), 29994);
}

#[test]
fn loop_on_zero_cell_skips_forward_past_the_closing_token() {
    // the token that returns the depth to zero is itself skipped
    let mut it = PipeInterpreter::new();
    let r = it.interpret(tokenize("|-"), Vec::new(), FUEL);
    assert_eq!(r, Ok(RunOutcome::Halted(vec![])));
    assert_eq!(it.cell(0), 0);

    // ... so the increment after the skipped newline still runs
    let mut it = PipeInterpreter::new();
    let r = it.interpret(tokenize("|\n-"), Vec::new(), FUEL);
    assert_eq!(r, Ok(RunOutcome::Halted(vec![])));
    assert_eq!(it.cell(0), 1);
}

#[test]
fn nested_markers_deepen_the_skip() {
    // each extra marker needs one more non-marker token to close the scan
    let mut it = PipeInterpreter::new();
    let r = it.interpret(tokenize("||--"), Vec::new(), FUEL);
    assert_eq!(r, Ok(RunOutcome::Halted(vec![])));
    assert_eq!(it.cell(0), 0);
}

#[test]
fn unmatched_loop_start_is_a_structural_error() {
    let mut it = PipeInterpreter::new();
    let r = it.interpret(tokenize("|"), Vec::new(), FUEL);
    assert_eq!(r, Err(PipeError::UnmatchedLoopStart { position: 1 }));

    let mut it = PipeInterpreter::new();
    let r = it.interpret(tokenize("||"), Vec::new(), FUEL);
    assert_eq!(r, Err(PipeError::UnmatchedLoopStart { position: 2 }));
}

#[test]
fn loop_close_test_on_nonzero_cell_with_no_open_loop_fails() {
    let mut it = PipeInterpreter::new();
    let r = it.interpret(tokenize("-|"), Vec::new(), FUEL);
    assert_eq!(r, Err(PipeError::UnmatchedLoopEnd { position: 1 }));
}

#[test]
fn increment_loop_decrement_source() {
    // `-|!|`: the loop-close test runs after every token whose successor is
    // a loop marker, so it already fires right after the increment, while
    // the cell is 1 and no loop has been opened — a structural error, by
    // the same rule `-|` fails under.
    let mut it = PipeInterpreter::new();
    let r = it.interpret(tokenize("-|!|"), Vec::new(), FUEL);
    assert_eq!(r, Err(PipeError::UnmatchedLoopEnd { position: 1 }));
}

#[test]
fn running_out_of_fuel_reports_progress_so_far() {
    let mut it = PipeInterpreter::new();
    let r = it.interpret(tokenize("---"), Vec::new(), 1);
    assert_eq!(r, Ok(RunOutcome::OutOfFuel(vec![])));
    assert_eq!(it.cell(0), 1);

    let mut it = PipeInterpreter::new();
    let r = it.interpret(tokenize("-"), Vec::new(), 0);
    assert_eq!(r, Ok(RunOutcome::OutOfFuel(vec![])));
    assert_eq!(it.cell(0), 0);

    // an empty program halts even with no fuel at all
    let mut it = PipeInterpreter::new();
    let r = it.interpret(tokenize(""), Vec::new(), 0);
    assert_eq!(r, Ok(RunOutcome::Halted(vec![])));
}

#[test]
fn position_never_moves_during_execution() {
    let mut it = PipeInterpreter::new();
    let r = it.interpret(tokenize("/-!\\\n"), vec![String::from("65")], FUEL);
    assert!(matches!(r, Ok(RunOutcome::Halted(_))));
    assert_eq!(it.position(), 0);
}
