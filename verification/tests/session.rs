use ezfuck::ezfuck::cell_repr::produce_cells_repr;
use ezfuck::ezfuck::interpreter::{interpret, ExecutionState, IoBuffer, RuntimeError};
use ezfuck::ezfuck::parser::{compile_to_intermediate, CompileError};
use ezfuck::ezfuck::repl::start_repl;

#[test]
fn it_should_render_the_tape_rows_with_padded_digits() {
    let cells = vec![72, 0];
    let repr = produce_cells_repr(&cells, 0);
    assert_eq!(repr, "     V  \ni | 000 |\nd | 072 |\na |  H  |\n");
}

#[test]
fn it_should_render_up_to_the_pointer_when_cells_past_it_are_zero() {
    let cells = vec![0, 0, 0];
    let repr = produce_cells_repr(&cells, 1);
    assert_eq!(
        repr,
        "           V  \ni | 000 | 001 |\nd | 000 | 000 |\na |     |     |\n"
    );
}

#[test]
fn it_should_quit_the_debugger_and_skip_the_frozen_instruction() {
    // The breakpoint pauses before the instruction at index 3; a quit
    // line clears the flag and that instruction is not executed.
    let code = "++!++.";
    let instructions = compile_to_intermediate(code, true).unwrap();

    let mut state = ExecutionState::new();
    let mut io = IoBuffer::new(b"!\n".to_vec());
    interpret(&instructions, &mut state, &mut io, true, u64::MAX).unwrap();
    assert_eq!(state.cells, vec![3]);
    assert_eq!(io.output.last(), Some(&3u8));
}

#[test]
fn it_should_run_a_debugger_line_against_the_live_tape_and_resume() {
    // The line sets the current cell to 9; the frozen instruction and
    // the one after it then add 1 each before the print.
    let code = "++!++.";
    let instructions = compile_to_intermediate(code, true).unwrap();

    let mut state = ExecutionState::new();
    let mut io = IoBuffer::new(b"^9\n".to_vec());
    interpret(&instructions, &mut state, &mut io, true, u64::MAX).unwrap();
    assert_eq!(state.cells, vec![11]);
    // The print came last, followed by the stepper's closing newline.
    assert!(io.output.ends_with(&[11, 10]));
}

#[test]
fn it_should_restore_the_cell_pointer_but_keep_tape_mutations_after_a_debugger_line() {
    let code = "+!.";
    let instructions = compile_to_intermediate(code, true).unwrap();

    let mut state = ExecutionState::new();
    let mut io = IoBuffer::new(b">^7\n".to_vec());
    interpret(&instructions, &mut state, &mut io, true, u64::MAX).unwrap();
    // The nested line moved right and wrote 7 there; the pointer came
    // back to cell 0, whose value 1 is what the print emitted.
    assert_eq!(state.cells, vec![1, 7]);
    assert_eq!(state.cell_ptr, 0);
    // The print came last, followed by the stepper's closing newline.
    assert!(io.output.ends_with(&[1, 10]));
}

#[test]
fn it_should_ignore_breakpoints_when_debugging_is_not_allowed() {
    let code = "++!++.";
    let instructions = compile_to_intermediate(code, true).unwrap();

    let mut state = ExecutionState::new();
    let mut io = IoBuffer::new(Vec::new());
    interpret(&instructions, &mut state, &mut io, false, u64::MAX).unwrap();
    assert_eq!(state.cells, vec![4]);
    assert_eq!(io.output, vec![4]);
}

#[test]
fn it_should_fail_the_run_when_a_debugger_line_does_not_compile() {
    let code = "+!+";
    let instructions = compile_to_intermediate(code, true).unwrap();

    let mut state = ExecutionState::new();
    let mut io = IoBuffer::new(b"[\n".to_vec());
    let result = interpret(&instructions, &mut state, &mut io, true, u64::MAX);
    assert_eq!(
        result,
        Err(RuntimeError::LineCompile(CompileError::UnmatchedLoopOpen))
    );
}

#[test]
fn it_should_run_repl_lines_against_a_persistent_tape() {
    let mut io = IoBuffer::new(b"+5\n+3.\n!quit\n".to_vec());
    start_repl(&mut io, u64::MAX).unwrap();
    let output = String::from_utf8(io.output).unwrap();
    // Two lines ran against the same tape: the second print shows 8.
    assert!(output.contains("EZ> "));
    assert!(output.contains("Output: "));
    assert!(output.contains('\u{8}'));
    // The rendering before the quit line shows the cell holding 008.
    assert!(output.contains("| 008 |"));
}

#[test]
fn it_should_stop_the_repl_on_a_compile_error() {
    let mut io = IoBuffer::new(b"+[\n".to_vec());
    let result = start_repl(&mut io, u64::MAX);
    assert_eq!(
        result,
        Err(RuntimeError::LineCompile(CompileError::UnmatchedLoopOpen))
    );
}

#[test]
fn it_should_end_the_repl_at_the_end_of_input() {
    let mut io = IoBuffer::new(Vec::new());
    let result = start_repl(&mut io, u64::MAX);
    assert_eq!(result, Ok(()));
}
