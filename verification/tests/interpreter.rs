use ezfuck::ezfuck::interpreter::{
    interpret, interpret_instruction, ExecutionState, IoBuffer, RuntimeError,
};
use ezfuck::ezfuck::parser::{
    compile_to_intermediate, CellMoveOperator, EqualityOperator, Instruction, MathOperator, Value,
};

fn interpret_and_collect_output(
    instructions: &Vec<Instruction>,
    state: &mut ExecutionState,
    input: &[u8],
) -> String {
    let mut io = IoBuffer::new(input.to_vec());
    interpret(instructions, state, &mut io, false, u64::MAX).unwrap();
    String::from_utf8(io.output).unwrap()
}

fn interpret_instruction_and_collect_output(
    instruction: Instruction,
    state: &mut ExecutionState,
    input: &[u8],
) -> String {
    let mut io = IoBuffer::new(input.to_vec());
    interpret_instruction(instruction, state, &mut io, false).unwrap();
    String::from_utf8(io.output).unwrap()
}

#[test]
fn it_should_add_to_the_current_cell() {
    let instruction = Instruction::ApplyOperatorToCell {
        operator: MathOperator::Addition,
        value: Value::Number(5),
    };

    let mut state = ExecutionState::new();
    interpret_instruction_and_collect_output(instruction, &mut state, b"");
    assert_eq!(state.cells, vec![5]);
}

#[test]
fn it_should_subtract_from_the_current_cell() {
    let instruction = Instruction::ApplyOperatorToCell {
        operator: MathOperator::Subtraction,
        value: Value::Number(5),
    };

    let mut state = ExecutionState::new();
    state.set_current_cell(20);
    interpret_instruction_and_collect_output(instruction, &mut state, b"");
    assert_eq!(state.cells, vec![15]);
}

#[test]
fn it_should_multiply_the_current_cell() {
    let instruction = Instruction::ApplyOperatorToCell {
        operator: MathOperator::Multiplication,
        value: Value::Number(5),
    };

    let mut state = ExecutionState::new();
    state.set_current_cell(10);
    interpret_instruction_and_collect_output(instruction, &mut state, b"");
    assert_eq!(state.cells, vec![50]);
}

#[test]
fn it_should_divide_the_current_cell() {
    let instruction = Instruction::ApplyOperatorToCell {
        operator: MathOperator::Division,
        value: Value::Number(5),
    };

    let mut state = ExecutionState::new();
    state.set_current_cell(50);
    interpret_instruction_and_collect_output(instruction, &mut state, b"");
    assert_eq!(state.cells, vec![10]);
}

#[test]
fn it_should_jump_the_instruction_pointer_if_equal() {
    let instruction = Instruction::JumpToIf {
        operator: EqualityOperator::Equal,
        match_value: 10,
        position: 5,
    };

    let mut state = ExecutionState::new();
    state.set_current_cell(10);
    interpret_instruction_and_collect_output(instruction, &mut state, b"");
    assert_eq!(state.instruction_ptr, 5);
}

#[test]
fn it_should_not_jump_the_instruction_pointer_if_not_equal() {
    let instruction = Instruction::JumpToIf {
        operator: EqualityOperator::Equal,
        match_value: 100,
        position: 5,
    };

    let mut state = ExecutionState::new();
    state.set_current_cell(10);
    interpret_instruction_and_collect_output(instruction, &mut state, b"");
    assert_eq!(state.instruction_ptr, 0);
}

#[test]
fn it_should_jump_the_instruction_pointer_if_not_equal() {
    let instruction = Instruction::JumpToIf {
        operator: EqualityOperator::NotEqual,
        match_value: 10,
        position: 5,
    };

    let mut state = ExecutionState::new();
    state.set_current_cell(5);
    interpret_instruction_and_collect_output(instruction, &mut state, b"");
    assert_eq!(state.instruction_ptr, 5);
}

#[test]
fn it_should_move_the_instruction_pointer_to_the_left() {
    let instruction = Instruction::ApplyOperatorToCellPtr {
        operator: CellMoveOperator::Left,
        value: Value::Number(5),
    };

    let mut state = ExecutionState::new();
    state.set_cell_pointer(20);
    interpret_instruction_and_collect_output(instruction, &mut state, b"");
    assert_eq!(state.cell_ptr, 15);
}

#[test]
fn it_should_set_the_current_cell() {
    let instruction = Instruction::SetCell { value: Value::Number(5) };

    let mut state = ExecutionState::new();
    interpret_instruction_and_collect_output(instruction, &mut state, b"");
    assert_eq!(state.cells, vec![5]);
}

#[test]
fn it_should_move_the_instruction_pointer_to_the_right() {
    let instruction = Instruction::ApplyOperatorToCellPtr {
        operator: CellMoveOperator::Right,
        value: Value::Number(5),
    };

    let mut state = ExecutionState::new();
    interpret_instruction_and_collect_output(instruction, &mut state, b"");
    assert_eq!(state.cell_ptr, 5);
}

#[test]
fn it_should_not_jump_the_instruction_pointer_if_equal() {
    let instruction = Instruction::JumpToIf {
        operator: EqualityOperator::NotEqual,
        match_value: 10,
        position: 5,
    };

    let mut state = ExecutionState::new();
    state.set_current_cell(10);
    interpret_instruction_and_collect_output(instruction, &mut state, b"");
    assert_eq!(state.instruction_ptr, 0);
}

#[test]
fn it_should_print_hello_world() {
    let code = "++++++++[>++++[>++>+++>+++>+<<<<-]>+>+>->>+[<]<-]>>.>---.+++++++..+++.>>.<-.<.+++.------.--------.>>+.>++.";
    let instructions = compile_to_intermediate(code, false).unwrap();

    let mut state = ExecutionState::new();
    let output_string = interpret_and_collect_output(&instructions, &mut state, b"");
    assert_eq!(output_string, "Hello World!\n");
}

#[test]
fn it_should_print_hello_world_using_values() {
    let code = "+8[>+4[>+2>+3>+3>+<4-]>+>+>->2+[<]<-]>2.>-3.+7..+3.>2.<-.<.+3.-6.-8.>2+.>+2.";
    let instructions = compile_to_intermediate(code, false).unwrap();

    let mut state = ExecutionState::new();
    let output_string = interpret_and_collect_output(&instructions, &mut state, b"");
    assert_eq!(output_string, "Hello World!\n");
}

#[test]
fn it_should_set_cell_value_using_extraction() {
    let code = "^65 .";
    let instructions = compile_to_intermediate(code, false).unwrap();

    let mut state = ExecutionState::new();
    let output_string = interpret_and_collect_output(&instructions, &mut state, b"");
    assert_eq!(output_string, "A");
}

#[test]
fn it_should_properly_parse_concurrent_insertions() {
    let code = "^^65 .";
    let instructions = compile_to_intermediate(code, false).unwrap();

    let mut state = ExecutionState::new();
    let output_string = interpret_and_collect_output(&instructions, &mut state, b"");
    assert_eq!(output_string, "A");
}

#[test]
fn it_should_wrap_cell_values_properly_on_increment() {
    let increment = Instruction::ApplyOperatorToCell {
        operator: MathOperator::Addition,
        value: Value::Number(2),
    };

    let mut state = ExecutionState::new();
    state.set_current_cell(255);
    interpret_instruction_and_collect_output(increment, &mut state, b"");
    assert_eq!(state.get_current_cell(), 1);
}

#[test]
fn it_should_wrap_cell_values_properly_on_decrement() {
    let decrement = Instruction::ApplyOperatorToCell {
        operator: MathOperator::Subtraction,
        value: Value::Number(2),
    };

    let mut state = ExecutionState::new();
    state.set_current_cell(0);
    interpret_instruction_and_collect_output(decrement, &mut state, b"");
    assert_eq!(state.get_current_cell(), 254);
}

#[test]
fn it_should_read_one_input_byte_per_read_instruction() {
    let code = ",+.";
    let instructions = compile_to_intermediate(code, false).unwrap();

    let mut state = ExecutionState::new();
    let output_string = interpret_and_collect_output(&instructions, &mut state, b"A");
    assert_eq!(output_string, "B");
}

#[test]
fn it_should_fail_on_reading_past_the_end_of_input() {
    let code = ",";
    let instructions = compile_to_intermediate(code, false).unwrap();

    let mut state = ExecutionState::new();
    let mut io = IoBuffer::new(Vec::new());
    let result = interpret(&instructions, &mut state, &mut io, false, u64::MAX);
    assert_eq!(result, Err(RuntimeError::EndOfInput));
}

#[test]
fn it_should_fail_on_division_by_zero() {
    let code = "+5/0";
    let instructions = compile_to_intermediate(code, false).unwrap();

    let mut state = ExecutionState::new();
    let mut io = IoBuffer::new(Vec::new());
    let result = interpret(&instructions, &mut state, &mut io, false, u64::MAX);
    assert_eq!(result, Err(RuntimeError::DivisionByZero));
}

#[test]
fn it_should_fail_on_pointer_underflow_even_when_later_moves_recover() {
    let code = "<>";
    let instructions = compile_to_intermediate(code, false).unwrap();

    let mut state = ExecutionState::new();
    let mut io = IoBuffer::new(Vec::new());
    let result = interpret(&instructions, &mut state, &mut io, false, u64::MAX);
    assert_eq!(result, Err(RuntimeError::PointerUnderflow));
}

#[test]
fn it_should_grow_the_tape_with_zero_cells_on_net_right_movement() {
    let code = ">3<1>2";
    let instructions = compile_to_intermediate(code, false).unwrap();

    let mut state = ExecutionState::new();
    interpret_and_collect_output(&instructions, &mut state, b"");
    assert_eq!(state.cell_ptr, 4);
    assert!(state.cells.len() >= 5);
    assert!(state.cells.iter().all(|cell| *cell == 0));
}

#[test]
fn it_should_stop_with_a_step_limit_on_a_program_that_never_halts() {
    let code = "+[]";
    let instructions = compile_to_intermediate(code, false).unwrap();

    let mut state = ExecutionState::new();
    let mut io = IoBuffer::new(Vec::new());
    let result = interpret(&instructions, &mut state, &mut io, false, 1000);
    assert_eq!(result, Err(RuntimeError::StepLimit));
}

#[test]
fn it_should_produce_identical_output_when_run_twice_from_fresh_machines() {
    let code = "+8[>+4[>+2>+3>+3>+<4-]>+>+>->2+[<]<-]>2.>-3.+7..+3.>2.<-.<.+3.-6.-8.>2+.>+2.";
    let instructions = compile_to_intermediate(code, false).unwrap();

    let mut first_state = ExecutionState::new();
    let first = interpret_and_collect_output(&instructions, &mut first_state, b"");
    let mut second_state = ExecutionState::new();
    let second = interpret_and_collect_output(&instructions, &mut second_state, b"");
    assert_eq!(first, second);
}

#[test]
fn it_should_resolve_the_current_cell_operand_before_the_mutation() {
    let code = "+V";
    let instructions = compile_to_intermediate(code, false).unwrap();

    let mut state = ExecutionState::new();
    state.set_current_cell(9);
    interpret_and_collect_output(&instructions, &mut state, b"");
    assert_eq!(state.get_current_cell(), 18);
}

#[test]
fn it_should_set_the_cell_pointer_directly_with_the_set_operator() {
    let code = "@3^7";
    let instructions = compile_to_intermediate(code, false).unwrap();

    let mut state = ExecutionState::new();
    interpret_and_collect_output(&instructions, &mut state, b"");
    assert_eq!(state.cell_ptr, 3);
    assert_eq!(state.cells, vec![0, 0, 0, 7]);
}
