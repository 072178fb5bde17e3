use ezfuck::ezfuck::interpreter::IoBuffer;
use ezfuck::standard_brainfuck::interpreter::interpret;
use ezfuck::standard_brainfuck::parser::{parse, EqualityOperator, Instruction, ParseError};

#[test]
fn bf_it_should_produce_the_correct_instruction_for_each_token() {
    let code = "[+-<>.,]";
    let instructions = parse(code).unwrap();

    assert_eq!(
        instructions[0],
        Instruction::JumpToIf { position: 7, operator: EqualityOperator::Equal, match_value: 0 }
    );
    assert_eq!(
        instructions[7],
        Instruction::JumpToIf { position: 0, operator: EqualityOperator::NotEqual, match_value: 0 }
    );

    assert_eq!(instructions[1], Instruction::AddToCell { n: 1 });
    assert_eq!(instructions[2], Instruction::AddToCell { n: -1 });
    assert_eq!(instructions[3], Instruction::AddToCellPtr { offset: -1 });
    assert_eq!(instructions[4], Instruction::AddToCellPtr { offset: 1 });
    assert_eq!(instructions[5], Instruction::PrintOut);
    assert_eq!(instructions[6], Instruction::ReadIn);
}

#[test]
fn bf_it_should_fail_on_mismatched_start_brace() {
    let code = "+[-";
    assert_eq!(parse(code), Err(ParseError::UnmatchedLoopOpen));
}

#[test]
fn bf_it_should_fail_on_mismatched_end_brace() {
    let code = "+]-";
    assert_eq!(parse(code), Err(ParseError::UnmatchedLoopClose));
}

#[test]
fn bf_it_should_print_hello_world() {
    let code = "++++++++[>++++[>++>+++>+++>+<<<<-]>+>+>->>+[<]<-]>>.>---.+++++++..+++.>>.<-.<.+++.------.--------.>>+.>++.";
    let instructions = parse(code).unwrap();

    let mut io = IoBuffer::new(Vec::new());
    interpret(&instructions, &mut io, u64::MAX).unwrap();

    let output_string = String::from_utf8(io.output).unwrap();
    assert_eq!(output_string, "Hello World!\n");
}

#[test]
fn bf_it_should_echo_one_read_byte() {
    let code = ",+.";
    let instructions = parse(code).unwrap();

    let mut io = IoBuffer::new(b"A".to_vec());
    interpret(&instructions, &mut io, u64::MAX).unwrap();
    assert_eq!(io.output, b"B".to_vec());
}
