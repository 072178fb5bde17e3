use ezfuck::ezfuck::parser::{
    compile_to_intermediate, evaluate_lexemes, parse_tokens, scan_code, CellMoveOperator, Command,
    CompileError, EqualityOperator, Instruction, MathOperator, Token, Value,
};

#[test]
fn it_should_produce_the_correct_lexemes() {
    let code = vec!['+', ' ', 'V', '1', '+', '2', '3', '+', '4', ' '];
    let lexemes = scan_code(&code);

    assert_eq!(lexemes, vec!["+", "V", "1", "+", "23", "+", "4"]);
}

#[test]
fn it_should_split_consecutive_commands_in_a_row_as_different_lexemes() {
    let code = vec!['+', '+', '-', '-'];
    let lexemes = scan_code(&code);

    assert_eq!(lexemes, vec!["+", "+", "-", "-"]);
}

#[test]
fn it_should_produce_the_correct_tokens() {
    let lexemes = vec![
        String::from("+"),
        String::from("123"),
        String::from("-"),
        String::from("V"),
    ];
    let tokens = evaluate_lexemes(lexemes).unwrap();

    assert_eq!(
        tokens,
        vec![
            Token::Command { value: '+' },
            Token::IntegerLiteral { value: 123 },
            Token::Command { value: '-' },
            Token::CurrentCellReference,
        ]
    );
}

#[test]
fn it_should_reject_an_unknown_lexeme() {
    let lexemes = vec![String::from("|")];
    let result = evaluate_lexemes(lexemes);
    assert_eq!(result, Err(CompileError::UnknownLexeme));
}

#[test]
fn it_should_reject_an_integer_literal_that_does_not_fit_in_a_byte() {
    let instructions = compile_to_intermediate("+999", false);
    assert_eq!(instructions, Err(CompileError::InvalidIntegerLiteral));
}

#[test]
fn it_should_produce_the_correct_commands() {
    let tokens = vec![
        Token::Command { value: '+' },
        Token::Command { value: '+' },
        Token::IntegerLiteral { value: 123 },
        Token::Command { value: '-' },
        Token::CurrentCellReference,
    ];
    let commands = parse_tokens(tokens).unwrap();

    assert_eq!(
        commands,
        vec![
            Command { symbol: '+', value: None },
            Command { symbol: '+', value: Some(Value::Number(123)) },
            Command { symbol: '-', value: Some(Value::CurrentCell) },
        ]
    );
}

#[test]
fn it_should_reject_an_operand_with_no_preceding_command() {
    let instructions = compile_to_intermediate("5+", false);
    assert_eq!(instructions, Err(CompileError::OperandWithoutCommand));
}

#[test]
fn it_should_reject_an_operand_on_a_valueless_command() {
    let instructions = compile_to_intermediate("[5]", false);
    assert_eq!(instructions, Err(CompileError::OperandOnValuelessCommand));
}

#[test]
fn it_should_ignore_invalid_characters() {
    let code = "+None of this should be considered*";
    let instructions = compile_to_intermediate(code, false).unwrap();

    assert_eq!(instructions.len(), 2);

    assert_eq!(
        instructions[0],
        Instruction::ApplyOperatorToCell {
            operator: MathOperator::Addition,
            value: Value::Number(1)
        }
    );
    assert_eq!(
        instructions[1],
        Instruction::ApplyOperatorToCell {
            operator: MathOperator::Multiplication,
            value: Value::Number(1)
        }
    );
}

#[test]
fn it_should_produce_the_correct_instruction_for_each_token() {
    let code = "[]+-*/<>@.,^";
    let instructions = compile_to_intermediate(code, false).unwrap();

    assert_eq!(instructions.len(), 12);

    assert_eq!(
        instructions[0],
        Instruction::JumpToIf { position: 1, operator: EqualityOperator::Equal, match_value: 0 }
    );
    assert_eq!(
        instructions[1],
        Instruction::JumpToIf { position: 0, operator: EqualityOperator::NotEqual, match_value: 0 }
    );

    assert_eq!(
        instructions[2],
        Instruction::ApplyOperatorToCell {
            operator: MathOperator::Addition,
            value: Value::Number(1)
        }
    );
    assert_eq!(
        instructions[3],
        Instruction::ApplyOperatorToCell {
            operator: MathOperator::Subtraction,
            value: Value::Number(1)
        }
    );
    assert_eq!(
        instructions[4],
        Instruction::ApplyOperatorToCell {
            operator: MathOperator::Multiplication,
            value: Value::Number(1)
        }
    );
    assert_eq!(
        instructions[5],
        Instruction::ApplyOperatorToCell {
            operator: MathOperator::Division,
            value: Value::Number(1)
        }
    );
    assert_eq!(
        instructions[6],
        Instruction::ApplyOperatorToCellPtr {
            operator: CellMoveOperator::Left,
            value: Value::Number(1)
        }
    );
    assert_eq!(
        instructions[7],
        Instruction::ApplyOperatorToCellPtr {
            operator: CellMoveOperator::Right,
            value: Value::Number(1)
        }
    );
    assert_eq!(
        instructions[8],
        Instruction::ApplyOperatorToCellPtr {
            operator: CellMoveOperator::SetTo,
            value: Value::Number(1)
        }
    );
    assert_eq!(instructions[9], Instruction::PrintOut);
    assert_eq!(instructions[10], Instruction::ReadIn);
    assert_eq!(instructions[11], Instruction::SetCell { value: Value::Number(1) });
}

#[test]
fn it_should_properly_read_instruction_values_and_default_missing_ones_to_one() {
    let code = "++1+2+3+40+200";
    let instructions = compile_to_intermediate(code, false).unwrap();

    assert_eq!(instructions.len(), 6);

    assert_eq!(
        instructions[0],
        Instruction::ApplyOperatorToCell {
            operator: MathOperator::Addition,
            value: Value::Number(1)
        }
    );
    assert_eq!(
        instructions[1],
        Instruction::ApplyOperatorToCell {
            operator: MathOperator::Addition,
            value: Value::Number(1)
        }
    );
    assert_eq!(
        instructions[2],
        Instruction::ApplyOperatorToCell {
            operator: MathOperator::Addition,
            value: Value::Number(2)
        }
    );
    assert_eq!(
        instructions[3],
        Instruction::ApplyOperatorToCell {
            operator: MathOperator::Addition,
            value: Value::Number(3)
        }
    );
    assert_eq!(
        instructions[4],
        Instruction::ApplyOperatorToCell {
            operator: MathOperator::Addition,
            value: Value::Number(40)
        }
    );
    assert_eq!(
        instructions[5],
        Instruction::ApplyOperatorToCell {
            operator: MathOperator::Addition,
            value: Value::Number(200)
        }
    );
}

#[test]
fn it_should_properly_add_insertion_values() {
    let code = "+V";
    let instructions = compile_to_intermediate(code, false).unwrap();

    assert_eq!(instructions.len(), 1);
    assert_eq!(
        instructions[0],
        Instruction::ApplyOperatorToCell {
            operator: MathOperator::Addition,
            value: Value::CurrentCell
        }
    );
}

#[test]
fn it_should_fail_on_mismatched_start_brace() {
    let code = "+[-";
    let instructions = compile_to_intermediate(code, false);
    assert_eq!(instructions, Err(CompileError::UnmatchedLoopOpen));
}

#[test]
fn it_should_fail_on_mismatched_end_brace() {
    let code = "+]-";
    let instructions = compile_to_intermediate(code, false);
    assert_eq!(instructions, Err(CompileError::UnmatchedLoopClose));
}

#[test]
fn it_should_compile_an_empty_loop_to_a_matching_jump_pair() {
    let instructions = compile_to_intermediate("[]", false).unwrap();

    assert_eq!(instructions.len(), 2);
    assert_eq!(
        instructions[0],
        Instruction::JumpToIf { position: 1, operator: EqualityOperator::Equal, match_value: 0 }
    );
    assert_eq!(
        instructions[1],
        Instruction::JumpToIf { position: 0, operator: EqualityOperator::NotEqual, match_value: 0 }
    );
}

#[test]
fn it_should_drop_breakpoints_when_debugging_is_disabled() {
    let with_debugging = compile_to_intermediate("+!-", true).unwrap();
    let without_debugging = compile_to_intermediate("+!-", false).unwrap();

    assert_eq!(with_debugging.len(), 3);
    assert_eq!(with_debugging[1], Instruction::Breakpoint);
    assert_eq!(without_debugging.len(), 2);
}

#[test]
fn it_should_resolve_loop_targets_against_the_kept_commands() {
    let instructions = compile_to_intermediate("![]", false).unwrap();

    assert_eq!(instructions.len(), 2);
    assert_eq!(
        instructions[0],
        Instruction::JumpToIf { position: 1, operator: EqualityOperator::Equal, match_value: 0 }
    );
    assert_eq!(
        instructions[1],
        Instruction::JumpToIf { position: 0, operator: EqualityOperator::NotEqual, match_value: 0 }
    );
}
