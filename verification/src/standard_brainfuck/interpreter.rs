//! The plain Brainfuck interpreter: a growable zeroed tape, a cell
//! pointer and an instruction pointer, run against byte-buffer input
//! and output.  Its semantics is the small-step `bf_effect`, iterated
//! by the fuel-indexed `bf_run`.

use crate::ezfuck::interpreter::{
    add_cell_ptr_value, advance, cur_cell, grown, moved_to, print_value, read_value, with_cell,
    IoBuffer, MachineView, RuntimeError,
};
use crate::standard_brainfuck::parser::{EqualityOperator, Instruction};
use vstd::prelude::*;

verus! {

/// Grows the tape with zero cells until `slot_i` is a valid index.
pub fn ensure_cell(cells: &mut Vec<u8>, slot_i: usize)
    ensures
        final(cells)@ == grown(old(cells)@, slot_i as nat),
        (slot_i as int) < final(cells)@.len(),
{
    let ghost pre = cells@;
    if cells.len() > slot_i {
        proof {
            assert(grown(pre, slot_i as nat) == pre);
        }
        return ;
    }
    while cells.len() <= slot_i
        invariant
            pre.len() <= cells@.len() <= slot_i + 1,
            cells@ == pre + Seq::new((cells@.len() - pre.len()) as nat, |k: int| 0u8),
        decreases slot_i + 1 - cells@.len(),
    {
        cells.push(0);
        proof {
            assert(cells@ =~= pre + Seq::new((cells@.len() - pre.len()) as nat, |k: int| 0u8));
        }
    }
    proof {
        assert(cells@.len() == slot_i + 1);
        assert(cells@ =~= grown(pre, slot_i as nat));
    }
}

/// Byte addition with a signed operand, wrapping modulo 256.
pub open spec fn wrap_add_signed(c: u8, n: i8) -> u8 {
    ((c + n + 256) % 256) as u8
}

/// Adds a signed amount to a cell, wrapping on overflow either way.
pub fn add_cell_value(current_cell_value: u8, add_value: i8) -> (r: u8)
    ensures
        r == wrap_add_signed(current_cell_value, add_value),
{
    current_cell_value.wrapping_add_signed(add_value)
}

/// What one plain Brainfuck instruction does to the machine, or the
/// error that aborts the run.
pub open spec fn bf_effect(instr: Instruction, input: Seq<u8>, m: MachineView) -> Result<
    MachineView,
    RuntimeError,
> {
    match instr {
        Instruction::AddToCell { n } => Ok(with_cell(m, wrap_add_signed(cur_cell(m), n))),
        Instruction::AddToCellPtr { offset } => if m.cell_ptr + offset < 0 {
            Err(RuntimeError::PointerUnderflow)
        } else if m.cell_ptr + offset > usize::MAX {
            Err(RuntimeError::PointerOverflow)
        } else {
            Ok(moved_to(m, (m.cell_ptr + offset) as nat))
        },
        Instruction::JumpToIf { position, operator, match_value } => {
            let hit = match operator {
                EqualityOperator::Equal => cur_cell(m) == match_value,
                EqualityOperator::NotEqual => cur_cell(m) != match_value,
            };
            if hit {
                Ok(MachineView { instr_ptr: position as nat, ..m })
            } else {
                Ok(m)
            }
        },
        Instruction::PrintOut => Ok(MachineView { output: m.output.push(cur_cell(m)), ..m }),
        Instruction::ReadIn => if m.in_pos < input.len() {
            Ok(
                MachineView {
                    cells: m.cells.update(m.cell_ptr as int, input[m.in_pos as int]),
                    in_pos: m.in_pos + 1,
                    ..m
                },
            )
        } else {
            Err(RuntimeError::EndOfInput)
        },
    }
}

/// Runs the machine for at most `fuel` instructions: the halted
/// machine, or the machine at the fault together with the error.
pub open spec fn bf_run(
    instrs: Seq<Instruction>,
    input: Seq<u8>,
    m: MachineView,
    fuel: nat,
) -> Result<MachineView, (MachineView, RuntimeError)>
    decreases fuel,
{
    if m.instr_ptr >= instrs.len() {
        Ok(m)
    } else if fuel == 0 {
        Err((m, RuntimeError::StepLimit))
    } else {
        let effect = bf_effect(instrs[m.instr_ptr as int], input, m);
        if effect is Ok {
            bf_run(instrs, input, advance(effect->Ok_0), (fuel - 1) as nat)
        } else {
            Err((m, effect->Err_0))
        }
    }
}

/// Every jump target of the list stays below `bound`.
pub open spec fn bf_targets_bounded(instrs: Seq<Instruction>, bound: int) -> bool {
    forall|k: int|
        0 <= k < instrs.len() ==> match #[trigger] instrs[k] {
            Instruction::JumpToIf { position, .. } => (position as int) < bound,
            _ => true,
        }
}

proof fn lemma_bf_run_halted(instrs: Seq<Instruction>, input: Seq<u8>, m: MachineView, fuel: nat)
    requires
        m.instr_ptr >= instrs.len(),
    ensures
        bf_run(instrs, input, m, fuel) == Ok::<MachineView, (MachineView, RuntimeError)>(m),
{
}

proof fn lemma_bf_run_out_of_fuel(instrs: Seq<Instruction>, input: Seq<u8>, m: MachineView)
    requires
        m.instr_ptr < instrs.len(),
    ensures
        bf_run(instrs, input, m, 0) == Err::<MachineView, (MachineView, RuntimeError)>(
            (m, RuntimeError::StepLimit),
        ),
{
}

proof fn lemma_bf_run_step(instrs: Seq<Instruction>, input: Seq<u8>, m: MachineView, fuel: nat)
    requires
        m.instr_ptr < instrs.len(),
        fuel > 0,
    ensures
        bf_effect(instrs[m.instr_ptr as int], input, m) is Ok ==> bf_run(instrs, input, m, fuel)
            == bf_run(
            instrs,
            input,
            advance(bf_effect(instrs[m.instr_ptr as int], input, m)->Ok_0),
            (fuel - 1) as nat,
        ),
        bf_effect(instrs[m.instr_ptr as int], input, m) is Err ==> bf_run(instrs, input, m, fuel)
            == Err::<MachineView, (MachineView, RuntimeError)>(
            (m, bf_effect(instrs[m.instr_ptr as int], input, m)->Err_0),
        ),
{
}

/// Runs a plain Brainfuck instruction list from a fresh tape against
/// the input buffer, for at most `max_steps` instructions.
pub fn interpret(instructions: &Vec<Instruction>, io: &mut IoBuffer, max_steps: u64) -> (r: Result<
    (),
    RuntimeError,
>)
    requires
        old(io).wf(),
        bf_targets_bounded(instructions@, usize::MAX as int),
    ensures
        final(io).wf(),
        final(io).input@ == old(io).input@,
        ({
            let init = MachineView {
                cells: seq![0u8],
                cell_ptr: 0,
                instr_ptr: 0,
                debugging: false,
                in_pos: old(io).in_pos as nat,
                output: old(io).output@,
            };
            let outcome = bf_run(instructions@, old(io).input@, init, max_steps as nat);
            &&& r is Ok ==> outcome is Ok && outcome->Ok_0.output == final(io).output@
                && outcome->Ok_0.in_pos == final(io).in_pos
            &&& r is Err ==> outcome is Err && outcome->Err_0.0.output == final(io).output@
                && outcome->Err_0.0.in_pos == final(io).in_pos && outcome->Err_0.1 == r->Err_0
        }),
{
    let mut instruction_ptr: usize = 0;
    let mut cell_ptr: usize = 0;
    let mut cells: Vec<u8> = Vec::new();
    cells.push(0);
    let ghost input0 = io.input@;
    let ghost init = MachineView {
        cells: cells@,
        cell_ptr: cell_ptr as nat,
        instr_ptr: instruction_ptr as nat,
        debugging: false,
        in_pos: io.in_pos as nat,
        output: io.output@,
    };
    proof {
        assert(init =~= (MachineView {
            cells: seq![0u8],
            cell_ptr: 0,
            instr_ptr: 0,
            debugging: false,
            in_pos: old(io).in_pos as nat,
            output: old(io).output@,
        }));
    }
    let mut fuel: u64 = max_steps;
    while instruction_ptr < instructions.len()
        invariant
            io.wf(),
            input0 == old(io).input@,
            io.input@ == input0,
            (cell_ptr as int) < cells@.len(),
            bf_targets_bounded(instructions@, usize::MAX as int),
            fuel <= max_steps,
            init == (MachineView {
                cells: seq![0u8],
                cell_ptr: 0,
                instr_ptr: 0,
                debugging: false,
                in_pos: old(io).in_pos as nat,
                output: old(io).output@,
            }),
            bf_run(instructions@, input0, init, max_steps as nat) == bf_run(
                instructions@,
                input0,
                MachineView {
                    cells: cells@,
                    cell_ptr: cell_ptr as nat,
                    instr_ptr: instruction_ptr as nat,
                    debugging: false,
                    in_pos: io.in_pos as nat,
                    output: io.output@,
                },
                fuel as nat,
            ),
        decreases fuel,
    {
        let ghost m_pre = MachineView {
            cells: cells@,
            cell_ptr: cell_ptr as nat,
            instr_ptr: instruction_ptr as nat,
            debugging: false,
            in_pos: io.in_pos as nat,
            output: io.output@,
        };
        if fuel == 0 {
            proof {
                lemma_bf_run_out_of_fuel(instructions@, input0, m_pre);
            }
            return Err(RuntimeError::StepLimit);
        }
        proof {
            lemma_bf_run_step(instructions@, input0, m_pre, fuel as nat);
        }
        let current_instruction = instructions[instruction_ptr];
        match current_instruction {
            Instruction::AddToCell { n } => {
                let new_cell_value = add_cell_value(cells[cell_ptr], n);
                cells[cell_ptr] = new_cell_value;
                proof {
                    assert((MachineView {
                        cells: cells@,
                        cell_ptr: cell_ptr as nat,
                        instr_ptr: instruction_ptr as nat,
                        debugging: false,
                        in_pos: io.in_pos as nat,
                        output: io.output@,
                    }) =~= bf_effect(current_instruction, input0, m_pre)->Ok_0);
                }
            },
            Instruction::AddToCellPtr { offset } => {
                match add_cell_ptr_value(cell_ptr, offset) {
                    Ok(new_cell_ptr) => {
                        ensure_cell(&mut cells, new_cell_ptr);
                        cell_ptr = new_cell_ptr;
                        proof {
                            assert((MachineView {
                                cells: cells@,
                                cell_ptr: cell_ptr as nat,
                                instr_ptr: instruction_ptr as nat,
                                debugging: false,
                                in_pos: io.in_pos as nat,
                                output: io.output@,
                            }) =~= bf_effect(current_instruction, input0, m_pre)->Ok_0);
                        }
                    },
                    Err(e) => {
                        return Err(e);
                    },
                }
            },
            Instruction::JumpToIf { position, operator, match_value } => {
                match operator {
                    EqualityOperator::Equal => {
                        if cells[cell_ptr] == match_value {
                            instruction_ptr = position;
                        }
                    },
                    EqualityOperator::NotEqual => {
                        if cells[cell_ptr] != match_value {
                            instruction_ptr = position;
                        }
                    },
                }
                proof {
                    assert((MachineView {
                        cells: cells@,
                        cell_ptr: cell_ptr as nat,
                        instr_ptr: instruction_ptr as nat,
                        debugging: false,
                        in_pos: io.in_pos as nat,
                        output: io.output@,
                    }) =~= bf_effect(current_instruction, input0, m_pre)->Ok_0);
                }
            },
            Instruction::PrintOut => {
                print_value(io, cells[cell_ptr]);
                proof {
                    assert((MachineView {
                        cells: cells@,
                        cell_ptr: cell_ptr as nat,
                        instr_ptr: instruction_ptr as nat,
                        debugging: false,
                        in_pos: io.in_pos as nat,
                        output: io.output@,
                    }) =~= bf_effect(current_instruction, input0, m_pre)->Ok_0);
                }
            },
            Instruction::ReadIn => {
                match read_value(io) {
                    Ok(input_byte) => {
                        cells[cell_ptr] = input_byte;
                        proof {
                            assert((MachineView {
                                cells: cells@,
                                cell_ptr: cell_ptr as nat,
                                instr_ptr: instruction_ptr as nat,
                                debugging: false,
                                in_pos: io.in_pos as nat,
                                output: io.output@,
                            }) =~= bf_effect(current_instruction, input0, m_pre)->Ok_0);
                        }
                    },
                    Err(e) => {
                        return Err(e);
                    },
                }
            },
        }
        proof {
            let effect = bf_effect(current_instruction, input0, m_pre);
            match current_instruction {
                Instruction::JumpToIf { position, operator, match_value } => {
                    assert(effect->Ok_0.instr_ptr < usize::MAX);
                },
                _ => {
                    assert(effect->Ok_0.instr_ptr == m_pre.instr_ptr);
                },
            }
        }
        instruction_ptr = instruction_ptr + 1;
        proof {
            assert((MachineView {
                cells: cells@,
                cell_ptr: cell_ptr as nat,
                instr_ptr: instruction_ptr as nat,
                debugging: false,
                in_pos: io.in_pos as nat,
                output: io.output@,
            }) =~= advance(bf_effect(current_instruction, input0, m_pre)->Ok_0));
        }
        fuel = fuel - 1;
    }
    proof {
        lemma_bf_run_halted(
            instructions@,
            input0,
            MachineView {
                cells: cells@,
                cell_ptr: cell_ptr as nat,
                instr_ptr: instruction_ptr as nat,
                debugging: false,
                in_pos: io.in_pos as nat,
                output: io.output@,
            },
            fuel as nat,
        );
    }
    Ok(())
}

} // verus!
