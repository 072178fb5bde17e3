//! The tape machine: executes a compiled instruction list against a
//! growable byte tape, a cell pointer and an instruction pointer, with
//! input and output modelled as byte buffers.  Its semantics is the
//! spec-level small-step function `instr_effect`, iterated by the
//! fuel-indexed `run_plain`, and every run of the executable machine
//! equals that function of its inputs.

use crate::ezfuck::cell_repr::{cells_repr_spec, dec_digits, dec_string, produce_cells_repr};
use crate::ezfuck::parser::{
    compile_spec, compile_to_intermediate, jump_targets_valid, value_of, CellMoveOperator,
    CompileError, EqualityOperator, Instruction, MathOperator, Value,
};
use vstd::prelude::*;

verus! {

// ---------------------------------------------------------------------------
// Errors
// ---------------------------------------------------------------------------

/// Everything that can abort a running machine.  All are fatal: no
/// instruction after the fault executes.
#[derive(Copy, Clone, Debug, PartialEq, Eq)]
pub enum RuntimeError {
    /// The cell pointer would have moved below zero.
    PointerUnderflow,
    /// The cell pointer would have moved beyond the largest index.
    PointerOverflow,
    /// A division instruction resolved its operand to zero.
    DivisionByZero,
    /// A read instruction found no more input.
    EndOfInput,
    /// The step budget ran out before the machine halted.
    StepLimit,
    /// A line given to an interactive session failed to compile.
    LineCompile(CompileError),
}

// ---------------------------------------------------------------------------
// Machine state
// ---------------------------------------------------------------------------

/// The mutable state of one execution session: the tape, the cell
/// pointer, the instruction pointer, and the debugging flag.
#[derive(Clone, Debug)]
pub struct ExecutionState {
    pub cells: Vec<u8>,
    pub cell_ptr: usize,
    pub instruction_ptr: usize,
    pub is_debugging: bool,
}

/// Input and output of a run, as byte buffers: reads consume `input`
/// from `in_pos` on, writes append to `output`.
pub struct IoBuffer {
    pub input: Vec<u8>,
    pub in_pos: usize,
    pub output: Vec<u8>,
}

/// The machine, seen mathematically: everything an instruction can
/// observe or change.
#[verifier::ext_equal]
pub ghost struct MachineView {
    pub cells: Seq<u8>,
    pub cell_ptr: nat,
    pub instr_ptr: nat,
    pub debugging: bool,
    pub in_pos: nat,
    pub output: Seq<u8>,
}

/// The view of an execution state together with its I/O buffers.
pub open spec fn machine_view(state: ExecutionState, io: IoBuffer) -> MachineView {
    MachineView {
        cells: state.cells@,
        cell_ptr: state.cell_ptr as nat,
        instr_ptr: state.instruction_ptr as nat,
        debugging: state.is_debugging,
        in_pos: io.in_pos as nat,
        output: io.output@,
    }
}

/// The machine a run starts from: one zero cell, both pointers at
/// zero, debugging off, input unread, output empty.
pub open spec fn fresh_view() -> MachineView {
    MachineView {
        cells: seq![0u8],
        cell_ptr: 0,
        instr_ptr: 0,
        debugging: false,
        in_pos: 0,
        output: Seq::empty(),
    }
}

/// The cell pointer always addresses a cell of the tape.
pub open spec fn mv_wf(m: MachineView) -> bool {
    m.cell_ptr < m.cells.len()
}

impl ExecutionState {
    /// The cell pointer is a valid tape index.
    pub open spec fn wf(&self) -> bool {
        self.cell_ptr < self.cells@.len()
    }

    /// A fresh state: a one-cell zeroed tape, pointers at zero.
    pub fn new() -> (r: ExecutionState)
        ensures
            r.cells@ == seq![0u8],
            r.cell_ptr == 0,
            r.instruction_ptr == 0,
            !r.is_debugging,
            r.wf(),
    {
        let mut cells: Vec<u8> = Vec::new();
        cells.push(0);
        proof {
            assert(cells@ =~= seq![0u8]);
        }
        ExecutionState { cell_ptr: 0, instruction_ptr: 0, cells, is_debugging: false }
    }

    /// Sets the instruction pointer directly.
    pub fn set_instruction_pointer(&mut self, ptr: usize)
        ensures
            final(self).cells@ == old(self).cells@,
            final(self).cell_ptr == old(self).cell_ptr,
            final(self).instruction_ptr == ptr,
            final(self).is_debugging == old(self).is_debugging,
    {
        self.instruction_ptr = ptr;
    }

    /// The value of the cell under the pointer.
    pub fn get_current_cell(&self) -> (r: u8)
        requires
            self.wf(),
        ensures
            r == self.cells@[self.cell_ptr as int],
    {
        self.cells[self.cell_ptr]
    }

    /// Stores a value in the cell under the pointer.
    pub fn set_current_cell(&mut self, new_value: u8)
        requires
            old(self).wf(),
        ensures
            final(self).cells@ == old(self).cells@.update(old(self).cell_ptr as int, new_value),
            final(self).cell_ptr == old(self).cell_ptr,
            final(self).instruction_ptr == old(self).instruction_ptr,
            final(self).is_debugging == old(self).is_debugging,
            final(self).wf(),
    {
        self.cells[self.cell_ptr] = new_value;
    }

    /// Grows the tape with zero cells until `ptr` is a valid index.
    fn ensure_cell(&mut self, ptr: usize)
        ensures
            final(self).cells@ == grown(old(self).cells@, ptr as nat),
            final(self).cell_ptr == old(self).cell_ptr,
            final(self).instruction_ptr == old(self).instruction_ptr,
            final(self).is_debugging == old(self).is_debugging,
            (ptr as int) < final(self).cells@.len(),
    {
        let ghost pre = self.cells@;
        if self.cells.len() > ptr {
            proof {
                assert(grown(pre, ptr as nat) == pre);
            }
            return ;
        }
        while self.cells.len() <= ptr
            invariant
                pre.len() <= self.cells@.len() <= ptr + 1,
                self.cells@.len() <= ptr + 1,
                self.cells@ == pre + Seq::new((self.cells@.len() - pre.len()) as nat, |k: int| 0u8),
                self.cell_ptr == old(self).cell_ptr,
                self.instruction_ptr == old(self).instruction_ptr,
                self.is_debugging == old(self).is_debugging,
            decreases ptr + 1 - self.cells@.len(),
        {
            let ghost before = self.cells@;
            self.cells.push(0);
            proof {
                assert(self.cells@ =~= pre + Seq::new((self.cells@.len() - pre.len()) as nat, |k: int| 0u8));
            }
        }
        proof {
            assert(self.cells@.len() == ptr + 1);
            assert(self.cells@ =~= grown(pre, ptr as nat));
        }
    }

    /// Moves the cell pointer, growing the tape so the new position is
    /// always a valid index.
    pub fn set_cell_pointer(&mut self, ptr: usize)
        ensures
            final(self).cells@ == grown(old(self).cells@, ptr as nat),
            final(self).cell_ptr == ptr,
            final(self).instruction_ptr == old(self).instruction_ptr,
            final(self).is_debugging == old(self).is_debugging,
            final(self).wf(),
    {
        self.ensure_cell(ptr);
        self.cell_ptr = ptr;
    }
}

impl IoBuffer {
    /// Reads never run past the end of the input.
    pub open spec fn wf(&self) -> bool {
        self.in_pos <= self.input@.len()
    }

    /// A buffer holding the whole input of a run, nothing yet read and
    /// nothing yet written.
    pub fn new(input: Vec<u8>) -> (r: IoBuffer)
        ensures
            r.input@ == input@,
            r.in_pos == 0,
            r.output@ == Seq::<u8>::empty(),
            r.wf(),
    {
        IoBuffer { input, in_pos: 0, output: Vec::new() }
    }
}

/// The tape grown with zero cells until `ptr` is a valid index.
pub open spec fn grown(cells: Seq<u8>, ptr: nat) -> Seq<u8> {
    if ptr < cells.len() {
        cells
    } else {
        cells + Seq::new((ptr + 1 - cells.len()) as nat, |k: int| 0u8)
    }
}

// ---------------------------------------------------------------------------
// Reading and writing
// ---------------------------------------------------------------------------

/// Takes the next input byte; the end of input is a fatal error.
pub fn read_value(io: &mut IoBuffer) -> (r: Result<u8, RuntimeError>)
    requires
        old(io).wf(),
    ensures
        final(io).wf(),
        final(io).input@ == old(io).input@,
        final(io).output@ == old(io).output@,
        old(io).in_pos < old(io).input@.len() ==> r == Ok::<u8, RuntimeError>(
            old(io).input@[old(io).in_pos as int],
        ) && final(io).in_pos == old(io).in_pos + 1,
        old(io).in_pos >= old(io).input@.len() ==> r == Err::<u8, RuntimeError>(
            RuntimeError::EndOfInput,
        ) && final(io).in_pos == old(io).in_pos,
{
    if io.in_pos < io.input.len() {
        let b = io.input[io.in_pos];
        io.in_pos = io.in_pos + 1;
        Ok(b)
    } else {
        Err(RuntimeError::EndOfInput)
    }
}

/// Emits one output byte.
pub fn print_value(io: &mut IoBuffer, cell: u8)
    ensures
        final(io).input@ == old(io).input@,
        final(io).in_pos == old(io).in_pos,
        final(io).output@ == old(io).output@.push(cell),
{
    io.output.push(cell);
}

// ---------------------------------------------------------------------------
// Small-step semantics
// ---------------------------------------------------------------------------

/// The arithmetic of one cell operation: add, subtract and multiply
/// wrap modulo 256; division is unsigned floor division and fails on a
/// zero operand.
pub open spec fn math_apply(op: MathOperator, c: u8, n: u8) -> Result<u8, RuntimeError> {
    match op {
        MathOperator::Addition => Ok(((c + n) % 256) as u8),
        MathOperator::Subtraction => Ok(((c - n + 256) % 256) as u8),
        MathOperator::Multiplication => Ok(((c * n) % 256) as u8),
        MathOperator::Division => if n == 0 {
            Err(RuntimeError::DivisionByZero)
        } else {
            Ok((c / n) as u8)
        },
    }
}

/// Applies one arithmetic operator to the current cell value.
pub fn apply_math_operator(current_cell_value: u8, operator: MathOperator, value: u8) -> (r: Result<
    u8,
    RuntimeError,
>)
    ensures
        r == math_apply(operator, current_cell_value, value),
{
    match operator {
        MathOperator::Addition => Ok(current_cell_value.wrapping_add(value)),
        MathOperator::Subtraction => Ok(current_cell_value.wrapping_sub(value)),
        MathOperator::Multiplication => Ok(current_cell_value.wrapping_mul(value)),
        MathOperator::Division => {
            if value == 0 {
                Err(RuntimeError::DivisionByZero)
            } else {
                Ok(current_cell_value / value)
            }
        },
    }
}

/// Moves the cell pointer by a signed offset; going below zero is the
/// fatal pointer underflow, beyond the largest index the overflow.
pub fn add_cell_ptr_value(current_cell_ptr: usize, ptr_offset: isize) -> (r: Result<
    usize,
    RuntimeError,
>)
    ensures
        0 <= current_cell_ptr + ptr_offset <= usize::MAX ==> r == Ok::<usize, RuntimeError>(
            (current_cell_ptr + ptr_offset) as usize,
        ),
        current_cell_ptr + ptr_offset < 0 ==> r == Err::<usize, RuntimeError>(
            RuntimeError::PointerUnderflow,
        ),
        current_cell_ptr + ptr_offset > usize::MAX ==> r == Err::<usize, RuntimeError>(
            RuntimeError::PointerOverflow,
        ),
{
    match current_cell_ptr.checked_add_signed(ptr_offset) {
        Some(added) => Ok(added),
        None => {
            if ptr_offset < 0 {
                Err(RuntimeError::PointerUnderflow)
            } else {
                Err(RuntimeError::PointerOverflow)
            }
        },
    }
}

/// The value of the cell under the pointer.
pub open spec fn cur_cell(m: MachineView) -> u8 {
    m.cells[m.cell_ptr as int]
}

/// The machine with the current cell replaced.
pub open spec fn with_cell(m: MachineView, v: u8) -> MachineView {
    MachineView { cells: m.cells.update(m.cell_ptr as int, v), ..m }
}

/// The machine with the cell pointer moved to `p`, the tape grown to
/// cover it.
pub open spec fn moved_to(m: MachineView, p: nat) -> MachineView {
    MachineView { cells: grown(m.cells, p), cell_ptr: p, ..m }
}

/// What one instruction does to the machine, or the error that aborts
/// the run.  The instruction pointer is only changed by a taken jump;
/// the surrounding loop adds one after every instruction.
pub open spec fn instr_effect(
    instr: Instruction,
    input: Seq<u8>,
    m: MachineView,
    allow_debugging: bool,
) -> Result<MachineView, RuntimeError> {
    match instr {
        Instruction::ApplyOperatorToCell { operator, value } => {
            let n = value_of(value, cur_cell(m));
            match math_apply(operator, cur_cell(m), n) {
                Ok(v) => Ok(with_cell(m, v)),
                Err(e) => Err(e),
            }
        },
        Instruction::ApplyOperatorToCellPtr { operator, value } => {
            let n = value_of(value, cur_cell(m));
            match operator {
                CellMoveOperator::Left => if m.cell_ptr < n {
                    Err(RuntimeError::PointerUnderflow)
                } else {
                    Ok(moved_to(m, (m.cell_ptr - n) as nat))
                },
                CellMoveOperator::Right => if m.cell_ptr + n > usize::MAX {
                    Err(RuntimeError::PointerOverflow)
                } else {
                    Ok(moved_to(m, (m.cell_ptr + n) as nat))
                },
                CellMoveOperator::SetTo => Ok(moved_to(m, n as nat)),
            }
        },
        Instruction::JumpToIf { position, operator, match_value } => {
            let hit = match operator {
                EqualityOperator::Equal => cur_cell(m) == match_value,
                EqualityOperator::NotEqual => cur_cell(m) != match_value,
            };
            if hit {
                Ok(MachineView { instr_ptr: position as nat, ..m })
            } else {
                Ok(m)
            }
        },
        Instruction::PrintOut => Ok(MachineView { output: m.output.push(cur_cell(m)), ..m }),
        Instruction::ReadIn => if m.in_pos < input.len() {
            Ok(
                MachineView {
                    cells: m.cells.update(m.cell_ptr as int, input[m.in_pos as int]),
                    in_pos: m.in_pos + 1,
                    ..m
                },
            )
        } else {
            Err(RuntimeError::EndOfInput)
        },
        Instruction::SetCell { value } => Ok(with_cell(m, value_of(value, cur_cell(m)))),
        Instruction::Breakpoint => if allow_debugging {
            Ok(MachineView { debugging: true, ..m })
        } else {
            Ok(m)
        },
    }
}

/// Executes one instruction against the live state; the instruction
/// pointer is only touched by a taken jump.
pub fn interpret_instruction(
    instruction: Instruction,
    state: &mut ExecutionState,
    io: &mut IoBuffer,
    allow_debugging: bool,
) -> (r: Result<(), RuntimeError>)
    requires
        old(state).wf(),
        old(io).wf(),
    ensures
        final(state).wf(),
        final(io).wf(),
        final(io).input@ == old(io).input@,
        ({
            let effect = instr_effect(
                instruction,
                old(io).input@,
                machine_view(*old(state), *old(io)),
                allow_debugging,
            );
            &&& effect is Ok ==> r is Ok && machine_view(*final(state), *final(io))
                == effect->Ok_0
            &&& effect is Err ==> r == Err::<(), RuntimeError>(effect->Err_0) && machine_view(
                *final(state),
                *final(io),
            ) == machine_view(*old(state), *old(io))
        }),
{
    match instruction {
        Instruction::ApplyOperatorToCell { operator, value } => {
            let actual_value = value.determine_value(state.get_current_cell());
            match apply_math_operator(state.get_current_cell(), operator, actual_value) {
                Ok(new_cell_value) => {
                    state.set_current_cell(new_cell_value);
                    Ok(())
                },
                Err(e) => Err(e),
            }
        },
        Instruction::ApplyOperatorToCellPtr { operator, value } => {
            let abs_offset = value.determine_value(state.get_current_cell());
            match operator {
                CellMoveOperator::Left => {
                    let signed_offset: isize = -(abs_offset as isize);
                    match add_cell_ptr_value(state.cell_ptr, signed_offset) {
                        Ok(new_cell_ptr) => {
                            state.set_cell_pointer(new_cell_ptr);
                            Ok(())
                        },
                        Err(e) => Err(e),
                    }
                },
                CellMoveOperator::Right => {
                    let signed_offset: isize = abs_offset as isize;
                    match add_cell_ptr_value(state.cell_ptr, signed_offset) {
                        Ok(new_cell_ptr) => {
                            state.set_cell_pointer(new_cell_ptr);
                            Ok(())
                        },
                        Err(e) => Err(e),
                    }
                },
                CellMoveOperator::SetTo => {
                    state.set_cell_pointer(abs_offset as usize);
                    Ok(())
                },
            }
        },
        Instruction::JumpToIf { position, operator, match_value } => {
            match operator {
                EqualityOperator::Equal => {
                    if state.get_current_cell() == match_value {
                        state.set_instruction_pointer(position);
                    }
                },
                EqualityOperator::NotEqual => {
                    if state.get_current_cell() != match_value {
                        state.set_instruction_pointer(position);
                    }
                },
            }
            Ok(())
        },
        Instruction::PrintOut => {
            print_value(io, state.get_current_cell());
            Ok(())
        },
        Instruction::ReadIn => {
            match read_value(io) {
                Ok(input_byte) => {
                    state.set_current_cell(input_byte);
                    Ok(())
                },
                Err(e) => Err(e),
            }
        },
        Instruction::SetCell { value } => {
            let actual_value = value.determine_value(state.get_current_cell());
            state.set_current_cell(actual_value);
            Ok(())
        },
        Instruction::Breakpoint => {
            if allow_debugging {
                state.is_debugging = true;
            }
            Ok(())
        },
    }
}

// ---------------------------------------------------------------------------
// Runs without the debugger
// ---------------------------------------------------------------------------

/// The machine after the loop's increment of the instruction pointer.
pub open spec fn advance(m: MachineView) -> MachineView {
    MachineView { instr_ptr: m.instr_ptr + 1, ..m }
}

/// Runs the machine for at most `fuel` instructions with the debugger
/// out of play: the halted machine, or the machine at the fault
/// together with the error.  Running out of fuel is the `StepLimit`
/// fault.
pub open spec fn run_plain(
    instrs: Seq<Instruction>,
    input: Seq<u8>,
    m: MachineView,
    fuel: nat,
) -> Result<MachineView, (MachineView, RuntimeError)>
    decreases fuel,
{
    if m.instr_ptr >= instrs.len() {
        Ok(m)
    } else if fuel == 0 {
        Err((m, RuntimeError::StepLimit))
    } else {
        let effect = instr_effect(instrs[m.instr_ptr as int], input, m, false);
        if effect is Ok {
            run_plain(instrs, input, advance(effect->Ok_0), (fuel - 1) as nat)
        } else {
            Err((m, effect->Err_0))
        }
    }
}

proof fn lemma_run_plain_halted(instrs: Seq<Instruction>, input: Seq<u8>, m: MachineView, fuel: nat)
    requires
        m.instr_ptr >= instrs.len(),
    ensures
        run_plain(instrs, input, m, fuel) == Ok::<MachineView, (MachineView, RuntimeError)>(m),
{
}

proof fn lemma_run_plain_out_of_fuel(instrs: Seq<Instruction>, input: Seq<u8>, m: MachineView)
    requires
        m.instr_ptr < instrs.len(),
    ensures
        run_plain(instrs, input, m, 0) == Err::<MachineView, (MachineView, RuntimeError)>(
            (m, RuntimeError::StepLimit),
        ),
{
}

proof fn lemma_run_plain_step(
    instrs: Seq<Instruction>,
    input: Seq<u8>,
    m: MachineView,
    fuel: nat,
)
    requires
        m.instr_ptr < instrs.len(),
        fuel > 0,
    ensures
        instr_effect(instrs[m.instr_ptr as int], input, m, false) is Ok ==> run_plain(
            instrs,
            input,
            m,
            fuel,
        ) == run_plain(
            instrs,
            input,
            advance(instr_effect(instrs[m.instr_ptr as int], input, m, false)->Ok_0),
            (fuel - 1) as nat,
        ),
        instr_effect(instrs[m.instr_ptr as int], input, m, false) is Err ==> run_plain(
            instrs,
            input,
            m,
            fuel,
        ) == Err::<MachineView, (MachineView, RuntimeError)>(
            (m, instr_effect(instrs[m.instr_ptr as int], input, m, false)->Err_0),
        ),
{
}

/// A successful effect leaves the instruction pointer inside the list
/// whose valid jump targets it follows.
proof fn lemma_effect_ptr_bound(
    instrs: Seq<Instruction>,
    input: Seq<u8>,
    m: MachineView,
    allow_debugging: bool,
)
    requires
        jump_targets_valid(instrs),
        m.instr_ptr < instrs.len(),
        instr_effect(instrs[m.instr_ptr as int], input, m, allow_debugging) is Ok,
    ensures
        instr_effect(instrs[m.instr_ptr as int], input, m, allow_debugging)->Ok_0.instr_ptr
            < instrs.len(),
    decreases 0int,
{
    let instr = instrs[m.instr_ptr as int];
    let m2 = instr_effect(instr, input, m, allow_debugging)->Ok_0;
    match instr {
        Instruction::JumpToIf { position, operator, match_value } => {
            assert(m2.instr_ptr == position || m2.instr_ptr == m.instr_ptr);
        },
        _ => {
            assert(m2.instr_ptr == m.instr_ptr);
        },
    }
}

/// A successful effect preserves well-formedness of the machine.
proof fn lemma_effect_wf(
    instr: Instruction,
    input: Seq<u8>,
    m: MachineView,
    allow_debugging: bool,
)
    requires
        mv_wf(m),
        instr_effect(instr, input, m, allow_debugging) is Ok,
    ensures
        mv_wf(instr_effect(instr, input, m, allow_debugging)->Ok_0),
{
}

/// Runs the instruction list with the debugger out of play, for at
/// most `max_steps` instructions.
pub(crate) fn run_without_debugger(
    instructions: &Vec<Instruction>,
    state: &mut ExecutionState,
    io: &mut IoBuffer,
    max_steps: u64,
) -> (r: Result<(), RuntimeError>)
    requires
        old(state).wf(),
        old(io).wf(),
        jump_targets_valid(instructions@),
    ensures
        final(state).wf(),
        final(io).wf(),
        final(io).input@ == old(io).input@,
        ({
            let outcome = run_plain(
                instructions@,
                old(io).input@,
                machine_view(*old(state), *old(io)),
                max_steps as nat,
            );
            &&& r is Ok ==> outcome == Ok::<MachineView, (MachineView, RuntimeError)>(
                machine_view(*final(state), *final(io)),
            )
            &&& r is Err ==> outcome == Err::<MachineView, (MachineView, RuntimeError)>(
                (machine_view(*final(state), *final(io)), r->Err_0),
            )
        }),
{
    let ghost m0 = machine_view(*state, *io);
    let ghost input0 = io.input@;
    let mut fuel: u64 = max_steps;
    while state.instruction_ptr < instructions.len()
        invariant
            state.wf(),
            io.wf(),
            input0 == old(io).input@,
            m0 == machine_view(*old(state), *old(io)),
            io.input@ == input0,
            jump_targets_valid(instructions@),
            fuel <= max_steps,
            run_plain(instructions@, input0, m0, max_steps as nat) == run_plain(
                instructions@,
                input0,
                machine_view(*state, *io),
                fuel as nat,
            ),
        decreases fuel,
    {
        let ghost m_pre = machine_view(*state, *io);
        if fuel == 0 {
            proof {
                lemma_run_plain_out_of_fuel(instructions@, input0, m_pre);
            }
            return Err(RuntimeError::StepLimit);
        }
        let current_instruction = instructions[state.instruction_ptr];
        proof {
            lemma_run_plain_step(instructions@, input0, m_pre, fuel as nat);
        }
        match interpret_instruction(current_instruction, state, io, false) {
            Ok(()) => {},
            Err(e) => {
                return Err(e);
            },
        }
        proof {
            lemma_effect_ptr_bound(instructions@, input0, m_pre, false);
            assert((state.instruction_ptr as int) < instructions@.len());
            assert(machine_view(*state, *io) == instr_effect(
                instructions@[m_pre.instr_ptr as int],
                input0,
                m_pre,
                false,
            )->Ok_0);
        }
        state.instruction_ptr = state.instruction_ptr + 1;
        proof {
            assert(machine_view(*state, *io) == advance(
                instr_effect(instructions@[m_pre.instr_ptr as int], input0, m_pre, false)->Ok_0,
            ));
        }
        fuel = fuel - 1;
    }
    proof {
        lemma_run_plain_halted(
            instructions@,
            input0,
            machine_view(*state, *io),
            fuel as nat,
        );
    }
    Ok(())
}

/// One effect never rewinds the input cursor, nor runs it past the
/// end.
proof fn lemma_effect_in_pos(instr: Instruction, input: Seq<u8>, m: MachineView, dbg: bool)
    requires
        m.in_pos <= input.len(),
        instr_effect(instr, input, m, dbg) is Ok,
    ensures
        m.in_pos <= instr_effect(instr, input, m, dbg)->Ok_0.in_pos <= input.len(),
{
}

/// A plain run never rewinds the input cursor, nor runs it past the
/// end, wherever it stops.
pub proof fn lemma_run_plain_in_pos(
    instrs: Seq<Instruction>,
    input: Seq<u8>,
    m: MachineView,
    fuel: nat,
)
    requires
        m.in_pos <= input.len(),
    ensures
        ({
            let o = run_plain(instrs, input, m, fuel);
            let mf = if o is Ok {
                o->Ok_0
            } else {
                o->Err_0.0
            };
            m.in_pos <= mf.in_pos <= input.len()
        }),
    decreases fuel,
{
    if m.instr_ptr >= instrs.len() {
    } else if fuel == 0 {
    } else {
        let effect = instr_effect(instrs[m.instr_ptr as int], input, m, false);
        if effect is Ok {
            lemma_effect_in_pos(instrs[m.instr_ptr as int], input, m, false);
            lemma_run_plain_in_pos(instrs, input, advance(effect->Ok_0), (fuel - 1) as nat);
        }
    }
}

// ---------------------------------------------------------------------------
// Determinism
// ---------------------------------------------------------------------------

/// A run outcome that the fuel did not cut short.
pub open spec fn run_decided(outcome: Result<MachineView, (MachineView, RuntimeError)>) -> bool {
    outcome is Ok || outcome->Err_0.1 != RuntimeError::StepLimit
}

/// More fuel never changes a decided outcome.
pub proof fn lemma_run_plain_fuel_mono(
    instrs: Seq<Instruction>,
    input: Seq<u8>,
    m: MachineView,
    n1: nat,
    n2: nat,
)
    requires
        n1 <= n2,
        run_decided(run_plain(instrs, input, m, n1)),
    ensures
        run_plain(instrs, input, m, n2) == run_plain(instrs, input, m, n1),
    decreases n1,
{
    if m.instr_ptr >= instrs.len() {
    } else if n1 == 0 {
        assert(!run_decided(run_plain(instrs, input, m, n1)));
    } else {
        let effect = instr_effect(instrs[m.instr_ptr as int], input, m, false);
        if effect is Ok {
            lemma_run_plain_fuel_mono(
                instrs,
                input,
                advance(effect->Ok_0),
                (n1 - 1) as nat,
                (n2 - 1) as nat,
            );
        }
    }
}

/// The machine is deterministic: two runs of the same instruction list
/// on the same input from the same machine decide the same outcome,
/// whatever their step budgets — in particular, byte-identical output.
/// No state hides between runs: a fresh machine is a function of
/// nothing.
pub proof fn lemma_run_plain_deterministic(
    instrs: Seq<Instruction>,
    input: Seq<u8>,
    m: MachineView,
    n1: nat,
    n2: nat,
)
    requires
        run_decided(run_plain(instrs, input, m, n1)),
        run_decided(run_plain(instrs, input, m, n2)),
    ensures
        run_plain(instrs, input, m, n1) == run_plain(instrs, input, m, n2),
{
    if n1 <= n2 {
        lemma_run_plain_fuel_mono(instrs, input, m, n1, n2);
    } else {
        lemma_run_plain_fuel_mono(instrs, input, m, n2, n1);
    }
}

// ---------------------------------------------------------------------------
// Laws of the machine
// ---------------------------------------------------------------------------

/// Jump instructions realize standard loop semantics.  After the
/// loop's increment, an equality jump against zero taken from a zero
/// cell continues one past its target (for a loop open: one past the
/// matching close, skipping the body), and falls through to the next
/// instruction otherwise; an inequality jump taken from a nonzero cell
/// continues one past its target (for a loop close: one past the
/// matching open, re-entering the body), and falls through on zero.
pub proof fn lemma_jump_semantics(position: usize, m: MachineView, input: Seq<u8>, dbg: bool)
    requires
        mv_wf(m),
    ensures
        ({
            let open_jump = Instruction::JumpToIf {
                position,
                operator: EqualityOperator::Equal,
                match_value: 0,
            };
            let close_jump = Instruction::JumpToIf {
                position,
                operator: EqualityOperator::NotEqual,
                match_value: 0,
            };
            &&& instr_effect(open_jump, input, m, dbg) is Ok
            &&& instr_effect(close_jump, input, m, dbg) is Ok
            &&& cur_cell(m) == 0 ==> advance(instr_effect(open_jump, input, m, dbg)->Ok_0).instr_ptr
                == position + 1
            &&& cur_cell(m) != 0 ==> advance(instr_effect(open_jump, input, m, dbg)->Ok_0).instr_ptr
                == m.instr_ptr + 1
            &&& cur_cell(m) != 0 ==> advance(
                instr_effect(close_jump, input, m, dbg)->Ok_0,
            ).instr_ptr == position + 1
            &&& cur_cell(m) == 0 ==> advance(
                instr_effect(close_jump, input, m, dbg)->Ok_0,
            ).instr_ptr == m.instr_ptr + 1
            &&& instr_effect(open_jump, input, m, dbg)->Ok_0.cells == m.cells
            &&& instr_effect(close_jump, input, m, dbg)->Ok_0.cells == m.cells
            &&& instr_effect(open_jump, input, m, dbg)->Ok_0.output == m.output
            &&& instr_effect(close_jump, input, m, dbg)->Ok_0.output == m.output
        }),
{
}

/// A pointer-move instruction by a literal operand, left or right.
pub open spec fn is_literal_move(instr: Instruction) -> bool {
    match instr {
        Instruction::ApplyOperatorToCellPtr { operator, value } => (operator
            == CellMoveOperator::Left || operator == CellMoveOperator::Right) && value is Number,
        _ => false,
    }
}

/// The signed displacement of one literal pointer move.
pub open spec fn move_delta(instr: Instruction) -> int {
    match instr {
        Instruction::ApplyOperatorToCellPtr { operator, value } => match value {
            Value::Number(n) => if operator == CellMoveOperator::Left {
                -(n as int)
            } else {
                n as int
            },
            Value::CurrentCell => 0,
        },
        _ => 0,
    }
}

/// Whether every instruction of the list is a literal pointer move.
pub open spec fn all_literal_moves(instrs: Seq<Instruction>) -> bool {
    forall|k: int| 0 <= k < instrs.len() ==> is_literal_move(#[trigger] instrs[k])
}

/// The net displacement of the first `k` moves.
pub open spec fn net_disp(instrs: Seq<Instruction>, k: int) -> int
    decreases k,
{
    if k <= 0 {
        0
    } else {
        net_disp(instrs, k - 1) + move_delta(instrs[k - 1])
    }
}

/// Every cell of the tape is zero.
pub open spec fn all_zero(cells: Seq<u8>) -> bool {
    forall|k: int| 0 <= k < cells.len() ==> #[trigger] cells[k] == 0
}

proof fn lemma_grown_zero(cells: Seq<u8>, p: nat)
    requires
        all_zero(cells),
    ensures
        all_zero(grown(cells, p)),
        grown(cells, p).len() > p,
        grown(cells, p).len() >= cells.len(),
{
    if p < cells.len() {
    } else {
        let g = grown(cells, p);
        assert forall|k: int| 0 <= k < g.len() implies #[trigger] g[k] == 0 by {
            if k < cells.len() {
                assert(g[k] == cells[k]);
            } else {
                assert(g[k] == 0);
            }
        }
    }
}

/// Movement is evaluated incrementally, one move at a time.  From any
/// position of an all-zero tape: if every intermediate position stays
/// at or above zero, the run halts with the pointer displaced by the
/// net sum, the tape grown to cover it and still all zero, and input
/// and output untouched; if any intermediate position would go below
/// zero, the run is the fatal pointer underflow, even if later moves
/// would recover.
pub proof fn lemma_pointer_moves_from(
    instrs: Seq<Instruction>,
    input: Seq<u8>,
    m: MachineView,
    fuel: nat,
)
    requires
        all_literal_moves(instrs),
        mv_wf(m),
        all_zero(m.cells),
        m.instr_ptr <= instrs.len(),
        fuel >= instrs.len() - m.instr_ptr,
        forall|k: int|
            m.instr_ptr <= k <= instrs.len() ==> m.cell_ptr + (#[trigger] net_disp(instrs, k))
                - net_disp(instrs, m.instr_ptr as int) <= usize::MAX,
    ensures
        (forall|k: int|
            m.instr_ptr <= k <= instrs.len() ==> m.cell_ptr + (#[trigger] net_disp(instrs, k))
                - net_disp(instrs, m.instr_ptr as int) >= 0) ==> ({
            let outcome = run_plain(instrs, input, m, fuel);
            &&& outcome is Ok
            &&& outcome->Ok_0.cell_ptr == m.cell_ptr + net_disp(instrs, instrs.len() as int)
                - net_disp(instrs, m.instr_ptr as int)
            &&& outcome->Ok_0.cells.len() > outcome->Ok_0.cell_ptr
            &&& all_zero(outcome->Ok_0.cells)
            &&& outcome->Ok_0.output == m.output
            &&& outcome->Ok_0.in_pos == m.in_pos
        }),
        (exists|k: int|
            m.instr_ptr <= k <= instrs.len() && m.cell_ptr + (#[trigger] net_disp(instrs, k))
                - net_disp(instrs, m.instr_ptr as int) < 0) ==> ({
            let outcome = run_plain(instrs, input, m, fuel);
            &&& outcome is Err
            &&& outcome->Err_0.1 == RuntimeError::PointerUnderflow
        }),
    decreases instrs.len() - m.instr_ptr,
{
    let i = m.instr_ptr as int;
    let base = net_disp(instrs, i);
    if i >= instrs.len() {
        assert forall|k: int| i <= k <= instrs.len() implies m.cell_ptr + (#[trigger] net_disp(
            instrs,
            k,
        )) - base >= 0 by {
            assert(k == i);
        }
    } else {
        let instr = instrs[i];
        assert(is_literal_move(instr));
        let d = move_delta(instr);
        assert(net_disp(instrs, i + 1) == base + d);
        let effect = instr_effect(instr, input, m, false);
        match instr {
            Instruction::ApplyOperatorToCellPtr { operator, value } => {
                let n = value_of(value, cur_cell(m));
                assert(value is Number);
                if operator == CellMoveOperator::Left {
                    assert(d == -(n as int));
                    if m.cell_ptr < n {
                        assert(m.cell_ptr + net_disp(instrs, i + 1) - base < 0);
                        assert(effect is Err && effect->Err_0 == RuntimeError::PointerUnderflow);
                        lemma_run_plain_step(instrs, input, m, fuel);
                    } else {
                        let m2 = effect->Ok_0;
                        assert(m2 == moved_to(m, (m.cell_ptr - n) as nat));
                        lemma_grown_zero(m.cells, (m.cell_ptr - n) as nat);
                        lemma_run_plain_step(instrs, input, m, fuel);
                        let ma = advance(m2);
                        assert(ma.cell_ptr == m.cell_ptr + d);
                        assert forall|k: int|
                            ma.instr_ptr <= k <= instrs.len() implies ma.cell_ptr
                            + (#[trigger] net_disp(instrs, k)) - net_disp(
                            instrs,
                            ma.instr_ptr as int,
                        ) <= usize::MAX by {
                            assert(m.cell_ptr + net_disp(instrs, k) - base <= usize::MAX);
                        }
                        lemma_pointer_moves_from(instrs, input, ma, (fuel - 1) as nat);
                        lemma_moves_case_transfer(instrs, input, m, ma, fuel);
                    }
                } else {
                    assert(d == n as int);
                    if m.cell_ptr + n > usize::MAX {
                        assert(m.cell_ptr + net_disp(instrs, i + 1) - base > usize::MAX);
                    } else {
                        let m2 = effect->Ok_0;
                        assert(m2 == moved_to(m, (m.cell_ptr + n) as nat));
                        lemma_grown_zero(m.cells, (m.cell_ptr + n) as nat);
                        lemma_run_plain_step(instrs, input, m, fuel);
                        let ma = advance(m2);
                        assert(ma.cell_ptr == m.cell_ptr + d);
                        assert forall|k: int|
                            ma.instr_ptr <= k <= instrs.len() implies ma.cell_ptr
                            + (#[trigger] net_disp(instrs, k)) - net_disp(
                            instrs,
                            ma.instr_ptr as int,
                        ) <= usize::MAX by {
                            assert(m.cell_ptr + net_disp(instrs, k) - base <= usize::MAX);
                        }
                        lemma_pointer_moves_from(instrs, input, ma, (fuel - 1) as nat);
                        lemma_moves_case_transfer(instrs, input, m, ma, fuel);
                    }
                }
            },
            _ => {
                assert(false);
            },
        }
    }
}

/// Transfers the two conclusions of `lemma_pointer_moves_from` across
/// one executed move.
proof fn lemma_moves_case_transfer(
    instrs: Seq<Instruction>,
    input: Seq<u8>,
    m: MachineView,
    ma: MachineView,
    fuel: nat,
)
    requires
        all_literal_moves(instrs),
        fuel > 0,
        m.instr_ptr < instrs.len(),
        ma.instr_ptr == m.instr_ptr + 1,
        ma.cell_ptr == m.cell_ptr + net_disp(instrs, m.instr_ptr as int + 1) - net_disp(
            instrs,
            m.instr_ptr as int,
        ),
        run_plain(instrs, input, m, fuel) == run_plain(instrs, input, ma, (fuel - 1) as nat),
        (forall|k: int|
            ma.instr_ptr <= k <= instrs.len() ==> ma.cell_ptr + (#[trigger] net_disp(instrs, k))
                - net_disp(instrs, ma.instr_ptr as int) >= 0) ==> ({
            let outcome = run_plain(instrs, input, ma, (fuel - 1) as nat);
            &&& outcome is Ok
            &&& outcome->Ok_0.cell_ptr == ma.cell_ptr + net_disp(instrs, instrs.len() as int)
                - net_disp(instrs, ma.instr_ptr as int)
            &&& outcome->Ok_0.cells.len() > outcome->Ok_0.cell_ptr
            &&& all_zero(outcome->Ok_0.cells)
            &&& outcome->Ok_0.output == ma.output
            &&& outcome->Ok_0.in_pos == ma.in_pos
        }),
        (exists|k: int|
            ma.instr_ptr <= k <= instrs.len() && ma.cell_ptr + (#[trigger] net_disp(instrs, k))
                - net_disp(instrs, ma.instr_ptr as int) < 0) ==> ({
            let outcome = run_plain(instrs, input, ma, (fuel - 1) as nat);
            &&& outcome is Err
            &&& outcome->Err_0.1 == RuntimeError::PointerUnderflow
        }),
        ma.output == m.output,
        ma.in_pos == m.in_pos,
        m.cell_ptr + net_disp(instrs, m.instr_ptr as int + 1) - net_disp(instrs, m.instr_ptr as int)
            >= 0,
    ensures
        (forall|k: int|
            m.instr_ptr <= k <= instrs.len() ==> m.cell_ptr + (#[trigger] net_disp(instrs, k))
                - net_disp(instrs, m.instr_ptr as int) >= 0) ==> ({
            let outcome = run_plain(instrs, input, m, fuel);
            &&& outcome is Ok
            &&& outcome->Ok_0.cell_ptr == m.cell_ptr + net_disp(instrs, instrs.len() as int)
                - net_disp(instrs, m.instr_ptr as int)
            &&& outcome->Ok_0.cells.len() > outcome->Ok_0.cell_ptr
            &&& all_zero(outcome->Ok_0.cells)
            &&& outcome->Ok_0.output == m.output
            &&& outcome->Ok_0.in_pos == m.in_pos
        }),
        (exists|k: int|
            m.instr_ptr <= k <= instrs.len() && m.cell_ptr + (#[trigger] net_disp(instrs, k))
                - net_disp(instrs, m.instr_ptr as int) < 0) ==> ({
            let outcome = run_plain(instrs, input, m, fuel);
            &&& outcome is Err
            &&& outcome->Err_0.1 == RuntimeError::PointerUnderflow
        }),
{
    let i = m.instr_ptr as int;
    let base = net_disp(instrs, i);
    let base2 = net_disp(instrs, i + 1);
    if forall|k: int|
        m.instr_ptr <= k <= instrs.len() ==> m.cell_ptr + (#[trigger] net_disp(instrs, k)) - base
            >= 0 {
        assert forall|k: int|
            ma.instr_ptr <= k <= instrs.len() implies ma.cell_ptr + (#[trigger] net_disp(
            instrs,
            k,
        )) - base2 >= 0 by {
            assert(m.cell_ptr + net_disp(instrs, k) - base >= 0);
        }
    }
    if exists|k: int|
        m.instr_ptr <= k <= instrs.len() && m.cell_ptr + (#[trigger] net_disp(instrs, k)) - base
            < 0 {
        let k = choose|k: int|
            m.instr_ptr <= k <= instrs.len() && m.cell_ptr + (#[trigger] net_disp(instrs, k))
                - base < 0;
        assert(k != i);
        assert(k != i + 1 || ma.cell_ptr + net_disp(instrs, k) - base2 < 0);
        assert(ma.instr_ptr <= k <= instrs.len() && ma.cell_ptr + net_disp(instrs, k) - base2
            < 0);
    }
}

/// The two pointer-move laws, stated from a fresh machine: the tape
/// grows to at least `d + 1` cells, all zero, with the pointer at the
/// net displacement `d`; and any transient dip below zero is the
/// fatal underflow.
pub proof fn lemma_pointer_moves(instrs: Seq<Instruction>, input: Seq<u8>, fuel: nat)
    requires
        all_literal_moves(instrs),
        fuel >= instrs.len(),
        forall|k: int| 0 <= k <= instrs.len() ==> #[trigger] net_disp(instrs, k) <= usize::MAX,
    ensures
        (forall|k: int| 0 <= k <= instrs.len() ==> #[trigger] net_disp(instrs, k) >= 0) ==> ({
            let outcome = run_plain(instrs, input, fresh_view(), fuel);
            &&& outcome is Ok
            &&& outcome->Ok_0.cell_ptr == net_disp(instrs, instrs.len() as int)
            &&& outcome->Ok_0.cells.len() > outcome->Ok_0.cell_ptr
            &&& all_zero(outcome->Ok_0.cells)
            &&& outcome->Ok_0.output == Seq::<u8>::empty()
        }),
        (exists|k: int| 0 <= k <= instrs.len() && #[trigger] net_disp(instrs, k) < 0) ==> ({
            let outcome = run_plain(instrs, input, fresh_view(), fuel);
            &&& outcome is Err
            &&& outcome->Err_0.1 == RuntimeError::PointerUnderflow
        }),
{
    let m = fresh_view();
    assert(all_zero(m.cells)) by {
        assert(forall|k: int| 0 <= k < m.cells.len() ==> #[trigger] m.cells[k] == 0);
    }
    assert(net_disp(instrs, 0) == 0);
    lemma_pointer_moves_from(instrs, input, m, fuel);
}


// ---------------------------------------------------------------------------
// Rendering instructions, writing text, reading lines
// ---------------------------------------------------------------------------

/// The bytes of a rendered text, one byte per character code.
pub open spec fn ascii_bytes(s: Seq<char>) -> Seq<u8> {
    s.map_values(|c: char| c as u8)
}

/// Appends a rendered text to the output, one byte per character.
pub(crate) fn write_string_ascii(io: &mut IoBuffer, s: &str)
    ensures
        final(io).input@ == old(io).input@,
        final(io).in_pos == old(io).in_pos,
        final(io).output@ == old(io).output@ + ascii_bytes(s@),
{
    let len = s.unicode_len();
    let mut i: usize = 0;
    while i < len
        invariant
            len == s@.len(),
            i <= len,
            io.input@ == old(io).input@,
            io.in_pos == old(io).in_pos,
            io.output@ == old(io).output@ + ascii_bytes(s@.take(i as int)),
        decreases len - i,
    {
        let c = s.get_char(i);
        io.output.push(c as u8);
        proof {
            assert(old(io).output@ + ascii_bytes(s@.take(i as int)).push(c as u8) =~= io.output@);
            assert(ascii_bytes(s@.take(i + 1)) =~= ascii_bytes(s@.take(i as int)).push(c as u8));
        }
        i += 1;
    }
    proof {
        assert(s@.take(len as int) =~= s@);
    }
}

/// The rendering of one operand.
pub open spec fn value_repr(v: Value) -> Seq<char> {
    match v {
        Value::CurrentCell => "CurrentCell"@,
        Value::Number(n) => "Number("@ + dec_digits(n as nat) + ")"@,
    }
}

/// The rendering of one instruction, field by field.
pub open spec fn instr_repr(instr: Instruction) -> Seq<char> {
    match instr {
        Instruction::ApplyOperatorToCell { operator, value } => "ApplyOperatorToCell { operator: "@
            + (match operator {
            MathOperator::Addition => "Addition"@,
            MathOperator::Subtraction => "Subtraction"@,
            MathOperator::Multiplication => "Multiplication"@,
            MathOperator::Division => "Division"@,
        }) + ", value: "@ + value_repr(value) + " }"@,
        Instruction::ApplyOperatorToCellPtr { operator, value } => {
            "ApplyOperatorToCellPtr { operator: "@ + (match operator {
                CellMoveOperator::Left => "Left"@,
                CellMoveOperator::Right => "Right"@,
                CellMoveOperator::SetTo => "SetTo"@,
            }) + ", value: "@ + value_repr(value) + " }"@
        },
        Instruction::JumpToIf { position, operator, match_value } => "JumpToIf { position: "@
            + dec_digits(position as nat) + ", operator: "@ + (match operator {
            EqualityOperator::NotEqual => "NotEqual"@,
            EqualityOperator::Equal => "Equal"@,
        }) + ", match_value: "@ + dec_digits(match_value as nat) + " }"@,
        Instruction::PrintOut => "PrintOut"@,
        Instruction::ReadIn => "ReadIn"@,
        Instruction::SetCell { value } => "SetCell { value: "@ + value_repr(value) + " }"@,
        Instruction::Breakpoint => "Breakpoint"@,
    }
}

/// Renders one operand.
fn value_repr_string(v: Value) -> (s: String)
    ensures
        s@ == value_repr(v),
{
    match v {
        Value::CurrentCell => {
            let mut s = String::new();
            s.append("CurrentCell");
            proof {
                assert(s@ =~= value_repr(v));
            }
            s
        },
        Value::Number(n) => {
            let mut s = String::new();
            s.append("Number(");
            let digits = dec_string(n as usize);
            s.append(digits.as_str());
            s.append(")");
            proof {
                assert(s@ =~= value_repr(v));
            }
            s
        },
    }
}

/// Renders one instruction.
fn instruction_repr(instruction: Instruction) -> (s: String)
    ensures
        s@ == instr_repr(instruction),
{
    let mut s = String::new();
    match instruction {
        Instruction::ApplyOperatorToCell { operator, value } => {
            s.append("ApplyOperatorToCell { operator: ");
            match operator {
                MathOperator::Addition => s.append("Addition"),
                MathOperator::Subtraction => s.append("Subtraction"),
                MathOperator::Multiplication => s.append("Multiplication"),
                MathOperator::Division => s.append("Division"),
            }
            s.append(", value: ");
            let v = value_repr_string(value);
            s.append(v.as_str());
            s.append(" }");
            proof {
                assert(s@ =~= instr_repr(instruction));
            }
        },
        Instruction::ApplyOperatorToCellPtr { operator, value } => {
            s.append("ApplyOperatorToCellPtr { operator: ");
            match operator {
                CellMoveOperator::Left => s.append("Left"),
                CellMoveOperator::Right => s.append("Right"),
                CellMoveOperator::SetTo => s.append("SetTo"),
            }
            s.append(", value: ");
            let v = value_repr_string(value);
            s.append(v.as_str());
            s.append(" }");
            proof {
                assert(s@ =~= instr_repr(instruction));
            }
        },
        Instruction::JumpToIf { position, operator, match_value } => {
            s.append("JumpToIf { position: ");
            let p = dec_string(position);
            s.append(p.as_str());
            s.append(", operator: ");
            match operator {
                EqualityOperator::NotEqual => s.append("NotEqual"),
                EqualityOperator::Equal => s.append("Equal"),
            }
            s.append(", match_value: ");
            let mv = dec_string(match_value as usize);
            s.append(mv.as_str());
            s.append(" }");
            proof {
                assert(s@ =~= instr_repr(instruction));
            }
        },
        Instruction::PrintOut => {
            s.append("PrintOut");
            proof {
                assert(s@ =~= instr_repr(instruction));
            }
        },
        Instruction::ReadIn => {
            s.append("ReadIn");
            proof {
                assert(s@ =~= instr_repr(instruction));
            }
        },
        Instruction::SetCell { value } => {
            s.append("SetCell { value: ");
            let v = value_repr_string(value);
            s.append(v.as_str());
            s.append(" }");
            proof {
                assert(s@ =~= instr_repr(instruction));
            }
        },
        Instruction::Breakpoint => {
            s.append("Breakpoint");
            proof {
                assert(s@ =~= instr_repr(instruction));
            }
        },
    }
    s
}

/// Decimal digits, left-padded with zeros to the given width.
pub open spec fn pad_digits(n: nat, places: nat) -> Seq<char> {
    let d = dec_digits(n);
    if d.len() >= places {
        d
    } else {
        Seq::new((places - d.len()) as nat, |i: int| '0') + d
    }
}

fn pad_digits_string(n: usize, places: usize) -> (s: String)
    ensures
        s@ == pad_digits(n as nat, places as nat),
{
    let digits = dec_string(n);
    let width = digits.as_str().unicode_len();
    if width >= places {
        digits
    } else {
        let mut s = String::new();
        let mut i: usize = 0;
        while i < places - width
            invariant
                width < places,
                i <= places - width,
                s@ == Seq::new(i as nat, |k: int| '0'),
            decreases places - width - i,
        {
            s.push('0');
            proof {
                assert(s@ =~= Seq::new((i + 1) as nat, |k: int| '0'));
            }
            i += 1;
        }
        s.append(digits.as_str());
        proof {
            assert(s@ =~= pad_digits(n as nat, places as nat));
        }
        s
    }
}

/// One line of the instruction window: the zero-padded index, the
/// pointer marker, and the instruction.
pub open spec fn instr_line(
    instrs: Seq<Instruction>,
    ptr: nat,
    places: nat,
    idx: int,
) -> Seq<char> {
    pad_digits(idx as nat, places) + " "@ + (if idx == ptr {
        "> "@
    } else {
        "  "@
    }) + instr_repr(instrs[idx]) + "
"@
}

/// The first `k` lines of the window starting at `start`.
pub open spec fn instr_lines(
    instrs: Seq<Instruction>,
    ptr: nat,
    places: nat,
    start: int,
    k: int,
) -> Seq<char>
    decreases k,
{
    if k <= 0 {
        Seq::empty()
    } else {
        instr_lines(instrs, ptr, places, start, k - 1) + instr_line(
            instrs,
            ptr,
            places,
            start + k - 1,
        )
    }
}

/// The instruction window around the instruction pointer: from
/// `around` before it (clamped to the start) to `around` after it
/// (clamped to the last instruction), indices padded to the width of
/// the list length.
pub open spec fn instrs_repr_spec(instrs: Seq<Instruction>, ptr: nat, around: nat) -> Seq<char> {
    let start = if ptr >= around {
        ptr - around
    } else {
        0
    };
    let end = if ptr + around < instrs.len() - 1 {
        (ptr + around) as int
    } else {
        instrs.len() - 1
    };
    instr_lines(instrs, ptr, dec_digits(instrs.len() as nat).len(), start as int, end + 1 - start)
}

/// Renders the window of instructions around the instruction pointer.
fn produce_instructions_repr(
    instructions: &Vec<Instruction>,
    instruction_ptr: usize,
    show_n_around: usize,
) -> (r: String)
    requires
        instructions@.len() > 0,
        instruction_ptr < instructions@.len(),
    ensures
        r@ == instrs_repr_spec(instructions@, instruction_ptr as nat, show_n_around as nat),
{
    let len = instructions.len();
    let start_bound: usize = if instruction_ptr >= show_n_around {
        instruction_ptr - show_n_around
    } else {
        0
    };
    let end_bound: usize = if show_n_around < len - instruction_ptr {
        instruction_ptr + show_n_around
    } else {
        len - 1
    };
    proof {
        assert(end_bound as int == ({
            let around = show_n_around as nat;
            let ptr = instruction_ptr as nat;
            if ptr + around < instructions@.len() - 1 {
                (ptr + around) as int
            } else {
                instructions@.len() - 1
            }
        }));
    }
    let len_digits = dec_string(len);
    let instruction_ptr_places = len_digits.as_str().unicode_len();

    let mut repr = String::new();
    let mut idx: usize = start_bound;
    while idx <= end_bound
        invariant
            len == instructions@.len(),
            start_bound <= idx <= end_bound + 1,
            end_bound < len,
            instruction_ptr_places == dec_digits(len as nat).len(),
            repr@ == instr_lines(
                instructions@,
                instruction_ptr as nat,
                instruction_ptr_places as nat,
                start_bound as int,
                idx - start_bound,
            ),
        decreases end_bound + 1 - idx,
    {
        let index_text = pad_digits_string(idx, instruction_ptr_places);
        repr.append(index_text.as_str());
        repr.append(" ");
        if idx == instruction_ptr {
            repr.append("> ");
        } else {
            repr.append("  ");
        }
        let line = instruction_repr(instructions[idx]);
        repr.append(line.as_str());
        repr.append("
");
        proof {
            assert(repr@ =~= instr_lines(
                instructions@,
                instruction_ptr as nat,
                instruction_ptr_places as nat,
                start_bound as int,
                idx + 1 - start_bound,
            ));
        }
        idx += 1;
    }
    repr
}

/// The position just past the current line: after the first newline at
/// or after `pos`, or the end of the input.
pub open spec fn line_break(input: Seq<u8>, pos: int) -> int
    decreases input.len() - pos,
{
    if pos < 0 || pos >= input.len() {
        pos
    } else if input[pos] == 10 {
        pos + 1
    } else {
        line_break(input, pos + 1)
    }
}

/// The characters of the current line, newline included.
pub open spec fn line_chars(input: Seq<u8>, pos: int) -> Seq<char> {
    input.subrange(pos, line_break(input, pos)).map_values(|b: u8| b as char)
}

pub proof fn lemma_line_break_bounds(input: Seq<u8>, pos: int)
    requires
        0 <= pos <= input.len(),
    ensures
        pos <= line_break(input, pos) <= input.len(),
        pos < input.len() ==> pos < line_break(input, pos),
    decreases input.len() - pos,
{
    if pos < input.len() && input[pos] != 10 {
        lemma_line_break_bounds(input, pos + 1);
    }
}

/// Reads one line of input, newline included; at the end of input the
/// line is empty.
pub(crate) fn read_line(io: &mut IoBuffer) -> (line: String)
    requires
        old(io).wf(),
    ensures
        final(io).wf(),
        final(io).input@ == old(io).input@,
        final(io).output@ == old(io).output@,
        final(io).in_pos == line_break(old(io).input@, old(io).in_pos as int),
        line@ == line_chars(old(io).input@, old(io).in_pos as int),
{
    let ghost input = io.input@;
    let ghost p0 = io.in_pos as int;
    let mut line = String::new();
    let mut done = false;
    while !done
        invariant
            io.wf(),
            input == old(io).input@,
            p0 == old(io).in_pos as int,
            io.input@ == input,
            io.output@ == old(io).output@,
            p0 <= io.in_pos as int <= input.len(),
            line@ == input.subrange(p0, io.in_pos as int).map_values(|b: u8| b as char),
            !done ==> line_break(input, p0) == line_break(input, io.in_pos as int),
            done ==> io.in_pos as int == line_break(input, p0),
        decreases input.len() - io.in_pos + (if done {
            0int
        } else {
            1int
        }),
    {
        if io.in_pos >= io.input.len() {
            done = true;
        } else {
            let ghost pre_pos = io.in_pos as int;
            let b = io.input[io.in_pos];
            io.in_pos = io.in_pos + 1;
            line.push(b as char);
            proof {
                assert(line@ =~= input.subrange(p0, io.in_pos as int).map_values(
                    |x: u8| x as char,
                ));
            }
            if b == 10 {
                done = true;
            }
        }
    }
    proof {
        assert(line@ =~= line_chars(input, p0));
    }
    line
}

// ---------------------------------------------------------------------------
// The debug stepper
// ---------------------------------------------------------------------------

/// What the stepper prints when it pauses: a blank line, the tape,
/// the instruction window, and the prompt.
pub open spec fn dbg_render(instrs: Seq<Instruction>, m: MachineView) -> Seq<u8> {
    seq![10u8] + ascii_bytes(cells_repr_spec(m.cells, m.cell_ptr)) + ascii_bytes(
        instrs_repr_spec(instrs, m.instr_ptr, 3),
    ) + ascii_bytes("EZ> "@)
}

/// Re-executes the frozen instruction under the instruction pointer
/// with debugging off, then prints the closing blank line.
pub open spec fn frozen_step(instrs: Seq<Instruction>, input: Seq<u8>, m: MachineView) -> Result<
    MachineView,
    (MachineView, RuntimeError),
> {
    if m.instr_ptr < instrs.len() {
        let effect = instr_effect(instrs[m.instr_ptr as int], input, m, false);
        if effect is Ok {
            Ok(MachineView { output: effect->Ok_0.output + seq![10u8], ..effect->Ok_0 })
        } else {
            Err((m, effect->Err_0))
        }
    } else {
        Ok(MachineView { output: m.output + seq![10u8], ..m })
    }
}

/// One full pause of the stepper: render and prompt, read a line,
/// then: a quit line clears the debugging flag and skips the frozen
/// instruction; an empty line goes straight to the frozen
/// instruction; any other line is compiled without debugging and run
/// against the same tape with the two cursor fields saved and
/// restored, tape mutations persisting, before the frozen instruction
/// runs.
pub open spec fn dbg_session(
    instrs: Seq<Instruction>,
    input: Seq<u8>,
    m: MachineView,
    nested_budget: nat,
) -> Result<MachineView, (MachineView, RuntimeError)> {
    let m1 = MachineView { output: m.output + dbg_render(instrs, m), ..m };
    let line = line_chars(input, m1.in_pos as int);
    let m2 = MachineView { in_pos: line_break(input, m1.in_pos as int) as nat, ..m1 };
    if line.len() > 0 && line[0] == '!' {
        Ok(MachineView { debugging: false, output: m2.output + seq![10u8], ..m2 })
    } else if line.len() == 0 {
        frozen_step(instrs, input, m2)
    } else {
        match compile_spec(line, false) {
            Err(ce) => Err((m2, RuntimeError::LineCompile(ce))),
            Ok(dbg_instrs) => {
                let mr = MachineView { instr_ptr: 0, ..m2 };
                match run_plain(dbg_instrs, input, mr, nested_budget) {
                    Err(f) => Err(f),
                    Ok(m3) => {
                        let m4 = MachineView {
                            instr_ptr: m2.instr_ptr,
                            cell_ptr: m2.cell_ptr,
                            cells: grown(m3.cells, m2.cell_ptr),
                            output: m3.output + seq![10u8],
                            ..m3
                        };
                        frozen_step(instrs, input, m4)
                    },
                }
            },
        }
    }
}

/// Runs the machine for at most `fuel` outer steps with debugging
/// support: a pause of the stepper counts as one outer step, and each
/// nested run inside it gets `nested_budget` steps of its own.
pub open spec fn run_full(
    instrs: Seq<Instruction>,
    input: Seq<u8>,
    m: MachineView,
    allow_debugging: bool,
    fuel: nat,
    nested_budget: nat,
) -> Result<MachineView, (MachineView, RuntimeError)>
    decreases fuel,
{
    if m.instr_ptr >= instrs.len() {
        Ok(m)
    } else if fuel == 0 {
        Err((m, RuntimeError::StepLimit))
    } else if allow_debugging && m.debugging {
        match dbg_session(instrs, input, m, nested_budget) {
            Ok(m2) => run_full(
                instrs,
                input,
                advance(m2),
                allow_debugging,
                (fuel - 1) as nat,
                nested_budget,
            ),
            Err(f) => Err(f),
        }
    } else {
        let effect = instr_effect(instrs[m.instr_ptr as int], input, m, allow_debugging);
        if effect is Ok {
            run_full(
                instrs,
                input,
                advance(effect->Ok_0),
                allow_debugging,
                (fuel - 1) as nat,
                nested_budget,
            )
        } else {
            Err((m, effect->Err_0))
        }
    }
}

proof fn lemma_run_full_halted(
    instrs: Seq<Instruction>,
    input: Seq<u8>,
    m: MachineView,
    allow_debugging: bool,
    fuel: nat,
    nested_budget: nat,
)
    requires
        m.instr_ptr >= instrs.len(),
    ensures
        run_full(instrs, input, m, allow_debugging, fuel, nested_budget) == Ok::<
            MachineView,
            (MachineView, RuntimeError),
        >(m),
{
}

proof fn lemma_run_full_out_of_fuel(
    instrs: Seq<Instruction>,
    input: Seq<u8>,
    m: MachineView,
    allow_debugging: bool,
    nested_budget: nat,
)
    requires
        m.instr_ptr < instrs.len(),
    ensures
        run_full(instrs, input, m, allow_debugging, 0, nested_budget) == Err::<
            MachineView,
            (MachineView, RuntimeError),
        >((m, RuntimeError::StepLimit)),
{
}

proof fn lemma_run_full_step(
    instrs: Seq<Instruction>,
    input: Seq<u8>,
    m: MachineView,
    allow_debugging: bool,
    fuel: nat,
    nested_budget: nat,
)
    requires
        m.instr_ptr < instrs.len(),
        fuel > 0,
        !(allow_debugging && m.debugging),
    ensures
        instr_effect(instrs[m.instr_ptr as int], input, m, allow_debugging) is Ok ==> run_full(
            instrs,
            input,
            m,
            allow_debugging,
            fuel,
            nested_budget,
        ) == run_full(
            instrs,
            input,
            advance(instr_effect(instrs[m.instr_ptr as int], input, m, allow_debugging)->Ok_0),
            allow_debugging,
            (fuel - 1) as nat,
            nested_budget,
        ),
        instr_effect(instrs[m.instr_ptr as int], input, m, allow_debugging) is Err ==> run_full(
            instrs,
            input,
            m,
            allow_debugging,
            fuel,
            nested_budget,
        ) == Err::<MachineView, (MachineView, RuntimeError)>(
            (m, instr_effect(instrs[m.instr_ptr as int], input, m, allow_debugging)->Err_0),
        ),
{
}

proof fn lemma_run_full_dbg_step(
    instrs: Seq<Instruction>,
    input: Seq<u8>,
    m: MachineView,
    allow_debugging: bool,
    fuel: nat,
    nested_budget: nat,
)
    requires
        m.instr_ptr < instrs.len(),
        fuel > 0,
        allow_debugging && m.debugging,
    ensures
        dbg_session(instrs, input, m, nested_budget) is Ok ==> run_full(
            instrs,
            input,
            m,
            allow_debugging,
            fuel,
            nested_budget,
        ) == run_full(
            instrs,
            input,
            advance(dbg_session(instrs, input, m, nested_budget)->Ok_0),
            allow_debugging,
            (fuel - 1) as nat,
            nested_budget,
        ),
        dbg_session(instrs, input, m, nested_budget) is Err ==> run_full(
            instrs,
            input,
            m,
            allow_debugging,
            fuel,
            nested_budget,
        ) == Err::<MachineView, (MachineView, RuntimeError)>(
            dbg_session(instrs, input, m, nested_budget)->Err_0,
        ),
{
}

/// A successful pause leaves the instruction pointer where it was, or
/// where the frozen instruction's jump sent it: inside the list.
proof fn lemma_dbg_session_ptr(
    instrs: Seq<Instruction>,
    input: Seq<u8>,
    m: MachineView,
    nested_budget: nat,
)
    requires
        jump_targets_valid(instrs),
        m.instr_ptr < instrs.len(),
        dbg_session(instrs, input, m, nested_budget) is Ok,
    ensures
        dbg_session(instrs, input, m, nested_budget)->Ok_0.instr_ptr < instrs.len(),
{
    let m1 = MachineView { output: m.output + dbg_render(instrs, m), ..m };
    let line = line_chars(input, m1.in_pos as int);
    let m2 = MachineView { in_pos: line_break(input, m1.in_pos as int) as nat, ..m1 };
    if line.len() > 0 && line[0] == '!' {
    } else if line.len() == 0 {
        lemma_frozen_ptr(instrs, input, m2);
    } else {
        match compile_spec(line, false) {
            Err(ce) => {},
            Ok(dbg_instrs) => {
                let mr = MachineView { instr_ptr: 0, ..m2 };
                match run_plain(dbg_instrs, input, mr, nested_budget) {
                    Err(f) => {},
                    Ok(m3) => {
                        let m4 = MachineView {
                            instr_ptr: m2.instr_ptr,
                            cell_ptr: m2.cell_ptr,
                            cells: grown(m3.cells, m2.cell_ptr),
                            output: m3.output + seq![10u8],
                            ..m3
                        };
                        lemma_frozen_ptr(instrs, input, m4);
                    },
                }
            },
        }
    }
}

proof fn lemma_frozen_ptr(instrs: Seq<Instruction>, input: Seq<u8>, m: MachineView)
    requires
        jump_targets_valid(instrs),
        m.instr_ptr < instrs.len(),
        frozen_step(instrs, input, m) is Ok,
    ensures
        frozen_step(instrs, input, m)->Ok_0.instr_ptr < instrs.len(),
{
    let effect = instr_effect(instrs[m.instr_ptr as int], input, m, false);
    if effect is Ok {
        lemma_effect_ptr_bound(instrs, input, m, false);
    }
}

/// Executes the frozen instruction under the pointer with debugging
/// off, then prints the closing blank line.
fn execute_frozen(
    instructions: &Vec<Instruction>,
    state: &mut ExecutionState,
    io: &mut IoBuffer,
) -> (r: Result<(), RuntimeError>)
    requires
        old(state).wf(),
        old(io).wf(),
    ensures
        final(state).wf(),
        final(io).wf(),
        final(io).input@ == old(io).input@,
        r is Ok ==> frozen_step(instructions@, old(io).input@, machine_view(*old(state), *old(io)))
            == Ok::<MachineView, (MachineView, RuntimeError)>(
            machine_view(*final(state), *final(io)),
        ),
        r is Err ==> frozen_step(
            instructions@,
            old(io).input@,
            machine_view(*old(state), *old(io)),
        ) == Err::<MachineView, (MachineView, RuntimeError)>(
            (machine_view(*final(state), *final(io)), r->Err_0),
        ),
{
    let ghost m0 = machine_view(*state, *io);
    if state.instruction_ptr < instructions.len() {
        let instruction = instructions[state.instruction_ptr];
        match interpret_instruction(instruction, state, io, false) {
            Ok(()) => {
                io.output.push(10);
                proof {
                    assert(machine_view(*state, *io) =~= frozen_step(
                        instructions@,
                        old(io).input@,
                        m0,
                    )->Ok_0);
                }
                Ok(())
            },
            Err(e) => Err(e),
        }
    } else {
        io.output.push(10);
        proof {
            assert(machine_view(*state, *io) =~= frozen_step(
                instructions@,
                old(io).input@,
                m0,
            )->Ok_0);
        }
        Ok(())
    }
}

/// One pause of the interactive stepper: renders the tape and the
/// instruction window, prompts for a line, and either quits
/// debugging, or compiles and runs the line against the live tape
/// with the cursor fields saved and restored, before re-executing the
/// frozen instruction with debugging off.
pub fn start_debugger(
    instructions: &Vec<Instruction>,
    state: &mut ExecutionState,
    io: &mut IoBuffer,
    max_steps: u64,
) -> (r: Result<(), RuntimeError>)
    requires
        old(state).wf(),
        old(io).wf(),
        instructions@.len() > 0,
        old(state).instruction_ptr < instructions@.len(),
    ensures
        final(state).wf(),
        final(io).wf(),
        final(io).input@ == old(io).input@,
        r is Ok ==> dbg_session(
            instructions@,
            old(io).input@,
            machine_view(*old(state), *old(io)),
            max_steps as nat,
        ) == Ok::<MachineView, (MachineView, RuntimeError)>(
            machine_view(*final(state), *final(io)),
        ),
        r is Err ==> dbg_session(
            instructions@,
            old(io).input@,
            machine_view(*old(state), *old(io)),
            max_steps as nat,
        ) == Err::<MachineView, (MachineView, RuntimeError)>(
            (machine_view(*final(state), *final(io)), r->Err_0),
        ),
{
    let ghost m0 = machine_view(*state, *io);
    let ghost input = io.input@;
    io.output.push(10);
    let cells_repr = produce_cells_repr(&state.cells, state.cell_ptr);
    write_string_ascii(io, cells_repr.as_str());
    let instructions_repr = produce_instructions_repr(instructions, state.instruction_ptr, 3);
    write_string_ascii(io, instructions_repr.as_str());
    write_string_ascii(io, "EZ> ");
    proof {
        assert(io.output@ =~= m0.output + dbg_render(instructions@, m0));
        assert(machine_view(*state, *io) =~= (MachineView {
            output: m0.output + dbg_render(instructions@, m0),
            ..m0
        }));
    }
    let ghost m1 = machine_view(*state, *io);

    let input_buffer = read_line(io);
    let ghost line = line_chars(input, m1.in_pos as int);
    let ghost m2 = machine_view(*state, *io);
    proof {
        assert(m2 =~= (MachineView { in_pos: line_break(input, m1.in_pos as int) as nat, ..m1 }));
    }

    let line_len = input_buffer.as_str().unicode_len();
    if line_len > 0 && input_buffer.as_str().get_char(0) == '!' {
        state.is_debugging = false;
        io.output.push(10);
        proof {
            assert(machine_view(*state, *io) =~= (MachineView {
                debugging: false,
                output: m2.output + seq![10u8],
                ..m2
            }));
        }
        Ok(())
    } else if line_len == 0 {
        execute_frozen(instructions, state, io)
    } else {
        match compile_to_intermediate(input_buffer.as_str(), false) {
            Err(ce) => Err(RuntimeError::LineCompile(ce)),
            Ok(dbg_instructions) => {
                proof {
                    crate::ezfuck::parser::lemma_compile_targets_valid(line, false);
                }
                let current_instruction_ptr = state.instruction_ptr;
                state.set_instruction_pointer(0);
                let ghost mr = machine_view(*state, *io);
                proof {
                    assert(mr =~= (MachineView { instr_ptr: 0, ..m2 }));
                }
                let current_cell_ptr = state.cell_ptr;
                match run_without_debugger(&dbg_instructions, state, io, max_steps) {
                    Err(e) => Err(e),
                    Ok(()) => {
                        let ghost m3 = machine_view(*state, *io);
                        state.set_cell_pointer(current_cell_ptr);
                        state.set_instruction_pointer(current_instruction_ptr);
                        io.output.push(10);
                        proof {
                            assert(machine_view(*state, *io) =~= (MachineView {
                                instr_ptr: m2.instr_ptr,
                                cell_ptr: m2.cell_ptr,
                                cells: grown(m3.cells, m2.cell_ptr),
                                output: m3.output + seq![10u8],
                                ..m3
                            }));
                        }
                        execute_frozen(instructions, state, io)
                    },
                }
            },
        }
    }
}

/// Executes the instruction list from the current instruction pointer
/// until the machine halts, a fault aborts it, or `max_steps`
/// instructions have run.  When debugging is allowed, a set debugging
/// flag hands control to the interactive stepper, whose nested runs
/// each get a fresh `max_steps` budget.
pub fn interpret(
    instructions: &Vec<Instruction>,
    state: &mut ExecutionState,
    io: &mut IoBuffer,
    allow_debugging: bool,
    max_steps: u64,
) -> (r: Result<(), RuntimeError>)
    requires
        old(state).wf(),
        old(io).wf(),
        jump_targets_valid(instructions@),
    ensures
        final(state).wf(),
        final(io).wf(),
        final(io).input@ == old(io).input@,
        r is Ok ==> run_full(
            instructions@,
            old(io).input@,
            machine_view(*old(state), *old(io)),
            allow_debugging,
            max_steps as nat,
            max_steps as nat,
        ) == Ok::<MachineView, (MachineView, RuntimeError)>(
            machine_view(*final(state), *final(io)),
        ),
        r is Err ==> run_full(
            instructions@,
            old(io).input@,
            machine_view(*old(state), *old(io)),
            allow_debugging,
            max_steps as nat,
            max_steps as nat,
        ) == Err::<MachineView, (MachineView, RuntimeError)>(
            (machine_view(*final(state), *final(io)), r->Err_0),
        ),
{
    let ghost m0 = machine_view(*state, *io);
    let ghost input0 = io.input@;
    let mut fuel: u64 = max_steps;
    while state.instruction_ptr < instructions.len()
        invariant
            state.wf(),
            io.wf(),
            input0 == old(io).input@,
            m0 == machine_view(*old(state), *old(io)),
            io.input@ == input0,
            jump_targets_valid(instructions@),
            fuel <= max_steps,
            run_full(
                instructions@,
                input0,
                m0,
                allow_debugging,
                max_steps as nat,
                max_steps as nat,
            ) == run_full(
                instructions@,
                input0,
                machine_view(*state, *io),
                allow_debugging,
                fuel as nat,
                max_steps as nat,
            ),
        decreases fuel,
    {
        let ghost m_pre = machine_view(*state, *io);
        if fuel == 0 {
            proof {
                lemma_run_full_out_of_fuel(
                    instructions@,
                    input0,
                    m_pre,
                    allow_debugging,
                    max_steps as nat,
                );
            }
            return Err(RuntimeError::StepLimit);
        }
        if allow_debugging && state.is_debugging {
            proof {
                lemma_run_full_dbg_step(
                    instructions@,
                    input0,
                    m_pre,
                    allow_debugging,
                    fuel as nat,
                    max_steps as nat,
                );
            }
            match start_debugger(instructions, state, io, max_steps) {
                Ok(()) => {},
                Err(e) => {
                    return Err(e);
                },
            }
            proof {
                lemma_dbg_session_ptr(instructions@, input0, m_pre, max_steps as nat);
                assert((state.instruction_ptr as int) < instructions@.len());
            }
            state.instruction_ptr = state.instruction_ptr + 1;
            proof {
                assert(machine_view(*state, *io) =~= advance(
                    dbg_session(instructions@, input0, m_pre, max_steps as nat)->Ok_0,
                ));
            }
        } else {
            proof {
                lemma_run_full_step(
                    instructions@,
                    input0,
                    m_pre,
                    allow_debugging,
                    fuel as nat,
                    max_steps as nat,
                );
            }
            let current_instruction = instructions[state.instruction_ptr];
            match interpret_instruction(current_instruction, state, io, allow_debugging) {
                Ok(()) => {},
                Err(e) => {
                    return Err(e);
                },
            }
            proof {
                lemma_effect_ptr_bound(instructions@, input0, m_pre, allow_debugging);
                assert((state.instruction_ptr as int) < instructions@.len());
            }
            state.instruction_ptr = state.instruction_ptr + 1;
            proof {
                assert(machine_view(*state, *io) =~= advance(
                    instr_effect(
                        instructions@[m_pre.instr_ptr as int],
                        input0,
                        m_pre,
                        allow_debugging,
                    )->Ok_0,
                ));
            }
        }
        fuel = fuel - 1;
    }
    proof {
        lemma_run_full_halted(
            instructions@,
            input0,
            machine_view(*state, *io),
            allow_debugging,
            fuel as nat,
            max_steps as nat,
        );
    }
    Ok(())
}

} // verus!
