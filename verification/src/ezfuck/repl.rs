//! The interactive session: shows the tape, prompts for a line of
//! source, compiles it and runs it against a persistent tape, until a
//! quit line or the end of the input.

use crate::ezfuck::cell_repr::{cells_repr_spec, produce_cells_repr};
use crate::ezfuck::interpreter::{
    ascii_bytes, line_break, line_chars, machine_view, read_line, run_plain,
    run_without_debugger, write_string_ascii, ExecutionState, IoBuffer, MachineView,
    RuntimeError,
};
use crate::ezfuck::parser::{
    compile_spec, compile_to_intermediate, lemma_compile_targets_valid, CompileError, Instruction,
};
use vstd::prelude::*;

verus! {

/// The session from machine `m`, for at most `fuel` prompts: render
/// the tape and the prompt, read a line; an empty line (the end of
/// the input) or a quit line ends the session; any other line is
/// compiled without debugging and run against the same tape, the
/// instruction pointer reset afterwards.  Each line's run gets
/// `nested_budget` machine steps.  Since every prompt past the first
/// consumes at least one input byte, a fuel of one more than the
/// unread input always suffices.
pub open spec fn repl_run(
    input: Seq<u8>,
    m: MachineView,
    nested_budget: nat,
    fuel: nat,
) -> Result<MachineView, (MachineView, RuntimeError)>
    decreases fuel,
{
    if fuel == 0 {
        Err((m, RuntimeError::StepLimit))
    } else {
        let m1 = MachineView {
            output: m.output + ascii_bytes(cells_repr_spec(m.cells, m.cell_ptr)) + ascii_bytes(
                "EZ> "@,
            ),
            ..m
        };
        let line = line_chars(input, m1.in_pos as int);
        let m2 = MachineView { in_pos: line_break(input, m1.in_pos as int) as nat, ..m1 };
        if line.len() == 0 {
            Ok(m2)
        } else if line[0] == '!' {
            Ok(m2)
        } else if compile_spec(line, false) is Err {
            Err((m2, RuntimeError::LineCompile(compile_spec(line, false)->Err_0)))
        } else {
            let instrs = compile_spec(line, false)->Ok_0;
            let m2b = MachineView { output: m2.output + ascii_bytes("Output: "@), ..m2 };
            let nested = run_plain(instrs, input, m2b, nested_budget);
            if nested is Err {
                Err(nested->Err_0)
            } else {
                repl_run(
                    input,
                    MachineView {
                        instr_ptr: 0,
                        output: nested->Ok_0.output.push(10u8),
                        ..nested->Ok_0
                    },
                    nested_budget,
                    (fuel - 1) as nat,
                )
            }
        }
    }
}

proof fn lemma_repl_exit(input: Seq<u8>, m: MachineView, nested_budget: nat, fuel: nat)
    requires
        fuel > 0,
        m.in_pos <= input.len(),
        line_chars(input, m.in_pos as int).len() == 0 || line_chars(input, m.in_pos as int)[0]
            == '!',
    ensures
        repl_run(input, m, nested_budget, fuel) == Ok::<MachineView, (MachineView, RuntimeError)>(
            MachineView {
                in_pos: line_break(input, m.in_pos as int) as nat,
                output: m.output + ascii_bytes(cells_repr_spec(m.cells, m.cell_ptr))
                    + ascii_bytes("EZ> "@),
                ..m
            },
        ),
{
}

proof fn lemma_repl_compile_err(
    input: Seq<u8>,
    m: MachineView,
    nested_budget: nat,
    fuel: nat,
    ce: CompileError,
)
    requires
        fuel > 0,
        m.in_pos <= input.len(),
        line_chars(input, m.in_pos as int).len() > 0,
        line_chars(input, m.in_pos as int)[0] != '!',
        compile_spec(line_chars(input, m.in_pos as int), false) == Err::<
            Seq<Instruction>,
            CompileError,
        >(ce),
    ensures
        repl_run(input, m, nested_budget, fuel) == Err::<MachineView, (MachineView, RuntimeError)>(
            (
                MachineView {
                    in_pos: line_break(input, m.in_pos as int) as nat,
                    output: m.output + ascii_bytes(cells_repr_spec(m.cells, m.cell_ptr))
                        + ascii_bytes("EZ> "@),
                    ..m
                },
                RuntimeError::LineCompile(ce),
            ),
        ),
{
}

proof fn lemma_repl_run_line(
    input: Seq<u8>,
    m: MachineView,
    nested_budget: nat,
    fuel: nat,
    instrs: Seq<Instruction>,
)
    requires
        fuel > 0,
        m.in_pos <= input.len(),
        line_chars(input, m.in_pos as int).len() > 0,
        line_chars(input, m.in_pos as int)[0] != '!',
        compile_spec(line_chars(input, m.in_pos as int), false) == Ok::<
            Seq<Instruction>,
            CompileError,
        >(instrs),
    ensures
        ({
            let m2b = MachineView {
                in_pos: line_break(input, m.in_pos as int) as nat,
                output: m.output + ascii_bytes(cells_repr_spec(m.cells, m.cell_ptr))
                    + ascii_bytes("EZ> "@) + ascii_bytes("Output: "@),
                ..m
            };
            let nested = run_plain(instrs, input, m2b, nested_budget);
            &&& nested is Err ==> repl_run(input, m, nested_budget, fuel) == Err::<
                MachineView,
                (MachineView, RuntimeError),
            >(nested->Err_0)
            &&& nested is Ok ==> repl_run(input, m, nested_budget, fuel) == repl_run(
                input,
                MachineView {
                    instr_ptr: 0,
                    output: nested->Ok_0.output.push(10u8),
                    ..nested->Ok_0
                },
                nested_budget,
                (fuel - 1) as nat,
            )
        }),
{
    let m1 = MachineView {
        output: m.output + ascii_bytes(cells_repr_spec(m.cells, m.cell_ptr)) + ascii_bytes(
            "EZ> "@,
        ),
        ..m
    };
    let m2 = MachineView { in_pos: line_break(input, m.in_pos as int) as nat, ..m1 };
    let m2b = MachineView { output: m2.output + ascii_bytes("Output: "@), ..m2 };
    assert(m2b =~= (MachineView {
        in_pos: line_break(input, m.in_pos as int) as nat,
        output: m.output + ascii_bytes(cells_repr_spec(m.cells, m.cell_ptr)) + ascii_bytes(
            "EZ> "@,
        ) + ascii_bytes("Output: "@),
        ..m
    }));
}

/// Runs the interactive session over the input buffer: each line is
/// compiled and run against the same tape, with at most `max_steps`
/// machine steps per line, until a line starting with the quit
/// sentinel or the end of the input.
pub fn start_repl(io: &mut IoBuffer, max_steps: u64) -> (r: Result<(), RuntimeError>)
    requires
        old(io).wf(),
    ensures
        final(io).wf(),
        final(io).input@ == old(io).input@,
        ({
            let init = MachineView {
                cells: seq![0u8],
                cell_ptr: 0,
                instr_ptr: 0,
                debugging: false,
                in_pos: old(io).in_pos as nat,
                output: old(io).output@,
            };
            let outcome = repl_run(
                old(io).input@,
                init,
                max_steps as nat,
                (old(io).input@.len() - old(io).in_pos + 1) as nat,
            );
            &&& r is Ok ==> outcome is Ok && outcome->Ok_0.output == final(io).output@
                && outcome->Ok_0.in_pos == final(io).in_pos
            &&& r is Err ==> outcome is Err && outcome->Err_0.0.output == final(io).output@
                && outcome->Err_0.0.in_pos == final(io).in_pos && outcome->Err_0.1 == r->Err_0
        }),
{
    let mut state = ExecutionState::new();
    let ghost input = io.input@;
    let ghost init = machine_view(state, *io);
    let ghost total_fuel = (input.len() - io.in_pos + 1) as nat;
    let ghost mut fuel = total_fuel;
    proof {
        assert(init =~= (MachineView {
            cells: seq![0u8],
            cell_ptr: 0,
            instr_ptr: 0,
            debugging: false,
            in_pos: old(io).in_pos as nat,
            output: old(io).output@,
        }));
    }
    loop
        invariant
            state.wf(),
            io.wf(),
            input == old(io).input@,
            io.input@ == input,
            total_fuel == (input.len() - old(io).in_pos + 1) as nat,
            fuel >= input.len() - io.in_pos + 1,
            fuel <= total_fuel,
            repl_run(input, init, max_steps as nat, total_fuel) == repl_run(
                input,
                machine_view(state, *io),
                max_steps as nat,
                fuel,
            ),
            init == (MachineView {
                cells: seq![0u8],
                cell_ptr: 0,
                instr_ptr: 0,
                debugging: false,
                in_pos: old(io).in_pos as nat,
                output: old(io).output@,
            }),
        decreases fuel,
    {
        let ghost m_pre = machine_view(state, *io);
        let cells_repr = produce_cells_repr(&state.cells, state.cell_ptr);
        write_string_ascii(io, cells_repr.as_str());
        write_string_ascii(io, "EZ> ");
        let input_buffer = read_line(io);
        let ghost line = line_chars(input, m_pre.in_pos as int);
        proof {
            crate::ezfuck::interpreter::lemma_line_break_bounds(input, m_pre.in_pos as int);
        }
        let line_len = input_buffer.as_str().unicode_len();
        if line_len == 0 {
            proof {
                lemma_repl_exit(input, m_pre, max_steps as nat, fuel);
                assert(machine_view(state, *io) =~= repl_run(
                    input,
                    m_pre,
                    max_steps as nat,
                    fuel,
                )->Ok_0);
            }
            return Ok(());
        }
        if input_buffer.as_str().get_char(0) == '!' {
            proof {
                lemma_repl_exit(input, m_pre, max_steps as nat, fuel);
                assert(machine_view(state, *io) =~= repl_run(
                    input,
                    m_pre,
                    max_steps as nat,
                    fuel,
                )->Ok_0);
            }
            return Ok(());
        }
        match compile_to_intermediate(input_buffer.as_str(), false) {
            Err(ce) => {
                proof {
                    lemma_repl_compile_err(input, m_pre, max_steps as nat, fuel, ce);
                    assert(machine_view(state, *io) =~= repl_run(
                        input,
                        m_pre,
                        max_steps as nat,
                        fuel,
                    )->Err_0.0);
                }
                return Err(RuntimeError::LineCompile(ce));
            },
            Ok(instructions) => {
                proof {
                    lemma_compile_targets_valid(line, false);
                    lemma_repl_run_line(input, m_pre, max_steps as nat, fuel, instructions@);
                }
                write_string_ascii(io, "Output: ");
                let ghost m2b = machine_view(state, *io);
                match run_without_debugger(&instructions, &mut state, io, max_steps) {
                    Err(e) => {
                        return Err(e);
                    },
                    Ok(()) => {
                        state.set_instruction_pointer(0);
                        io.output.push(10);
                        proof {
                            assert(machine_view(state, *io) =~= (MachineView {
                                instr_ptr: 0,
                                output: run_plain(
                                    instructions@,
                                    input,
                                    m2b,
                                    max_steps as nat,
                                )->Ok_0.output.push(10u8),
                                ..run_plain(instructions@, input, m2b, max_steps as nat)->Ok_0
                            }));
                            crate::ezfuck::interpreter::lemma_run_plain_in_pos(
                                instructions@,
                                input,
                                m2b,
                                max_steps as nat,
                            );
                            fuel = (fuel - 1) as nat;
                        }
                    },
                }
            },
        }
    }
}

} // verus!
