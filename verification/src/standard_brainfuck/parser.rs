//! The plain Brainfuck parser: one instruction per symbol byte, loop
//! brackets resolved to absolute positions in the source.

use std::collections::HashMap;
use vstd::prelude::*;
use vstd::string::StringSliceAdditionalSpecFns;
use vstd::string::StrSliceExecFns;

verus! {

/// How a jump compares the current cell with its match value.
#[derive(Copy, Clone, Debug, Eq, PartialEq)]
pub enum EqualityOperator {
    NotEqual,
    Equal,
}

/// One unit of plain Brainfuck execution.
#[derive(Copy, Clone, Debug, Eq, PartialEq)]
pub enum Instruction {
    AddToCell { n: i8 },
    AddToCellPtr { offset: isize },
    JumpToIf { position: usize, operator: EqualityOperator, match_value: u8 },
    PrintOut,
    ReadIn,
}

/// The one way plain Brainfuck parsing fails: an unmatched bracket.
#[derive(Copy, Clone, Debug, Eq, PartialEq)]
pub enum ParseError {
    /// A loop open with no matching close.
    UnmatchedLoopOpen,
    /// A loop close with no matching open.
    UnmatchedLoopClose,
}

/// The bracket tables of the source bytes, built by a single scan
/// with a stack of unmatched opens.
pub open spec fn loops_from(
    bytes: Seq<u8>,
    i: int,
    stack: Seq<usize>,
    s2e: Map<usize, usize>,
    e2s: Map<usize, usize>,
) -> Result<(Map<usize, usize>, Map<usize, usize>), ParseError>
    decreases bytes.len() - i,
{
    if i < 0 || i >= bytes.len() {
        if stack.len() == 0 {
            Ok((s2e, e2s))
        } else {
            Err(ParseError::UnmatchedLoopOpen)
        }
    } else if bytes[i] == 91 {
        loops_from(bytes, i + 1, stack.push(i as usize), s2e, e2s)
    } else if bytes[i] == 93 {
        if stack.len() == 0 {
            Err(ParseError::UnmatchedLoopClose)
        } else {
            loops_from(
                bytes,
                i + 1,
                stack.drop_last(),
                s2e.insert(stack.last(), i as usize),
                e2s.insert(i as usize, stack.last()),
            )
        }
    } else {
        loops_from(bytes, i + 1, stack, s2e, e2s)
    }
}

/// The bracket tables of a whole source.
pub open spec fn loop_maps_spec(bytes: Seq<u8>) -> Result<
    (Map<usize, usize>, Map<usize, usize>),
    ParseError,
> {
    loops_from(bytes, 0, Seq::empty(), Map::empty(), Map::empty())
}

proof fn lemma_loops_step_open(
    bytes: Seq<u8>,
    i: int,
    stack: Seq<usize>,
    s2e: Map<usize, usize>,
    e2s: Map<usize, usize>,
)
    requires
        0 <= i < bytes.len(),
        bytes[i] == 91,
    ensures
        loops_from(bytes, i, stack, s2e, e2s) == loops_from(
            bytes,
            i + 1,
            stack.push(i as usize),
            s2e,
            e2s,
        ),
{
}

proof fn lemma_loops_step_close(
    bytes: Seq<u8>,
    i: int,
    stack: Seq<usize>,
    s2e: Map<usize, usize>,
    e2s: Map<usize, usize>,
)
    requires
        0 <= i < bytes.len(),
        bytes[i] == 93,
        stack.len() > 0,
    ensures
        loops_from(bytes, i, stack, s2e, e2s) == loops_from(
            bytes,
            i + 1,
            stack.drop_last(),
            s2e.insert(stack.last(), i as usize),
            e2s.insert(i as usize, stack.last()),
        ),
{
}

proof fn lemma_loops_step_close_err(
    bytes: Seq<u8>,
    i: int,
    stack: Seq<usize>,
    s2e: Map<usize, usize>,
    e2s: Map<usize, usize>,
)
    requires
        0 <= i < bytes.len(),
        bytes[i] == 93,
        stack.len() == 0,
    ensures
        loops_from(bytes, i, stack, s2e, e2s) == Err::<
            (Map<usize, usize>, Map<usize, usize>),
            ParseError,
        >(ParseError::UnmatchedLoopClose),
{
}

proof fn lemma_loops_step_other(
    bytes: Seq<u8>,
    i: int,
    stack: Seq<usize>,
    s2e: Map<usize, usize>,
    e2s: Map<usize, usize>,
)
    requires
        0 <= i < bytes.len(),
        bytes[i] != 91,
        bytes[i] != 93,
    ensures
        loops_from(bytes, i, stack, s2e, e2s) == loops_from(bytes, i + 1, stack, s2e, e2s),
{
}

proof fn lemma_loops_end(
    bytes: Seq<u8>,
    stack: Seq<usize>,
    s2e: Map<usize, usize>,
    e2s: Map<usize, usize>,
)
    ensures
        stack.len() == 0 ==> loops_from(bytes, bytes.len() as int, stack, s2e, e2s) == Ok::<
            (Map<usize, usize>, Map<usize, usize>),
            ParseError,
        >((s2e, e2s)),
        stack.len() > 0 ==> loops_from(bytes, bytes.len() as int, stack, s2e, e2s) == Err::<
            (Map<usize, usize>, Map<usize, usize>),
            ParseError,
        >(ParseError::UnmatchedLoopOpen),
{
}

/// What a successful scan guarantees: every bracket position is in
/// its table and every stored target is a valid source index.
proof fn lemma_loops_from_props(
    bytes: Seq<u8>,
    i: int,
    stack: Seq<usize>,
    s2e: Map<usize, usize>,
    e2s: Map<usize, usize>,
)
    requires
        0 <= i <= bytes.len(),
        loops_from(bytes, i, stack, s2e, e2s) is Ok,
        forall|k: int| 0 <= k < stack.len() ==> (#[trigger] stack[k]) < i,
        forall|k: usize| #[trigger] s2e.contains_key(k) ==> (s2e[k] as int) < bytes.len(),
        forall|k: usize| #[trigger] e2s.contains_key(k) ==> (e2s[k] as int) < bytes.len(),
    ensures
        ({
            let maps = loops_from(bytes, i, stack, s2e, e2s)->Ok_0;
            &&& forall|k: usize| #[trigger] s2e.contains_key(k) ==> maps.0.contains_key(k)
            &&& forall|k: usize| #[trigger] e2s.contains_key(k) ==> maps.1.contains_key(k)
            &&& forall|k: int|
                0 <= k < stack.len() ==> maps.0.contains_key(#[trigger] stack[k])
            &&& forall|j: int|
                i <= j < bytes.len() && (#[trigger] bytes[j]) == 91 ==> maps.0.contains_key(
                    j as usize,
                )
            &&& forall|j: int|
                i <= j < bytes.len() && (#[trigger] bytes[j]) == 93 ==> maps.1.contains_key(
                    j as usize,
                )
            &&& forall|k: usize| #[trigger] maps.0.contains_key(k) ==> (maps.0[k] as int)
                < bytes.len()
            &&& forall|k: usize| #[trigger] maps.1.contains_key(k) ==> (maps.1[k] as int)
                < bytes.len()
        }),
    decreases bytes.len() - i,
{
    if i >= bytes.len() {
        assert(stack.len() == 0);
    } else if bytes[i] == 91 {
        let stack2 = stack.push(i as usize);
        assert forall|k: int| 0 <= k < stack2.len() implies (#[trigger] stack2[k]) < i + 1 by {
            if k < stack.len() {
                assert(stack2[k] == stack[k]);
            } else {
                assert(stack2[k] == i as usize);
            }
        }
        lemma_loops_from_props(bytes, i + 1, stack2, s2e, e2s);
        let maps = loops_from(bytes, i + 1, stack2, s2e, e2s)->Ok_0;
        assert forall|k: int| 0 <= k < stack.len() implies maps.0.contains_key(
            #[trigger] stack[k],
        ) by {
            assert(stack2[k] == stack[k]);
        }
        assert forall|j: int|
            i <= j < bytes.len() && (#[trigger] bytes[j]) == 91 implies maps.0.contains_key(
            j as usize,
        ) by {
            if j == i {
                assert(stack2[stack.len() as int] == i as usize);
                assert(maps.0.contains_key(stack2[stack.len() as int]));
            }
        }
    } else if bytes[i] == 93 {
        assert(stack.len() > 0);
        let s2e2 = s2e.insert(stack.last(), i as usize);
        let e2s2 = e2s.insert(i as usize, stack.last());
        let stack2 = stack.drop_last();
        assert forall|k: usize| #[trigger] s2e2.contains_key(k) implies (s2e2[k] as int)
            < bytes.len() by {
            if k == stack.last() {
            } else {
                assert(s2e.contains_key(k) && s2e2[k] == s2e[k]);
            }
        }
        assert forall|k: usize| #[trigger] e2s2.contains_key(k) implies (e2s2[k] as int)
            < bytes.len() by {
            if k == i as usize {
            } else {
                assert(e2s.contains_key(k) && e2s2[k] == e2s[k]);
            }
        }
        assert forall|k: int| 0 <= k < stack2.len() implies (#[trigger] stack2[k]) < i + 1 by {
            assert(stack2[k] == stack[k]);
        }
        lemma_loops_from_props(bytes, i + 1, stack2, s2e2, e2s2);
        let maps = loops_from(bytes, i + 1, stack2, s2e2, e2s2)->Ok_0;
        assert forall|k: usize| #[trigger] s2e.contains_key(k) implies maps.0.contains_key(k) by {
            assert(s2e2.contains_key(k));
        }
        assert forall|k: usize| #[trigger] e2s.contains_key(k) implies maps.1.contains_key(k) by {
            assert(e2s2.contains_key(k));
        }
        assert forall|k: int| 0 <= k < stack.len() implies maps.0.contains_key(
            #[trigger] stack[k],
        ) by {
            if k < stack.len() - 1 {
                assert(stack2[k] == stack[k]);
            } else {
                assert(stack[k] == stack.last());
                assert(s2e2.contains_key(stack.last()));
            }
        }
        assert forall|j: int|
            i <= j < bytes.len() && (#[trigger] bytes[j]) == 93 implies maps.1.contains_key(
            j as usize,
        ) by {
            if j == i {
                assert(e2s2.contains_key(i as usize));
            }
        }
    } else {
        lemma_loops_from_props(bytes, i + 1, stack, s2e, e2s);
    }
}

/// Builds the open-to-close and close-to-open bracket tables for the
/// source bytes, failing on any unmatched bracket.
pub fn find_loop_indices(tokens: &Vec<u8>) -> (r: Result<
    (HashMap<usize, usize>, HashMap<usize, usize>),
    ParseError,
>)
    ensures
        match r {
            Ok(maps) => loop_maps_spec(tokens@) == Ok::<
                (Map<usize, usize>, Map<usize, usize>),
                ParseError,
            >((maps.0@, maps.1@)),
            Err(e) => loop_maps_spec(tokens@) == Err::<
                (Map<usize, usize>, Map<usize, usize>),
                ParseError,
            >(e),
        },
{
    broadcast use vstd::std_specs::hash::group_hash_axioms;

    let mut start_to_end: HashMap<usize, usize> = HashMap::new();
    let mut end_to_start: HashMap<usize, usize> = HashMap::new();
    let mut loop_start_stack: Vec<usize> = Vec::new();
    let n = tokens.len();
    let mut i: usize = 0;
    while i < n
        invariant
            n == tokens@.len(),
            i <= n,
            loop_maps_spec(tokens@) == loops_from(
                tokens@,
                i as int,
                loop_start_stack@,
                start_to_end@,
                end_to_start@,
            ),
        decreases n - i,
    {
        let ghost pre_stack = loop_start_stack@;
        let ghost pre_s2e = start_to_end@;
        let ghost pre_e2s = end_to_start@;
        let symbol = tokens[i];
        if symbol == 91 {
            loop_start_stack.push(i);
            proof {
                lemma_loops_step_open(tokens@, i as int, pre_stack, pre_s2e, pre_e2s);
            }
        } else if symbol == 93 {
            match loop_start_stack.pop() {
                Some(start_i) => {
                    start_to_end.insert(start_i, i);
                    end_to_start.insert(i, start_i);
                    proof {
                        lemma_loops_step_close(tokens@, i as int, pre_stack, pre_s2e, pre_e2s);
                        assert(start_to_end@ == pre_s2e.insert(pre_stack.last(), i));
                        assert(end_to_start@ == pre_e2s.insert(i, pre_stack.last()));
                    }
                },
                None => {
                    proof {
                        lemma_loops_step_close_err(tokens@, i as int, pre_stack, pre_s2e, pre_e2s);
                    }
                    return Err(ParseError::UnmatchedLoopClose);
                },
            }
        } else {
            proof {
                lemma_loops_step_other(tokens@, i as int, pre_stack, pre_s2e, pre_e2s);
            }
        }
        i += 1;
    }
    proof {
        lemma_loops_end(tokens@, loop_start_stack@, start_to_end@, end_to_start@);
    }
    if loop_start_stack.len() > 0 {
        return Err(ParseError::UnmatchedLoopOpen);
    }
    Ok((start_to_end, end_to_start))
}

/// Whether a source byte compiles to an instruction.
pub open spec fn is_bf_symbol(b: u8) -> bool {
    b == 43 || b == 45 || b == 60 || b == 62 || b == 91 || b == 93 || b == 46 || b == 44
}

/// The instruction of one symbol byte at source position `i`, with
/// the bracket tables supplying jump targets.
pub open spec fn bf_instr_of(b: u8, s2e: Map<usize, usize>, e2s: Map<usize, usize>, i: int) -> Instruction {
    if b == 43 {
        Instruction::AddToCell { n: 1i8 }
    } else if b == 45 {
        Instruction::AddToCell { n: -1i8 }
    } else if b == 60 {
        Instruction::AddToCellPtr { offset: -1isize }
    } else if b == 62 {
        Instruction::AddToCellPtr { offset: 1isize }
    } else if b == 91 {
        Instruction::JumpToIf {
            position: s2e[i as usize],
            operator: EqualityOperator::Equal,
            match_value: 0,
        }
    } else if b == 93 {
        Instruction::JumpToIf {
            position: e2s[i as usize],
            operator: EqualityOperator::NotEqual,
            match_value: 0,
        }
    } else if b == 46 {
        Instruction::PrintOut
    } else {
        Instruction::ReadIn
    }
}

/// The instructions of the source bytes from position `i` on,
/// non-symbol bytes dropped.
pub open spec fn bf_instrs_from(
    bytes: Seq<u8>,
    i: int,
    s2e: Map<usize, usize>,
    e2s: Map<usize, usize>,
) -> Seq<Instruction>
    decreases bytes.len() - i,
{
    if i < 0 || i >= bytes.len() {
        Seq::empty()
    } else {
        (if is_bf_symbol(bytes[i]) {
            seq![bf_instr_of(bytes[i], s2e, e2s, i)]
        } else {
            Seq::empty()
        }) + bf_instrs_from(bytes, i + 1, s2e, e2s)
    }
}

/// The instruction list of plain Brainfuck source bytes: resolve the
/// brackets, then lower each symbol byte in order.  Jump targets are
/// byte positions of the source.
pub open spec fn parse_spec(bytes: Seq<u8>) -> Result<Seq<Instruction>, ParseError> {
    if loop_maps_spec(bytes) is Err {
        Err(loop_maps_spec(bytes)->Err_0)
    } else {
        let maps = loop_maps_spec(bytes)->Ok_0;
        Ok(bf_instrs_from(bytes, 0, maps.0, maps.1))
    }
}

proof fn lemma_bf_step(
    bytes: Seq<u8>,
    i: int,
    s2e: Map<usize, usize>,
    e2s: Map<usize, usize>,
    pre: Seq<Instruction>,
)
    requires
        0 <= i < bytes.len(),
    ensures
        is_bf_symbol(bytes[i]) ==> pre + bf_instrs_from(bytes, i, s2e, e2s) == pre.push(
            bf_instr_of(bytes[i], s2e, e2s, i),
        ) + bf_instrs_from(bytes, i + 1, s2e, e2s),
        !is_bf_symbol(bytes[i]) ==> pre + bf_instrs_from(bytes, i, s2e, e2s) == pre
            + bf_instrs_from(bytes, i + 1, s2e, e2s),
{
    let rest = bf_instrs_from(bytes, i + 1, s2e, e2s);
    if is_bf_symbol(bytes[i]) {
        let ins = bf_instr_of(bytes[i], s2e, e2s, i);
        assert(bf_instrs_from(bytes, i, s2e, e2s) == seq![ins] + rest);
        assert(pre + (seq![ins] + rest) =~= pre.push(ins) + rest);
    } else {
        assert(bf_instrs_from(bytes, i, s2e, e2s) == Seq::<Instruction>::empty() + rest);
        assert(pre + (Seq::<Instruction>::empty() + rest) =~= pre + rest);
    }
}

proof fn lemma_bf_end(
    bytes: Seq<u8>,
    s2e: Map<usize, usize>,
    e2s: Map<usize, usize>,
    pre: Seq<Instruction>,
)
    ensures
        pre + bf_instrs_from(bytes, bytes.len() as int, s2e, e2s) == pre,
{
    assert(pre + bf_instrs_from(bytes, bytes.len() as int, s2e, e2s) =~= pre);
}

/// Every jump target of a parsed program is a valid source index,
/// hence below the largest pointer value.
pub open spec fn bf_targets_bounded(instrs: Seq<Instruction>, bound: int) -> bool {
    forall|k: int|
        0 <= k < instrs.len() ==> match #[trigger] instrs[k] {
            Instruction::JumpToIf { position, .. } => (position as int) < bound,
            _ => true,
        }
}

/// Parsed instruction lists only ever jump to source positions.
pub proof fn lemma_parse_targets_bounded(bytes: Seq<u8>)
    requires
        parse_spec(bytes) is Ok,
    ensures
        bf_targets_bounded(parse_spec(bytes)->Ok_0, bytes.len() as int),
{
    let maps = loop_maps_spec(bytes)->Ok_0;
    lemma_loops_from_props(bytes, 0, Seq::empty(), Map::empty(), Map::empty());
    lemma_bf_targets(bytes, 0, maps.0, maps.1);
}

proof fn lemma_bf_targets(bytes: Seq<u8>, i: int, s2e: Map<usize, usize>, e2s: Map<usize, usize>)
    requires
        0 <= i <= bytes.len(),
        forall|k: usize| #[trigger] s2e.contains_key(k) ==> (s2e[k] as int) < bytes.len(),
        forall|k: usize| #[trigger] e2s.contains_key(k) ==> (e2s[k] as int) < bytes.len(),
        forall|j: int|
            i <= j < bytes.len() && (#[trigger] bytes[j]) == 91 ==> s2e.contains_key(j as usize),
        forall|j: int|
            i <= j < bytes.len() && (#[trigger] bytes[j]) == 93 ==> e2s.contains_key(j as usize),
    ensures
        bf_targets_bounded(bf_instrs_from(bytes, i, s2e, e2s), bytes.len() as int),
    decreases bytes.len() - i,
{
    if i >= bytes.len() {
    } else {
        lemma_bf_targets(bytes, i + 1, s2e, e2s);
        let s = bf_instrs_from(bytes, i, s2e, e2s);
        let rest = bf_instrs_from(bytes, i + 1, s2e, e2s);
        assert forall|k: int| 0 <= k < s.len() implies match #[trigger] s[k] {
            Instruction::JumpToIf { position, .. } => (position as int) < bytes.len(),
            _ => true,
        } by {
            if is_bf_symbol(bytes[i]) {
                if k == 0 {
                    assert(s[0] == bf_instr_of(bytes[i], s2e, e2s, i));
                } else {
                    assert(s[k] == rest[k - 1]);
                }
            } else {
                assert(s[k] == rest[k]);
            }
        }
    }
}

/// Parses plain Brainfuck source to its instruction list, failing on
/// any unmatched bracket.
pub fn parse(code: &str) -> (r: Result<Vec<Instruction>, ParseError>)
    ensures
        match r {
            Ok(v) => parse_spec(code.spec_bytes()) == Ok::<Seq<Instruction>, ParseError>(v@),
            Err(e) => parse_spec(code.spec_bytes()) == Err::<Seq<Instruction>, ParseError>(e),
        },
{
    broadcast use vstd::std_specs::hash::group_hash_axioms;

    let tokens: Vec<u8> = code.as_bytes_vec();
    let ghost bytes = code.spec_bytes();

    let maps = match find_loop_indices(&tokens) {
        Ok(maps) => maps,
        Err(e) => {
            return Err(e);
        },
    };
    let (start_to_end, end_to_start) = maps;
    let ghost a = start_to_end@;
    let ghost b = end_to_start@;
    proof {
        lemma_loops_from_props(bytes, 0, Seq::empty(), Map::empty(), Map::empty());
    }

    let mut instructions: Vec<Instruction> = Vec::new();
    let n = tokens.len();
    let mut i: usize = 0;
    while i < n
        invariant
            n == tokens@.len(),
            tokens@ == bytes,
            i <= n,
            a == start_to_end@,
            b == end_to_start@,
            loop_maps_spec(bytes) == Ok::<(Map<usize, usize>, Map<usize, usize>), ParseError>(
                (a, b),
            ),
            forall|j: int|
                0 <= j < bytes.len() && (#[trigger] bytes[j]) == 91 ==> a.contains_key(j as usize),
            forall|j: int|
                0 <= j < bytes.len() && (#[trigger] bytes[j]) == 93 ==> b.contains_key(j as usize),
            instructions@ + bf_instrs_from(bytes, i as int, a, b) == bf_instrs_from(
                bytes,
                0,
                a,
                b,
            ),
        decreases n - i,
    {
        broadcast use vstd::std_specs::hash::group_hash_axioms;

        let ghost pre = instructions@;
        let symbol = tokens[i];
        if symbol == 43 {
            instructions.push(Instruction::AddToCell { n: 1 });
        } else if symbol == 45 {
            instructions.push(Instruction::AddToCell { n: -1 });
        } else if symbol == 60 {
            instructions.push(Instruction::AddToCellPtr { offset: -1 });
        } else if symbol == 62 {
            instructions.push(Instruction::AddToCellPtr { offset: 1 });
        } else if symbol == 91 {
            match start_to_end.get(&i) {
                Some(end_i) => {
                    instructions.push(
                        Instruction::JumpToIf {
                            position: *end_i,
                            operator: EqualityOperator::Equal,
                            match_value: 0,
                        },
                    );
                },
                None => {
                    proof {
                        assert(a.contains_key(i));
                        assert(false);
                    }
                    unreached()
                },
            }
        } else if symbol == 93 {
            match end_to_start.get(&i) {
                Some(start_i) => {
                    instructions.push(
                        Instruction::JumpToIf {
                            position: *start_i,
                            operator: EqualityOperator::NotEqual,
                            match_value: 0,
                        },
                    );
                },
                None => {
                    proof {
                        assert(b.contains_key(i));
                        assert(false);
                    }
                    unreached()
                },
            }
        } else if symbol == 46 {
            instructions.push(Instruction::PrintOut);
        } else if symbol == 44 {
            instructions.push(Instruction::ReadIn);
        }
        proof {
            lemma_bf_step(bytes, i as int, a, b, pre);
        }
        i += 1;
    }
    proof {
        lemma_bf_end(bytes, a, b, instructions@);
    }
    Ok(instructions)
}

} // verus!
