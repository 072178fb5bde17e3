//! Compiler front end: lexes source text into lexemes, classifies them
//! into tokens, groups tokens into commands, resolves matching loop
//! brackets, and lowers everything to a flat instruction list with
//! absolute jump targets.

use std::collections::HashMap;
use vstd::prelude::*;

verus! {

// ---------------------------------------------------------------------------
// Symbol classes
// ---------------------------------------------------------------------------

/// Characters that form an instruction by themselves.
pub open spec fn is_command_symbol(c: char) -> bool {
    c == '+' || c == '-' || c == '*' || c == '/' || c == '<' || c == '>' || c == '['
        || c == ']' || c == '^' || c == '.' || c == ',' || c == '!' || c == '@'
}

/// Characters whose instructions never take an operand.
pub open spec fn is_valueless_symbol(c: char) -> bool {
    c == '[' || c == ']' || c == ',' || c == '.' || c == '!'
}

/// Decimal digits, the only characters of an integer literal.
pub open spec fn is_digit_symbol(c: char) -> bool {
    '0' <= c && c <= '9'
}

/// The marker that refers to the value of the current cell.
pub open spec fn is_current_cell_symbol(c: char) -> bool {
    c == 'V'
}

fn is_command_char(c: char) -> (r: bool)
    ensures
        r == is_command_symbol(c),
{
    c == '+' || c == '-' || c == '*' || c == '/' || c == '<' || c == '>' || c == '[' || c == ']'
        || c == '^' || c == '.' || c == ',' || c == '!' || c == '@'
}

fn is_valueless_char(c: char) -> (r: bool)
    ensures
        r == is_valueless_symbol(c),
{
    c == '[' || c == ']' || c == ',' || c == '.' || c == '!'
}

fn is_digit_char(c: char) -> (r: bool)
    ensures
        r == is_digit_symbol(c),
{
    '0' <= c && c <= '9'
}

fn is_current_cell_char(c: char) -> (r: bool)
    ensures
        r == is_current_cell_symbol(c),
{
    c == 'V'
}

// ---------------------------------------------------------------------------
// Errors
// ---------------------------------------------------------------------------

/// Everything that can make compilation fail.  Compilation is total:
/// it either produces the instruction list or one of these, and never
/// executes anything.
#[derive(Copy, Clone, Debug, PartialEq, Eq)]
pub enum CompileError {
    /// A lexeme that belongs to no category.
    UnknownLexeme,
    /// A digit run that does not fit in a byte (or is not all digits).
    InvalidIntegerLiteral,
    /// An operand token with no instruction symbol before it.
    OperandWithoutCommand,
    /// An operand attached to a symbol that never takes one.
    OperandOnValuelessCommand,
    /// A loop open with no matching close.
    UnmatchedLoopOpen,
    /// A loop close with no matching open.
    UnmatchedLoopClose,
}

// ---------------------------------------------------------------------------
// Lexing
// ---------------------------------------------------------------------------

/// The views of a list of lexemes.
pub open spec fn lexeme_views(lexemes: Seq<String>) -> Seq<Seq<char>> {
    lexemes.map_values(|s: String| s@)
}

/// A pending digit run, emitted as one lexeme once it ends.
pub open spec fn flush_partial(partial: Seq<char>) -> Seq<Seq<char>> {
    if partial.len() == 0 {
        Seq::empty()
    } else {
        seq![partial]
    }
}

/// The lexemes of `code` from position `i` on, with `partial` the digit
/// run read so far.  Instruction symbols and the current-cell marker are
/// single-character lexemes; consecutive digits merge into one lexeme;
/// every other character is dropped, but ends any digit run.
pub open spec fn scan_from(code: Seq<char>, i: int, partial: Seq<char>) -> Seq<Seq<char>>
    decreases code.len() - i,
{
    if i < 0 || i >= code.len() {
        flush_partial(partial)
    } else {
        let c = code[i];
        if is_command_symbol(c) || is_current_cell_symbol(c) {
            flush_partial(partial) + seq![seq![c]] + scan_from(code, i + 1, Seq::empty())
        } else if is_digit_symbol(c) {
            scan_from(code, i + 1, partial.push(c))
        } else {
            flush_partial(partial) + scan_from(code, i + 1, Seq::empty())
        }
    }
}

/// The lexemes of a whole source text.
pub open spec fn scan_spec(code: Seq<char>) -> Seq<Seq<char>> {
    scan_from(code, 0, Seq::empty())
}

/// Holds when no element of `lexs` is the empty lexeme.
pub open spec fn all_nonempty(lexs: Seq<Seq<char>>) -> bool {
    forall|j: int| 0 <= j < lexs.len() ==> #[trigger] lexs[j].len() > 0
}

/// No lexeme is ever empty: digit runs are only emitted once non-empty.
pub proof fn lemma_scan_from_nonempty(code: Seq<char>, i: int, partial: Seq<char>)
    ensures
        all_nonempty(scan_from(code, i, partial)),
    decreases code.len() - i,
{
    let s = scan_from(code, i, partial);
    if i < 0 || i >= code.len() {
        assert forall|j: int| 0 <= j < s.len() implies #[trigger] s[j].len() > 0 by {
            assert(s == flush_partial(partial));
            assert(s[j] == partial);
        }
    } else {
        let c = code[i];
        let f = flush_partial(partial);
        if is_command_symbol(c) || is_current_cell_symbol(c) {
            lemma_scan_from_nonempty(code, i + 1, Seq::empty());
            let rec = scan_from(code, i + 1, Seq::empty());
            assert forall|j: int| 0 <= j < s.len() implies #[trigger] s[j].len() > 0 by {
                assert(s == f + seq![seq![c]] + rec);
                if j < f.len() {
                    assert(s[j] == partial);
                } else if j == f.len() {
                    assert(s[j] == seq![c]);
                } else {
                    assert(s[j] == rec[j - f.len() - 1]);
                    assert(rec[j - f.len() - 1].len() > 0);
                }
            }
        } else if is_digit_symbol(c) {
            lemma_scan_from_nonempty(code, i + 1, partial.push(c));
            assert(s == scan_from(code, i + 1, partial.push(c)));
        } else {
            lemma_scan_from_nonempty(code, i + 1, Seq::empty());
            let rec = scan_from(code, i + 1, Seq::empty());
            assert forall|j: int| 0 <= j < s.len() implies #[trigger] s[j].len() > 0 by {
                assert(s == f + rec);
                if j < f.len() {
                    assert(s[j] == partial);
                } else {
                    assert(s[j] == rec[j - f.len()]);
                    assert(rec[j - f.len()].len() > 0);
                }
            }
        }
    }
}

/// Accumulates lexemes while the source is scanned: finished lexemes,
/// plus the digit run currently being read.
pub struct Scanner {
    pub lexemes: Vec<String>,
    pub partial_lexeme: String,
}

impl Scanner {
    pub fn new() -> (r: Scanner)
        ensures
            r.lexemes@ == Seq::<String>::empty(),
            r.partial_lexeme@ == Seq::<char>::empty(),
    {
        Scanner { lexemes: Vec::new(), partial_lexeme: String::new() }
    }

    /// Ends the pending digit run, emitting it as a lexeme if non-empty.
    pub fn add_partial_as_lexeme(&mut self)
        ensures
            lexeme_views(final(self).lexemes@) == lexeme_views(old(self).lexemes@) + flush_partial(
                old(self).partial_lexeme@,
            ),
            final(self).partial_lexeme@ == Seq::<char>::empty(),
    {
        if self.partial_lexeme.as_str().unicode_len() > 0 {
            let lexeme = self.partial_lexeme.clone();
            self.lexemes.push(lexeme);
            self.partial_lexeme = String::new();
            proof {
                assert(lexeme_views(final(self).lexemes@) =~= lexeme_views(old(self).lexemes@)
                    + flush_partial(old(self).partial_lexeme@));
            }
        } else {
            proof {
                assert(lexeme_views(final(self).lexemes@) =~= lexeme_views(old(self).lexemes@)
                    + flush_partial(old(self).partial_lexeme@));
            }
        }
    }

    /// Emits a finished lexeme directly, ignoring empty ones.
    pub fn add_lexeme(&mut self, lexeme: String)
        ensures
            lexeme_views(final(self).lexemes@) == lexeme_views(old(self).lexemes@) + flush_partial(
                lexeme@,
            ),
            final(self).partial_lexeme@ == old(self).partial_lexeme@,
    {
        if lexeme.as_str().unicode_len() > 0 {
            self.lexemes.push(lexeme);
        }
        proof {
            assert(lexeme_views(final(self).lexemes@) =~= lexeme_views(old(self).lexemes@)
                + flush_partial(lexeme@));
        }
    }

    /// Extends the pending digit run by one character.
    pub fn add_to_partial_lexeme(&mut self, chr: char)
        ensures
            final(self).lexemes@ == old(self).lexemes@,
            final(self).partial_lexeme@ == old(self).partial_lexeme@.push(chr),
    {
        self.partial_lexeme.push(chr);
    }
}

/// Splits source characters into lexemes: single-character instruction
/// and current-cell lexemes, maximal digit runs, everything else dropped.
pub fn scan_code(code: &Vec<char>) -> (r: Vec<String>)
    ensures
        lexeme_views(r@) == scan_spec(code@),
        forall|j: int| 0 <= j < r@.len() ==> #[trigger] r@[j]@.len() > 0,
{
    broadcast use vstd::seq_lib::group_seq_properties;

    let mut scanner = Scanner::new();
    let n = code.len();
    let mut i: usize = 0;
    proof {
        assert(lexeme_views(scanner.lexemes@) + scan_from(code@, 0, scanner.partial_lexeme@)
            =~= scan_spec(code@));
    }
    while i < n
        invariant
            n == code@.len(),
            i <= n,
            lexeme_views(scanner.lexemes@) + scan_from(code@, i as int, scanner.partial_lexeme@)
                == scan_spec(code@),
        decreases n - i,
    {
        let chr = code[i];
        let ghost pre = scanner;
        if is_command_char(chr) || is_current_cell_char(chr) {
            scanner.add_partial_as_lexeme();
            let mut unit = String::new();
            unit.push(chr);
            scanner.add_lexeme(unit);
            proof {
                assert(unit@ =~= seq![chr]);
                assert(lexeme_views(scanner.lexemes@) + scan_from(
                    code@,
                    i + 1,
                    scanner.partial_lexeme@,
                ) =~= lexeme_views(pre.lexemes@) + scan_from(code@, i as int, pre.partial_lexeme@));
            }
        } else if is_digit_char(chr) {
            scanner.add_to_partial_lexeme(chr);
        } else {
            scanner.add_partial_as_lexeme();
            proof {
                assert(lexeme_views(scanner.lexemes@) + scan_from(
                    code@,
                    i + 1,
                    scanner.partial_lexeme@,
                ) =~= lexeme_views(pre.lexemes@) + scan_from(code@, i as int, pre.partial_lexeme@));
            }
        }
        i += 1;
    }
    scanner.add_partial_as_lexeme();
    proof {
        assert(lexeme_views(scanner.lexemes@) =~= scan_spec(code@));
        lemma_scan_from_nonempty(code@, 0, Seq::empty());
        assert forall|j: int| 0 <= j < scanner.lexemes@.len() implies #[trigger] scanner.lexemes@[j]@.len()
            > 0 by {
            assert(scanner.lexemes@[j]@ == lexeme_views(scanner.lexemes@)[j]);
            assert(lexeme_views(scanner.lexemes@)[j].len() > 0);
        }
    }
    scanner.lexemes
}

// ---------------------------------------------------------------------------
// Tokens
// ---------------------------------------------------------------------------

/// One lexical unit, classified.
#[derive(Copy, Clone, Debug, Eq, PartialEq)]
pub enum Token {
    Command { value: char },
    IntegerLiteral { value: u8 },
    CurrentCellReference,
}

/// An operand: a literal byte, or the value of the current cell at the
/// moment the instruction executes.
#[derive(Copy, Clone, Debug, Eq, PartialEq)]
pub enum Value {
    CurrentCell,
    Number(u8),
}

/// The value an operand stands for, given the cell under the pointer.
pub open spec fn value_of(v: Value, current_cell_value: u8) -> u8 {
    match v {
        Value::Number(n) => n,
        Value::CurrentCell => current_cell_value,
    }
}

impl Value {
    /// Resolves the operand against the current cell value.
    pub fn determine_value(self, current_cell_value: u8) -> (r: u8)
        ensures
            r == value_of(self, current_cell_value),
    {
        match self {
            Value::Number(n) => n,
            Value::CurrentCell => current_cell_value,
        }
    }
}

/// The numeric value of one digit character.
pub open spec fn digit_val(c: char) -> nat {
    (c as int - '0' as int) as nat
}

/// Holds when every character of `s` is a decimal digit.
pub open spec fn all_digits(s: Seq<char>) -> bool {
    forall|i: int| 0 <= i < s.len() ==> is_digit_symbol(#[trigger] s[i])
}

/// The value of a run of decimal digits, most significant first.
pub open spec fn digits_value(s: Seq<char>) -> nat
    decreases s.len(),
{
    if s.len() == 0 {
        0
    } else {
        digits_value(s.drop_last()) * 10 + digit_val(s.last())
    }
}

/// A longer digit run is worth at least as much as any of its prefixes.
proof fn lemma_digits_value_prefix_mono(s: Seq<char>, i: int)
    requires
        0 <= i <= s.len(),
    ensures
        digits_value(s.take(i)) <= digits_value(s),
    decreases s.len() - i,
{
    if i < s.len() {
        lemma_digits_value_prefix_mono(s, i + 1);
        assert(s.take(i + 1).drop_last() =~= s.take(i));
        assert(digits_value(s.take(i + 1)) == digits_value(s.take(i)) * 10 + digit_val(
            s.take(i + 1).last(),
        ));
    } else {
        assert(s.take(i) =~= s);
    }
}

/// The token a lexeme stands for, or the error that classifying it
/// raises: a single instruction character, a digit run that fits in a
/// byte, or a lexeme starting with the current-cell marker.
pub open spec fn token_of_lexeme(lex: Seq<char>) -> Result<Token, CompileError> {
    if lex.len() == 0 {
        Err(CompileError::UnknownLexeme)
    } else if lex.len() == 1 && is_command_symbol(lex[0]) {
        Ok(Token::Command { value: lex[0] })
    } else if is_digit_symbol(lex[0]) {
        if all_digits(lex) && digits_value(lex) <= 255 {
            Ok(Token::IntegerLiteral { value: digits_value(lex) as u8 })
        } else {
            Err(CompileError::InvalidIntegerLiteral)
        }
    } else if is_current_cell_symbol(lex[0]) {
        Ok(Token::CurrentCellReference)
    } else {
        Err(CompileError::UnknownLexeme)
    }
}

/// A lexeme is a command lexeme when it is a single instruction
/// character.
pub fn is_command_lexeme(lexeme: &String) -> (r: bool)
    requires
        lexeme@.len() > 0,
    ensures
        r == (lexeme@.len() == 1 && is_command_symbol(lexeme@[0])),
{
    let len = lexeme.as_str().unicode_len();
    len == 1 && is_command_char(lexeme.as_str().get_char(0))
}

/// A lexeme is numeric when its first character is a digit.
pub fn is_numeric_literal_lexeme(lexeme: &String) -> (r: bool)
    requires
        lexeme@.len() > 0,
    ensures
        r == is_digit_symbol(lexeme@[0]),
{
    is_digit_char(lexeme.as_str().get_char(0))
}

/// A lexeme is a current-cell reference when it starts with the marker.
pub fn is_current_cell_lexeme(lexeme: &String) -> (r: bool)
    requires
        lexeme@.len() > 0,
    ensures
        r == is_current_cell_symbol(lexeme@[0]),
{
    is_current_cell_char(lexeme.as_str().get_char(0))
}

impl Token {
    /// Classifies one lexeme, failing on digit runs that do not fit in
    /// a byte and on lexemes of no category.
    pub fn from_lexeme(lexeme: String) -> (r: Result<Token, CompileError>)
        requires
            lexeme@.len() > 0,
        ensures
            r == token_of_lexeme(lexeme@),
    {
        if is_command_lexeme(&lexeme) {
            let first_char = lexeme.as_str().get_char(0);
            Ok(Token::Command { value: first_char })
        } else if is_numeric_literal_lexeme(&lexeme) {
            let s = lexeme.as_str();
            let len = s.unicode_len();
            let mut acc: u32 = 0;
            let mut i: usize = 0;
            while i < len
                invariant
                    len == lexeme@.len(),
                    0 < len,
                    i <= len,
                    s@ == lexeme@,
                    is_digit_symbol(lexeme@[0]),
                    !(lexeme@.len() == 1 && is_command_symbol(lexeme@[0])),
                    all_digits(lexeme@.take(i as int)),
                    acc <= 255,
                    acc == digits_value(lexeme@.take(i as int)),
                decreases len - i,
            {
                let c = s.get_char(i);
                if !is_digit_char(c) {
                    proof {
                        assert(!is_digit_symbol(lexeme@[i as int]));
                        assert(!all_digits(lexeme@));
                        assert(token_of_lexeme(lexeme@) == Err::<Token, CompileError>(
                            CompileError::InvalidIntegerLiteral,
                        ));
                    }
                    return Err(CompileError::InvalidIntegerLiteral);
                }
                let d: u32 = (c as u32) - 48;
                let v: u32 = acc * 10 + d;
                proof {
                    assert(lexeme@.take(i + 1).drop_last() =~= lexeme@.take(i as int));
                    assert(lexeme@.take(i + 1).last() == lexeme@[i as int]);
                    assert(digits_value(lexeme@.take(i + 1)) == digits_value(
                        lexeme@.take(i as int),
                    ) * 10 + digit_val(lexeme@[i as int]));
                    assert(d == digit_val(lexeme@[i as int]));
                }
                if v > 255 {
                    proof {
                        lemma_digits_value_prefix_mono(lexeme@, i + 1);
                        if all_digits(lexeme@) {
                            assert(digits_value(lexeme@) > 255);
                        }
                        assert(token_of_lexeme(lexeme@) == Err::<Token, CompileError>(
                            CompileError::InvalidIntegerLiteral,
                        ));
                    }
                    return Err(CompileError::InvalidIntegerLiteral);
                }
                acc = v;
                i += 1;
            }
            proof {
                assert(lexeme@.take(len as int) =~= lexeme@);
            }
            Ok(Token::IntegerLiteral { value: acc as u8 })
        } else if is_current_cell_lexeme(&lexeme) {
            Ok(Token::CurrentCellReference)
        } else {
            Err(CompileError::UnknownLexeme)
        }
    }
}

/// The classification of a whole lexeme list, left to right; the first
/// failing lexeme decides the error.
pub open spec fn tokens_from(lexs: Seq<Seq<char>>, i: int) -> Result<Seq<Token>, CompileError>
    decreases lexs.len() - i,
{
    if i < 0 || i >= lexs.len() {
        Ok(Seq::empty())
    } else {
        match token_of_lexeme(lexs[i]) {
            Ok(t) => match tokens_from(lexs, i + 1) {
                Ok(rest) => Ok(seq![t] + rest),
                Err(e) => Err(e),
            },
            Err(e) => Err(e),
        }
    }
}

/// The tokens of a lexeme list.
pub open spec fn tokens_spec(lexs: Seq<Seq<char>>) -> Result<Seq<Token>, CompileError> {
    tokens_from(lexs, 0)
}

/// A compilation stage's result, seen abstractly: the view of the
/// produced list, or the error.
pub open spec fn vec_result_view<T>(r: Result<Vec<T>, CompileError>) -> Result<
    Seq<T>,
    CompileError,
> {
    match r {
        Ok(v) => Ok(v@),
        Err(e) => Err(e),
    }
}

/// Classifies every lexeme, failing on the first bad one.
pub fn evaluate_lexemes(lexemes: Vec<String>) -> (r: Result<Vec<Token>, CompileError>)
    requires
        all_nonempty(lexeme_views(lexemes@)),
    ensures
        vec_result_view(r) == tokens_spec(lexeme_views(lexemes@)),
{
    let ghost views = lexeme_views(lexemes@);
    let mut tokens: Vec<Token> = Vec::new();
    let n = lexemes.len();
    let mut i: usize = 0;
    while i < n
        invariant
            n == lexemes@.len(),
            i <= n,
            views == lexeme_views(lexemes@),
            all_nonempty(views),
            tokens_spec(views) == match tokens_from(views, i as int) {
                Ok(rest) => Ok::<Seq<Token>, CompileError>(tokens@ + rest),
                Err(e) => Err::<Seq<Token>, CompileError>(e),
            },
        decreases n - i,
    {
        proof {
            assert(views[i as int] == lexemes@[i as int]@);
            assert(views[i as int].len() > 0);
        }
        let lexeme = lexemes[i].clone();
        match Token::from_lexeme(lexeme) {
            Ok(token) => {
                let ghost pre = tokens@;
                tokens.push(token);
                proof {
                    if tokens_from(views, i + 1) is Ok {
                        assert(pre + tokens_from(views, i as int)->Ok_0 =~= tokens@ + tokens_from(
                            views,
                            i + 1,
                        )->Ok_0);
                    }
                }
            },
            Err(e) => {
                return Err(e);
            },
        }
        i += 1;
    }
    proof {
        assert(tokens@ + tokens_from(views, n as int)->Ok_0 =~= tokens@);
    }
    Ok(tokens)
}

// ---------------------------------------------------------------------------
// Commands
// ---------------------------------------------------------------------------

/// An instruction symbol with its optional operand.
#[derive(Copy, Clone, Debug, Eq, PartialEq)]
pub struct Command {
    pub symbol: char,
    pub value: Option<Value>,
}

/// The operand a command applies: the written one, or the literal 1
/// when none was written.
pub open spec fn defaulted_value(c: Command) -> Value {
    match c.value {
        Some(v) => v,
        None => Value::Number(1),
    }
}

impl Command {
    /// Whether an operand was written for this command.
    pub fn has_value(&self) -> (r: bool)
        ensures
            r == (self.value is Some),
    {
        self.value.is_some()
    }

    /// The operand, defaulted to the literal 1 when omitted.
    pub fn get_defaulted_value(&self) -> (r: Value)
        ensures
            r == defaulted_value(*self),
    {
        match self.value {
            Some(v) => v,
            None => Value::Number(1),
        }
    }
}

/// The command a still-pending symbol stands for once the stream ends
/// or another symbol begins.
pub open spec fn pending_seq(pending: Option<char>) -> Seq<Command> {
    match pending {
        Some(s) => seq![Command { symbol: s, value: None }],
        None => Seq::empty(),
    }
}

/// Groups tokens into commands from position `i` on: a command token
/// finalizes any pending symbol and becomes pending itself; an operand
/// token must follow a pending symbol and attaches to it; a pending
/// symbol at the end is finalized without an operand.
pub open spec fn assemble_from(tokens: Seq<Token>, i: int, pending: Option<char>) -> Result<
    Seq<Command>,
    CompileError,
>
    decreases tokens.len() - i,
{
    if i < 0 || i >= tokens.len() {
        Ok(pending_seq(pending))
    } else {
        match tokens[i] {
            Token::Command { value } => match assemble_from(tokens, i + 1, Some(value)) {
                Ok(rest) => Ok(pending_seq(pending) + rest),
                Err(e) => Err(e),
            },
            Token::IntegerLiteral { value } => match pending {
                Some(s) => match assemble_from(tokens, i + 1, None) {
                    Ok(rest) => Ok(
                        seq![Command { symbol: s, value: Some(Value::Number(value)) }] + rest,
                    ),
                    Err(e) => Err(e),
                },
                None => Err(CompileError::OperandWithoutCommand),
            },
            Token::CurrentCellReference => match pending {
                Some(s) => match assemble_from(tokens, i + 1, None) {
                    Ok(rest) => Ok(
                        seq![Command { symbol: s, value: Some(Value::CurrentCell) }] + rest,
                    ),
                    Err(e) => Err(e),
                },
                None => Err(CompileError::OperandWithoutCommand),
            },
        }
    }
}

/// The commands of a token list.
pub open spec fn commands_spec(tokens: Seq<Token>) -> Result<Seq<Command>, CompileError> {
    assemble_from(tokens, 0, None)
}

/// One assembly step over a command token that finds a pending
/// symbol: the pending symbol is emitted and the new one takes over.
proof fn lemma_assemble_command_step_some(
    tokens: Seq<Token>,
    i: int,
    s: char,
    value: char,
    pre: Seq<Command>,
    cur: Seq<Command>,
)
    requires
        0 <= i < tokens.len(),
        tokens[i] == (Token::Command { value }),
        cur == pre.push(Command { symbol: s, value: None }),
    ensures
        (match assemble_from(tokens, i, Some(s)) {
            Ok(rest) => Ok::<Seq<Command>, CompileError>(pre + rest),
            Err(e) => Err::<Seq<Command>, CompileError>(e),
        }) == (match assemble_from(tokens, i + 1, Some(value)) {
            Ok(rest) => Ok::<Seq<Command>, CompileError>(cur + rest),
            Err(e) => Err::<Seq<Command>, CompileError>(e),
        }),
{
    assert(pending_seq(Some(s)) =~= seq![Command { symbol: s, value: None }]);
    assert(cur =~= pre + pending_seq(Some(s)));
    match assemble_from(tokens, i + 1, Some(value)) {
        Ok(rest) => {
            assert(assemble_from(tokens, i, Some(s)) == Ok::<Seq<Command>, CompileError>(
                pending_seq(Some(s)) + rest,
            ));
            assert(pre + (pending_seq(Some(s)) + rest) =~= (pre + pending_seq(Some(s))) + rest);
        },
        Err(e) => {},
    }
}

/// One assembly step over a command token with nothing pending: the
/// symbol just becomes pending.
proof fn lemma_assemble_command_step_none(
    tokens: Seq<Token>,
    i: int,
    value: char,
    pre: Seq<Command>,
)
    requires
        0 <= i < tokens.len(),
        tokens[i] == (Token::Command { value }),
    ensures
        (match assemble_from(tokens, i, None) {
            Ok(rest) => Ok::<Seq<Command>, CompileError>(pre + rest),
            Err(e) => Err::<Seq<Command>, CompileError>(e),
        }) == (match assemble_from(tokens, i + 1, Some(value)) {
            Ok(rest) => Ok::<Seq<Command>, CompileError>(pre + rest),
            Err(e) => Err::<Seq<Command>, CompileError>(e),
        }),
{
    assert(pending_seq(None) =~= Seq::<Command>::empty());
    match assemble_from(tokens, i + 1, Some(value)) {
        Ok(rest) => {
            assert(assemble_from(tokens, i, None) == Ok::<Seq<Command>, CompileError>(
                pending_seq(None) + rest,
            ));
            assert(pending_seq(None) + rest =~= rest);
        },
        Err(e) => {},
    }
}

/// One assembly step over an operand token following a pending symbol:
/// the symbol is emitted with that operand attached.
proof fn lemma_assemble_operand_step(
    tokens: Seq<Token>,
    i: int,
    s: char,
    v: Value,
    pre: Seq<Command>,
    cur: Seq<Command>,
)
    requires
        0 <= i < tokens.len(),
        match v {
            Value::Number(n) => tokens[i] == (Token::IntegerLiteral { value: n }),
            Value::CurrentCell => tokens[i] == Token::CurrentCellReference,
        },
        cur == pre.push(Command { symbol: s, value: Some(v) }),
    ensures
        (match assemble_from(tokens, i, Some(s)) {
            Ok(rest) => Ok::<Seq<Command>, CompileError>(pre + rest),
            Err(e) => Err::<Seq<Command>, CompileError>(e),
        }) == (match assemble_from(tokens, i + 1, None) {
            Ok(rest) => Ok::<Seq<Command>, CompileError>(cur + rest),
            Err(e) => Err::<Seq<Command>, CompileError>(e),
        }),
{
    let emitted = Command { symbol: s, value: Some(v) };
    assert(cur =~= pre + seq![emitted]);
    match assemble_from(tokens, i + 1, None) {
        Ok(rest) => {
            match v {
                Value::Number(n) => {
                    assert(assemble_from(tokens, i, Some(s)) == Ok::<Seq<Command>, CompileError>(
                        seq![emitted] + rest,
                    ));
                },
                Value::CurrentCell => {
                    assert(assemble_from(tokens, i, Some(s)) == Ok::<Seq<Command>, CompileError>(
                        seq![emitted] + rest,
                    ));
                },
            }
            assert(pre + (seq![emitted] + rest) =~= (pre + seq![emitted]) + rest);
        },
        Err(e) => {},
    }
}

/// An operand token with nothing pending is the assembly error.
proof fn lemma_assemble_operand_err(tokens: Seq<Token>, i: int)
    requires
        0 <= i < tokens.len(),
        tokens[i] is IntegerLiteral || tokens[i] is CurrentCellReference,
    ensures
        assemble_from(tokens, i, None) == Err::<Seq<Command>, CompileError>(
            CompileError::OperandWithoutCommand,
        ),
{
}

/// At the end of the stream, a pending symbol is all that remains.
proof fn lemma_assemble_finish_some(
    tokens: Seq<Token>,
    s: char,
    pre: Seq<Command>,
    cur: Seq<Command>,
)
    requires
        cur == pre.push(Command { symbol: s, value: None }),
    ensures
        (match assemble_from(tokens, tokens.len() as int, Some(s)) {
            Ok(rest) => Ok::<Seq<Command>, CompileError>(pre + rest),
            Err(e) => Err::<Seq<Command>, CompileError>(e),
        }) == Ok::<Seq<Command>, CompileError>(cur),
{
    assert(pending_seq(Some(s)) =~= seq![Command { symbol: s, value: None }]);
    assert(cur =~= pre + pending_seq(Some(s)));
}

/// At the end of the stream with nothing pending, assembly is done.
proof fn lemma_assemble_finish_none(tokens: Seq<Token>, pre: Seq<Command>)
    ensures
        (match assemble_from(tokens, tokens.len() as int, None) {
            Ok(rest) => Ok::<Seq<Command>, CompileError>(pre + rest),
            Err(e) => Err::<Seq<Command>, CompileError>(e),
        }) == Ok::<Seq<Command>, CompileError>(pre),
{
    assert(pending_seq(None) =~= Seq::<Command>::empty());
    assert(pre + pending_seq(None) =~= pre);
}

/// Groups the token stream into commands, attaching each operand to
/// the instruction symbol just before it.
pub fn parse_tokens(tokens: Vec<Token>) -> (r: Result<Vec<Command>, CompileError>)
    ensures
        vec_result_view(r) == commands_spec(tokens@),
{
    let mut commands: Vec<Command> = Vec::new();
    let mut command_symbol: Option<char> = None;
    let n = tokens.len();
    let mut i: usize = 0;
    while i < n
        invariant
            n == tokens@.len(),
            i <= n,
            commands_spec(tokens@) == match assemble_from(tokens@, i as int, command_symbol) {
                Ok(rest) => Ok::<Seq<Command>, CompileError>(commands@ + rest),
                Err(e) => Err::<Seq<Command>, CompileError>(e),
            },
        decreases n - i,
    {
        let ghost pre = commands@;
        let ghost pre_pending = command_symbol;
        match tokens[i] {
            Token::Command { value } => {
                if let Some(existing_symbol) = command_symbol {
                    commands.push(Command { symbol: existing_symbol, value: None });
                }
                command_symbol = Some(value);
                proof {
                    if let Some(s) = pre_pending {
                        lemma_assemble_command_step_some(
                            tokens@,
                            i as int,
                            s,
                            value,
                            pre,
                            commands@,
                        );
                        assert(assemble_from(tokens@, i as int, pre_pending) == assemble_from(
                            tokens@,
                            i as int,
                            Some(s),
                        ));
                    } else {
                        lemma_assemble_command_step_none(tokens@, i as int, value, pre);
                    }
                }
            },
            Token::IntegerLiteral { value } => {
                match command_symbol {
                    Some(symbol) => {
                        commands.push(
                            Command { symbol: symbol, value: Some(Value::Number(value)) },
                        );
                        command_symbol = None;
                        proof {
                            lemma_assemble_operand_step(
                                tokens@,
                                i as int,
                                symbol,
                                Value::Number(value),
                                pre,
                                commands@,
                            );
                            assert(assemble_from(tokens@, i as int, pre_pending)
                                == assemble_from(tokens@, i as int, Some(symbol)));
                        }
                    },
                    None => {
                        proof {
                            lemma_assemble_operand_err(tokens@, i as int);
                        }
                        return Err(CompileError::OperandWithoutCommand);
                    },
                }
            },
            Token::CurrentCellReference => {
                match command_symbol {
                    Some(symbol) => {
                        commands.push(
                            Command { symbol: symbol, value: Some(Value::CurrentCell) },
                        );
                        command_symbol = None;
                        proof {
                            lemma_assemble_operand_step(
                                tokens@,
                                i as int,
                                symbol,
                                Value::CurrentCell,
                                pre,
                                commands@,
                            );
                            assert(assemble_from(tokens@, i as int, pre_pending)
                                == assemble_from(tokens@, i as int, Some(symbol)));
                        }
                    },
                    None => {
                        proof {
                            lemma_assemble_operand_err(tokens@, i as int);
                        }
                        return Err(CompileError::OperandWithoutCommand);
                    },
                }
            },
        }
        i += 1;
    }
    let ghost pre = commands@;
    let ghost pre_pending = command_symbol;
    if let Some(symbol) = command_symbol {
        commands.push(Command { symbol: symbol, value: None });
    }
    proof {
        if let Some(s) = pre_pending {
            lemma_assemble_finish_some(tokens@, s, pre, commands@);
            assert(assemble_from(tokens@, n as int, pre_pending) == assemble_from(
                tokens@,
                n as int,
                Some(s),
            ));
        } else {
            lemma_assemble_finish_none(tokens@, pre);
        }
    }
    Ok(commands)
}

// ---------------------------------------------------------------------------
// Loop resolution
// ---------------------------------------------------------------------------

/// The two jump tables of a command list, built by a single scan with a
/// stack of unmatched loop opens: open position to close position and
/// back.  Fails on a close with an empty stack, or on opens left over.
pub open spec fn loops_from(
    cmds: Seq<Command>,
    i: int,
    stack: Seq<usize>,
    s2e: Map<usize, usize>,
    e2s: Map<usize, usize>,
) -> Result<(Map<usize, usize>, Map<usize, usize>), CompileError>
    decreases cmds.len() - i,
{
    if i < 0 || i >= cmds.len() {
        if stack.len() == 0 {
            Ok((s2e, e2s))
        } else {
            Err(CompileError::UnmatchedLoopOpen)
        }
    } else if cmds[i].symbol == '[' {
        loops_from(cmds, i + 1, stack.push(i as usize), s2e, e2s)
    } else if cmds[i].symbol == ']' {
        if stack.len() == 0 {
            Err(CompileError::UnmatchedLoopClose)
        } else {
            loops_from(
                cmds,
                i + 1,
                stack.drop_last(),
                s2e.insert(stack.last(), i as usize),
                e2s.insert(i as usize, stack.last()),
            )
        }
    } else {
        loops_from(cmds, i + 1, stack, s2e, e2s)
    }
}

/// The loop maps of a whole command list.
pub open spec fn loop_maps_spec(cmds: Seq<Command>) -> Result<
    (Map<usize, usize>, Map<usize, usize>),
    CompileError,
> {
    loops_from(cmds, 0, Seq::empty(), Map::empty(), Map::empty())
}

proof fn lemma_loops_step_open(
    cmds: Seq<Command>,
    i: int,
    stack: Seq<usize>,
    s2e: Map<usize, usize>,
    e2s: Map<usize, usize>,
)
    requires
        0 <= i < cmds.len(),
        cmds[i].symbol == '[',
    ensures
        loops_from(cmds, i, stack, s2e, e2s) == loops_from(
            cmds,
            i + 1,
            stack.push(i as usize),
            s2e,
            e2s,
        ),
{
}

proof fn lemma_loops_step_close(
    cmds: Seq<Command>,
    i: int,
    stack: Seq<usize>,
    s2e: Map<usize, usize>,
    e2s: Map<usize, usize>,
)
    requires
        0 <= i < cmds.len(),
        cmds[i].symbol == ']',
        stack.len() > 0,
    ensures
        loops_from(cmds, i, stack, s2e, e2s) == loops_from(
            cmds,
            i + 1,
            stack.drop_last(),
            s2e.insert(stack.last(), i as usize),
            e2s.insert(i as usize, stack.last()),
        ),
{
}

proof fn lemma_loops_step_close_err(
    cmds: Seq<Command>,
    i: int,
    stack: Seq<usize>,
    s2e: Map<usize, usize>,
    e2s: Map<usize, usize>,
)
    requires
        0 <= i < cmds.len(),
        cmds[i].symbol == ']',
        stack.len() == 0,
    ensures
        loops_from(cmds, i, stack, s2e, e2s) == Err::<
            (Map<usize, usize>, Map<usize, usize>),
            CompileError,
        >(CompileError::UnmatchedLoopClose),
{
}

proof fn lemma_loops_step_other(
    cmds: Seq<Command>,
    i: int,
    stack: Seq<usize>,
    s2e: Map<usize, usize>,
    e2s: Map<usize, usize>,
)
    requires
        0 <= i < cmds.len(),
        cmds[i].symbol != '[',
        cmds[i].symbol != ']',
    ensures
        loops_from(cmds, i, stack, s2e, e2s) == loops_from(cmds, i + 1, stack, s2e, e2s),
{
}

proof fn lemma_loops_end(
    cmds: Seq<Command>,
    stack: Seq<usize>,
    s2e: Map<usize, usize>,
    e2s: Map<usize, usize>,
)
    ensures
        stack.len() == 0 ==> loops_from(cmds, cmds.len() as int, stack, s2e, e2s) == Ok::<
            (Map<usize, usize>, Map<usize, usize>),
            CompileError,
        >((s2e, e2s)),
        stack.len() > 0 ==> loops_from(cmds, cmds.len() as int, stack, s2e, e2s) == Err::<
            (Map<usize, usize>, Map<usize, usize>),
            CompileError,
        >(CompileError::UnmatchedLoopOpen),
{
}

/// What a successful scan guarantees: every bracket position is in its
/// table, existing entries survive, and every stored target is a valid
/// command index.
proof fn lemma_loops_from_props(
    cmds: Seq<Command>,
    i: int,
    stack: Seq<usize>,
    s2e: Map<usize, usize>,
    e2s: Map<usize, usize>,
)
    requires
        0 <= i <= cmds.len(),
        loops_from(cmds, i, stack, s2e, e2s) is Ok,
        forall|k: int| 0 <= k < stack.len() ==> (#[trigger] stack[k]) < i,
        forall|k: usize| #[trigger] s2e.contains_key(k) ==> (s2e[k] as int) < cmds.len(),
        forall|k: usize| #[trigger] e2s.contains_key(k) ==> (e2s[k] as int) < cmds.len(),
    ensures
        ({
            let maps = loops_from(cmds, i, stack, s2e, e2s)->Ok_0;
            &&& forall|k: usize| #[trigger] s2e.contains_key(k) ==> maps.0.contains_key(k)
            &&& forall|k: usize| #[trigger] e2s.contains_key(k) ==> maps.1.contains_key(k)
            &&& forall|k: int|
                0 <= k < stack.len() ==> maps.0.contains_key(#[trigger] stack[k])
            &&& forall|j: int|
                i <= j < cmds.len() && (#[trigger] cmds[j]).symbol == '[' ==> maps.0.contains_key(
                    j as usize,
                )
            &&& forall|j: int|
                i <= j < cmds.len() && (#[trigger] cmds[j]).symbol == ']' ==> maps.1.contains_key(
                    j as usize,
                )
            &&& forall|k: usize| #[trigger] maps.0.contains_key(k) ==> (maps.0[k] as int)
                < cmds.len()
            &&& forall|k: usize| #[trigger] maps.1.contains_key(k) ==> (maps.1[k] as int)
                < cmds.len()
        }),
    decreases cmds.len() - i,
{
    if i >= cmds.len() {
        assert(stack.len() == 0);
    } else if cmds[i].symbol == '[' {
        let stack2 = stack.push(i as usize);
        assert forall|k: int| 0 <= k < stack2.len() implies (#[trigger] stack2[k]) < i + 1 by {
            if k < stack.len() {
                assert(stack2[k] == stack[k]);
            } else {
                assert(stack2[k] == i as usize);
            }
        }
        lemma_loops_from_props(cmds, i + 1, stack2, s2e, e2s);
        let maps = loops_from(cmds, i + 1, stack2, s2e, e2s)->Ok_0;
        assert(loops_from(cmds, i, stack, s2e, e2s)->Ok_0 == maps);
        assert forall|k: int| 0 <= k < stack.len() implies maps.0.contains_key(
            #[trigger] stack[k],
        ) by {
            assert(stack2[k] == stack[k]);
        }
        assert forall|j: int|
            i <= j < cmds.len() && (#[trigger] cmds[j]).symbol == '[' implies maps.0.contains_key(
            j as usize,
        ) by {
            if j == i {
                assert(stack2[stack.len() as int] == i as usize);
                assert(maps.0.contains_key(stack2[stack.len() as int]));
            }
        }
    } else if cmds[i].symbol == ']' {
        assert(stack.len() > 0);
        let s2e2 = s2e.insert(stack.last(), i as usize);
        let e2s2 = e2s.insert(i as usize, stack.last());
        let stack2 = stack.drop_last();
        assert forall|k: usize| #[trigger] s2e2.contains_key(k) implies (s2e2[k] as int)
            < cmds.len() by {
            if k == stack.last() {
            } else {
                assert(s2e.contains_key(k) && s2e2[k] == s2e[k]);
            }
        }
        assert forall|k: usize| #[trigger] e2s2.contains_key(k) implies (e2s2[k] as int)
            < cmds.len() by {
            if k == i as usize {
            } else {
                assert(e2s.contains_key(k) && e2s2[k] == e2s[k]);
            }
        }
        assert forall|k: int| 0 <= k < stack2.len() implies (#[trigger] stack2[k]) < i + 1 by {
            assert(stack2[k] == stack[k]);
        }
        lemma_loops_from_props(cmds, i + 1, stack2, s2e2, e2s2);
        let maps = loops_from(cmds, i + 1, stack2, s2e2, e2s2)->Ok_0;
        assert(loops_from(cmds, i, stack, s2e, e2s)->Ok_0 == maps);
        assert forall|k: usize| #[trigger] s2e.contains_key(k) implies maps.0.contains_key(k) by {
            assert(s2e2.contains_key(k));
        }
        assert forall|k: usize| #[trigger] e2s.contains_key(k) implies maps.1.contains_key(k) by {
            assert(e2s2.contains_key(k));
        }
        assert forall|k: int| 0 <= k < stack.len() implies maps.0.contains_key(
            #[trigger] stack[k],
        ) by {
            if k < stack.len() - 1 {
                assert(stack2[k] == stack[k]);
            } else {
                assert(stack[k] == stack.last());
                assert(s2e2.contains_key(stack.last()));
            }
        }
        assert forall|j: int|
            i <= j < cmds.len() && (#[trigger] cmds[j]).symbol == ']' implies maps.1.contains_key(
            j as usize,
        ) by {
            if j == i {
                assert(e2s2.contains_key(i as usize));
            }
        }
    } else {
        lemma_loops_from_props(cmds, i + 1, stack, s2e, e2s);
    }
}

/// The two tables of a successful scan pair brackets with each
/// other: every open maps to a close, every close to an open, and the
/// two tables are mutually inverse.
proof fn lemma_loops_from_pairing(
    cmds: Seq<Command>,
    i: int,
    stack: Seq<usize>,
    s2e: Map<usize, usize>,
    e2s: Map<usize, usize>,
)
    requires
        cmds.len() <= usize::MAX,
        0 <= i <= cmds.len(),
        loops_from(cmds, i, stack, s2e, e2s) is Ok,
        forall|k: int| 0 <= k < stack.len() ==> (#[trigger] stack[k]) < i,
        forall|k: int|
            0 <= k < stack.len() ==> (#[trigger] cmds[stack[k] as int]).symbol == '[',
        forall|k1: int, k2: int| 0 <= k1 < k2 < stack.len() ==> stack[k1] != stack[k2],
        forall|k: int| 0 <= k < stack.len() ==> !s2e.contains_key(#[trigger] stack[k]),
        forall|k: int| 0 <= k < stack.len() ==> !e2s.contains_key(#[trigger] stack[k]),
        forall|k: usize| #[trigger] s2e.contains_key(k) ==> (s2e[k] as int) < i,
        forall|k: usize| #[trigger] e2s.contains_key(k) ==> (e2s[k] as int) < i,
        forall|k: usize| #[trigger] s2e.contains_key(k) ==> cmds[k as int].symbol == '[',
        forall|k: usize| #[trigger] e2s.contains_key(k) ==> cmds[k as int].symbol == ']',
        forall|k: usize| #[trigger] s2e.contains_key(k) ==> cmds[s2e[k] as int].symbol == ']',
        forall|k: usize| #[trigger] e2s.contains_key(k) ==> cmds[e2s[k] as int].symbol == '[',
        forall|k: usize| #[trigger] s2e.contains_key(k) ==> e2s.contains_key(s2e[k])
            && e2s[s2e[k]] == k,
        forall|k: usize| #[trigger] e2s.contains_key(k) ==> s2e.contains_key(e2s[k])
            && s2e[e2s[k]] == k,
        forall|k: usize| #[trigger] s2e.contains_key(k) ==> k < i,
        forall|k: usize| #[trigger] e2s.contains_key(k) ==> k < i,
    ensures
        ({
            let maps = loops_from(cmds, i, stack, s2e, e2s)->Ok_0;
            &&& forall|k: usize| #[trigger] maps.0.contains_key(k) ==> cmds[k as int].symbol
                == '['
            &&& forall|k: usize| #[trigger] maps.0.contains_key(k) ==> cmds[maps.0[k] as int].symbol
                == ']'
            &&& forall|k: usize| #[trigger] maps.1.contains_key(k) ==> cmds[k as int].symbol
                == ']'
            &&& forall|k: usize| #[trigger] maps.1.contains_key(k) ==> cmds[maps.1[k] as int].symbol
                == '['
            &&& forall|k: usize| #[trigger] maps.0.contains_key(k) ==> maps.1.contains_key(
                maps.0[k],
            ) && maps.1[maps.0[k]] == k
            &&& forall|k: usize| #[trigger] maps.1.contains_key(k) ==> maps.0.contains_key(
                maps.1[k],
            ) && maps.0[maps.1[k]] == k
        }),
    decreases cmds.len() - i,
{
    if i >= cmds.len() {
        assert(stack.len() == 0);
    } else if cmds[i].symbol == '[' {
        assert((i as usize) as int == i);
        let stack2 = stack.push(i as usize);
        assert forall|k: int| 0 <= k < stack2.len() implies (#[trigger] stack2[k]) < i + 1 by {
            if k < stack.len() {
                assert(stack2[k] == stack[k]);
            } else {
                assert(stack2[k] == i as usize);
            }
        }
        assert forall|k: int|
            0 <= k < stack2.len() implies (#[trigger] cmds[stack2[k] as int]).symbol == '[' by {
            if k < stack.len() {
                assert(stack2[k] == stack[k]);
                assert(cmds[stack2[k] as int].symbol == cmds[stack[k] as int].symbol);
            } else {
                assert(stack2[k] == i as usize);
                assert(stack2[k] as int == i);
                assert(cmds[stack2[k] as int].symbol == cmds[i].symbol);
            }
        }
        assert forall|k1: int, k2: int| 0 <= k1 < k2 < stack2.len() implies stack2[k1]
            != stack2[k2] by {
            if k2 < stack.len() {
                assert(stack2[k1] == stack[k1] && stack2[k2] == stack[k2]);
            } else {
                assert(stack2[k1] == stack[k1] && stack2[k2] == i as usize);
                assert(stack[k1] < i);
                assert((i as usize) as int == i);
                assert(stack[k1] != i as usize);
            }
        }
        assert forall|k: int| 0 <= k < stack2.len() implies !s2e.contains_key(
            #[trigger] stack2[k],
        ) by {
            if k < stack.len() {
                assert(stack2[k] == stack[k]);
            } else {
                assert(stack2[k] == i as usize);
            }
        }
        assert forall|k: int| 0 <= k < stack2.len() implies !e2s.contains_key(
            #[trigger] stack2[k],
        ) by {
            if k < stack.len() {
                assert(stack2[k] == stack[k]);
            } else {
                assert(stack2[k] == i as usize);
            }
        }
        lemma_loops_from_pairing(cmds, i + 1, stack2, s2e, e2s);
    } else if cmds[i].symbol == ']' {
        assert((i as usize) as int == i);
        assert(stack.len() > 0);
        let top = stack.last();
        assert(stack[stack.len() - 1] == top);
        assert(cmds[top as int].symbol == '[');
        let s2e2 = s2e.insert(top, i as usize);
        let e2s2 = e2s.insert(i as usize, top);
        let stack2 = stack.drop_last();
        assert forall|k: int| 0 <= k < stack2.len() implies (#[trigger] stack2[k]) < i + 1 by {
            assert(stack2[k] == stack[k]);
        }
        assert forall|k: int|
            0 <= k < stack2.len() implies (#[trigger] cmds[stack2[k] as int]).symbol == '[' by {
            assert(stack2[k] == stack[k]);
        }
        assert forall|k1: int, k2: int| 0 <= k1 < k2 < stack2.len() implies stack2[k1]
            != stack2[k2] by {
            assert(stack2[k1] == stack[k1] && stack2[k2] == stack[k2]);
        }
        assert forall|k: int| 0 <= k < stack2.len() implies !s2e2.contains_key(
            #[trigger] stack2[k],
        ) by {
            assert(stack2[k] == stack[k]);
            assert(stack[k] != top);
        }
        assert forall|k: int| 0 <= k < stack2.len() implies !e2s2.contains_key(
            #[trigger] stack2[k],
        ) by {
            assert(stack2[k] == stack[k]);
            assert((stack[k] as int) < i);
        }
        assert forall|k: usize| #[trigger] s2e2.contains_key(k) implies (s2e2[k] as int) < i
            + 1 by {
            if k != top {
                assert(s2e.contains_key(k) && s2e2[k] == s2e[k]);
            }
        }
        assert forall|k: usize| #[trigger] e2s2.contains_key(k) implies (e2s2[k] as int) < i
            + 1 by {
            if k != i as usize {
                assert(e2s.contains_key(k) && e2s2[k] == e2s[k]);
            } else {
                assert(e2s2[k] == top);
            }
        }
        assert forall|k: usize| #[trigger] s2e2.contains_key(k) implies cmds[k as int].symbol
            == '[' by {
            if k != top {
                assert(s2e.contains_key(k));
            }
        }
        assert forall|k: usize| #[trigger] e2s2.contains_key(k) implies cmds[k as int].symbol
            == ']' by {
            if k != i as usize {
                assert(e2s.contains_key(k));
            }
        }
        assert forall|k: usize| #[trigger] s2e2.contains_key(k) implies cmds[s2e2[k] as int].symbol
            == ']' by {
            if k != top {
                assert(s2e.contains_key(k) && s2e2[k] == s2e[k]);
            } else {
                assert(s2e2[k] == i as usize);
            }
        }
        assert forall|k: usize| #[trigger] e2s2.contains_key(k) implies cmds[e2s2[k] as int].symbol
            == '[' by {
            if k != i as usize {
                assert(e2s.contains_key(k) && e2s2[k] == e2s[k]);
            } else {
                assert(e2s2[k] == top);
            }
        }
        assert forall|k: usize| #[trigger] s2e2.contains_key(k) implies e2s2.contains_key(s2e2[k])
            && e2s2[s2e2[k]] == k by {
            if k != top {
                assert(s2e.contains_key(k) && s2e2[k] == s2e[k]);
                assert(e2s.contains_key(s2e[k]) && e2s[s2e[k]] == k);
                assert((s2e[k] as int) < i);
                assert(e2s2[s2e[k]] == e2s[s2e[k]]);
            } else {
                assert(s2e2[k] == i as usize);
                assert(e2s2[i as usize] == top);
            }
        }
        assert forall|k: usize| #[trigger] e2s2.contains_key(k) implies s2e2.contains_key(e2s2[k])
            && s2e2[e2s2[k]] == k by {
            if k != i as usize {
                assert(e2s.contains_key(k) && e2s2[k] == e2s[k]);
                assert(s2e.contains_key(e2s[k]) && s2e[e2s[k]] == k);
                assert(e2s[k] != top);
                assert(s2e2[e2s[k]] == s2e[e2s[k]]);
            } else {
                assert(e2s2[k] == top);
                assert(s2e2[top] == i as usize);
            }
        }
        assert forall|k: usize| #[trigger] s2e2.contains_key(k) implies k < i + 1 by {
            if k != top {
                assert(s2e.contains_key(k));
            } else {
                assert((top as int) < i);
            }
        }
        assert forall|k: usize| #[trigger] e2s2.contains_key(k) implies k < i + 1 by {
            if k != i as usize {
                assert(e2s.contains_key(k));
            }
        }
        lemma_loops_from_pairing(cmds, i + 1, stack2, s2e2, e2s2);
    } else {
        assert forall|k: usize| #[trigger] s2e.contains_key(k) implies (s2e[k] as int) < i + 1 by {}
        assert forall|k: usize| #[trigger] e2s.contains_key(k) implies (e2s[k] as int) < i + 1 by {}
        assert forall|k: usize| #[trigger] s2e.contains_key(k) implies k < i + 1 by {}
        assert forall|k: usize| #[trigger] e2s.contains_key(k) implies k < i + 1 by {}
        lemma_loops_from_pairing(cmds, i + 1, stack, s2e, e2s);
    }
}

/// The loop tables of a command list pair each open with a close and
/// back: the two maps are mutually inverse, and each points only at
/// brackets of the other kind.
pub proof fn lemma_loop_maps_pairing(cmds: Seq<Command>)
    requires
        cmds.len() <= usize::MAX,
        loop_maps_spec(cmds) is Ok,
    ensures
        ({
            let maps = loop_maps_spec(cmds)->Ok_0;
            &&& forall|k: usize| #[trigger] maps.0.contains_key(k) ==> cmds[k as int].symbol
                == '[' && cmds[maps.0[k] as int].symbol == ']'
            &&& forall|k: usize| #[trigger] maps.1.contains_key(k) ==> cmds[k as int].symbol
                == ']' && cmds[maps.1[k] as int].symbol == '['
            &&& forall|k: usize| #[trigger] maps.0.contains_key(k) ==> maps.1.contains_key(
                maps.0[k],
            ) && maps.1[maps.0[k]] == k
            &&& forall|k: usize| #[trigger] maps.1.contains_key(k) ==> maps.0.contains_key(
                maps.1[k],
            ) && maps.0[maps.1[k]] == k
        }),
{
    lemma_loops_from_pairing(cmds, 0, Seq::empty(), Map::empty(), Map::empty());
}

/// The number of commands with a given symbol, from position `i` on.
pub open spec fn count_symbol_from(cmds: Seq<Command>, c: char, i: int) -> nat
    decreases cmds.len() - i,
{
    if i < 0 || i >= cmds.len() {
        0
    } else {
        (if cmds[i].symbol == c {
            1nat
        } else {
            0nat
        }) + count_symbol_from(cmds, c, i + 1)
    }
}

proof fn lemma_loops_from_ok_counts(
    cmds: Seq<Command>,
    i: int,
    stack: Seq<usize>,
    s2e: Map<usize, usize>,
    e2s: Map<usize, usize>,
)
    requires
        0 <= i <= cmds.len(),
        loops_from(cmds, i, stack, s2e, e2s) is Ok,
    ensures
        count_symbol_from(cmds, '[', i) + stack.len() == count_symbol_from(cmds, ']', i),
    decreases cmds.len() - i,
{
    if i >= cmds.len() {
        assert(stack.len() == 0);
    } else if cmds[i].symbol == '[' {
        lemma_loops_from_ok_counts(cmds, i + 1, stack.push(i as usize), s2e, e2s);
    } else if cmds[i].symbol == ']' {
        assert(stack.len() > 0);
        lemma_loops_from_ok_counts(
            cmds,
            i + 1,
            stack.drop_last(),
            s2e.insert(stack.last(), i as usize),
            e2s.insert(i as usize, stack.last()),
        );
    } else {
        lemma_loops_from_ok_counts(cmds, i + 1, stack, s2e, e2s);
    }
}

/// A command list whose loop scan succeeds has as many opens as closes:
/// any unmatched bracket fails the scan.
pub proof fn lemma_loop_maps_ok_balanced(cmds: Seq<Command>)
    requires
        loop_maps_spec(cmds) is Ok,
    ensures
        count_symbol_from(cmds, '[', 0) == count_symbol_from(cmds, ']', 0),
{
    lemma_loops_from_ok_counts(cmds, 0, Seq::empty(), Map::empty(), Map::empty());
}

/// Builds the open-to-close and close-to-open jump tables for a command
/// list, failing on any unmatched bracket.
pub fn find_loop_indices(commands: &Vec<Command>) -> (r: Result<
    (HashMap<usize, usize>, HashMap<usize, usize>),
    CompileError,
>)
    ensures
        match r {
            Ok(maps) => loop_maps_spec(commands@) == Ok::<
                (Map<usize, usize>, Map<usize, usize>),
                CompileError,
            >((maps.0@, maps.1@)),
            Err(e) => loop_maps_spec(commands@) == Err::<
                (Map<usize, usize>, Map<usize, usize>),
                CompileError,
            >(e),
        },
{
    broadcast use vstd::std_specs::hash::group_hash_axioms;

    let mut start_to_end: HashMap<usize, usize> = HashMap::new();
    let mut end_to_start: HashMap<usize, usize> = HashMap::new();
    let mut loop_start_stack: Vec<usize> = Vec::new();
    let n = commands.len();
    let mut i: usize = 0;
    while i < n
        invariant
            n == commands@.len(),
            i <= n,
            loop_maps_spec(commands@) == loops_from(
                commands@,
                i as int,
                loop_start_stack@,
                start_to_end@,
                end_to_start@,
            ),
        decreases n - i,
    {
        let ghost pre_stack = loop_start_stack@;
        let ghost pre_s2e = start_to_end@;
        let ghost pre_e2s = end_to_start@;
        let symbol = commands[i].symbol;
        if symbol == '[' {
            loop_start_stack.push(i);
            proof {
                lemma_loops_step_open(commands@, i as int, pre_stack, pre_s2e, pre_e2s);
            }
        } else if symbol == ']' {
            match loop_start_stack.pop() {
                Some(start_i) => {
                    start_to_end.insert(start_i, i);
                    end_to_start.insert(i, start_i);
                    proof {
                        lemma_loops_step_close(commands@, i as int, pre_stack, pre_s2e, pre_e2s);
                        assert(loop_start_stack@ == pre_stack.drop_last());
                        assert(start_i == pre_stack.last());
                        assert(start_to_end@ == pre_s2e.insert(pre_stack.last(), i));
                        assert(end_to_start@ == pre_e2s.insert(i, pre_stack.last()));
                    }
                },
                None => {
                    proof {
                        lemma_loops_step_close_err(
                            commands@,
                            i as int,
                            pre_stack,
                            pre_s2e,
                            pre_e2s,
                        );
                    }
                    return Err(CompileError::UnmatchedLoopClose);
                },
            }
        } else {
            proof {
                lemma_loops_step_other(commands@, i as int, pre_stack, pre_s2e, pre_e2s);
            }
        }
        i += 1;
    }
    proof {
        lemma_loops_end(commands@, loop_start_stack@, start_to_end@, end_to_start@);
    }
    if loop_start_stack.len() > 0 {
        return Err(CompileError::UnmatchedLoopOpen);
    }
    Ok((start_to_end, end_to_start))
}

// ---------------------------------------------------------------------------
// Instructions
// ---------------------------------------------------------------------------

/// How a jump compares the current cell with its match value.
#[derive(Copy, Clone, Debug, Eq, PartialEq)]
pub enum EqualityOperator {
    NotEqual,
    Equal,
}

/// Arithmetic applied to the current cell.
#[derive(Copy, Clone, Debug, Eq, PartialEq)]
pub enum MathOperator {
    Addition,
    Subtraction,
    Multiplication,
    Division,
}

/// How the cell pointer moves: left or right by the operand, or
/// directly to it.
#[derive(Copy, Clone, Debug, Eq, PartialEq)]
pub enum CellMoveOperator {
    Left,
    Right,
    SetTo,
}

/// A plain left-or-right direction.
#[derive(Copy, Clone, Debug, Eq, PartialEq)]
pub enum Direction {
    Left,
    Right,
}

/// One compiled, position-addressed unit of execution.  Jump targets
/// are absolute indices into the same instruction list.
#[derive(Copy, Clone, Debug, Eq, PartialEq)]
pub enum Instruction {
    ApplyOperatorToCell { operator: MathOperator, value: Value },
    ApplyOperatorToCellPtr { operator: CellMoveOperator, value: Value },
    JumpToIf { position: usize, operator: EqualityOperator, match_value: u8 },
    PrintOut,
    ReadIn,
    SetCell { value: Value },
    Breakpoint,
}

// ---------------------------------------------------------------------------
// Lowering commands to instructions
// ---------------------------------------------------------------------------

/// Whether a command compiles to an instruction: every instruction
/// symbol does, except the breakpoint marker when debugging is off;
/// commands with unrecognized symbols are dropped.
pub open spec fn produces_instruction(c: Command, allow_debugging: bool) -> bool {
    is_command_symbol(c.symbol) && (c.symbol != '!' || allow_debugging)
}

/// The commands that remain once non-compiling ones are dropped, from
/// position `i` on.  Loop targets are resolved against this list, so
/// dropping breakpoints cannot corrupt them.
pub open spec fn kept_from(cmds: Seq<Command>, i: int, allow_debugging: bool) -> Seq<Command>
    decreases cmds.len() - i,
{
    if i < 0 || i >= cmds.len() {
        Seq::empty()
    } else {
        (if produces_instruction(cmds[i], allow_debugging) {
            seq![cmds[i]]
        } else {
            Seq::empty()
        }) + kept_from(cmds, i + 1, allow_debugging)
    }
}

/// The kept commands of a whole list.
pub open spec fn kept_commands(cmds: Seq<Command>, allow_debugging: bool) -> Seq<Command> {
    kept_from(cmds, 0, allow_debugging)
}

/// The instruction a kept command at (kept) position `j` lowers to,
/// with the two jump tables supplying absolute loop targets.
pub open spec fn instr_of(
    c: Command,
    s2e: Map<usize, usize>,
    e2s: Map<usize, usize>,
    j: int,
) -> Instruction {
    let v = defaulted_value(c);
    if c.symbol == '+' {
        Instruction::ApplyOperatorToCell { operator: MathOperator::Addition, value: v }
    } else if c.symbol == '-' {
        Instruction::ApplyOperatorToCell { operator: MathOperator::Subtraction, value: v }
    } else if c.symbol == '*' {
        Instruction::ApplyOperatorToCell { operator: MathOperator::Multiplication, value: v }
    } else if c.symbol == '/' {
        Instruction::ApplyOperatorToCell { operator: MathOperator::Division, value: v }
    } else if c.symbol == '<' {
        Instruction::ApplyOperatorToCellPtr { operator: CellMoveOperator::Left, value: v }
    } else if c.symbol == '>' {
        Instruction::ApplyOperatorToCellPtr { operator: CellMoveOperator::Right, value: v }
    } else if c.symbol == '@' {
        Instruction::ApplyOperatorToCellPtr { operator: CellMoveOperator::SetTo, value: v }
    } else if c.symbol == '[' {
        Instruction::JumpToIf {
            position: s2e[j as usize],
            operator: EqualityOperator::Equal,
            match_value: 0,
        }
    } else if c.symbol == ']' {
        Instruction::JumpToIf {
            position: e2s[j as usize],
            operator: EqualityOperator::NotEqual,
            match_value: 0,
        }
    } else if c.symbol == '.' {
        Instruction::PrintOut
    } else if c.symbol == ',' {
        Instruction::ReadIn
    } else if c.symbol == '^' {
        Instruction::SetCell { value: v }
    } else {
        Instruction::Breakpoint
    }
}

/// Whether some command attaches an operand to a symbol that takes
/// none: a fatal compile error.
pub open spec fn has_valueless_violation(cmds: Seq<Command>) -> bool {
    exists|j: int|
        0 <= j < cmds.len() && is_valueless_symbol((#[trigger] cmds[j]).symbol) && cmds[j].value
            is Some
}

/// The instruction list of a command list: reject operands on
/// valueless symbols, drop non-compiling commands, resolve loop
/// brackets over what remains, and lower each kept command in order.
pub open spec fn compile_commands_spec(cmds: Seq<Command>, allow_debugging: bool) -> Result<
    Seq<Instruction>,
    CompileError,
> {
    if has_valueless_violation(cmds) {
        Err(CompileError::OperandOnValuelessCommand)
    } else {
        let kept = kept_commands(cmds, allow_debugging);
        match loop_maps_spec(kept) {
            Ok(maps) => Ok(
                Seq::new(kept.len(), |j: int| instr_of(kept[j], maps.0, maps.1, j)),
            ),
            Err(e) => Err(e),
        }
    }
}

proof fn lemma_kept_step(cmds: Seq<Command>, i: int, allow_debugging: bool, pre: Seq<Command>)
    requires
        0 <= i < cmds.len(),
    ensures
        produces_instruction(cmds[i], allow_debugging) ==> pre + kept_from(cmds, i, allow_debugging)
            == pre.push(cmds[i]) + kept_from(cmds, i + 1, allow_debugging),
        !produces_instruction(cmds[i], allow_debugging) ==> pre + kept_from(
            cmds,
            i,
            allow_debugging,
        ) == pre + kept_from(cmds, i + 1, allow_debugging),
{
    let rest = kept_from(cmds, i + 1, allow_debugging);
    if produces_instruction(cmds[i], allow_debugging) {
        assert(kept_from(cmds, i, allow_debugging) == seq![cmds[i]] + rest);
        assert(pre + (seq![cmds[i]] + rest) =~= pre.push(cmds[i]) + rest);
    } else {
        assert(kept_from(cmds, i, allow_debugging) == Seq::<Command>::empty() + rest);
        assert(pre + (Seq::<Command>::empty() + rest) =~= pre + rest);
    }
}

proof fn lemma_kept_end(cmds: Seq<Command>, allow_debugging: bool, pre: Seq<Command>)
    ensures
        pre + kept_from(cmds, cmds.len() as int, allow_debugging) == pre,
{
    assert(pre + kept_from(cmds, cmds.len() as int, allow_debugging) =~= pre);
}

proof fn lemma_compile_spec_err_valueless(cmds: Seq<Command>, allow_debugging: bool)
    requires
        has_valueless_violation(cmds),
    ensures
        compile_commands_spec(cmds, allow_debugging) == Err::<Seq<Instruction>, CompileError>(
            CompileError::OperandOnValuelessCommand,
        ),
{
}

proof fn lemma_compile_spec_err_loops(cmds: Seq<Command>, allow_debugging: bool, e: CompileError)
    requires
        !has_valueless_violation(cmds),
        loop_maps_spec(kept_commands(cmds, allow_debugging)) == Err::<
            (Map<usize, usize>, Map<usize, usize>),
            CompileError,
        >(e),
    ensures
        compile_commands_spec(cmds, allow_debugging) == Err::<Seq<Instruction>, CompileError>(e),
{
}

proof fn lemma_compile_spec_ok(
    cmds: Seq<Command>,
    allow_debugging: bool,
    a: Map<usize, usize>,
    b: Map<usize, usize>,
    instrs: Seq<Instruction>,
)
    requires
        !has_valueless_violation(cmds),
        loop_maps_spec(kept_commands(cmds, allow_debugging)) == Ok::<
            (Map<usize, usize>, Map<usize, usize>),
            CompileError,
        >((a, b)),
        instrs.len() == kept_commands(cmds, allow_debugging).len(),
        forall|k: int|
            0 <= k < instrs.len() ==> #[trigger] instrs[k] == instr_of(
                kept_commands(cmds, allow_debugging)[k],
                a,
                b,
                k,
            ),
    ensures
        compile_commands_spec(cmds, allow_debugging) == Ok::<Seq<Instruction>, CompileError>(
            instrs,
        ),
{
    let kept = kept_commands(cmds, allow_debugging);
    assert(instrs =~= Seq::new(kept.len(), |j: int| instr_of(kept[j], a, b, j)));
}

/// Rejects a command that carries an operand, as the valueless symbols
/// must.
pub fn assert_valueless(command: Command) -> (r: Result<(), CompileError>)
    ensures
        r is Ok <==> command.value is None,
        r is Err ==> r == Err::<(), CompileError>(CompileError::OperandOnValuelessCommand),
{
    if command.has_value() {
        Err(CompileError::OperandOnValuelessCommand)
    } else {
        Ok(())
    }
}

fn produces_instruction_exec(c: Command, allow_debugging: bool) -> (r: bool)
    ensures
        r == produces_instruction(c, allow_debugging),
{
    is_command_char(c.symbol) && (c.symbol != '!' || allow_debugging)
}

/// Lowers a command list to instructions: operands on valueless
/// symbols are fatal, breakpoints are dropped unless debugging is
/// allowed, and loop brackets are resolved to absolute jump targets
/// over the kept commands.
pub fn compile_commands_to_intermediate(commands: Vec<Command>, allow_debugging: bool) -> (r:
    Result<Vec<Instruction>, CompileError>)
    ensures
        vec_result_view(r) == compile_commands_spec(commands@, allow_debugging),
{
    broadcast use vstd::std_specs::hash::group_hash_axioms;

    let n = commands.len();
    let mut i: usize = 0;
    while i < n
        invariant
            n == commands@.len(),
            i <= n,
            forall|j: int|
                0 <= j < i ==> !(is_valueless_symbol((#[trigger] commands@[j]).symbol)
                    && commands@[j].value is Some),
        decreases n - i,
    {
        let command = commands[i];
        if is_valueless_char(command.symbol) {
            match assert_valueless(command) {
                Ok(()) => {},
                Err(e) => {
                    proof {
                        assert(is_valueless_symbol(commands@[i as int].symbol)
                            && commands@[i as int].value is Some);
                        lemma_compile_spec_err_valueless(commands@, allow_debugging);
                    }
                    return Err(e);
                },
            }
        }
        i += 1;
    }
    assert(!has_valueless_violation(commands@));

    let mut kept: Vec<Command> = Vec::new();
    let mut i: usize = 0;
    while i < n
        invariant
            n == commands@.len(),
            i <= n,
            kept_commands(commands@, allow_debugging) == kept@ + kept_from(
                commands@,
                i as int,
                allow_debugging,
            ),
        decreases n - i,
    {
        let ghost pre = kept@;
        let command = commands[i];
        if produces_instruction_exec(command, allow_debugging) {
            kept.push(command);
        }
        proof {
            lemma_kept_step(commands@, i as int, allow_debugging, pre);
        }
        i += 1;
    }
    proof {
        lemma_kept_end(commands@, allow_debugging, kept@);
    }
    let ghost kept_view = kept@;
    assert(kept_view == kept_commands(commands@, allow_debugging));

    let maps = match find_loop_indices(&kept) {
        Ok(maps) => maps,
        Err(e) => {
            proof {
                lemma_compile_spec_err_loops(commands@, allow_debugging, e);
            }
            return Err(e);
        },
    };
    let (start_to_end, end_to_start) = maps;
    let ghost a = start_to_end@;
    let ghost b = end_to_start@;
    proof {
        lemma_loops_from_props(kept_view, 0, Seq::empty(), Map::empty(), Map::empty());
    }

    let m = kept.len();
    let mut instructions: Vec<Instruction> = Vec::new();
    let mut j: usize = 0;
    while j < m
        invariant
            m == kept_view.len(),
            kept@ == kept_view,
            j <= m,
            instructions@.len() == j,
            loop_maps_spec(kept_view) == Ok::<(Map<usize, usize>, Map<usize, usize>), CompileError>(
                (a, b),
            ),
            a == start_to_end@,
            b == end_to_start@,
            forall|k: int|
                0 <= k < kept_view.len() && (#[trigger] kept_view[k]).symbol == '['
                    ==> a.contains_key(k as usize),
            forall|k: int|
                0 <= k < kept_view.len() && (#[trigger] kept_view[k]).symbol == ']'
                    ==> b.contains_key(k as usize),
            forall|k: int|
                0 <= k < j ==> #[trigger] instructions@[k] == instr_of(kept_view[k], a, b, k),
        decreases m - j,
    {
        broadcast use vstd::std_specs::hash::group_hash_axioms;

        let command = kept[j];
        let defaulted_value = command.get_defaulted_value();
        let symbol = command.symbol;
        if symbol == '+' {
            instructions.push(
                Instruction::ApplyOperatorToCell {
                    operator: MathOperator::Addition,
                    value: defaulted_value,
                },
            );
        } else if symbol == '-' {
            instructions.push(
                Instruction::ApplyOperatorToCell {
                    operator: MathOperator::Subtraction,
                    value: defaulted_value,
                },
            );
        } else if symbol == '*' {
            instructions.push(
                Instruction::ApplyOperatorToCell {
                    operator: MathOperator::Multiplication,
                    value: defaulted_value,
                },
            );
        } else if symbol == '/' {
            instructions.push(
                Instruction::ApplyOperatorToCell {
                    operator: MathOperator::Division,
                    value: defaulted_value,
                },
            );
        } else if symbol == '<' {
            instructions.push(
                Instruction::ApplyOperatorToCellPtr {
                    operator: CellMoveOperator::Left,
                    value: defaulted_value,
                },
            );
        } else if symbol == '>' {
            instructions.push(
                Instruction::ApplyOperatorToCellPtr {
                    operator: CellMoveOperator::Right,
                    value: defaulted_value,
                },
            );
        } else if symbol == '@' {
            instructions.push(
                Instruction::ApplyOperatorToCellPtr {
                    operator: CellMoveOperator::SetTo,
                    value: defaulted_value,
                },
            );
        } else if symbol == '[' {
            match start_to_end.get(&j) {
                Some(end_i) => {
                    instructions.push(
                        Instruction::JumpToIf {
                            position: *end_i,
                            operator: EqualityOperator::Equal,
                            match_value: 0,
                        },
                    );
                },
                None => {
                    proof {
                        assert(a.contains_key(j));
                        assert(false);
                    }
                    unreached()
                },
            }
        } else if symbol == ']' {
            match end_to_start.get(&j) {
                Some(start_i) => {
                    instructions.push(
                        Instruction::JumpToIf {
                            position: *start_i,
                            operator: EqualityOperator::NotEqual,
                            match_value: 0,
                        },
                    );
                },
                None => {
                    proof {
                        assert(b.contains_key(j));
                        assert(false);
                    }
                    unreached()
                },
            }
        } else if symbol == '.' {
            instructions.push(Instruction::PrintOut);
        } else if symbol == ',' {
            instructions.push(Instruction::ReadIn);
        } else if symbol == '^' {
            instructions.push(Instruction::SetCell { value: defaulted_value });
        } else {
            instructions.push(Instruction::Breakpoint);
        }
        proof {
            assert(instructions@[j as int] == instr_of(kept_view[j as int], a, b, j as int));
        }
        j += 1;
    }
    proof {
        lemma_compile_spec_ok(commands@, allow_debugging, a, b, instructions@);
    }
    Ok(instructions)
}

// ---------------------------------------------------------------------------
// The whole front end
// ---------------------------------------------------------------------------

/// The instruction list of a source text, or the first error on the
/// way there: lexing, classification, assembly, then lowering.
pub open spec fn compile_spec(code: Seq<char>, allow_debugging: bool) -> Result<
    Seq<Instruction>,
    CompileError,
> {
    match tokens_spec(scan_spec(code)) {
        Ok(toks) => match commands_spec(toks) {
            Ok(cmds) => compile_commands_spec(cmds, allow_debugging),
            Err(e) => Err(e),
        },
        Err(e) => Err(e),
    }
}

proof fn lemma_compile_spec_tokens_err(code: Seq<char>, allow_debugging: bool, e: CompileError)
    requires
        tokens_spec(scan_spec(code)) == Err::<Seq<Token>, CompileError>(e),
    ensures
        compile_spec(code, allow_debugging) == Err::<Seq<Instruction>, CompileError>(e),
{
}

proof fn lemma_compile_spec_commands_err(
    code: Seq<char>,
    allow_debugging: bool,
    toks: Seq<Token>,
    e: CompileError,
)
    requires
        tokens_spec(scan_spec(code)) == Ok::<Seq<Token>, CompileError>(toks),
        commands_spec(toks) == Err::<Seq<Command>, CompileError>(e),
    ensures
        compile_spec(code, allow_debugging) == Err::<Seq<Instruction>, CompileError>(e),
{
}

proof fn lemma_compile_spec_chain(
    code: Seq<char>,
    allow_debugging: bool,
    toks: Seq<Token>,
    cmds: Seq<Command>,
)
    requires
        tokens_spec(scan_spec(code)) == Ok::<Seq<Token>, CompileError>(toks),
        commands_spec(toks) == Ok::<Seq<Command>, CompileError>(cmds),
    ensures
        compile_spec(code, allow_debugging) == compile_commands_spec(cmds, allow_debugging),
{
}

/// Compiles source text to the flat, jump-resolved instruction list.
/// Nothing ever executes unless this returns the list.
pub fn compile_to_intermediate(code: &str, allow_debugging: bool) -> (r: Result<
    Vec<Instruction>,
    CompileError,
>)
    ensures
        vec_result_view(r) == compile_spec(code@, allow_debugging),
{
    let len = code.unicode_len();
    let mut code_vec: Vec<char> = Vec::new();
    let mut i: usize = 0;
    while i < len
        invariant
            len == code@.len(),
            i <= len,
            code_vec@ == code@.take(i as int),
        decreases len - i,
    {
        let c = code.get_char(i);
        code_vec.push(c);
        proof {
            assert(code_vec@ =~= code@.take(i + 1));
        }
        i += 1;
    }
    proof {
        assert(code_vec@ =~= code@);
    }
    let lexemes = scan_code(&code_vec);
    proof {
        assert forall|k: int| 0 <= k < lexeme_views(lexemes@).len() implies #[trigger] lexeme_views(
            lexemes@,
        )[k].len() > 0 by {
            assert(lexeme_views(lexemes@)[k] == lexemes@[k]@);
        }
    }
    let tokens = match evaluate_lexemes(lexemes) {
        Ok(tokens) => tokens,
        Err(e) => {
            proof {
                lemma_compile_spec_tokens_err(code@, allow_debugging, e);
            }
            return Err(e);
        },
    };
    let commands = match parse_tokens(tokens) {
        Ok(commands) => commands,
        Err(e) => {
            proof {
                lemma_compile_spec_commands_err(code@, allow_debugging, tokens@, e);
            }
            return Err(e);
        },
    };
    proof {
        lemma_compile_spec_chain(code@, allow_debugging, tokens@, commands@);
    }
    compile_commands_to_intermediate(commands, allow_debugging)
}

/// Every jump target in the list is a valid index of the same list.
pub open spec fn jump_targets_valid(instrs: Seq<Instruction>) -> bool {
    forall|k: int|
        0 <= k < instrs.len() ==> match #[trigger] instrs[k] {
            Instruction::JumpToIf { position, .. } => (position as int) < instrs.len(),
            _ => true,
        }
}

/// Compiled instruction lists only ever jump inside themselves.
pub proof fn lemma_compile_commands_targets_valid(cmds: Seq<Command>, allow_debugging: bool)
    requires
        compile_commands_spec(cmds, allow_debugging) is Ok,
    ensures
        jump_targets_valid(compile_commands_spec(cmds, allow_debugging)->Ok_0),
{
    let kept = kept_commands(cmds, allow_debugging);
    let maps = loop_maps_spec(kept)->Ok_0;
    let instrs = compile_commands_spec(cmds, allow_debugging)->Ok_0;
    assert(instrs == Seq::new(kept.len(), |j: int| instr_of(kept[j], maps.0, maps.1, j)));
    lemma_loops_from_props(kept, 0, Seq::empty(), Map::empty(), Map::empty());
    assert forall|k: int| 0 <= k < instrs.len() implies match #[trigger] instrs[k] {
        Instruction::JumpToIf { position, .. } => (position as int) < instrs.len(),
        _ => true,
    } by {
        assert(instrs[k] == instr_of(kept[k], maps.0, maps.1, k));
        let c = kept[k];
        if c.symbol == '[' {
            assert(maps.0.contains_key(k as usize));
        } else if c.symbol == ']' {
            assert(maps.1.contains_key(k as usize));
        }
    }
}

/// Compiled source only ever jumps inside its own instruction list.
pub proof fn lemma_compile_targets_valid(code: Seq<char>, allow_debugging: bool)
    requires
        compile_spec(code, allow_debugging) is Ok,
    ensures
        jump_targets_valid(compile_spec(code, allow_debugging)->Ok_0),
{
    let toks = tokens_spec(scan_spec(code));
    match toks {
        Ok(ts) => {
            match commands_spec(ts) {
                Ok(cmds) => {
                    lemma_compile_spec_chain(code, allow_debugging, ts, cmds);
                    lemma_compile_commands_targets_valid(cmds, allow_debugging);
                },
                Err(e) => {
                    assert(false);
                },
            }
        },
        Err(e) => {
            assert(false);
        },
    }
}

proof fn lemma_kept_len(cmds: Seq<Command>, i: int, allow_debugging: bool)
    requires
        0 <= i <= cmds.len(),
    ensures
        kept_from(cmds, i, allow_debugging).len() <= cmds.len() - i,
    decreases cmds.len() - i,
{
    if i < cmds.len() {
        lemma_kept_len(cmds, i + 1, allow_debugging);
    }
}

/// Compiled loop brackets realize matched pairs: every open jump
/// targets a close jump that targets it back, and every close jump
/// targets an open jump that targets it back.  Together with the jump
/// semantics of the machine, an open with a zero cell continues one
/// past its matching close, and a close with a nonzero cell one past
/// its matching open.
pub proof fn lemma_compile_jump_pairing(cmds: Seq<Command>, allow_debugging: bool)
    requires
        cmds.len() <= usize::MAX,
        compile_commands_spec(cmds, allow_debugging) is Ok,
    ensures
        ({
            let instrs = compile_commands_spec(cmds, allow_debugging)->Ok_0;
            forall|k: int|
                0 <= k < instrs.len() ==> match #[trigger] instrs[k] {
                    Instruction::JumpToIf { position, operator, match_value } => {
                        &&& match_value == 0
                        &&& (position as int) < instrs.len()
                        &&& (operator == EqualityOperator::Equal ==> instrs[position as int]
                            == (Instruction::JumpToIf {
                            position: k as usize,
                            operator: EqualityOperator::NotEqual,
                            match_value: 0,
                        }))
                        &&& (operator == EqualityOperator::NotEqual ==> instrs[position as int]
                            == (Instruction::JumpToIf {
                            position: k as usize,
                            operator: EqualityOperator::Equal,
                            match_value: 0,
                        }))
                    },
                    _ => true,
                }
        }),
{
    let kept = kept_commands(cmds, allow_debugging);
    let maps = loop_maps_spec(kept)->Ok_0;
    let instrs = compile_commands_spec(cmds, allow_debugging)->Ok_0;
    assert(instrs == Seq::new(kept.len(), |j: int| instr_of(kept[j], maps.0, maps.1, j)));
    lemma_kept_len(cmds, 0, allow_debugging);
    lemma_loops_from_props(kept, 0, Seq::empty(), Map::empty(), Map::empty());
    lemma_loop_maps_pairing(kept);
    assert forall|k: int| 0 <= k < instrs.len() implies match #[trigger] instrs[k] {
        Instruction::JumpToIf { position, operator, match_value } => {
            &&& match_value == 0
            &&& (position as int) < instrs.len()
            &&& (operator == EqualityOperator::Equal ==> instrs[position as int]
                == (Instruction::JumpToIf {
                position: k as usize,
                operator: EqualityOperator::NotEqual,
                match_value: 0,
            }))
            &&& (operator == EqualityOperator::NotEqual ==> instrs[position as int]
                == (Instruction::JumpToIf {
                position: k as usize,
                operator: EqualityOperator::Equal,
                match_value: 0,
            }))
        },
        _ => true,
    } by {
        assert(instrs[k] == instr_of(kept[k], maps.0, maps.1, k));
        assert((k as usize) as int == k);
        let c = kept[k];
        if c.symbol == '[' {
            assert(maps.0.contains_key(k as usize));
            let e = maps.0[k as usize];
            assert(instrs[k] == (Instruction::JumpToIf {
                position: e,
                operator: EqualityOperator::Equal,
                match_value: 0,
            }));
            assert((e as int) < kept.len());
            assert(kept[e as int].symbol == ']');
            assert(maps.1.contains_key(e) && maps.1[e] == k as usize);
            assert(instrs[e as int] == instr_of(kept[e as int], maps.0, maps.1, e as int));
            assert((e as int) as usize == e);
            assert(instrs[e as int] == (Instruction::JumpToIf {
                position: maps.1[e],
                operator: EqualityOperator::NotEqual,
                match_value: 0,
            }));
        } else if c.symbol == ']' {
            assert(maps.1.contains_key(k as usize));
            let o = maps.1[k as usize];
            assert(instrs[k] == (Instruction::JumpToIf {
                position: o,
                operator: EqualityOperator::NotEqual,
                match_value: 0,
            }));
            assert((o as int) < kept.len());
            assert(kept[o as int].symbol == '[');
            assert(maps.0.contains_key(o) && maps.0[o] == k as usize);
            assert(instrs[o as int] == instr_of(kept[o as int], maps.0, maps.1, o as int));
            assert((o as int) as usize == o);
            assert(instrs[o as int] == (Instruction::JumpToIf {
                position: maps.0[o],
                operator: EqualityOperator::Equal,
                match_value: 0,
            }));
        } else {
            assert(!(instrs[k] is JumpToIf));
        }
    }
}

/// Source whose compilation succeeds has balanced loop brackets in its
/// kept commands: any unmatched bracket fails compilation, before
/// anything executes.
pub proof fn lemma_compile_ok_brackets_balanced(cmds: Seq<Command>, allow_debugging: bool)
    requires
        compile_commands_spec(cmds, allow_debugging) is Ok,
    ensures
        count_symbol_from(kept_commands(cmds, allow_debugging), '[', 0) == count_symbol_from(
            kept_commands(cmds, allow_debugging),
            ']',
            0,
        ),
{
    lemma_loop_maps_ok_balanced(kept_commands(cmds, allow_debugging));
}

// ---------------------------------------------------------------------------
// Brackets survive every stage
// ---------------------------------------------------------------------------

/// The number of occurrences of a character, from position `i` on.
pub open spec fn count_char_from(s: Seq<char>, c: char, i: int) -> nat
    decreases s.len() - i,
{
    if i < 0 || i >= s.len() {
        0
    } else {
        (if s[i] == c {
            1nat
        } else {
            0nat
        }) + count_char_from(s, c, i + 1)
    }
}

/// The number of single-character lexemes holding exactly `c`.
pub open spec fn count_lexeme(lexs: Seq<Seq<char>>, c: char) -> nat
    decreases lexs.len(),
{
    if lexs.len() == 0 {
        0
    } else {
        (if lexs[0] == seq![c] {
            1nat
        } else {
            0nat
        }) + count_lexeme(lexs.drop_first(), c)
    }
}

/// The number of command tokens holding exactly `c`.
pub open spec fn count_cmd_token(tokens: Seq<Token>, c: char) -> nat
    decreases tokens.len(),
{
    if tokens.len() == 0 {
        0
    } else {
        (if tokens[0] == (Token::Command { value: c }) {
            1nat
        } else {
            0nat
        }) + count_cmd_token(tokens.drop_first(), c)
    }
}

/// The number of commands whose symbol is `c`.
pub open spec fn count_command(cmds: Seq<Command>, c: char) -> nat
    decreases cmds.len(),
{
    if cmds.len() == 0 {
        0
    } else {
        (if cmds[0].symbol == c {
            1nat
        } else {
            0nat
        }) + count_command(cmds.drop_first(), c)
    }
}

proof fn lemma_count_lexeme_add(a: Seq<Seq<char>>, b: Seq<Seq<char>>, c: char)
    ensures
        count_lexeme(a + b, c) == count_lexeme(a, c) + count_lexeme(b, c),
    decreases a.len(),
{
    if a.len() == 0 {
        assert(a + b =~= b);
    } else {
        lemma_count_lexeme_add(a.drop_first(), b, c);
        assert((a + b).drop_first() =~= a.drop_first() + b);
        assert((a + b)[0] == a[0]);
    }
}

proof fn lemma_count_cmd_token_add(a: Seq<Token>, b: Seq<Token>, c: char)
    ensures
        count_cmd_token(a + b, c) == count_cmd_token(a, c) + count_cmd_token(b, c),
    decreases a.len(),
{
    if a.len() == 0 {
        assert(a + b =~= b);
    } else {
        lemma_count_cmd_token_add(a.drop_first(), b, c);
        assert((a + b).drop_first() =~= a.drop_first() + b);
        assert((a + b)[0] == a[0]);
    }
}

proof fn lemma_count_command_add(a: Seq<Command>, b: Seq<Command>, c: char)
    ensures
        count_command(a + b, c) == count_command(a, c) + count_command(b, c),
    decreases a.len(),
{
    if a.len() == 0 {
        assert(a + b =~= b);
    } else {
        lemma_count_command_add(a.drop_first(), b, c);
        assert((a + b).drop_first() =~= a.drop_first() + b);
        assert((a + b)[0] == a[0]);
    }
}

proof fn lemma_count_lexeme_single(x: Seq<char>, c: char)
    ensures
        count_lexeme(seq![x], c) == (if x == seq![c] {
            1nat
        } else {
            0nat
        }),
{
    reveal_with_fuel(count_lexeme, 2);
    assert(seq![x][0] == x);
    assert(seq![x].drop_first() =~= Seq::<Seq<char>>::empty());
}

proof fn lemma_count_cmd_token_single(t: Token, c: char)
    ensures
        count_cmd_token(seq![t], c) == (if t == (Token::Command { value: c }) {
            1nat
        } else {
            0nat
        }),
{
    reveal_with_fuel(count_cmd_token, 2);
    assert(seq![t][0] == t);
    assert(seq![t].drop_first() =~= Seq::<Token>::empty());
}

proof fn lemma_count_command_single(x: Command, c: char)
    ensures
        count_command(seq![x], c) == (if x.symbol == c {
            1nat
        } else {
            0nat
        }),
{
    reveal_with_fuel(count_command, 2);
    assert(seq![x][0] == x);
    assert(seq![x].drop_first() =~= Seq::<Command>::empty());
}

proof fn lemma_count_command_cons(s: Seq<Command>, c: char)
    requires
        s.len() > 0,
    ensures
        count_command(s, c) == (if s[0].symbol == c {
            1nat
        } else {
            0nat
        }) + count_command(s.drop_first(), c),
{
}

proof fn lemma_command_not_digit(c: char)
    requires
        is_command_symbol(c),
    ensures
        !is_digit_symbol(c),
{
}

/// Scanning preserves every instruction character: each one becomes
/// exactly one single-character lexeme.
proof fn lemma_scan_count(code: Seq<char>, i: int, partial: Seq<char>, c: char)
    requires
        is_command_symbol(c),
        forall|k: int| 0 <= k < partial.len() ==> is_digit_symbol(#[trigger] partial[k]),
    ensures
        count_lexeme(scan_from(code, i, partial), c) == count_char_from(code, c, i),
    decreases code.len() - i,
{
    assert(count_lexeme(flush_partial(partial), c) == 0) by {
        if partial.len() > 0 {
            assert(flush_partial(partial) == seq![partial]);
            lemma_count_lexeme_single(partial, c);
            if partial == seq![c] {
                assert(seq![c][0] == c);
                assert(partial[0] == c);
                assert(is_digit_symbol(partial[0]));
                lemma_command_not_digit(c);
                assert(false);
            }
        }
    }
    if i < 0 || i >= code.len() {
    } else {
        let ch = code[i];
        let f = flush_partial(partial);
        if is_command_symbol(ch) || is_current_cell_symbol(ch) {
            lemma_scan_count(code, i + 1, Seq::empty(), c);
            let rec = scan_from(code, i + 1, Seq::empty());
            lemma_count_lexeme_add(f + seq![seq![ch]], rec, c);
            lemma_count_lexeme_add(f, seq![seq![ch]], c);
            lemma_count_lexeme_single(seq![ch], c);
            assert((seq![ch] == seq![c]) <==> ch == c) by {
                assert(seq![ch][0] == ch);
                assert(seq![c][0] == c);
            }
        } else if is_digit_symbol(ch) {
            assert(forall|k: int|
                0 <= k < partial.push(ch).len() ==> is_digit_symbol(
                    #[trigger] partial.push(ch)[k],
                )) by {
                assert(forall|k: int|
                    0 <= k < partial.len() ==> partial.push(ch)[k] == partial[k]);
                assert(partial.push(ch)[partial.len() as int] == ch);
            }
            lemma_scan_count(code, i + 1, partial.push(ch), c);
            assert(code[i] != c) by {
                lemma_command_not_digit(c);
            }
        } else {
            lemma_scan_count(code, i + 1, Seq::empty(), c);
            let rec = scan_from(code, i + 1, Seq::empty());
            lemma_count_lexeme_add(f, rec, c);
            assert(code[i] != c);
        }
    }
}

/// Classification preserves every instruction character: a lexeme is
/// classified as that command exactly when it is that character.
proof fn lemma_tokens_count(lexs: Seq<Seq<char>>, i: int, c: char)
    requires
        is_command_symbol(c),
        0 <= i <= lexs.len(),
        tokens_from(lexs, i) is Ok,
    ensures
        count_cmd_token(tokens_from(lexs, i)->Ok_0, c) == count_lexeme(
            lexs.subrange(i, lexs.len() as int),
            c,
        ),
    decreases lexs.len() - i,
{
    let remaining = lexs.subrange(i, lexs.len() as int);
    if i >= lexs.len() {
        assert(remaining =~= Seq::<Seq<char>>::empty());
    } else {
        lemma_tokens_count(lexs, i + 1, c);
        let t = token_of_lexeme(lexs[i])->Ok_0;
        let rest = tokens_from(lexs, i + 1)->Ok_0;
        assert(tokens_from(lexs, i)->Ok_0 == seq![t] + rest);
        lemma_count_cmd_token_add(seq![t], rest, c);
        lemma_count_cmd_token_single(t, c);
        assert(t == (Token::Command { value: c }) <==> lexs[i] == seq![c]) by {
            if lexs[i] == seq![c] {
                assert(seq![c][0] == c);
                assert(lexs[i].len() == 1 && lexs[i][0] == c);
                assert(token_of_lexeme(lexs[i]) == Ok::<Token, CompileError>(
                    Token::Command { value: c },
                ));
            }
            if t == (Token::Command { value: c }) {
                assert(lexs[i].len() == 1 && is_command_symbol(lexs[i][0])) by {
                    if !(lexs[i].len() == 1 && is_command_symbol(lexs[i][0])) {
                        assert(!(token_of_lexeme(lexs[i])->Ok_0 is Command));
                    }
                }
                assert(lexs[i][0] == c);
                assert(lexs[i] =~= seq![c]);
            }
        }
        assert(remaining.drop_first() =~= lexs.subrange(i + 1, lexs.len() as int));
        assert(remaining[0] == lexs[i]);
    }
}

proof fn lemma_pending_seq_count(s: char, c: char)
    ensures
        count_command(pending_seq(Some(s)), c) == (if s == c {
            1nat
        } else {
            0nat
        }),
{
    assert(pending_seq(Some(s)) == seq![Command { symbol: s, value: None }]);
    lemma_count_command_single(Command { symbol: s, value: None }, c);
}

proof fn lemma_pending_seq_count_none(c: char)
    ensures
        count_command(pending_seq(None), c) == 0,
{
}

proof fn lemma_assemble_count_operand(tokens: Seq<Token>, i: int, s: char, v: Value, c: char)
    requires
        0 <= i < tokens.len(),
        match v {
            Value::Number(n) => tokens[i] == (Token::IntegerLiteral { value: n }),
            Value::CurrentCell => tokens[i] == Token::CurrentCellReference,
        },
        assemble_from(tokens, i, Some(s)) is Ok,
        count_command(assemble_from(tokens, i + 1, None)->Ok_0, c) == count_cmd_token(
            tokens.subrange(i + 1, tokens.len() as int),
            c,
        ) + count_command(pending_seq(None), c),
    ensures
        count_command(assemble_from(tokens, i, Some(s))->Ok_0, c) == count_cmd_token(
            tokens.subrange(i, tokens.len() as int),
            c,
        ) + count_command(pending_seq(Some(s)), c),
{
    reveal_with_fuel(count_cmd_token, 2);
    let remaining = tokens.subrange(i, tokens.len() as int);
    assert(remaining[0] == tokens[i]);
    assert(remaining.drop_first() =~= tokens.subrange(i + 1, tokens.len() as int));
    assert(count_cmd_token(remaining, c) == (if tokens[i] == (Token::Command { value: c }) {
        1nat
    } else {
        0nat
    }) + count_cmd_token(tokens.subrange(i + 1, tokens.len() as int), c));
    assert(tokens[i] != (Token::Command { value: c }));
    let rest = assemble_from(tokens, i + 1, None)->Ok_0;
    let emitted = Command { symbol: s, value: Some(v) };
    match v {
        Value::Number(n) => {
            assert(assemble_from(tokens, i, Some(s))->Ok_0 == seq![emitted] + rest);
        },
        Value::CurrentCell => {
            assert(assemble_from(tokens, i, Some(s))->Ok_0 == seq![emitted] + rest);
        },
    }
    lemma_count_command_add(seq![emitted], rest, c);
    lemma_count_command_single(emitted, c);
    lemma_pending_seq_count(s, c);
    lemma_pending_seq_count_none(c);
}

/// Assembly preserves every instruction character: each command token
/// becomes exactly one command with that symbol, pending included.
proof fn lemma_assemble_count(tokens: Seq<Token>, i: int, pending: Option<char>, c: char)
    requires
        0 <= i <= tokens.len(),
        assemble_from(tokens, i, pending) is Ok,
    ensures
        count_command(assemble_from(tokens, i, pending)->Ok_0, c) == count_cmd_token(
            tokens.subrange(i, tokens.len() as int),
            c,
        ) + count_command(pending_seq(pending), c),
    decreases tokens.len() - i,
{
    reveal_with_fuel(count_cmd_token, 2);
    let remaining = tokens.subrange(i, tokens.len() as int);
    if i >= tokens.len() {
        assert(remaining =~= Seq::<Token>::empty());
        assert(count_cmd_token(remaining, c) == 0);
        assert(assemble_from(tokens, i, pending) == Ok::<Seq<Command>, CompileError>(
            pending_seq(pending),
        ));
    } else {
        assert(remaining[0] == tokens[i]);
        assert(remaining.drop_first() =~= tokens.subrange(i + 1, tokens.len() as int));
        assert(count_cmd_token(remaining, c) == (if tokens[i] == (Token::Command { value: c }) {
            1nat
        } else {
            0nat
        }) + count_cmd_token(tokens.subrange(i + 1, tokens.len() as int), c));
        match tokens[i] {
            Token::Command { value } => {
                assert(tokens[i] == (Token::Command { value }));
                lemma_assemble_count(tokens, i + 1, Some(value), c);
                let rest = assemble_from(tokens, i + 1, Some(value))->Ok_0;
                assert(assemble_from(tokens, i, pending)->Ok_0 == pending_seq(pending) + rest);
                lemma_count_command_add(pending_seq(pending), rest, c);
                lemma_pending_seq_count(value, c);
                assert((tokens[i] == (Token::Command { value: c })) <==> value == c);
                assert(count_command(assemble_from(tokens, i, pending)->Ok_0, c)
                    == count_cmd_token(remaining, c) + count_command(pending_seq(pending), c));
            },
            Token::IntegerLiteral { value } => {
                assert(tokens[i] == (Token::IntegerLiteral { value }));
                assert(pending is Some);
                let s = pending->0;
                assert(pending == Some(s));
                lemma_assemble_count(tokens, i + 1, None, c);
                lemma_assemble_count_operand(tokens, i, s, Value::Number(value), c);
                assert(assemble_from(tokens, i, pending) == assemble_from(tokens, i, Some(s)));
                assert(count_command(pending_seq(pending), c) == count_command(
                    pending_seq(Some(s)),
                    c,
                ));
            },
            Token::CurrentCellReference => {
                assert(tokens[i] == Token::CurrentCellReference);
                assert(pending is Some);
                let s = pending->0;
                assert(pending == Some(s));
                lemma_assemble_count(tokens, i + 1, None, c);
                lemma_assemble_count_operand(tokens, i, s, Value::CurrentCell, c);
                assert(assemble_from(tokens, i, pending) == assemble_from(tokens, i, Some(s)));
                assert(count_command(pending_seq(pending), c) == count_command(
                    pending_seq(Some(s)),
                    c,
                ));
            },
        }
    }
}

/// Dropping non-compiling commands keeps every bracket.
proof fn lemma_kept_count(cmds: Seq<Command>, i: int, allow_debugging: bool, c: char)
    requires
        0 <= i <= cmds.len(),
        is_command_symbol(c),
        c != '!',
    ensures
        count_command(kept_from(cmds, i, allow_debugging), c) == count_command(
            cmds.subrange(i, cmds.len() as int),
            c,
        ),
    decreases cmds.len() - i,
{
    let remaining = cmds.subrange(i, cmds.len() as int);
    if i >= cmds.len() {
        assert(remaining =~= Seq::<Command>::empty());
    } else {
        lemma_kept_count(cmds, i + 1, allow_debugging, c);
        assert(remaining[0] == cmds[i]);
        assert(remaining.drop_first() =~= cmds.subrange(i + 1, cmds.len() as int));
        let rest = kept_from(cmds, i + 1, allow_debugging);
        if produces_instruction(cmds[i], allow_debugging) {
            assert(kept_from(cmds, i, allow_debugging) == seq![cmds[i]] + rest);
            lemma_count_command_add(seq![cmds[i]], rest, c);
            lemma_count_command_single(cmds[i], c);
        } else {
            assert(kept_from(cmds, i, allow_debugging) == Seq::<Command>::empty() + rest);
            assert(Seq::<Command>::empty() + rest =~= rest);
            assert(cmds[i].symbol != c);
        }
    }
}

/// Stack-discipline counting, restated over the structural count.
proof fn lemma_count_symbol_is_count_command(cmds: Seq<Command>, c: char, i: int)
    requires
        0 <= i <= cmds.len(),
    ensures
        count_symbol_from(cmds, c, i) == count_command(cmds.subrange(i, cmds.len() as int), c),
    decreases cmds.len() - i,
{
    let remaining = cmds.subrange(i, cmds.len() as int);
    if i >= cmds.len() {
        assert(remaining =~= Seq::<Command>::empty());
    } else {
        lemma_count_symbol_is_count_command(cmds, c, i + 1);
        assert(remaining[0] == cmds[i]);
        assert(remaining.drop_first() =~= cmds.subrange(i + 1, cmds.len() as int));
    }
}

/// An unmatched loop bracket anywhere in the source fails compilation:
/// source with unequal bracket counts never compiles, so nothing of it
/// ever executes.
pub proof fn lemma_unmatched_brackets_never_compile(code: Seq<char>, allow_debugging: bool)
    requires
        count_char_from(code, '[', 0) != count_char_from(code, ']', 0),
    ensures
        compile_spec(code, allow_debugging) is Err,
{
    if compile_spec(code, allow_debugging) is Ok {
        let lexs = scan_spec(code);
        let toks = tokens_spec(lexs)->Ok_0;
        let cmds = commands_spec(toks)->Ok_0;
        let kept = kept_commands(cmds, allow_debugging);
        assert(tokens_spec(lexs) is Ok && commands_spec(toks) is Ok && compile_commands_spec(
            cmds,
            allow_debugging,
        ) is Ok);
        lemma_compile_spec_chain(code, allow_debugging, toks, cmds);
        assert(loop_maps_spec(kept) is Ok);
        lemma_loop_maps_ok_balanced(kept);
        lemma_count_symbol_is_count_command(kept, '[', 0);
        lemma_count_symbol_is_count_command(kept, ']', 0);
        assert(kept.subrange(0, kept.len() as int) =~= kept);
        lemma_kept_count(cmds, 0, allow_debugging, '[');
        lemma_kept_count(cmds, 0, allow_debugging, ']');
        assert(cmds.subrange(0, cmds.len() as int) =~= cmds);
        lemma_assemble_count(toks, 0, None, '[');
        lemma_assemble_count(toks, 0, None, ']');
        lemma_pending_seq_count_none('[');
        lemma_pending_seq_count_none(']');
        assert(toks.subrange(0, toks.len() as int) =~= toks);
        lemma_tokens_count(lexs, 0, '[');
        lemma_tokens_count(lexs, 0, ']');
        assert(lexs.subrange(0, lexs.len() as int) =~= lexs);
        lemma_scan_count(code, 0, Seq::empty(), '[');
        lemma_scan_count(code, 0, Seq::empty(), ']');
        assert(false);
    }
}

} // verus!
