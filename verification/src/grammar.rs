//! What the parser computes, stated over sequences of token values.
//!
//! Words and redirections assemble to a command. Commands, subshells and
//! operators are the parts of a nesting level, which a fold from the left
//! turns into a tree. A level is scanned token by token, and a level below
//! the top ends at the `)` that closes it.

use vstd::prelude::*;
use either::Either;
use crate::ast::{
    CommandLineView,
    CommandView,
    InputSourceView,
    OutputSinkView,
    ParseResultView,
    PartParseView,
};
use crate::token::{Channel, TokenView};

verus! {

/// The enum `Either` of the crate `either`, made known to the verifier with
/// the two variants that the crate defines: `Left(L)` and `Right(R)`. Nothing
/// is assumed of it.
#[verifier::external_type_specification]
#[verifier::reject_recursive_types(L)]
#[verifier::reject_recursive_types(R)]
pub struct ExEither<L, R>(Either<L, R>);

/// The message for a second redirection of `channel`.
pub open spec fn multiple_redirects(channel: Channel) -> Seq<char> {
    match channel {
        Channel::Input => "Multiple input redirects."@,
        Channel::Output => "Multiple output redirects."@,
        Channel::Error => "Multiple error redirects."@,
    }
}

/// The message for a token that cannot be part of a command.
pub open spec fn unexpected_token(t: TokenView) -> Seq<char> {
    "Unexpected token: "@ + t.rendering() + "."@
}

/// The command without arguments whose streams are the standard ones.
pub open spec fn empty_command() -> CommandView {
    CommandView {
        args: Seq::empty(),
        input: InputSourceView::Stdin,
        output: OutputSinkView::Stdout,
        error: OutputSinkView::Stderr,
    }
}

/// One step of command assembly. A word is a further argument. A redirection
/// sets its stream, unless that stream no longer has its standard value: then
/// assembly fails. `2>&1` gives the error stream the value that the output
/// stream has at that moment. A failure stays.
pub open spec fn assemble_step(
    acc: Either<CommandView, Seq<char>>,
    t: TokenView,
) -> Either<CommandView, Seq<char>> {
    match acc {
        Either::Right(message) => Either::Right(message),
        Either::Left(command) => match t {
            TokenView::Word(text) => Either::Left(
                CommandView { args: command.args.push(text), ..command },
            ),
            TokenView::RedirectOutput(path) => if command.output is Stdout {
                Either::Left(CommandView { output: OutputSinkView::File(path), ..command })
            } else {
                Either::Right(multiple_redirects(Channel::Output))
            },
            TokenView::RedirectError(path) => if command.error is Stderr {
                Either::Left(CommandView { error: OutputSinkView::File(path), ..command })
            } else {
                Either::Right(multiple_redirects(Channel::Error))
            },
            TokenView::RedirectErrorToOutput => if command.error is Stderr {
                Either::Left(CommandView { error: command.output, ..command })
            } else {
                Either::Right(multiple_redirects(Channel::Error))
            },
            TokenView::RedirectInput(path) => if command.input is Stdin {
                Either::Left(CommandView { input: InputSourceView::File(path), ..command })
            } else {
                Either::Right(multiple_redirects(Channel::Input))
            },
            _ => Either::Right(unexpected_token(t)),
        },
    }
}

/// The command that `tokens` assemble to, from left to right.
pub open spec fn assemble(tokens: Seq<TokenView>) -> Either<CommandView, Seq<char>> {
    tokens.fold_left(
        Either::Left(empty_command()),
        |acc: Either<CommandView, Seq<char>>, t: TokenView| assemble_step(acc, t),
    )
}

/// Assembly goes token by token.
pub proof fn lemma_assemble_push(tokens: Seq<TokenView>, t: TokenView)
    ensures
        assemble(tokens.push(t)) == assemble_step(assemble(tokens), t),
{
    assert(tokens.push(t).drop_last() == tokens);
}

/// Once assembly has failed, further tokens change nothing.
pub proof fn lemma_assemble_failure_stays(tokens: Seq<TokenView>, n: int)
    requires
        0 <= n <= tokens.len(),
        assemble(tokens.take(n)) is Right,
    ensures
        assemble(tokens) == assemble(tokens.take(n)),
    decreases tokens.len() - n,
{
    if n < tokens.len() {
        assert(tokens.take(n + 1) == tokens.take(n).push(tokens[n]));
        lemma_assemble_push(tokens.take(n), tokens[n]);
        lemma_assemble_failure_stays(tokens, n + 1);
    } else {
        assert(tokens.take(n) == tokens);
    }
}

/// The message for parts that begin with an operator, or for no parts at
/// all.
pub open spec fn no_initial_command() -> Seq<char> {
    "No initial command."@
}

/// The message for a command or subshell that follows another directly.
pub open spec fn command_where_separator() -> Seq<char> {
    "Found a command where a separator was expected."@
}

/// The message for an operator that follows an operator other than `&`.
pub open spec fn separator_where_command() -> Seq<char> {
    "Found a separator where a command was expected."@
}

/// The message for parts that end in an operator other than `&`.
pub open spec fn missing_command() -> Seq<char> {
    "Missing command at end of line."@
}

/// Whether a part is what the scan of a level produces: its separator, where
/// it is one, is one of the five operators.
pub open spec fn part_well_formed(part: PartParseView) -> bool {
    part matches PartParseView::Sep(t) ==> t.is_separator()
}

/// Whether every part of `parts` is well formed.
pub open spec fn parts_well_formed(parts: Seq<PartParseView>) -> bool {
    forall|i: int| 0 <= i < parts.len() ==> part_well_formed(#[trigger] parts[i])
}

/// The tree that a command or a subshell stands for.
pub open spec fn line_of(part: PartParseView) -> CommandLineView
    recommends
        !(part is Sep),
{
    match part {
        PartParseView::Cmd(command) => CommandLineView::Singleton(command),
        PartParseView::Subshell(line) => line,
        PartParseView::Sep(_) => arbitrary(),
    }
}

/// The running tree with one more child. A variadic node takes the child at
/// its end. A background node does not: it becomes the first element of a
/// sequence and the child the second.
pub open spec fn appended(line: CommandLineView, child: CommandLineView) -> CommandLineView
    recommends
        !(line is Singleton),
{
    match line {
        CommandLineView::Singleton(_) => line,
        CommandLineView::Pipeline(lines) => CommandLineView::Pipeline(lines.push(child)),
        CommandLineView::Sequence(lines) => CommandLineView::Sequence(lines.push(child)),
        CommandLineView::Background(_) => CommandLineView::Sequence(seq![line, child]),
        CommandLineView::And(lines) => CommandLineView::And(lines.push(child)),
        CommandLineView::Or(lines) => CommandLineView::Or(lines.push(child)),
    }
}

/// The running tree after an operator. A tree that is already a node of the
/// operator's kind stays; any other becomes the only child of a new node of
/// that kind. `&` always wraps.
pub open spec fn wrapped(line: CommandLineView, separator: TokenView) -> CommandLineView
    recommends
        separator.is_separator(),
{
    match separator {
        TokenView::Pipe => if line is Pipeline {
            line
        } else {
            CommandLineView::Pipeline(seq![line])
        },
        TokenView::And => if line is And {
            line
        } else {
            CommandLineView::And(seq![line])
        },
        TokenView::Or => if line is Or {
            line
        } else {
            CommandLineView::Or(seq![line])
        },
        TokenView::Sequence => if line is Sequence {
            line
        } else {
            CommandLineView::Sequence(seq![line])
        },
        TokenView::Background => CommandLineView::Background(Box::new(line)),
        _ => line,
    }
}

/// The state of the fold over the parts of a level.
pub enum Fold {
    /// No part has been read.
    Start,
    /// The parts read so far make up `line`. A command has to follow where
    /// `command_required` holds and may follow where `command_allowed` holds.
    Running { line: CommandLineView, command_required: bool, command_allowed: bool },
    /// The parts form no command line.
    Failed(Seq<char>),
}

/// One step of the fold. The first part has to be a command or a subshell. A
/// later one may only follow an operator; an operator may follow anything
/// but an operator other than `&`.
pub open spec fn fold_part(state: Fold, part: PartParseView) -> Fold {
    match state {
        Fold::Start => if part is Sep {
            Fold::Failed(no_initial_command())
        } else {
            Fold::Running { line: line_of(part), command_required: false, command_allowed: false }
        },
        Fold::Running { line, command_required, command_allowed } => match part {
            PartParseView::Sep(separator) => if command_required {
                Fold::Failed(separator_where_command())
            } else {
                Fold::Running {
                    line: wrapped(line, separator),
                    command_required: !(separator is Background),
                    command_allowed: true,
                }
            },
            _ => if command_allowed {
                Fold::Running {
                    line: appended(line, line_of(part)),
                    command_required: false,
                    command_allowed: false,
                }
            } else {
                Fold::Failed(command_where_separator())
            },
        },
        Fold::Failed(message) => Fold::Failed(message),
    }
}

/// The fold over `parts`, from left to right.
pub open spec fn fold_parts(parts: Seq<PartParseView>) -> Fold {
    parts.fold_left(Fold::Start, |state: Fold, part: PartParseView| fold_part(state, part))
}

/// The command line that the parts of one level form.
pub open spec fn finish(parts: Seq<PartParseView>) -> ParseResultView {
    match fold_parts(parts) {
        Fold::Start => ParseResultView::Error(no_initial_command()),
        Fold::Running { line, command_required, command_allowed } => if command_required {
            ParseResultView::Error(missing_command())
        } else {
            ParseResultView::Parsed(line)
        },
        Fold::Failed(message) => ParseResultView::Error(message),
    }
}

/// The fold goes part by part.
pub proof fn lemma_fold_parts_push(parts: Seq<PartParseView>, part: PartParseView)
    ensures
        fold_parts(parts.push(part)) == fold_part(fold_parts(parts), part),
{
    assert(parts.push(part).drop_last() == parts);
}

/// Once the fold has failed, further parts change nothing.
pub proof fn lemma_fold_failure_stays(parts: Seq<PartParseView>, n: int)
    requires
        0 <= n <= parts.len(),
        fold_parts(parts.take(n)) is Failed,
    ensures
        fold_parts(parts) == fold_parts(parts.take(n)),
    decreases parts.len() - n,
{
    if n < parts.len() {
        assert(parts.take(n + 1) == parts.take(n).push(parts[n]));
        lemma_fold_parts_push(parts.take(n), parts[n]);
        lemma_fold_failure_stays(parts, n + 1);
    } else {
        assert(parts.take(n) == parts);
    }
}

/// The message for a `)` at level 0.
pub open spec fn unexpected_close() -> Seq<char> {
    "Unexpected ')'."@
}

/// The message for a level below the top that the input ends in.
pub open spec fn expected_close() -> Seq<char> {
    "Expected ')'"@
}

/// The parts of a level once its pending words and redirections have become
/// a command; the message, where they form none.
pub open spec fn flushed(parts: Seq<PartParseView>, pending: Seq<TokenView>) -> Result<
    Seq<PartParseView>,
    Seq<char>,
> {
    if pending.len() == 0 {
        Ok(parts)
    } else {
        match assemble(pending) {
            Either::Left(command) => Ok(parts.push(PartParseView::Cmd(command))),
            Either::Right(message) => Err(message),
        }
    }
}

/// What the scan of a level comes to: its result, and the tokens from the one
/// it stopped at.
pub struct LevelOutcome {
    pub result: ParseResultView,
    pub rest: Seq<TokenView>,
}

/// The end of a level: the pending tokens become a command and the parts are
/// folded.
pub open spec fn close_level(
    parts: Seq<PartParseView>,
    pending: Seq<TokenView>,
    rest: Seq<TokenView>,
) -> LevelOutcome {
    match flushed(parts, pending) {
        Ok(all) => LevelOutcome { result: finish(all), rest },
        Err(message) => LevelOutcome { result: ParseResultView::Error(message), rest },
    }
}

/// The scan of one nesting level over the tokens `s`, with the parts and the
/// pending tokens that it has gathered so far. Level 0 ends with the input, a
/// deeper level with the `)` that closes it. A `(` opens a scan one level
/// deeper, whose tree becomes a part; the scan of this level goes on behind
/// the `)` at which that one stopped. The first failure ends everything.
pub open spec fn scan_level(
    s: Seq<TokenView>,
    level: nat,
    parts: Seq<PartParseView>,
    pending: Seq<TokenView>,
) -> LevelOutcome
    decreases s.len(),
{
    if s.len() == 0 {
        if level > 0 {
            LevelOutcome { result: ParseResultView::Error(expected_close()), rest: s }
        } else {
            close_level(parts, pending, s)
        }
    } else {
        match s[0] {
            TokenView::LexError(message) => LevelOutcome {
                result: ParseResultView::Error(message),
                rest: s,
            },
            TokenView::CloseSubshell => if level == 0 {
                LevelOutcome { result: ParseResultView::Error(unexpected_close()), rest: s }
            } else {
                close_level(parts, pending, s)
            },
            TokenView::Continuation => scan_level(s.skip(1), level, parts, pending),
            TokenView::OpenSubshell => match flushed(parts, pending) {
                Ok(all) => {
                    let inner = scan_level(s.skip(1), level + 1, Seq::empty(), Seq::empty());
                    // A deeper level that yields a tree has stopped at its `)`,
                    // inside `s`: the bounds only serve the termination of
                    // this definition.
                    if inner.result is Parsed && 0 < inner.rest.len() < s.len() {
                        scan_level(
                            inner.rest.skip(1),
                            level,
                            all.push(PartParseView::Subshell(inner.result->Parsed_0)),
                            Seq::empty(),
                        )
                    } else {
                        inner
                    }
                },
                Err(message) => LevelOutcome { result: ParseResultView::Error(message), rest: s },
            },
            t => if t.is_separator() {
                match flushed(parts, pending) {
                    Ok(all) => scan_level(
                        s.skip(1),
                        level,
                        all.push(PartParseView::Sep(t)),
                        Seq::empty(),
                    ),
                    Err(message) => LevelOutcome {
                        result: ParseResultView::Error(message),
                        rest: s,
                    },
                }
            } else {
                scan_level(s.skip(1), level, parts, pending.push(t))
            },
        }
    }
}

/// Where the scan of a level stops: at a token of its input, or at the end.
/// A level below the top that yields a tree has stopped at a `)`, the top
/// level at the end of the input. No scan asks for a continuation.
pub proof fn lemma_scan_level_rest(
    s: Seq<TokenView>,
    level: nat,
    parts: Seq<PartParseView>,
    pending: Seq<TokenView>,
)
    ensures
        ({
            let outcome = scan_level(s, level, parts, pending);
            &&& outcome.rest.len() <= s.len()
            &&& outcome.rest == s.skip(s.len() - outcome.rest.len())
            &&& outcome.result is Parsed && level > 0 ==> outcome.rest.len() > 0
                && outcome.rest[0] is CloseSubshell
            &&& outcome.result is Parsed && level == 0 ==> outcome.rest.len() == 0
            &&& !(outcome.result is ContinuationRequired)
        }),
    decreases s.len(),
{
    let outcome = scan_level(s, level, parts, pending);
    if s.len() > 0 {
        let tail = s.skip(1);
        match s[0] {
            TokenView::LexError(_) => {},
            TokenView::CloseSubshell => {},
            TokenView::Continuation => {
                lemma_scan_level_rest(tail, level, parts, pending);
                lemma_suffix_of_tail(s, outcome.rest);
            },
            TokenView::OpenSubshell => {
                if let Ok(all) = flushed(parts, pending) {
                    let inner = scan_level(tail, level + 1, Seq::empty(), Seq::empty());
                    lemma_scan_level_rest(tail, level + 1, Seq::empty(), Seq::empty());
                    lemma_suffix_of_tail(s, inner.rest);
                    if inner.result is Parsed {
                        let after = inner.rest.skip(1);
                        lemma_scan_level_rest(
                            after,
                            level,
                            all.push(PartParseView::Subshell(inner.result->Parsed_0)),
                            Seq::empty(),
                        );
                        lemma_suffix_of_tail(inner.rest, outcome.rest);
                        lemma_suffix_of_suffix(s, inner.rest, outcome.rest);
                    }
                }
            },
            t => {
                if t.is_separator() {
                    if let Ok(all) = flushed(parts, pending) {
                        lemma_scan_level_rest(
                            tail,
                            level,
                            all.push(PartParseView::Sep(t)),
                            Seq::empty(),
                        );
                        lemma_suffix_of_tail(s, outcome.rest);
                    }
                } else {
                    lemma_scan_level_rest(tail, level, parts, pending.push(t));
                    lemma_suffix_of_tail(s, outcome.rest);
                }
            },
        }
    }
}

/// A suffix of the tail of `s` is a suffix of `s`.
proof fn lemma_suffix_of_tail(s: Seq<TokenView>, rest: Seq<TokenView>)
    requires
        s.len() > 0,
        rest.len() <= s.len() - 1,
        rest == s.skip(1).skip(s.len() - 1 - rest.len()),
    ensures
        rest == s.skip(s.len() - rest.len()),
{
}

/// A suffix of a suffix of `s` is a suffix of `s`.
proof fn lemma_suffix_of_suffix(s: Seq<TokenView>, middle: Seq<TokenView>, rest: Seq<TokenView>)
    requires
        middle.len() <= s.len(),
        middle == s.skip(s.len() - middle.len()),
        rest.len() <= middle.len(),
        rest == middle.skip(middle.len() - rest.len()),
    ensures
        rest == s.skip(s.len() - rest.len()),
{
}

/// The tokens of `tokens` from offset `idx` on; none behind its end.
pub open spec fn tokens_from(tokens: Seq<TokenView>, idx: int) -> Seq<TokenView> {
    if 0 <= idx <= tokens.len() {
        tokens.skip(idx)
    } else {
        Seq::empty()
    }
}

/// The result of parsing `tokens`. No tokens are an empty sequence. Tokens
/// that end in a continuation ask for more. All others are scanned at level
/// 0.
pub open spec fn parse_spec(tokens: Seq<TokenView>) -> ParseResultView {
    if tokens.len() == 0 {
        ParseResultView::Parsed(CommandLineView::Sequence(Seq::empty()))
    } else if tokens.last() is Continuation {
        ParseResultView::ContinuationRequired
    } else {
        scan_level(tokens, 0, Seq::empty(), Seq::empty()).result
    }
}

} // verus!
