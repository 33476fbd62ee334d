//! What holds of every command and every tree that the parser builds.

use vstd::prelude::*;
use either::Either;
use crate::ast::{CommandLineView, CommandView, ParseResultView, PartParseView};
use crate::grammar::{
    appended,
    assemble,
    empty_command,
    finish,
    flushed,
    fold_parts,
    lemma_assemble_push,
    lemma_fold_parts_push,
    line_of,
    parse_spec,
    scan_level,
    wrapped,
    Fold,
};
use crate::token::{Channel, TokenView};

verus! {

/// Whether every subshell among `parts` holds an inhabited tree.
pub open spec fn parts_inhabited(parts: Seq<PartParseView>) -> bool {
    forall|i: int|
        0 <= i < parts.len() ==> ((#[trigger] parts[i]) matches PartParseView::Subshell(line)
            ==> line.inhabited())
}

/// An operator leaves the running tree inhabited.
pub proof fn lemma_wrapped_inhabited(line: CommandLineView, separator: TokenView)
    requires
        line.inhabited(),
    ensures
        wrapped(line, separator).inhabited(),
{
}

/// A further child leaves the running tree inhabited.
pub proof fn lemma_appended_inhabited(line: CommandLineView, child: CommandLineView)
    requires
        line.inhabited(),
        child.inhabited(),
    ensures
        appended(line, child).inhabited(),
{
}

/// The tree of a fold over parts with inhabited subshells is inhabited.
pub proof fn lemma_fold_parts_inhabited(parts: Seq<PartParseView>)
    requires
        parts_inhabited(parts),
    ensures
        fold_parts(parts) matches Fold::Running { line, .. } ==> line.inhabited(),
    decreases parts.len(),
{
    if parts.len() > 0 {
        let before = parts.drop_last();
        let part = parts.last();
        assert(parts == before.push(part));
        lemma_fold_parts_push(before, part);
        lemma_fold_parts_inhabited(before);
        if let Fold::Running { line, .. } = fold_parts(before) {
            if let PartParseView::Sep(separator) = part {
                lemma_wrapped_inhabited(line, separator);
            } else {
                lemma_appended_inhabited(line, line_of(part));
            }
        }
    }
}

/// The scan of a level over parts with inhabited subshells yields an
/// inhabited tree.
pub proof fn lemma_scan_level_inhabited(
    s: Seq<TokenView>,
    level: nat,
    parts: Seq<PartParseView>,
    pending: Seq<TokenView>,
)
    requires
        parts_inhabited(parts),
    ensures
        scan_level(s, level, parts, pending).result matches ParseResultView::Parsed(line)
            ==> line.inhabited(),
    decreases s.len(),
{
    if let Ok(all) = flushed(parts, pending) {
        lemma_fold_parts_inhabited(all);
        if s.len() > 0 {
            match s[0] {
                TokenView::OpenSubshell => {
                    let inner = scan_level(s.skip(1), level + 1, Seq::empty(), Seq::empty());
                    lemma_scan_level_inhabited(s.skip(1), level + 1, Seq::empty(), Seq::empty());
                    if inner.result is Parsed && 0 < inner.rest.len() < s.len() {
                        let next = all.push(PartParseView::Subshell(inner.result->Parsed_0));
                        lemma_scan_level_inhabited(inner.rest.skip(1), level, next, Seq::empty());
                    }
                },
                t => {
                    if t.is_separator() {
                        let next = all.push(PartParseView::Sep(t));
                        lemma_scan_level_inhabited(s.skip(1), level, next, Seq::empty());
                    }
                },
            }
        }
    }
    if s.len() > 0 {
        match s[0] {
            TokenView::Continuation => {
                lemma_scan_level_inhabited(s.skip(1), level, parts, pending);
            },
            t => {
                if !t.is_separator() && !(t is LexError) && !(t is CloseSubshell) && !(t
                    is OpenSubshell) {
                    lemma_scan_level_inhabited(s.skip(1), level, parts, pending.push(t));
                }
            },
        }
    }
}

/// Every pipeline, sequence, conjunction and disjunction of a tree that is
/// parsed from at least one token has at least one child.
pub proof fn law_parsed_line_inhabited(tokens: Seq<TokenView>)
    requires
        tokens.len() > 0,
    ensures
        parse_spec(tokens) matches ParseResultView::Parsed(line) ==> line.inhabited(),
{
    lemma_scan_level_inhabited(tokens, 0, Seq::empty(), Seq::empty());
}

/// Whether `t` is a redirection that sets `channel`.
pub open spec fn sets_channel(t: TokenView, channel: Channel) -> bool {
    match channel {
        Channel::Input => t is RedirectInput,
        Channel::Output => t is RedirectOutput,
        Channel::Error => t is RedirectError || t is RedirectErrorToOutput,
    }
}

/// The number of tokens of `tokens` that set `channel`.
pub open spec fn redirections(tokens: Seq<TokenView>, channel: Channel) -> nat
    decreases tokens.len(),
{
    if tokens.len() == 0 {
        0
    } else {
        redirections(tokens.drop_last(), channel) + if sets_channel(tokens.last(), channel) {
            1nat
        } else {
            0nat
        }
    }
}

/// The texts of the words of `tokens`, in order.
pub open spec fn words(tokens: Seq<TokenView>) -> Seq<Seq<char>>
    decreases tokens.len(),
{
    if tokens.len() == 0 {
        Seq::empty()
    } else {
        match tokens.last() {
            TokenView::Word(text) => words(tokens.drop_last()).push(text),
            _ => words(tokens.drop_last()),
        }
    }
}

/// Whether `tokens` are words and redirections with at most one redirection
/// for each channel.
pub open spec fn assemblable(tokens: Seq<TokenView>) -> bool {
    &&& forall|i: int| 0 <= i < tokens.len() ==> (#[trigger] tokens[i]).is_command_part()
    &&& redirections(tokens, Channel::Input) <= 1
    &&& redirections(tokens, Channel::Output) <= 1
    &&& redirections(tokens, Channel::Error) <= 1
}

/// Tokens assemble to a command exactly where they are words and
/// redirections with at most one redirection for each channel. The arguments
/// of the command are the words, in order, and a stream has its standard
/// value exactly where no redirection sets it.
pub proof fn law_assemble_succeeds_iff(tokens: Seq<TokenView>)
    ensures
        assemble(tokens) is Left <==> assemblable(tokens),
        assemble(tokens) matches Either::Left(command) ==> {
            &&& command.args == words(tokens)
            &&& (command.input is Stdin <==> redirections(tokens, Channel::Input) == 0)
            &&& (command.output is Stdout <==> redirections(tokens, Channel::Output) == 0)
            &&& (command.error is Stderr <==> redirections(tokens, Channel::Error) == 0)
            &&& !(command.output is Stderr)
        },
    decreases tokens.len(),
{
    if tokens.len() > 0 {
        let before = tokens.drop_last();
        let t = tokens.last();
        assert(tokens == before.push(t));
        lemma_assemble_push(before, t);
        law_assemble_succeeds_iff(before);
        if assemblable(tokens) {
            assert(assemblable(before));
            assert(t.is_command_part());
        }
        if assemble(tokens) is Left {
            assert forall|i: int| 0 <= i < tokens.len() implies (
            #[trigger] tokens[i]).is_command_part() by {
                if i < before.len() {
                    assert(before[i] == tokens[i]);
                }
            }
        }
    }
}

/// Whether a part is an operator that a command has to follow: any but `&`.
pub open spec fn demands_command(part: PartParseView) -> bool {
    part matches PartParseView::Sep(separator) && !(separator is Background)
}

/// Whether `next` may stand behind `previous`: a command or a subshell only
/// behind an operator, an operator behind anything but an operator that a
/// command has to follow.
pub open spec fn may_follow(previous: PartParseView, next: PartParseView) -> bool {
    if next is Sep {
        !demands_command(previous)
    } else {
        previous is Sep
    }
}

/// Whether the parts begin with a command or a subshell and each later one
/// may follow the one before it.
pub open spec fn well_ordered(parts: Seq<PartParseView>) -> bool {
    &&& parts.len() > 0
    &&& !(parts[0] is Sep)
    &&& forall|i: int| 0 < i < parts.len() ==> may_follow(parts[i - 1], #[trigger] parts[i])
}

/// The fold runs exactly over well-ordered parts, and its two flags say what
/// the last part was.
pub proof fn lemma_fold_runs_iff(parts: Seq<PartParseView>)
    ensures
        fold_parts(parts) is Running <==> well_ordered(parts),
        fold_parts(parts) is Start <==> parts.len() == 0,
        fold_parts(parts) matches Fold::Running { command_required, command_allowed, .. } ==> {
            &&& command_required == demands_command(parts.last())
            &&& command_allowed == (parts.last() is Sep)
        },
    decreases parts.len(),
{
    if parts.len() > 0 {
        let before = parts.drop_last();
        let part = parts.last();
        assert(parts == before.push(part));
        lemma_fold_parts_push(before, part);
        lemma_fold_runs_iff(before);
        if well_ordered(parts) && before.len() > 0 {
            assert(well_ordered(before));
        }
        if fold_parts(parts) is Running && before.len() > 0 {
            assert forall|i: int| 0 < i < parts.len() implies may_follow(
                parts[i - 1],
                #[trigger] parts[i],
            ) by {
                if i < before.len() {
                    assert(may_follow(before[i - 1], before[i]));
                }
            }
        }
    }
}

/// The parts of a level form a command line exactly where they are well
/// ordered and do not end in an operator that a command has to follow.
pub proof fn law_finish_succeeds_iff(parts: Seq<PartParseView>)
    ensures
        finish(parts) is Parsed <==> well_ordered(parts) && !demands_command(parts.last()),
        !(finish(parts) is ContinuationRequired),
{
    lemma_fold_runs_iff(parts);
}

} // verus!
