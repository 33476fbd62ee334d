//! The parser: from a sequence of [`Token`]s to a [`CommandLine`].
//!
//! One nesting level is scanned token by token. Words and redirections gather
//! in a buffer that the next operator or parenthesis turns into a command;
//! commands, subshells and operators make up the parts of the level, and the
//! end of the level folds the operators into a tree from left to right. What
//! each function computes is stated in [`crate::grammar`].

use vstd::prelude::*;
use vstd::string::StringExecFns;
use either::Either;
use crate::ast::{
    Command,
    CommandLine,
    CommandLineView,
    CommandView,
    InputSource,
    OutputSink,
    ParseResult,
    PartParse,
    PartParseView,
};
use crate::grammar::{
    appended,
    assemble,
    close_level,
    finish,
    flushed,
    fold_parts,
    lemma_assemble_failure_stays,
    lemma_assemble_push,
    lemma_fold_failure_stays,
    lemma_fold_parts_push,
    lemma_scan_level_rest,
    line_of,
    parse_spec,
    part_well_formed,
    parts_well_formed,
    scan_level,
    tokens_from,
    wrapped,
    Fold,
};
use crate::invariants::law_parsed_line_inhabited;
use crate::token::{token_to_string, Token, TokenView};

verus! {

/// What command assembly yields: the command on the left, or on the right the
/// message it failed with.
pub open spec fn assembled_view(r: Either<Command, String>) -> Either<CommandView, Seq<char>> {
    match r {
        Either::Left(command) => Either::Left(command@),
        Either::Right(message) => Either::Right(message@),
    }
}

/// Builds the command that a run of words and redirections describes.
pub fn make_command(tokens: &[Token]) -> (r: Either<Command, String>)
    requires
        tokens.len() > 0,
    ensures
        assembled_view(r) == assemble(tokens.deep_view()),
{
    let mut args: Vec<String> = Vec::new();
    let mut i = InputSource::Stdin;
    let mut o = OutputSink::Stdout;
    let mut e = OutputSink::Stderr;
    let mut n: usize = 0;
    assert(args.deep_view() == Seq::<Seq<char>>::empty());
    while n < tokens.len()
        invariant
            n <= tokens.len(),
            assemble(tokens.deep_view().take(n as int)) == Either::<
                CommandView,
                Seq<char>,
            >::Left(
                CommandView { args: args.deep_view(), input: i@, output: o@, error: e@ },
            ),
        decreases tokens.len() - n,
    {
        let ghost before = args.deep_view();
        proof {
            assert(tokens.deep_view().take(n + 1) == tokens.deep_view().take(n as int).push(
                tokens[n as int]@,
            ));
            lemma_assemble_push(tokens.deep_view().take(n as int), tokens[n as int]@);
        }
        let mut failure: Option<String> = None;
        match &tokens[n] {
            Token::Word(s) => {
                args.push(s.clone());
                assert(args.deep_view() == before.push(s@));
            },
            Token::RedirectOutput(s) => {
                if matches!(o, OutputSink::Stdout) {
                    o = OutputSink::File(s.clone());
                } else {
                    failure = Some(String::from_str("Multiple output redirects."));
                }
            },
            Token::RedirectError(s) => {
                if matches!(e, OutputSink::Stderr) {
                    e = OutputSink::File(s.clone());
                } else {
                    failure = Some(String::from_str("Multiple error redirects."));
                }
            },
            Token::RedirectErrorToOutput => {
                if matches!(e, OutputSink::Stderr) {
                    e = o.clone();
                } else {
                    failure = Some(String::from_str("Multiple error redirects."));
                }
            },
            Token::RedirectInput(s) => {
                if matches!(i, InputSource::Stdin) {
                    i = InputSource::File(s.clone());
                } else {
                    failure = Some(String::from_str("Multiple input redirects."));
                }
            },
            t => {
                let message = String::from_str("Unexpected token: ").concat(
                    token_to_string(t).as_str(),
                ).concat(".");
                failure = Some(message);
            },
        }
        if let Some(message) = failure {
            proof {
                lemma_assemble_failure_stays(tokens.deep_view(), n + 1);
            }
            return Either::Right(message);
        }
        n += 1;
    }
    Either::Left(Command { args, input: i, output: o, error: e })
}

/// The tree of a command or a subshell.
pub fn part_to_cl(p: &PartParse) -> (line: CommandLine)
    requires
        !(p is Sep),
    ensures
        line@ == line_of(p@),
{
    match p {
        PartParse::Cmd(c) => CommandLine::Singleton(c.clone()),
        PartParse::Subshell(cl) => cl.clone(),
        PartParse::Sep(_) => unreached(),
    }
}

/// Adds the tree of `p` to the running tree `cl`.
pub fn append_to_cl(cl: &mut CommandLine, p: &PartParse)
    requires
        !(*old(cl) is Singleton),
        !(p is Sep),
    ensures
        (*final(cl))@ == appended((*old(cl))@, line_of(p@)),
{
    let child = part_to_cl(p);
    let mut line = CommandLine::Sequence(Vec::new());
    core::mem::swap(cl, &mut line);
    proof {
        line.lemma_view_children();
    }
    let next = match line {
        CommandLine::Singleton(_) => unreached(),
        CommandLine::Pipeline(mut lines) => {
            lines.push(child);
            CommandLine::Pipeline(lines)
        },
        CommandLine::Sequence(mut lines) => {
            lines.push(child);
            CommandLine::Sequence(lines)
        },
        CommandLine::Background(b) => {
            let mut lines: Vec<CommandLine> = Vec::new();
            lines.push(CommandLine::Background(b));
            lines.push(child);
            CommandLine::Sequence(lines)
        },
        CommandLine::And(mut lines) => {
            lines.push(child);
            CommandLine::And(lines)
        },
        CommandLine::Or(mut lines) => {
            lines.push(child);
            CommandLine::Or(lines)
        },
    };
    proof {
        next.lemma_view_children();
        match &next {
            CommandLine::Pipeline(v) => {
                assert(CommandLine::views(v@) =~= (*old(cl))@->Pipeline_0.push(child@));
            },
            CommandLine::Sequence(v) => {
                if *old(cl) is Background {
                    assert(CommandLine::views(v@) =~= seq![(*old(cl))@, child@]);
                } else {
                    assert(CommandLine::views(v@) =~= (*old(cl))@->Sequence_0.push(child@));
                }
            },
            CommandLine::And(v) => {
                assert(CommandLine::views(v@) =~= (*old(cl))@->And_0.push(child@));
            },
            CommandLine::Or(v) => {
                assert(CommandLine::views(v@) =~= (*old(cl))@->Or_0.push(child@));
            },
            _ => {},
        }
    }
    *cl = next;
}

/// The running tree after the operator `separator`.
fn wrap(line: CommandLine, separator: &Token) -> (r: CommandLine)
    requires
        separator@.is_separator(),
    ensures
        r@ == wrapped(line@, separator@),
        !(r is Singleton),
{
    proof {
        line.lemma_view_children();
    }
    let ghost inner = line@;
    let r = match separator {
        Token::Pipe => match line {
            CommandLine::Pipeline(lines) => CommandLine::Pipeline(lines),
            other => CommandLine::Pipeline(vec![other]),
        },
        Token::And => match line {
            CommandLine::And(lines) => CommandLine::And(lines),
            other => CommandLine::And(vec![other]),
        },
        Token::Or => match line {
            CommandLine::Or(lines) => CommandLine::Or(lines),
            other => CommandLine::Or(vec![other]),
        },
        Token::Sequence => match line {
            CommandLine::Sequence(lines) => CommandLine::Sequence(lines),
            other => CommandLine::Sequence(vec![other]),
        },
        Token::Background => CommandLine::Background(Box::new(line)),
        _ => unreached(),
    };
    proof {
        r.lemma_view_children();
        match &r {
            CommandLine::Pipeline(v) => {
                if !(inner is Pipeline) {
                    assert(CommandLine::views(v@) =~= seq![inner]);
                }
            },
            CommandLine::And(v) => {
                if !(inner is And) {
                    assert(CommandLine::views(v@) =~= seq![inner]);
                }
            },
            CommandLine::Or(v) => {
                if !(inner is Or) {
                    assert(CommandLine::views(v@) =~= seq![inner]);
                }
            },
            CommandLine::Sequence(v) => {
                if !(inner is Sequence) {
                    assert(CommandLine::views(v@) =~= seq![inner]);
                }
            },
            _ => {},
        }
    }
    r
}

/// Folds the operators among the parts of one level into a tree.
pub fn finish_parse(parts: &[PartParse]) -> (r: ParseResult)
    requires
        parts.len() > 0,
        forall|i: int| 0 <= i < parts.len() ==> part_well_formed(#[trigger] parts[i]@),
    ensures
        r@ == finish(parts.deep_view()),
{
    let ghost all = parts.deep_view();
    proof {
        assert(all.take(1) == Seq::<PartParseView>::empty().push(all[0]));
        lemma_fold_parts_push(Seq::empty(), all[0]);
    }
    let mut cur_cl = match &parts[0] {
        PartParse::Sep(_) => {
            proof {
                lemma_fold_failure_stays(all, 1);
            }
            return ParseResult::Error(String::from_str("No initial command."));
        },
        first => part_to_cl(first),
    };
    let mut idx: usize = 1;
    let mut cmd_required = false;
    let mut cmd_allowed = false;
    while idx < parts.len()
        invariant
            1 <= idx <= parts.len(),
            all == parts.deep_view(),
            forall|i: int| 0 <= i < parts.len() ==> part_well_formed(#[trigger] parts[i]@),
            fold_parts(all.take(idx as int)) == (Fold::Running {
                line: cur_cl@,
                command_required: cmd_required,
                command_allowed: cmd_allowed,
            }),
            cmd_allowed ==> !(cur_cl is Singleton),
        decreases parts.len() - idx,
    {
        proof {
            assert(all.take(idx + 1) == all.take(idx as int).push(all[idx as int]));
            lemma_fold_parts_push(all.take(idx as int), all[idx as int]);
        }
        match &parts[idx] {
            PartParse::Sep(t) => {
                if cmd_required {
                    proof {
                        lemma_fold_failure_stays(all, idx + 1);
                    }
                    return ParseResult::Error(
                        String::from_str("Found a separator where a command was expected."),
                    );
                }
                cmd_required = !matches!(t, Token::Background);
                cmd_allowed = true;
                cur_cl = wrap(cur_cl, t);
            },
            part => {
                if !cmd_allowed {
                    proof {
                        lemma_fold_failure_stays(all, idx + 1);
                    }
                    return ParseResult::Error(
                        String::from_str("Found a command where a separator was expected."),
                    );
                }
                cmd_required = false;
                cmd_allowed = false;
                append_to_cl(&mut cur_cl, part);
            },
        }
        idx += 1;
    }
    if cmd_required {
        ParseResult::Error(String::from_str("Missing command at end of line."))
    } else {
        ParseResult::Parsed(cur_cl)
    }
}

/// Turns the pending tokens, if there are any, into a command at the end of
/// the parts. Returns the message where they form none.
fn flush(cur: &mut Vec<Token>, parts: &mut Vec<PartParse>) -> (failure: Option<String>)
    requires
        parts_well_formed(old(parts).deep_view()),
    ensures
        match flushed(old(parts).deep_view(), old(cur).deep_view()) {
            Ok(all) => failure is None && final(parts).deep_view() == all && final(cur)@.len()
                == 0,
            Err(message) => failure matches Some(m) && m@ == message,
        },
        parts_well_formed(final(parts).deep_view()),
{
    if cur.len() > 0 {
        match make_command(cur.as_slice()) {
            Either::Left(command) => {
                parts.push(PartParse::Cmd(command));
                cur.clear();
                None
            },
            Either::Right(message) => Some(message),
        }
    } else {
        None
    }
}

/// Ends a level: flushes the pending tokens and folds the parts.
fn finish_level(cur: &mut Vec<Token>, parts: &mut Vec<PartParse>) -> (r: ParseResult)
    requires
        parts_well_formed(old(parts).deep_view()),
    ensures
        r@ == close_level(old(parts).deep_view(), old(cur).deep_view(), Seq::empty()).result,
{
    match flush(cur, parts) {
        Some(message) => ParseResult::Error(message),
        None => {
            if parts.len() == 0 {
                ParseResult::Error(String::from_str("No initial command."))
            } else {
                assert forall|i: int| 0 <= i < parts.len() implies part_well_formed(
                    #[trigger] parts[i]@,
                ) by {
                    assert(parts.deep_view()[i] == parts[i]@);
                }
                finish_parse(parts.as_slice())
            }
        },
    }
}

/// Scans the tokens from `*idx` on as one nesting level. The level ends with
/// the input where `level` is 0, else with the `)` that closes it; `*idx` is
/// then the offset of that `)`. After a failure it is the offset of the token
/// at which the failure was found. Behind the end of `tokens` there are no
/// tokens.
pub fn parse_tokens(tokens: &[Token], level: usize, idx: &mut usize) -> (r: ParseResult)
    requires
        *old(idx) <= tokens.len() ==> level + (tokens.len() - *old(idx)) <= usize::MAX,
    ensures
        *old(idx) <= *final(idx),
        *old(idx) <= tokens.len() ==> *final(idx) <= tokens.len(),
        r is Parsed && level > 0 ==> *final(idx) < tokens.len() && tokens[*final(idx) as int]
            is CloseSubshell,
        r is Parsed && level == 0 ==> *final(idx) == tokens.len(),
        !(r is ContinuationRequired),
        ({
            let outcome = scan_level(
                tokens_from(tokens.deep_view(), *old(idx) as int),
                level as nat,
                Seq::empty(),
                Seq::empty(),
            );
            &&& r@ == outcome.result
            &&& tokens_from(tokens.deep_view(), *final(idx) as int) == outcome.rest
        }),
    decreases tokens.len() - *old(idx),
{
    let ghost all = tokens.deep_view();
    let ghost start = *idx;
    proof {
        lemma_scan_level_rest(tokens_from(all, start as int), level as nat, Seq::empty(), Seq::empty());
    }
    let mut parts: Vec<PartParse> = Vec::new();
    let mut cur: Vec<Token> = Vec::new();
    assert(parts.deep_view() == Seq::<PartParseView>::empty());
    assert(cur.deep_view() == Seq::<TokenView>::empty());
    while *idx < tokens.len()
        invariant
            start == *old(idx),
            start <= *idx,
            all == tokens.deep_view(),
            parts_well_formed(parts.deep_view()),
            start > tokens.len() ==> *idx == start && parts.deep_view().len() == 0
                && cur.deep_view().len() == 0,
            start <= tokens.len() ==> {
                &&& *idx <= tokens.len()
                &&& level + (tokens.len() - *idx) <= usize::MAX
                &&& scan_level(all.skip(start as int), level as nat, Seq::empty(), Seq::empty())
                    == scan_level(
                    all.skip(*idx as int),
                    level as nat,
                    parts.deep_view(),
                    cur.deep_view(),
                )
            },
        decreases tokens.len() - *idx,
    {
        let ghost s = all.skip(*idx as int);
        let ghost cur_before = cur.deep_view();
        assert(s.skip(1) == all.skip(*idx + 1));
        match &tokens[*idx] {
            Token::LexError(e) => {
                return ParseResult::Error(e.clone());
            },
            Token::Pipe | Token::And | Token::Or | Token::Background | Token::Sequence => {
                if let Some(message) = flush(&mut cur, &mut parts) {
                    return ParseResult::Error(message);
                }
                let ghost flushed_parts = parts.deep_view();
                parts.push(PartParse::Sep(tokens[*idx].clone()));
                assert(parts.deep_view() == flushed_parts.push(PartParseView::Sep(s[0])));
                assert(cur.deep_view() == Seq::<TokenView>::empty());
            },
            Token::OpenSubshell => {
                if let Some(message) = flush(&mut cur, &mut parts) {
                    return ParseResult::Error(message);
                }
                let ghost flushed_parts = parts.deep_view();
                *idx += 1;
                match parse_tokens(tokens, level + 1, idx) {
                    ParseResult::Parsed(cl) => {
                        parts.push(PartParse::Subshell(cl));
                        assert(parts.deep_view() == flushed_parts.push(
                            PartParseView::Subshell(cl@),
                        ));
                        assert(cur.deep_view() == Seq::<TokenView>::empty());
                        assert(all.skip(*idx as int).skip(1) == all.skip(*idx + 1));
                    },
                    other => {
                        return other;
                    },
                }
            },
            Token::CloseSubshell => {
                if level == 0 {
                    return ParseResult::Error(String::from_str("Unexpected ')'."));
                }
                return finish_level(&mut cur, &mut parts);
            },
            Token::Continuation => {},
            t => {
                cur.push(t.clone());
                assert(cur.deep_view() == cur_before.push(s[0]));
            },
        }
        *idx += 1;
    }
    if level > 0 {
        return ParseResult::Error(String::from_str("Expected ')'"));
    }
    finish_level(&mut cur, &mut parts)
}

/// Parses a sequence of tokens into a command line. Where the result is
/// [`ParseResult::ContinuationRequired`], the caller is to get more tokens
/// and to parse these tokens again with the new ones behind them.
pub fn parse(tokens: &[Token]) -> (r: ParseResult)
    ensures
        r@ == parse_spec(tokens.deep_view()),
        r is ContinuationRequired <==> tokens.len() > 0 && tokens[tokens.len() - 1]
            is Continuation,
        tokens.len() > 0 ==> (r matches ParseResult::Parsed(line) ==> line@.inhabited()),
{
    proof {
        if tokens.len() > 0 {
            law_parsed_line_inhabited(tokens.deep_view());
        }
    }
    if tokens.len() == 0 {
        let line = CommandLine::Sequence(Vec::new());
        proof {
            line.lemma_view_children();
            assert(CommandLine::views(Seq::<CommandLine>::empty()) =~= Seq::<
                CommandLineView,
            >::empty());
        }
        return ParseResult::Parsed(line);
    }
    if matches!(tokens[tokens.len() - 1], Token::Continuation) {
        return ParseResult::ContinuationRequired;
    }
    let mut idx: usize = 0;
    assert(tokens.deep_view().skip(0) == tokens.deep_view());
    parse_tokens(tokens, 0, &mut idx)
}

} // verus!
