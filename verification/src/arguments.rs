//! Parsing keeps every word: the arguments of the commands of a parsed tree,
//! read from left to right, are the words of the tokens.

use vstd::prelude::*;
use either::Either;
use crate::ast::{CommandLineView, ParseResultView, PartParseView};
use crate::grammar::{
    appended,
    assemble,
    flushed,
    fold_parts,
    lemma_fold_parts_push,
    lemma_scan_level_rest,
    line_of,
    parse_spec,
    parts_well_formed,
    scan_level,
    wrapped,
    Fold,
};
use crate::invariants::{law_assemble_succeeds_iff, lemma_fold_runs_iff, words};
use crate::token::TokenView;

verus! {

/// The arguments of all commands of a tree, from left to right.
pub open spec fn all_args(line: CommandLineView) -> Seq<Seq<char>>
    decreases line, 0nat,
{
    match line {
        CommandLineView::Singleton(command) => command.args,
        CommandLineView::Pipeline(lines) => args_of_first(lines, lines.len()),
        CommandLineView::Sequence(lines) => args_of_first(lines, lines.len()),
        CommandLineView::Background(inner) => all_args(*inner),
        CommandLineView::And(lines) => args_of_first(lines, lines.len()),
        CommandLineView::Or(lines) => args_of_first(lines, lines.len()),
    }
}

/// The arguments of all commands of the first `n` trees of `lines`.
pub open spec fn args_of_first(lines: Seq<CommandLineView>, n: nat) -> Seq<Seq<char>>
    decreases lines, n,
{
    if n == 0 || n > lines.len() {
        Seq::empty()
    } else {
        args_of_first(lines, (n - 1) as nat) + all_args(lines[n - 1])
    }
}

/// The arguments that a part holds: those of its command or of its subshell.
pub open spec fn part_args(part: PartParseView) -> Seq<Seq<char>> {
    match part {
        PartParseView::Cmd(command) => command.args,
        PartParseView::Subshell(line) => all_args(line),
        PartParseView::Sep(_) => Seq::empty(),
    }
}

/// The arguments that the parts hold, from left to right.
pub open spec fn parts_args(parts: Seq<PartParseView>) -> Seq<Seq<char>>
    decreases parts.len(),
{
    if parts.len() == 0 {
        Seq::empty()
    } else {
        parts_args(parts.drop_last()) + part_args(parts.last())
    }
}

/// The words of two runs of tokens are the words of the first, then those
/// of the second.
pub proof fn lemma_words_add(a: Seq<TokenView>, b: Seq<TokenView>)
    ensures
        words(a + b) == words(a) + words(b),
    decreases b.len(),
{
    if b.len() == 0 {
        assert(a + b == a);
    } else {
        assert((a + b).drop_last() == a + b.drop_last());
        lemma_words_add(a, b.drop_last());
    }
}

/// The words of one token.
pub proof fn lemma_words_one(t: TokenView)
    ensures
        words(seq![t]) == if let TokenView::Word(text) = t {
            seq![text]
        } else {
            Seq::<Seq<char>>::empty()
        },
{
    assert(words(seq![t].drop_last()) == Seq::<Seq<char>>::empty());
}

/// The arguments of the first trees of a sequence do not depend on the
/// later ones.
proof fn lemma_args_of_first_prefix(
    lines: Seq<CommandLineView>,
    longer: Seq<CommandLineView>,
    n: nat,
)
    requires
        n <= lines.len() <= longer.len(),
        forall|i: int| 0 <= i < lines.len() ==> lines[i] == longer[i],
    ensures
        args_of_first(longer, n) == args_of_first(lines, n),
    decreases n,
{
    if n > 0 {
        lemma_args_of_first_prefix(lines, longer, (n - 1) as nat);
    }
}

/// One more tree adds its arguments behind those of the others.
proof fn lemma_args_of_last(lines: Seq<CommandLineView>, child: CommandLineView)
    ensures
        args_of_first(lines.push(child), lines.len() + 1) == args_of_first(lines, lines.len())
            + all_args(child),
{
    let longer = lines.push(child);
    lemma_args_of_first_prefix(lines, longer, lines.len());
}

/// An operator leaves the arguments of the running tree as they are.
proof fn lemma_wrapped_args(line: CommandLineView, separator: TokenView)
    ensures
        all_args(wrapped(line, separator)) == all_args(line),
{
    let one = seq![line];
    assert(args_of_first(one, 1) == args_of_first(one, 0) + all_args(one[0]));
}

/// A further child adds its arguments behind those of the running tree.
proof fn lemma_appended_args(line: CommandLineView, child: CommandLineView)
    requires
        !(line is Singleton),
    ensures
        all_args(appended(line, child)) == all_args(line) + all_args(child),
{
    match line {
        CommandLineView::Background(_) => {
            let two = seq![line, child];
            assert(args_of_first(two, 2) == args_of_first(two, 1) + all_args(two[1]));
            assert(args_of_first(two, 0) == Seq::<Seq<char>>::empty());
        },
        CommandLineView::Pipeline(lines) => {
            lemma_args_of_last(lines, child);
        },
        CommandLineView::Sequence(lines) => {
            lemma_args_of_last(lines, child);
        },
        CommandLineView::And(lines) => {
            lemma_args_of_last(lines, child);
        },
        CommandLineView::Or(lines) => {
            lemma_args_of_last(lines, child);
        },
        CommandLineView::Singleton(_) => {},
    }
}

/// The tree of a fold holds the arguments of its parts, and it is no single
/// command where a command may follow.
proof fn lemma_fold_parts_args(parts: Seq<PartParseView>)
    requires
        parts_well_formed(parts),
    ensures
        fold_parts(parts) matches Fold::Running { line, command_allowed, .. } ==> {
            &&& all_args(line) == parts_args(parts)
            &&& command_allowed ==> !(line is Singleton)
        },
    decreases parts.len(),
{
    if parts.len() > 0 {
        let before = parts.drop_last();
        let part = parts.last();
        lemma_fold_parts_push(before, part);
        lemma_fold_parts_args(before);
        match fold_parts(before) {
            Fold::Start => {
                lemma_fold_runs_iff(before);
                assert(parts_args(before) == Seq::<Seq<char>>::empty());
                if !(part is Sep) {
                    assert(all_args(line_of(part)) == part_args(part));
                }
            },
            Fold::Running { line, command_required, command_allowed } => {
                if let PartParseView::Sep(separator) = part {
                    lemma_wrapped_args(line, separator);
                } else if command_allowed {
                    lemma_appended_args(line, line_of(part));
                }
            },
            _ => {},
        }
    }
}

/// Flushing adds the words of the pending tokens as the arguments of one
/// more command.
proof fn lemma_flushed_args(parts: Seq<PartParseView>, pending: Seq<TokenView>)
    requires
        parts_well_formed(parts),
    ensures
        flushed(parts, pending) matches Ok(all) ==> parts_well_formed(all) && parts_args(all)
            == parts_args(parts) + words(pending),
{
    if pending.len() > 0 {
        law_assemble_succeeds_iff(pending);
        if let Either::Left(command) = assemble(pending) {
            let all = parts.push(PartParseView::Cmd(command));
            assert(all.drop_last() == parts);
        }
    }
}

/// The tree of a level holds the arguments of the parts before it, the words
/// that were pending, and the words of the tokens that the scan has read.
proof fn lemma_scan_level_args(
    s: Seq<TokenView>,
    level: nat,
    parts: Seq<PartParseView>,
    pending: Seq<TokenView>,
)
    requires
        parts_well_formed(parts),
    ensures
        ({
            let outcome = scan_level(s, level, parts, pending);
            outcome.result matches ParseResultView::Parsed(line) ==> all_args(line) == parts_args(
                parts,
            ) + words(pending) + words(s.take(s.len() - outcome.rest.len()))
        }),
    decreases s.len(),
{
    let outcome = scan_level(s, level, parts, pending);
    let read = s.take(s.len() - outcome.rest.len());
    lemma_scan_level_rest(s, level, parts, pending);
    lemma_flushed_args(parts, pending);
    if outcome.result is Parsed {
        if s.len() == 0 || s[0] is CloseSubshell {
            let all = flushed(parts, pending)->Ok_0;
            lemma_fold_parts_args(all);
        } else {
            let t = s[0];
            let tail = s.skip(1);
            lemma_words_one(t);
            if t is Continuation {
                lemma_scan_level_rest(tail, level, parts, pending);
                lemma_scan_level_args(tail, level, parts, pending);
                let tail_read = tail.take(tail.len() - outcome.rest.len());
                assert(read == seq![t] + tail_read);
                lemma_words_add(seq![t], tail_read);
            } else if t is OpenSubshell {
                let all = flushed(parts, pending)->Ok_0;
                let inner = scan_level(tail, level + 1, Seq::empty(), Seq::empty());
                lemma_scan_level_rest(tail, level + 1, Seq::empty(), Seq::empty());
                lemma_scan_level_args(tail, level + 1, Seq::empty(), Seq::empty());
                let inner_read = tail.take(tail.len() - inner.rest.len());
                let next = all.push(PartParseView::Subshell(inner.result->Parsed_0));
                assert(next.drop_last() == all);
                let after = inner.rest.skip(1);
                lemma_scan_level_rest(after, level, next, Seq::empty());
                lemma_scan_level_args(after, level, next, Seq::empty());
                let after_read = after.take(after.len() - outcome.rest.len());
                lemma_words_one(inner.rest[0]);
                assert(read == seq![t] + inner_read + seq![inner.rest[0]] + after_read);
                lemma_words_add(seq![t] + inner_read + seq![inner.rest[0]], after_read);
                lemma_words_add(seq![t] + inner_read, seq![inner.rest[0]]);
                lemma_words_add(seq![t], inner_read);
            } else if t.is_separator() {
                let all = flushed(parts, pending)->Ok_0;
                let next = all.push(PartParseView::Sep(t));
                assert(next.drop_last() == all);
                lemma_scan_level_rest(tail, level, next, Seq::empty());
                lemma_scan_level_args(tail, level, next, Seq::empty());
                let tail_read = tail.take(tail.len() - outcome.rest.len());
                assert(read == seq![t] + tail_read);
                lemma_words_add(seq![t], tail_read);
            } else {
                lemma_scan_level_rest(tail, level, parts, pending.push(t));
                lemma_scan_level_args(tail, level, parts, pending.push(t));
                let tail_read = tail.take(tail.len() - outcome.rest.len());
                assert(read == seq![t] + tail_read);
                lemma_words_add(seq![t], tail_read);
                assert(pending.push(t) == pending + seq![t]);
                lemma_words_add(pending, seq![t]);
            }
        }
    }
}

/// The arguments of the commands of a parsed tree, from left to right, are
/// the words of the tokens, in order.
pub proof fn law_parse_keeps_words(tokens: Seq<TokenView>)
    ensures
        parse_spec(tokens) matches ParseResultView::Parsed(line) ==> all_args(line) == words(
            tokens,
        ),
{
    let none = Seq::<Seq<char>>::empty();
    if tokens.len() > 0 {
        lemma_scan_level_rest(tokens, 0, Seq::empty(), Seq::empty());
        lemma_scan_level_args(tokens, 0, Seq::empty(), Seq::empty());
        assert(tokens.take(tokens.len() as int) == tokens);
    } else {
        assert(args_of_first(Seq::empty(), 0) == none);
    }
}

} // verus!
