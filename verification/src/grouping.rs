//! How operators group the commands of a level: the first operator takes all
//! that stands before it.

use vstd::prelude::*;
use crate::ast::{CommandLineView, CommandView, ParseResultView, PartParseView};
use crate::grammar::{
    command_where_separator,
    finish,
    fold_parts,
    lemma_fold_failure_stays,
    lemma_fold_parts_push,
    separator_where_command,
    Fold,
};
use crate::invariants::{lemma_fold_runs_iff, may_follow, well_ordered};
use crate::token::TokenView;

verus! {

/// Whether a token is one of the four operators that take a command on both
/// sides: `|`, `&&`, `||` and `;`.
pub open spec fn is_binary(separator: TokenView) -> bool {
    separator is Pipe || separator is And || separator is Or || separator is Sequence
}

/// The node of a binary operator over `lines`.
pub open spec fn node(separator: TokenView, lines: Seq<CommandLineView>) -> CommandLineView
    recommends
        is_binary(separator),
{
    match separator {
        TokenView::Pipe => CommandLineView::Pipeline(lines),
        TokenView::And => CommandLineView::And(lines),
        TokenView::Or => CommandLineView::Or(lines),
        _ => CommandLineView::Sequence(lines),
    }
}

/// The fold over a command, an operator and a command.
proof fn lemma_fold_three(a: CommandView, first: TokenView, b: CommandView)
    requires
        is_binary(first),
    ensures
        fold_parts(
            seq![PartParseView::Cmd(a), PartParseView::Sep(first), PartParseView::Cmd(b)],
        ) == (Fold::Running {
            line: node(
                first,
                seq![CommandLineView::Singleton(a), CommandLineView::Singleton(b)],
            ),
            command_required: false,
            command_allowed: false,
        }),
{
    let p0 = Seq::<PartParseView>::empty();
    let p1 = p0.push(PartParseView::Cmd(a));
    let p2 = p1.push(PartParseView::Sep(first));
    let p3 = p2.push(PartParseView::Cmd(b));
    lemma_fold_parts_push(p0, PartParseView::Cmd(a));
    lemma_fold_parts_push(p1, PartParseView::Sep(first));
    lemma_fold_parts_push(p2, PartParseView::Cmd(b));
    assert(p3 == seq![PartParseView::Cmd(a), PartParseView::Sep(first), PartParseView::Cmd(b)]);
    assert(seq![CommandLineView::Singleton(a)].push(CommandLineView::Singleton(b)) == seq![
        CommandLineView::Singleton(a),
        CommandLineView::Singleton(b),
    ]);
}

/// Commands joined by one binary operator are the children of one node: the
/// operator does not nest.
pub proof fn law_same_operator_flattens(
    a: CommandView,
    b: CommandView,
    c: CommandView,
    separator: TokenView,
)
    requires
        is_binary(separator),
    ensures
        finish(
            seq![
                PartParseView::Cmd(a),
                PartParseView::Sep(separator),
                PartParseView::Cmd(b),
                PartParseView::Sep(separator),
                PartParseView::Cmd(c),
            ],
        ) == ParseResultView::Parsed(
            node(
                separator,
                seq![
                    CommandLineView::Singleton(a),
                    CommandLineView::Singleton(b),
                    CommandLineView::Singleton(c),
                ],
            ),
        ),
{
    let p3 = seq![PartParseView::Cmd(a), PartParseView::Sep(separator), PartParseView::Cmd(b)];
    let p4 = p3.push(PartParseView::Sep(separator));
    let p5 = p4.push(PartParseView::Cmd(c));
    lemma_fold_three(a, separator, b);
    lemma_fold_parts_push(p3, PartParseView::Sep(separator));
    lemma_fold_parts_push(p4, PartParseView::Cmd(c));
    assert(p5 == seq![
        PartParseView::Cmd(a),
        PartParseView::Sep(separator),
        PartParseView::Cmd(b),
        PartParseView::Sep(separator),
        PartParseView::Cmd(c),
    ]);
    assert(seq![CommandLineView::Singleton(a), CommandLineView::Singleton(b)].push(
        CommandLineView::Singleton(c),
    ) == seq![
        CommandLineView::Singleton(a),
        CommandLineView::Singleton(b),
        CommandLineView::Singleton(c),
    ]);
}

/// A second binary operator of another kind takes all that stands before it
/// as its first child, whatever the two operators are.
pub proof fn law_other_operator_wraps(
    a: CommandView,
    b: CommandView,
    c: CommandView,
    first: TokenView,
    second: TokenView,
)
    requires
        is_binary(first),
        is_binary(second),
        first != second,
    ensures
        finish(
            seq![
                PartParseView::Cmd(a),
                PartParseView::Sep(first),
                PartParseView::Cmd(b),
                PartParseView::Sep(second),
                PartParseView::Cmd(c),
            ],
        ) == ParseResultView::Parsed(
            node(
                second,
                seq![
                    node(first, seq![CommandLineView::Singleton(a), CommandLineView::Singleton(b)]),
                    CommandLineView::Singleton(c),
                ],
            ),
        ),
{
    let p3 = seq![PartParseView::Cmd(a), PartParseView::Sep(first), PartParseView::Cmd(b)];
    let p4 = p3.push(PartParseView::Sep(second));
    let p5 = p4.push(PartParseView::Cmd(c));
    let inner = node(first, seq![CommandLineView::Singleton(a), CommandLineView::Singleton(b)]);
    lemma_fold_three(a, first, b);
    lemma_fold_parts_push(p3, PartParseView::Sep(second));
    lemma_fold_parts_push(p4, PartParseView::Cmd(c));
    assert(p5 == seq![
        PartParseView::Cmd(a),
        PartParseView::Sep(first),
        PartParseView::Cmd(b),
        PartParseView::Sep(second),
        PartParseView::Cmd(c),
    ]);
    assert(seq![inner].push(CommandLineView::Singleton(c)) == seq![
        inner,
        CommandLineView::Singleton(c),
    ]);
}

/// A command behind `&` does not join the background node: the two form a
/// sequence.
pub proof fn law_background_then_command(a: CommandView, b: CommandView)
    ensures
        finish(
            seq![
                PartParseView::Cmd(a),
                PartParseView::Sep(TokenView::Background),
                PartParseView::Cmd(b),
            ],
        ) == ParseResultView::Parsed(
            CommandLineView::Sequence(
                seq![
                    CommandLineView::Background(Box::new(CommandLineView::Singleton(a))),
                    CommandLineView::Singleton(b),
                ],
            ),
        ),
        finish(seq![PartParseView::Cmd(a), PartParseView::Sep(TokenView::Background)])
            == ParseResultView::Parsed(
            CommandLineView::Background(Box::new(CommandLineView::Singleton(a))),
        ),
{
    let p0 = Seq::<PartParseView>::empty();
    let p1 = p0.push(PartParseView::Cmd(a));
    let p2 = p1.push(PartParseView::Sep(TokenView::Background));
    let p3 = p2.push(PartParseView::Cmd(b));
    lemma_fold_parts_push(p0, PartParseView::Cmd(a));
    lemma_fold_parts_push(p1, PartParseView::Sep(TokenView::Background));
    lemma_fold_parts_push(p2, PartParseView::Cmd(b));
    assert(p2 == seq![PartParseView::Cmd(a), PartParseView::Sep(TokenView::Background)]);
    assert(p3 == seq![
        PartParseView::Cmd(a),
        PartParseView::Sep(TokenView::Background),
        PartParseView::Cmd(b),
    ]);
}

/// The first part that may not follow the one before it decides the failure:
/// an operator is a separator where a command was expected, anything else a
/// command where a separator was expected.
pub proof fn law_first_misplaced_part_fails(parts: Seq<PartParseView>, i: int)
    requires
        0 < i < parts.len(),
        well_ordered(parts.take(i)),
        !may_follow(parts[i - 1], parts[i]),
    ensures
        finish(parts) == ParseResultView::Error(
            if parts[i] is Sep {
                separator_where_command()
            } else {
                command_where_separator()
            },
        ),
{
    let before = parts.take(i);
    lemma_fold_runs_iff(before);
    assert(parts.take(i + 1) == before.push(parts[i]));
    lemma_fold_parts_push(before, parts[i]);
    lemma_fold_failure_stays(parts, i + 1);
}

} // verus!
