//! Continuation: what a backslash at the end of a line means.
//!
//! A line that ends in a backslash is not finished. The caller reads a second
//! line and parses the tokens of both. This module states what that comes to:
//! a continuation token that is not the last one changes nothing, and parsing
//! the tokens of both lines is parsing the two lines written as one.

use vstd::prelude::*;
use crate::ast::PartParseView;
use crate::grammar::{flushed, lemma_scan_level_rest, parse_spec, scan_level};
use crate::text::is_whitespace;
use crate::token::{Channel, TokenView};
use crate::scan::{
    double_quoted_run,
    lemma_scan_word_bound,
    lemma_tokens_of_first,
    lemma_whitespace_len_bound,
    scan_bare_token,
    scan_double_quoted,
    scan_redirect,
    scan_single_quoted,
    scan_two,
    scan_word,
    separator_ahead,
    single_quote_index,
    tokenize_spec,
    whitespace_len,
};

verus! {

/// Whether a token is anything but a continuation.
pub open spec fn is_kept() -> spec_fn(TokenView) -> bool {
    |t: TokenView| !(t is Continuation)
}

/// The tokens of `tokens` that are no continuation, in order.
pub open spec fn without_continuations(tokens: Seq<TokenView>) -> Seq<TokenView> {
    tokens.filter(is_kept())
}

/// `without_continuations`, read from the front.
pub proof fn lemma_without_continuations_front(s: Seq<TokenView>)
    requires
        s.len() > 0,
    ensures
        without_continuations(s) == if s[0] is Continuation {
            without_continuations(s.skip(1))
        } else {
            seq![s[0]] + without_continuations(s.skip(1))
        },
{
    assert(s == seq![s[0]] + s.skip(1));
    s.skip(1).lemma_filter_prepend(s[0], is_kept());
}

/// The scan of a level does not see continuation tokens: without them it
/// yields the same result and stops at the same token.
pub proof fn lemma_scan_level_without_continuations(
    s: Seq<TokenView>,
    level: nat,
    parts: Seq<PartParseView>,
    pending: Seq<TokenView>,
)
    ensures
        ({
            let outcome = scan_level(s, level, parts, pending);
            let stripped = scan_level(without_continuations(s), level, parts, pending);
            &&& stripped.result == outcome.result
            &&& stripped.rest == without_continuations(outcome.rest)
        }),
    decreases s.len(),
{
    let w = without_continuations(s);
    if s.len() == 0 {
        assert(w.len() == 0) by {
            s.lemma_filter_len(is_kept());
        }
    } else {
        lemma_without_continuations_front(s);
        let tail = s.skip(1);
        let wtail = without_continuations(tail);
        if !(s[0] is Continuation) {
            assert(w.skip(1) == wtail);
        }
        match s[0] {
            TokenView::LexError(_) => {},
            TokenView::CloseSubshell => {},
            TokenView::Continuation => {
                lemma_scan_level_without_continuations(tail, level, parts, pending);
            },
            TokenView::OpenSubshell => {
                if let Ok(all) = flushed(parts, pending) {
                    let inner = scan_level(tail, level + 1, Seq::empty(), Seq::empty());
                    let winner = scan_level(wtail, level + 1, Seq::empty(), Seq::empty());
                    lemma_scan_level_without_continuations(
                        tail,
                        level + 1,
                        Seq::empty(),
                        Seq::empty(),
                    );
                    lemma_scan_level_rest(tail, level + 1, Seq::empty(), Seq::empty());
                    lemma_scan_level_rest(wtail, level + 1, Seq::empty(), Seq::empty());
                    if inner.result is Parsed {
                        lemma_without_continuations_front(inner.rest);
                        assert(winner.rest.skip(1) == without_continuations(inner.rest.skip(1)));
                        lemma_scan_level_without_continuations(
                            inner.rest.skip(1),
                            level,
                            all.push(PartParseView::Subshell(inner.result->Parsed_0)),
                            Seq::empty(),
                        );
                    }
                }
            },
            t => {
                if t.is_separator() {
                    if let Ok(all) = flushed(parts, pending) {
                        lemma_scan_level_without_continuations(
                            tail,
                            level,
                            all.push(PartParseView::Sep(t)),
                            Seq::empty(),
                        );
                    }
                } else {
                    lemma_scan_level_without_continuations(tail, level, parts, pending.push(t));
                }
            },
        }
    }
}

/// Continuation tokens that are not the last token have no effect: tokens
/// that do not end in a continuation parse as they do without any.
pub proof fn law_stray_continuations_ignored(tokens: Seq<TokenView>)
    requires
        tokens.len() == 0 || !(tokens.last() is Continuation),
    ensures
        parse_spec(without_continuations(tokens)) == parse_spec(tokens),
{
    let w = without_continuations(tokens);
    if tokens.len() == 0 {
        assert(w.len() == 0) by {
            tokens.lemma_filter_len(is_kept());
        }
    } else {
        lemma_scan_level_without_continuations(tokens, 0, Seq::empty(), Seq::empty());
        lemma_without_continuations_last(tokens);
    }
}

/// What the last token is where it is no continuation, it still is without
/// the continuations before it.
pub proof fn lemma_without_continuations_last(tokens: Seq<TokenView>)
    requires
        tokens.len() > 0,
        !(tokens.last() is Continuation),
    ensures
        without_continuations(tokens).len() > 0,
        without_continuations(tokens).last() == tokens.last(),
{
    reveal(Seq::filter);
}

/// A parse asks for a continuation exactly where the last token is one.
pub proof fn law_continuation_required_iff(tokens: Seq<TokenView>)
    ensures
        parse_spec(tokens) is ContinuationRequired <==> tokens.len() > 0 && tokens.last()
            is Continuation,
{
    lemma_scan_level_rest(tokens, 0, Seq::empty(), Seq::empty());
}

/// One continuation token between other tokens has no effect.
pub proof fn law_continuation_between_ignored(before: Seq<TokenView>, after: Seq<TokenView>)
    requires
        after.len() > 0,
    ensures
        parse_spec(before + seq![TokenView::Continuation] + after) == parse_spec(before + after),
{
    let with = before + seq![TokenView::Continuation] + after;
    let without = before + after;
    if !(after.last() is Continuation) {
        law_stray_continuations_ignored(with);
        law_stray_continuations_ignored(without);
        Seq::filter_distributes_over_add(before + seq![TokenView::Continuation], after, is_kept());
        Seq::filter_distributes_over_add(before, seq![TokenView::Continuation], is_kept());
        Seq::filter_distributes_over_add(before, after, is_kept());
        assert(seq![TokenView::Continuation].filter(is_kept()) == Seq::<TokenView>::empty()) by {
            reveal_with_fuel(Seq::filter, 2);
        }
    }
}

/// A first line: `first` and the backslash that ends it.
pub open spec fn continued(first: Seq<char>) -> Seq<char> {
    first.push('\\')
}

/// Two lines written as one: `first`, a space, `second`.
pub open spec fn joined(first: Seq<char>, second: Seq<char>) -> Seq<char> {
    first.push(' ') + second
}

/// Whether no token of `tokens` is a lexical error.
pub open spec fn no_lex_error(tokens: Seq<TokenView>) -> bool {
    forall|i: int| 0 <= i < tokens.len() ==> !((#[trigger] tokens[i]) is LexError)
}

/// Dropping characters of the first line commutes with ending it and with
/// joining it to the second.
proof fn lemma_skip_within(q: Seq<char>, second: Seq<char>, k: int)
    requires
        0 <= k <= q.len(),
    ensures
        continued(q).skip(k) == continued(q.skip(k)),
        joined(q, second).skip(k) == joined(q.skip(k), second),
{
    assert(joined(q, second).skip(k) =~= joined(q.skip(k), second));
}

/// Whitespace at the front of a first line ends before its backslash. In
/// the joined line it ends at the same place, or runs on into the second line
/// where the first is whitespace only.
proof fn lemma_whitespace_len_within(q: Seq<char>, second: Seq<char>)
    ensures
        whitespace_len(continued(q)) == whitespace_len(q),
        whitespace_len(q) <= q.len(),
        whitespace_len(joined(q, second)) == if whitespace_len(q) < q.len() {
            whitespace_len(q)
        } else {
            q.len() + 1 + whitespace_len(second)
        },
    decreases q.len(),
{
    if q.len() == 0 {
        assert(joined(q, second).skip(1) =~= second);
    } else {
        lemma_skip_within(q, second, 1);
        lemma_whitespace_len_within(q.skip(1), second);
    }
}

/// A first line and the joined line begin with a separator together; the
/// lone backslash is one.
proof fn lemma_separator_ahead_within(q: Seq<char>, second: Seq<char>)
    ensures
        separator_ahead(continued(q)) == separator_ahead(joined(q, second)),
        q.len() == 0 ==> separator_ahead(continued(q)),
{
}

/// A `'` that the first line holds is found at the same place in the
/// joined line; without one, the search runs past the backslash.
proof fn lemma_single_quote_index_within(q: Seq<char>, second: Seq<char>)
    ensures
        single_quote_index(q) <= q.len(),
        single_quote_index(q) < q.len() ==> single_quote_index(continued(q)) == single_quote_index(
            q,
        ) && single_quote_index(joined(q, second)) == single_quote_index(q),
        single_quote_index(q) == q.len() ==> single_quote_index(continued(q)) == q.len() + 1,
    decreases q.len(),
{
    if q.len() == 0 {
        assert(single_quote_index(continued(q).skip(1)) == 0);
    } else {
        lemma_skip_within(q, second, 1);
        lemma_single_quote_index_within(q.skip(1), second);
    }
}

/// A single-quoted run that is closed in the first line is the same run in
/// the joined line.
proof fn lemma_scan_single_quoted_within(q: Seq<char>, second: Seq<char>)
    requires
        q.len() > 0,
        scan_single_quoted(continued(q)).t is Word,
    ensures
        scan_single_quoted(joined(q, second)) == scan_single_quoted(continued(q)),
        2 <= scan_single_quoted(continued(q)).offset <= q.len(),
{
    lemma_skip_within(q, second, 1);
    lemma_single_quote_index_within(q.skip(1), second);
    let n = single_quote_index(q.skip(1));
    assert(continued(q).subrange(1, n as int + 1) =~= joined(q, second).subrange(1, n as int + 1));
}

/// A double-quoted run that is closed in the first line is closed before
/// its backslash, and is the same run in the joined line.
proof fn lemma_double_quoted_run_within(q: Seq<char>, second: Seq<char>)
    requires
        double_quoted_run(continued(q)).closed,
    ensures
        double_quoted_run(joined(q, second)) == double_quoted_run(continued(q)),
        double_quoted_run(continued(q)).len < q.len(),
    decreases q.len(),
{
    if q.len() == 0 {
        assert(!double_quoted_run(continued(q).skip(1)).closed);
    } else if q[0] == '"' {
    } else if q[0] == '\\' {
        if q.len() == 1 {
            assert(!double_quoted_run(continued(q).skip(2)).closed);
        } else {
            lemma_skip_within(q, second, 2);
            lemma_double_quoted_run_within(q.skip(2), second);
        }
    } else {
        lemma_skip_within(q, second, 1);
        lemma_double_quoted_run_within(q.skip(1), second);
    }
}

/// A double-quoted run that is closed in the first line is the same run in
/// the joined line.
proof fn lemma_scan_double_quoted_within(q: Seq<char>, second: Seq<char>)
    requires
        q.len() > 0,
        scan_double_quoted(continued(q)).t is Word,
    ensures
        scan_double_quoted(joined(q, second)) == scan_double_quoted(continued(q)),
        2 <= scan_double_quoted(continued(q)).offset <= q.len(),
{
    lemma_skip_within(q, second, 1);
    lemma_double_quoted_run_within(q.skip(1), second);
}

/// A word that ends before the closing backslash of a first line is the same
/// word where a space and a second line follow instead.
proof fn lemma_scan_word_within(q: Seq<char>, second: Seq<char>)
    requires
        scan_word(continued(q)).t is Word,
    ensures
        scan_word(joined(q, second)) == scan_word(continued(q)),
        scan_word(continued(q)).offset <= q.len(),
    decreases q.len(),
{
    let c = continued(q);
    lemma_separator_ahead_within(q, second);
    if q.len() == 0 || separator_ahead(c) {
    } else if q[0] == '"' {
        let quoted = scan_double_quoted(c);
        lemma_scan_double_quoted_within(q, second);
        let k = quoted.offset as int;
        lemma_skip_within(q, second, k);
        lemma_scan_word_within(q.skip(k), second);
    } else if q[0] == '\'' {
        let quoted = scan_single_quoted(c);
        lemma_scan_single_quoted_within(q, second);
        let k = quoted.offset as int;
        lemma_skip_within(q, second, k);
        lemma_scan_word_within(q.skip(k), second);
    } else {
        lemma_skip_within(q, second, 1);
        lemma_scan_word_within(q.skip(1), second);
    }
}

/// A redirection of the first line that names its file is the same
/// redirection in the joined line.
proof fn lemma_scan_redirect_within(q: Seq<char>, second: Seq<char>, lead: nat, channel: Channel)
    requires
        0 < lead <= q.len(),
        !(scan_redirect(continued(q), lead, channel).t is LexError),
    ensures
        scan_redirect(joined(q, second), lead, channel) == scan_redirect(
            continued(q),
            lead,
            channel,
        ),
        scan_redirect(continued(q), lead, channel).offset <= q.len(),
{
    let target = q.skip(lead as int);
    lemma_skip_within(q, second, lead as int);
    lemma_whitespace_len_within(target, second);
    let ws = whitespace_len(target);
    lemma_skip_within(q, second, (lead + ws) as int);
    lemma_separator_ahead_within(q.skip((lead + ws) as int), second);
    lemma_scan_word_bound(continued(q.skip((lead + ws) as int)));
    if ws < target.len() {
        lemma_scan_word_within(q.skip((lead + ws) as int), second);
    }
}

/// What begins with `2` in the first line and is no lexical error is the
/// same token in the joined line.
proof fn lemma_scan_two_within(q: Seq<char>, second: Seq<char>)
    requires
        q.len() > 0,
        q[0] == '2',
        !(scan_two(continued(q)).t is LexError),
    ensures
        scan_two(joined(q, second)) == scan_two(continued(q)),
        0 < scan_two(continued(q)).offset <= q.len(),
{
    let c = continued(q);
    lemma_scan_word_bound(c);
    if q.len() >= 4 {
        lemma_skip_within(q, second, 4);
        lemma_separator_ahead_within(q.skip(4), second);
    }
    if c.len() > 3 && c[1] == '>' && c[2] == '&' && c[3] == '1' && (c.len() == 4
        || separator_ahead(c.skip(4))) {
    } else if c.len() > 1 && c[1] == '>' {
        if q.len() == 1 {
        } else {
            if q.len() == 2 {
                lemma_skip_within(q, second, 2);
            } else if q.len() == 3 && q[2] == '&' {
                lemma_skip_within(q, second, 2);
            }
            lemma_scan_redirect_within(q, second, 2, Channel::Error);
        }
    } else {
        lemma_scan_word_within(q, second);
    }
}

/// A token that begins in a first line and is no lexical error ends before
/// the closing backslash, and is the same token where a space and a second
/// line follow instead.
proof fn lemma_scan_bare_token_within(q: Seq<char>, second: Seq<char>)
    requires
        q.len() > 0,
        !is_whitespace(q[0]),
        !(scan_bare_token(continued(q)).t is LexError),
    ensures
        scan_bare_token(joined(q, second)) == scan_bare_token(continued(q)),
        0 < scan_bare_token(continued(q)).offset <= q.len(),
{
    let c = continued(q);
    let ch = q[0];
    lemma_scan_word_bound(c);
    if ch == '|' || ch == '&' || ch == ';' || ch == '(' || ch == ')' {
    } else if ch == '>' {
        lemma_scan_redirect_within(q, second, 1, Channel::Output);
    } else if ch == '<' {
        lemma_scan_redirect_within(q, second, 1, Channel::Input);
    } else if ch == '2' {
        lemma_scan_two_within(q, second);
    } else {
        lemma_scan_word_within(q, second);
    }
}

/// `tokenize_spec` under a name that proofs can keep folded.
#[verifier::opaque]
spec fn tokens(text: Seq<char>) -> Seq<TokenView> {
    tokenize_spec(text)
}

/// A first line of whitespace alone holds the continuation and nothing else,
/// and adds nothing to the second line.
proof fn lemma_tokens_of_blank_line(first: Seq<char>, second: Seq<char>)
    requires
        whitespace_len(first) == first.len(),
    ensures
        tokens(continued(first)) == seq![TokenView::Continuation],
        tokens(joined(first, second)) == tokens(second),
{
    reveal(tokens);
    let n = first.len() as int;
    lemma_whitespace_len_within(first, second);
    lemma_skip_within(first, second, n);
    lemma_whitespace_len_bound(second);
    let last = continued(first.skip(n));
    lemma_tokens_of_first(last);
    assert(joined(first, second).skip(n + 1 + whitespace_len(second)) == second.skip(
        whitespace_len(second) as int,
    ));
}

/// The first token of a first line that is no lexical error is also the
/// first token of the two lines written as one, and what stands behind it in
/// the first line is a shorter first line. Returns what stands behind it.
proof fn lemma_tokens_of_first_line(first: Seq<char>, second: Seq<char>) -> (behind: Seq<char>)
    requires
        whitespace_len(first) < first.len(),
        tokens(continued(first)).len() > 0 ==> !(tokens(continued(first))[0] is LexError),
    ensures
        behind.len() < first.len(),
        tokens(continued(first)).len() > 0,
        tokens(continued(first)) == seq![tokens(continued(first))[0]] + tokens(continued(behind)),
        tokens(joined(first, second)) == seq![tokens(continued(first))[0]] + tokens(
            joined(behind, second),
        ),
{
    reveal(tokens);
    let n = whitespace_len(first) as int;
    lemma_whitespace_len_within(first, second);
    lemma_whitespace_len_bound(first);
    lemma_skip_within(first, second, n);
    let q = first.skip(n);
    lemma_tokens_of_first(continued(q));
    lemma_tokens_of_first(joined(q, second));
    lemma_scan_bare_token_within(q, second);
    let m = scan_bare_token(continued(q)).offset as int;
    lemma_skip_within(q, second, m);
    q.skip(m)
}

/// The tokens of a first line without lexical errors end in a continuation.
/// The tokens before it, followed by the tokens of a second line, are the
/// tokens of the two lines written as one.
proof fn lemma_tokens_joined(first: Seq<char>, second: Seq<char>)
    requires
        no_lex_error(tokens(continued(first))),
    ensures
        tokens(continued(first)).len() > 0,
        tokens(continued(first)).last() is Continuation,
        tokens(joined(first, second)) == tokens(continued(first)).drop_last() + tokens(second),
    decreases first.len(),
{
    lemma_whitespace_len_bound(first);
    let all = tokens(continued(first));
    if whitespace_len(first) == first.len() {
        lemma_tokens_of_blank_line(first, second);
    } else {
        let behind = lemma_tokens_of_first_line(first, second);
        let tail = tokens(continued(behind));
        assert(no_lex_error(tail)) by {
            assert forall|i: int| 0 <= i < tail.len() implies !((#[trigger] tail[i]) is LexError) by {
                assert(all[i + 1] == tail[i]);
            }
        }
        lemma_tokens_joined(behind, second);
    }
}

/// The tokens of a first line without lexical errors end in a continuation.
/// The tokens before it, followed by the tokens of a second line, are the
/// tokens of the two lines written as one.
pub proof fn lemma_tokenize_joined(first: Seq<char>, second: Seq<char>)
    requires
        no_lex_error(tokenize_spec(continued(first))),
    ensures
        tokenize_spec(continued(first)).len() > 0,
        tokenize_spec(continued(first)).last() is Continuation,
        tokenize_spec(joined(first, second)) == tokenize_spec(continued(first)).drop_last()
            + tokenize_spec(second),
{
    reveal(tokens);
    lemma_tokens_joined(first, second);
}

/// Parsing the tokens of a first line that ends in a backslash, followed by
/// the tokens of a second line, is parsing the single line made of the first
/// line without that backslash, a space, and the second line. The first line
/// holds no lexical error and the second holds a token.
pub proof fn law_continued_lines_parse_as_joined(first: Seq<char>, second: Seq<char>)
    requires
        no_lex_error(tokenize_spec(continued(first))),
        tokenize_spec(second).len() > 0,
    ensures
        parse_spec(tokenize_spec(continued(first)) + tokenize_spec(second)) == parse_spec(
            tokenize_spec(joined(first, second)),
        ),
{
    lemma_tokenize_joined(first, second);
    let a = tokenize_spec(continued(first));
    let b = tokenize_spec(second);
    assert(a == a.drop_last() + seq![TokenView::Continuation]);
    law_continuation_between_ignored(a.drop_last(), b);
}

} // verus!
