//! The tokenizer: from raw text to a sequence of [`Token`]s.
//!
//! The functions work on a slice of characters and an offset into it. Each
//! one is tied to the scanner of [`crate::scan`] that reads the input from
//! that offset on, through [`ConsumptionView::shifted`].

use vstd::prelude::*;
use vstd::string::StringExecFns;
use crate::scan::{
    continuation_only_last,
    double_quoted_run,
    error_only_last,
    escaped,
    law_continuation_only_last,
    law_lex_error_only_last,
    lemma_prepended_twice,
    lemma_scan_bare_token_bound,
    lemma_scan_token_bound,
    scan_ampersand,
    scan_bare_token,
    scan_double_quoted,
    scan_pipechar,
    scan_redirect,
    scan_single_quoted,
    scan_token,
    scan_two,
    scan_whitespace,
    scan_word,
    separator_ahead,
    single_quote_index,
    tokenize_spec,
    tokens_of,
    whitespace_len,
    ConsumptionView,
};
use crate::text::{char_is_whitespace, chars_of, string_of};
use crate::token::{Channel, Token, TokenView};

verus! {

/// A token together with the offset at which scanning goes on.
#[derive(Debug, PartialEq, Eq)]
pub struct Consumption {
    pub t: Token,
    pub offset: usize,
}

impl View for Consumption {
    type V = ConsumptionView;

    open spec fn view(&self) -> ConsumptionView {
        ConsumptionView { t: self.t@, offset: self.offset as nat }
    }
}

/// The word `c[offset..end]`, with `end` as the offset to go on from.
pub fn make_string_consumption(c: &[char], offset: usize, end: usize) -> (r: Consumption)
    requires
        offset <= end <= c.len(),
    ensures
        r@ == (ConsumptionView {
            t: TokenView::Word(c@.subrange(offset as int, end as int)),
            offset: end as nat,
        }),
{
    Consumption { t: Token::Word(string_of(c, offset, end)), offset: end }
}

/// Whether the character at `offset` ends a word.
pub fn is_token_separator(c: &[char], offset: usize) -> (b: bool)
    requires
        offset < c.len(),
    ensures
        b == separator_ahead(c@.skip(offset as int)),
{
    let ch = c[offset];
    if char_is_whitespace(ch) {
        true
    } else {
        match ch {
            '<' | '>' | ';' | '&' | '|' | '(' | ')' => true,
            '\\' => offset + 1 == c.len(),
            _ => false,
        }
    }
}

/// Takes the whitespace that begins at `offset`.
pub fn consume_whitespace(c: &[char], offset: usize) -> (r: Consumption)
    requires
        offset <= c.len(),
    ensures
        r@ == scan_whitespace(c@.skip(offset as int)).shifted(offset as nat),
        r.offset <= c.len(),
{
    let mut end = offset;
    while end < c.len() && char_is_whitespace(c[end])
        invariant
            offset <= end <= c.len(),
            whitespace_len(c@.skip(offset as int)) == (end - offset) + whitespace_len(
                c@.skip(end as int),
            ),
        decreases c.len() - end,
    {
        assert(c@.skip(end as int).skip(1) == c@.skip(end + 1));
        end += 1;
    }
    assert(c@.skip(offset as int).take(end - offset) == c@.subrange(offset as int, end as int));
    make_string_consumption(c, offset, end)
}

/// Takes `||`.
pub fn consume_or(c: &[char], offset: usize) -> (r: Consumption)
    requires
        offset + 2 <= c.len(),
        c@[offset as int] == '|',
        c@[offset + 1] == '|',
    ensures
        r@ == (ConsumptionView { t: TokenView::Or, offset: (offset + 2) as nat }),
{
    Consumption { t: Token::Or, offset: offset + 2 }
}

/// Takes `|`.
pub fn consume_pipe(c: &[char], offset: usize) -> (r: Consumption)
    requires
        offset < c.len(),
        c@[offset as int] == '|',
    ensures
        r@ == (ConsumptionView { t: TokenView::Pipe, offset: (offset + 1) as nat }),
{
    Consumption { t: Token::Pipe, offset: offset + 1 }
}

/// Takes the operator that begins with the `|` at `offset`.
pub fn consume_pipechar(c: &[char], offset: usize) -> (r: Consumption)
    requires
        offset < c.len(),
        c@[offset as int] == '|',
    ensures
        r@ == scan_pipechar(c@.skip(offset as int)).shifted(offset as nat),
{
    if offset + 1 < c.len() && c[offset + 1] == '|' {
        consume_or(c, offset)
    } else {
        consume_pipe(c, offset)
    }
}

/// Takes `&&`.
pub fn consume_and(c: &[char], offset: usize) -> (r: Consumption)
    requires
        offset + 2 <= c.len(),
        c@[offset as int] == '&',
        c@[offset + 1] == '&',
    ensures
        r@ == (ConsumptionView { t: TokenView::And, offset: (offset + 2) as nat }),
{
    Consumption { t: Token::And, offset: offset + 2 }
}

/// Takes `&`.
pub fn consume_background(c: &[char], offset: usize) -> (r: Consumption)
    requires
        offset < c.len(),
        c@[offset as int] == '&',
    ensures
        r@ == (ConsumptionView { t: TokenView::Background, offset: (offset + 1) as nat }),
{
    Consumption { t: Token::Background, offset: offset + 1 }
}

/// Takes the operator that begins with the `&` at `offset`.
pub fn consume_ampersand(c: &[char], offset: usize) -> (r: Consumption)
    requires
        offset < c.len(),
        c@[offset as int] == '&',
    ensures
        r@ == scan_ampersand(c@.skip(offset as int)).shifted(offset as nat),
{
    if offset + 1 < c.len() && c[offset + 1] == '&' {
        consume_and(c, offset)
    } else {
        consume_background(c, offset)
    }
}

/// Takes `;`.
pub fn consume_sequence(c: &[char], offset: usize) -> (r: Consumption)
    requires
        offset < c.len(),
        c@[offset as int] == ';',
    ensures
        r@ == (ConsumptionView { t: TokenView::Sequence, offset: (offset + 1) as nat }),
{
    Consumption { t: Token::Sequence, offset: offset + 1 }
}

/// Takes `(`.
pub fn consume_open_subshell(c: &[char], offset: usize) -> (r: Consumption)
    requires
        offset < c.len(),
        c@[offset as int] == '(',
    ensures
        r@ == (ConsumptionView { t: TokenView::OpenSubshell, offset: (offset + 1) as nat }),
{
    Consumption { t: Token::OpenSubshell, offset: offset + 1 }
}

/// Takes `)`.
pub fn consume_close_subshell(c: &[char], offset: usize) -> (r: Consumption)
    requires
        offset < c.len(),
        c@[offset as int] == ')',
    ensures
        r@ == (ConsumptionView { t: TokenView::CloseSubshell, offset: (offset + 1) as nat }),
{
    Consumption { t: Token::CloseSubshell, offset: offset + 1 }
}

/// Takes the single-quoted run that begins at `offset`.
pub fn consume_singleq(c: &[char], offset: usize) -> (r: Consumption)
    requires
        offset < c.len(),
        c@[offset as int] == '\'',
    ensures
        r@ == scan_single_quoted(c@.skip(offset as int)).shifted(offset as nat),
        r.t is Word || r.t is LexError,
        offset < r.offset <= c.len(),
{
    let mut end = offset + 1;
    while end < c.len() && c[end] != '\''
        invariant
            offset < end <= c.len(),
            single_quote_index(c@.skip(offset + 1)) == (end - offset - 1) + single_quote_index(
                c@.skip(end as int),
            ),
        decreases c.len() - end,
    {
        assert(c@.skip(end as int).skip(1) == c@.skip(end + 1));
        end += 1;
    }
    assert(c@.skip(offset as int).skip(1) == c@.skip(offset + 1));
    if end == c.len() {
        Consumption { t: Token::LexError(String::from_str("Missing '.")), offset: end }
    } else {
        assert(c@.skip(offset as int).subrange(1, end - offset) == c@.subrange(
            offset + 1,
            end as int,
        ));
        let t = make_string_consumption(c, offset + 1, end);
        Consumption { t: t.t, offset: t.offset + 1 }
    }
}

/// Takes the double-quoted run that begins at `offset`.
pub fn consume_doubleq(c: &[char], offset: usize) -> (r: Consumption)
    requires
        offset < c.len(),
        c@[offset as int] == '"',
    ensures
        r@ == scan_double_quoted(c@.skip(offset as int)).shifted(offset as nat),
        r.t is Word || r.t is LexError,
        offset < r.offset <= c.len(),
{
    let mut s = String::new();
    let mut end = offset + 1;
    while end < c.len() && c[end] != '"'
        invariant
            offset < end <= c.len(),
            double_quoted_run(c@.skip(offset + 1)) == double_quoted_run(c@.skip(end as int)).after(
                s@,
                (end - offset - 1) as nat,
            ),
        decreases c.len() - end,
    {
        let ghost before = s@;
        let ghost ahead = c@.skip(end as int);
        if c[end] == '\\' && end + 1 != c.len() {
            let next = c[end + 1];
            if next == '"' || next == '\\' {
                s.push(next);
            } else {
                s.push('\\');
                s.push(next);
            }
            assert(s@ == before + escaped(next));
            assert(ahead.skip(2) == c@.skip(end + 2));
            assert(before + (escaped(next) + double_quoted_run(ahead.skip(2)).text) == (before
                + escaped(next)) + double_quoted_run(ahead.skip(2)).text);
            end += 2;
        } else {
            s.push(c[end]);
            assert(s@ == before + seq![c@[end as int]]);
            assert(ahead.skip(1) == c@.skip(end + 1));
            assert(before + (seq![ahead[0]] + double_quoted_run(ahead.skip(1)).text) == (before
                + seq![ahead[0]]) + double_quoted_run(ahead.skip(1)).text);
            end += 1;
        }
    }
    assert(c@.skip(offset as int).skip(1) == c@.skip(offset + 1));
    if end == c.len() {
        Consumption { t: Token::LexError(String::from_str("Missing \".")), offset: end }
    } else {
        Consumption { t: Token::Word(s), offset: end + 1 }
    }
}

/// Takes the word that begins at `offset`. Behind the end of the input there
/// is only the empty word.
pub fn consume_string(c: &[char], offset: usize) -> (r: Consumption)
    ensures
        offset <= c.len() ==> r@ == scan_word(c@.skip(offset as int)).shifted(offset as nat),
        offset > c.len() ==> r@ == (ConsumptionView {
            t: TokenView::Word(Seq::empty()),
            offset: offset as nat,
        }),
        r.t is Word || r.t is LexError,
        offset <= r.offset,
        offset <= c.len() ==> r.offset <= c.len(),
{
    let mut s = String::new();
    let mut end = offset;
    while end < c.len() && !is_token_separator(c, end)
        invariant
            offset <= end,
            offset <= c.len() ==> end <= c.len(),
            offset > c.len() ==> end == offset && s@ == Seq::<char>::empty(),
            offset <= c.len() ==> scan_word(c@.skip(offset as int)) == scan_word(
                c@.skip(end as int),
            ).prepended(s@, (end - offset) as nat),
        decreases c.len() - end,
    {
        let ghost before = s@;
        let ghost ahead = c@.skip(end as int);
        let ch = c[end];
        if ch == '"' {
            let r = consume_doubleq(c, end);
            match r.t {
                Token::Word(qs) => {
                    s.append(qs.as_str());
                    proof {
                        let k = (r.offset - end) as int;
                        assert(ahead.skip(k) == c@.skip(r.offset as int));
                        lemma_prepended_twice(scan_word(ahead.skip(k)), qs@, k as nat, before, (end - offset) as nat);
                    }
                    end = r.offset;
                },
                t => {
                    return Consumption { t, offset: r.offset };
                },
            }
        } else if ch == '\'' {
            let r = consume_singleq(c, end);
            match r.t {
                Token::Word(qs) => {
                    s.append(qs.as_str());
                    proof {
                        let k = (r.offset - end) as int;
                        assert(ahead.skip(k) == c@.skip(r.offset as int));
                        lemma_prepended_twice(scan_word(ahead.skip(k)), qs@, k as nat, before, (end - offset) as nat);
                    }
                    end = r.offset;
                },
                t => {
                    return Consumption { t, offset: r.offset };
                },
            }
        } else {
            s.push(ch);
            proof {
                assert(s@ == before + seq![ch]);
                assert(ahead.skip(1) == c@.skip(end + 1));
                lemma_prepended_twice(scan_word(ahead.skip(1)), seq![ch], 1, before, (end - offset) as nat);
            }
            end += 1;
        }
    }
    Consumption { t: Token::Word(s), offset: end }
}

/// Takes the redirection of the error stream that begins with the `2>` at
/// `offset`.
pub fn consume_redirect_error(c: &[char], offset: usize) -> (r: Consumption)
    requires
        offset + 1 < c.len(),
        c@[offset as int] == '2',
        c@[offset + 1] == '>',
    ensures
        r@ == scan_redirect(c@.skip(offset as int), 2, Channel::Error).shifted(offset as nat),
{
    let ws = consume_whitespace(c, offset + 2);
    let word = consume_string(c, ws.offset);
    proof {
        let s = c@.skip(offset as int);
        assert(s.skip(2) == c@.skip(offset + 2));
        assert(s.skip((2 + whitespace_len(s.skip(2))) as int) == c@.skip(ws.offset as int));
    }
    match word.t {
        Token::Word(file_name) => {
            if !file_name.as_str().is_empty() {
                Consumption { t: Token::RedirectError(file_name), offset: word.offset }
            } else {
                Consumption {
                    t: Token::LexError(String::from_str("No error file specified.")),
                    offset: c.len(),
                }
            }
        },
        failure => Consumption { t: failure, offset: c.len() },
    }
}

/// Takes what begins with the `2` at `offset`.
pub fn consume_two(c: &[char], offset: usize) -> (r: Consumption)
    requires
        offset < c.len(),
        c@[offset as int] == '2',
    ensures
        r@ == scan_two(c@.skip(offset as int)).shifted(offset as nat),
{
    if c.len() - offset > 3 && c[offset + 1] == '>' && c[offset + 2] == '&' && c[offset + 3] == '1'
        && (offset + 4 == c.len() || is_token_separator(c, offset + 4)) {
        Consumption { t: Token::RedirectErrorToOutput, offset: offset + 4 }
    } else if offset + 1 < c.len() && c[offset + 1] == '>' {
        consume_redirect_error(c, offset)
    } else {
        consume_string(c, offset)
    }
}

/// Takes the redirection of the output stream that begins with the `>` at
/// `offset`.
pub fn consume_redirect_output(c: &[char], offset: usize) -> (r: Consumption)
    requires
        offset < c.len(),
        c@[offset as int] == '>',
    ensures
        r@ == scan_redirect(c@.skip(offset as int), 1, Channel::Output).shifted(offset as nat),
{
    let ws = consume_whitespace(c, offset + 1);
    let word = consume_string(c, ws.offset);
    proof {
        let s = c@.skip(offset as int);
        assert(s.skip(1) == c@.skip(offset + 1));
        assert(s.skip((1 + whitespace_len(s.skip(1))) as int) == c@.skip(ws.offset as int));
    }
    match word.t {
        Token::Word(file_name) => {
            if !file_name.as_str().is_empty() {
                Consumption { t: Token::RedirectOutput(file_name), offset: word.offset }
            } else {
                Consumption {
                    t: Token::LexError(String::from_str("No output file specified.")),
                    offset: c.len(),
                }
            }
        },
        failure => Consumption { t: failure, offset: c.len() },
    }
}

/// Takes the redirection of the input stream that begins with the `<` at
/// `offset`.
pub fn consume_redirect_input(c: &[char], offset: usize) -> (r: Consumption)
    requires
        offset < c.len(),
        c@[offset as int] == '<',
    ensures
        r@ == scan_redirect(c@.skip(offset as int), 1, Channel::Input).shifted(offset as nat),
{
    let ws = consume_whitespace(c, offset + 1);
    let word = consume_string(c, ws.offset);
    proof {
        let s = c@.skip(offset as int);
        assert(s.skip(1) == c@.skip(offset + 1));
        assert(s.skip((1 + whitespace_len(s.skip(1))) as int) == c@.skip(ws.offset as int));
    }
    match word.t {
        Token::Word(file_name) => {
            if !file_name.as_str().is_empty() {
                Consumption { t: Token::RedirectInput(file_name), offset: word.offset }
            } else {
                Consumption {
                    t: Token::LexError(String::from_str("No input file specified.")),
                    offset: c.len(),
                }
            }
        },
        failure => Consumption { t: failure, offset: c.len() },
    }
}

/// Takes the token that begins at `offset` and the whitespace behind it.
pub fn consume_token(c: &[char], offset: usize) -> (r: Consumption)
    requires
        offset < c.len(),
    ensures
        r@ == scan_token(c@.skip(offset as int)).shifted(offset as nat),
        offset < r.offset <= c.len(),
{
    let ghost s = c@.skip(offset as int);
    let t = match c[offset] {
        '|' => consume_pipechar(c, offset),
        '>' => consume_redirect_output(c, offset),
        '<' => consume_redirect_input(c, offset),
        '&' => consume_ampersand(c, offset),
        '2' => consume_two(c, offset),
        ';' => consume_sequence(c, offset),
        '(' => consume_open_subshell(c, offset),
        ')' => consume_close_subshell(c, offset),
        '\\' => {
            if offset + 1 < c.len() {
                consume_string(c, offset)
            } else {
                Consumption { t: Token::Continuation, offset: offset + 1 }
            }
        },
        _ => consume_string(c, offset),
    };
    proof {
        lemma_scan_bare_token_bound(s);
        lemma_scan_token_bound(s);
        assert(s.skip(scan_bare_token(s).offset as int) == c@.skip(t.offset as int));
    }
    let ws = consume_whitespace(c, t.offset);
    Consumption { t: t.t, offset: ws.offset }
}

/// Splits a command line into its tokens. A lexical error ends the scan and
/// stands as the last token.
pub fn tokenize(cmd_line: &str) -> (tokens: Vec<Token>)
    ensures
        tokens.deep_view() == tokenize_spec(cmd_line@),
        error_only_last(tokens.deep_view()),
        continuation_only_last(tokens.deep_view()),
{
    let chars = chars_of(cmd_line);
    let c = chars.as_slice();
    let mut tokens: Vec<Token> = Vec::new();
    let mut offset = consume_whitespace(c, 0).offset;
    assert(c@.skip(0) == c@);
    while offset != c.len()
        invariant
            offset <= c.len(),
            c@ == cmd_line@,
            tokenize_spec(cmd_line@) == tokens.deep_view() + tokens_of(c@.skip(offset as int)),
        decreases c.len() - offset,
    {
        let ghost before = tokens.deep_view();
        let ghost s = c@.skip(offset as int);
        let t = consume_token(c, offset);
        proof {
            assert(s.skip(scan_token(s).offset as int) == c@.skip(t.offset as int));
        }
        offset = t.offset;
        tokens.push(t.t);
        proof {
            assert(before + (seq![t.t@] + tokens_of(c@.skip(offset as int))) == before.push(t.t@)
                + tokens_of(c@.skip(offset as int)));
        }
    }
    proof {
        law_lex_error_only_last(cmd_line@);
        law_continuation_only_last(cmd_line@);
    }
    tokens
}

} // verus!
