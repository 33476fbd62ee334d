//! What the tokenizer computes, stated over character sequences.
//!
//! The input is read as the sequence of characters that is still ahead of the
//! cursor. Every scanner is a function of that remainder alone: it yields a
//! token and the number of characters it takes. Nothing depends on what has
//! been read before.

use vstd::prelude::*;
use crate::text::is_whitespace;
use crate::token::{Channel, TokenView};

verus! {

/// The value of a [`Consumption`]. A scanner's result counts the characters it
/// took; an executable function's result holds the offset behind them.
pub struct ConsumptionView {
    pub t: TokenView,
    pub offset: nat,
}

impl ConsumptionView {
    /// The same token, `by` characters further on.
    pub open spec fn shifted(self, by: nat) -> ConsumptionView {
        ConsumptionView { t: self.t, offset: self.offset + by }
    }

    /// The result of a word scan that had already read `text` from `by`
    /// characters: a word grows at its front, an error is only moved.
    pub open spec fn prepended(self, text: Seq<char>, by: nat) -> ConsumptionView {
        match self.t {
            TokenView::Word(w) => ConsumptionView {
                t: TokenView::Word(text + w),
                offset: self.offset + by,
            },
            _ => self.shifted(by),
        }
    }
}

/// The characters that end a word wherever they stand.
pub open spec fn is_operator_char(ch: char) -> bool {
    ch == '<' || ch == '>' || ch == ';' || ch == '&' || ch == '|' || ch == '(' || ch == ')'
}

/// Whether the input ahead begins with a separator: whitespace, an operator
/// character, or a backslash that is the last character of the input.
pub open spec fn separator_ahead(s: Seq<char>) -> bool {
    s.len() > 0 && (is_whitespace(s[0]) || is_operator_char(s[0]) || (s[0] == '\\' && s.len()
        == 1))
}

/// The number of whitespace characters at the front of `s`.
pub open spec fn whitespace_len(s: Seq<char>) -> nat
    decreases s.len(),
{
    if s.len() > 0 && is_whitespace(s[0]) {
        1 + whitespace_len(s.skip(1))
    } else {
        0
    }
}

/// The run of whitespace at the front of `s`, as a word.
pub open spec fn scan_whitespace(s: Seq<char>) -> ConsumptionView {
    ConsumptionView {
        t: TokenView::Word(s.take(whitespace_len(s) as int)),
        offset: whitespace_len(s),
    }
}

/// `||` or `|`, for input that begins with `|`.
pub open spec fn scan_pipechar(s: Seq<char>) -> ConsumptionView {
    if s.len() > 1 && s[1] == '|' {
        ConsumptionView { t: TokenView::Or, offset: 2 }
    } else {
        ConsumptionView { t: TokenView::Pipe, offset: 1 }
    }
}

/// `&&` or `&`, for input that begins with `&`.
pub open spec fn scan_ampersand(s: Seq<char>) -> ConsumptionView {
    if s.len() > 1 && s[1] == '&' {
        ConsumptionView { t: TokenView::And, offset: 2 }
    } else {
        ConsumptionView { t: TokenView::Background, offset: 1 }
    }
}

/// The whitespace at the front of `s` is made of whitespace, lies inside `s`,
/// and ends where `s` ends or at a character that is none.
pub proof fn lemma_whitespace_len_bound(s: Seq<char>)
    ensures
        whitespace_len(s) <= s.len(),
        forall|i: int| 0 <= i < whitespace_len(s) ==> is_whitespace(#[trigger] s[i]),
        whitespace_len(s) < s.len() ==> !is_whitespace(s[whitespace_len(s) as int]),
    decreases s.len(),
{
    if s.len() > 0 && is_whitespace(s[0]) {
        lemma_whitespace_len_bound(s.skip(1));
        assert forall|i: int| 0 <= i < whitespace_len(s) implies is_whitespace(
            #[trigger] s[i],
        ) by {
            if i > 0 {
                assert(s[i] == s.skip(1)[i - 1]);
            }
        }
    }
}

/// The message for a single-quoted run that is never closed.
pub open spec fn missing_single_quote() -> Seq<char> {
    "Missing '."@
}

/// The message for a double-quoted run that is never closed.
pub open spec fn missing_double_quote() -> Seq<char> {
    "Missing \"."@
}

/// The number of characters before the first `'` of `s`; the length of `s`
/// where it holds none.
pub open spec fn single_quote_index(s: Seq<char>) -> nat
    decreases s.len(),
{
    if s.len() == 0 || s[0] == '\'' {
        0
    } else {
        1 + single_quote_index(s.skip(1))
    }
}

/// A single-quoted run, for input that begins with `'`: the characters up to
/// the next `'`, verbatim.
pub open spec fn scan_single_quoted(s: Seq<char>) -> ConsumptionView {
    let n = single_quote_index(s.skip(1));
    if n + 1 >= s.len() {
        ConsumptionView { t: TokenView::LexError(missing_single_quote()), offset: s.len() }
    } else {
        ConsumptionView { t: TokenView::Word(s.subrange(1, n as int + 1)), offset: n + 2 }
    }
}

/// What lies between two double quotes: the text it stands for, the number of
/// characters it is written with, and whether the closing quote is there.
pub struct QuotedRun {
    pub text: Seq<char>,
    pub len: nat,
    pub closed: bool,
}

impl QuotedRun {
    /// The run that had already read `text` from `by` characters.
    pub open spec fn after(self, text: Seq<char>, by: nat) -> QuotedRun {
        QuotedRun { text: text + self.text, len: self.len + by, closed: self.closed }
    }
}

/// What a backslash followed by `next` stands for between double quotes: the
/// quote or the backslash alone where it escapes one, both characters
/// otherwise.
pub open spec fn escaped(next: char) -> Seq<char> {
    if next == '"' || next == '\\' {
        seq![next]
    } else {
        seq!['\\', next]
    }
}

/// The inside of a double-quoted run, for input that begins just behind the
/// opening quote. A backslash that is the last character stands for itself.
pub open spec fn double_quoted_run(s: Seq<char>) -> QuotedRun
    decreases s.len(),
{
    if s.len() == 0 {
        QuotedRun { text: Seq::empty(), len: 0, closed: false }
    } else if s[0] == '"' {
        QuotedRun { text: Seq::empty(), len: 0, closed: true }
    } else if s[0] == '\\' && s.len() > 1 {
        double_quoted_run(s.skip(2)).after(escaped(s[1]), 2)
    } else {
        double_quoted_run(s.skip(1)).after(seq![s[0]], 1)
    }
}

/// A double-quoted run, for input that begins with `"`.
pub open spec fn scan_double_quoted(s: Seq<char>) -> ConsumptionView {
    let run = double_quoted_run(s.skip(1));
    if run.closed {
        ConsumptionView { t: TokenView::Word(run.text), offset: run.len + 2 }
    } else {
        ConsumptionView { t: TokenView::LexError(missing_double_quote()), offset: s.len() }
    }
}

/// No `'` stands before the index of the first one, which lies inside `s` or
/// at its end.
pub proof fn lemma_single_quote_index_bound(s: Seq<char>)
    ensures
        single_quote_index(s) <= s.len(),
        forall|i: int| 0 <= i < single_quote_index(s) ==> #[trigger] s[i] != '\'',
        single_quote_index(s) < s.len() ==> s[single_quote_index(s) as int] == '\'',
    decreases s.len(),
{
    if !(s.len() == 0 || s[0] == '\'') {
        lemma_single_quote_index_bound(s.skip(1));
        assert forall|i: int| 0 <= i < single_quote_index(s) implies #[trigger] s[i] != '\'' by {
            if i > 0 {
                assert(s[i] == s.skip(1)[i - 1]);
            }
        }
    }
}

/// A double-quoted run is written with characters of `s`: with all of them
/// where it is not closed, with fewer where it is.
pub proof fn lemma_double_quoted_run_bound(s: Seq<char>)
    ensures
        double_quoted_run(s).len <= s.len(),
        double_quoted_run(s).closed ==> double_quoted_run(s).len < s.len(),
        !double_quoted_run(s).closed ==> double_quoted_run(s).len == s.len(),
    decreases s.len(),
{
    if s.len() == 0 || s[0] == '"' {
    } else if s[0] == '\\' && s.len() > 1 {
        lemma_double_quoted_run_bound(s.skip(2));
    } else {
        lemma_double_quoted_run_bound(s.skip(1));
    }
}

/// A word: the characters up to the next separator, with quoted runs
/// resolved. A run that is never closed turns the whole word into its error.
pub open spec fn scan_word(s: Seq<char>) -> ConsumptionView
    decreases s.len(),
{
    if s.len() == 0 || separator_ahead(s) {
        ConsumptionView { t: TokenView::Word(Seq::empty()), offset: 0 }
    } else if s[0] == '"' {
        let q = scan_double_quoted(s);
        match q.t {
            TokenView::Word(text) => {
                proof {
                    lemma_double_quoted_run_bound(s.skip(1));
                }
                scan_word(s.skip(q.offset as int)).prepended(text, q.offset)
            },
            _ => q,
        }
    } else if s[0] == '\'' {
        let q = scan_single_quoted(s);
        match q.t {
            TokenView::Word(text) => {
                proof {
                    lemma_single_quote_index_bound(s.skip(1));
                }
                scan_word(s.skip(q.offset as int)).prepended(text, q.offset)
            },
            _ => q,
        }
    } else {
        scan_word(s.skip(1)).prepended(seq![s[0]], 1)
    }
}

/// A word scan yields a word or a lexical error and stays inside `s`. An
/// error takes all of `s`; a word that does not begin at a separator takes at
/// least one character.
pub proof fn lemma_scan_word_bound(s: Seq<char>)
    ensures
        scan_word(s).offset <= s.len(),
        scan_word(s).t is Word || scan_word(s).t is LexError,
        scan_word(s).t is LexError ==> scan_word(s).offset == s.len(),
        s.len() > 0 && !separator_ahead(s) ==> scan_word(s).offset > 0,
    decreases s.len(),
{
    if s.len() == 0 || separator_ahead(s) {
    } else if s[0] == '"' {
        lemma_double_quoted_run_bound(s.skip(1));
        let q = scan_double_quoted(s);
        if q.t is Word {
            lemma_scan_word_bound(s.skip(q.offset as int));
        }
    } else if s[0] == '\'' {
        lemma_single_quote_index_bound(s.skip(1));
        let q = scan_single_quoted(s);
        if q.t is Word {
            lemma_scan_word_bound(s.skip(q.offset as int));
        }
    } else {
        lemma_scan_word_bound(s.skip(1));
    }
}

/// Reading `first` and then `second` ahead of a word scan is reading both.
pub proof fn lemma_prepended_twice(
    scan: ConsumptionView,
    second: Seq<char>,
    m: nat,
    first: Seq<char>,
    n: nat,
)
    ensures
        scan.prepended(second, m).prepended(first, n) == scan.prepended(first + second, n + m),
{
    if let TokenView::Word(w) = scan.t {
        assert(first + (second + w) == (first + second) + w);
    }
}

/// The message for a redirection of `channel` that names no file.
pub open spec fn no_file_specified(channel: Channel) -> Seq<char> {
    match channel {
        Channel::Input => "No input file specified."@,
        Channel::Output => "No output file specified."@,
        Channel::Error => "No error file specified."@,
    }
}

/// A redirection of `channel`, for input that begins with its operator of
/// `lead` characters: whitespace, then a word that names the file. Without a
/// file name it is an error, and so is a file name with a quoted run that is
/// never closed: the error of that run. An error takes the rest of the input.
pub open spec fn scan_redirect(s: Seq<char>, lead: nat, channel: Channel) -> ConsumptionView {
    let ws = whitespace_len(s.skip(lead as int));
    let word = scan_word(s.skip((lead + ws) as int));
    match word.t {
        TokenView::Word(path) => if path.len() > 0 {
            ConsumptionView {
                t: TokenView::redirect(channel, path),
                offset: lead + ws + word.offset,
            }
        } else {
            ConsumptionView { t: TokenView::LexError(no_file_specified(channel)), offset: s.len() }
        },
        _ => ConsumptionView { t: word.t, offset: s.len() },
    }
}

/// What begins with `2`: `2>&1` where a separator or the end of the input
/// follows it, else a redirection of the error stream where `>` follows, else
/// a word.
pub open spec fn scan_two(s: Seq<char>) -> ConsumptionView {
    if s.len() > 3 && s[1] == '>' && s[2] == '&' && s[3] == '1' && (s.len() == 4
        || separator_ahead(s.skip(4))) {
        ConsumptionView { t: TokenView::RedirectErrorToOutput, offset: 4 }
    } else if s.len() > 1 && s[1] == '>' {
        scan_redirect(s, 2, Channel::Error)
    } else {
        scan_word(s)
    }
}

/// The token at the front of a non-empty input, without the whitespace behind
/// it.
pub open spec fn scan_bare_token(s: Seq<char>) -> ConsumptionView {
    let ch = s[0];
    if ch == '|' {
        scan_pipechar(s)
    } else if ch == '>' {
        scan_redirect(s, 1, Channel::Output)
    } else if ch == '<' {
        scan_redirect(s, 1, Channel::Input)
    } else if ch == '&' {
        scan_ampersand(s)
    } else if ch == '2' {
        scan_two(s)
    } else if ch == ';' {
        ConsumptionView { t: TokenView::Sequence, offset: 1 }
    } else if ch == '(' {
        ConsumptionView { t: TokenView::OpenSubshell, offset: 1 }
    } else if ch == ')' {
        ConsumptionView { t: TokenView::CloseSubshell, offset: 1 }
    } else if ch == '\\' && s.len() == 1 {
        ConsumptionView { t: TokenView::Continuation, offset: 1 }
    } else {
        scan_word(s)
    }
}

/// The token at the front of a non-empty input, together with the whitespace
/// behind it.
pub open spec fn scan_token(s: Seq<char>) -> ConsumptionView {
    let bare = scan_bare_token(s);
    ConsumptionView { t: bare.t, offset: bare.offset + whitespace_len(s.skip(bare.offset as int)) }
}

/// The tokens of an input that does not begin with whitespace.
pub open spec fn tokens_of(s: Seq<char>) -> Seq<TokenView>
    decreases s.len(),
{
    if s.len() == 0 {
        Seq::empty()
    } else {
        let first = scan_token(s);
        proof {
            lemma_scan_token_bound(s);
        }
        seq![first.t] + tokens_of(s.skip(first.offset as int))
    }
}

/// The tokens of a command line.
pub open spec fn tokenize_spec(text: Seq<char>) -> Seq<TokenView> {
    tokens_of(text.skip(whitespace_len(text) as int))
}

/// Whether no token of `tokens` but the last is a lexical error.
pub open spec fn error_only_last(tokens: Seq<TokenView>) -> bool {
    forall|i: int| 0 <= i < tokens.len() - 1 ==> !((#[trigger] tokens[i]) is LexError)
}

/// A redirection takes at least one character and stays inside `s`; an
/// error takes all of it.
pub proof fn lemma_scan_redirect_bound(s: Seq<char>, lead: nat, channel: Channel)
    requires
        0 < lead <= s.len(),
    ensures
        0 < scan_redirect(s, lead, channel).offset <= s.len(),
        scan_redirect(s, lead, channel).t is LexError ==> scan_redirect(s, lead, channel).offset
            == s.len(),
{
    let ws = whitespace_len(s.skip(lead as int));
    lemma_whitespace_len_bound(s.skip(lead as int));
    lemma_scan_word_bound(s.skip((lead + ws) as int));
}

/// A token stays inside `s` and takes at least one character, unless `s`
/// begins with whitespace; an error takes all of `s`.
pub proof fn lemma_scan_bare_token_bound(s: Seq<char>)
    requires
        s.len() > 0,
    ensures
        scan_bare_token(s).offset <= s.len(),
        !is_whitespace(s[0]) ==> scan_bare_token(s).offset > 0,
        scan_bare_token(s).t is LexError ==> scan_bare_token(s).offset == s.len(),
{
    lemma_scan_word_bound(s);
    lemma_scan_redirect_bound(s, 1, Channel::Output);
    lemma_scan_redirect_bound(s, 1, Channel::Input);
    if s.len() > 1 {
        lemma_scan_redirect_bound(s, 2, Channel::Error);
    }
}

/// A token takes at least one character and stays inside the input; an error
/// takes all of it.
pub proof fn lemma_scan_token_bound(s: Seq<char>)
    requires
        s.len() > 0,
    ensures
        0 < scan_token(s).offset <= s.len(),
        scan_token(s).t is LexError ==> scan_token(s).offset == s.len(),
        scan_token(s).offset < s.len() ==> !is_whitespace(s[scan_token(s).offset as int]),
{
    lemma_scan_bare_token_bound(s);
    let bare = scan_bare_token(s);
    lemma_whitespace_len_bound(s.skip(bare.offset as int));
}

/// The tokens of a non-empty input: its first token, then the tokens of what
/// stands behind that token.
pub proof fn lemma_tokens_of_first(s: Seq<char>)
    requires
        s.len() > 0,
    ensures
        tokens_of(s) == seq![scan_bare_token(s).t] + tokenize_spec(
            s.skip(scan_bare_token(s).offset as int),
        ),
{
    lemma_scan_token_bound(s);
    let m = scan_bare_token(s).offset as int;
    let behind = s.skip(m);
    lemma_whitespace_len_bound(behind);
    assert(behind.skip(whitespace_len(behind) as int) == s.skip(scan_token(s).offset as int));
}

/// Among the tokens of any input only the last can be a lexical error.
pub proof fn lemma_tokens_of_error_only_last(s: Seq<char>)
    ensures
        error_only_last(tokens_of(s)),
    decreases s.len(),
{
    if s.len() > 0 {
        let first = scan_token(s);
        lemma_scan_token_bound(s);
        let rest = tokens_of(s.skip(first.offset as int));
        lemma_tokens_of_error_only_last(s.skip(first.offset as int));
        assert forall|i: int| 0 <= i < tokens_of(s).len() - 1 implies !((#[trigger] tokens_of(
            s,
        )[i]) is LexError) by {
            if i > 0 {
                assert(tokens_of(s)[i] == rest[i - 1]);
            }
        }
    }
}

/// Among the tokens of any command line only the last can be a lexical
/// error.
pub proof fn law_lex_error_only_last(text: Seq<char>)
    ensures
        error_only_last(tokenize_spec(text)),
{
    lemma_tokens_of_error_only_last(text.skip(whitespace_len(text) as int));
}

/// Whether no token of `tokens` but the last is a continuation.
pub open spec fn continuation_only_last(tokens: Seq<TokenView>) -> bool {
    forall|i: int| 0 <= i < tokens.len() - 1 ==> !((#[trigger] tokens[i]) is Continuation)
}

/// A continuation is the backslash that ends the input.
pub proof fn lemma_scan_token_continuation(s: Seq<char>)
    requires
        s.len() > 0,
        scan_token(s).t is Continuation,
    ensures
        scan_token(s).offset == s.len(),
{
    lemma_scan_word_bound(s);
    if s.len() > 1 {
        lemma_scan_word_bound(s.skip((2 + whitespace_len(s.skip(2))) as int));
    }
    lemma_scan_word_bound(s.skip((1 + whitespace_len(s.skip(1))) as int));
    if s[0] == '\\' && s.len() == 1 {
        assert(s.skip(1).len() == 0);
    }
}

/// Among the tokens of any input only the last can be a continuation.
pub proof fn lemma_tokens_of_continuation_only_last(s: Seq<char>)
    ensures
        continuation_only_last(tokens_of(s)),
    decreases s.len(),
{
    if s.len() > 0 {
        let first = scan_token(s);
        lemma_scan_token_bound(s);
        let rest = tokens_of(s.skip(first.offset as int));
        lemma_tokens_of_continuation_only_last(s.skip(first.offset as int));
        if first.t is Continuation {
            lemma_scan_token_continuation(s);
        }
        assert forall|i: int| 0 <= i < tokens_of(s).len() - 1 implies !((#[trigger] tokens_of(
            s,
        )[i]) is Continuation) by {
            if i > 0 {
                assert(tokens_of(s)[i] == rest[i - 1]);
            }
        }
    }
}

/// Among the tokens of any command line only the last can be a continuation.
pub proof fn law_continuation_only_last(text: Seq<char>)
    ensures
        continuation_only_last(tokenize_spec(text)),
{
    lemma_tokens_of_continuation_only_last(text.skip(whitespace_len(text) as int));
}

} // verus!
