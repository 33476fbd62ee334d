//! The token vocabulary shared by the tokenizer and the parser.

use vstd::prelude::*;
use vstd::string::StringExecFns;

verus! {

/// One lexical unit of a command line.
#[derive(Debug, PartialEq, Eq)]
pub enum Token {
    /// Literal text, after quotes and escapes are resolved.
    Word(String),
    /// `|`
    Pipe,
    /// `||`
    Or,
    /// `&&`
    And,
    /// `&`
    Background,
    /// `;`
    Sequence,
    /// `> path`
    RedirectOutput(String),
    /// `< path`
    RedirectInput(String),
    /// `2> path`
    RedirectError(String),
    /// `2>&1`
    RedirectErrorToOutput,
    /// `(`
    OpenSubshell,
    /// `)`
    CloseSubshell,
    /// A backslash that ends the input: the line goes on.
    Continuation,
    /// A lexical error, with its message. Nothing follows it.
    LexError(String),
}

/// What a [`Token`] stands for: the same variants over character sequences.
pub enum TokenView {
    Word(Seq<char>),
    Pipe,
    Or,
    And,
    Background,
    Sequence,
    RedirectOutput(Seq<char>),
    RedirectInput(Seq<char>),
    RedirectError(Seq<char>),
    RedirectErrorToOutput,
    OpenSubshell,
    CloseSubshell,
    Continuation,
    LexError(Seq<char>),
}

impl View for Token {
    type V = TokenView;

    open spec fn view(&self) -> TokenView {
        match self {
            Token::Word(s) => TokenView::Word(s@),
            Token::Pipe => TokenView::Pipe,
            Token::Or => TokenView::Or,
            Token::And => TokenView::And,
            Token::Background => TokenView::Background,
            Token::Sequence => TokenView::Sequence,
            Token::RedirectOutput(s) => TokenView::RedirectOutput(s@),
            Token::RedirectInput(s) => TokenView::RedirectInput(s@),
            Token::RedirectError(s) => TokenView::RedirectError(s@),
            Token::RedirectErrorToOutput => TokenView::RedirectErrorToOutput,
            Token::OpenSubshell => TokenView::OpenSubshell,
            Token::CloseSubshell => TokenView::CloseSubshell,
            Token::Continuation => TokenView::Continuation,
            Token::LexError(s) => TokenView::LexError(s@),
        }
    }
}

impl DeepView for Token {
    type V = TokenView;

    open spec fn deep_view(&self) -> TokenView {
        self@
    }
}

impl Clone for Token {
    fn clone(&self) -> (t: Token)
        ensures
            t == *self,
    {
        match self {
            Token::Word(s) => Token::Word(s.clone()),
            Token::Pipe => Token::Pipe,
            Token::Or => Token::Or,
            Token::And => Token::And,
            Token::Background => Token::Background,
            Token::Sequence => Token::Sequence,
            Token::RedirectOutput(s) => Token::RedirectOutput(s.clone()),
            Token::RedirectInput(s) => Token::RedirectInput(s.clone()),
            Token::RedirectError(s) => Token::RedirectError(s.clone()),
            Token::RedirectErrorToOutput => Token::RedirectErrorToOutput,
            Token::OpenSubshell => Token::OpenSubshell,
            Token::CloseSubshell => Token::CloseSubshell,
            Token::Continuation => Token::Continuation,
            Token::LexError(s) => Token::LexError(s.clone()),
        }
    }
}

/// One of the three streams of a command that a redirection can set.
pub enum Channel {
    Input,
    Output,
    Error,
}

impl TokenView {
    /// Whether this is one of the five operators that join commands.
    pub open spec fn is_separator(self) -> bool {
        self is Pipe || self is And || self is Or || self is Background || self is Sequence
    }

    /// Whether this can be part of a command: a word or a redirection.
    pub open spec fn is_command_part(self) -> bool {
        self is Word || self is RedirectOutput || self is RedirectInput || self is RedirectError
            || self is RedirectErrorToOutput
    }

    /// The token as it is written in a command line. A word and a file name
    /// stand unquoted, a lexical error is rendered as its message.
    pub open spec fn rendering(self) -> Seq<char> {
        match self {
            TokenView::Word(text) => text,
            TokenView::Pipe => "|"@,
            TokenView::Or => "||"@,
            TokenView::And => "&&"@,
            TokenView::Background => "&"@,
            TokenView::Sequence => ";"@,
            TokenView::RedirectOutput(path) => ">"@ + path,
            TokenView::RedirectInput(path) => "<"@ + path,
            TokenView::RedirectError(path) => "2>"@ + path,
            TokenView::RedirectErrorToOutput => "2>&1"@,
            TokenView::OpenSubshell => "("@,
            TokenView::CloseSubshell => ")"@,
            TokenView::Continuation => "\\"@,
            TokenView::LexError(message) => message,
        }
    }

    /// The redirection of `channel` to `path`.
    pub open spec fn redirect(channel: Channel, path: Seq<char>) -> TokenView {
        match channel {
            Channel::Input => TokenView::RedirectInput(path),
            Channel::Output => TokenView::RedirectOutput(path),
            Channel::Error => TokenView::RedirectError(path),
        }
    }
}

/// Renders a token as text.
pub fn token_to_string(t: &Token) -> (s: String)
    ensures
        s@ == t@.rendering(),
{
    match t {
        Token::Word(text) => text.clone(),
        Token::Pipe => String::from_str("|"),
        Token::Or => String::from_str("||"),
        Token::And => String::from_str("&&"),
        Token::Background => String::from_str("&"),
        Token::Sequence => String::from_str(";"),
        Token::RedirectOutput(path) => String::from_str(">").concat(path.as_str()),
        Token::RedirectInput(path) => String::from_str("<").concat(path.as_str()),
        Token::RedirectError(path) => String::from_str("2>").concat(path.as_str()),
        Token::RedirectErrorToOutput => String::from_str("2>&1"),
        Token::OpenSubshell => String::from_str("("),
        Token::CloseSubshell => String::from_str(")"),
        Token::Continuation => String::from_str("\\"),
        Token::LexError(message) => message.clone(),
    }
}

} // verus!
