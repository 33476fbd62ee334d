use shell_parser::token::Token;
use shell_parser::tokenizer::tokenize;

fn word(s: &str) -> Token {
    Token::Word(s.to_string())
}

fn error(s: &str) -> Token {
    Token::LexError(s.to_string())
}

#[test]
fn tokenizer_simple_cmdline() {
    let ts = tokenize("  hi there");
    assert_eq!(ts, vec![word("hi"), word("there")]);
}

#[test]
fn all_whitespace() {
    assert_eq!(tokenize(""), vec![]);
    assert_eq!(tokenize("   \t"), vec![]);
}

#[test]
fn tokenizer_complex_pipeline() {
    let line = "(cat abc d\"e f\\\"\"g; echo 'hello\\') |".to_string() + "grep -i he >matches &";
    let ts = tokenize(&line);
    assert_eq!(
        ts,
        vec![
            Token::OpenSubshell,
            word("cat"),
            word("abc"),
            word("de f\"g"),
            Token::Sequence,
            word("echo"),
            word("hello\\"),
            Token::CloseSubshell,
            Token::Pipe,
            word("grep"),
            word("-i"),
            word("he"),
            Token::RedirectOutput("matches".to_string()),
            Token::Background,
        ]
    );
}

#[test]
fn test_redirection() {
    assert_eq!(
        tokenize("wc -l < file.txt"),
        vec![word("wc"), word("-l"), Token::RedirectInput("file.txt".to_string())]
    );
    assert_eq!(
        tokenize("wc<in>out"),
        vec![
            word("wc"),
            Token::RedirectInput("in".to_string()),
            Token::RedirectOutput("out".to_string()),
        ]
    );
    assert_eq!(tokenize("wc < >&"), vec![word("wc"), error("No input file specified.")]);
}

#[test]
fn tokenizer_test_continuation() {
    let ts = tokenize("foo && bar &&\\");
    assert_eq!(ts, vec![word("foo"), Token::And, word("bar"), Token::And, Token::Continuation]);
}

#[test]
fn unterminated_string() {
    let ts = tokenize("foo \"bar baz");
    assert_eq!(ts, vec![word("foo"), error("Missing \".")]);
}

#[test]
fn test_two() {
    assert_eq!(tokenize("foo 2>1"), vec![word("foo"), Token::RedirectError("1".to_string())]);
    assert_eq!(tokenize("foo 2>&1"), vec![word("foo"), Token::RedirectErrorToOutput]);
    assert_eq!(tokenize("foo 2"), vec![word("foo"), word("2")]);
    assert_eq!(tokenize("foo 2bar"), vec![word("foo"), word("2bar")]);
    assert_eq!(tokenize("foo 2>&file"), vec![word("foo"), error("No error file specified.")]);
}
