use either::Either;
use shell_parser::ast::{CommandLine, ParseResult, PartParse};
use shell_parser::parser::{finish_parse, make_command, parse};
use shell_parser::token::Token;
use shell_parser::tokenizer::tokenize;

fn word(s: &str) -> Token {
    Token::Word(s.to_string())
}

fn inhabited(line: &CommandLine) -> bool {
    match line {
        CommandLine::Singleton(_) => true,
        CommandLine::Background(inner) => inhabited(inner),
        CommandLine::Pipeline(lines)
        | CommandLine::Sequence(lines)
        | CommandLine::And(lines)
        | CommandLine::Or(lines) => !lines.is_empty() && lines.iter().all(inhabited),
    }
}

const LINES: [&str; 24] = [
    "a",
    "a b c",
    "a | b",
    "a || b && c",
    "a ; b ; c &",
    "a & b",
    "(a)",
    "((a | b) ; c) && d",
    "a >x <y 2>z | b 2>&1",
    "()",
    "(a",
    "a)",
    "| a",
    "a |",
    "a | | b",
    "a (b)",
    "a >x >y",
    "a 'b",
    "a >",
    "a \\",
    "a & & b",
    "a ; (b ; (c ; (d)))",
    "(a) | (b) | (c)",
    "a &&",
];

#[test]
fn every_parsed_tree_is_inhabited() {
    for line in LINES.iter() {
        if let ParseResult::Parsed(tree) = parse(&tokenize(line)) {
            assert!(inhabited(&tree), "{}", line);
        }
    }
    assert!(!inhabited(&CommandLine::Sequence(vec![])));
    assert_eq!(parse(&[]), ParseResult::Parsed(CommandLine::Sequence(vec![])));
}

#[test]
fn continuation_is_required_exactly_behind_a_last_continuation() {
    for line in LINES.iter() {
        let tokens = tokenize(line);
        let last_is_continuation = tokens.last() == Some(&Token::Continuation);
        assert_eq!(
            parse(&tokens) == ParseResult::ContinuationRequired,
            last_is_continuation,
            "{}",
            line
        );
    }
    assert_eq!(parse(&[Token::Continuation, word("a")]) == ParseResult::ContinuationRequired, false);
    assert_eq!(parse(&[word("a"), Token::Continuation]), ParseResult::ContinuationRequired);
}

#[test]
fn only_the_last_token_is_a_lexical_error() {
    for line in LINES.iter() {
        let tokens = tokenize(line);
        let errors = tokens.iter().filter(|t| matches!(t, Token::LexError(_))).count();
        assert!(errors <= 1, "{}", line);
        if errors == 1 {
            assert!(matches!(tokens.last(), Some(Token::LexError(_))), "{}", line);
        }
    }
}

fn sets(t: &Token, channel: usize) -> bool {
    match (t, channel) {
        (Token::RedirectInput(_), 0) => true,
        (Token::RedirectOutput(_), 1) => true,
        (Token::RedirectError(_), 2) | (Token::RedirectErrorToOutput, 2) => true,
        _ => false,
    }
}

fn is_command_part(t: &Token) -> bool {
    matches!(
        t,
        Token::Word(_)
            | Token::RedirectInput(_)
            | Token::RedirectOutput(_)
            | Token::RedirectError(_)
            | Token::RedirectErrorToOutput
    )
}

#[test]
fn assembly_succeeds_exactly_on_words_and_single_redirections() {
    let alphabet = [
        word("w"),
        Token::RedirectInput("i".to_string()),
        Token::RedirectOutput("o".to_string()),
        Token::RedirectError("e".to_string()),
        Token::RedirectErrorToOutput,
        Token::Pipe,
    ];
    let n = alphabet.len();
    let mut count = 0;
    for length in 1..=4usize {
        let total = n.pow(length as u32);
        for code in 0..total {
            let mut tokens = Vec::new();
            let mut rest = code;
            for _ in 0..length {
                tokens.push(alphabet[rest % n].clone());
                rest /= n;
            }
            let expected = tokens.iter().all(is_command_part)
                && (0..3).all(|ch| tokens.iter().filter(|t| sets(t, ch)).count() <= 1);
            match make_command(&tokens) {
                Either::Left(command) => {
                    assert!(expected, "{:?}", tokens);
                    let words = tokens.iter().filter(|t| matches!(t, Token::Word(_))).count();
                    assert_eq!(command.args.len(), words);
                },
                Either::Right(_) => assert!(!expected, "{:?}", tokens),
            }
            count += 1;
        }
    }
    assert_eq!(count, 6 + 36 + 216 + 1296);
}

fn demands_command(p: &PartParse) -> bool {
    match p {
        PartParse::Sep(t) => *t != Token::Background,
        _ => false,
    }
}

fn is_sep(p: &PartParse) -> bool {
    matches!(p, PartParse::Sep(_))
}

#[test]
fn a_level_is_parsed_exactly_where_its_parts_are_well_ordered() {
    let command = |s: &str| match make_command(&[word(s)]) {
        Either::Left(c) => c,
        Either::Right(m) => panic!("{}", m),
    };
    let alphabet = || {
        vec![
            PartParse::Cmd(command("c")),
            PartParse::Subshell(CommandLine::Singleton(command("s"))),
            PartParse::Sep(Token::Pipe),
            PartParse::Sep(Token::Background),
            PartParse::Sep(Token::Sequence),
        ]
    };
    let n = alphabet().len();
    for length in 1..=5usize {
        let total = n.pow(length as u32);
        for code in 0..total {
            let mut parts = Vec::new();
            let mut rest = code;
            for _ in 0..length {
                parts.push(alphabet().swap_remove(rest % n));
                rest /= n;
            }
            let ordered = !is_sep(&parts[0])
                && (1..parts.len()).all(|i| {
                    if is_sep(&parts[i]) {
                        !demands_command(&parts[i - 1])
                    } else {
                        is_sep(&parts[i - 1])
                    }
                });
            let expected = ordered && !demands_command(&parts[parts.len() - 1]);
            let parsed = matches!(finish_parse(&parts), ParseResult::Parsed(_));
            assert_eq!(parsed, expected, "{:?}", parts);
        }
    }
}

fn all_args(line: &CommandLine, out: &mut Vec<String>) {
    match line {
        CommandLine::Singleton(command) => out.extend(command.args.iter().cloned()),
        CommandLine::Background(inner) => all_args(inner, out),
        CommandLine::Pipeline(lines)
        | CommandLine::Sequence(lines)
        | CommandLine::And(lines)
        | CommandLine::Or(lines) => {
            for l in lines {
                all_args(l, out);
            }
        },
    }
}

#[test]
fn a_parsed_tree_holds_the_words_of_the_tokens() {
    let more = ["x >o y <i z 2>e w", "(a b | c d) && e f ; (g (h i) j)"];
    let mut parsed = 0;
    for line in LINES.iter().chain(more.iter()) {
        let tokens = tokenize(line);
        if let ParseResult::Parsed(tree) = parse(&tokens) {
            let mut args = Vec::new();
            all_args(&tree, &mut args);
            let words: Vec<String> = tokens
                .iter()
                .filter_map(|t| match t {
                    Token::Word(text) => Some(text.clone()),
                    _ => None,
                })
                .collect();
            assert_eq!(args, words, "{}", line);
            parsed += 1;
        }
    }
    assert!(parsed >= 10);
    let tokens = tokenize("x >o y <i z 2>e w");
    if let ParseResult::Parsed(tree) = parse(&tokens) {
        let mut args = Vec::new();
        all_args(&tree, &mut args);
        assert_eq!(args, vec!["x", "y", "z", "w"]);
    } else {
        panic!("no tree");
    }
}

fn command_of(args: &[&str]) -> shell_parser::ast::Command {
    shell_parser::ast::Command {
        args: args.iter().map(|s| s.to_string()).collect(),
        input: shell_parser::ast::InputSource::Stdin,
        output: shell_parser::ast::OutputSink::Stdout,
        error: shell_parser::ast::OutputSink::Stderr,
    }
}

#[test]
fn plain_words_that_stand_apart_are_one_command() {
    let layouts: [(&[&str], &[&str], &str); 5] = [
        (&["  ", " "], &["hi", "there"], ""),
        (&["", "\t "], &["2", "2x"], " \u{a0}"),
        (&[""], &["x=1,y:2"], ""),
        (&[" ", " ", " ", " "], &["a", "-b", "--c", "d.e/f"], "\n"),
        (&["\u{3000}", "\u{2003}"], &["\u{e9}t\u{e9}", "2"], ""),
    ];
    for (gaps, texts, trail) in layouts.iter() {
        let mut line = String::new();
        for (gap, text) in gaps.iter().zip(texts.iter()) {
            line.push_str(gap);
            line.push_str(text);
        }
        line.push_str(trail);
        let tokens = tokenize(&line);
        let expected: Vec<Token> = texts.iter().map(|t| word(t)).collect();
        assert_eq!(tokens, expected, "{:?}", line);
        assert_eq!(
            parse(&tokens),
            ParseResult::Parsed(CommandLine::Singleton(command_of(texts))),
            "{:?}",
            line
        );
    }
}

#[test]
fn a_quoted_run_is_part_of_its_word() {
    let cases = [
        ("d", "e f", "g", "", "de fg"),
        ("", "a b", "", " x", "a b"),
        ("x", "", "y", "|z", "xy"),
        ("ab", "c'd;e", "f", "\\", "abc'd;ef"),
    ];
    for (before, body, after, rest, expected) in cases.iter() {
        let double = format!("{}\"{}\"{}{}", before, body, after, rest);
        assert_eq!(tokenize(&double)[0], word(expected), "{:?}", double);
    }
    assert_eq!(tokenize("'a \\ \" b'"), vec![word("a \\ \" b")]);
    assert_eq!(tokenize("\"a ' b\""), vec![word("a ' b")]);
}

#[test]
fn operators_group_from_the_left() {
    let cmd = |s: &str| PartParse::Cmd(command_of(&[s]));
    let single = |s: &str| CommandLine::Singleton(command_of(&[s]));
    let node = |t: &Token, lines: Vec<CommandLine>| match t {
        Token::Pipe => CommandLine::Pipeline(lines),
        Token::And => CommandLine::And(lines),
        Token::Or => CommandLine::Or(lines),
        _ => CommandLine::Sequence(lines),
    };
    let binary = [Token::Pipe, Token::And, Token::Or, Token::Sequence];
    for first in binary.iter() {
        for second in binary.iter() {
            let parts = [
                cmd("a"),
                PartParse::Sep(first.clone()),
                cmd("b"),
                PartParse::Sep(second.clone()),
                cmd("c"),
            ];
            let expected = if first == second {
                node(first, vec![single("a"), single("b"), single("c")])
            } else {
                node(second, vec![node(first, vec![single("a"), single("b")]), single("c")])
            };
            assert_eq!(finish_parse(&parts), ParseResult::Parsed(expected));
        }
    }
    assert_eq!(
        finish_parse(&[cmd("a"), PartParse::Sep(Token::Background), cmd("b")]),
        ParseResult::Parsed(CommandLine::Sequence(vec![
            CommandLine::Background(Box::new(single("a"))),
            single("b"),
        ]))
    );
}

#[test]
fn the_first_misplaced_part_decides_the_failure() {
    let cmd = |s: &str| PartParse::Cmd(command_of(&[s]));
    let sep = |t: Token| PartParse::Sep(t);
    assert_eq!(
        finish_parse(&[cmd("a"), sep(Token::Pipe), sep(Token::And), cmd("b"), cmd("c")]),
        ParseResult::Error("Found a separator where a command was expected.".to_string())
    );
    assert_eq!(
        finish_parse(&[cmd("a"), sep(Token::Pipe), cmd("b"), cmd("c"), sep(Token::And), sep(Token::Or)]),
        ParseResult::Error("Found a command where a separator was expected.".to_string())
    );
    assert_eq!(
        finish_parse(&[cmd("a"), sep(Token::Background), sep(Token::Background), cmd("b"), cmd("c")]),
        ParseResult::Error("Found a command where a separator was expected.".to_string())
    );
}
