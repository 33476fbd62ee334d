use either::Either;
use shell_parser::ast::{Command, CommandLine, InputSource, OutputSink, ParseResult, PartParse};
use shell_parser::parser::{append_to_cl, finish_parse, make_command, parse, parse_tokens, part_to_cl};
use shell_parser::token::Token;
use shell_parser::tokenizer::tokenize;

fn word(s: &str) -> Token {
    Token::Word(s.to_string())
}

fn command(args: &[&str]) -> Command {
    Command {
        args: args.iter().map(|s| s.to_string()).collect(),
        input: InputSource::Stdin,
        output: OutputSink::Stdout,
        error: OutputSink::Stderr,
    }
}

fn single(args: &[&str]) -> CommandLine {
    CommandLine::Singleton(command(args))
}

fn parsed(line: CommandLine) -> ParseResult {
    ParseResult::Parsed(line)
}

fn failed(message: &str) -> ParseResult {
    ParseResult::Error(message.to_string())
}

fn parse_line(line: &str) -> ParseResult {
    parse(&tokenize(line))
}

#[test]
fn no_tokens_are_an_empty_sequence() {
    assert_eq!(parse(&[]), parsed(CommandLine::Sequence(vec![])));
    assert_eq!(parse_line(""), parsed(CommandLine::Sequence(vec![])));
    assert_eq!(parse_line("  \t "), parsed(CommandLine::Sequence(vec![])));
}

#[test]
fn words_and_redirections_make_one_command() {
    assert_eq!(
        parse_line("sort -r <in >out 2>err"),
        parsed(CommandLine::Singleton(Command {
            args: vec!["sort".to_string(), "-r".to_string()],
            input: InputSource::File("in".to_string()),
            output: OutputSink::File("out".to_string()),
            error: OutputSink::File("err".to_string()),
        }))
    );
}

#[test]
fn error_to_output_takes_the_output_of_the_moment() {
    assert_eq!(
        make_command(&[word("a"), Token::RedirectErrorToOutput]),
        Either::Left(Command {
            args: vec!["a".to_string()],
            input: InputSource::Stdin,
            output: OutputSink::Stdout,
            error: OutputSink::Stdout,
        })
    );
    assert_eq!(
        make_command(&[Token::RedirectOutput("o".to_string()), Token::RedirectErrorToOutput]),
        Either::Left(Command {
            args: vec![],
            input: InputSource::Stdin,
            output: OutputSink::File("o".to_string()),
            error: OutputSink::File("o".to_string()),
        })
    );
}

#[test]
fn a_second_redirection_of_a_channel_fails() {
    let out = |s: &str| Token::RedirectOutput(s.to_string());
    let inp = |s: &str| Token::RedirectInput(s.to_string());
    let err = |s: &str| Token::RedirectError(s.to_string());
    assert_eq!(
        make_command(&[word("a"), out("x"), word("b"), out("y")]),
        Either::Right("Multiple output redirects.".to_string())
    );
    assert_eq!(
        make_command(&[inp("x"), inp("x")]),
        Either::Right("Multiple input redirects.".to_string())
    );
    assert_eq!(
        make_command(&[err("x"), word("a"), err("y")]),
        Either::Right("Multiple error redirects.".to_string())
    );
    assert_eq!(
        make_command(&[err("x"), Token::RedirectErrorToOutput]),
        Either::Right("Multiple error redirects.".to_string())
    );
    assert_eq!(
        make_command(&[Token::RedirectErrorToOutput, Token::RedirectErrorToOutput]),
        Either::Right("Multiple error redirects.".to_string())
    );
    assert_eq!(
        make_command(&[
            word("foo"),
            word("bar"),
            Token::RedirectErrorToOutput,
            err("/dev/null"),
            out("baz"),
        ]),
        Either::Right("Multiple error redirects.".to_string())
    );
    assert_eq!(
        make_command(&[out("x"), out("y"), Token::Pipe]),
        Either::Right("Multiple output redirects.".to_string())
    );
    assert_eq!(parse_line("a >x >y | b"), failed("Multiple output redirects."));
    assert_eq!(parse_line("(a <x <y)"), failed("Multiple input redirects."));
}

#[test]
fn a_token_outside_the_vocabulary_fails() {
    let message = |t: Token| match make_command(&[word("a"), t]) {
        Either::Right(m) => m,
        Either::Left(_) => panic!("a command"),
    };
    assert_eq!(message(Token::Background), "Unexpected token: &.");
    assert_eq!(message(Token::Pipe), "Unexpected token: |.");
    assert_eq!(message(Token::Or), "Unexpected token: ||.");
    assert_eq!(message(Token::And), "Unexpected token: &&.");
    assert_eq!(message(Token::Sequence), "Unexpected token: ;.");
    assert_eq!(message(Token::OpenSubshell), "Unexpected token: (.");
    assert_eq!(message(Token::CloseSubshell), "Unexpected token: ).");
    assert_eq!(message(Token::Continuation), "Unexpected token: \\.");
    assert_eq!(message(Token::LexError("Missing '.".to_string())), "Unexpected token: Missing '..");
}

#[test]
fn background_then_command_is_a_sequence() {
    assert_eq!(
        parse_line("cmd1 & cmd2"),
        parsed(CommandLine::Sequence(vec![
            CommandLine::Background(Box::new(single(&["cmd1"]))),
            single(&["cmd2"]),
        ]))
    );
    assert_eq!(parse_line("cmd1 &"), parsed(CommandLine::Background(Box::new(single(&["cmd1"])))));
    assert_eq!(
        parse_line("a & b & c"),
        parsed(CommandLine::Sequence(vec![
            CommandLine::Background(Box::new(CommandLine::Sequence(vec![
                CommandLine::Background(Box::new(single(&["a"]))),
                single(&["b"]),
            ]))),
            single(&["c"]),
        ]))
    );
    assert_eq!(
        parse_line("a & ; b"),
        parsed(CommandLine::Sequence(vec![
            CommandLine::Background(Box::new(single(&["a"]))),
            single(&["b"]),
        ]))
    );
    assert_eq!(
        parse_line("a & | b"),
        parsed(CommandLine::Pipeline(vec![
            CommandLine::Background(Box::new(single(&["a"]))),
            single(&["b"]),
        ]))
    );
}

#[test]
fn the_first_operator_takes_all_that_stands_before() {
    assert_eq!(
        parse_line("foo && bar && baz"),
        parsed(CommandLine::And(vec![single(&["foo"]), single(&["bar"]), single(&["baz"])]))
    );
    assert_eq!(
        parse_line("foo && bar | baz"),
        parsed(CommandLine::Pipeline(vec![
            CommandLine::And(vec![single(&["foo"]), single(&["bar"])]),
            single(&["baz"]),
        ]))
    );
    assert_eq!(
        parse_line("a | b || c ; d"),
        parsed(CommandLine::Sequence(vec![
            CommandLine::Or(vec![
                CommandLine::Pipeline(vec![single(&["a"]), single(&["b"])]),
                single(&["c"]),
            ]),
            single(&["d"]),
        ]))
    );
    assert_eq!(
        parse_line("a ; b ; c"),
        parsed(CommandLine::Sequence(vec![single(&["a"]), single(&["b"]), single(&["c"])]))
    );
    assert_eq!(
        parse_line("a | b && c | d"),
        parsed(CommandLine::Pipeline(vec![
            CommandLine::And(vec![
                CommandLine::Pipeline(vec![single(&["a"]), single(&["b"])]),
                single(&["c"]),
            ]),
            single(&["d"]),
        ]))
    );
}

#[test]
fn subshells_nest() {
    assert_eq!(parse_line("(a)"), parsed(single(&["a"])));
    assert_eq!(parse_line("((a))"), parsed(single(&["a"])));
    assert_eq!(
        parse_line("(a | b) && (c ; (d || e))"),
        parsed(CommandLine::And(vec![
            CommandLine::Pipeline(vec![single(&["a"]), single(&["b"])]),
            CommandLine::Sequence(vec![
                single(&["c"]),
                CommandLine::Or(vec![single(&["d"]), single(&["e"])]),
            ]),
        ]))
    );
    assert_eq!(
        parse_line("(a | b) | c"),
        parsed(CommandLine::Pipeline(vec![single(&["a"]), single(&["b"]), single(&["c"])]))
    );
    assert_eq!(
        parse_line("a | (b | c)"),
        parsed(CommandLine::Pipeline(vec![
            single(&["a"]),
            CommandLine::Pipeline(vec![single(&["b"]), single(&["c"])]),
        ]))
    );
}

#[test]
fn grammar_errors() {
    assert_eq!(parse_line("foo && | bar"), failed("Found a separator where a command was expected."));
    assert_eq!(parse_line("foo && bar &&"), failed("Missing command at end of line."));
    assert_eq!(parse_line("foo |"), failed("Missing command at end of line."));
    assert_eq!(parse_line("(foo"), failed("Expected ')'"));
    assert_eq!(parse_line("(foo | (bar)"), failed("Expected ')'"));
    assert_eq!(parse_line(")"), failed("Unexpected ')'."));
    assert_eq!(parse_line("foo )"), failed("Unexpected ')'."));
    assert_eq!(parse_line("(foo))"), failed("Unexpected ')'."));
    assert_eq!(parse_line("| foo"), failed("No initial command."));
    assert_eq!(parse_line("&"), failed("No initial command."));
    assert_eq!(parse_line("(; a)"), failed("No initial command."));
    assert_eq!(parse_line("()"), failed("No initial command."));
    assert_eq!(parse_line("a | ()"), failed("No initial command."));
    assert_eq!(parse_line("foo (bar)"), failed("Found a command where a separator was expected."));
    assert_eq!(parse_line("(foo) bar"), failed("Found a command where a separator was expected."));
    assert_eq!(parse_line("(a) (b)"), failed("Found a command where a separator was expected."));
    assert_eq!(parse_line("a ; ; b"), failed("Found a separator where a command was expected."));
    assert_eq!(parse_line("a | & b"), failed("Found a separator where a command was expected."));
    assert_eq!(parse_line("(a &&) | b"), failed("Missing command at end of line."));
}

#[test]
fn a_lexical_error_fails_the_parse_with_its_message() {
    assert_eq!(parse_line("foo 'bar"), failed("Missing '."));
    assert_eq!(parse_line("foo | bar \"baz"), failed("Missing \"."));
    assert_eq!(parse_line("foo >"), failed("No output file specified."));
    assert_eq!(parse_line("(foo <"), failed("No input file specified."));
    assert_eq!(parse_line("foo 2>"), failed("No error file specified."));
    assert_eq!(parse_line("foo > 'x"), failed("Missing '."));
    assert_eq!(parse(&[Token::LexError("boom".to_string())]), failed("boom"));
    assert_eq!(
        parse(&[word("a"), Token::RedirectOutput("x".to_string()), Token::RedirectOutput("y".to_string()), Token::LexError("boom".to_string())]),
        failed("boom")
    );
}

#[test]
fn the_first_failure_in_scan_order_wins() {
    assert_eq!(parse_line("a >x >y | 'z"), failed("Multiple output redirects."));
    assert_eq!(parse_line("| a ) 'z"), failed("Unexpected ')'."));
    assert_eq!(parse_line("(| a) 'z"), failed("No initial command."));
    assert_eq!(parse_line("(a >x >y"), failed("Expected ')'"));
    assert_eq!(parse_line("a >x >y )"), failed("Unexpected ')'."));
}

#[test]
fn a_trailing_continuation_asks_for_more() {
    assert_eq!(parse_line("foo && bar && \\"), ParseResult::ContinuationRequired);
    assert_eq!(parse_line("\\"), ParseResult::ContinuationRequired);
    assert_eq!(parse_line("(foo \\"), ParseResult::ContinuationRequired);
    assert_eq!(parse_line(") | | \\"), ParseResult::ContinuationRequired);
    assert_eq!(
        parse(&[Token::LexError("boom".to_string()), Token::Continuation]),
        ParseResult::ContinuationRequired
    );
}

#[test]
fn a_stray_continuation_changes_nothing() {
    let with = vec![
        Token::Continuation,
        word("foo"),
        Token::Continuation,
        word("x"),
        Token::And,
        Token::Continuation,
        Token::OpenSubshell,
        Token::Continuation,
        word("bar"),
        Token::Continuation,
        Token::CloseSubshell,
    ];
    let without: Vec<Token> =
        with.iter().filter(|t| **t != Token::Continuation).map(|t| t.clone()).collect();
    assert_eq!(parse(&with), parse(&without));
    assert_eq!(
        parse(&with),
        parsed(CommandLine::And(vec![single(&["foo", "x"]), single(&["bar"])]))
    );
    assert_eq!(
        parse(&[Token::OpenSubshell, Token::Continuation, Token::CloseSubshell]),
        failed("No initial command.")
    );
}

#[test]
fn two_lines_parse_as_the_joined_line() {
    let pairs = [
        ("foo && bar && ", "baz"),
        ("foo", "bar | baz"),
        ("(a | b", ") ; c"),
        ("a >", "out"),
        ("x 2>&1", "| y"),
        ("  ", "a & b"),
        ("a ;", ") b"),
        ("a |", "| b"),
        ("a 'b c'", "d \\"),
        ("a", "'b"),
    ];
    for (first, second) in pairs.iter() {
        let continued = format!("{}\\", first);
        let mut halves = tokenize(&continued);
        if halves.iter().any(|t| matches!(t, Token::LexError(_))) {
            continue;
        }
        assert_eq!(halves.last(), Some(&Token::Continuation), "{}", first);
        assert_eq!(parse(&halves), ParseResult::ContinuationRequired);
        halves.extend(tokenize(second));
        let joined = format!("{} {}", first, second);
        assert_eq!(parse(&halves), parse(&tokenize(&joined)), "{} / {}", first, second);
    }
    let mut halves = tokenize("foo && bar && \\");
    halves.extend(tokenize("baz"));
    assert_eq!(
        parse(&halves),
        parsed(CommandLine::And(vec![single(&["foo"]), single(&["bar"]), single(&["baz"])]))
    );
}

#[test]
fn parts_become_lines() {
    assert_eq!(part_to_cl(&PartParse::Cmd(command(&["a", "b"]))), single(&["a", "b"]));
    let line = CommandLine::Or(vec![single(&["a"]), single(&["b"])]);
    assert_eq!(part_to_cl(&PartParse::Subshell(line.clone())), line);
}

#[test]
fn appending_extends_the_running_line() {
    let part = PartParse::Cmd(command(&["c"]));
    let mut pipeline = CommandLine::Pipeline(vec![single(&["a"])]);
    append_to_cl(&mut pipeline, &part);
    assert_eq!(pipeline, CommandLine::Pipeline(vec![single(&["a"]), single(&["c"])]));
    let mut sequence = CommandLine::Sequence(vec![]);
    append_to_cl(&mut sequence, &part);
    assert_eq!(sequence, CommandLine::Sequence(vec![single(&["c"])]));
    let mut and = CommandLine::And(vec![single(&["a"]), single(&["b"])]);
    append_to_cl(&mut and, &part);
    assert_eq!(and, CommandLine::And(vec![single(&["a"]), single(&["b"]), single(&["c"])]));
    let mut or = CommandLine::Or(vec![single(&["a"])]);
    append_to_cl(&mut or, &PartParse::Subshell(CommandLine::And(vec![single(&["x"])])));
    assert_eq!(
        or,
        CommandLine::Or(vec![single(&["a"]), CommandLine::And(vec![single(&["x"])])])
    );
    let mut background = CommandLine::Background(Box::new(single(&["a"])));
    append_to_cl(&mut background, &part);
    assert_eq!(
        background,
        CommandLine::Sequence(vec![
            CommandLine::Background(Box::new(single(&["a"]))),
            single(&["c"]),
        ])
    );
}

#[test]
fn finishing_folds_the_parts() {
    let cmd = |s: &str| PartParse::Cmd(command(&[s]));
    assert_eq!(finish_parse(&[cmd("a")]), parsed(single(&["a"])));
    assert_eq!(
        finish_parse(&[cmd("a"), PartParse::Sep(Token::Or), cmd("b")]),
        parsed(CommandLine::Or(vec![single(&["a"]), single(&["b"])]))
    );
    assert_eq!(
        finish_parse(&[
            PartParse::Subshell(CommandLine::Pipeline(vec![single(&["a"])])),
            PartParse::Sep(Token::Pipe),
            cmd("b"),
        ]),
        parsed(CommandLine::Pipeline(vec![single(&["a"]), single(&["b"])]))
    );
    assert_eq!(finish_parse(&[PartParse::Sep(Token::Pipe)]), failed("No initial command."));
    assert_eq!(
        finish_parse(&[cmd("a"), cmd("b")]),
        failed("Found a command where a separator was expected.")
    );
    assert_eq!(
        finish_parse(&[cmd("a"), PartParse::Sep(Token::Sequence)]),
        failed("Missing command at end of line.")
    );
    assert_eq!(
        finish_parse(&[cmd("a"), PartParse::Sep(Token::Background), PartParse::Sep(Token::Background)]),
        parsed(CommandLine::Background(Box::new(CommandLine::Background(Box::new(single(&["a"]))))))
    );
}

#[test]
fn a_level_stops_at_its_closing_parenthesis() {
    let tokens = tokenize("(a | b) ; c");
    let mut idx = 1;
    assert_eq!(
        parse_tokens(&tokens, 1, &mut idx),
        parsed(CommandLine::Pipeline(vec![single(&["a"]), single(&["b"])]))
    );
    assert_eq!(idx, 4);
    assert_eq!(tokens[idx], Token::CloseSubshell);

    let mut idx = 0;
    assert_eq!(
        parse_tokens(&tokens, 0, &mut idx),
        parsed(CommandLine::Sequence(vec![
            CommandLine::Pipeline(vec![single(&["a"]), single(&["b"])]),
            single(&["c"]),
        ]))
    );
    assert_eq!(idx, tokens.len());

    let mut idx = 5;
    assert_eq!(parse_tokens(&tokens, 0, &mut idx), failed("No initial command."));
    assert_eq!(idx, tokens.len());

    let mut idx = 4;
    assert_eq!(parse_tokens(&tokens, 0, &mut idx), failed("Unexpected ')'."));
    assert_eq!(idx, 4);

    let mut idx = 6;
    assert_eq!(parse_tokens(&tokens, 2, &mut idx), failed("Expected ')'"));
    assert_eq!(idx, tokens.len());

    let mut idx = tokens.len();
    assert_eq!(parse_tokens(&tokens, 0, &mut idx), failed("No initial command."));
    assert_eq!(idx, tokens.len());
}

#[test]
fn clones_are_equal() {
    let lines = ["(a | b >x) && c 2>&1 <y ; d &", "a", "a || (b ; (c | d))"];
    for line in lines.iter() {
        let result = parse_line(line);
        match &result {
            ParseResult::Parsed(cl) => assert_eq!(&cl.clone(), cl),
            _ => panic!("{}", line),
        }
    }
    let c = Command {
        args: vec!["x".to_string(), "y".to_string()],
        input: InputSource::File("i".to_string()),
        output: OutputSink::File("o".to_string()),
        error: OutputSink::Stdout,
    };
    assert_eq!(c.clone(), c);
}

#[test]
fn behind_the_end_there_are_no_tokens() {
    let tokens = tokenize("a | b");
    let mut idx = 7;
    assert_eq!(parse_tokens(&tokens, 1, &mut idx), failed("Expected ')'"));
    assert_eq!(idx, 7);
    let mut idx = 7;
    assert_eq!(parse_tokens(&tokens, 0, &mut idx), failed("No initial command."));
    assert_eq!(idx, 7);
}
