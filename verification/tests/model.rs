// A second statement of the lexer and the parser, written as plain loops over
// indices, against which the library is run on every short input.

use shell_parser::ast::{Command, CommandLine, InputSource, OutputSink, ParseResult};
use shell_parser::parser::{parse, parse_tokens};
use shell_parser::token::Token;
use shell_parser::tokenizer::{consume_string, tokenize, Consumption};

fn separator(c: &[char], offset: usize) -> bool {
    if c[offset].is_whitespace() {
        return true;
    }
    match c[offset] {
        '<' | '>' | ';' | '&' | '|' | '(' | ')' => true,
        '\\' => offset + 1 == c.len(),
        _ => false,
    }
}

fn skip_whitespace(c: &[char], offset: usize) -> usize {
    let mut end = offset;
    while end < c.len() && c[end].is_whitespace() {
        end += 1;
    }
    end
}

fn single_quoted(c: &[char], offset: usize) -> (Token, usize) {
    let mut end = offset + 1;
    while end < c.len() && c[end] != '\'' {
        end += 1;
    }
    if end == c.len() {
        (Token::LexError("Missing '.".to_string()), end)
    } else {
        (Token::Word(c[offset + 1..end].iter().collect()), end + 1)
    }
}

fn double_quoted(c: &[char], offset: usize) -> (Token, usize) {
    let mut s = String::new();
    let mut end = offset + 1;
    while end < c.len() && c[end] != '"' {
        if c[end] == '\\' && end + 1 != c.len() {
            match c[end + 1] {
                '"' => s.push('"'),
                '\\' => s.push('\\'),
                other => {
                    s.push('\\');
                    s.push(other);
                },
            }
            end += 2;
        } else {
            s.push(c[end]);
            end += 1;
        }
    }
    if end == c.len() {
        (Token::LexError("Missing \".".to_string()), end)
    } else {
        (Token::Word(s), end + 1)
    }
}

fn word(c: &[char], offset: usize) -> (Token, usize) {
    let mut s = String::new();
    let mut end = offset;
    while end < c.len() {
        if separator(c, end) {
            break;
        }
        match c[end] {
            '"' | '\'' => {
                let r = if c[end] == '"' { double_quoted(c, end) } else { single_quoted(c, end) };
                match r {
                    (Token::Word(qs), next) => {
                        s += &qs;
                        end = next;
                    },
                    other => return other,
                }
            },
            ch => {
                s.push(ch);
                end += 1;
            },
        }
    }
    (Token::Word(s), end)
}

fn redirect(c: &[char], offset: usize, lead: usize, channel: &str) -> (Token, usize) {
    let start = skip_whitespace(c, offset + lead);
    match word(c, start) {
        (Token::Word(name), end) => {
            if !name.is_empty() {
                let t = match channel {
                    "input" => Token::RedirectInput(name),
                    "output" => Token::RedirectOutput(name),
                    _ => Token::RedirectError(name),
                };
                (t, end)
            } else {
                (Token::LexError(format!("No {} file specified.", channel)), c.len())
            }
        },
        (failure, _) => (failure, c.len()),
    }
}

fn two(c: &[char], offset: usize) -> (Token, usize) {
    if offset + 3 < c.len()
        && c[offset + 1] == '>'
        && c[offset + 2] == '&'
        && c[offset + 3] == '1'
        && (offset + 4 == c.len() || separator(c, offset + 4))
    {
        (Token::RedirectErrorToOutput, offset + 4)
    } else if offset + 1 < c.len() && c[offset + 1] == '>' {
        redirect(c, offset, 2, "error")
    } else {
        word(c, offset)
    }
}

fn token(c: &[char], offset: usize) -> (Token, usize) {
    let (t, end) = match c[offset] {
        '|' => {
            if offset + 1 < c.len() && c[offset + 1] == '|' {
                (Token::Or, offset + 2)
            } else {
                (Token::Pipe, offset + 1)
            }
        },
        '>' => redirect(c, offset, 1, "output"),
        '<' => redirect(c, offset, 1, "input"),
        '&' => {
            if offset + 1 < c.len() && c[offset + 1] == '&' {
                (Token::And, offset + 2)
            } else {
                (Token::Background, offset + 1)
            }
        },
        '2' => two(c, offset),
        ';' => (Token::Sequence, offset + 1),
        '(' => (Token::OpenSubshell, offset + 1),
        ')' => (Token::CloseSubshell, offset + 1),
        '\\' => {
            if offset + 1 < c.len() {
                word(c, offset)
            } else {
                (Token::Continuation, offset + 1)
            }
        },
        _ => word(c, offset),
    };
    (t, skip_whitespace(c, end))
}

fn tokens(line: &str) -> Vec<Token> {
    let c: Vec<char> = line.chars().collect();
    let mut out = Vec::new();
    let mut offset = skip_whitespace(&c, 0);
    while offset != c.len() {
        let (t, next) = token(&c, offset);
        offset = next;
        out.push(t);
    }
    out
}

enum Part {
    Line(CommandLine),
    Sep(Token),
}

fn command(ts: &[Token]) -> Result<Command, String> {
    let mut args = Vec::new();
    let mut i = InputSource::Stdin;
    let mut o = OutputSink::Stdout;
    let mut e = OutputSink::Stderr;
    for t in ts {
        match t {
            Token::Word(s) => args.push(s.clone()),
            Token::RedirectOutput(s) => {
                if o != OutputSink::Stdout {
                    return Err("Multiple output redirects.".to_string());
                }
                o = OutputSink::File(s.clone());
            },
            Token::RedirectError(s) => {
                if e != OutputSink::Stderr {
                    return Err("Multiple error redirects.".to_string());
                }
                e = OutputSink::File(s.clone());
            },
            Token::RedirectErrorToOutput => {
                if e != OutputSink::Stderr {
                    return Err("Multiple error redirects.".to_string());
                }
                e = o.clone();
            },
            Token::RedirectInput(s) => {
                if i != InputSource::Stdin {
                    return Err("Multiple input redirects.".to_string());
                }
                i = InputSource::File(s.clone());
            },
            _ => return Err("Unexpected token.".to_string()),
        }
    }
    Ok(Command { args, input: i, output: o, error: e })
}

// `None` stands for a list of parts that is empty.
fn finish(parts: Vec<Part>) -> Option<ParseResult> {
    let mut parts = parts.into_iter();
    let mut cur = match parts.next()? {
        Part::Sep(_) => return Some(ParseResult::Error("No initial command.".to_string())),
        Part::Line(l) => l,
    };
    let mut required = false;
    let mut allowed = false;
    for p in parts {
        match p {
            Part::Line(l) => {
                if !allowed {
                    return Some(ParseResult::Error(
                        "Found a command where a separator was expected.".to_string(),
                    ));
                }
                required = false;
                allowed = false;
                cur = match cur {
                    CommandLine::Singleton(_) => unreachable!(),
                    CommandLine::Pipeline(mut v) => {
                        v.push(l);
                        CommandLine::Pipeline(v)
                    },
                    CommandLine::Sequence(mut v) => {
                        v.push(l);
                        CommandLine::Sequence(v)
                    },
                    CommandLine::And(mut v) => {
                        v.push(l);
                        CommandLine::And(v)
                    },
                    CommandLine::Or(mut v) => {
                        v.push(l);
                        CommandLine::Or(v)
                    },
                    b => CommandLine::Sequence(vec![b, l]),
                };
            },
            Part::Sep(t) => {
                if required {
                    return Some(ParseResult::Error(
                        "Found a separator where a command was expected.".to_string(),
                    ));
                }
                required = true;
                allowed = true;
                cur = match (t, cur) {
                    (Token::Pipe, CommandLine::Pipeline(v)) => CommandLine::Pipeline(v),
                    (Token::Pipe, other) => CommandLine::Pipeline(vec![other]),
                    (Token::And, CommandLine::And(v)) => CommandLine::And(v),
                    (Token::And, other) => CommandLine::And(vec![other]),
                    (Token::Or, CommandLine::Or(v)) => CommandLine::Or(v),
                    (Token::Or, other) => CommandLine::Or(vec![other]),
                    (Token::Sequence, CommandLine::Sequence(v)) => CommandLine::Sequence(v),
                    (Token::Sequence, other) => CommandLine::Sequence(vec![other]),
                    (Token::Background, other) => {
                        required = false;
                        CommandLine::Background(Box::new(other))
                    },
                    _ => unreachable!(),
                };
            },
        }
    }
    Some(if required {
        ParseResult::Error("Missing command at end of line.".to_string())
    } else {
        ParseResult::Parsed(cur)
    })
}

fn flush(cur: &mut Vec<Token>, parts: &mut Vec<Part>) -> Result<(), ParseResult> {
    if !cur.is_empty() {
        match command(cur) {
            Ok(c) => {
                parts.push(Part::Line(CommandLine::Singleton(c)));
                cur.clear();
            },
            Err(e) => return Err(ParseResult::Error(e)),
        }
    }
    Ok(())
}

fn level(ts: &[Token], depth: usize, idx: &mut usize) -> Option<ParseResult> {
    let mut parts = Vec::new();
    let mut cur = Vec::new();
    while *idx < ts.len() {
        let t = ts[*idx].clone();
        match t {
            Token::LexError(e) => return Some(ParseResult::Error(e)),
            Token::Pipe | Token::And | Token::Or | Token::Background | Token::Sequence => {
                if let Err(e) = flush(&mut cur, &mut parts) {
                    return Some(e);
                }
                parts.push(Part::Sep(t));
            },
            Token::OpenSubshell => {
                if let Err(e) = flush(&mut cur, &mut parts) {
                    return Some(e);
                }
                *idx += 1;
                match level(ts, depth + 1, idx)? {
                    ParseResult::Parsed(cl) => parts.push(Part::Line(cl)),
                    other => return Some(other),
                }
            },
            Token::CloseSubshell => {
                if depth == 0 {
                    return Some(ParseResult::Error("Unexpected ')'.".to_string()));
                }
                if let Err(e) = flush(&mut cur, &mut parts) {
                    return Some(e);
                }
                return finish(parts);
            },
            Token::Continuation => {},
            _ => cur.push(t),
        }
        *idx += 1;
    }
    if depth > 0 {
        return Some(ParseResult::Error("Expected ')'".to_string()));
    }
    if let Err(e) = flush(&mut cur, &mut parts) {
        return Some(e);
    }
    finish(parts)
}

fn model_parse(ts: &[Token]) -> Option<ParseResult> {
    if ts.is_empty() {
        return Some(ParseResult::Parsed(CommandLine::Sequence(vec![])));
    }
    if ts[ts.len() - 1] == Token::Continuation {
        return Some(ParseResult::ContinuationRequired);
    }
    let mut idx = 0;
    level(ts, 0, &mut idx)
}

fn each_sequence<T: Clone>(alphabet: &[T], max_len: usize, visit: &mut dyn FnMut(&[T])) {
    let n = alphabet.len();
    for length in 0..=max_len {
        let total = n.pow(length as u32);
        let mut buffer: Vec<T> = Vec::with_capacity(length);
        for code in 0..total {
            buffer.clear();
            let mut rest = code;
            for _ in 0..length {
                buffer.push(alphabet[rest % n].clone());
                rest /= n;
            }
            visit(&buffer);
        }
    }
}

#[test]
fn tokenize_agrees_with_the_model_on_short_lines() {
    let alphabet = ['a', '2', '1', '>', '<', '&', '|', ';', '(', ')', '\'', '"', '\\', ' '];
    let mut count = 0;
    each_sequence(&alphabet, 4, &mut |chars| {
        let line: String = chars.iter().collect();
        assert_eq!(tokenize(&line), tokens(&line), "{:?}", line);
        count += 1;
    });
    assert_eq!(count, 1 + 14 + 196 + 2744 + 38416);
}

#[test]
fn tokenize_agrees_with_the_model_on_redirections_and_quotes() {
    let alphabet = ['x', '2', '1', '>', '&', '"', '\\', ' '];
    each_sequence(&alphabet, 6, &mut |chars| {
        let line: String = chars.iter().collect();
        assert_eq!(tokenize(&line), tokens(&line), "{:?}", line);
    });
}

#[test]
fn words_agree_with_the_model_at_every_offset() {
    let alphabet = ['a', '\'', '"', '\\', ' ', '|'];
    each_sequence(&alphabet, 5, &mut |chars| {
        for offset in 0..=chars.len() {
            let (t, end) = word(chars, offset);
            assert_eq!(consume_string(chars, offset), Consumption { t, offset: end }, "{:?}", chars);
        }
        let beyond = chars.len() + 2;
        assert_eq!(
            consume_string(chars, beyond),
            Consumption { t: Token::Word(String::new()), offset: beyond }
        );
    });
}

fn same(ours: &ParseResult, model: &ParseResult) -> bool {
    match (ours, model) {
        (ParseResult::Error(a), ParseResult::Error(b)) => {
            a == b || (a.starts_with("Unexpected token: ") && b == "Unexpected token.")
        },
        _ => ours == model,
    }
}

#[test]
fn parse_agrees_with_the_model_on_short_token_sequences() {
    let alphabet = [
        Token::Word("w".to_string()),
        Token::RedirectOutput("o".to_string()),
        Token::RedirectErrorToOutput,
        Token::Pipe,
        Token::And,
        Token::Background,
        Token::Sequence,
        Token::OpenSubshell,
        Token::CloseSubshell,
        Token::Continuation,
        Token::LexError("e".to_string()),
    ];
    each_sequence(&alphabet, 5, &mut |ts| {
        let ours = parse(ts);
        match model_parse(ts) {
            Some(model) => assert!(same(&ours, &model), "{:?}: {:?} / {:?}", ts, ours, model),
            None => assert_eq!(ours, ParseResult::Error("No initial command.".to_string())),
        }
    });
}

#[test]
fn a_level_agrees_with_the_model_from_every_offset() {
    let alphabet = [
        Token::Word("w".to_string()),
        Token::Pipe,
        Token::Background,
        Token::OpenSubshell,
        Token::CloseSubshell,
        Token::Continuation,
    ];
    each_sequence(&alphabet, 5, &mut |ts| {
        for start in 0..=ts.len() + 1 {
            for depth in 0..2 {
                let mut ours_idx = start;
                let ours = parse_tokens(ts, depth, &mut ours_idx);
                let mut model_idx = start;
                match level(ts, depth, &mut model_idx) {
                    Some(model) => {
                        assert!(same(&ours, &model), "{:?} from {}", ts, start);
                        assert_eq!(ours_idx, model_idx, "{:?} from {}", ts, start);
                    },
                    None => {
                        assert_eq!(ours, ParseResult::Error("No initial command.".to_string()));
                    },
                }
            }
        }
    });
}
