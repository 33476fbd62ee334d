//! Lexing and parsing of shell-style command lines.
//!
//! [`tokenizer::tokenize`] turns raw text into [`token::Token`]s and
//! [`parser::parse`] folds a token sequence into an [`ast::CommandLine`].
//! Every executable function carries a contract over the values of its
//! arguments: [`scan`] says what the tokenizer computes and [`grammar`] what
//! the parser computes. What is proved of both stands in [`words`],
//! [`invariants`], [`grouping`], [`arguments`] and [`continuation`].

pub mod arguments;
pub mod ast;
pub mod continuation;
pub mod grammar;
pub mod grouping;
pub mod invariants;
pub mod parser;
pub mod scan;
pub mod text;
pub mod token;
pub mod tokenizer;
pub mod words;
