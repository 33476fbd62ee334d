//! Plain words and quoted runs: what the tokenizer makes of text that uses
//! no operators, and how a quoted run becomes part of a word.

use vstd::prelude::*;
use either::Either;
use crate::ast::{
    CommandLineView,
    CommandView,
    InputSourceView,
    OutputSinkView,
    ParseResultView,
    PartParseView,
};
use crate::grammar::{assemble, lemma_fold_parts_push, parse_spec, scan_level};
use crate::invariants::{law_assemble_succeeds_iff, redirections, words};
use crate::scan::{
    double_quoted_run,
    is_operator_char,
    lemma_prepended_twice,
    lemma_tokens_of_first,
    scan_bare_token,
    scan_single_quoted,
    scan_word,
    separator_ahead,
    single_quote_index,
    tokenize_spec,
    whitespace_len,
    ConsumptionView,
    QuotedRun,
};
use crate::text::is_whitespace;
use crate::token::{Channel, TokenView};

verus! {

/// Whether a character always stands for itself in a word: it is no
/// whitespace, no operator character, no quote and no backslash.
pub open spec fn is_plain(ch: char) -> bool {
    !is_whitespace(ch) && !is_operator_char(ch) && ch != '\'' && ch != '"' && ch != '\\'
}

/// Whether all characters of `text` are plain.
pub open spec fn all_plain(text: Seq<char>) -> bool {
    forall|i: int| 0 <= i < text.len() ==> is_plain(#[trigger] text[i])
}

/// Whether all characters of `text` are whitespace.
pub open spec fn is_blank(text: Seq<char>) -> bool {
    forall|i: int| 0 <= i < text.len() ==> is_whitespace(#[trigger] text[i])
}

/// Whether a word can end in front of `rest`: at the end of the input or at
/// a separator.
pub open spec fn ends_word(rest: Seq<char>) -> bool {
    rest.len() == 0 || separator_ahead(rest)
}

/// The word tokens with the texts `texts`.
pub open spec fn word_tokens(texts: Seq<Seq<char>>) -> Seq<TokenView> {
    Seq::new(texts.len(), |i: int| TokenView::Word(texts[i]))
}

/// The line in which each word of `texts` stands behind its gap, and `trail`
/// behind the last word.
pub open spec fn laid_out(gaps: Seq<Seq<char>>, texts: Seq<Seq<char>>, trail: Seq<char>) -> Seq<
    char,
>
    decreases texts.len(),
{
    if texts.len() == 0 || gaps.len() == 0 {
        trail
    } else {
        gaps[0] + texts[0] + laid_out(gaps.skip(1), texts.skip(1), trail)
    }
}

/// Whether `gaps` and `trail` are whitespace that sets the plain words
/// `texts` apart: one gap in front of each word, none but the first empty.
pub open spec fn sets_apart(gaps: Seq<Seq<char>>, texts: Seq<Seq<char>>, trail: Seq<char>) -> bool {
    &&& gaps.len() == texts.len()
    &&& is_blank(trail)
    &&& forall|i: int| 0 <= i < gaps.len() ==> is_blank(#[trigger] gaps[i])
    &&& forall|i: int| 1 <= i < gaps.len() ==> (#[trigger] gaps[i]).len() > 0
    &&& forall|i: int|
        0 <= i < texts.len() ==> (#[trigger] texts[i]).len() > 0 && all_plain(texts[i])
}

/// Plain characters in front of a word become its first characters.
pub proof fn lemma_scan_word_plain(text: Seq<char>, rest: Seq<char>)
    requires
        all_plain(text),
    ensures
        scan_word(text + rest) == scan_word(rest).prepended(text, text.len()),
    decreases text.len(),
{
    let s = text + rest;
    if text.len() == 0 {
        lemma_prepended_nothing(scan_word(rest));
    } else {
        assert(s.skip(1) == text.skip(1) + rest);
        assert(all_plain(text.skip(1))) by {
            assert forall|i: int| 0 <= i < text.skip(1).len() implies is_plain(
                #[trigger] text.skip(1)[i],
            ) by {
                assert(text.skip(1)[i] == text[i + 1]);
            }
        }
        lemma_scan_word_plain(text.skip(1), rest);
        lemma_prepended_twice(
            scan_word(rest),
            text.skip(1),
            text.skip(1).len(),
            seq![text[0]],
            1,
        );
        assert(seq![text[0]] + text.skip(1) == text);
    }
}

/// Reading nothing ahead of a word scan changes nothing.
proof fn lemma_prepended_nothing(scan: ConsumptionView)
    ensures
        scan.prepended(Seq::empty(), 0) == scan,
{
    if let TokenView::Word(w) = scan.t {
        assert(Seq::<char>::empty() + w == w);
    }
}

/// Between double quotes, characters other than `"` and `\` stand for
/// themselves.
pub proof fn law_double_quoted_literal(body: Seq<char>, rest: Seq<char>)
    requires
        forall|i: int| 0 <= i < body.len() ==> #[trigger] body[i] != '"' && body[i] != '\\',
    ensures
        double_quoted_run(body + seq!['"'] + rest) == (QuotedRun {
            text: body,
            len: body.len(),
            closed: true,
        }),
    decreases body.len(),
{
    let s = body + seq!['"'] + rest;
    if body.len() > 0 {
        assert(s.skip(1) == body.skip(1) + seq!['"'] + rest);
        assert forall|i: int| 0 <= i < body.skip(1).len() implies #[trigger] body.skip(1)[i] != '"'
            && body.skip(1)[i] != '\\' by {
            assert(body.skip(1)[i] == body[i + 1]);
        }
        law_double_quoted_literal(body.skip(1), rest);
        assert(seq![body[0]] + body.skip(1) == body);
    } else {
        assert(body == Seq::<char>::empty());
    }
}

/// Between single quotes, every character but `'` stands for itself.
pub proof fn law_single_quoted_literal(body: Seq<char>, rest: Seq<char>)
    requires
        forall|i: int| 0 <= i < body.len() ==> #[trigger] body[i] != '\'',
    ensures
        scan_single_quoted(seq!['\''] + body + seq!['\''] + rest) == (ConsumptionView {
            t: TokenView::Word(body),
            offset: body.len() + 2,
        }),
{
    let s = seq!['\''] + body + seq!['\''] + rest;
    assert(s.skip(1) == body + seq!['\''] + rest);
    lemma_single_quote_index_literal(body, seq!['\''] + rest);
    assert(body + (seq!['\''] + rest) == body + seq!['\''] + rest);
    assert(s.subrange(1, body.len() as int + 1) == body);
}

/// The first `'` behind characters that are none stands right behind them.
proof fn lemma_single_quote_index_literal(body: Seq<char>, rest: Seq<char>)
    requires
        forall|i: int| 0 <= i < body.len() ==> #[trigger] body[i] != '\'',
        rest.len() > 0,
        rest[0] == '\'',
    ensures
        single_quote_index(body + rest) == body.len(),
    decreases body.len(),
{
    let s = body + rest;
    if body.len() > 0 {
        assert(s.skip(1) == body.skip(1) + rest);
        assert forall|i: int| 0 <= i < body.skip(1).len() implies #[trigger] body.skip(1)[i]
            != '\'' by {
            assert(body.skip(1)[i] == body[i + 1]);
        }
        lemma_single_quote_index_literal(body.skip(1), rest);
    } else {
        assert(s == rest);
    }
}

/// A double-quoted run inside a word is part of the word: the plain
/// characters before it, its body and the plain characters behind it make up
/// one word.
pub proof fn law_quoted_run_inside_word(
    before: Seq<char>,
    body: Seq<char>,
    after: Seq<char>,
    rest: Seq<char>,
)
    requires
        all_plain(before),
        all_plain(after),
        forall|i: int| 0 <= i < body.len() ==> #[trigger] body[i] != '"' && body[i] != '\\',
        ends_word(rest),
    ensures
        scan_word(before + seq!['"'] + body + seq!['"'] + after + rest) == (ConsumptionView {
            t: TokenView::Word(before + body + after),
            offset: before.len() + body.len() + after.len() + 2,
        }),
{
    let quoted = seq!['"'] + body + seq!['"'] + after + rest;
    let behind = after + rest;
    assert(before + seq!['"'] + body + seq!['"'] + after + rest == before + quoted);
    lemma_scan_word_plain(before, quoted);
    assert(quoted.skip(1) == body + seq!['"'] + behind);
    law_double_quoted_literal(body, behind);
    assert(quoted.skip(body.len() as int + 2) == behind);
    lemma_scan_word_plain(after, rest);
    assert(before + (body + after) == before + body + after);
}

/// The whitespace in front of a line is the blank text in front of it and
/// the whitespace that follows.
proof fn lemma_whitespace_len_blank(gap: Seq<char>, rest: Seq<char>)
    requires
        is_blank(gap),
    ensures
        whitespace_len(gap + rest) == gap.len() + whitespace_len(rest),
    decreases gap.len(),
{
    let s = gap + rest;
    if gap.len() > 0 {
        assert(s.skip(1) == gap.skip(1) + rest);
        assert forall|i: int| 0 <= i < gap.skip(1).len() implies is_whitespace(
            #[trigger] gap.skip(1)[i],
        ) by {
            assert(gap.skip(1)[i] == gap[i + 1]);
        }
        lemma_whitespace_len_blank(gap.skip(1), rest);
    } else {
        assert(s == rest);
    }
}

/// A plain word in front of whitespace or of the end of the input is one
/// word token.
proof fn lemma_scan_bare_token_plain(text: Seq<char>, rest: Seq<char>)
    requires
        text.len() > 0,
        all_plain(text),
        rest.len() > 0 ==> is_whitespace(rest[0]),
    ensures
        scan_bare_token(text + rest) == (ConsumptionView {
            t: TokenView::Word(text),
            offset: text.len(),
        }),
{
    let s = text + rest;
    if s.len() > 1 {
        if text.len() > 1 {
            assert(is_plain(text[1]));
        } else {
            assert(s[1] == rest[0]);
        }
    }
    lemma_scan_word_plain(text, rest);
}

/// The line in which plain words stand apart tokenizes to those words.
pub proof fn law_plain_words_tokenize(
    gaps: Seq<Seq<char>>,
    texts: Seq<Seq<char>>,
    trail: Seq<char>,
)
    requires
        sets_apart(gaps, texts, trail),
    ensures
        tokenize_spec(laid_out(gaps, texts, trail)) == word_tokens(texts),
    decreases texts.len(),
{
    let line = laid_out(gaps, texts, trail);
    if texts.len() == 0 {
        lemma_whitespace_len_blank(trail, Seq::empty());
    } else {
        let behind = laid_out(gaps.skip(1), texts.skip(1), trail);
        let word = texts[0] + behind;
        assert(line == gaps[0] + word);
        lemma_whitespace_len_blank(gaps[0], word);
        assert(line.skip(gaps[0].len() as int) == word);
        assert(sets_apart(gaps.skip(1), texts.skip(1), trail)) by {
            assert forall|i: int| 0 <= i < gaps.skip(1).len() implies is_blank(
                #[trigger] gaps.skip(1)[i],
            ) by {
                assert(gaps.skip(1)[i] == gaps[i + 1]);
            }
            assert forall|i: int| 1 <= i < gaps.skip(1).len() implies (
            #[trigger] gaps.skip(1)[i]).len() > 0 by {
                assert(gaps.skip(1)[i] == gaps[i + 1]);
            }
            assert forall|i: int| 0 <= i < texts.skip(1).len() implies (
            #[trigger] texts.skip(1)[i]).len() > 0 && all_plain(texts.skip(1)[i]) by {
                assert(texts.skip(1)[i] == texts[i + 1]);
            }
        }
        if texts.len() > 1 {
            assert(behind[0] == gaps[1][0]);
        } else {
            assert(behind == trail);
        }
        lemma_scan_bare_token_plain(texts[0], behind);
        lemma_tokens_of_first(word);
        assert(word.skip(texts[0].len() as int) == behind);
        law_plain_words_tokenize(gaps.skip(1), texts.skip(1), trail);
    }
}

/// Words alone are read into the pending tokens up to the end of the input.
proof fn lemma_scan_level_words(texts: Seq<Seq<char>>, pending: Seq<TokenView>)
    ensures
        scan_level(word_tokens(texts), 0, Seq::empty(), pending) == scan_level(
            Seq::empty(),
            0,
            Seq::empty(),
            pending + word_tokens(texts),
        ),
    decreases texts.len(),
{
    let s = word_tokens(texts);
    if texts.len() == 0 {
        assert(s == Seq::<TokenView>::empty());
    } else {
        assert(s[0] == TokenView::Word(texts[0]));
        assert(s.skip(1) == word_tokens(texts.skip(1)));
        lemma_scan_level_words(texts.skip(1), pending.push(s[0]));
        assert(pending.push(s[0]) + word_tokens(texts.skip(1)) == pending + s);
    }
}

/// Word tokens hold their texts as words and no redirection.
proof fn lemma_words_of_word_tokens(texts: Seq<Seq<char>>, channel: Channel)
    ensures
        words(word_tokens(texts)) == texts,
        redirections(word_tokens(texts), channel) == 0,
    decreases texts.len(),
{
    let s = word_tokens(texts);
    if texts.len() > 0 {
        assert(s.drop_last() == word_tokens(texts.drop_last()));
        lemma_words_of_word_tokens(texts.drop_last(), channel);
    } else {
        assert(texts == Seq::<Seq<char>>::empty());
    }
}

/// Words alone parse to one command with the standard streams, whose
/// arguments they are.
pub proof fn law_plain_words_parse(texts: Seq<Seq<char>>)
    requires
        texts.len() > 0,
    ensures
        parse_spec(word_tokens(texts)) == ParseResultView::Parsed(
            CommandLineView::Singleton(
                CommandView {
                    args: texts,
                    input: InputSourceView::Stdin,
                    output: OutputSinkView::Stdout,
                    error: OutputSinkView::Stderr,
                },
            ),
        ),
{
    let s = word_tokens(texts);
    lemma_scan_level_words(texts, Seq::empty());
    law_assemble_succeeds_iff(s);
    lemma_words_of_word_tokens(texts, Channel::Input);
    lemma_words_of_word_tokens(texts, Channel::Output);
    lemma_words_of_word_tokens(texts, Channel::Error);
    if let Either::Left(command) = assemble(s) {
        lemma_fold_parts_push(Seq::empty(), PartParseView::Cmd(command));
    }
}

/// A line of plain words that stand apart parses to one command with the
/// standard streams, whose arguments are the words.
pub proof fn law_plain_words_round_trip(
    gaps: Seq<Seq<char>>,
    texts: Seq<Seq<char>>,
    trail: Seq<char>,
)
    requires
        sets_apart(gaps, texts, trail),
        texts.len() > 0,
    ensures
        parse_spec(tokenize_spec(laid_out(gaps, texts, trail))) == ParseResultView::Parsed(
            CommandLineView::Singleton(
                CommandView {
                    args: texts,
                    input: InputSourceView::Stdin,
                    output: OutputSinkView::Stdout,
                    error: OutputSinkView::Stderr,
                },
            ),
        ),
{
    law_plain_words_tokenize(gaps, texts, trail);
    law_plain_words_parse(texts);
}

} // verus!
