//! Commands and the command-line tree that the parser builds.

use vstd::prelude::*;
use crate::token::{Token, TokenView};

verus! {

/// Where a command writes one of its output streams.
#[derive(Debug, PartialEq, Eq)]
pub enum OutputSink {
    Stdout,
    Stderr,
    File(String),
}

/// Where a command reads its input from.
#[derive(Debug, PartialEq, Eq)]
pub enum InputSource {
    Stdin,
    File(String),
}

/// One program to run: its arguments and its three streams.
#[derive(Debug, PartialEq, Eq)]
pub struct Command {
    pub args: Vec<String>,
    pub input: InputSource,
    pub output: OutputSink,
    pub error: OutputSink,
}

/// A command line: commands joined by pipes, `&&`, `||`, `;` and `&`.
#[derive(Debug, PartialEq, Eq)]
pub enum CommandLine {
    Singleton(Command),
    Pipeline(Vec<CommandLine>),
    Sequence(Vec<CommandLine>),
    Background(Box<CommandLine>),
    And(Vec<CommandLine>),
    Or(Vec<CommandLine>),
}

/// The outcome of one parse.
#[derive(Debug, PartialEq, Eq)]
pub enum ParseResult {
    /// The tokens form this command line.
    Parsed(CommandLine),
    /// The line is not finished: more tokens have to follow.
    ContinuationRequired,
    /// The tokens form no command line, for the reason given.
    Error(String),
}

/// A unit of one nesting level, before the separators are folded in.
#[derive(Debug, PartialEq, Eq)]
pub enum PartParse {
    Cmd(Command),
    Subshell(CommandLine),
    Sep(Token),
}

/// The value of an [`OutputSink`].
pub enum OutputSinkView {
    Stdout,
    Stderr,
    File(Seq<char>),
}

/// The value of an [`InputSource`].
pub enum InputSourceView {
    Stdin,
    File(Seq<char>),
}

/// The value of a [`Command`].
pub struct CommandView {
    pub args: Seq<Seq<char>>,
    pub input: InputSourceView,
    pub output: OutputSinkView,
    pub error: OutputSinkView,
}

/// The value of a [`CommandLine`]: the same tree over sequences.
pub enum CommandLineView {
    Singleton(CommandView),
    Pipeline(Seq<CommandLineView>),
    Sequence(Seq<CommandLineView>),
    Background(Box<CommandLineView>),
    And(Seq<CommandLineView>),
    Or(Seq<CommandLineView>),
}

/// The value of a [`ParseResult`].
pub enum ParseResultView {
    Parsed(CommandLineView),
    ContinuationRequired,
    Error(Seq<char>),
}

/// The value of a [`PartParse`].
pub enum PartParseView {
    Cmd(CommandView),
    Subshell(CommandLineView),
    Sep(TokenView),
}

impl CommandLineView {
    /// Whether every pipeline, sequence, conjunction and disjunction of the
    /// tree has at least one child.
    pub open spec fn inhabited(self) -> bool
        decreases self,
    {
        match self {
            CommandLineView::Singleton(_) => true,
            CommandLineView::Pipeline(lines) => lines.len() > 0 && forall|i: int|
                0 <= i < lines.len() ==> (#[trigger] lines[i]).inhabited(),
            CommandLineView::Sequence(lines) => lines.len() > 0 && forall|i: int|
                0 <= i < lines.len() ==> (#[trigger] lines[i]).inhabited(),
            CommandLineView::Background(line) => line.inhabited(),
            CommandLineView::And(lines) => lines.len() > 0 && forall|i: int|
                0 <= i < lines.len() ==> (#[trigger] lines[i]).inhabited(),
            CommandLineView::Or(lines) => lines.len() > 0 && forall|i: int|
                0 <= i < lines.len() ==> (#[trigger] lines[i]).inhabited(),
        }
    }
}

impl View for OutputSink {
    type V = OutputSinkView;

    open spec fn view(&self) -> OutputSinkView {
        match self {
            OutputSink::Stdout => OutputSinkView::Stdout,
            OutputSink::Stderr => OutputSinkView::Stderr,
            OutputSink::File(path) => OutputSinkView::File(path@),
        }
    }
}

impl View for InputSource {
    type V = InputSourceView;

    open spec fn view(&self) -> InputSourceView {
        match self {
            InputSource::Stdin => InputSourceView::Stdin,
            InputSource::File(path) => InputSourceView::File(path@),
        }
    }
}

impl View for Command {
    type V = CommandView;

    open spec fn view(&self) -> CommandView {
        CommandView {
            args: self.args.deep_view(),
            input: self.input@,
            output: self.output@,
            error: self.error@,
        }
    }
}

impl DeepView for Command {
    type V = CommandView;

    open spec fn deep_view(&self) -> CommandView {
        self@
    }
}

impl View for CommandLine {
    type V = CommandLineView;

    open spec fn view(&self) -> CommandLineView
        decreases self,
    {
        match self {
            CommandLine::Singleton(c) => CommandLineView::Singleton(c@),
            CommandLine::Pipeline(v) => CommandLineView::Pipeline(
                Seq::new(
                    v.len() as nat,
                    |i: int| if 0 <= i < v.len() { v[i].view() } else { arbitrary() },
                ),
            ),
            CommandLine::Sequence(v) => CommandLineView::Sequence(
                Seq::new(
                    v.len() as nat,
                    |i: int| if 0 <= i < v.len() { v[i].view() } else { arbitrary() },
                ),
            ),
            CommandLine::Background(b) => CommandLineView::Background(Box::new((**b).view())),
            CommandLine::And(v) => CommandLineView::And(
                Seq::new(
                    v.len() as nat,
                    |i: int| if 0 <= i < v.len() { v[i].view() } else { arbitrary() },
                ),
            ),
            CommandLine::Or(v) => CommandLineView::Or(
                Seq::new(
                    v.len() as nat,
                    |i: int| if 0 <= i < v.len() { v[i].view() } else { arbitrary() },
                ),
            ),
        }
    }
}

impl DeepView for CommandLine {
    type V = CommandLineView;

    open spec fn deep_view(&self) -> CommandLineView {
        self@
    }
}

impl View for ParseResult {
    type V = ParseResultView;

    open spec fn view(&self) -> ParseResultView {
        match self {
            ParseResult::Parsed(cl) => ParseResultView::Parsed(cl@),
            ParseResult::ContinuationRequired => ParseResultView::ContinuationRequired,
            ParseResult::Error(e) => ParseResultView::Error(e@),
        }
    }
}

impl View for PartParse {
    type V = PartParseView;

    open spec fn view(&self) -> PartParseView {
        match self {
            PartParse::Cmd(c) => PartParseView::Cmd(c@),
            PartParse::Subshell(cl) => PartParseView::Subshell(cl@),
            PartParse::Sep(t) => PartParseView::Sep(t@),
        }
    }
}

impl DeepView for PartParse {
    type V = PartParseView;

    open spec fn deep_view(&self) -> PartParseView {
        self@
    }
}

impl Clone for OutputSink {
    fn clone(&self) -> (r: OutputSink)
        ensures
            r == *self,
    {
        match self {
            OutputSink::Stdout => OutputSink::Stdout,
            OutputSink::Stderr => OutputSink::Stderr,
            OutputSink::File(path) => OutputSink::File(path.clone()),
        }
    }
}

impl Clone for InputSource {
    fn clone(&self) -> (r: InputSource)
        ensures
            r == *self,
    {
        match self {
            InputSource::Stdin => InputSource::Stdin,
            InputSource::File(path) => InputSource::File(path.clone()),
        }
    }
}

impl Clone for Command {
    fn clone(&self) -> (r: Command)
        ensures
            r@ == self@,
    {
        let mut args: Vec<String> = Vec::new();
        let mut i: usize = 0;
        while i < self.args.len()
            invariant
                i <= self.args.len(),
                args.deep_view() == self.args.deep_view().take(i as int),
            decreases self.args.len() - i,
        {
            args.push(self.args[i].clone());
            assert(self.args.deep_view().take(i + 1) =~= self.args.deep_view().take(i as int).push(
                self.args[i as int]@,
            ));
            i += 1;
        }
        assert(args.deep_view() == self.args.deep_view());
        Command {
            args,
            input: self.input.clone(),
            output: self.output.clone(),
            error: self.error.clone(),
        }
    }
}

impl CommandLine {
    /// The views of the lines of `lines`, in order.
    pub open spec fn views(lines: Seq<CommandLine>) -> Seq<CommandLineView> {
        Seq::new(lines.len(), |i: int| lines[i]@)
    }

    /// A variadic node views as the same node over the views of its children.
    pub proof fn lemma_view_children(self)
        ensures
            self matches CommandLine::Pipeline(v) ==> self@ == CommandLineView::Pipeline(
                Self::views(v@),
            ),
            self matches CommandLine::Sequence(v) ==> self@ == CommandLineView::Sequence(
                Self::views(v@),
            ),
            self matches CommandLine::And(v) ==> self@ == CommandLineView::And(Self::views(v@)),
            self matches CommandLine::Or(v) ==> self@ == CommandLineView::Or(Self::views(v@)),
    {
        reveal_with_fuel(<CommandLine as View>::view, 2);
        match self {
            CommandLine::Pipeline(v) => {
                assert(self@->Pipeline_0 =~= Self::views(v@));
            },
            CommandLine::Sequence(v) => {
                assert(self@->Sequence_0 =~= Self::views(v@));
            },
            CommandLine::And(v) => {
                assert(self@->And_0 =~= Self::views(v@));
            },
            CommandLine::Or(v) => {
                assert(self@->Or_0 =~= Self::views(v@));
            },
            _ => {},
        }
    }

    fn clone_all(lines: &Vec<CommandLine>) -> (r: Vec<CommandLine>)
        ensures
            Self::views(r@) == Self::views(lines@),
        decreases lines,
    {
        let mut r: Vec<CommandLine> = Vec::new();
        let mut i: usize = 0;
        while i < lines.len()
            invariant
                i <= lines.len(),
                Self::views(r@) == Self::views(lines@).take(i as int),
            decreases lines.len() - i,
        {
            r.push(lines[i].clone());
            assert(Self::views(lines@).take(i + 1) =~= Self::views(lines@).take(i as int).push(
                lines[i as int]@,
            ));
            i += 1;
        }
        r
    }
}

impl Clone for CommandLine {
    fn clone(&self) -> (r: CommandLine)
        ensures
            r@ == self@,
        decreases self,
    {
        let r = match self {
            CommandLine::Singleton(c) => CommandLine::Singleton(c.clone()),
            CommandLine::Pipeline(v) => CommandLine::Pipeline(CommandLine::clone_all(v)),
            CommandLine::Sequence(v) => CommandLine::Sequence(CommandLine::clone_all(v)),
            CommandLine::Background(b) => CommandLine::Background(Box::new((**b).clone())),
            CommandLine::And(v) => CommandLine::And(CommandLine::clone_all(v)),
            CommandLine::Or(v) => CommandLine::Or(CommandLine::clone_all(v)),
        };
        proof {
            r.lemma_view_children();
            self.lemma_view_children();
        }
        r
    }
}

} // verus!
