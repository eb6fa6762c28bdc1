//! Command lines: how a line is parted into words, and which command with
//! which arguments it asks for.

use vstd::prelude::*;
use crate::names::str_bytes;
use crate::scan::bytes_eq;

verus! {

/// A word of a line: the bytes from `start` up to, but without, `end`.
#[derive(Debug, Clone, Copy, PartialEq, Eq)]
pub struct Span {
    pub start: usize,
    pub end: usize,
}

/// The command that a line asks for.
#[derive(Debug, Clone, PartialEq, Eq)]
pub enum Command {
    /// The line holds no word.
    Empty,
    Exit,
    Info,
    Ls,
    Lsof,
    Cd(Span),
    Mkdir(Span),
    Creat(Span),
    Close(Span),
    Size(Span),
    Rm(Span),
    Rmdir(Span),
    Open(Span, Span),
    Lseek(Span, Span),
    Read(Span, Span),
    Rename(Span, Span),
    /// The file, and the text: the words behind the file name, with one
    /// space between them.
    Write(Span, Vec<u8>),
    /// The command, which lacks an argument.
    Incomplete(Span),
    /// The first word, which names no command.
    Unknown(Span),
}

/// The mathematical value of a span.
pub struct SpanView {
    pub start: int,
    pub end: int,
}

impl View for Span {
    type V = SpanView;

    open spec fn view(&self) -> SpanView {
        SpanView { start: self.start as int, end: self.end as int }
    }
}

/// ASCII white space: the space, and the control characters from the
/// horizontal tab to the carriage return.
pub open spec fn is_space(b: u8) -> bool {
    b == 0x20 || (0x09 <= b <= 0x0D)
}

/// The index of the first byte at or after `from` that is no white space, or
/// the length of the line.
pub open spec fn word_start(line: Seq<u8>, from: int) -> int
    decreases line.len() - from,
{
    if from >= line.len() {
        line.len() as int
    } else if !is_space(line[from]) {
        from
    } else {
        word_start(line, from + 1)
    }
}

/// The index of the first white space at or after `from`, or the length of
/// the line.
pub open spec fn word_end(line: Seq<u8>, from: int) -> int
    decreases line.len() - from,
{
    if from >= line.len() {
        line.len() as int
    } else if is_space(line[from]) {
        from
    } else {
        word_end(line, from + 1)
    }
}

/// The words of the line from `from` on: the longest runs of bytes that are
/// no white space, in order.
pub open spec fn words_from(line: Seq<u8>, from: int) -> Seq<SpanView>
    decreases line.len() - from,
    when 0 <= from
    via words_from_decreases
{
    let start = word_start(line, from);
    if start >= line.len() {
        Seq::empty()
    } else {
        seq![SpanView { start, end: word_end(line, start) }] + words_from(
            line,
            word_end(line, start),
        )
    }
}

#[via_fn]
proof fn words_from_decreases(line: Seq<u8>, from: int) {
    let start = word_start(line, from);
    lemma_word_start(line, from);
    if start < line.len() {
        lemma_word_end(line, start);
    }
}

/// A word begins at or after the place from which it is looked for, at a
/// byte that is no white space.
pub proof fn lemma_word_start(line: Seq<u8>, from: int)
    requires
        0 <= from,
    ensures
        from <= word_start(line, from) || word_start(line, from) == line.len(),
        word_start(line, from) <= line.len() || from > line.len(),
        word_start(line, from) < line.len() ==> !is_space(line[word_start(line, from)]),
    decreases line.len() - from,
{
    if from < line.len() && is_space(line[from]) {
        lemma_word_start(line, from + 1);
    }
}

/// A word that begins at a byte that is no white space ends behind it.
pub proof fn lemma_word_end(line: Seq<u8>, from: int)
    requires
        0 <= from < line.len(),
        !is_space(line[from]),
    ensures
        from < word_end(line, from) <= line.len(),
    decreases line.len() - from,
{
    assert(word_end(line, from) == word_end(line, from + 1));
    if from + 1 < line.len() && !is_space(line[from + 1]) {
        lemma_word_end(line, from + 1);
    }
}

/// The views of a sequence of spans.
pub open spec fn span_views(spans: Seq<Span>) -> Seq<SpanView> {
    Seq::new(spans.len(), |i: int| spans[i]@)
}

/// The bytes of a word.
pub open spec fn word(line: Seq<u8>, span: SpanView) -> Seq<u8> {
    line.subrange(span.start, span.end)
}

/// The words from index `from` on, with one space between them.
pub open spec fn joined(line: Seq<u8>, words: Seq<SpanView>, from: int) -> Seq<u8>
    decreases words.len() - from,
{
    if from >= words.len() {
        Seq::empty()
    } else if from + 1 >= words.len() {
        word(line, words[from])
    } else {
        word(line, words[from]) + seq![0x20u8] + joined(line, words, from + 1)
    }
}

/// Whether a byte is ASCII white space.
pub fn byte_is_space(b: u8) -> (r: bool)
    ensures
        r == is_space(b),
{
    b == 0x20 || (0x09 <= b && b <= 0x0D)
}

/// Parts a line into its words.
pub fn split_words(line: &[u8]) -> (spans: Vec<Span>)
    ensures
        span_views(spans@) == words_from(line@, 0),
        forall|i: int|
            0 <= i < spans@.len() ==> (#[trigger] spans@[i]).start < spans@[i].end <= line@.len(),
{
    let mut spans: Vec<Span> = Vec::new();
    let n = line.len();
    let mut i: usize = 0;
    assert(span_views(spans@) + words_from(line@, 0) =~= words_from(line@, 0));
    loop
        invariant
            i <= n,
            n == line@.len(),
            span_views(spans@) + words_from(line@, i as int) == words_from(line@, 0),
            forall|k: int|
                0 <= k < spans@.len() ==> (#[trigger] spans@[k]).start < spans@[k].end <= n,
        decreases n - i,
    {
        let ghost from = i as int;
        while i < n && byte_is_space(line[i])
            invariant
                from <= i <= n,
                n == line@.len(),
                word_start(line@, from) == word_start(line@, i as int),
            decreases n - i,
        {
            i += 1;
        }
        if i >= n {
            proof {
                assert(words_from(line@, from) =~= Seq::<SpanView>::empty());
                assert(span_views(spans@) + Seq::<SpanView>::empty() =~= span_views(spans@));
            }
            return spans;
        }
        let start = i;
        proof {
            lemma_word_end(line@, start as int);
        }
        while i < n && !byte_is_space(line[i])
            invariant
                start <= i <= n,
                n == line@.len(),
                word_end(line@, start as int) == word_end(line@, i as int),
            decreases n - i,
        {
            i += 1;
        }
        let ghost before = spans@;
        spans.push(Span { start, end: i });
        proof {
            let found = SpanView { start: start as int, end: i as int };
            assert(words_from(line@, from) == seq![found] + words_from(line@, i as int));
            assert(span_views(spans@) =~= span_views(before) + seq![found]);
            assert(span_views(before) + (seq![found] + words_from(line@, i as int)) =~= (
            span_views(before) + seq![found]) + words_from(line@, i as int));
        }
    }
}

/// Joins the words from index `from` on with one space between them.
pub fn join_words(line: &[u8], spans: &Vec<Span>, from: usize) -> (text: Vec<u8>)
    requires
        forall|i: int|
            0 <= i < spans@.len() ==> (#[trigger] spans@[i]).start <= spans@[i].end
                <= line@.len(),
    ensures
        text@ == joined(line@, span_views(spans@), from as int),
{
    let mut text: Vec<u8> = Vec::new();
    let mut i = from;
    let ghost words = span_views(spans@);
    assert(text@ + joined(line@, words, i as int) =~= joined(line@, words, from as int));
    while i < spans.len()
        invariant
            from <= i,
            words == span_views(spans@),
            forall|k: int|
                0 <= k < spans@.len() ==> (#[trigger] spans@[k]).start <= spans@[k].end
                    <= line@.len(),
            text@ + joined(line@, words, i as int) == joined(line@, words, from as int),
        decreases spans@.len() - i,
    {
        let span = spans[i];
        let piece = vstd::slice::slice_subrange(line, span.start, span.end);
        let ghost before = text@;
        text.extend_from_slice(piece);
        proof {
            assert(piece@ == word(line@, words[i as int]));
        }
        if i + 1 < spans.len() {
            text.push(0x20);
            proof {
                assert(text@ =~= before + (piece@ + seq![0x20u8]));
                assert(before + (piece@ + seq![0x20u8] + joined(line@, words, i + 1)) =~= (before
                    + (piece@ + seq![0x20u8])) + joined(line@, words, i + 1));
            }
        } else {
            proof {
                assert(joined(line@, words, i + 1) =~= Seq::<u8>::empty());
                assert(text@ + Seq::<u8>::empty() =~= before + piece@);
            }
        }
        i += 1;
    }
    proof {
        assert(text@ + Seq::<u8>::empty() =~= text@);
    }
    text
}

/// The mathematical value of a command.
pub enum CommandView {
    Empty,
    Exit,
    Info,
    Ls,
    Lsof,
    Cd(SpanView),
    Mkdir(SpanView),
    Creat(SpanView),
    Close(SpanView),
    Size(SpanView),
    Rm(SpanView),
    Rmdir(SpanView),
    Open(SpanView, SpanView),
    Lseek(SpanView, SpanView),
    Read(SpanView, SpanView),
    Rename(SpanView, SpanView),
    Write(SpanView, Seq<u8>),
    Incomplete(SpanView),
    Unknown(SpanView),
}

impl View for Command {
    type V = CommandView;

    open spec fn view(&self) -> CommandView {
        match *self {
            Command::Empty => CommandView::Empty,
            Command::Exit => CommandView::Exit,
            Command::Info => CommandView::Info,
            Command::Ls => CommandView::Ls,
            Command::Lsof => CommandView::Lsof,
            Command::Cd(a) => CommandView::Cd(a@),
            Command::Mkdir(a) => CommandView::Mkdir(a@),
            Command::Creat(a) => CommandView::Creat(a@),
            Command::Close(a) => CommandView::Close(a@),
            Command::Size(a) => CommandView::Size(a@),
            Command::Rm(a) => CommandView::Rm(a@),
            Command::Rmdir(a) => CommandView::Rmdir(a@),
            Command::Open(a, b) => CommandView::Open(a@, b@),
            Command::Lseek(a, b) => CommandView::Lseek(a@, b@),
            Command::Read(a, b) => CommandView::Read(a@, b@),
            Command::Rename(a, b) => CommandView::Rename(a@, b@),
            Command::Write(a, text) => CommandView::Write(a@, text@),
            Command::Incomplete(a) => CommandView::Incomplete(a@),
            Command::Unknown(a) => CommandView::Unknown(a@),
        }
    }
}

/// A command with one argument, or the notice that the argument is
/// missing.
pub open spec fn with_one(
    words: Seq<SpanView>,
    make: spec_fn(SpanView) -> CommandView,
) -> CommandView {
    if words.len() >= 2 {
        make(words[1])
    } else {
        CommandView::Incomplete(words[0])
    }
}

/// A command with two arguments, or the notice that an argument is
/// missing.
pub open spec fn with_two(
    words: Seq<SpanView>,
    make: spec_fn(SpanView, SpanView) -> CommandView,
) -> CommandView {
    if words.len() >= 3 {
        make(words[1], words[2])
    } else {
        CommandView::Incomplete(words[0])
    }
}

/// The command that the words of a line ask for. The first word names the
/// command; words behind the arguments that a command takes are passed
/// over. `write` takes a file name and, as its text, all the words behind
/// it.
pub open spec fn command_of(line: Seq<u8>, words: Seq<SpanView>) -> CommandView {
    if words.len() == 0 {
        CommandView::Empty
    } else {
        let name = word(line, words[0]);
        if name == str_bytes("exit") {
            CommandView::Exit
        } else if name == str_bytes("info") {
            CommandView::Info
        } else if name == str_bytes("ls") {
            CommandView::Ls
        } else if name == str_bytes("lsof") {
            CommandView::Lsof
        } else if name == str_bytes("cd") {
            with_one(words, |a: SpanView| CommandView::Cd(a))
        } else if name == str_bytes("mkdir") {
            with_one(words, |a: SpanView| CommandView::Mkdir(a))
        } else if name == str_bytes("creat") {
            with_one(words, |a: SpanView| CommandView::Creat(a))
        } else if name == str_bytes("close") {
            with_one(words, |a: SpanView| CommandView::Close(a))
        } else if name == str_bytes("size") {
            with_one(words, |a: SpanView| CommandView::Size(a))
        } else if name == str_bytes("rm") {
            with_one(words, |a: SpanView| CommandView::Rm(a))
        } else if name == str_bytes("rmdir") {
            with_one(words, |a: SpanView| CommandView::Rmdir(a))
        } else if name == str_bytes("open") {
            with_two(words, |a: SpanView, b: SpanView| CommandView::Open(a, b))
        } else if name == str_bytes("lseek") {
            with_two(words, |a: SpanView, b: SpanView| CommandView::Lseek(a, b))
        } else if name == str_bytes("read") {
            with_two(words, |a: SpanView, b: SpanView| CommandView::Read(a, b))
        } else if name == str_bytes("rename") {
            with_two(words, |a: SpanView, b: SpanView| CommandView::Rename(a, b))
        } else if name == str_bytes("write") {
            if words.len() >= 3 {
                CommandView::Write(words[1], joined(line, words, 2))
            } else {
                CommandView::Incomplete(words[0])
            }
        } else {
            CommandView::Unknown(words[0])
        }
    }
}

/// Whether a word is the given name.
fn is_name(word: &[u8], name: &str) -> (r: bool)
    ensures
        r == (word@ == str_bytes(name)),
{
    bytes_eq(word, name.as_bytes())
}

/// Reads the command that a line asks for.
pub fn parse_command(line: &str) -> (command: Command)
    ensures
        command@ == command_of(str_bytes(line), words_from(str_bytes(line), 0)),
{
    let bytes = line.as_bytes();
    let spans = split_words(bytes);
    let ghost words = span_views(spans@);
    if spans.len() == 0 {
        return Command::Empty;
    }
    let first = spans[0];
    let name = vstd::slice::slice_subrange(bytes, first.start, first.end);
    assert(name@ == word(bytes@, words[0]));
    let one = spans.len() >= 2;
    let two = spans.len() >= 3;
    if is_name(name, "exit") {
        Command::Exit
    } else if is_name(name, "info") {
        Command::Info
    } else if is_name(name, "ls") {
        Command::Ls
    } else if is_name(name, "lsof") {
        Command::Lsof
    } else if is_name(name, "cd") {
        if one {
            Command::Cd(spans[1])
        } else {
            Command::Incomplete(first)
        }
    } else if is_name(name, "mkdir") {
        if one {
            Command::Mkdir(spans[1])
        } else {
            Command::Incomplete(first)
        }
    } else if is_name(name, "creat") {
        if one {
            Command::Creat(spans[1])
        } else {
            Command::Incomplete(first)
        }
    } else if is_name(name, "close") {
        if one {
            Command::Close(spans[1])
        } else {
            Command::Incomplete(first)
        }
    } else if is_name(name, "size") {
        if one {
            Command::Size(spans[1])
        } else {
            Command::Incomplete(first)
        }
    } else if is_name(name, "rm") {
        if one {
            Command::Rm(spans[1])
        } else {
            Command::Incomplete(first)
        }
    } else if is_name(name, "rmdir") {
        if one {
            Command::Rmdir(spans[1])
        } else {
            Command::Incomplete(first)
        }
    } else if is_name(name, "open") {
        if two {
            Command::Open(spans[1], spans[2])
        } else {
            Command::Incomplete(first)
        }
    } else if is_name(name, "lseek") {
        if two {
            Command::Lseek(spans[1], spans[2])
        } else {
            Command::Incomplete(first)
        }
    } else if is_name(name, "read") {
        if two {
            Command::Read(spans[1], spans[2])
        } else {
            Command::Incomplete(first)
        }
    } else if is_name(name, "rename") {
        if two {
            Command::Rename(spans[1], spans[2])
        } else {
            Command::Incomplete(first)
        }
    } else if is_name(name, "write") {
        if two {
            let text = join_words(bytes, &spans, 2);
            Command::Write(spans[1], text)
        } else {
            Command::Incomplete(first)
        }
    } else {
        Command::Unknown(first)
    }
}

} // verus!
