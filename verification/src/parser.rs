//! The line classifier and the per-file scan.

use crate::config::Language;
use crate::text::{contains, decode, occurs_in, starts_with, trim, trimmed};
use vstd::prelude::*;
use vstd::slice::slice_subrange;
use vstd::utf8::{decode_utf8, valid_utf8};

verus! {

/// The tally of a file or of a language: `(code, blank, comment)` lines.
pub type LineStats = (u32, u32, u32);

/// The byte that ends a line.
pub const LINE_FEED: u8 = 0x0a;

/// Why a file yields no tally.
#[derive(Debug, Clone, Copy, PartialEq, Eq, Structural)]
pub enum ReadError {
    /// The file could not be opened, or not be read to its end.
    Unreadable,
    /// The line with this index (the first line has index 0) is not UTF-8.
    InvalidEncoding { line: usize },
}

/// The marker that opens a block comment.
pub open spec fn block_open() -> Seq<char> {
    seq!['/', '*']
}

/// The marker that closes a block comment.
pub open spec fn block_close() -> Seq<char> {
    seq!['*', '/']
}

/// The marker that starts a comment running to the end of the line.
pub open spec fn line_comment() -> Seq<char> {
    seq!['/', '/']
}

/// The classifier's transition table. Given whether the previous line left
/// a block comment open, and a line without its surrounding whitespace, the
/// first component says whether the line is a comment, the second whether it
/// leaves a block comment open.
pub open spec fn classify(in_block: bool, line: Seq<char>) -> (bool, bool) {
    if in_block {
        (true, !occurs_in(block_close(), line))
    } else if block_open().is_prefix_of(line) {
        (true, !occurs_in(block_close(), line))
    } else if line_comment().is_prefix_of(line) {
        (true, false)
    } else {
        (false, false)
    }
}

/// How a line counts.
#[derive(Debug, Clone, Copy, PartialEq, Eq, Structural)]
pub enum LineKind {
    Code,
    Blank,
    Comment,
}

/// How `line` counts, given whether the line before it left a block comment
/// open. A line is classified without its surrounding whitespace; one that
/// is no comment is blank if nothing is left of it, and code otherwise.
pub open spec fn kind_of(in_block: bool, line: Seq<char>) -> LineKind {
    let text = trimmed(line);
    if classify(in_block, text).0 {
        LineKind::Comment
    } else if text.len() == 0 {
        LineKind::Blank
    } else {
        LineKind::Code
    }
}

/// Whether a block comment is open after `lines`, given whether one was
/// open before them.
pub open spec fn in_block_after(in_block: bool, lines: Seq<Seq<char>>) -> bool
    decreases lines.len(),
{
    if lines.len() == 0 {
        in_block
    } else {
        classify(in_block_after(in_block, lines.drop_last()), trimmed(lines.last())).1
    }
}

/// The number of lines among `lines` that count as `kind`, given whether a
/// block comment was open before them.
pub open spec fn count_of(kind: LineKind, in_block: bool, lines: Seq<Seq<char>>) -> nat
    decreases lines.len(),
{
    if lines.len() == 0 {
        0
    } else {
        let before = lines.drop_last();
        let here: nat = if kind_of(in_block_after(in_block, before), lines.last()) == kind {
            1
        } else {
            0
        };
        count_of(kind, in_block, before) + here
    }
}

/// A count as a counter holds it: counters stop at `u32::MAX`.
pub open spec fn saturated(n: int) -> u32 {
    if n <= u32::MAX {
        n as u32
    } else {
        u32::MAX
    }
}

/// A counter after one more line.
pub open spec fn bumped(n: u32) -> u32 {
    saturated(n + 1)
}

/// The number of bytes before the first line feed of `bytes`, all of them
/// if there is none.
pub open spec fn line_end(bytes: Seq<u8>) -> nat
    decreases bytes.len(),
{
    if bytes.len() == 0 || bytes[0] == LINE_FEED {
        0
    } else {
        1 + line_end(bytes.drop_first())
    }
}

/// The lines of a file. A line ends before a line feed or at the end of the
/// file; the line feed belongs to no line, and nothing follows the last one.
/// A carriage return before the line feed stays in the line: it is
/// whitespace, and goes when the line is trimmed.
pub open spec fn lines_of(bytes: Seq<u8>) -> Seq<Seq<u8>>
    decreases bytes.len(),
{
    if bytes.len() == 0 {
        Seq::empty()
    } else {
        let end = line_end(bytes);
        let rest = if end < bytes.len() {
            bytes.skip(end as int + 1)
        } else {
            Seq::empty()
        };
        seq![bytes.take(end as int)] + lines_of(rest)
    }
}

/// The number of lines before the first one that is not UTF-8, all of them
/// if every line is.
pub open spec fn readable_lines(lines: Seq<Seq<u8>>) -> nat
    decreases lines.len(),
{
    if lines.len() == 0 || !valid_utf8(lines[0]) {
        0
    } else {
        1 + readable_lines(lines.drop_first())
    }
}

/// The text of each line.
pub open spec fn decoded(lines: Seq<Seq<u8>>) -> Seq<Seq<char>> {
    Seq::new(lines.len(), |i: int| decode_utf8(lines[i]))
}

/// The scan of one file: its tally so far, and whether the last line left a
/// block comment open.
#[derive(Debug)]
pub struct Parser {
    pub line_stats: LineStats,
    pub language: Language,
    pub is_within_multiline_comment: bool,
}

impl Parser {
    /// The parser after it has read `line`.
    pub open spec fn after_line(self, line: Seq<char>) -> Parser {
        let (code, blank, comment) = self.line_stats;
        Parser {
            line_stats: match kind_of(self.is_within_multiline_comment, line) {
                LineKind::Code => (bumped(code), blank, comment),
                LineKind::Blank => (code, bumped(blank), comment),
                LineKind::Comment => (code, blank, bumped(comment)),
            },
            language: self.language,
            is_within_multiline_comment: classify(
                self.is_within_multiline_comment,
                trimmed(line),
            ).1,
        }
    }

    /// The parser after it has read `lines`, the first one first.
    pub open spec fn after_lines(self, lines: Seq<Seq<char>>) -> Parser
        decreases lines.len(),
    {
        if lines.len() == 0 {
            self
        } else {
            self.after_lines(lines.drop_last()).after_line(lines.last())
        }
    }

    /// A parser for `language` that has read nothing yet.
    pub open spec fn fresh(language: Language) -> Parser {
        Parser { line_stats: (0u32, 0u32, 0u32), language, is_within_multiline_comment: false }
    }

    /// A parser for `language` that has read nothing yet.
    pub fn new(language: Language) -> (parser: Parser)
        ensures
            parser == Parser::fresh(language),
    {
        Parser { line_stats: (0, 0, 0), is_within_multiline_comment: false, language }
    }

    /// Says whether `line`, which has no surrounding whitespace, is a
    /// comment, and records whether it leaves a block comment open.
    pub fn parse_comments(&mut self, line: &str) -> (is_comment: bool)
        ensures
            is_comment == classify(old(self).is_within_multiline_comment, line@).0,
            final(self).is_within_multiline_comment == classify(
                old(self).is_within_multiline_comment,
                line@,
            ).1,
            final(self).line_stats == old(self).line_stats,
            final(self).language == old(self).language,
    {
        proof {
            reveal_strlit("/*");
            reveal_strlit("*/");
            reveal_strlit("//");
            assert("/*"@ =~= block_open());
            assert("*/"@ =~= block_close());
            assert("//"@ =~= line_comment());
        }
        match self.language {
            Language::Javascript | Language::Typescript => {
                if self.is_within_multiline_comment {
                    if contains(line, "*/") {
                        self.is_within_multiline_comment = false;
                    }
                    true
                } else if starts_with(line, "/*") {
                    if !contains(line, "*/") {
                        self.is_within_multiline_comment = true;
                    }
                    true
                } else {
                    starts_with(line, "//")
                }
            },
        }
    }

    /// Reads one line: trims it, classifies it and counts it.
    pub fn parse_line(&mut self, line: &str)
        ensures
            *final(self) == old(self).after_line(line@),
    {
        let text = trim(line);
        if self.parse_comments(text) {
            self.line_stats.2 = self.line_stats.2.saturating_add(1);
        } else if text.is_empty() {
            self.line_stats.1 = self.line_stats.1.saturating_add(1);
        } else {
            self.line_stats.0 = self.line_stats.0.saturating_add(1);
        }
    }

    /// Scans a file's bytes line by line. The scan stops at the first line
    /// that is not UTF-8: the lines before it have been counted by then, and
    /// the error names the line.
    pub fn parse(&mut self, input: &[u8]) -> (res: Result<(), ReadError>)
        ensures
            ({
                let lines = lines_of(input@);
                let read = readable_lines(lines);
                &&& *final(self) == old(self).after_lines(decoded(lines.take(read as int)))
                &&& match res {
                    Ok(_) => read == lines.len(),
                    Err(e) => read < lines.len() && e == (ReadError::InvalidEncoding {
                        line: read as usize,
                    }),
                }
            }),
    {
        let ghost lines = lines_of(input@);
        let mut start: usize = 0;
        let mut count: usize = 0;
        proof {
            assert(input@.skip(0) =~= input@);
            assert(lines.skip(0) =~= lines);
            assert(decoded(lines.take(0)) =~= Seq::<Seq<char>>::empty());
        }
        while start < input.len()
            invariant
                lines == lines_of(input@),
                count <= start <= input@.len(),
                count <= lines.len(),
                lines.skip(count as int) == lines_of(input@.skip(start as int)),
                forall|i: int| 0 <= i < count ==> valid_utf8(#[trigger] lines[i]),
                *self == old(self).after_lines(decoded(lines.take(count as int))),
            decreases input@.len() - start,
        {
            let end = find_line_end(input, start);
            let line = slice_subrange(input, start, end);
            let ghost current = input@.skip(start as int);
            let ghost rest = if end < input@.len() {
                current.skip(end - start + 1)
            } else {
                Seq::<u8>::empty()
            };
            proof {
                assert(line@ =~= current.take(end - start));
                assert(lines_of(current) == seq![line@] + lines_of(rest));
                assert(lines.skip(count as int).len() > 0);
                assert(lines[count as int] == lines.skip(count as int)[0]);
                assert(lines.skip(count as int + 1) =~= lines.skip(count as int).skip(1));
                assert(lines.skip(count as int).skip(1) =~= lines_of(rest));
            }
            match decode(line) {
                None => {
                    proof {
                        lemma_readable_lines(lines, count as nat);
                    }
                    return Err(ReadError::InvalidEncoding { line: count });
                },
                Some(text) => {
                    self.parse_line(text);
                },
            }
            proof {
                let before = decoded(lines.take(count as int));
                let now = decoded(lines.take(count as int + 1));
                assert(now.drop_last() =~= before);
                assert(now.last() == decode_utf8(lines[count as int]));
            }
            count += 1;
            start = if end < input.len() {
                end + 1
            } else {
                end
            };
            proof {
                assert(input@.skip(start as int) =~= rest);
            }
        }
        proof {
            assert(input@.skip(start as int) =~= Seq::<u8>::empty());
            assert(lines.skip(count as int).len() == 0);
            lemma_readable_lines(lines, count as nat);
            assert(lines.take(count as int) =~= lines);
        }
        Ok(())
    }
}

/// A block comment that is opened and closed on one line is over at the end
/// of that line: the line is a comment and leaves no block comment open.
pub proof fn lemma_block_closed_on_its_line(line: Seq<char>)
    requires
        block_open().is_prefix_of(line),
        occurs_in(block_close(), line),
    ensures
        classify(false, line) == (true, false),
{
}

/// Every line counts as exactly one of code, blank and comment: the three
/// counts of a run of lines add up to the number of lines.
pub proof fn lemma_counts_add_up(in_block: bool, lines: Seq<Seq<char>>)
    ensures
        count_of(LineKind::Code, in_block, lines) + count_of(LineKind::Blank, in_block, lines)
            + count_of(LineKind::Comment, in_block, lines) == lines.len(),
    decreases lines.len(),
{
    if lines.len() > 0 {
        lemma_counts_add_up(in_block, lines.drop_last());
    }
}

/// What a parser holds after a run of lines: each counter has grown by the
/// number of lines of its kind, up to its limit, and the flag is that of
/// the classifier after the last line.
pub proof fn lemma_parser_holds_counts(parser: Parser, lines: Seq<Seq<char>>)
    ensures
        ({
            let in_block = parser.is_within_multiline_comment;
            let after = parser.after_lines(lines);
            &&& after.line_stats.0 == saturated(
                parser.line_stats.0 + count_of(LineKind::Code, in_block, lines),
            )
            &&& after.line_stats.1 == saturated(
                parser.line_stats.1 + count_of(LineKind::Blank, in_block, lines),
            )
            &&& after.line_stats.2 == saturated(
                parser.line_stats.2 + count_of(LineKind::Comment, in_block, lines),
            )
            &&& after.language == parser.language
            &&& after.is_within_multiline_comment == in_block_after(in_block, lines)
        }),
    decreases lines.len(),
{
    if lines.len() > 0 {
        lemma_parser_holds_counts(parser, lines.drop_last());
    }
}

/// The tally of a scan covers every line read: as long as no counter is
/// pushed past its limit, code, blank and comment lines together have grown
/// by the number of lines read.
pub proof fn lemma_every_line_counted(parser: Parser, lines: Seq<Seq<char>>)
    requires
        parser.line_stats.0 + count_of(
            LineKind::Code,
            parser.is_within_multiline_comment,
            lines,
        ) <= u32::MAX,
        parser.line_stats.1 + count_of(
            LineKind::Blank,
            parser.is_within_multiline_comment,
            lines,
        ) <= u32::MAX,
        parser.line_stats.2 + count_of(
            LineKind::Comment,
            parser.is_within_multiline_comment,
            lines,
        ) <= u32::MAX,
    ensures
        ({
            let after = parser.after_lines(lines);
            after.line_stats.0 + after.line_stats.1 + after.line_stats.2 == parser.line_stats.0
                + parser.line_stats.1 + parser.line_stats.2 + lines.len()
        }),
{
    lemma_parser_holds_counts(parser, lines);
    lemma_counts_add_up(parser.is_within_multiline_comment, lines);
}

/// The end of the line that starts at `start`: the index of the next line
/// feed, or the length of `input` if there is none.
fn find_line_end(input: &[u8], start: usize) -> (end: usize)
    requires
        start <= input@.len(),
    ensures
        start <= end <= input@.len(),
        end == start + line_end(input@.skip(start as int)),
{
    let mut end = start;
    while end < input.len() && input[end] != LINE_FEED
        invariant
            start <= end <= input@.len(),
            forall|j: int| start <= j < end ==> input@[j] != LINE_FEED,
        decreases input@.len() - end,
    {
        end += 1;
    }
    proof {
        lemma_line_end(input@.skip(start as int), (end - start) as nat);
    }
    end
}

/// `line_end` is the index of the first line feed.
proof fn lemma_line_end(bytes: Seq<u8>, n: nat)
    requires
        n <= bytes.len(),
        forall|j: int| 0 <= j < n ==> bytes[j] != LINE_FEED,
        n == bytes.len() || bytes[n as int] == LINE_FEED,
    ensures
        line_end(bytes) == n,
    decreases n,
{
    if n > 0 {
        let rest = bytes.drop_first();
        assert forall|j: int| 0 <= j < n - 1 implies rest[j] != LINE_FEED by {
            assert(rest[j] == bytes[j + 1]);
        }
        lemma_line_end(rest, (n - 1) as nat);
    }
}

/// `readable_lines` is the index of the first line that is not UTF-8.
proof fn lemma_readable_lines(lines: Seq<Seq<u8>>, n: nat)
    requires
        n <= lines.len(),
        forall|i: int| 0 <= i < n ==> valid_utf8(#[trigger] lines[i]),
        n == lines.len() || !valid_utf8(lines[n as int]),
    ensures
        readable_lines(lines) == n,
    decreases n,
{
    if n > 0 {
        let rest = lines.drop_first();
        assert forall|i: int| 0 <= i < n - 1 implies valid_utf8(#[trigger] rest[i]) by {
            assert(rest[i] == lines[i + 1]);
        }
        assert(valid_utf8(lines[0]));
        lemma_readable_lines(rest, (n - 1) as nat);
    }
}

} // verus!
