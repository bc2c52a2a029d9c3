//! The scan of one file as a whole, and the table that the tallies of all
//! files are merged into.

use crate::config::Language;
use crate::parser::{decoded, lines_of, readable_lines, saturated, LineStats, Parser, ReadError};
use crate::walker::ScanTask;
use vstd::prelude::*;

verus! {

/// The sum of two tallies, each counter up to its limit.
pub open spec fn add_stats(a: LineStats, b: LineStats) -> LineStats {
    (saturated(a.0 + b.0), saturated(a.1 + b.1), saturated(a.2 + b.2))
}

/// The lines of code, the blank lines and the comment lines that `parsers`
/// hold for `language`, all together.
pub open spec fn total(language: Language, parsers: Seq<Parser>) -> (nat, nat, nat)
    decreases parsers.len(),
{
    if parsers.len() == 0 {
        (0nat, 0nat, 0nat)
    } else {
        let before = total(language, parsers.drop_last());
        let stats = parsers.last().line_stats;
        if parsers.last().language == language {
            (
                (before.0 + stats.0) as nat,
                (before.1 + stats.1) as nat,
                (before.2 + stats.2) as nat,
            )
        } else {
            before
        }
    }
}

/// The tally of each language. Every language has one, from the start.
#[derive(Debug, Clone, Copy, PartialEq, Eq)]
pub struct ResultTable {
    pub javascript: LineStats,
    pub typescript: LineStats,
}

impl View for ResultTable {
    type V = Map<Language, LineStats>;

    open spec fn view(&self) -> Map<Language, LineStats> {
        Map::new(|language: Language| true, |language: Language| self.entry(language))
    }
}

impl ResultTable {
    /// The table that holds an empty tally for every language.
    pub open spec fn empty() -> ResultTable {
        ResultTable { javascript: (0u32, 0u32, 0u32), typescript: (0u32, 0u32, 0u32) }
    }

    /// The tally of `language`.
    pub open spec fn entry(self, language: Language) -> LineStats {
        match language {
            Language::Javascript => self.javascript,
            Language::Typescript => self.typescript,
        }
    }

    /// The table after the tally of `parser` has been added to that of the
    /// parser's language.
    pub open spec fn merged(self, parser: Parser) -> ResultTable {
        match parser.language {
            Language::Javascript => ResultTable {
                javascript: add_stats(self.javascript, parser.line_stats),
                typescript: self.typescript,
            },
            Language::Typescript => ResultTable {
                javascript: self.javascript,
                typescript: add_stats(self.typescript, parser.line_stats),
            },
        }
    }

    /// The table after the tallies of `parsers` have been added, the first
    /// one first.
    pub open spec fn merged_all(self, parsers: Seq<Parser>) -> ResultTable
        decreases parsers.len(),
    {
        if parsers.len() == 0 {
            self
        } else {
            self.merged_all(parsers.drop_last()).merged(parsers.last())
        }
    }

    /// The tally of `language`.
    pub fn get(&self, language: Language) -> (stats: LineStats)
        ensures
            stats == self.entry(language),
    {
        match language {
            Language::Javascript => self.javascript,
            Language::Typescript => self.typescript,
        }
    }
}

/// The table before any file has been scanned: an empty tally for every
/// language.
pub fn initiate_results_map() -> (table: ResultTable)
    ensures
        table == ResultTable::empty(),
{
    ResultTable { javascript: (0, 0, 0), typescript: (0, 0, 0) }
}

/// Adds the tally of one scanned file to that of its language. The other
/// languages keep theirs.
pub fn aggregate_results(result_map: &mut ResultTable, parser: Parser)
    ensures
        *final(result_map) == old(result_map).merged(parser),
{
    let (code, blank, comment) = result_map.get(parser.language);
    let language_counts = (
        code.saturating_add(parser.line_stats.0),
        blank.saturating_add(parser.line_stats.1),
        comment.saturating_add(parser.line_stats.2),
    );
    match parser.language {
        Language::Javascript => {
            result_map.javascript = language_counts;
        },
        Language::Typescript => {
            result_map.typescript = language_counts;
        },
    }
}

/// Scans the file of one task from its first line to its last. `content`
/// holds the bytes of the file, or nothing if the file could not be read.
/// All of a file is scanned or none of it: one that could not be read, or
/// that has a line that is not UTF-8, yields no tally at all, only the
/// reason.
pub fn process_file(handler: &ScanTask, content: Option<&[u8]>) -> (res: Result<
    Parser,
    ReadError,
>)
    ensures
        match content {
            None => res == Err::<Parser, ReadError>(ReadError::Unreadable),
            Some(bytes) => {
                let lines = lines_of(bytes@);
                match res {
                    Ok(parser) => {
                        &&& readable_lines(lines) == lines.len()
                        &&& parser == Parser::fresh(handler.language).after_lines(decoded(lines))
                    },
                    Err(error) => {
                        &&& readable_lines(lines) < lines.len()
                        &&& error == (ReadError::InvalidEncoding {
                            line: readable_lines(lines) as usize,
                        })
                    },
                }
            },
        },
{
    let bytes = match content {
        Some(bytes) => bytes,
        None => {
            return Err(ReadError::Unreadable);
        },
    };
    let mut parser = Parser::new(handler.language);
    match parser.parse(bytes) {
        Ok(_) => {
            assert(lines_of(bytes@).take(lines_of(bytes@).len() as int) =~= lines_of(bytes@));
            Ok(parser)
        },
        Err(error) => Err(error),
    }
}

/// The table after a run of tallies holds, for each language and each kind
/// of line, what it held before and what the tallies for that language
/// hold, added up, up to the counter's limit.
pub proof fn lemma_table_holds_totals(table: ResultTable, parsers: Seq<Parser>, language: Language)
    ensures
        ({
            let before = table.entry(language);
            let after = table.merged_all(parsers).entry(language);
            let added = total(language, parsers);
            &&& after.0 == saturated(before.0 + added.0)
            &&& after.1 == saturated(before.1 + added.1)
            &&& after.2 == saturated(before.2 + added.2)
        }),
    decreases parsers.len(),
{
    if parsers.len() > 0 {
        lemma_table_holds_totals(table, parsers.drop_last(), language);
    }
}

/// Taking one tally out of a run takes what it holds out of the totals.
proof fn lemma_total_without(language: Language, parsers: Seq<Parser>, i: int)
    requires
        0 <= i < parsers.len(),
    ensures
        ({
            let all = total(language, parsers);
            let others = total(language, parsers.remove(i));
            let stats = parsers[i].line_stats;
            if parsers[i].language == language {
                all == (
                    (others.0 + stats.0) as nat,
                    (others.1 + stats.1) as nat,
                    (others.2 + stats.2) as nat,
                )
            } else {
                all == others
            }
        }),
    decreases parsers.len(),
{
    if i == parsers.len() - 1 {
        assert(parsers.remove(i) =~= parsers.drop_last());
    } else {
        assert(parsers.remove(i).drop_last() =~= parsers.drop_last().remove(i));
        assert(parsers.remove(i).last() == parsers.last());
        lemma_total_without(language, parsers.drop_last(), i);
    }
}

/// The totals of a run of tallies do not depend on the order of the run.
proof fn lemma_total_any_order(language: Language, first: Seq<Parser>, second: Seq<Parser>)
    requires
        first.to_multiset() == second.to_multiset(),
    ensures
        total(language, first) == total(language, second),
    decreases first.len(),
{
    first.to_multiset_ensures();
    second.to_multiset_ensures();
    if first.len() > 0 {
        let last = first.last();
        assert(first.contains(last));
        assert(first.to_multiset().count(last) > 0);
        assert(second.to_multiset().count(last) > 0);
        assert(second.contains(last));
        let i = choose|i: int| 0 <= i < second.len() && second[i] == last;
        assert(first.remove(first.len() - 1) =~= first.drop_last());
        assert(first.drop_last().to_multiset() =~= second.remove(i).to_multiset());
        lemma_total_any_order(language, first.drop_last(), second.remove(i));
        lemma_total_without(language, second, i);
    }
}

/// Aggregation does not depend on the order in which the tallies arrive:
/// two runs of the same tallies, each as often in one as in the other, turn
/// a table into the same table.
pub proof fn lemma_aggregation_any_order(
    table: ResultTable,
    first: Seq<Parser>,
    second: Seq<Parser>,
)
    requires
        first.to_multiset() == second.to_multiset(),
    ensures
        table.merged_all(first) == table.merged_all(second),
{
    lemma_table_holds_totals(table, first, Language::Javascript);
    lemma_table_holds_totals(table, second, Language::Javascript);
    lemma_total_any_order(Language::Javascript, first, second);
    lemma_table_holds_totals(table, first, Language::Typescript);
    lemma_table_holds_totals(table, second, Language::Typescript);
    lemma_total_any_order(Language::Typescript, first, second);
}

} // verus!
