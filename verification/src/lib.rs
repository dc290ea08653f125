use vstd::prelude::*;
use crate::lines::{line_ending_of, remove_trailing_whitespace, without_trailing_white};
use crate::visit::{pass_over, run_pass};
use crate::visit::alignment::{AlignmentModel, AlignmentVisitor};
use crate::visit::column::{ColumnModel, ColumnVisitor, DEFAULT_COLUMN_SPACING};
use crate::visit::debug::DebugVisitor;
use crate::visit::first_column::DEFAULT_LINE_LENGTH;
use crate::visit::quotes::QuotesVisitor;
use crate::visit::spacing::SpacingVisitor;

pub mod diff;
pub mod laws;
pub mod pass_laws;
pub mod lines;
pub mod python;
pub mod syntax;
pub mod text;
pub mod visit;


verus! {

/// Settings of the formatter.
pub struct Config {
    /// The line length beyond which bracketed lists are broken over lines;
    /// `None` for the default.
    pub line_length: Option<usize>,
}

impl Default for Config {
    fn default() -> (c: Self)
        ensures
            c.line_length is None,
    {
        Config { line_length: None }
    }
}


/// The threshold that a configuration sets.
pub open spec fn threshold_of(line_length: Option<usize>) -> usize {
    match line_length {
        Some(l) => l,
        None => DEFAULT_LINE_LENGTH,
    }
}

/// The alignment visitor's state before a pass, with the line length that a
/// configuration sets.
pub open spec fn alignment_start(line_length: Option<usize>) -> AlignmentModel {
    AlignmentModel { threshold: threshold_of(line_length), edits: Seq::empty(), stack: Seq::empty() }
}

/// What formatting makes of `input`: the passes over the text one after the
/// other, each on the output of the one before and over the syntax tree of
/// that output (quotes, then spacing, then alignment of long lists with the
/// configured line length, then tables), and last the removal of trailing
/// white space. `None` where a pass gives no result.
pub open spec fn formatted(input: Seq<char>, line_length: Option<usize>) -> Option<Seq<char>> {
    match pass_over::<DebugVisitor>(input, ()) {
        None => None,
        Some(s1) => match pass_over::<QuotesVisitor>(s1, Seq::empty()) {
            None => None,
            Some(s2) => match pass_over::<SpacingVisitor>(s2, Seq::empty()) {
                None => None,
                Some(s3) => match pass_over::<AlignmentVisitor>(s3, alignment_start(line_length)) {
                    None => None,
                    Some(s4) => match pass_over::<ColumnVisitor>(
                        s4,
                        ColumnModel { spacing: DEFAULT_COLUMN_SPACING, edits: Seq::empty() },
                    ) {
                        None => None,
                        Some(s5) => Some(without_trailing_white(s5, line_ending_of(s5))),
                    },
                },
            },
        },
    }
}

/// Formats Python source text. `None` where a pass cannot be run: the parser
/// gives no syntax tree of the text, or a pass cannot go on or its edits do
/// not fit the text.
pub fn format(input: &str, config: Config) -> (out: Option<String>)
    ensures
        match formatted(input@, config.line_length) {
            None => out is None,
            Some(o) => out matches Some(x) && x@ == o,
        },
{
    let s1 = match run_pass(input, DebugVisitor::default()) {
        Some(s) => s,
        None => return None,
    };
    let s2 = match run_pass(s1.as_str(), QuotesVisitor::default()) {
        Some(s) => s,
        None => return None,
    };
    let s3 = match run_pass(s2.as_str(), SpacingVisitor::default()) {
        Some(s) => s,
        None => return None,
    };
    let s4 = match run_pass(s3.as_str(), AlignmentVisitor::new(&config)) {
        Some(s) => s,
        None => return None,
    };
    let s5 = match run_pass(s4.as_str(), ColumnVisitor::default()) {
        Some(s) => s,
        None => return None,
    };
    Some(remove_trailing_whitespace(s5.as_str()))
}

} // verus!
