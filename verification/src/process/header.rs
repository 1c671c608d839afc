//! The header of the process table.

use crate::process::{Process, SortBy};
use crate::text::{blanks, pad_left};
use vstd::prelude::*;

verus! {

/// A rectangle of the screen.
#[derive(Debug, Clone, Copy, PartialEq, Eq, Structural)]
pub struct Rect {
    pub x: u16,
    pub y: u16,
    pub width: u16,
    pub height: u16,
}

/// The heading of a column.
pub open spec fn column_label(column: SortBy) -> Seq<char> {
    match column {
        SortBy::Pid => "pid"@,
        SortBy::Cpu => "cpu"@,
        SortBy::Ram => "ram"@,
    }
}

/// The number of blanks in front of the heading of a column.
pub open spec fn column_indent(column: SortBy) -> nat {
    match column {
        SortBy::Pid => 5,
        SortBy::Cpu => 3,
        SortBy::Ram => 7,
    }
}

/// A piece of the header line. The heading of the column by which the table
/// is sorted is highlighted.
#[derive(Debug)]
pub struct Span {
    pub text: String,
    pub highlighted: bool,
}

/// The two lines above the table: the headings of the columns, with a bar
/// and the heading of the tree behind them, and a rule that the bar crosses.
#[derive(Debug)]
pub struct Header {
    pub spans: Vec<Span>,
    pub bar_x: u16,
    pub tree_label_x: u16,
    pub rule: String,
    pub height: u16,
}

/// The width of the headings of the columns.
pub const HEADER_WIDTH: u16 = 25;

/// The columns in the order of the table.
pub open spec fn all_columns() -> Seq<SortBy> {
    seq![SortBy::Pid, SortBy::Cpu, SortBy::Ram]
}

/// The pieces of the header line for the first `count` columns: for each the
/// blanks in front of its heading, and the heading, which is highlighted
/// where it is the column `active`.
pub open spec fn column_spans(active: SortBy, count: nat) -> Seq<(Seq<char>, bool)>
    decreases count,
{
    if count == 0 || count > 3 {
        Seq::empty()
    } else {
        let column = all_columns()[count - 1];
        column_spans(active, (count - 1) as nat) + seq![
            (blanks(column_indent(column)), false),
            (column_label(column), column == active),
        ]
    }
}

/// The pieces of the header line: those of the three columns, and a blank at
/// the end.
pub open spec fn header_spans(active: SortBy) -> Seq<(Seq<char>, bool)> {
    column_spans(active, 3).push((" "@, false))
}

/// The pieces held by a vector, each as its text and whether it is
/// highlighted.
pub open spec fn span_views(spans: Seq<Span>) -> Seq<(Seq<char>, bool)> {
    spans.map_values(|span: Span| (span.text@, span.highlighted))
}

/// The rule under the header for the columns from `from` up to `to`, crossed
/// at the column `cross`.
pub open spec fn rule_text(from: u16, to: u16, cross: u16) -> Seq<char> {
    Seq::new(
        if to > from {
            (to - from) as nat
        } else {
            0
        },
        |i: int|
            if from + i == cross {
                '╋'
            } else {
                '━'
            },
    )
}

impl Process {
    /// The header of the table for a screen area. The rule runs from the
    /// left edge of the area to the column of its width.
    pub fn render_header(area: Rect, active: SortBy) -> (header: Header)
        requires
            area.x + HEADER_WIDTH + 2 <= u16::MAX,
        ensures
            span_views(header.spans@) == header_spans(active),
            header.bar_x == HEADER_WIDTH,
            header.tree_label_x == area.x + HEADER_WIDTH + 2,
            header.rule@ == rule_text(area.x, area.width, HEADER_WIDTH),
            header.height == 2,
    {
        let mut spans: Vec<Span> = Vec::new();
        let columns = SortBy::all();
        let mut i: usize = 0;
        while i < columns.len()
            invariant
                i <= 3,
                columns@ == all_columns(),
                span_views(spans@) == column_spans(active, i as nat),
            decreases columns@.len() - i,
        {
            let column = columns[i];
            let indent = pad_left("", column.leading_spaces());
            proof {
                reveal_strlit("");
            }
            spans.push(Span { text: indent, highlighted: false });
            spans.push(
                Span {
                    text: column.label().to_owned(),
                    highlighted: match (column, active) {
                        (SortBy::Pid, SortBy::Pid) => true,
                        (SortBy::Cpu, SortBy::Cpu) => true,
                        (SortBy::Ram, SortBy::Ram) => true,
                        _ => false,
                    },
                },
            );
            i = i + 1;
        }
        spans.push(Span { text: " ".to_owned(), highlighted: false });
        let mut rule = String::new();
        let mut x: u16 = area.x;
        while x < area.width
            invariant
                area.x <= x,
                x <= area.width || x == area.x,
                rule@ == rule_text(area.x, x, HEADER_WIDTH),
            decreases area.width - x,
        {
            proof {
                reveal_strlit("╋");
                reveal_strlit("━");
            }
            rule.append(if x == HEADER_WIDTH { "╋" } else { "━" });
            x = x + 1;
        }
        Header {
            spans,
            bar_x: HEADER_WIDTH,
            tree_label_x: area.x + HEADER_WIDTH + 2,
            rule,
            height: 2,
        }
    }
}

} // verus!
