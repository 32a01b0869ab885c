//! Terminal presentation.
//!
//! A handful of ANSI codes, and the shapes of the lines that a command prints.
//! Whether colours are on is for the caller to say.

use crate::report::{Line, LineModel, Row, RowModel};
use crate::text::{decimal, show_size};
use vstd::prelude::*;

verus! {

/// A text in a colour, where colours are on.
pub open spec fn painted(on: bool, code: Seq<char>, text: Seq<char>) -> Seq<char> {
    if on {
        "\u{1b}["@ + code + "m"@ + text + "\u{1b}[0m"@
    } else {
        text
    }
}

/// A text in a colour, where colours are on.
pub fn paint(on: bool, code: &str, text: &str) -> (r: String)
    ensures
        r@ == painted(on, code@, text@),
{
    if on {
        let mut out = "\u{1b}[".to_owned();
        out.append(code);
        out.append("m");
        out.append(text);
        out.append("\u{1b}[0m");
        out
    } else {
        text.to_owned()
    }
}

/// A text that stands out.
pub fn bold(on: bool, t: &str) -> (r: String)
    ensures
        r@ == painted(on, "1"@, t@),
{
    paint(on, "1", t)
}

/// A text that stays in the background.
pub fn dim(on: bool, t: &str) -> (r: String)
    ensures
        r@ == painted(on, "2"@, t@),
{
    paint(on, "2", t)
}

/// A text about something that is wrong.
pub fn red(on: bool, t: &str) -> (r: String)
    ensures
        r@ == painted(on, "31"@, t@),
{
    paint(on, "31", t)
}

/// A text about something that holds.
pub fn green(on: bool, t: &str) -> (r: String)
    ensures
        r@ == painted(on, "32"@, t@),
{
    paint(on, "32", t)
}

/// A text about a fault.
pub fn yellow(on: bool, t: &str) -> (r: String)
    ensures
        r@ == painted(on, "33"@, t@),
{
    paint(on, "33", t)
}

/// A text that points somewhere.
pub fn cyan(on: bool, t: &str) -> (r: String)
    ensures
        r@ == painted(on, "36"@, t@),
{
    paint(on, "36", t)
}

/// A line that opens with a mark.
pub open spec fn marked(mark: Seq<char>, text: Seq<char>) -> Seq<char> {
    "  "@ + mark + " "@ + text
}

/// A line that opens with a mark.
fn mark_line(mark: &str, text: &str) -> (r: String)
    ensures
        r@ == marked(mark@, text@),
{
    let mut out = "  ".to_owned();
    out.append(mark);
    out.append(" ");
    out.append(text);
    out
}

/// A section heading, below an empty line.
pub open spec fn headed(on: bool, n: nat, title: Seq<char>) -> Seq<char> {
    "\n"@ + painted(on, "2"@, decimal(n) + "."@) + " "@ + painted(on, "1"@, title)
}

/// A section heading, below an empty line.
pub fn heading(on: bool, n: usize, title: &str) -> (r: String)
    ensures
        r@ == headed(on, n as nat, title@),
{
    let mut number = show_size(n);
    number.append(".");
    let mut out = "\n".to_owned();
    out.append(dim(on, number.as_str()).as_str());
    out.append(" ");
    out.append(bold(on, title).as_str());
    out
}

/// A line about something that holds.
pub fn ok(on: bool, msg: &str) -> (r: String)
    ensures
        r@ == marked(painted(on, "32"@, "\u{2713}"@), msg@),
{
    mark_line(green(on, "\u{2713}").as_str(), msg)
}

/// A line about something that does not.
pub fn bad(on: bool, msg: &str) -> (r: String)
    ensures
        r@ == marked(painted(on, "31"@, "\u{2717}"@), msg@),
{
    mark_line(red(on, "\u{2717}").as_str(), msg)
}

/// A line about something to know.
pub fn info(on: bool, msg: &str) -> (r: String)
    ensures
        r@ == marked(painted(on, "2"@, "\u{2022}"@), msg@),
{
    mark_line(dim(on, "\u{2022}").as_str(), msg)
}

/// A line of a report, as it is printed.
pub open spec fn printed_line(on: bool, line: LineModel) -> Seq<char> {
    match line {
        LineModel::Heading { number, title } => headed(on, number as nat, title),
        LineModel::Good { text } => marked(painted(on, "32"@, "\u{2713}"@), text),
        LineModel::Bad { text } => marked(painted(on, "31"@, "\u{2717}"@), text),
        LineModel::Note { text } => marked(painted(on, "2"@, "\u{2022}"@), text),
        LineModel::Faults { text } => "     "@ + painted(on, "33"@, text),
        LineModel::Broke { text } => "       "@ + painted(on, "31"@, text),
    }
}

/// A line of a report, as it is printed.
pub fn print_line(on: bool, line: &Line) -> (r: String)
    ensures
        r@ == printed_line(on, line@),
{
    match line {
        Line::Heading { number, title } => heading(on, *number, title.as_str()),
        Line::Good { text } => ok(on, text.as_str()),
        Line::Bad { text } => bad(on, text.as_str()),
        Line::Note { text } => info(on, text.as_str()),
        Line::Faults { text } => {
            let mut out = "     ".to_owned();
            out.append(yellow(on, text.as_str()).as_str());
            out
        },
        Line::Broke { text } => {
            let mut out = "       ".to_owned();
            out.append(red(on, text.as_str()).as_str());
            out
        },
    }
}

/// A row of a trace, as it is printed.
pub open spec fn printed_row(on: bool, row: RowModel) -> Seq<char> {
    match row {
        RowModel::Title { label, engine, effects } => painted(on, "1"@, label) + "  "@ + painted(
            on,
            "2"@,
            engine,
        ) + "  "@ + decimal(effects) + " effects"@,
        RowModel::Schedule { text } => painted(on, "2"@, "  faults:"@) + " "@ + painted(
            on,
            "33"@,
            text,
        ),
        RowModel::Effect { text, faulted } => if faulted {
            painted(on, "33"@, text)
        } else {
            text
        },
        RowModel::Injected { text } => "       "@ + painted(on, "2"@, "injected"@) + " "@ + painted(
            on,
            "33"@,
            text,
        ),
        RowModel::Payload { side, text } => "       "@ + painted(on, "2"@, side) + " "@ + text,
    }
}

/// A row of a trace, as it is printed.
pub fn print_row(on: bool, row: &Row) -> (r: String)
    ensures
        r@ == printed_row(on, row@),
{
    match row {
        Row::Title { label, engine, effects } => {
            let mut out = bold(on, label.as_str());
            out.append("  ");
            out.append(dim(on, engine.as_str()).as_str());
            out.append("  ");
            out.append(show_size(*effects).as_str());
            out.append(" effects");
            out
        },
        Row::Schedule { text } => {
            let mut out = dim(on, "  faults:");
            out.append(" ");
            out.append(yellow(on, text.as_str()).as_str());
            out
        },
        Row::Effect { text, faulted } => if *faulted {
            yellow(on, text.as_str())
        } else {
            text.as_str().to_owned()
        },
        Row::Injected { text } => {
            let mut out = "       ".to_owned();
            out.append(dim(on, "injected").as_str());
            out.append(" ");
            out.append(yellow(on, text.as_str()).as_str());
            out
        },
        Row::Payload { side, text } => {
            let mut out = "       ".to_owned();
            out.append(dim(on, side.as_str()).as_str());
            out.append(" ");
            out.append(text.as_str());
            out
        },
    }
}

} // verus!
