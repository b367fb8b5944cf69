//! The text of a line: branches, label and size, with colours.

use vstd::prelude::*;
use vstd::string::*;
use crate::decimal::decimal;
use crate::decimal::decimal_string;
use crate::line::Line;
use crate::line::LineView;
use crate::walk::Counts;

verus! {

/// The colours that the tree is drawn in.
#[derive(Clone, Copy, Debug, PartialEq, Eq, Structural)]
pub enum Color {
    BrightBlack,
    BrightBlue,
    BrightWhite,
    BrightMagenta,
}

/// The colour of the branches.
pub open spec fn glyph_color() -> Color {
    Color::BrightBlack
}

/// The colour of a label: one for directories, one for everything else.
pub open spec fn label_color(is_dir: bool) -> Color {
    if is_dir {
        Color::BrightBlue
    } else {
        Color::BrightWhite
    }
}

/// The colour of a size.
pub open spec fn size_color() -> Color {
    Color::BrightMagenta
}

/// The text that `colored` writes for `text` in the foreground colour `color`
/// when colours are switched on.
pub uninterp spec fn colored_text(text: Seq<char>, color: Color) -> Seq<char>;

/// The text that `humansize` writes for a number of bytes in its decimal
/// format: a number with up to two decimal places, a space and a unit in
/// steps of a thousand.
pub uninterp spec fn decimal_size(bytes: u64) -> Seq<char>;

/// `out` is `text` as it is, or in the colour `color`.
pub open spec fn painted(out: Seq<char>, text: Seq<char>, color: Color) -> bool {
    out == text || out == colored_text(text, color)
}

/// Gives `text` the foreground colour `color`, through `Colorize::color` of
/// `colored` and the `Display` of the `ColoredString` that it returns.
///
/// Not proved: that the result is either `text` unchanged, where colours are
/// switched off (by the environment, the terminal or an override), or else
/// one text that depends on `text` and `color` alone.
#[verifier::external_body]
fn paint(text: &str, color: Color) -> (s: String)
    ensures
        s@ == text@ || s@ == colored_text(text@, color),
{
    let foreground = match color {
        Color::BrightBlack => colored::Color::BrightBlack,
        Color::BrightBlue => colored::Color::BrightBlue,
        Color::BrightWhite => colored::Color::BrightWhite,
        Color::BrightMagenta => colored::Color::BrightMagenta,
    };
    colored::Colorize::color(text, foreground).to_string()
}

/// Writes a number of bytes for a reader, through `format_size` of
/// `humansize` with its `DECIMAL` options.
///
/// Not proved: that the result depends on the number alone.
#[verifier::external_body]
fn human_size(bytes: u64) -> (s: String)
    ensures
        s@ == decimal_size(bytes),
{
    humansize::format_size(bytes, humansize::DECIMAL)
}

/// The branch in front of an entry: one shape for the last entry of a
/// directory, one for the others.
pub open spec fn glyph(last: bool) -> Seq<char> {
    if last {
        "└── "@
    } else {
        "├── "@
    }
}

/// The vertical bar that runs past the entries of a directory further in.
pub open spec fn bar() -> Seq<char> {
    "│"@
}

/// One column of indentation, four wide: the bar and three spaces where a
/// bar runs through it, four spaces where none does.
pub open spec fn cell(bar_here: bool, bar: Seq<char>) -> Seq<char> {
    if bar_here {
        bar + "   "@
    } else {
        "    "@
    }
}

/// The indentation of a line: its columns, outermost first.
pub open spec fn indent(columns: Seq<bool>, bar: Seq<char>) -> Seq<char>
    decreases columns.len(),
{
    if columns.len() == 0 {
        Seq::empty()
    } else {
        indent(columns.drop_last(), bar) + cell(columns.last(), bar)
    }
}

/// A line put together from its pieces: indentation and branch where
/// branches are drawn, then the label, then a space and the size where there
/// is one.
pub open spec fn composed(
    columns: Seq<bool>,
    indentation: bool,
    bar: Seq<char>,
    glyph: Seq<char>,
    base: Seq<char>,
    name: Seq<char>,
    size: Option<Seq<char>>,
) -> Seq<char> {
    (if indentation {
        indent(columns, bar) + glyph
    } else {
        Seq::empty()
    }) + base + name + (match size {
        Some(text) => " "@ + text,
        None => Seq::empty(),
    })
}

/// Puts a line together from its pieces, each as it is to appear.
pub fn compose(
    columns: &Vec<bool>,
    indentation: bool,
    bar: &str,
    glyph: &str,
    base: &str,
    name: &str,
    size: Option<&str>,
) -> (s: String)
    ensures
        s@ == composed(
            columns@,
            indentation,
            bar@,
            glyph@,
            base@,
            name@,
            match size {
                Some(text) => Some(text@),
                None => None,
            },
        ),
{
    let mut s = String::new();
    if indentation {
        let mut i: usize = 0;
        assert(columns@.take(0) == Seq::<bool>::empty());
        while i < columns.len()
            invariant
                i <= columns.len(),
                s@ == indent(columns@.take(i as int), bar@),
            decreases columns.len() - i,
        {
            let ghost upto = columns@.take(i + 1);
            assert(upto.drop_last() == columns@.take(i as int));
            assert(upto.last() == columns@[i as int]);
            if columns[i] {
                s.append(bar);
                s.append("   ");
                assert(s@ =~= indent(upto, bar@));
            } else {
                s.append("    ");
            }
            i += 1;
        }
        assert(columns@.take(i as int) == columns@);
        s.append(glyph);
    }
    s.append(base);
    s.append(name);
    if let Some(text) = size {
        s.append(" ");
        s.append(text);
    }
    assert(s@ =~= composed(
        columns@,
        indentation,
        bar@,
        glyph@,
        base@,
        name@,
        match size {
            Some(text) => Some(text@),
            None => None,
        },
    ));
    s
}

/// The text of `line` put together from the given pieces; `size` counts only
/// where the line shows a size.
pub open spec fn line_text(
    line: LineView,
    indentation: bool,
    bar: Seq<char>,
    glyph: Seq<char>,
    base: Seq<char>,
    name: Seq<char>,
    size: Seq<char>,
) -> Seq<char> {
    composed(
        line.columns,
        indentation,
        bar,
        glyph,
        base,
        name,
        if line.size is Some {
            Some(size)
        } else {
            None
        },
    )
}

/// The text of a line without any colour.
pub open spec fn plain_text(line: LineView, indentation: bool) -> Seq<char> {
    line_text(
        line,
        indentation,
        bar(),
        glyph(line.last),
        line.base,
        line.name,
        decimal_size(line.size.unwrap_or(0)),
    )
}

/// `text` is the line put together from its pieces, each of them as it is
/// or in its colour: bar and branch in the colour of the branches, the two
/// parts of the label in the colour of the entry's kind, the size in its own.
pub open spec fn is_rendering(text: Seq<char>, line: LineView, indentation: bool) -> bool {
    exists|b: Seq<char>, g: Seq<char>, p: Seq<char>, n: Seq<char>, z: Seq<char>|
        {
            &&& painted(b, bar(), glyph_color())
            &&& painted(g, glyph(line.last), glyph_color())
            &&& painted(p, line.base, label_color(line.is_dir))
            &&& painted(n, line.name, label_color(line.is_dir))
            &&& painted(z, decimal_size(line.size.unwrap_or(0)), size_color())
            &&& text == #[trigger] line_text(line, indentation, b, g, p, n, z)
        }
}

impl Line {
    /// Writes the line as text, with branches in front of it if
    /// `indentation` is set, and with colours where they are switched on.
    pub fn render(&self, indentation: bool) -> (s: String)
        ensures
            is_rendering(s@, self@, indentation),
    {
        let b = paint("│", Color::BrightBlack);
        let g = if self.last {
            paint("└── ", Color::BrightBlack)
        } else {
            paint("├── ", Color::BrightBlack)
        };
        let color = if self.is_dir {
            Color::BrightBlue
        } else {
            Color::BrightWhite
        };
        let p = paint(self.base.as_str(), color);
        let n = paint(self.name.as_str(), color);
        match self.size {
            Some(bytes) => {
                let z = paint(human_size(bytes).as_str(), Color::BrightMagenta);
                let s = compose(
                    &self.columns,
                    indentation,
                    b.as_str(),
                    g.as_str(),
                    p.as_str(),
                    n.as_str(),
                    Some(z.as_str()),
                );
                assert(s@ == line_text(self@, indentation, b@, g@, p@, n@, z@));
                s
            },
            None => {
                let s = compose(
                    &self.columns,
                    indentation,
                    b.as_str(),
                    g.as_str(),
                    p.as_str(),
                    n.as_str(),
                    None,
                );
                let ghost z = decimal_size(0);
                assert(s@ == line_text(self@, indentation, b@, g@, p@, n@, z));
                s
            },
        }
    }
}

/// The closing line: a blank line, then the numbers of files and of
/// directories, then the total size where one is given.
pub open spec fn summary_text(counts: Counts, size: Option<Seq<char>>) -> Seq<char> {
    "\n"@ + decimal(counts.files as nat) + " files, "@ + decimal(counts.dirs as nat)
        + " directories"@ + (match size {
        Some(text) => " - "@ + text,
        None => Seq::empty(),
    })
}

/// Writes the closing line with the given text for the total size.
pub fn summary_with(counts: &Counts, size: Option<&str>) -> (s: String)
    ensures
        s@ == summary_text(
            *counts,
            match size {
                Some(text) => Some(text@),
                None => None,
            },
        ),
{
    let mut s = String::from_str("\n");
    s.append(decimal_string(counts.files as u64).as_str());
    s.append(" files, ");
    s.append(decimal_string(counts.dirs as u64).as_str());
    s.append(" directories");
    if let Some(text) = size {
        s.append(" - ");
        s.append(text);
    }
    s
}

/// Writes the closing line; the total size is part of it where sizes are shown.
pub fn summary(counts: &Counts, display_bytes: bool) -> (s: String)
    ensures
        s@ == summary_text(
            *counts,
            if display_bytes {
                Some(decimal_size(counts.bytes))
            } else {
                None
            },
        ),
{
    if display_bytes {
        let size = human_size(counts.bytes);
        summary_with(counts, Some(size.as_str()))
    } else {
        summary_with(counts, None)
    }
}

} // verus!
