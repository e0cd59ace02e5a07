//! The style catalog: the closed set of named table styles, each resolving to
//! either a border-glyph template (bordered styles) or no template (borderless
//! styles, which use the simple column-gap layout).

use vstd::prelude::*;

verus! {

/// The named visual styles a table can be rendered with.
#[derive(Clone, Copy, Debug, PartialEq, Eq, Structural)]
pub enum TableStyle {
    /// No borders; columns separated by a single space.
    Simple,
    /// ASCII grid borders.
    Grid,
    /// Double-line grid borders.
    FancyGrid,
    /// Horizontal rules only.
    Clean,
    /// Rounded corners.
    Round,
    /// Top and header rules only, banner-like.
    Banner,
    /// Solid block borders.
    Block,
    /// No borders; blue headers and white rows when color is enabled.
    Amiga,
    /// Thin single-line borders.
    Minimal,
    /// Thin single-line borders, compact variant.
    Compact,
    /// Pipe-delimited rows readable as a markdown table.
    Markdown,
    /// Dotted borders.
    Dotted,
    /// Thick single-line borders.
    Heavy,
    /// Thick single-line borders, neon variant.
    Neon,
}

/// Horizontal alignment of text within a column.
#[derive(Clone, Copy, Debug)]
pub enum Alignment {
    Left,
    Center,
    Right,
}

/// A foreground color: a basic named color or an explicit RGB triple.
#[derive(Clone, Copy, Debug, PartialEq, Eq, Structural)]
pub enum TextColor {
    Black,
    Blue,
    Green,
    Red,
    Cyan,
    Magenta,
    Yellow,
    White,
    Rgb(u8, u8, u8),
}

/// The glyphs of one structural line of a bordered table.  `None` stands for
/// an absent glyph: nothing is emitted in its place.
#[derive(Clone, Copy, Debug)]
pub struct LineGlyphs {
    /// Leftmost glyph of the line.
    pub begin: Option<char>,
    /// Fill glyph repeated across each column on horizontal rules.
    pub hline: Option<char>,
    /// Glyph between adjacent columns.
    pub sep: Option<char>,
    /// Rightmost glyph of the line.
    pub end: Option<char>,
}

/// The four border-line templates of a bordered style.
#[derive(Clone, Copy, Debug)]
pub struct TableStyleConfig {
    /// Rule above the header row.
    pub top: LineGlyphs,
    /// Rule between the header row and the data rows.
    pub below_header: LineGlyphs,
    /// Rule below the last data row.
    pub bottom: LineGlyphs,
    /// Glyphs wrapped around cell content on header and data rows.
    pub row: LineGlyphs,
}

/// The border template of each style; `None` for the borderless styles.
pub open spec fn spec_config(style: TableStyle) -> Option<TableStyleConfig> {
    match style {
        TableStyle::Simple => None,
        TableStyle::Amiga => None,
        TableStyle::Grid => Some(TableStyleConfig {
            top: LineGlyphs { begin: Some('+'), hline: Some('-'), sep: Some('+'), end: Some('+') },
            below_header: LineGlyphs { begin: Some('+'), hline: Some('-'), sep: Some('+'), end: Some('+') },
            bottom: LineGlyphs { begin: Some('+'), hline: Some('-'), sep: Some('+'), end: Some('+') },
            row: LineGlyphs { begin: Some('|'), hline: None, sep: Some('|'), end: Some('|') },
        }),
        TableStyle::FancyGrid => Some(TableStyleConfig {
            top: LineGlyphs { begin: Some('╒'), hline: Some('═'), sep: Some('╤'), end: Some('╕') },
            below_header: LineGlyphs { begin: Some('╞'), hline: Some('═'), sep: Some('╪'), end: Some('╡') },
            bottom: LineGlyphs { begin: Some('╘'), hline: Some('═'), sep: Some('╧'), end: Some('╛') },
            row: LineGlyphs { begin: Some('│'), hline: None, sep: Some('│'), end: Some('│') },
        }),
        TableStyle::Clean => Some(TableStyleConfig {
            top: LineGlyphs { begin: None, hline: Some('─'), sep: Some(' '), end: None },
            below_header: LineGlyphs { begin: None, hline: Some('─'), sep: Some(' '), end: None },
            bottom: LineGlyphs { begin: None, hline: Some('─'), sep: Some(' '), end: None },
            row: LineGlyphs { begin: None, hline: None, sep: Some(' '), end: None },
        }),
        TableStyle::Round => Some(TableStyleConfig {
            top: LineGlyphs { begin: Some('╭'), hline: Some('─'), sep: Some('┬'), end: Some('╮') },
            below_header: LineGlyphs { begin: Some('├'), hline: Some('─'), sep: Some('┼'), end: Some('┤') },
            bottom: LineGlyphs { begin: Some('╰'), hline: Some('─'), sep: Some('┴'), end: Some('╯') },
            row: LineGlyphs { begin: Some('│'), hline: None, sep: Some('│'), end: Some('│') },
        }),
        TableStyle::Banner => Some(TableStyleConfig {
            top: LineGlyphs { begin: Some('╒'), hline: Some('═'), sep: Some('╤'), end: Some('╕') },
            below_header: LineGlyphs { begin: Some('╘'), hline: Some('═'), sep: Some('╧'), end: Some('╛') },
            bottom: LineGlyphs { begin: Some('╘'), hline: Some('═'), sep: Some('╧'), end: Some('╛') },
            row: LineGlyphs { begin: Some('│'), hline: None, sep: Some('│'), end: Some('│') },
        }),
        TableStyle::Block => Some(TableStyleConfig {
            top: LineGlyphs { begin: Some('◢'), hline: Some('■'), sep: Some('■'), end: Some('◣') },
            below_header: LineGlyphs { begin: Some(' '), hline: Some('━'), sep: Some('━'), end: Some(' ') },
            bottom: LineGlyphs { begin: Some('◥'), hline: Some('■'), sep: Some('■'), end: Some('◤') },
            row: LineGlyphs { begin: None, hline: None, sep: Some(' '), end: None },
        }),
        TableStyle::Minimal => Some(TableStyleConfig {
            top: LineGlyphs { begin: Some('┌'), hline: Some('─'), sep: Some('┬'), end: Some('┐') },
            below_header: LineGlyphs { begin: Some('├'), hline: Some('─'), sep: Some('┼'), end: Some('┤') },
            bottom: LineGlyphs { begin: Some('└'), hline: Some('─'), sep: Some('┴'), end: Some('┘') },
            row: LineGlyphs { begin: Some('│'), hline: None, sep: Some('│'), end: Some('│') },
        }),
        TableStyle::Compact => Some(TableStyleConfig {
            top: LineGlyphs { begin: Some('┌'), hline: Some('─'), sep: Some('┬'), end: Some('┐') },
            below_header: LineGlyphs { begin: Some('├'), hline: Some('─'), sep: Some('┼'), end: Some('┤') },
            bottom: LineGlyphs { begin: Some('└'), hline: Some('─'), sep: Some('┴'), end: Some('┘') },
            row: LineGlyphs { begin: Some('│'), hline: None, sep: Some('│'), end: Some('│') },
        }),
        TableStyle::Markdown => Some(TableStyleConfig {
            top: LineGlyphs { begin: None, hline: None, sep: None, end: None },
            below_header: LineGlyphs { begin: Some('|'), hline: Some('-'), sep: Some('|'), end: Some('|') },
            bottom: LineGlyphs { begin: None, hline: None, sep: None, end: None },
            row: LineGlyphs { begin: Some('|'), hline: None, sep: Some('|'), end: Some('|') },
        }),
        TableStyle::Dotted => Some(TableStyleConfig {
            top: LineGlyphs { begin: Some('.'), hline: Some('.'), sep: Some('.'), end: Some('.') },
            below_header: LineGlyphs { begin: Some(':'), hline: Some('.'), sep: Some(':'), end: Some(':') },
            bottom: LineGlyphs { begin: Some('\''), hline: Some('.'), sep: Some('\''), end: Some('\'') },
            row: LineGlyphs { begin: Some(':'), hline: None, sep: Some(':'), end: Some(':') },
        }),
        TableStyle::Heavy => Some(TableStyleConfig {
            top: LineGlyphs { begin: Some('┏'), hline: Some('━'), sep: Some('┳'), end: Some('┓') },
            below_header: LineGlyphs { begin: Some('┣'), hline: Some('━'), sep: Some('╋'), end: Some('┫') },
            bottom: LineGlyphs { begin: Some('┗'), hline: Some('━'), sep: Some('┻'), end: Some('┛') },
            row: LineGlyphs { begin: Some('┃'), hline: None, sep: Some('┃'), end: Some('┃') },
        }),
        TableStyle::Neon => Some(TableStyleConfig {
            top: LineGlyphs { begin: Some('┏'), hline: Some('━'), sep: Some('┳'), end: Some('┓') },
            below_header: LineGlyphs { begin: Some('┣'), hline: Some('━'), sep: Some('╋'), end: Some('┫') },
            bottom: LineGlyphs { begin: Some('┗'), hline: Some('━'), sep: Some('┻'), end: Some('┛') },
            row: LineGlyphs { begin: Some('┃'), hline: None, sep: Some('┃'), end: Some('┃') },
        }),
    }
}

impl TableStyle {
    /// The border template of this style, or `None` for the borderless styles
    /// (the renderer then uses the simple layout).
    pub fn config(&self) -> (r: Option<TableStyleConfig>)
        ensures
            r == spec_config(*self),
    {
        match self {
            TableStyle::Simple => None,
            TableStyle::Amiga => None,
            TableStyle::Grid => Some(TableStyleConfig {
                top: LineGlyphs { begin: Some('+'), hline: Some('-'), sep: Some('+'), end: Some('+') },
                below_header: LineGlyphs { begin: Some('+'), hline: Some('-'), sep: Some('+'), end: Some('+') },
                bottom: LineGlyphs { begin: Some('+'), hline: Some('-'), sep: Some('+'), end: Some('+') },
                row: LineGlyphs { begin: Some('|'), hline: None, sep: Some('|'), end: Some('|') },
            }),
            TableStyle::FancyGrid => Some(TableStyleConfig {
                top: LineGlyphs { begin: Some('╒'), hline: Some('═'), sep: Some('╤'), end: Some('╕') },
                below_header: LineGlyphs { begin: Some('╞'), hline: Some('═'), sep: Some('╪'), end: Some('╡') },
                bottom: LineGlyphs { begin: Some('╘'), hline: Some('═'), sep: Some('╧'), end: Some('╛') },
                row: LineGlyphs { begin: Some('│'), hline: None, sep: Some('│'), end: Some('│') },
            }),
            TableStyle::Clean => Some(TableStyleConfig {
                top: LineGlyphs { begin: None, hline: Some('─'), sep: Some(' '), end: None },
                below_header: LineGlyphs { begin: None, hline: Some('─'), sep: Some(' '), end: None },
                bottom: LineGlyphs { begin: None, hline: Some('─'), sep: Some(' '), end: None },
                row: LineGlyphs { begin: None, hline: None, sep: Some(' '), end: None },
            }),
            TableStyle::Round => Some(TableStyleConfig {
                top: LineGlyphs { begin: Some('╭'), hline: Some('─'), sep: Some('┬'), end: Some('╮') },
                below_header: LineGlyphs { begin: Some('├'), hline: Some('─'), sep: Some('┼'), end: Some('┤') },
                bottom: LineGlyphs { begin: Some('╰'), hline: Some('─'), sep: Some('┴'), end: Some('╯') },
                row: LineGlyphs { begin: Some('│'), hline: None, sep: Some('│'), end: Some('│') },
            }),
            TableStyle::Banner => Some(TableStyleConfig {
                top: LineGlyphs { begin: Some('╒'), hline: Some('═'), sep: Some('╤'), end: Some('╕') },
                below_header: LineGlyphs { begin: Some('╘'), hline: Some('═'), sep: Some('╧'), end: Some('╛') },
                bottom: LineGlyphs { begin: Some('╘'), hline: Some('═'), sep: Some('╧'), end: Some('╛') },
                row: LineGlyphs { begin: Some('│'), hline: None, sep: Some('│'), end: Some('│') },
            }),
            TableStyle::Block => Some(TableStyleConfig {
                top: LineGlyphs { begin: Some('◢'), hline: Some('■'), sep: Some('■'), end: Some('◣') },
                below_header: LineGlyphs { begin: Some(' '), hline: Some('━'), sep: Some('━'), end: Some(' ') },
                bottom: LineGlyphs { begin: Some('◥'), hline: Some('■'), sep: Some('■'), end: Some('◤') },
                row: LineGlyphs { begin: None, hline: None, sep: Some(' '), end: None },
            }),
            TableStyle::Minimal => Some(TableStyleConfig {
                top: LineGlyphs { begin: Some('┌'), hline: Some('─'), sep: Some('┬'), end: Some('┐') },
                below_header: LineGlyphs { begin: Some('├'), hline: Some('─'), sep: Some('┼'), end: Some('┤') },
                bottom: LineGlyphs { begin: Some('└'), hline: Some('─'), sep: Some('┴'), end: Some('┘') },
                row: LineGlyphs { begin: Some('│'), hline: None, sep: Some('│'), end: Some('│') },
            }),
            TableStyle::Compact => Some(TableStyleConfig {
                top: LineGlyphs { begin: Some('┌'), hline: Some('─'), sep: Some('┬'), end: Some('┐') },
                below_header: LineGlyphs { begin: Some('├'), hline: Some('─'), sep: Some('┼'), end: Some('┤') },
                bottom: LineGlyphs { begin: Some('└'), hline: Some('─'), sep: Some('┴'), end: Some('┘') },
                row: LineGlyphs { begin: Some('│'), hline: None, sep: Some('│'), end: Some('│') },
            }),
            TableStyle::Markdown => Some(TableStyleConfig {
                top: LineGlyphs { begin: None, hline: None, sep: None, end: None },
                below_header: LineGlyphs { begin: Some('|'), hline: Some('-'), sep: Some('|'), end: Some('|') },
                bottom: LineGlyphs { begin: None, hline: None, sep: None, end: None },
                row: LineGlyphs { begin: Some('|'), hline: None, sep: Some('|'), end: Some('|') },
            }),
            TableStyle::Dotted => Some(TableStyleConfig {
                top: LineGlyphs { begin: Some('.'), hline: Some('.'), sep: Some('.'), end: Some('.') },
                below_header: LineGlyphs { begin: Some(':'), hline: Some('.'), sep: Some(':'), end: Some(':') },
                bottom: LineGlyphs { begin: Some('\''), hline: Some('.'), sep: Some('\''), end: Some('\'') },
                row: LineGlyphs { begin: Some(':'), hline: None, sep: Some(':'), end: Some(':') },
            }),
            TableStyle::Heavy => Some(TableStyleConfig {
                top: LineGlyphs { begin: Some('┏'), hline: Some('━'), sep: Some('┳'), end: Some('┓') },
                below_header: LineGlyphs { begin: Some('┣'), hline: Some('━'), sep: Some('╋'), end: Some('┫') },
                bottom: LineGlyphs { begin: Some('┗'), hline: Some('━'), sep: Some('┻'), end: Some('┛') },
                row: LineGlyphs { begin: Some('┃'), hline: None, sep: Some('┃'), end: Some('┃') },
            }),
            TableStyle::Neon => Some(TableStyleConfig {
                top: LineGlyphs { begin: Some('┏'), hline: Some('━'), sep: Some('┳'), end: Some('┓') },
                below_header: LineGlyphs { begin: Some('┣'), hline: Some('━'), sep: Some('╋'), end: Some('┫') },
                bottom: LineGlyphs { begin: Some('┗'), hline: Some('━'), sep: Some('┻'), end: Some('┛') },
                row: LineGlyphs { begin: Some('┃'), hline: None, sep: Some('┃'), end: Some('┃') },
            }),
        }
    }
}

} // verus!
