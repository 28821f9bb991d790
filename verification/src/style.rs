//! Terminal styles for human output: the escape sequence that opens a style
//! and the one that resets it, as anstyle renders them (`{style}` and
//! `{style:#}`).

use vstd::prelude::*;

verus! {

pub open spec fn esc(code: Seq<char>) -> Seq<char> {
    seq!['\x1b', '['] + code + seq!['m']
}

pub open spec fn reset_code() -> Seq<char> {
    esc(seq!['0'])
}

/// `anstyle::Style::new()` rendered: it opens and resets with nothing.
#[verifier::external_body]
pub(crate) fn plain_style() -> (r: (String, String))
    ensures
        r.0@ == Seq::<char>::empty(),
        r.1@ == Seq::<char>::empty(),
{
    let s = anstyle::Style::new();
    (format!("{s}"), format!("{s:#}"))
}

/// `anstyle::Style::new().bold()` rendered: `ESC[1m`, reset by `ESC[0m`.
#[verifier::external_body]
pub(crate) fn bold_style() -> (r: (String, String))
    ensures
        r.0@ == esc(seq!['1']),
        r.1@ == reset_code(),
{
    let s = anstyle::Style::new().bold();
    (format!("{s}"), format!("{s:#}"))
}

/// `anstyle::Style::new().dimmed()` rendered: `ESC[2m`, reset by `ESC[0m`.
#[verifier::external_body]
pub(crate) fn dimmed_style() -> (r: (String, String))
    ensures
        r.0@ == esc(seq!['2']),
        r.1@ == reset_code(),
{
    let s = anstyle::Style::new().dimmed();
    (format!("{s}"), format!("{s:#}"))
}

/// A yellow foreground rendered: `ESC[33m`, reset by `ESC[0m`.
#[verifier::external_body]
pub(crate) fn yellow_style() -> (r: (String, String))
    ensures
        r.0@ == esc(seq!['3', '3']),
        r.1@ == reset_code(),
{
    let s = anstyle::Style::new().fg_color(Some(anstyle::AnsiColor::Yellow.into()));
    (format!("{s}"), format!("{s:#}"))
}

/// A bold red foreground rendered: the effect first (`ESC[1m`), then the
/// color (`ESC[31m`); reset by `ESC[0m`.
#[verifier::external_body]
pub(crate) fn red_bold_style() -> (r: (String, String))
    ensures
        r.0@ == esc(seq!['1']) + esc(seq!['3', '1']),
        r.1@ == reset_code(),
{
    let s = anstyle::Style::new().fg_color(Some(anstyle::AnsiColor::Red.into())).bold();
    (format!("{s}"), format!("{s:#}"))
}

/// The location style: bold, or nothing without color.
pub fn loc_style(no_color: bool) -> (r: (String, String))
    ensures
        r.0@ == (if no_color { Seq::<char>::empty() } else { esc(seq!['1']) }),
        r.1@ == (if no_color { Seq::<char>::empty() } else { reset_code() }),
{
    if no_color {
        plain_style()
    } else {
        bold_style()
    }
}

/// The dim style: dimmed, or nothing without color.
pub fn dim_style(no_color: bool) -> (r: (String, String))
    ensures
        r.0@ == (if no_color { Seq::<char>::empty() } else { esc(seq!['2']) }),
        r.1@ == (if no_color { Seq::<char>::empty() } else { reset_code() }),
{
    if no_color {
        plain_style()
    } else {
        dimmed_style()
    }
}

} // verus!
