//! Terminal colouring through owo-colors.
//!
//! Each function here wraps one styling method of `owo_colors::OwoColorize`
//! applied to a string and displayed with `{}`. Its contract states the
//! escape sequences that owo-colors 4 writes around the text: a foreground
//! colour is opened with `ESC[3Xm` and closed with `ESC[39m`; the dim style
//! is opened with `ESC[2m` and closed with `ESC[0m`.

use owo_colors::OwoColorize;
use vstd::prelude::*;

verus! {

/// The text between a foreground colour code and the foreground reset.
pub open spec fn fg(code: Seq<char>, s: Seq<char>) -> Seq<char> {
    code + s + "\u{1b}[39m"@
}

/// `OwoColorize::red` displayed: `ESC[31m`, the text, `ESC[39m`.
#[verifier::external_body]
pub(crate) fn paint_red(s: &str) -> (res: String)
    ensures
        res@ == fg("\u{1b}[31m"@, s@),
{
    format!("{}", s.red())
}

/// `OwoColorize::green` displayed: `ESC[32m`, the text, `ESC[39m`.
#[verifier::external_body]
pub(crate) fn paint_green(s: &str) -> (res: String)
    ensures
        res@ == fg("\u{1b}[32m"@, s@),
{
    format!("{}", s.green())
}

/// `OwoColorize::yellow` displayed: `ESC[33m`, the text, `ESC[39m`.
#[verifier::external_body]
pub(crate) fn paint_yellow(s: &str) -> (res: String)
    ensures
        res@ == fg("\u{1b}[33m"@, s@),
{
    format!("{}", s.yellow())
}

/// `OwoColorize::dimmed` displayed: `ESC[2m`, the text, `ESC[0m`.
#[verifier::external_body]
pub(crate) fn paint_dimmed(s: &str) -> (res: String)
    ensures
        res@ == "\u{1b}[2m"@ + s@ + "\u{1b}[0m"@,
{
    format!("{}", s.dimmed())
}

} // verus!
