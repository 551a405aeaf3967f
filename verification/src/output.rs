//! Lines for the terminal.

use vstd::prelude::*;
use crate::text::{decimal, push_decimal};

verus! {

/// Text to print, with its line ends.
pub struct Line {
    /// Whether it goes to the standard error stream.
    pub to_stderr: bool,
    pub text: String,
}

/// The mathematical model of a `Line`.
#[verifier::ext_equal]
pub struct LineView {
    pub to_stderr: bool,
    pub text: Seq<char>,
}

impl View for Line {
    type V = LineView;

    open spec fn view(&self) -> LineView {
        LineView { to_stderr: self.to_stderr, text: self.text@ }
    }
}

/// The lines, as text.
pub open spec fn lines(out: Seq<Line>) -> Seq<LineView> {
    out.map_values(|l: Line| l@)
}

/// A line on the standard output.
pub open spec fn note(text: Seq<char>) -> LineView {
    LineView { to_stderr: false, text }
}

/// A line on the standard error stream.
pub open spec fn warning(text: Seq<char>) -> LineView {
    LineView { to_stderr: true, text }
}

/// Adds a line for the standard output.
pub fn push_note(out: &mut Vec<Line>, text: String)
    ensures
        lines(final(out)@) == lines(old(out)@).push(note(text@)),
{
    out.push(Line { to_stderr: false, text });
    assert(lines(out@) =~= lines(old(out)@).push(note(text@)));
}

/// Adds a line for the standard error stream.
pub fn push_warning(out: &mut Vec<Line>, text: String)
    ensures
        lines(final(out)@) == lines(old(out)@).push(warning(text@)),
{
    out.push(Line { to_stderr: true, text });
    assert(lines(out@) =~= lines(old(out)@).push(warning(text@)));
}

/// Three texts in a row.
pub fn joined(a: &str, b: &str, c: &str) -> (r: String)
    ensures
        r@ == a@ + b@ + c@,
{
    let mut r = String::new();
    r.append(a);
    r.append(b);
    r.append(c);
    assert(r@ =~= a@ + b@ + c@);
    r
}

/// A number between two texts.
pub fn counted(a: &str, n: usize, b: &str) -> (r: String)
    ensures
        r@ == a@ + decimal(n as nat) + b@,
{
    let mut r = String::new();
    r.append(a);
    push_decimal(&mut r, n as u64);
    r.append(b);
    assert(r@ =~= a@ + decimal(n as nat) + b@);
    r
}

/// A line is printed as it is: notes on the standard output and warnings on the standard error stream.
pub proof fn law_lines_are_printed_as_they_are(out: Seq<Line>, i: int, text: Seq<char>)
    requires
        0 <= i < out.len(),
    ensures
        lines(out).len() == out.len(),
        lines(out)[i].text == out[i].text@,
        lines(out)[i].to_stderr == out[i].to_stderr,
        note(text).text == text,
        !note(text).to_stderr,
        warning(text).text == text,
        warning(text).to_stderr,
{
}

} // verus!
