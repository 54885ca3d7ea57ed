//! Labels, and the symbols that record which category an event fell into.

use rand::Rng;
use vstd::prelude::*;

verus! {

/// Identifier that connects a category with the symbols assigned to it.
pub type Label = usize;

/// The character of a single decimal digit.
pub open spec fn digit(d: nat) -> char
    recommends
        d < 10,
{
    if d == 0 {
        '0'
    } else if d == 1 {
        '1'
    } else if d == 2 {
        '2'
    } else if d == 3 {
        '3'
    } else if d == 4 {
        '4'
    } else if d == 5 {
        '5'
    } else if d == 6 {
        '6'
    } else if d == 7 {
        '7'
    } else if d == 8 {
        '8'
    } else {
        '9'
    }
}

/// A number written in decimal, without sign or leading zeros.
pub open spec fn decimal(n: nat) -> Seq<char>
    decreases n,
{
    if n < 10 {
        seq![digit(n)]
    } else {
        decimal(n / 10).push(digit(n % 10))
    }
}

/// Draws a label at random.
///
/// Calls `rand::thread_rng().gen()`, which samples a `usize` uniformly from
/// the generator of the current thread. Nothing is claimed of the value. The
/// call panics if the operating system cannot seed the generator.
#[verifier::external_body]
pub(crate) fn generate_label() -> Label {
    rand::thread_rng().gen()
}

/// Record of one event: the category it was assigned to, a text to show for
/// it, and the number of events it stands for.
pub struct Symbol {
    /// Identifier of the symbol
    pub label: Label,
    /// Content of the symbol
    pub content: String,
    /// Number of symbols subtended by this symbol
    pub length: usize,
}

impl Symbol {
    /// Returns a new symbol whose content is the label written in decimal.
    pub fn new(label: Label, length: usize) -> (symbol: Symbol)
        ensures
            symbol.label == label,
            symbol.content@ == decimal(label as nat),
            symbol.length == length,
    {
        Symbol { label, content: decimal_text(label), length }
    }
}

impl Clone for Symbol {
    fn clone(&self) -> (copy: Self)
        ensures
            copy == *self,
    {
        Symbol { label: self.label, content: self.content.clone(), length: self.length }
    }
}

/// The text of one decimal digit.
fn digit_text(d: usize) -> (text: &'static str)
    requires
        d < 10,
    ensures
        text@ == seq![digit(d as nat)],
{
    proof {
        reveal_strlit("0");
        reveal_strlit("1");
        reveal_strlit("2");
        reveal_strlit("3");
        reveal_strlit("4");
        reveal_strlit("5");
        reveal_strlit("6");
        reveal_strlit("7");
        reveal_strlit("8");
        reveal_strlit("9");
    }
    let text = if d == 0 {
        "0"
    } else if d == 1 {
        "1"
    } else if d == 2 {
        "2"
    } else if d == 3 {
        "3"
    } else if d == 4 {
        "4"
    } else if d == 5 {
        "5"
    } else if d == 6 {
        "6"
    } else if d == 7 {
        "7"
    } else if d == 8 {
        "8"
    } else {
        "9"
    };
    text
}

/// Writes a number in decimal.
fn decimal_text(n: usize) -> (text: String)
    ensures
        text@ == decimal(n as nat),
    decreases n,
{
    if n < 10 {
        String::from_str(digit_text(n))
    } else {
        let mut text = decimal_text(n / 10);
        text.append(digit_text(n % 10));
        text
    }
}

} // verus!
