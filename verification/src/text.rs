//! Text as a sequence of symbols.

use vstd::prelude::*;
use vstd::std_specs::iter::IteratorSpec;

verus! {

/// `String::push` appends one symbol to the end of the string.
pub assume_specification[ String::push ](text: &mut String, symbol: char)
    ensures
        final(text)@ == old(text)@.push(symbol),
;

/// The symbols of `text`, in order.
pub fn symbols_of(text: &str) -> (symbols: Vec<char>)
    ensures
        symbols@ == text@,
{
    let mut symbols: Vec<char> = Vec::new();
    for c in it: text.chars()
        invariant
            it.seq() == text@,
            symbols@ == text@.take(it.index() as int),
    {
        symbols.push(c);
    }
    symbols
}

} // verus!
