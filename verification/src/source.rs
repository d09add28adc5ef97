//! The input text with the cursor that the lexer moves over it.

use vstd::prelude::*;

verus! {

/// An input text and the offset of the next character to read, counted in
/// characters from the start of the text.
///
/// The offset is not tied to the length of the text: an offset at or behind
/// the end means that no character is left.
pub struct Source {
    pub text: String,
    pub index: usize,
}

impl Source {
    /// A source over `text` with the cursor on its first character.
    pub fn new(text: String) -> (source: Source)
        ensures
            source.text == text,
            source.index == 0,
    {
        Source { text, index: 0 }
    }

    /// Moves the cursor one character forward.
    pub fn inc_index(&mut self)
        requires
            old(self).index < usize::MAX,
        ensures
            final(self).index == old(self).index + 1,
            final(self).text == old(self).text,
    {
        self.index += 1;
    }
}

} // verus!
