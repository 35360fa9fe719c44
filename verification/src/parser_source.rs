//! The source of text handed to the scanner.
//!
//! A parser input exposes its text and the byte index at which that text
//! begins inside the surrounding collection of sources; the span of the
//! whole input runs from that index over the text's byte length.

use vstd::prelude::*;

verus! {

/// Something the scanner can read: a text and its starting byte index.
pub trait ParserSource {
    /// The text itself.
    fn src(&self) -> &str;

    /// The absolute byte index of the text's first byte.
    fn start_index(&self) -> u32;

    /// The byte range the input covers: its starting index and the index
    /// just past its end.
    fn span(&self) -> (u32, u64) {
        let start = self.start_index();
        (start, (start as u64).saturating_add(self.src().len() as u64))
    }
}

impl ParserSource for String {
    fn src(&self) -> &str {
        self.as_str()
    }

    fn start_index(&self) -> u32 {
        0
    }
}

} // verus!
