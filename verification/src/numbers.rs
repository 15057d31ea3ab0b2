//! The readings of texts as numbers, which conversion looks up.
//!
//! Reading a text as a decimal number is floating-point work, which is done
//! before conversion. Its outcome comes here as a table: for each text that
//! reads as a number, the bit pattern of the IEEE 754 double that it reads
//! as. A text without an entry counts as one that does not read as a number.

use vstd::prelude::*;
use vstd::hash_map::StringHashMap;

verus! {

/// A table from text to the bit pattern of the double that the text reads as.
pub struct Numbers {
    readings: StringHashMap<u64>,
}

impl View for Numbers {
    type V = Map<Seq<char>, u64>;

    closed spec fn view(&self) -> Map<Seq<char>, u64> {
        self.readings@
    }
}

/// What the table holds for a text.
pub open spec fn reading_of(numbers: Map<Seq<char>, u64>, text: Seq<char>) -> Option<u64> {
    if numbers.contains_key(text) {
        Some(numbers[text])
    } else {
        None
    }
}

impl Numbers {
    /// A table without entries.
    pub fn new() -> (r: Numbers)
        ensures
            r@ == Map::<Seq<char>, u64>::empty(),
    {
        Numbers { readings: StringHashMap::new() }
    }

    /// Records that `text` reads as the double with the given bit pattern.
    /// An earlier entry for the same text is replaced.
    pub fn record(&mut self, text: String, bits: u64)
        ensures
            final(self)@ == old(self)@.insert(text@, bits),
    {
        self.readings.insert(text, bits);
    }

    /// The bit pattern recorded for `text`, if there is one.
    pub fn reading(&self, text: &str) -> (r: Option<u64>)
        ensures
            r == reading_of(self@, text@),
    {
        match self.readings.get(text) {
            Some(bits) => Some(*bits),
            None => None,
        }
    }
}

} // verus!
