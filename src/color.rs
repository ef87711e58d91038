//! Pixel colours of a sample, compared by value.
use vstd::prelude::*;

verus! {

/// One pixel of a sample: its red, green and blue channels.
#[derive(Clone, Copy, PartialEq, Eq, Structural, Debug)]
pub struct WfcColor {
    r: u8,
    g: u8,
    b: u8,
}

/// The label of the channel `(r, g, b)` that is strictly above both others.
pub open spec fn symbol_of(c: (u8, u8, u8)) -> char {
    if c.0 > c.1 && c.0 > c.2 {
        'R'
    } else if c.1 > c.0 && c.1 > c.2 {
        'G'
    } else if c.2 > c.1 && c.2 > c.0 {
        'B'
    } else {
        ' '
    }
}

impl WfcColor {
    pub closed spec fn channels(self) -> (u8, u8, u8) {
        (self.r, self.g, self.b)
    }

    /// Two colours with the same channels are the same colour.
    pub proof fn lemma_channels_determine(a: WfcColor, b: WfcColor)
        ensures
            a.channels() == b.channels() ==> a == b,
    {
    }

    pub fn new(r: u8, g: u8, b: u8) -> (c: WfcColor)
        ensures
            c.channels() == (r, g, b),
    {
        WfcColor { r, g, b }
    }

    pub fn black() -> (c: WfcColor)
        ensures
            c.channels() == (0u8, 0u8, 0u8),
    {
        WfcColor { r: 0, g: 0, b: 0 }
    }

    pub fn get(&self) -> (rgb: (u8, u8, u8))
        ensures
            rgb == self.channels(),
    {
        (self.r, self.g, self.b)
    }

    /// A one-letter label for the dominant channel: `'R'`, `'G'` or `'B'`
    /// when one channel is strictly above both others, else a space.
    pub fn symbol(&self) -> (s: char)
        ensures
            s == symbol_of(self.channels()),
    {
        if self.r > self.g && self.r > self.b {
            'R'
        } else if self.g > self.r && self.g > self.b {
            'G'
        } else if self.b > self.g && self.b > self.r {
            'B'
        } else {
            ' '
        }
    }
}

} // verus!
