use vstd::prelude::*;

verus! {

/// Color stores Red, Green, Blue values in that order.
#[derive(Debug, PartialEq, Eq, Structural, Hash, Copy, Clone)]
pub struct Color(pub u8, pub u8, pub u8);

impl Color {
    /// Get the Red component.
    #[inline(always)]
    pub fn r(self) -> (v: u8)
        ensures
            v == self.0,
    {
        self.0
    }

    /// Get the Green component.
    #[inline(always)]
    pub fn g(self) -> (v: u8)
        ensures
            v == self.1,
    {
        self.1
    }

    /// Get the Blue component.
    #[inline(always)]
    pub fn b(self) -> (v: u8)
        ensures
            v == self.2,
    {
        self.2
    }
}

} // verus!
