pub mod addresses;
pub mod annotate;
pub mod annotated;
pub mod bounds;
pub mod bytes;
pub mod compact;
pub mod oneline;
pub mod diag;
pub mod floatfree;
pub mod hex;

use vstd::prelude::*;

verus! {

/// The encoding suggested for byte strings.
#[derive(Copy, Clone, Debug, PartialEq, Eq)]
pub enum Encoding {
    Base16,
    Base64,
    Base64Url,
}

impl Encoding {
    /// Return the overrider if given, otherwise self.
    pub fn override_with(self, overrider: Option<Self>) -> (e: Self)
        ensures
            e == match overrider {
                Some(o) => o,
                None => self,
            },
    {
        match overrider {
            Some(o) => o,
            None => self,
        }
    }
}

} // verus!
