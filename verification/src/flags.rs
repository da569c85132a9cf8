//! Format extensions that an encoder may be asked to use.

use vstd::prelude::*;

verus! {

/// A set of format extensions. The empty set is the standard format.
#[derive(Clone, Copy, Debug, PartialEq, Eq, Structural)]
pub struct FormatExtension {
    pub interleaved: bool,
    pub checksum: bool,
    pub json: bool,
}

impl FormatExtension {
    /// The set as a bit mask: 1 for interleaved, 2 for checksum, 4 for JSON.
    pub open spec fn mask(self) -> int {
        (if self.interleaved { 1int } else { 0 }) + (if self.checksum { 2int } else { 0 }) + (if self.json { 4int } else { 0 })
    }

    /// The set that holds what either operand holds.
    pub open spec fn union_of(self, rhs: FormatExtension) -> FormatExtension {
        FormatExtension {
            interleaved: self.interleaved || rhs.interleaved,
            checksum: self.checksum || rhs.checksum,
            json: self.json || rhs.json,
        }
    }

    /// Whether everything in `other` is in `self`.
    pub open spec fn includes(self, other: FormatExtension) -> bool {
        &&& other.interleaved ==> self.interleaved
        &&& other.checksum ==> self.checksum
        &&& other.json ==> self.json
    }

    /// No extension: three separate sections per window, no checksum.
    pub fn standard() -> (r: FormatExtension)
        ensures
            r == (FormatExtension { interleaved: false, checksum: false, json: false }),
    {
        FormatExtension { interleaved: false, checksum: false, json: false }
    }

    /// Instructions, addresses and literal data share one section.
    pub fn interleaved() -> (r: FormatExtension)
        ensures
            r == (FormatExtension { interleaved: true, checksum: false, json: false }),
    {
        FormatExtension { interleaved: true, checksum: false, json: false }
    }

    /// Every window carries an Adler-32 checksum of its target bytes.
    pub fn checksum() -> (r: FormatExtension)
        ensures
            r == (FormatExtension { interleaved: false, checksum: true, json: false }),
    {
        FormatExtension { interleaved: false, checksum: true, json: false }
    }

    /// The delta is wrapped as a string inside a JSON object.
    pub fn json() -> (r: FormatExtension)
        ensures
            r == (FormatExtension { interleaved: false, checksum: false, json: true }),
    {
        FormatExtension { interleaved: false, checksum: false, json: true }
    }

    /// The set named by the low three bits of `bits`; other bits are ignored.
    pub fn from_bits_truncate(bits: u32) -> (r: FormatExtension)
        ensures
            r.mask() == bits % 8,
    {
        FormatExtension {
            interleaved: bits % 2 == 1,
            checksum: (bits / 2) % 2 == 1,
            json: (bits / 4) % 2 == 1,
        }
    }

    pub fn bits(&self) -> (b: u32)
        ensures
            b == self.mask(),
    {
        let i: u32 = if self.interleaved { 1 } else { 0 };
        let c: u32 = if self.checksum { 2 } else { 0 };
        let j: u32 = if self.json { 4 } else { 0 };
        i + c + j
    }

    pub fn contains(&self, other: FormatExtension) -> (r: bool)
        ensures
            r == self.includes(other),
    {
        (!other.interleaved || self.interleaved) && (!other.checksum || self.checksum) && (!other.json
            || self.json)
    }

    pub fn is_empty(&self) -> (r: bool)
        ensures
            r == (self.mask() == 0),
    {
        !self.interleaved && !self.checksum && !self.json
    }
}

impl vstd::std_specs::ops::BitOrSpecImpl for FormatExtension {
    open spec fn obeys_bitor_spec() -> bool {
        true
    }

    open spec fn bitor_req(self, rhs: FormatExtension) -> bool {
        true
    }

    open spec fn bitor_spec(self, rhs: FormatExtension) -> FormatExtension {
        self.union_of(rhs)
    }
}

impl core::ops::BitOr for FormatExtension {
    type Output = FormatExtension;

    fn bitor(self, rhs: FormatExtension) -> (r: FormatExtension) {
        FormatExtension {
            interleaved: self.interleaved || rhs.interleaved,
            checksum: self.checksum || rhs.checksum,
            json: self.json || rhs.json,
        }
    }
}

} // verus!
