//! Lens labels and their folding hash: each byte is added in and the
//! sum scaled by seventeen, modulo two hundred and fifty-six.

use vstd::prelude::*;
use vstd::utf8::encode_utf8;

verus! {

/// The folding hash of a byte sequence: starting from zero, add each
/// byte and multiply by seventeen, all modulo 256.
pub open spec fn spec_hash(s: Seq<u8>) -> int
    decreases s.len(),
{
    if s.len() == 0 {
        0
    } else {
        ((spec_hash(s.drop_last()) + s.last()) * 17) % 256
    }
}

/// A lens label: the raw text whose folding hash names a box.
#[derive(Eq, PartialEq, Clone, Debug)]
pub struct Index {
    pub raw: String,
}

impl Index {
    /// The folding hash of the label's bytes.
    pub fn hash(&self) -> (r: u8)
        ensures
            r as int == spec_hash(encode_utf8(self.raw@)),
    {
        let bytes = self.raw.as_str().as_bytes();
        let mut h: u8 = 0;
        let mut i: usize = 0;
        while i < bytes.len()
            invariant
                i <= bytes@.len(),
                bytes@ == encode_utf8(self.raw@),
                h as int == spec_hash(bytes@.take(i as int)),
            decreases bytes@.len() - i,
        {
            proof {
                assert(bytes@.take(i as int + 1).drop_last() =~= bytes@.take(i as int));
            }
            h = h.wrapping_add(bytes[i]).wrapping_mul(17);
            i = i + 1;
        }
        proof {
            assert(bytes@.take(bytes@.len() as int) =~= bytes@);
        }
        h
    }
}

} // verus!
