//! Words: immutable byte strings, the values that the sorters permute.
//! A word's bytes live behind a shared handle, so redistributing words
//! between store positions and auxiliary buffers copies no byte data.

use std::rc::Rc;
use vstd::prelude::*;
use vstd::slice::slice_to_vec;
use vstd::string::StringSliceAdditionalSpecFns;

verus! {

/// Relies on `Rc::clone`: the clone is another handle to the same
/// allocation, so it carries the same value, and no byte data is copied.
#[verifier::external_body]
fn share(v: &Rc<Vec<u8>>) -> (r: Rc<Vec<u8>>)
    ensures
        r == *v,
{
    Rc::clone(v)
}

/// An immutable sequence of bytes. Once constructed, a word's bytes never
/// change; sorting only moves words between positions, and a word may be
/// held by several positions at once while a pass redistributes.
#[derive(Debug)]
pub struct Word {
    bytes: Rc<Vec<u8>>,
}

impl View for Word {
    type V = Seq<u8>;

    closed spec fn view(&self) -> Seq<u8> {
        self.bytes@
    }
}

/// The byte strings a sequence of words holds, position by position. All
/// contracts of the sorters speak of this sequence.
pub open spec fn views(s: Seq<Word>) -> Seq<Seq<u8>> {
    Seq::new(s.len(), |i: int| s[i]@)
}

impl Word {
    /// Wraps a byte vector as a word.
    pub fn new(bstr: Vec<u8>) -> (w: Word)
        ensures
            w@ == bstr@,
    {
        Word { bytes: Rc::new(bstr) }
    }

    /// Builds a word from the bytes of an ASCII string.
    pub fn from_str(s: &str) -> (w: Word)
        requires
            vstd::string::is_ascii(s),
        ensures
            w@ == s.spec_bytes(),
            w@.len() == s@.len(),
            forall|i: int| 0 <= i < s@.len() ==> w@[i] == s@[i] as u8,
    {
        proof {
            vstd::string::is_ascii_spec_bytes(s);
        }
        let bytes = slice_to_vec(s.as_bytes());
        Word { bytes: Rc::new(bytes) }
    }

    /// How many bytes the word holds.
    pub fn len(&self) -> (n: usize)
        ensures
            n == self@.len(),
    {
        self.bytes.len()
    }

    /// The byte at position `i`.
    pub fn byte_at(&self, i: usize) -> (b: u8)
        requires
            i < self@.len(),
        ensures
            b == self@[i as int],
    {
        self.bytes[i]
    }

    /// A borrow of the word's bytes.
    pub fn bytes(&self) -> (r: &Vec<u8>)
        ensures
            r@ == self@,
    {
        &self.bytes
    }

    /// Another handle to the same word. Words are freely shared between
    /// store positions and auxiliary buffers while a sort redistributes
    /// them; no byte data is copied.
    pub fn duplicate(&self) -> (w: Word)
        ensures
            w@ == self@,
    {
        Word { bytes: share(&self.bytes) }
    }
}

} // verus!
