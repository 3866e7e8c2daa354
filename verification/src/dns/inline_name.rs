//! Fixed-size inline representation of a DNS name, used as a component of the
//! lookup keys of the response cache and of the in-flight registry, which both
//! key on `(record type, class, name)`.

use vstd::prelude::*;
use vstd::slice::slice_subrange;
use vstd::string::*;
use vstd::utf8::valid_utf8;

use crate::octets::same_bytes;

verus! {

/// RFC 1035 wire-format name length limit; names are stored inline in an array
/// of this size.
pub const MAX_NAME_LEN: usize = 255;

/// `std::str::from_utf8` turns bytes into text if and only if they are valid
/// UTF-8; the text then consists of exactly those bytes.
#[verifier::external_body]
pub(crate) fn utf8_text(bytes: &[u8]) -> (r: Option<&str>)
    ensures
        r is Some <==> valid_utf8(bytes@),
        r matches Some(s) ==> s.spec_bytes() == bytes@,
{
    std::str::from_utf8(bytes).ok()
}

#[derive(Clone, Copy)]
pub struct InlineName {
    pub(crate) len: u8,
    pub(crate) bytes: [u8; 255],
}

impl View for InlineName {
    type V = Seq<u8>;

    /// The bytes of the name.
    closed spec fn view(&self) -> Seq<u8> {
        self.bytes@.take(self.len as int)
    }
}

impl InlineName {
    /// The bytes behind the name are zero, so that equal names have equal arrays.
    pub closed spec fn wf(&self) -> bool {
        forall|i: int| self.len <= i < 255 ==> #[trigger] self.bytes@[i] == 0
    }

    /// `None` if the name is longer than `MAX_NAME_LEN` bytes.
    pub fn new(name: &str) -> (r: Option<Self>)
        ensures
            match r {
                Some(n) => n.wf() && n@ == name.spec_bytes() && name.spec_bytes().len()
                    <= MAX_NAME_LEN,
                None => name.spec_bytes().len() > MAX_NAME_LEN,
            },
    {
        let source: &[u8] = name.as_bytes();
        let n: usize = source.len();
        if n > MAX_NAME_LEN {
            return None;
        }
        let mut bytes: [u8; 255] = [0u8; 255];
        let mut i: usize = 0;
        while i < n
            invariant
                i <= n,
                n <= 255,
                n == source@.len(),
                bytes@.len() == 255,
                bytes@.take(i as int) == source@.take(i as int),
                forall|j: int| i <= j < 255 ==> #[trigger] bytes@[j] == 0,
            decreases n - i,
        {
            let ghost before = bytes@;
            bytes[i] = source[i];
            assert(bytes@.take(i + 1) =~= before.take(i as int).push(source@[i as int]));
            assert(source@.take(i + 1) =~= source@.take(i as int).push(source@[i as int]));
            i = i + 1;
        }
        assert(source@.take(n as int) == source@);
        Some(InlineName { len: n as u8, bytes })
    }

    pub fn as_bytes(&self) -> (r: &[u8])
        ensures
            r@ == self@,
    {
        slice_subrange(self.bytes.as_slice(), 0, self.len as usize)
    }

    /// For logging only; never relied on for correctness.
    pub fn as_str(&self) -> (r: &str)
        ensures
            valid_utf8(self@) ==> r.spec_bytes() == self@,
            !valid_utf8(self@) ==> r@ == "<invalid-utf8>"@,
    {
        match utf8_text(self.as_bytes()) {
            Some(text) => text,
            None => "<invalid-utf8>",
        }
    }
}

impl PartialEq for InlineName {
    fn eq(&self, other: &Self) -> (r: bool) {
        same_bytes(self.as_bytes(), other.as_bytes())
    }
}

impl vstd::std_specs::cmp::PartialEqSpecImpl for InlineName {
    open spec fn obeys_eq_spec() -> bool {
        true
    }

    open spec fn eq_spec(&self, other: &Self) -> bool {
        self@ == other@
    }
}

impl Eq for InlineName {

}

} // verus!
