//! Elements: the payloads that a partition stores.

use vstd::prelude::*;
use vstd::string::StringSliceAdditionalSpecFns;
use vstd::utf8::valid_utf8;
use vstd::utf8::decode_utf8;
use crate::error::Error;
use crate::ids::EltId;
use crate::sum::Sum;
use crate::sum::elt_sum_of;
use crate::wire::append;
use crate::wire::copy_range;

verus! {

/// Decodes UTF-8 with `String::from_utf8`: the text where the bytes are
/// valid UTF-8, nothing where they are not.
#[verifier::external_body]
pub(crate) fn utf8_text(bytes: Vec<u8>) -> (r: Option<String>)
    ensures
        r is Some <==> valid_utf8(bytes@),
        r matches Some(s) ==> s@ == decode_utf8(bytes@),
{
    String::from_utf8(bytes).ok()
}

/// An element: a payload of bytes, opaque to the library.
#[derive(Clone, Debug, PartialEq, Eq)]
pub struct Element {
    pub data: Vec<u8>,
}

impl View for Element {
    type V = Seq<u8>;

    open spec fn view(&self) -> Seq<u8> {
        self.data@
    }
}

impl Element {
    /// The element with payload `data`.
    pub fn new(data: Vec<u8>) -> (e: Element)
        ensures
            e@ == data@,
    {
        Element { data }
    }

    /// The element whose payload is `text` in UTF-8.
    pub fn from_text(text: &str) -> (e: Element)
        ensures
            e@ == text.spec_bytes(),
    {
        let b = text.as_bytes();
        let data = copy_range(b, 0, b.len());
        assert(b@.subrange(0, b@.len() as int) =~= b@);
        Element { data }
    }

    /// The payload.
    pub fn data(&self) -> (d: &[u8])
        ensures
            d@ == self@,
    {
        self.data.as_slice()
    }

    /// The payload as text; an encoding error where it is not valid UTF-8.
    pub fn text(&self) -> (r: Result<String, Error>)
        ensures
            r is Ok <==> valid_utf8(self@),
            r matches Ok(s) ==> s@ == decode_utf8(self@),
            r matches Err(e) ==> e == Error::Encoding("payload is not valid UTF-8"),
    {
        let copy = self.duplicate();
        match utf8_text(copy.data) {
            Some(s) => Ok(s),
            None => Err(Error::Encoding("payload is not valid UTF-8")),
        }
    }

    /// The element's checksum under the identifier `id`.
    pub fn sum(&self, id: EltId) -> (s: Sum)
        ensures
            s == elt_sum_of(id.id, self@),
    {
        Sum::elt_sum(id.id, self.data.as_slice())
    }

    /// Appends the payload to `w`.
    pub fn write_buf(&self, w: &mut Vec<u8>)
        ensures
            final(w)@ == old(w)@ + self@,
    {
        append(w, self.data.as_slice());
    }

    /// A copy of the element.
    pub fn duplicate(&self) -> (e: Element)
        ensures
            e@ == self@,
    {
        let data = copy_range(self.data.as_slice(), 0, self.data.len());
        assert(self.data@.subrange(0, self.data@.len() as int) =~= self.data@);
        Element { data }
    }

    /// Whether two elements have the same payload.
    pub fn same(&self, other: &Element) -> (r: bool)
        ensures
            r == (self@ == other@),
    {
        if self.data.len() != other.data.len() {
            return false;
        }
        let mut i: usize = 0;
        while i < self.data.len()
            invariant
                i <= self.data.len(),
                self.data.len() == other.data.len(),
                forall|j: int| 0 <= j < i ==> self.data@[j] == other.data@[j],
            decreases self.data.len() - i,
        {
            if self.data[i] != other.data[i] {
                return false;
            }
            i += 1;
        }
        assert(self.data@ =~= other.data@);
        true
    }
}

/// What the user stores in elements: a type that is written as the bytes
/// of a payload and read from them. The library holds the payloads and
/// finds their checksums; what they mean is the user's.
pub trait ElementT: Sized {
    /// The value as the bytes of a payload.
    fn write_buf(&self) -> Vec<u8>;

    /// The value that the bytes of a payload hold; an error where they hold
    /// none.
    fn read_buf(buf: &[u8]) -> Result<Self, Error>;
}

impl ElementT for Vec<u8> {
    /// The bytes themselves.
    fn write_buf(&self) -> (data: Vec<u8>)
        ensures
            data@ == self@,
    {
        let data = copy_range(self.as_slice(), 0, self.len());
        assert(self@.subrange(0, self@.len() as int) =~= self@);
        data
    }

    /// The bytes themselves: every payload holds a value.
    fn read_buf(buf: &[u8]) -> (r: Result<Vec<u8>, Error>)
        ensures
            r matches Ok(v) && v@ == buf@,
    {
        let data = copy_range(buf, 0, buf.len());
        assert(buf@.subrange(0, buf@.len() as int) =~= buf@);
        Ok(data)
    }
}

impl ElementT for String {
    /// The text in UTF-8.
    fn write_buf(&self) -> (data: Vec<u8>)
        ensures
            data@ == vstd::utf8::encode_utf8(self@),
    {
        let b = self.as_str().as_bytes();
        let data = copy_range(b, 0, b.len());
        assert(b@.subrange(0, b@.len() as int) =~= b@);
        data
    }

    /// The text that the bytes hold in UTF-8; an encoding error where they
    /// are not valid UTF-8.
    fn read_buf(buf: &[u8]) -> (r: Result<String, Error>)
        ensures
            r is Ok <==> valid_utf8(buf@),
            r matches Ok(s) ==> s@ == decode_utf8(buf@),
            r matches Err(e) ==> e == Error::Encoding("payload is not valid UTF-8"),
    {
        let data = copy_range(buf, 0, buf.len());
        assert(buf@.subrange(0, buf@.len() as int) =~= buf@);
        match utf8_text(data) {
            Some(s) => Ok(s),
            None => Err(Error::Encoding("payload is not valid UTF-8")),
        }
    }
}

impl Element {
    /// The element that holds `value`: its payload is what the value's own
    /// `write_buf` gives.
    pub fn holding<T: ElementT>(value: &T) -> (e: Element)
        ensures
            call_ensures(T::write_buf, (value,), e.data),
    {
        Element { data: value.write_buf() }
    }

    /// The value that the element holds: what the type's own `read_buf`
    /// makes of the payload.
    pub fn held<T: ElementT>(&self) -> (r: Result<T, Error>)
        ensures
            exists|buf: &[u8]| buf@ == self@ && #[trigger] call_ensures(T::read_buf, (buf,), r),
    {
        T::read_buf(self.data.as_slice())
    }
}

} // verus!
