use vstd::prelude::*;
use vstd::utf8::{encode_utf8, decode_utf8, valid_utf8, encode_utf8_decode_utf8};
use crate::array::Array;

verus! {

/// A string of the language: UTF-8 bytes in an [`Array`].
pub struct LoxString {
    vec: Array<u8>,
}

/// Encoding a concatenation encodes each part in turn.
pub proof fn lemma_encode_utf8_concat(a: Seq<char>, b: Seq<char>)
    ensures
        encode_utf8(a + b) == encode_utf8(a) + encode_utf8(b),
    decreases a.len(),
{
    if a.len() == 0 {
        assert(a + b =~= b);
        assert(encode_utf8(a) =~= Seq::<u8>::empty());
        assert(encode_utf8(a) + encode_utf8(b) =~= encode_utf8(b));
    } else {
        lemma_encode_utf8_concat(a.drop_first(), b);
        assert((a + b).drop_first() =~= a.drop_first() + b);
        assert((a + b)[0] == a[0]);
    }
}

/// `std::str::from_utf8`: the string whose UTF-8 encoding `bytes` is.
#[verifier::external_body]
fn str_from_utf8(bytes: &[u8]) -> (res: &str)
    requires
        valid_utf8(bytes@),
    ensures
        encode_utf8(res@) == bytes@,
{
    match std::str::from_utf8(bytes) {
        Ok(s) => s,
        Err(_) => "",
    }
}

impl View for LoxString {
    type V = Seq<char>;

    closed spec fn view(&self) -> Seq<char> {
        decode_utf8(self.vec@)
    }
}

impl LoxString {
    /// The bytes are the UTF-8 encoding of the characters.
    pub closed spec fn wf(&self) -> bool {
        &&& self.vec.wf()
        &&& self.vec@ == encode_utf8(self@)
    }

    /// The number of bytes there is room for.
    pub closed spec fn spec_capacity(&self) -> nat {
        self.vec.spec_capacity()
    }

    /// The empty string.
    pub fn new() -> (res: LoxString)
        ensures
            res.wf(),
            res@ == Seq::<char>::empty(),
    {
        proof {
            broadcast use vstd::layout::layout_of_primitives;
            assert(vstd::layout::size_of::<u8>() == 1);
        }
        let res = LoxString { vec: Array::new() };
        proof {
            assert(decode_utf8(Seq::<u8>::empty()) =~= Seq::<char>::empty());
            assert(encode_utf8(Seq::<char>::empty()) =~= Seq::<u8>::empty());
        }
        res
    }

    /// The empty string, with room for `capacity` bytes.
    pub fn with_capacity(capacity: usize) -> (res: LoxString)
        ensures
            res.wf(),
            res@ == Seq::<char>::empty(),
            res.spec_capacity() == capacity,
    {
        proof {
            broadcast use vstd::layout::layout_of_primitives;
            assert(vstd::layout::size_of::<u8>() == 1);
        }
        let res = LoxString { vec: Array::with_capacity(capacity) };
        proof {
            assert(decode_utf8(Seq::<u8>::empty()) =~= Seq::<char>::empty());
            assert(encode_utf8(Seq::<char>::empty()) =~= Seq::<u8>::empty());
        }
        res
    }

    /// The UTF-8 bytes of the string.
    pub fn as_bytes(&self) -> (res: &[u8])
        requires
            self.wf(),
        ensures
            res@ == encode_utf8(self@),
    {
        self.vec.as_slice()
    }

    /// The string as a `str`.
    pub fn as_str(&self) -> (res: &str)
        requires
            self.wf(),
        ensures
            res@ == self@,
    {
        proof { vstd::utf8::encode_utf8_valid_utf8(self@); }
        let res = str_from_utf8(self.vec.as_slice());
        proof {
            encode_utf8_decode_utf8(res@);
            encode_utf8_decode_utf8(self@);
        }
        res
    }

    /// Appends `string`.
    pub fn push_str(&mut self, string: &str)
        requires
            old(self).wf(),
        ensures
            final(self).wf(),
            final(self)@ == old(self)@ + string@,
    {
        let bytes = string.as_bytes();
        self.vec.extend_from_slice(bytes);
        proof {
            lemma_encode_utf8_concat(old(self)@, string@);
            encode_utf8_decode_utf8(old(self)@ + string@);
        }
    }

    /// The string made of `string`.
    pub fn from_str(string: &str) -> (res: LoxString)
        ensures
            res.wf(),
            res@ == string@,
    {
        let mut res = LoxString::with_capacity(string.len());
        proof { assert(encode_utf8(Seq::<char>::empty()) =~= Seq::<u8>::empty()); }
        res.push_str(string);
        proof { assert(Seq::<char>::empty() + string@ =~= string@); }
        res
    }
}

} // verus!
