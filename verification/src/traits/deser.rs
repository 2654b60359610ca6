//! The stable serialized form of terms and payloads.

use vstd::bytes::{
    lemma_auto_spec_u32_to_from_le_bytes, lemma_auto_spec_u64_to_from_le_bytes,
    spec_u32_from_le_bytes, spec_u32_to_le_bytes, spec_u64_from_le_bytes, spec_u64_to_le_bytes,
    u32_from_le_bytes, u32_to_le_bytes, u64_from_le_bytes, u64_to_le_bytes,
};
use vstd::prelude::*;
use vstd::slice::slice_to_vec;
use vstd::string::StringSliceAdditionalSpecFns;
use vstd::utf8::{decode_utf8, encode_utf8, valid_utf8};

verus! {

/// A value with a stable serialized form: the same bytes on every platform,
/// from which the value can be read back.
pub trait Deser: Sized {
    /// The serialized form.
    spec fn encoding(&self) -> Seq<u8>;

    /// Whether two values are the same value: for a number the same number,
    /// for a text the same characters.
    spec fn alike(&self, other: &Self) -> bool;

    /// The serialized form tells values apart: two values have the same
    /// form exactly if they are the same value. A dictionary knows a term by
    /// its form, so different terms never share an id.
    proof fn lemma_one_form(&self, other: &Self)
        ensures
            self.encoding() == other.encoding() <==> self.alike(other),
    ;

    /// Writes the serialized form.
    fn serialize(&self) -> (bytes: Vec<u8>)
        ensures
            bytes@ == self.encoding(),
    ;

    /// Reads a value back from its serialized form. Bytes that are no value's
    /// serialized form give `None`.
    fn deserialize(bytes: &[u8]) -> (value: Option<Self>)
        ensures
            value matches Some(v) ==> v.encoding() == bytes@,
            value is None ==> forall|v: Self| #[trigger] v.encoding() != bytes@,
    ;
}

impl Deser for u64 {
    open spec fn encoding(&self) -> Seq<u8> {
        spec_u64_to_le_bytes(*self)
    }

    open spec fn alike(&self, other: &u64) -> bool {
        *self == *other
    }

    proof fn lemma_one_form(&self, other: &u64) {
        lemma_auto_spec_u64_to_from_le_bytes();
        assert(spec_u64_from_le_bytes(spec_u64_to_le_bytes(*self)) == *self);
        assert(spec_u64_from_le_bytes(spec_u64_to_le_bytes(*other)) == *other);
    }

    fn serialize(&self) -> (bytes: Vec<u8>) {
        u64_to_le_bytes(*self)
    }

    fn deserialize(bytes: &[u8]) -> (value: Option<u64>) {
        proof {
            lemma_auto_spec_u64_to_from_le_bytes();
        }
        if bytes.len() != 8 {
            return None;
        }
        Some(u64_from_le_bytes(bytes))
    }
}

impl Deser for u32 {
    open spec fn encoding(&self) -> Seq<u8> {
        spec_u32_to_le_bytes(*self)
    }

    open spec fn alike(&self, other: &u32) -> bool {
        *self == *other
    }

    proof fn lemma_one_form(&self, other: &u32) {
        lemma_auto_spec_u32_to_from_le_bytes();
        assert(spec_u32_to_le_bytes(*self).len() == 4);
        assert(spec_u32_to_le_bytes(*other).len() == 4);
        assert(spec_u32_from_le_bytes(spec_u32_to_le_bytes(*self)) == *self);
        assert(spec_u32_from_le_bytes(spec_u32_to_le_bytes(*other)) == *other);
    }

    fn serialize(&self) -> (bytes: Vec<u8>) {
        u32_to_le_bytes(*self)
    }

    fn deserialize(bytes: &[u8]) -> (value: Option<u32>) {
        proof {
            lemma_auto_spec_u32_to_from_le_bytes();
        }
        if bytes.len() != 4 {
            return None;
        }
        Some(u32_from_le_bytes(bytes))
    }
}

impl Deser for usize {
    open spec fn encoding(&self) -> Seq<u8> {
        spec_u64_to_le_bytes(*self as u64)
    }

    open spec fn alike(&self, other: &usize) -> bool {
        *self == *other
    }

    proof fn lemma_one_form(&self, other: &usize) {
        lemma_auto_spec_u64_to_from_le_bytes();
        assert(spec_u64_from_le_bytes(spec_u64_to_le_bytes(*self as u64)) == *self as u64);
        assert(spec_u64_from_le_bytes(spec_u64_to_le_bytes(*other as u64)) == *other as u64);
    }

    fn serialize(&self) -> (bytes: Vec<u8>) {
        u64_to_le_bytes(*self as u64)
    }

    fn deserialize(bytes: &[u8]) -> (value: Option<usize>) {
        proof {
            lemma_auto_spec_u64_to_from_le_bytes();
        }
        if bytes.len() != 8 {
            return None;
        }
        let wide: u64 = u64_from_le_bytes(bytes);
        if wide > usize::MAX as u64 {
            assert forall|v: usize| #[trigger] v.encoding() != bytes@ by {
                assert(spec_u64_from_le_bytes(spec_u64_to_le_bytes(v as u64)) == v as u64);
            }
            return None;
        }
        Some(wide as usize)
    }
}

/// `String::from_utf8` of std, on a copy of the bytes. Its documentation says
/// that it succeeds exactly on valid UTF-8 and then holds the text that the
/// bytes spell; the contract claims that.
#[verifier::external_body]
pub(crate) fn string_from_utf8(bytes: &[u8]) -> (text: Option<String>)
    ensures
        text is Some <==> valid_utf8(bytes@),
        text matches Some(s) ==> s@ == decode_utf8(bytes@),
{
    String::from_utf8(bytes.to_vec()).ok()
}

impl Deser for String {
    open spec fn encoding(&self) -> Seq<u8> {
        encode_utf8(self@)
    }

    open spec fn alike(&self, other: &String) -> bool {
        self@ == other@
    }

    proof fn lemma_one_form(&self, other: &String) {
        vstd::utf8::encode_utf8_decode_utf8(self@);
        vstd::utf8::encode_utf8_decode_utf8(other@);
    }

    fn serialize(&self) -> (bytes: Vec<u8>) {
        slice_to_vec(self.as_str().as_bytes())
    }

    fn deserialize(bytes: &[u8]) -> (value: Option<String>) {
        let text = string_from_utf8(bytes);
        proof {
            if valid_utf8(bytes@) {
                vstd::utf8::decode_utf8_encode_utf8(bytes@);
            } else {
                assert forall|v: String| #[trigger] v.encoding() != bytes@ by {
                    vstd::utf8::encode_utf8_valid_utf8(v@);
                }
            }
        }
        text
    }
}

} // verus!
