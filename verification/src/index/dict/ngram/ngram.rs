//! Terms of a fixed number of characters.

use crate::traits::deser::{string_from_utf8, Deser};
use vstd::prelude::*;
use vstd::slice::slice_to_vec;
use vstd::std_specs::iter::IteratorSpec;
use vstd::string::StringSliceAdditionalSpecFns;
use vstd::utf8::{decode_utf8, encode_utf8, valid_utf8};

verus! {

broadcast use vstd::string::group_string_axioms;

/// A term of exactly `N` characters, each a Unicode scalar value.
#[derive(Debug, Copy, Clone, PartialEq, Eq, Hash)]
pub struct Ngram<const N: usize>([char; N]);

impl<const N: usize> View for Ngram<N> {
    type V = Seq<char>;

    closed spec fn view(&self) -> Seq<char> {
        self.0@
    }
}

/// `String::from_iter` of std on the characters of a slice. Its
/// documentation says that a `String` can be collected from characters; the
/// contract claims that the text holds exactly these characters, in order.
#[verifier::external_body]
fn string_of(chars: &[char]) -> (text: String)
    ensures
        text@ == chars@,
{
    String::from_iter(chars.iter())
}

/// The first `N` characters of `value`, if it has that many; with `exact`,
/// only if it has no more.
fn leading_chars<const N: usize>(value: &str, exact: bool) -> (r: Option<[char; N]>)
    ensures
        r is Some <==> (if exact {
            value@.len() == N
        } else {
            value@.len() >= N
        }),
        r matches Some(chars) ==> chars@ == value@.take(N as int),
{
    let mut out: [char; N] = ['\0';N];
    let mut chars = value.chars();
    let mut i: usize = 0;
    while i < N
        invariant
            i <= N,
            i <= value@.len(),
            chars.obeys_prophetic_iter_laws(),
            chars.remaining() == value@.skip(i as int),
            forall|j: int| 0 <= j < i ==> out@[j] == value@[j],
        decreases N - i,
    {
        match chars.next() {
            Some(c) => {
                out[i] = c;
            },
            None => {
                return None;
            },
        }
        assert(value@.skip(i as int).drop_first() == value@.skip(i + 1));
        i = i + 1;
    }
    if exact {
        if chars.next().is_some() {
            return None;
        }
    }
    assert(out@ =~= value@.take(N as int));
    Some(out)
}

impl<const N: usize> Ngram<N> {
    /// The term with exactly these characters.
    pub fn new(chars: [char; N]) -> (ngram: Self)
        ensures
            ngram@ == chars@,
    {
        Ngram(chars)
    }

    /// The term made of the first `N` characters of `value`. Fails where
    /// `value` has fewer.
    pub fn try_from(value: &str) -> (r: Result<Self, ()>)
        ensures
            r is Ok <==> value@.len() >= N,
            r matches Ok(ngram) ==> ngram@ == value@.take(N as int),
    {
        match leading_chars::<N>(value, false) {
            Some(chars) => Ok(Ngram(chars)),
            None => Err(()),
        }
    }

    /// The characters of the term.
    pub fn chars(&self) -> (chars: &[char; N])
        ensures
            chars@ == self@,
    {
        &self.0
    }

    /// Two terms with the same serialized form are the same term: reading a
    /// term back from what `serialize` wrote gives the term that was written.
    pub proof fn lemma_encoding_injective(a: Self, b: Self)
        requires
            a.encoding() == b.encoding(),
        ensures
            a == b,
    {
        vstd::utf8::encode_utf8_decode_utf8(a@);
        vstd::utf8::encode_utf8_decode_utf8(b@);
        assert(a@ == b@);
        assert(a.0 =~= b.0) by {
            vstd::array::axiom_array_ext_equal(a.0, b.0);
            assert forall|i: int| 0 <= i < N implies a.0[i] == b.0[i] by {
                assert(a@[i] == b@[i]);
            }
        }
    }
}

impl<const N: usize> Deser for Ngram<N> {
    /// The UTF-8 encodings of the characters, one after the other, with
    /// nothing before, between or after them.
    open spec fn encoding(&self) -> Seq<u8> {
        encode_utf8(self@)
    }

    open spec fn alike(&self, other: &Self) -> bool {
        *self == *other
    }

    proof fn lemma_one_form(&self, other: &Self) {
        if self.encoding() == other.encoding() {
            Self::lemma_encoding_injective(*self, *other);
        }
    }

    fn serialize(&self) -> (bytes: Vec<u8>) {
        let text = string_of(self.0.as_slice());
        slice_to_vec(text.as_str().as_bytes())
    }

    fn deserialize(bytes: &[u8]) -> (value: Option<Self>) {
        let text = match string_from_utf8(bytes) {
            Some(text) => text,
            None => {
                assert forall|v: Self| #[trigger] v.encoding() != bytes@ by {
                    vstd::utf8::encode_utf8_valid_utf8(v@);
                }
                return None;
            },
        };
        proof {
            vstd::utf8::decode_utf8_encode_utf8(bytes@);
        }
        match leading_chars::<N>(text.as_str(), true) {
            Some(chars) => {
                assert(text@.take(N as int) == text@);
                Some(Ngram(chars))
            },
            None => {
                assert forall|v: Self| #[trigger] v.encoding() != bytes@ by {
                    vstd::utf8::encode_utf8_decode_utf8(v@);
                }
                None
            },
        }
    }
}

} // verus!
