use indexa::index::dict::ngram::ngram::Ngram;
use indexa::traits::deser::Deser;
use serde::ser::SerializeTuple;

#[test]
fn ngram_roundtrip_with_wide_chars() {
    let ngram = Ngram::<3>::try_from("あb漢").unwrap();
    assert_eq!(ngram.chars(), &['あ', 'b', '漢']);
    let bytes = ngram.serialize();
    assert_eq!(bytes, "あb漢".as_bytes().to_vec());
    assert_eq!(bytes.len(), 7);
    assert_eq!(Ngram::<3>::deserialize(&bytes), Some(ngram));
}

#[test]
fn ngram_takes_the_first_chars() {
    let ngram = Ngram::<3>::try_from("abcdef").unwrap();
    assert_eq!(ngram, Ngram::new(['a', 'b', 'c']));
    let exact = Ngram::<10>::try_from("abcaoesuro").unwrap();
    assert_eq!(exact.chars().iter().collect::<String>(), "abcaoesuro");
    assert_eq!(Ngram::<0>::try_from(""), Ok(Ngram::new([])));
}

#[test]
fn ngram_needs_enough_chars() {
    assert_eq!(Ngram::<3>::try_from("あb"), Err(()));
    assert_eq!(Ngram::<3>::try_from(""), Err(()));
    assert_eq!(Ngram::<1>::try_from(""), Err(()));
    assert!(Ngram::<2>::try_from("あb").is_ok());
}

#[test]
fn ngram_rejects_bytes_of_another_width() {
    assert_eq!(Ngram::<3>::deserialize("ab".as_bytes()), None);
    assert_eq!(Ngram::<3>::deserialize("abcd".as_bytes()), None);
    assert_eq!(Ngram::<3>::deserialize(&[0xFF, 0x61, 0x62]), None);
    assert_eq!(
        Ngram::<3>::deserialize("abc".as_bytes()),
        Some(Ngram::new(['a', 'b', 'c']))
    );
}

/// An n-gram as serde sees it: a tuple of its characters.
struct Wire<const N: usize>(Ngram<N>);

impl<const N: usize> serde::Serialize for Wire<N> {
    fn serialize<S>(&self, serializer: S) -> Result<S::Ok, S::Error>
    where
        S: serde::Serializer,
    {
        let mut s = serializer.serialize_tuple(N)?;
        for item in self.0.chars().iter() {
            s.serialize_element(&item)?;
        }
        s.end()
    }
}

struct CharArrayVisitor<const N: usize>;

impl<'de, const N: usize> serde::de::Visitor<'de> for CharArrayVisitor<N> {
    type Value = [char; N];

    fn expecting(&self, formatter: &mut std::fmt::Formatter) -> std::fmt::Result {
        formatter.write_str(&format!("char array of length {}", N))
    }

    fn visit_seq<A>(self, mut seq: A) -> Result<Self::Value, A::Error>
    where
        A: serde::de::SeqAccess<'de>,
    {
        let mut out = ['\0'; N];
        for item in out.iter_mut() {
            match seq.next_element::<char>()? {
                Some(v) => *item = v,
                None => return Err(serde::de::Error::invalid_length(N, &self)),
            }
        }
        Ok(out)
    }
}

impl<'de, const N: usize> serde::Deserialize<'de> for Wire<N> {
    fn deserialize<D>(deserializer: D) -> Result<Self, D::Error>
    where
        D: serde::Deserializer<'de>,
    {
        let res = deserializer.deserialize_tuple(N, CharArrayVisitor::<N>)?;
        Ok(Wire(Ngram::new(res)))
    }
}

#[test]
fn ngram_deser() {
    let data = ['あ', 'b', '漢'];
    let ngram = Ngram::new(data);
    let serialized = serde_json::to_string(&Wire(ngram)).unwrap();
    assert_eq!(serialized, r#"["あ","b","漢"]"#);
    let deserialized: Wire<3> = serde_json::from_str(&serialized).unwrap();
    assert_eq!(deserialized.0, ngram);
}
