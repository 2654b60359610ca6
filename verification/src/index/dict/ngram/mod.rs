//! A dictionary over terms of a fixed number of characters. Its editor
//! appends every term it is given without looking it up, which is what bulk
//! insertion of terms known to be new wants.

pub mod editor;
#[allow(clippy::module_inception)]
pub mod ngram;

use crate::index::dict::ngram::editor::DictEditor;
use crate::index::dict::ngram::ngram::Ngram;
use crate::error::Error;
use crate::index::dict::table::key_views;
use crate::index::dict::{EditableIndexDictionary, IndexDictionary, IndexDictionaryEditor};
use crate::traits::deser::Deser;
use vstd::prelude::*;

verus! {

/// A dictionary over n-grams of `N` characters.
pub struct NGramDict<const N: usize> {
    /// The write half, which owns the terms.
    editor: DictEditor<N>,
}

impl<const N: usize> NGramDict<N> {
    /// A dictionary without terms.
    pub fn new() -> (dict: Self)
        ensures
            dict.wf(),
            dict.terms() == Seq::<Seq<u8>>::empty(),
    {
        NGramDict { editor: DictEditor::new() }
    }

    /// The dictionary that holds the terms with these serialized forms, in
    /// this order: what `into_terms` handed out. More terms than there are ids are out of
    /// bounds.
    pub fn from_terms(forms: Vec<Vec<u8>>) -> (r: Result<Self, Error>)
        ensures
            match r {
                Ok(dict) => dict.wf() && dict.terms() == key_views(forms@),
                Err(e) => e == Error::OutOfBounds && forms@.len() > u32::MAX + 1,
            },
    {
        match DictEditor::from_terms(forms) {
            Ok(editor) => Ok(NGramDict { editor }),
            Err(e) => Err(e),
        }
    }

    /// Gives up the dictionary for the serialized forms of its terms, in the
    /// order of their ids.
    pub fn into_terms(self) -> (forms: Vec<Vec<u8>>)
        ensures
            key_views(forms@) == self.terms(),
    {
        self.editor.into_terms()
    }

    /// The term with the id `id`. An id that no term has is out of bounds;
    /// bytes that are no term's serialized form are a codec error.
    pub fn term(&self, id: u32) -> (r: Result<Ngram<N>, Error>)
        requires
            self.wf(),
        ensures
            match r {
                Ok(term) => id < self.terms().len() && term.encoding() == self.terms()[id as int],
                Err(e) => if id < self.terms().len() {
                    e == Error::Codec && forall|term: Ngram<N>| #[trigger]
                        term.encoding() != self.terms()[id as int]
                } else {
                    e == Error::OutOfBounds
                },
            },
    {
        self.editor.term(id)
    }

    /// A dictionary without terms. The capacity is a hint and changes nothing
    /// that can be observed.
    pub fn with_capacity(capacity: usize) -> (dict: Self)
        ensures
            dict.wf(),
            dict.terms() == Seq::<Seq<u8>>::empty(),
    {
        NGramDict { editor: DictEditor::new() }
    }
}

impl<const N: usize> IndexDictionary<Ngram<N>> for NGramDict<N> {
    closed spec fn wf(&self) -> bool {
        self.editor.wf()
    }

    closed spec fn terms(&self) -> Seq<Seq<u8>> {
        self.editor.terms()
    }

    proof fn lemma_ids_fit(&self) {
        self.editor.lemma_ids_fit();
    }

    fn term_id(&self, term: &Ngram<N>) -> (id: Option<u32>) {
        self.editor.term_id(term)
    }

    fn len(&self) -> (n: usize) {
        self.editor.len()
    }
}

impl<const N: usize> EditableIndexDictionary<Ngram<N>> for NGramDict<N> {
    type Editor = DictEditor<N>;

    open spec fn looks_up(&self) -> bool {
        false
    }

    fn editor(&mut self) -> (editor: &mut DictEditor<N>) {
        &mut self.editor
    }
}

} // verus!
