//! The dictionary for most uses: any term with a serialized form, looked up
//! by hash, never held twice.

pub mod editor;

use crate::index::dict::default::editor::DictEditor;
use crate::error::Error;
use crate::index::dict::table::key_views;
use crate::index::dict::{EditableIndexDictionary, IndexDictionary, IndexDictionaryEditor};
use crate::traits::deser::Deser;
use vstd::prelude::*;

verus! {

/// A dictionary over terms of any type with a serialized form.
pub struct DefaultDict<T> {
    /// The write half, which owns the terms.
    editor: DictEditor<T>,
}

impl<T: Deser> DefaultDict<T> {
    /// A dictionary without terms.
    pub fn new() -> (dict: Self)
        ensures
            dict.wf(),
            dict.terms() == Seq::<Seq<u8>>::empty(),
    {
        DefaultDict { editor: DictEditor::new() }
    }

    /// The dictionary that holds the terms with these serialized forms, in
    /// this order: what `into_terms` handed out. A form that stands among them twice is
    /// refused as a duplicate entry; more terms than there are ids are out of
    /// bounds.
    pub fn from_terms(forms: Vec<Vec<u8>>) -> (r: Result<Self, Error>)
        ensures
            match r {
                Ok(dict) => dict.wf() && dict.terms() == key_views(forms@),
                Err(e) => if e == Error::DuplicateEntry {
                    !key_views(forms@).no_duplicates()
                } else {
                    e == Error::OutOfBounds && forms@.len() > u32::MAX + 1
                },
            },
    {
        match DictEditor::from_terms(forms) {
            Ok(editor) => Ok(DefaultDict { editor }),
            Err(e) => Err(e),
        }
    }

    /// Gives up the dictionary for the serialized forms of its terms, in the
    /// order of their ids.
    pub fn into_terms(self) -> (forms: Vec<Vec<u8>>)
        ensures
            key_views(forms@) == self.terms(),
    {
        self.editor.into_terms()
    }

    /// The term with the id `id`. An id that no term has is out of bounds;
    /// bytes that are no term's serialized form are a codec error.
    pub fn term(&self, id: u32) -> (r: Result<T, Error>)
        requires
            self.wf(),
        ensures
            match r {
                Ok(term) => id < self.terms().len() && term.encoding() == self.terms()[id as int],
                Err(e) => if id < self.terms().len() {
                    e == Error::Codec && forall|term: T| #[trigger]
                        term.encoding() != self.terms()[id as int]
                } else {
                    e == Error::OutOfBounds
                },
            },
    {
        self.editor.term(id)
    }

    /// A dictionary without terms. The capacity is a hint and changes nothing
    /// that can be observed.
    pub fn with_capacity(capacity: usize) -> (dict: Self)
        ensures
            dict.wf(),
            dict.terms() == Seq::<Seq<u8>>::empty(),
    {
        DefaultDict { editor: DictEditor::new() }
    }

    /// No term stands in the dictionary twice.
    pub proof fn lemma_terms_distinct(&self)
        requires
            self.wf(),
        ensures
            self.terms().no_duplicates(),
    {
        self.editor.lemma_terms_distinct();
    }
}

impl<T: Deser> IndexDictionary<T> for DefaultDict<T> {
    closed spec fn wf(&self) -> bool {
        self.editor.wf()
    }

    closed spec fn terms(&self) -> Seq<Seq<u8>> {
        self.editor.terms()
    }

    proof fn lemma_ids_fit(&self) {
        self.editor.lemma_ids_fit();
    }

    fn term_id(&self, term: &T) -> (id: Option<u32>) {
        self.editor.term_id(term)
    }

    fn len(&self) -> (n: usize) {
        self.editor.len()
    }
}

impl<T: Deser> EditableIndexDictionary<T> for DefaultDict<T> {
    type Editor = DictEditor<T>;

    open spec fn looks_up(&self) -> bool {
        true
    }

    fn editor(&mut self) -> (editor: &mut DictEditor<T>) {
        &mut self.editor
    }
}

} // verus!
