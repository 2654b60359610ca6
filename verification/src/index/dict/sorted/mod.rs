//! A dictionary that keeps its entries in the order of their terms and finds
//! a term by binary search: the twin of the simple dictionary.

use crate::index::dict::simple::editor::DictEditor;
use crate::index::dict::{EditableIndexDictionary, IndexDictionary, IndexDictionaryEditor};
use crate::traits::deser::Deser;
use vstd::prelude::*;

verus! {

/// A dictionary for terms of any type with a serialized form, kept in the
/// order of the serialized forms.
pub struct SortedDict<T> {
    /// The write half, which owns the entries.
    editor: DictEditor<T>,
}

impl<T: Deser> SortedDict<T> {
    /// A dictionary without terms.
    pub fn new() -> (dict: Self)
        ensures
            dict.wf(),
            dict.terms() == Seq::<Seq<u8>>::empty(),
    {
        SortedDict { editor: DictEditor::new() }
    }

    /// A dictionary without terms. The capacity is a hint and changes nothing
    /// that can be observed.
    pub fn with_capacity(capacity: usize) -> (dict: Self)
        ensures
            dict.wf(),
            dict.terms() == Seq::<Seq<u8>>::empty(),
    {
        SortedDict { editor: DictEditor::new() }
    }

    /// Lends out the editor through which terms are inserted.
    pub fn dict_editor(&mut self) -> (editor: &mut DictEditor<T>)
        requires
            old(self).wf(),
        ensures
            editor.wf(),
            editor.terms() == old(self).terms(),
            final(self).wf() == final(editor).wf(),
            final(self).terms() == final(editor).terms(),
    {
        &mut self.editor
    }
}

impl<T: Deser> IndexDictionary<T> for SortedDict<T> {
    closed spec fn wf(&self) -> bool {
        self.editor.wf()
    }

    closed spec fn terms(&self) -> Seq<Seq<u8>> {
        self.editor.terms()
    }

    proof fn lemma_ids_fit(&self) {
        self.editor.lemma_ids_fit();
    }

    fn term_id(&self, term: &T) -> (id: Option<u32>) {
        self.editor.term_id(term)
    }

    fn len(&self) -> (n: usize) {
        self.editor.len()
    }
}

impl<T: Deser> EditableIndexDictionary<T> for SortedDict<T> {
    type Editor = DictEditor<T>;

    open spec fn looks_up(&self) -> bool {
        true
    }

    fn editor(&mut self) -> (editor: &mut DictEditor<T>) {
        &mut self.editor
    }
}

} // verus!
