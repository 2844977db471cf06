use vstd::prelude::*;

verus! {

/// An entry in the todo list.
#[derive(Debug)]
pub struct Entry {
    /// Description of the thing to do.
    pub description: String,
    /// Whether the entry is completed.
    pub completed: bool,
    /// Whether the entry is being edited.
    pub editing: bool,
}

/// Mathematical model of an [`Entry`]: the description as a sequence of
/// characters, together with the two flags.
#[verifier::ext_equal]
pub ghost struct EntryView {
    pub description: Seq<char>,
    pub completed: bool,
    pub editing: bool,
}

impl View for Entry {
    type V = EntryView;

    open spec fn view(&self) -> EntryView {
        EntryView {
            description: self.description@,
            completed: self.completed,
            editing: self.editing,
        }
    }
}

impl Clone for Entry {
    fn clone(&self) -> (r: Self)
        ensures
            r@ == self@,
    {
        Entry {
            description: self.description.clone(),
            completed: self.completed,
            editing: self.editing,
        }
    }
}

} // verus!
