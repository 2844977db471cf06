use vstd::prelude::*;

use crate::filter::Filter;

verus! {

/// One user intent, as handed to the state aggregate by the presentation
/// shell. Index payloads are positions within the currently filtered view.
#[derive(Debug)]
pub enum Message {
    Add,
    Edit(usize),
    Update(String),
    UpdateEdit(String),
    Remove(usize),
    SetFilter(Filter),
    ToggleAll,
    ToggleEdit(usize),
    Toggle(usize),
    ClearCompleted,
    Focus,
}

} // verus!
