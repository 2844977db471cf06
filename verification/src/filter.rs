use vstd::prelude::*;

use crate::entry::Entry;
use crate::entry::EntryView;

verus! {

/// The current view mode of the list: which entries are shown.
#[derive(Debug, Clone, Copy, PartialEq, Eq, Structural)]
pub enum Filter {
    All,
    Active,
    Completed,
}

impl Filter {
    /// What [`Filter::fits`] returns, on the model of an entry.
    pub open spec fn spec_fits(self, e: EntryView) -> bool {
        match self {
            Filter::All => true,
            Filter::Active => !e.completed,
            Filter::Completed => e.completed,
        }
    }

    /// Whether `entry` is visible under this view mode.
    pub fn fits(&self, entry: &Entry) -> (r: bool)
        ensures
            r == self.spec_fits(entry@),
    {
        match *self {
            Filter::All => true,
            Filter::Active => !entry.completed,
            Filter::Completed => entry.completed,
        }
    }

    /// The link target of this view mode, as a sequence of characters.
    pub open spec fn spec_href(self) -> Seq<char> {
        match self {
            Filter::All => "#/"@,
            Filter::Active => "#/active"@,
            Filter::Completed => "#/completed"@,
        }
    }

    /// The fixed link target shown for this view mode.
    pub fn as_href(&self) -> (r: &'static str)
        ensures
            r@ == self.spec_href(),
    {
        match *self {
            Filter::All => "#/",
            Filter::Active => "#/active",
            Filter::Completed => "#/completed",
        }
    }

    /// The display label of this view mode, as a sequence of characters.
    pub open spec fn spec_label(self) -> Seq<char> {
        match self {
            Filter::All => "All"@,
            Filter::Active => "Active"@,
            Filter::Completed => "Completed"@,
        }
    }

    /// The fixed display label of this view mode.
    pub fn label(&self) -> (r: &'static str)
        ensures
            r@ == self.spec_label(),
    {
        match *self {
            Filter::All => "All",
            Filter::Active => "Active",
            Filter::Completed => "Completed",
        }
    }
}

/// Every entry is visible under the `All` view mode.
pub proof fn lemma_all_fits(e: EntryView)
    ensures
        Filter::All.spec_fits(e),
{
}

/// `Active` and `Completed` classify every entry: they accept it according to
/// the negation, respectively the value, of its `completed` flag, so exactly
/// one of the two accepts it.
pub proof fn lemma_active_completed_partition(e: EntryView)
    ensures
        Filter::Active.spec_fits(e) == !e.completed,
        Filter::Completed.spec_fits(e) == e.completed,
        Filter::Active.spec_fits(e) != Filter::Completed.spec_fits(e),
{
}

} // verus!
