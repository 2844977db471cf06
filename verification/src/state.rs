use vstd::prelude::*;

use crate::entry::Entry;
use crate::entry::EntryView;
use crate::filter::Filter;
use crate::text::trim_spec;

verus! {

/// Failures of the index-taking operations: the given position does not exist
/// in the currently filtered view.
#[derive(Debug, Clone, Copy, PartialEq, Eq, Structural)]
pub enum StateError {
    IndexOutOfRange,
}

/// The aggregate owning the entry collection, the current view filter and the
/// two transient text buffers.
#[derive(Debug)]
pub struct State {
    /// The entries, in insertion order.
    pub entries: Vec<Entry>,
    /// The current view mode.
    pub filter: Filter,
    /// Transient buffer for the "new entry" input.
    pub value: String,
    /// Transient buffer for the entry currently being edited.
    pub edit_value: String,
}

/// Mathematical model of a [`State`].
#[verifier::ext_equal]
pub ghost struct StateView {
    pub entries: Seq<EntryView>,
    pub filter: Filter,
    pub value: Seq<char>,
    pub edit_value: Seq<char>,
}

/// The models of a sequence of entries.
pub open spec fn views_of(entries: Seq<Entry>) -> Seq<EntryView> {
    entries.map_values(|e: Entry| e@)
}

impl View for State {
    type V = StateView;

    open spec fn view(&self) -> StateView {
        StateView {
            entries: views_of(self.entries@),
            filter: self.filter,
            value: self.value@,
            edit_value: self.edit_value@,
        }
    }
}

/// The filtered view: the ordered subsequence of `es` whose members fit `f`.
pub open spec fn filtered(es: Seq<EntryView>, f: Filter) -> Seq<EntryView>
    decreases es.len(),
{
    if es.len() == 0 {
        Seq::empty()
    } else if f.spec_fits(es[0]) {
        seq![es[0]] + filtered(es.drop_first(), f)
    } else {
        filtered(es.drop_first(), f)
    }
}

/// The absolute position in `es` of the element standing at position `idx` of
/// the filtered view. Meaningful only when `idx` is a position of that view.
pub open spec fn resolved_index(es: Seq<EntryView>, f: Filter, idx: int) -> int
    decreases es.len(),
{
    if es.len() == 0 {
        0
    } else if f.spec_fits(es[0]) {
        if idx == 0 {
            0
        } else {
            1 + resolved_index(es.drop_first(), f, idx - 1)
        }
    } else {
        1 + resolved_index(es.drop_first(), f, idx)
    }
}

/// Whether `idx` is a position of the filtered view of `s`.
pub open spec fn index_in_view(s: StateView, idx: int) -> bool {
    0 <= idx < filtered(s.entries, s.filter).len()
}

/// Extending the prefix under consideration by one entry extends its filtered
/// view by that entry exactly when the entry fits.
pub proof fn lemma_filtered_take_step(es: Seq<EntryView>, f: Filter, i: int)
    requires
        0 <= i < es.len(),
    ensures
        filtered(es.take(i + 1), f) == (if f.spec_fits(es[i]) {
            filtered(es.take(i), f).push(es[i])
        } else {
            filtered(es.take(i), f)
        }),
    decreases es.len(),
{
    let a = es.take(i + 1);
    let b = es.take(i);
    if i == 0 {
        assert(b =~= Seq::<EntryView>::empty());
        assert(a.drop_first() =~= Seq::<EntryView>::empty());
        assert(filtered(b, f) == Seq::<EntryView>::empty());
        assert(filtered(a.drop_first(), f) == Seq::<EntryView>::empty());
        assert(a.len() == 1 && a[0] == es[0]);
        if f.spec_fits(es[0]) {
            assert(filtered(a, f) == seq![es[0]] + Seq::<EntryView>::empty());
            assert(filtered(a, f) =~= seq![es[0]]);
            assert(filtered(b, f).push(es[0]) =~= seq![es[0]]);
        }
    } else {
        let d = es.drop_first();
        lemma_filtered_take_step(d, f, i - 1);
        assert(a.drop_first() =~= d.take(i));
        assert(b.drop_first() =~= d.take(i - 1));
        assert(d[i - 1] == es[i]);
        if f.spec_fits(es[0]) && f.spec_fits(es[i]) {
            assert(seq![es[0]] + filtered(d.take(i - 1), f).push(es[i]) =~= (seq![es[0]]
                + filtered(d.take(i - 1), f)).push(es[i]));
        }
    }
}

/// An entry of `es` that fits `f` stands in the filtered view, at the position
/// given by the number of fitting entries before it; `resolved_index` maps
/// that position back to the entry.
pub proof fn lemma_filtered_at(es: Seq<EntryView>, f: Filter, i: int)
    requires
        0 <= i < es.len(),
        f.spec_fits(es[i]),
    ensures
        ({
            let idx = filtered(es.take(i), f).len() as int;
            &&& idx < filtered(es, f).len()
            &&& resolved_index(es, f, idx) == i
            &&& filtered(es, f)[idx] == es[i]
        }),
    decreases es.len(),
{
    let idx = filtered(es.take(i), f).len() as int;
    if i == 0 {
        assert(es.take(0) =~= Seq::<EntryView>::empty());
        assert(idx == 0);
    } else {
        let d = es.drop_first();
        assert(d[i - 1] == es[i]);
        lemma_filtered_at(d, f, i - 1);
        let idx_d = filtered(d.take(i - 1), f).len() as int;
        assert(es.take(i).drop_first() =~= d.take(i - 1));
        if f.spec_fits(es[0]) {
            assert(filtered(es.take(i), f) == seq![es[0]] + filtered(d.take(i - 1), f));
            assert(idx == 1 + idx_d);
            assert(filtered(es, f) == seq![es[0]] + filtered(d, f));
            assert(filtered(es, f)[idx] == filtered(d, f)[idx_d]);
        } else {
            assert(filtered(es.take(i), f) == filtered(d.take(i - 1), f));
            assert(idx == idx_d);
            assert(filtered(es, f) == filtered(d, f));
        }
    }
}

/// `e` with its `completed` flag replaced.
pub open spec fn with_completed(e: EntryView, completed: bool) -> EntryView {
    EntryView { description: e.description, completed, editing: e.editing }
}

/// `e` with its `editing` flag replaced.
pub open spec fn with_editing(e: EntryView, editing: bool) -> EntryView {
    EntryView { description: e.description, completed: e.completed, editing }
}

/// `es` with `completed` set to `value` on every entry that fits `f`.
pub open spec fn set_completed_where_fits(es: Seq<EntryView>, f: Filter, value: bool) -> Seq<
    EntryView,
> {
    Seq::new(
        es.len(),
        |i: int|
            if f.spec_fits(es[i]) {
                with_completed(es[i], value)
            } else {
                es[i]
            },
    )
}

/// `es` with `editing` cleared on every entry.
pub open spec fn clear_edit_flags(es: Seq<EntryView>) -> Seq<EntryView> {
    Seq::new(es.len(), |i: int| with_editing(es[i], false))
}

/// The state after `add(description)`: the trimmed description is appended as
/// a fresh entry unless it is empty, and the `value` buffer is cleared either
/// way.
pub open spec fn add_result(s: StateView, description: Seq<char>) -> StateView {
    let t = trim_spec(description);
    StateView {
        entries: if t.len() == 0 {
            s.entries
        } else {
            s.entries.push(EntryView { description: t, completed: false, editing: false })
        },
        value: Seq::empty(),
        ..s
    }
}

/// The state after `remove(idx)`: the entry at position `idx` of the filtered
/// view leaves the collection; out of range, the state is unchanged.
pub open spec fn remove_result(s: StateView, idx: int) -> StateView {
    if index_in_view(s, idx) {
        StateView { entries: s.entries.remove(resolved_index(s.entries, s.filter, idx)), ..s }
    } else {
        s
    }
}

/// The state after `toggle(idx)`: the `completed` flag of the entry at
/// position `idx` of the filtered view is flipped.
pub open spec fn toggle_result(s: StateView, idx: int) -> StateView {
    if index_in_view(s, idx) {
        let k = resolved_index(s.entries, s.filter, idx);
        StateView { entries: s.entries.update(k, with_completed(s.entries[k], !s.entries[k].completed)), ..s }
    } else {
        s
    }
}

/// The state after `toggle_edit(idx)`: the `editing` flag of the entry at
/// position `idx` of the filtered view is flipped.
pub open spec fn toggle_edit_result(s: StateView, idx: int) -> StateView {
    if index_in_view(s, idx) {
        let k = resolved_index(s.entries, s.filter, idx);
        StateView { entries: s.entries.update(k, with_editing(s.entries[k], !s.entries[k].editing)), ..s }
    } else {
        s
    }
}

/// The state after `complete_edit(idx, text)`: with empty `text` the entry is
/// removed, exactly as by `remove(idx)`; otherwise its description becomes
/// `text` and its `editing` flag is flipped.
pub open spec fn complete_edit_result(s: StateView, idx: int, text: Seq<char>) -> StateView {
    if text.len() == 0 {
        remove_result(s, idx)
    } else if index_in_view(s, idx) {
        let k = resolved_index(s.entries, s.filter, idx);
        StateView {
            entries: s.entries.update(
                k,
                EntryView {
                    description: text,
                    completed: s.entries[k].completed,
                    editing: !s.entries[k].editing,
                },
            ),
            ..s
        }
    } else {
        s
    }
}

/// The state after `toggle_all(value)`: every entry that fits the current
/// filter has its `completed` flag set to `value`.
pub open spec fn toggle_all_result(s: StateView, value: bool) -> StateView {
    StateView { entries: set_completed_where_fits(s.entries, s.filter, value), ..s }
}

/// The state after `clear_all_edit()`: no entry is being edited.
pub open spec fn clear_all_edit_result(s: StateView) -> StateView {
    StateView { entries: clear_edit_flags(s.entries), ..s }
}

/// The state after `clear_completed()`: exactly the entries fitting
/// `Filter::Active` survive, in their original order.
pub open spec fn clear_completed_result(s: StateView) -> StateView {
    StateView { entries: filtered(s.entries, Filter::Active), ..s }
}

/// The state after `start_edit(idx)`: the edit buffer receives the
/// description of the entry at *absolute* position `idx`, every `editing`
/// flag is cleared, and then the flag of the entry at position `idx` of the
/// filtered view is flipped. Out of range either way, the state is unchanged.
pub open spec fn start_edit_result(s: StateView, idx: int) -> StateView {
    if 0 <= idx < s.entries.len() && index_in_view(s, idx) {
        let buffered = StateView { edit_value: s.entries[idx].description, ..s };
        toggle_edit_result(clear_all_edit_result(buffered), idx)
    } else {
        s
    }
}

/// The state after `submit_edit(idx)`: the edit buffer is trimmed and
/// committed through `complete_edit`, and the buffer is cleared on success.
pub open spec fn submit_edit_result(s: StateView, idx: int) -> StateView {
    if index_in_view(s, idx) {
        let s1 = complete_edit_result(s, idx, trim_spec(s.edit_value));
        StateView { edit_value: Seq::empty(), ..s1 }
    } else {
        s
    }
}

/// Entry collections whose entries agree on `completed` have filtered views
/// of the same length, and positions in them resolve alike: fitting a filter
/// depends on the `completed` flag alone.
pub proof fn lemma_filtered_same_completed(a: Seq<EntryView>, b: Seq<EntryView>, f: Filter)
    requires
        a.len() == b.len(),
        forall|i: int| 0 <= i < a.len() ==> a[i].completed == b[i].completed,
    ensures
        filtered(a, f).len() == filtered(b, f).len(),
        forall|idx: int|
            #[trigger] resolved_index(a, f, idx) == resolved_index(b, f, idx),
    decreases a.len(),
{
    if a.len() == 0 {
    } else {
        let a1 = a.drop_first();
        let b1 = b.drop_first();
        assert forall|i: int| 0 <= i < a1.len() implies a1[i].completed == b1[i].completed by {
            assert(a1[i] == a[i + 1]);
            assert(b1[i] == b[i + 1]);
        }
        lemma_filtered_same_completed(a1, b1, f);
        assert(f.spec_fits(a[0]) == f.spec_fits(b[0]));
        assert forall|idx: int|
            #[trigger] resolved_index(a, f, idx) == resolved_index(b, f, idx) by {
            if f.spec_fits(a[0]) {
                if idx != 0 {
                    assert(resolved_index(a1, f, idx - 1) == resolved_index(b1, f, idx - 1));
                }
            } else {
                assert(resolved_index(a1, f, idx) == resolved_index(b1, f, idx));
            }
        }
    }
}

/// For a position `idx` of the filtered view, `resolved_index` lands inside
/// the collection, on an entry that fits and that is exactly the `idx`-th
/// member of the filtered view.
pub proof fn lemma_resolved_index_props(es: Seq<EntryView>, f: Filter, idx: int)
    requires
        0 <= idx < filtered(es, f).len(),
    ensures
        ({
            let k = resolved_index(es, f, idx);
            &&& 0 <= k < es.len()
            &&& f.spec_fits(es[k])
            &&& filtered(es, f)[idx] == es[k]
        }),
    decreases es.len(),
{
    if es.len() == 0 {
    } else {
        let d = es.drop_first();
        if f.spec_fits(es[0]) {
            assert(filtered(es, f) == seq![es[0]] + filtered(d, f));
            if idx != 0 {
                lemma_resolved_index_props(d, f, idx - 1);
                assert(filtered(es, f)[idx] == filtered(d, f)[idx - 1]);
                assert(es[1 + resolved_index(d, f, idx - 1)] == d[resolved_index(d, f, idx - 1)]);
            }
        } else {
            assert(filtered(es, f) == filtered(d, f));
            lemma_resolved_index_props(d, f, idx);
            assert(es[1 + resolved_index(d, f, idx)] == d[resolved_index(d, f, idx)]);
        }
    }
}

/// Resolve a position of the filtered view of `entries` under `filter` to the
/// absolute position of that entry in `entries`.
pub fn resolve_filtered_index(entries: &Vec<Entry>, filter: Filter, idx: usize) -> (r: Result<
    usize,
    StateError,
>)
    ensures
        match r {
            Ok(k) => {
                &&& (idx as int) < filtered(views_of(entries@), filter).len()
                &&& k as int == resolved_index(views_of(entries@), filter, idx as int)
                &&& k < entries@.len()
                &&& filter.spec_fits(views_of(entries@)[k as int])
                &&& filtered(views_of(entries@), filter)[idx as int] == views_of(entries@)[k as int]
            },
            Err(e) => {
                &&& e == StateError::IndexOutOfRange
                &&& idx as int >= filtered(views_of(entries@), filter).len()
            },
        },
{
    let ghost es = views_of(entries@);
    let mut i: usize = 0;
    let mut count: usize = 0;
    proof {
        assert(es.take(0) =~= Seq::<EntryView>::empty());
    }
    while i < entries.len()
        invariant
            es == views_of(entries@),
            0 <= i <= es.len(),
            es.len() == entries@.len(),
            count as int == filtered(es.take(i as int), filter).len(),
            count <= i,
            count <= idx,
        decreases es.len() - i,
    {
        let e = &entries[i];
        proof {
            lemma_filtered_take_step(es, filter, i as int);
        }
        if filter.fits(e) {
            if count == idx {
                proof {
                    lemma_filtered_at(es, filter, i as int);
                }
                return Ok(i);
            }
            count = count + 1;
        }
        i = i + 1;
    }
    proof {
        assert(es.take(es.len() as int) =~= es);
    }
    Err(StateError::IndexOutOfRange)
}

impl State {
    /// Number of entries in the full, unfiltered collection.
    pub fn total(&self) -> (r: usize)
        ensures
            r == self@.entries.len(),
    {
        self.entries.len()
    }

    /// Number of completed entries, independent of the current filter.
    pub fn total_completed(&self) -> (r: usize)
        ensures
            r == filtered(self@.entries, Filter::Completed).len(),
    {
        let ghost es = self@.entries;
        let mut i: usize = 0;
        let mut count: usize = 0;
        proof {
            assert(es.take(0) =~= Seq::<EntryView>::empty());
        }
        while i < self.entries.len()
            invariant
                es == self@.entries,
                0 <= i <= es.len(),
                es.len() == self.entries@.len(),
                count as int == filtered(es.take(i as int), Filter::Completed).len(),
                count <= i,
            decreases es.len() - i,
        {
            let e = &self.entries[i];
            proof {
                lemma_filtered_take_step(es, Filter::Completed, i as int);
            }
            if Filter::Completed.fits(e) {
                count = count + 1;
            }
            i = i + 1;
        }
        proof {
            assert(es.take(es.len() as int) =~= es);
        }
        count
    }

    /// Whether the filtered view is non-empty and its *first* entry is
    /// completed. This is deliberately not a conjunction over all visible
    /// entries: only the first one is consulted.
    pub fn is_all_completed(&self) -> (r: bool)
        ensures
            r == ({
                let fv = filtered(self@.entries, self@.filter);
                fv.len() > 0 && fv[0].completed
            }),
    {
        let ghost es = self@.entries;
        let mut i: usize = 0;
        proof {
            assert(es.take(0) =~= Seq::<EntryView>::empty());
        }
        while i < self.entries.len()
            invariant
                es == self@.entries,
                0 <= i <= es.len(),
                es.len() == self.entries@.len(),
                self.filter == self@.filter,
                filtered(es.take(i as int), self@.filter).len() == 0,
            decreases es.len() - i,
        {
            let e = &self.entries[i];
            proof {
                lemma_filtered_take_step(es, self@.filter, i as int);
            }
            if self.filter.fits(e) {
                proof {
                    lemma_filtered_at(es, self@.filter, i as int);
                }
                return e.completed;
            }
            i = i + 1;
        }
        proof {
            assert(es.take(es.len() as int) =~= es);
        }
        false
    }

    /// Append a new entry with the trimmed `description`, unless the trimmed
    /// text is empty; clear the `value` buffer either way.
    pub fn add(&mut self, description: &str)
        ensures
            final(self)@ == add_result(old(self)@, description@),
    {
        let t = crate::text::trimmed(description);
        if !t.as_str().is_empty() {
            self.entries.push(Entry { description: t, completed: false, editing: false });
            proof {
                assert(self@.entries =~= add_result(old(self)@, description@).entries);
            }
        }
        self.value = String::new();
        proof {
            assert(self@ =~= add_result(old(self)@, description@));
        }
    }

    /// Replace the `value` buffer.
    pub fn update_value(&mut self, text: String)
        ensures
            final(self)@ == (StateView { value: text@, ..old(self)@ }),
    {
        self.value = text;
    }

    /// Replace the `edit_value` buffer.
    pub fn update_edit_value(&mut self, text: String)
        ensures
            final(self)@ == (StateView { edit_value: text@, ..old(self)@ }),
    {
        self.edit_value = text;
    }

    /// Replace the current view filter.
    pub fn set_filter(&mut self, filter: Filter)
        ensures
            final(self)@ == (StateView { filter, ..old(self)@ }),
    {
        self.filter = filter;
    }

    /// Remove the entry at position `idx` of the filtered view.
    pub fn remove(&mut self, idx: usize) -> (r: Result<(), StateError>)
        ensures
            final(self)@ == remove_result(old(self)@, idx as int),
            r is Ok <==> index_in_view(old(self)@, idx as int),
            r is Err ==> r == Err::<(), StateError>(StateError::IndexOutOfRange),
    {
        match resolve_filtered_index(&self.entries, self.filter, idx) {
            Ok(k) => {
                self.entries.remove(k);
                proof {
                    assert(self@.entries =~= remove_result(old(self)@, idx as int).entries);
                    assert(self@ =~= remove_result(old(self)@, idx as int));
                }
                Ok(())
            },
            Err(e) => Err(e),
        }
    }

    /// Flip the `completed` flag of the entry at position `idx` of the
    /// filtered view.
    pub fn toggle(&mut self, idx: usize) -> (r: Result<(), StateError>)
        ensures
            final(self)@ == toggle_result(old(self)@, idx as int),
            r is Ok <==> index_in_view(old(self)@, idx as int),
            r is Err ==> r == Err::<(), StateError>(StateError::IndexOutOfRange),
    {
        match resolve_filtered_index(&self.entries, self.filter, idx) {
            Ok(k) => {
                let e = &self.entries[k];
                let changed = Entry {
                    description: e.description.clone(),
                    completed: !e.completed,
                    editing: e.editing,
                };
                self.entries.remove(k);
                self.entries.insert(k, changed);
                proof {
                    assert(self@.entries =~= toggle_result(old(self)@, idx as int).entries);
                    assert(self@ =~= toggle_result(old(self)@, idx as int));
                }
                Ok(())
            },
            Err(e) => Err(e),
        }
    }

    /// Flip the `editing` flag of the entry at position `idx` of the filtered
    /// view.
    pub fn toggle_edit(&mut self, idx: usize) -> (r: Result<(), StateError>)
        ensures
            final(self)@ == toggle_edit_result(old(self)@, idx as int),
            r is Ok <==> index_in_view(old(self)@, idx as int),
            r is Err ==> r == Err::<(), StateError>(StateError::IndexOutOfRange),
    {
        match resolve_filtered_index(&self.entries, self.filter, idx) {
            Ok(k) => {
                let e = &self.entries[k];
                let changed = Entry {
                    description: e.description.clone(),
                    completed: e.completed,
                    editing: !e.editing,
                };
                self.entries.remove(k);
                self.entries.insert(k, changed);
                proof {
                    assert(self@.entries =~= toggle_edit_result(old(self)@, idx as int).entries);
                    assert(self@ =~= toggle_edit_result(old(self)@, idx as int));
                }
                Ok(())
            },
            Err(e) => Err(e),
        }
    }

    /// Commit an edit: empty `text` removes the entry at position `idx` of
    /// the filtered view; otherwise that entry's description becomes `text`
    /// and its `editing` flag is flipped.
    pub fn complete_edit(&mut self, idx: usize, text: String) -> (r: Result<(), StateError>)
        ensures
            final(self)@ == complete_edit_result(old(self)@, idx as int, text@),
            r is Ok <==> index_in_view(old(self)@, idx as int),
            r is Err ==> r == Err::<(), StateError>(StateError::IndexOutOfRange),
    {
        if text.as_str().is_empty() {
            self.remove(idx)
        } else {
            match resolve_filtered_index(&self.entries, self.filter, idx) {
                Ok(k) => {
                    let completed = self.entries[k].completed;
                    let editing = self.entries[k].editing;
                    let changed = Entry { description: text, completed, editing: !editing };
                    self.entries.remove(k);
                    self.entries.insert(k, changed);
                    proof {
                        assert(self@.entries =~= complete_edit_result(
                            old(self)@,
                            idx as int,
                            changed@.description,
                        ).entries);
                        assert(self@ =~= complete_edit_result(
                            old(self)@,
                            idx as int,
                            changed@.description,
                        ));
                    }
                    Ok(())
                },
                Err(e) => Err(e),
            }
        }
    }

    /// Set the `completed` flag of every entry that fits the current filter
    /// to `value`.
    pub fn toggle_all(&mut self, value: bool)
        ensures
            final(self)@ == toggle_all_result(old(self)@, value),
    {
        let ghost es = self@.entries;
        let f = self.filter;
        let mut out: Vec<Entry> = Vec::new();
        let mut i: usize = 0;
        while i < self.entries.len()
            invariant
                es == views_of(self.entries@),
                f == self.filter,
                0 <= i <= es.len(),
                es.len() == self.entries@.len(),
                views_of(out@) == set_completed_where_fits(es, f, value).take(i as int),
            decreases es.len() - i,
        {
            let e = &self.entries[i];
            let changed = if f.fits(e) {
                Entry { description: e.description.clone(), completed: value, editing: e.editing }
            } else {
                e.clone()
            };
            let ghost prev = out@;
            out.push(changed);
            proof {
                let target = set_completed_where_fits(es, f, value);
                assert(out@ == prev.push(changed));
                assert(views_of(prev).len() == prev.len());
                assert(prev.len() == i as int);
                assert(changed@ == target[i as int]);
                assert forall|j: int| 0 <= j < i + 1 implies views_of(out@)[j] == target.take(
                    i + 1,
                )[j] by {
                    if j < i {
                        assert(out@[j] == prev[j]);
                        assert(views_of(prev)[j] == target.take(i as int)[j]);
                    } else {
                        assert(out@[j] == changed);
                    }
                }
                assert(views_of(out@) =~= target.take(i + 1));
            }
            i = i + 1;
        }
        self.entries = out;
        proof {
            assert(set_completed_where_fits(es, f, value).take(es.len() as int)
                =~= set_completed_where_fits(es, f, value));
            assert(self@ =~= toggle_all_result(old(self)@, value));
        }
    }

    /// Clear the `editing` flag of every entry.
    pub fn clear_all_edit(&mut self)
        ensures
            final(self)@ == clear_all_edit_result(old(self)@),
    {
        let ghost es = self@.entries;
        let mut out: Vec<Entry> = Vec::new();
        let mut i: usize = 0;
        while i < self.entries.len()
            invariant
                es == views_of(self.entries@),
                0 <= i <= es.len(),
                es.len() == self.entries@.len(),
                views_of(out@) == clear_edit_flags(es).take(i as int),
            decreases es.len() - i,
        {
            let e = &self.entries[i];
            let changed = Entry {
                description: e.description.clone(),
                completed: e.completed,
                editing: false,
            };
            let ghost prev = out@;
            out.push(changed);
            proof {
                let target = clear_edit_flags(es);
                assert(out@ == prev.push(changed));
                assert(views_of(prev).len() == prev.len());
                assert(prev.len() == i as int);
                assert(changed@ == target[i as int]);
                assert forall|j: int| 0 <= j < i + 1 implies views_of(out@)[j] == target.take(
                    i + 1,
                )[j] by {
                    if j < i {
                        assert(out@[j] == prev[j]);
                        assert(views_of(prev)[j] == target.take(i as int)[j]);
                    } else {
                        assert(out@[j] == changed);
                    }
                }
                assert(views_of(out@) =~= target.take(i + 1));
            }
            i = i + 1;
        }
        self.entries = out;
        proof {
            assert(clear_edit_flags(es).take(es.len() as int) =~= clear_edit_flags(es));
            assert(self@ =~= clear_all_edit_result(old(self)@));
        }
    }

    /// Drop every completed entry, keeping the survivors in order.
    pub fn clear_completed(&mut self)
        ensures
            final(self)@ == clear_completed_result(old(self)@),
    {
        let ghost es = self@.entries;
        let mut kept: Vec<Entry> = Vec::new();
        let mut i: usize = 0;
        proof {
            assert(es.take(0) =~= Seq::<EntryView>::empty());
        }
        while i < self.entries.len()
            invariant
                es == views_of(self.entries@),
                0 <= i <= es.len(),
                es.len() == self.entries@.len(),
                views_of(kept@) == filtered(es.take(i as int), Filter::Active),
            decreases es.len() - i,
        {
            let e = &self.entries[i];
            proof {
                lemma_filtered_take_step(es, Filter::Active, i as int);
            }
            if Filter::Active.fits(e) {
                kept.push(e.clone());
                proof {
                    assert(views_of(kept@) =~= filtered(es.take(i as int), Filter::Active).push(
                        es[i as int],
                    ));
                }
            }
            i = i + 1;
        }
        self.entries = kept;
        proof {
            assert(es.take(es.len() as int) =~= es);
            assert(self@ =~= clear_completed_result(old(self)@));
        }
    }
}

impl State {
    /// Begin editing the entry at position `idx`: buffer its description,
    /// clear every `editing` flag, then flip the flag of the entry at
    /// position `idx` of the filtered view. `idx` is used both as an
    /// absolute position (for the buffered description) and as a filtered
    /// position (for the flag), mirroring how the presentation shell
    /// sequences these steps.
    pub fn start_edit(&mut self, idx: usize) -> (r: Result<(), StateError>)
        ensures
            final(self)@ == start_edit_result(old(self)@, idx as int),
            r is Ok <==> (idx < old(self)@.entries.len() && index_in_view(old(self)@, idx as int)),
            r is Err ==> r == Err::<(), StateError>(StateError::IndexOutOfRange),
    {
        if idx >= self.entries.len() {
            return Err(StateError::IndexOutOfRange);
        }
        match resolve_filtered_index(&self.entries, self.filter, idx) {
            Err(e) => Err(e),
            Ok(_) => {
                self.edit_value = self.entries[idx].description.clone();
                self.clear_all_edit();
                let ghost cleared = self@;
                proof {
                    lemma_filtered_same_completed(
                        cleared.entries,
                        old(self)@.entries,
                        old(self)@.filter,
                    );
                }
                let r2 = self.toggle_edit(idx);
                proof {
                    assert(r2 is Ok);
                    let buffered = StateView {
                        edit_value: old(self)@.entries[idx as int].description,
                        ..old(self)@
                    };
                    assert(cleared =~= clear_all_edit_result(buffered));
                    assert(self@ =~= start_edit_result(old(self)@, idx as int));
                }
                Ok(())
            },
        }
    }

    /// Commit the edit buffer for the entry at position `idx` of the
    /// filtered view: the buffer is trimmed, handed to `complete_edit`, and
    /// cleared on success.
    pub fn submit_edit(&mut self, idx: usize) -> (r: Result<(), StateError>)
        ensures
            final(self)@ == submit_edit_result(old(self)@, idx as int),
            r is Ok <==> index_in_view(old(self)@, idx as int),
            r is Err ==> r == Err::<(), StateError>(StateError::IndexOutOfRange),
    {
        let t = crate::text::trimmed(self.edit_value.as_str());
        match self.complete_edit(idx, t) {
            Ok(u) => {
                self.edit_value = String::new();
                proof {
                    assert(self@ =~= submit_edit_result(old(self)@, idx as int));
                }
                Ok(u)
            },
            Err(e) => {
                proof {
                    assert(self@ =~= submit_edit_result(old(self)@, idx as int));
                }
                Err(e)
            },
        }
    }
}

/// After a successful `start_edit(idx)`, exactly one entry is being edited:
/// the one at the absolute position that `idx` resolves to in the filtered
/// view of the collection.
pub proof fn lemma_start_edit_single_editor(s: StateView, idx: int)
    requires
        0 <= idx < s.entries.len(),
        index_in_view(s, idx),
    ensures
        ({
            let t = start_edit_result(s, idx);
            let k = resolved_index(clear_edit_flags(s.entries), s.filter, idx);
            &&& t.entries.len() == s.entries.len()
            &&& forall|j: int| 0 <= j < t.entries.len() ==> (t.entries[j].editing <==> j == k)
        }),
{
    let cleared = clear_edit_flags(s.entries);
    lemma_filtered_same_completed(cleared, s.entries, s.filter);
    lemma_resolved_index_props(cleared, s.filter, idx);
}

/// Committing an edit with empty text is exactly a removal: for every state
/// and every position of its filtered view, the two operations lead to the
/// same state.
pub proof fn lemma_complete_edit_empty_is_remove(s: StateView, idx: int)
    ensures
        complete_edit_result(s, idx, Seq::empty()) == remove_result(s, idx),
{
}

} // verus!
