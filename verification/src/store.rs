//! The counter store: an ordered collection of counters with
//! identity-stable mutation primitives.
//!
//! Every operation is specified against a pure transformer on the
//! mathematical model `Seq<CounterModel>`; the store invariant is that
//! ids are pairwise distinct.

use vstd::prelude::*;

use crate::models::{models_of, Color, Counter, CounterModel};

verus! {

/// The ids of a model sequence, in order.
pub open spec fn ids(s: Seq<CounterModel>) -> Seq<u128> {
    s.map(|i: int, c: CounterModel| c.id)
}

/// Ids are pairwise distinct: the collection invariant.
pub open spec fn ids_distinct(s: Seq<CounterModel>) -> bool {
    forall|i: int, j: int| 0 <= i < j < s.len() ==> s[i].id != s[j].id
}

/// Some entry carries this id.
pub open spec fn has_id(s: Seq<CounterModel>, id: u128) -> bool {
    exists|i: int| 0 <= i < s.len() && s[i].id == id
}

/// An index of the entry carrying this id. Meaningful only when
/// `has_id(s, id)`; under `ids_distinct` it is the one such index.
pub open spec fn index_of_id(s: Seq<CounterModel>, id: u128) -> int {
    choose|i: int| 0 <= i < s.len() && s[i].id == id
}

/// One counter after a guarded increment: one more, unless the count
/// is already at the maximum representable value.
pub open spec fn bumped_up(c: CounterModel) -> CounterModel {
    if c.count < usize::MAX {
        CounterModel { count: c.count + 1, ..c }
    } else {
        c
    }
}

/// One counter after a guarded decrement: one less, unless the count
/// is already zero.
pub open spec fn bumped_down(c: CounterModel) -> CounterModel {
    if c.count > 0 {
        CounterModel { count: (c.count - 1) as nat, ..c }
    } else {
        c
    }
}

/// Increment applied to every entry carrying the id (at most one under
/// the invariant); all other entries unchanged.
pub open spec fn increment_model(s: Seq<CounterModel>, id: u128) -> Seq<CounterModel> {
    s.map(|i: int, c: CounterModel| if c.id == id { bumped_up(c) } else { c })
}

/// Decrement applied to every entry carrying the id.
pub open spec fn decrement_model(s: Seq<CounterModel>, id: u128) -> Seq<CounterModel> {
    s.map(|i: int, c: CounterModel| if c.id == id { bumped_down(c) } else { c })
}

/// The title of every entry carrying the id replaced verbatim.
pub open spec fn set_title_model(s: Seq<CounterModel>, id: u128, title: Seq<char>) -> Seq<
    CounterModel,
> {
    s.map(
        |i: int, c: CounterModel|
            if c.id == id {
                CounterModel { title: title, ..c }
            } else {
                c
            },
    )
}

/// The count of every entry carrying the id replaced directly.
pub open spec fn set_value_model(s: Seq<CounterModel>, id: u128, value: nat) -> Seq<CounterModel> {
    s.map(
        |i: int, c: CounterModel|
            if c.id == id {
                CounterModel { count: value, ..c }
            } else {
                c
            },
    )
}

/// The color of every entry carrying the id replaced.
pub open spec fn set_color_model(s: Seq<CounterModel>, id: u128, color: Color) -> Seq<
    CounterModel,
> {
    s.map(
        |i: int, c: CounterModel|
            if c.id == id {
                CounterModel { color: color, ..c }
            } else {
                c
            },
    )
}

/// Keeps exactly the entries not carrying the id.
pub open spec fn keeps(id: u128) -> spec_fn(CounterModel) -> bool {
    |c: CounterModel| c.id != id
}

/// Every entry carrying the id removed; order of the rest kept.
pub open spec fn delete_model(s: Seq<CounterModel>, id: u128) -> Seq<CounterModel> {
    s.filter(keeps(id))
}

/// The entry swapped with its immediate predecessor, unless it is
/// first or absent.
pub open spec fn move_up_model(s: Seq<CounterModel>, id: u128) -> Seq<CounterModel> {
    if !has_id(s, id) {
        s
    } else {
        let i = index_of_id(s, id);
        if i == 0 {
            s
        } else {
            s.update(i, s[i - 1]).update(i - 1, s[i])
        }
    }
}

/// The entry swapped with its immediate successor, unless it is
/// last or absent.
pub open spec fn move_down_model(s: Seq<CounterModel>, id: u128) -> Seq<CounterModel> {
    if !has_id(s, id) {
        s
    } else {
        let i = index_of_id(s, id);
        if i == s.len() - 1 {
            s
        } else {
            s.update(i, s[i + 1]).update(i + 1, s[i])
        }
    }
}

/// The entry removed from its position and reinserted first.
pub open spec fn move_top_model(s: Seq<CounterModel>, id: u128) -> Seq<CounterModel> {
    if !has_id(s, id) {
        s
    } else {
        let i = index_of_id(s, id);
        s.remove(i).insert(0, s[i])
    }
}

/// The entry removed from its position and reinserted last.
pub open spec fn move_bottom_model(s: Seq<CounterModel>, id: u128) -> Seq<CounterModel> {
    if !has_id(s, id) {
        s
    } else {
        let i = index_of_id(s, id);
        s.remove(i).push(s[i])
    }
}

/// Owns the ordered counter collection. Order is significant (it is the
/// display order and the subject of the move operations); ids are
/// pairwise distinct at all times.
pub struct CounterStore {
    entries: Vec<Counter>,
}

impl View for CounterStore {
    type V = Seq<CounterModel>;

    closed spec fn view(&self) -> Seq<CounterModel> {
        models_of(self.entries@)
    }
}

impl CounterStore {
    /// The collection invariant: ids pairwise distinct.
    pub open spec fn wf(&self) -> bool {
        ids_distinct(self@)
    }

    /// An empty store.
    pub fn new() -> (store: CounterStore)
        ensures
            store@ == Seq::<CounterModel>::empty(),
            store.wf(),
    {
        let store = CounterStore { entries: Vec::new() };
        proof {
            assert(store@ =~= Seq::<CounterModel>::empty());
        }
        store
    }

    /// Number of counters held.
    pub fn len(&self) -> (n: usize)
        ensures
            n == self@.len(),
    {
        self.entries.len()
    }

    /// Read access to the ordered collection.
    pub fn entries(&self) -> (v: &Vec<Counter>)
        ensures
            models_of(v@) == self@,
    {
        &self.entries
    }

    /// Index of the first entry carrying the id, if any.
    fn position_of(&self, id: u128) -> (r: Option<usize>)
        ensures
            match r {
                Some(i) => i < self@.len() && self@[i as int].id == id && forall|j: int|
                    0 <= j < i ==> self@[j].id != id,
                None => !has_id(self@, id),
            },
    {
        let n = self.entries.len();
        let mut k: usize = 0;
        while k < n
            invariant
                n == self@.len(),
                k <= n,
                forall|j: int| 0 <= j < k ==> self@[j].id != id,
            decreases n - k,
        {
            if self.entries[k].id == id {
                return Some(k);
            }
            k += 1;
        }
        None
    }

    /// Whether some entry carries the id.
    pub fn contains_id(&self, id: u128) -> (r: bool)
        ensures
            r == has_id(self@, id),
    {
        self.position_of(id).is_some()
    }

    /// The entry carrying the id, when one is held.
    pub fn get(&self, id: u128) -> (r: Option<&Counter>)
        requires
            self.wf(),
        ensures
            match r {
                Some(c) => has_id(self@, id) && c@ == self@[index_of_id(self@, id)],
                None => !has_id(self@, id),
            },
    {
        match self.position_of(id) {
            None => None,
            Some(i) => {
                proof {
                    lemma_at_unique_index(self@, id, i as int);
                }
                Some(&self.entries[i])
            },
        }
    }

    /// Appends the counter, unless its id is already taken: ids stay
    /// pairwise distinct, so a duplicate (which a random draw could in
    /// principle produce) leaves the store unchanged and is reported.
    pub fn add(&mut self, counter: Counter) -> (added: bool)
        requires
            old(self).wf(),
        ensures
            added == !has_id(old(self)@, counter@.id),
            added ==> final(self)@ == old(self)@.push(counter@),
            !added ==> final(self)@ == old(self)@,
            final(self).wf(),
    {
        let ghost s0 = self@;
        if self.contains_id(counter.id) {
            return false;
        }
        self.entries.push(counter);
        proof {
            assert(self@ =~= s0.push(counter@));
        }
        true
    }

    /// Guarded increment: one more on the entry carrying the id, unless
    /// the count is already at the maximum representable value (then a
    /// no-op, not a wrap); a no-op as well when no entry carries the id.
    pub fn increment(&mut self, id: u128)
        requires
            old(self).wf(),
        ensures
            final(self)@ == increment_model(old(self)@, id),
            final(self).wf(),
    {
        let ghost s0 = self@;
        match self.position_of(id) {
            None => {
                proof {
                    assert(increment_model(s0, id) =~= s0);
                }
            },
            Some(i) => {
                proof {
                    lemma_only_index(s0, id, i as int);
                }
                if self.entries[i].count < usize::MAX {
                    let c: usize = self.entries[i].count;
                    self.entries[i].count = c + 1;
                }
                proof {
                    assert(self@ =~= increment_model(s0, id));
                }
            },
        }
    }

    /// Guarded decrement: one less on the entry carrying the id, unless
    /// the count is already zero (then a no-op, never negative); a no-op
    /// as well when no entry carries the id.
    pub fn decrement(&mut self, id: u128)
        requires
            old(self).wf(),
        ensures
            final(self)@ == decrement_model(old(self)@, id),
            final(self).wf(),
    {
        let ghost s0 = self@;
        match self.position_of(id) {
            None => {
                proof {
                    assert(decrement_model(s0, id) =~= s0);
                }
            },
            Some(i) => {
                proof {
                    lemma_only_index(s0, id, i as int);
                }
                if self.entries[i].count > 0 {
                    let c: usize = self.entries[i].count;
                    self.entries[i].count = c - 1;
                }
                proof {
                    assert(self@ =~= decrement_model(s0, id));
                }
            },
        }
    }

    /// Replaces the title of the entry carrying the id, verbatim; a
    /// no-op when no entry carries it.
    pub fn set_title(&mut self, id: u128, title: String)
        requires
            old(self).wf(),
        ensures
            final(self)@ == set_title_model(old(self)@, id, title@),
            final(self).wf(),
    {
        let ghost s0 = self@;
        match self.position_of(id) {
            None => {
                proof {
                    assert(set_title_model(s0, id, title@) =~= s0);
                }
            },
            Some(i) => {
                proof {
                    lemma_only_index(s0, id, i as int);
                }
                self.entries[i].title = title;
                proof {
                    assert(self@ =~= set_title_model(s0, id, title@));
                }
            },
        }
    }

    /// Replaces the count of the entry carrying the id with the given
    /// value directly (not a delta); a no-op when no entry carries it.
    pub fn set_value(&mut self, id: u128, value: usize)
        requires
            old(self).wf(),
        ensures
            final(self)@ == set_value_model(old(self)@, id, value as nat),
            final(self).wf(),
    {
        let ghost s0 = self@;
        match self.position_of(id) {
            None => {
                proof {
                    assert(set_value_model(s0, id, value as nat) =~= s0);
                }
            },
            Some(i) => {
                proof {
                    lemma_only_index(s0, id, i as int);
                }
                self.entries[i].count = value;
                proof {
                    assert(self@ =~= set_value_model(s0, id, value as nat));
                }
            },
        }
    }

    /// Replaces the color tag of the entry carrying the id; a no-op
    /// when no entry carries it.
    pub fn set_color(&mut self, id: u128, color: Color)
        requires
            old(self).wf(),
        ensures
            final(self)@ == set_color_model(old(self)@, id, color),
            final(self).wf(),
    {
        let ghost s0 = self@;
        match self.position_of(id) {
            None => {
                proof {
                    assert(set_color_model(s0, id, color) =~= s0);
                }
            },
            Some(i) => {
                proof {
                    lemma_only_index(s0, id, i as int);
                }
                self.entries[i].color = color;
                proof {
                    assert(self@ =~= set_color_model(s0, id, color));
                }
            },
        }
    }
}

impl CounterStore {
    /// Removes the entry carrying the id; a no-op when no entry
    /// carries it.
    pub fn delete(&mut self, id: u128)
        requires
            old(self).wf(),
        ensures
            final(self)@ == delete_model(old(self)@, id),
            final(self).wf(),
    {
        let ghost s0 = self@;
        match self.position_of(id) {
            None => {
                proof {
                    lemma_delete_absent(s0, id);
                }
            },
            Some(i) => {
                proof {
                    lemma_only_index(s0, id, i as int);
                    lemma_delete_present(s0, id, i as int);
                }
                self.entries.remove(i);
                proof {
                    assert(self@ =~= s0.remove(i as int));
                    assert(delete_model(s0, id) =~= s0.remove(i as int));
                }
            },
        }
    }

    /// Swaps the entry carrying the id with its immediate predecessor;
    /// a no-op when it is already first or when no entry carries the id.
    pub fn move_up(&mut self, id: u128)
        requires
            old(self).wf(),
        ensures
            final(self)@ == move_up_model(old(self)@, id),
            final(self).wf(),
    {
        let ghost s0 = self@;
        match self.position_of(id) {
            None => {},
            Some(i) => {
                proof {
                    lemma_at_unique_index(s0, id, i as int);
                }
                if i > 0 {
                    let c = self.entries.remove(i);
                    self.entries.insert(i - 1, c);
                    proof {
                        assert(self@ =~= s0.update(i as int, s0[i as int - 1]).update(
                            i as int - 1,
                            s0[i as int],
                        ));
                    }
                }
            },
        }
    }

    /// Swaps the entry carrying the id with its immediate successor;
    /// a no-op when it is already last or when no entry carries the id.
    pub fn move_down(&mut self, id: u128)
        requires
            old(self).wf(),
        ensures
            final(self)@ == move_down_model(old(self)@, id),
            final(self).wf(),
    {
        let ghost s0 = self@;
        match self.position_of(id) {
            None => {},
            Some(i) => {
                let n = self.entries.len();
                proof {
                    lemma_at_unique_index(s0, id, i as int);
                    assert(i < n);
                }
                if i + 1 < n {
                    let c = self.entries.remove(i);
                    self.entries.insert(i + 1, c);
                    proof {
                        assert(self@ =~= s0.update(i as int, s0[i as int + 1]).update(
                            i as int + 1,
                            s0[i as int],
                        ));
                    }
                }
            },
        }
    }

    /// Removes the entry carrying the id from its position and reinserts
    /// it first; a no-op when no entry carries the id.
    pub fn move_top(&mut self, id: u128)
        requires
            old(self).wf(),
        ensures
            final(self)@ == move_top_model(old(self)@, id),
            final(self).wf(),
    {
        let ghost s0 = self@;
        match self.position_of(id) {
            None => {},
            Some(i) => {
                proof {
                    lemma_at_unique_index(s0, id, i as int);
                }
                let c = self.entries.remove(i);
                self.entries.insert(0, c);
                proof {
                    assert(self@ =~= s0.remove(i as int).insert(0, s0[i as int]));
                }
            },
        }
    }

    /// Removes the entry carrying the id from its position and reinserts
    /// it last; a no-op when no entry carries the id.
    pub fn move_bottom(&mut self, id: u128)
        requires
            old(self).wf(),
        ensures
            final(self)@ == move_bottom_model(old(self)@, id),
            final(self).wf(),
    {
        let ghost s0 = self@;
        match self.position_of(id) {
            None => {},
            Some(i) => {
                proof {
                    lemma_at_unique_index(s0, id, i as int);
                }
                let c = self.entries.remove(i);
                self.entries.push(c);
                proof {
                    assert(self@ =~= s0.remove(i as int).push(s0[i as int]));
                }
            },
        }
    }

    /// Replaces the whole collection with the supplied ordering. The
    /// caller supplies a permutation of the held ids: the multiset of
    /// ids before and after is identical.
    pub fn reorder(&mut self, new_entries: Vec<Counter>)
        requires
            old(self).wf(),
            ids(models_of(new_entries@)).to_multiset() == ids(old(self)@).to_multiset(),
        ensures
            final(self)@ == models_of(new_entries@),
            ids(final(self)@).to_multiset() == ids(old(self)@).to_multiset(),
            final(self).wf(),
    {
        let ghost s0 = self@;
        self.entries = new_entries;
        proof {
            lemma_same_id_multiset_distinct(s0, self@);
        }
    }
}

/// Law: appending a counter whose id is not yet held keeps ids pairwise
/// distinct. Together with `CounterStore::add`, which rejects a held id,
/// any sequence of additions leaves the ids pairwise distinct.
pub proof fn lemma_add_keeps_ids_distinct(s: Seq<CounterModel>, c: CounterModel)
    requires
        ids_distinct(s),
        !has_id(s, c.id),
    ensures
        ids_distinct(s.push(c)),
{
    assert forall|a: int, b: int| 0 <= a < b < s.push(c).len() implies s.push(c)[a].id != s.push(
        c,
    )[b].id by {
        if b == s.len() {
            assert(s.push(c)[a] == s[a]);
            if s[a].id == c.id {
                assert(0 <= a < s.len() && s[a].id == c.id);
                assert(has_id(s, c.id));
            }
        }
    }
}

/// Law: increment then decrement on the same id returns every count to
/// its original value, provided no entry carrying the id sits at the
/// saturation boundary.
pub proof fn lemma_increment_then_decrement(s: Seq<CounterModel>, id: u128)
    requires
        forall|j: int| 0 <= j < s.len() && s[j].id == id ==> s[j].count < usize::MAX,
    ensures
        decrement_model(increment_model(s, id), id) == s,
{
    assert(decrement_model(increment_model(s, id), id) =~= s);
}

/// Law: increment is guarded, not wrapping — at the maximum
/// representable count it is a no-op.
pub proof fn lemma_increment_saturates(s: Seq<CounterModel>, id: u128)
    requires
        forall|j: int| 0 <= j < s.len() && s[j].id == id ==> s[j].count == usize::MAX,
    ensures
        increment_model(s, id) == s,
{
    assert(increment_model(s, id) =~= s);
}

/// Law: decrement is guarded against underflow — at count zero it is
/// a no-op, and a count never becomes negative.
pub proof fn lemma_decrement_at_zero(s: Seq<CounterModel>, id: u128)
    requires
        forall|j: int| 0 <= j < s.len() && s[j].id == id ==> s[j].count == 0,
    ensures
        decrement_model(s, id) == s,
{
    assert(decrement_model(s, id) =~= s);
}

/// Law: increment never pushes a count past the maximum representable
/// value, and decrement never pushes one below zero.
pub proof fn lemma_counts_stay_in_range(s: Seq<CounterModel>, id: u128)
    requires
        forall|j: int| 0 <= j < s.len() ==> s[j].count <= usize::MAX,
    ensures
        forall|j: int|
            0 <= j < s.len() ==> #[trigger] increment_model(s, id)[j].count <= usize::MAX,
        forall|j: int|
            0 <= j < s.len() ==> #[trigger] decrement_model(s, id)[j].count <= usize::MAX,
{
}

/// Law: moving an entry to the top twice is the same as moving it once:
/// after the first move the entry is already first, and the second move
/// removes it from the front and reinserts it there.
pub proof fn lemma_move_top_idempotent(s: Seq<CounterModel>, id: u128)
    requires
        ids_distinct(s),
    ensures
        move_top_model(move_top_model(s, id), id) == move_top_model(s, id),
{
    if has_id(s, id) {
        let i = index_of_id(s, id);
        assert(0 <= i < s.len() && s[i].id == id);
        lemma_at_unique_index(s, id, i);
        let t = move_top_model(s, id);
        assert(t == s.remove(i).insert(0, s[i]));
        assert(t[0] == s[i]);
        assert(ids_distinct(t));
        lemma_at_unique_index(t, id, 0);
        assert(move_top_model(t, id) == t.remove(0).insert(0, t[0]));
        assert(t.remove(0).insert(0, t[0]) =~= t);
    }
}

/// Under distinct ids, an index carrying the id is the only one.
proof fn lemma_only_index(s: Seq<CounterModel>, id: u128, i: int)
    requires
        ids_distinct(s),
        0 <= i < s.len(),
        s[i].id == id,
    ensures
        forall|j: int| 0 <= j < s.len() && j != i ==> s[j].id != id,
{
    assert forall|j: int| 0 <= j < s.len() && j != i implies s[j].id != id by {
        if j < i {
            assert(s[j].id != s[i].id);
        } else {
            assert(s[i].id != s[j].id);
        }
    }
}

/// Under distinct ids, `index_of_id` picks exactly the index that
/// carries the id.
proof fn lemma_at_unique_index(s: Seq<CounterModel>, id: u128, i: int)
    requires
        ids_distinct(s),
        0 <= i < s.len(),
        s[i].id == id,
    ensures
        has_id(s, id),
        index_of_id(s, id) == i,
        forall|j: int| 0 <= j < s.len() && j != i ==> s[j].id != id,
{
    lemma_only_index(s, id, i);
    assert(has_id(s, id));
    let k = index_of_id(s, id);
    assert(0 <= k < s.len() && s[k].id == id);
    assert(k == i);
}

/// A filter that keeps every entry returns the sequence itself.
proof fn lemma_delete_absent(s: Seq<CounterModel>, id: u128)
    requires
        forall|j: int| 0 <= j < s.len() ==> s[j].id != id,
    ensures
        delete_model(s, id) == s,
    decreases s.len(),
{
    reveal(Seq::filter);
    if s.len() == 0 {
        assert(delete_model(s, id) =~= s);
    } else {
        lemma_delete_absent(s.drop_last(), id);
        assert(keeps(id)(s.last()));
        assert(delete_model(s, id) =~= s.drop_last().push(s.last()));
        assert(delete_model(s, id) =~= s);
    }
}

/// A filter that drops exactly one entry returns the sequence with
/// that entry removed.
proof fn lemma_delete_present(s: Seq<CounterModel>, id: u128, i: int)
    requires
        0 <= i < s.len(),
        s[i].id == id,
        forall|j: int| 0 <= j < s.len() && j != i ==> s[j].id != id,
    ensures
        delete_model(s, id) == s.remove(i),
    decreases s.len(),
{
    reveal(Seq::filter);
    if i == s.len() - 1 {
        assert(!keeps(id)(s.last()));
        assert(delete_model(s, id) == s.drop_last().filter(keeps(id)));
        lemma_delete_absent(s.drop_last(), id);
        assert(delete_model(s, id) =~= s.remove(i));
    } else {
        assert(keeps(id)(s.last()));
        assert(delete_model(s, id) == s.drop_last().filter(keeps(id)).push(s.last()));
        lemma_delete_present(s.drop_last(), id, i);
        assert(delete_model(s, id) =~= s.drop_last().remove(i).push(s.last()));
        assert(s.drop_last().remove(i).push(s.last()) =~= s.remove(i));
    }
}

/// The ids of a sequence, as a sequence, are without duplicates
/// exactly when the entries' ids are pairwise distinct.
proof fn lemma_ids_distinct_iff_no_dup(s: Seq<CounterModel>)
    ensures
        ids_distinct(s) <==> ids(s).no_duplicates(),
{
    if ids_distinct(s) {
        assert forall|i: int, j: int|
            0 <= i < ids(s).len() && 0 <= j < ids(s).len() && i != j implies ids(s)[i] != ids(
            s,
        )[j] by {
            if i < j {
                assert(s[i].id != s[j].id);
            } else {
                assert(s[j].id != s[i].id);
            }
        }
    }
    if ids(s).no_duplicates() {
        assert forall|i: int, j: int| 0 <= i < j < s.len() implies s[i].id != s[j].id by {
            assert(ids(s)[i] != ids(s)[j]);
        }
    }
}

/// A sequence whose id multiset equals that of a sequence with pairwise
/// distinct ids has pairwise distinct ids itself.
proof fn lemma_same_id_multiset_distinct(s: Seq<CounterModel>, t: Seq<CounterModel>)
    requires
        ids_distinct(s),
        ids(t).to_multiset() == ids(s).to_multiset(),
    ensures
        ids_distinct(t),
{
    lemma_ids_distinct_iff_no_dup(s);
    ids(s).lemma_multiset_has_no_duplicates();
    assert forall|x: u128| ids(t).to_multiset().contains(x) implies ids(t).to_multiset().count(x)
        == 1 by {
        assert(ids(s).to_multiset().contains(x));
    }
    ids(t).lemma_multiset_has_no_duplicates_conv();
    lemma_ids_distinct_iff_no_dup(t);
}

} // verus!
