//! Filter engine: derives a read-only view of the counters that should
//! be visible, from two independent criteria — a set of selected colors
//! and a text criterion. A counter is shown when its color is selected
//! OR its title contains a non-empty text criterion as a substring
//! (case-sensitive). The engine never mutates the collection.

use vstd::prelude::*;

use crate::models::{models_of, Color, Counter, CounterModel};

verus! {

/// Mathematical model of the filter criteria: the set of selected
/// colors and the text criterion as a character sequence.
pub struct FilterModel {
    pub selected: Set<Color>,
    pub text: Seq<char>,
}

/// The needle occurs in the hay as a contiguous run of characters.
pub open spec fn contains_seq(hay: Seq<char>, needle: Seq<char>) -> bool {
    exists|k: int|
        0 <= k && k + needle.len() <= hay.len() && #[trigger] hay.subrange(k, k + needle.len())
            == needle
}

/// A counter is visible when its color is selected, or the text
/// criterion is non-empty and occurs in its title. The two criteria
/// are independent and joined by OR, not AND.
pub open spec fn matches_model(c: CounterModel, f: FilterModel) -> bool {
    f.selected.contains(c.color) || (f.text.len() > 0 && contains_seq(c.title, f.text))
}

/// The visibility predicate of a filter, as a function on counters.
pub open spec fn accepted_by(f: FilterModel) -> spec_fn(CounterModel) -> bool {
    |c: CounterModel| matches_model(c, f)
}

/// The visible subsequence: exactly the counters the filter accepts,
/// in collection order.
pub open spec fn compute_model(s: Seq<CounterModel>, f: FilterModel) -> Seq<CounterModel> {
    s.filter(accepted_by(f))
}

/// Transient filter criteria: one selected flag per color (all false
/// initially) plus a free-text criterion (empty initially).
pub struct FilterState {
    system: bool,
    red: bool,
    orange: bool,
    yellow: bool,
    green: bool,
    blue: bool,
    purple: bool,
    text: String,
}

impl FilterState {
    /// The flag held for a color.
    pub closed spec fn flag_of(&self, color: Color) -> bool {
        match color {
            Color::System => self.system,
            Color::Red => self.red,
            Color::Orange => self.orange,
            Color::Yellow => self.yellow,
            Color::Green => self.green,
            Color::Blue => self.blue,
            Color::Purple => self.purple,
        }
    }
}

impl View for FilterState {
    type V = FilterModel;

    closed spec fn view(&self) -> FilterModel {
        FilterModel { selected: Set::new(|color: Color| self.flag_of(color)), text: self.text@ }
    }
}

impl FilterState {
    /// The initial criteria: no color selected, empty text.
    pub fn new() -> (f: FilterState)
        ensures
            f@.selected == Set::<Color>::empty(),
            f@.text == Seq::<char>::empty(),
    {
        let f = FilterState {
            system: false,
            red: false,
            orange: false,
            yellow: false,
            green: false,
            blue: false,
            purple: false,
            text: String::new(),
        };
        proof {
            assert(f@.selected =~= Set::<Color>::empty());
        }
        f
    }

    /// Whether the color's flag is set.
    pub fn is_color_selected(&self, color: Color) -> (r: bool)
        ensures
            r == self@.selected.contains(color),
    {
        match color {
            Color::System => self.system,
            Color::Red => self.red,
            Color::Orange => self.orange,
            Color::Yellow => self.yellow,
            Color::Green => self.green,
            Color::Blue => self.blue,
            Color::Purple => self.purple,
        }
    }

    /// The current text criterion.
    pub fn text(&self) -> (t: &String)
        ensures
            t@ == self@.text,
    {
        &self.text
    }

    /// Flips the selected flag of one color; the other flags and the
    /// text criterion are unchanged.
    pub fn toggle_color(&mut self, color: Color)
        ensures
            final(self)@.selected == (if old(self)@.selected.contains(color) {
                old(self)@.selected.remove(color)
            } else {
                old(self)@.selected.insert(color)
            }),
            final(self)@.text == old(self)@.text,
    {
        match color {
            Color::System => {
                self.system = !self.system;
            },
            Color::Red => {
                self.red = !self.red;
            },
            Color::Orange => {
                self.orange = !self.orange;
            },
            Color::Yellow => {
                self.yellow = !self.yellow;
            },
            Color::Green => {
                self.green = !self.green;
            },
            Color::Blue => {
                self.blue = !self.blue;
            },
            Color::Purple => {
                self.purple = !self.purple;
            },
        }
        proof {
            if old(self)@.selected.contains(color) {
                assert(self@.selected =~= old(self)@.selected.remove(color));
            } else {
                assert(self@.selected =~= old(self)@.selected.insert(color));
            }
        }
    }

    /// Replaces the text criterion verbatim.
    pub fn set_text(&mut self, text: String)
        ensures
            final(self)@.text == text@,
            final(self)@.selected == old(self)@.selected,
    {
        self.text = text;
        proof {
            assert(self@.selected =~= old(self)@.selected);
        }
    }
}

/// Whether the needle occurs in the hay as a contiguous substring,
/// character-wise and case-sensitive.
pub fn contains_substr(hay: &str, needle: &str) -> (r: bool)
    ensures
        r == contains_seq(hay@, needle@),
{
    let h = hay.unicode_len();
    let n = needle.unicode_len();
    if n > h {
        proof {
            assert(!contains_seq(hay@, needle@));
        }
        return false;
    }
    let mut k: usize = 0;
    while k <= h - n
        invariant
            n <= h,
            h == hay@.len(),
            n == needle@.len(),
            k <= h - n + 1,
            forall|p: int|
                0 <= p < k ==> #[trigger] hay@.subrange(p, p + needle@.len()) != needle@,
        decreases h - n - k + 1,
    {
        let mut j: usize = 0;
        let mut hit = true;
        while j < n
            invariant
                n <= h,
                h == hay@.len(),
                n == needle@.len(),
                k + n <= h,
                j <= n,
                hit <==> forall|q: int| 0 <= q < j ==> hay@[k + q] == needle@[q],
            decreases n - j,
        {
            if hay.get_char(k + j) != needle.get_char(j) {
                hit = false;
                proof {
                    assert(hay@[k + j as int] != needle@[j as int]);
                }
                j = n;
            } else {
                proof {
                    assert(hay@[k + j as int] == needle@[j as int]);
                }
                j += 1;
            }
        }
        if hit {
            proof {
                assert(hay@.subrange(k as int, k + needle@.len()) =~= needle@);
            }
            return true;
        }
        proof {
            assert(hay@.subrange(k as int, k + needle@.len()) != needle@);
        }
        k += 1;
    }
    proof {
        assert forall|p: int| 0 <= p && p + needle@.len() <= hay@.len() implies #[trigger] hay@.subrange(
            p,
            p + needle@.len(),
        ) != needle@ by {
            assert(p < k);
        }
    }
    false
}

/// Whether the filter shows the counter: its color is selected, or the
/// text criterion is non-empty and occurs in its title.
pub fn matches_filter(counter: &Counter, filter: &FilterState) -> (r: bool)
    ensures
        r == matches_model(counter@, filter@),
{
    if filter.is_color_selected(counter.color) {
        return true;
    }
    let text = filter.text();
    if text.as_str().unicode_len() == 0 {
        return false;
    }
    contains_substr(counter.title.as_str(), text.as_str())
}

/// The filtered view: exactly the counters the filter accepts, in
/// collection order, the collection itself untouched.
pub fn compute(counters: &Vec<Counter>, filter: &FilterState) -> (r: Vec<Counter>)
    ensures
        models_of(r@) == compute_model(models_of(counters@), filter@),
{
    let ghost s = models_of(counters@);
    let ghost pred = accepted_by(filter@);
    let mut out: Vec<Counter> = Vec::new();
    let n = counters.len();
    let mut k: usize = 0;
    proof {
        assert(models_of(out@) =~= s.take(0));
        reveal(Seq::filter);
        assert(s.take(0).filter(pred) =~= Seq::<CounterModel>::empty());
        assert(models_of(out@) =~= s.take(0).filter(pred));
    }
    while k < n
        invariant
            n == counters@.len(),
            s == models_of(counters@),
            pred == accepted_by(filter@),
            k <= n,
            models_of(out@) == s.take(k as int).filter(pred),
        decreases n - k,
    {
        let ghost out0 = models_of(out@);
        let c = &counters[k];
        if matches_filter(c, filter) {
            out.push(c.clone());
            proof {
                assert(models_of(out@) =~= out0.push(c@));
            }
        }
        proof {
            reveal(Seq::filter);
            let tk = s.take(k as int);
            let tk1 = s.take(k as int + 1);
            assert(tk1.drop_last() =~= tk);
            assert(tk1.last() == s[k as int]);
            assert(tk1.filter(pred) == (if pred(s[k as int]) {
                tk.filter(pred).push(s[k as int])
            } else {
                tk.filter(pred)
            }));
            assert(s[k as int] == c@);
            assert(models_of(out@) =~= tk1.filter(pred));
        }
        k += 1;
    }
    proof {
        assert(s.take(n as int) =~= s);
    }
    out
}

/// Law: with no color selected and an empty text criterion, the
/// predicate rejects every counter: the computed view is empty, not
/// "show all".
pub proof fn lemma_no_criteria_yields_empty(s: Seq<CounterModel>, f: FilterModel)
    requires
        f.selected == Set::<Color>::empty(),
        f.text.len() == 0,
    ensures
        compute_model(s, f) == Seq::<CounterModel>::empty(),
    decreases s.len(),
{
    reveal(Seq::filter);
    if s.len() == 0 {
        assert(compute_model(s, f) =~= Seq::<CounterModel>::empty());
    } else {
        lemma_no_criteria_yields_empty(s.drop_last(), f);
        assert(!matches_model(s.last(), f));
        assert(compute_model(s, f) =~= Seq::<CounterModel>::empty());
    }
}

/// A filtered sequence holds an element exactly when the sequence holds
/// it and the predicate accepts it.
proof fn lemma_filter_membership(s: Seq<CounterModel>, p: spec_fn(CounterModel) -> bool)
    ensures
        forall|c: CounterModel| #[trigger] s.filter(p).contains(c) <==> (s.contains(c) && p(c)),
    decreases s.len(),
{
    reveal(Seq::filter);
    if s.len() == 0 {
        assert(s.filter(p).len() == 0);
    } else {
        let d = s.drop_last();
        let fd = d.filter(p);
        lemma_filter_membership(d, p);
        assert forall|c: CounterModel| #[trigger]
            s.filter(p).contains(c) <==> (s.contains(c) && p(c)) by {
            let fs = s.filter(p);
            if fs.contains(c) {
                let i = choose|i: int| 0 <= i < fs.len() && fs[i] == c;
                if p(s.last()) && i == fs.len() - 1 {
                    assert(c == s.last());
                    assert(s[s.len() - 1] == c);
                    assert(s.contains(c));
                } else {
                    assert(fd[i] == c);
                    assert(fd.contains(c));
                    assert(d.contains(c) && p(c));
                    let j = choose|j: int| 0 <= j < d.len() && d[j] == c;
                    assert(s[j] == c);
                    assert(s.contains(c));
                }
            }
            if s.contains(c) && p(c) {
                let j = choose|j: int| 0 <= j < s.len() && s[j] == c;
                if j == s.len() - 1 {
                    assert(fs[fs.len() - 1] == c);
                    assert(fs.contains(c));
                } else {
                    assert(d[j] == c);
                    assert(d.contains(c));
                    assert(fd.contains(c));
                    let i = choose|i: int| 0 <= i < fd.len() && fd[i] == c;
                    assert(fs[i] == c);
                    assert(fs.contains(c));
                }
            }
        }
    }
}

/// Filtering keeps pairwise distinct ids pairwise distinct: the view is
/// a subsequence, so no entry is shown twice.
proof fn lemma_filter_keeps_distinct_ids(s: Seq<CounterModel>, p: spec_fn(CounterModel) -> bool)
    requires
        crate::store::ids_distinct(s),
    ensures
        crate::store::ids_distinct(s.filter(p)),
    decreases s.len(),
{
    reveal(Seq::filter);
    if s.len() > 0 {
        let d = s.drop_last();
        let fd = d.filter(p);
        assert(crate::store::ids_distinct(d));
        lemma_filter_keeps_distinct_ids(d, p);
        lemma_filter_membership(d, p);
        if p(s.last()) {
            let fs = fd.push(s.last());
            assert forall|a: int, b: int| 0 <= a < b < fs.len() implies fs[a].id != fs[b].id by {
                if b == fd.len() {
                    assert(fd.contains(fd[a]));
                    assert(d.contains(fd[a]));
                    let j = choose|j: int| 0 <= j < d.len() && d[j] == fd[a];
                    assert(s[j] == fd[a]);
                    assert(s[j].id != s[s.len() - 1].id);
                }
            }
            assert(crate::store::ids_distinct(s.filter(p)));
        }
    }
}

/// Law: with exactly one color selected, the computed view holds exactly
/// the counters of that color, together with those whose title contains
/// the non-empty text criterion — the union of the two criteria — and
/// pairwise distinct ids stay pairwise distinct, so no counter is shown
/// twice.
pub proof fn lemma_single_color_selection(s: Seq<CounterModel>, f: FilterModel, color: Color)
    requires
        f.selected == set![color],
    ensures
        forall|c: CounterModel| #[trigger]
            compute_model(s, f).contains(c) <==> (s.contains(c) && (c.color == color || (
            f.text.len() > 0 && contains_seq(c.title, f.text)))),
        crate::store::ids_distinct(s) ==> crate::store::ids_distinct(compute_model(s, f)),
{
    lemma_filter_membership(s, accepted_by(f));
    assert forall|c: CounterModel|
        matches_model(c, f) == (c.color == color || (f.text.len() > 0 && contains_seq(
            c.title,
            f.text,
        ))) by {
        assert(f.selected.contains(c.color) <==> c.color == color);
    }
    if crate::store::ids_distinct(s) {
        lemma_filter_keeps_distinct_ids(s, accepted_by(f));
    }
}

} // verus!
