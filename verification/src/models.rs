//! Data model: the closed set of color tags and the counter entity.

use vstd::prelude::*;
use vstd::string::StringExecFns;

verus! {

/// Color tag of a counter. A fixed, closed set of seven values:
/// one default/system value plus six named hues. Colors carry no
/// numeric meaning; they serve display and filtering only.
#[derive(Clone, Copy, Debug, PartialEq, Eq, Structural)]
pub enum Color {
    System,
    Red,
    Orange,
    Yellow,
    Green,
    Blue,
    Purple,
}

impl Default for Color {
    /// The documented default color is the system value.
    fn default() -> (c: Color)
        ensures
            c == Color::System,
    {
        Color::System
    }
}

/// Every color, in declaration order. Replaces iteration over the enum:
/// the set is closed, so the list is written out and proved complete.
pub fn all_colors() -> (v: Vec<Color>)
    ensures
        v@ == seq![
            Color::System,
            Color::Red,
            Color::Orange,
            Color::Yellow,
            Color::Green,
            Color::Blue,
            Color::Purple,
        ],
{
    let mut v: Vec<Color> = Vec::new();
    v.push(Color::System);
    v.push(Color::Red);
    v.push(Color::Orange);
    v.push(Color::Yellow);
    v.push(Color::Green);
    v.push(Color::Blue);
    v.push(Color::Purple);
    proof {
        assert(v@ =~= seq![
            Color::System,
            Color::Red,
            Color::Orange,
            Color::Yellow,
            Color::Green,
            Color::Blue,
            Color::Purple,
        ]);
    }
    v
}

/// Mathematical model of a counter: the identifier, the title as a
/// character sequence, the count as an unbounded natural, and the color.
pub struct CounterModel {
    pub id: u128,
    pub title: Seq<char>,
    pub count: nat,
    pub color: Color,
}

/// The models of a sequence of counters, in order.
pub open spec fn models_of(v: Seq<Counter>) -> Seq<CounterModel> {
    v.map(|i: int, c: Counter| c@)
}

/// A titled, colored, integer-valued entry in the managed list.
/// The `id` is assigned at creation and never changes; every mutation
/// of the list locates its entry by it.
#[derive(Debug)]
pub struct Counter {
    pub id: u128,
    pub title: String,
    pub count: usize,
    pub color: Color,
}

impl View for Counter {
    type V = CounterModel;

    open spec fn view(&self) -> CounterModel {
        CounterModel {
            id: self.id,
            title: self.title@,
            count: self.count as nat,
            color: self.color,
        }
    }
}

impl Clone for Counter {
    fn clone(&self) -> (c: Counter)
        ensures
            c@ == self@,
    {
        Counter {
            id: self.id,
            title: self.title.clone(),
            count: self.count,
            color: self.color,
        }
    }
}

/// Relies on uuid::Uuid::new_v4, which draws a random version-4 UUID,
/// converted to its 128-bit value. The value is random: nothing is
/// promised of it.
#[verifier::external_body]
fn random_uuid_value() -> (r: u128) {
    uuid::Uuid::new_v4().as_u128()
}

impl Counter {
    /// A fresh counter: randomly drawn id, placeholder title, count zero,
    /// default color. Nothing is promised of the id value itself;
    /// the store rejects a duplicate when the counter is added.
    pub fn new() -> (c: Counter)
        ensures
            c@.title == "Untitled"@,
            c@.count == 0,
            c@.color == Color::System,
    {
        Counter {
            id: random_uuid_value(),
            title: String::from_str("Untitled"),
            count: 0,
            color: Color::System,
        }
    }
}

impl Default for Counter {
    /// Same defaults as `Counter::new`.
    fn default() -> (c: Counter)
        ensures
            c@.title == "Untitled"@,
            c@.count == 0,
            c@.color == Color::System,
    {
        Counter::new()
    }
}

} // verus!
