use vstd::prelude::*;

verus! {

/// A point of the normalized timeline `[0, 1]`, held exactly as `num / den`.
#[derive(Clone, Copy, Debug, PartialEq, Eq, Structural)]
pub struct Ratio {
    pub num: u64,
    pub den: u64,
}

impl Ratio {
    /// `self <= other` as rational numbers (both denominators positive).
    pub open spec fn le(self, other: Ratio) -> bool {
        self.num * other.den <= other.num * self.den
    }

    pub fn new(num: u64, den: u64) -> (r: Ratio)
        ensures
            r == (Ratio { num, den }),
    {
        Ratio { num, den }
    }

    pub fn zero() -> (r: Ratio)
        ensures
            r == (Ratio { num: 0, den: 1 }),
    {
        Ratio { num: 0, den: 1 }
    }

    /// Whether `self <= other`, compared exactly by cross multiplication.
    pub fn at_most(&self, other: &Ratio) -> (r: bool)
        ensures
            r == self.le(*other),
    {
        proof {
            vstd::arithmetic::mul::lemma_mul_upper_bound(
                self.num as int, u64::MAX as int, other.den as int, u64::MAX as int);
            vstd::arithmetic::mul::lemma_mul_upper_bound(
                other.num as int, u64::MAX as int, self.den as int, u64::MAX as int);
            assert(u64::MAX as int * u64::MAX as int <= u128::MAX) by (nonlinear_arith);
        }
        (self.num as u128) * (other.den as u128) <= (other.num as u128) * (self.den as u128)
    }
}

/// What an event does to one of its participants.
#[derive(Clone, Debug)]
pub enum Effect {
    NoEffect,
    Death(String),
}

impl View for Effect {
    /// `Some(victim)` for a death, `None` for no effect.
    type V = Option<Seq<char>>;

    open spec fn view(&self) -> Option<Seq<char>> {
        match self {
            Effect::NoEffect => None,
            Effect::Death(c) => Some(c@),
        }
    }
}

impl Effect {

    pub fn copy(&self) -> (r: Effect)
        ensures
            r@ == self@,
    {
        match self {
            Effect::NoEffect => Effect::NoEffect,
            Effect::Death(c) => Effect::Death(c.clone()),
        }
    }
}

/// A member of the cast: a unique name and a faction.
#[derive(Clone, Debug)]
pub struct Character {
    pub name: String,
    pub faction: String,
}

impl View for Character {
    /// Name and faction.
    type V = (Seq<char>, Seq<char>);

    open spec fn view(&self) -> (Seq<char>, Seq<char>) {
        (self.name@, self.faction@)
    }
}

impl Character {
    pub fn new(name: String, faction: String) -> (r: Character)
        ensures
            r@ == (name@, faction@),
    {
        Character { name, faction }
    }

    pub fn copy(&self) -> (r: Character)
        ensures
            r@ == self@,
            r == *self,
    {
        Character { name: self.name.clone(), faction: self.faction.clone() }
    }
}

/// A narrative event: `before` names the events it happens strictly before;
/// `start`, `end` and `track` are its place in the laid-out timeline; `effects`
/// is aligned position by position with `characters`.
#[derive(Clone, Debug)]
pub struct Event {
    pub name: String,
    pub description: String,
    pub before: Vec<String>,
    pub start: Ratio,
    pub end: Ratio,
    pub category: String,
    pub characters: Vec<Character>,
    pub effects: Vec<Effect>,
    pub track: u64,
}

/// The mathematical content of an event.
pub struct EventView {
    pub name: Seq<char>,
    pub description: Seq<char>,
    pub before: Seq<Seq<char>>,
    pub start: Ratio,
    pub end: Ratio,
    pub category: Seq<char>,
    pub characters: Seq<(Seq<char>, Seq<char>)>,
    pub effects: Seq<Option<Seq<char>>>,
    pub track: u64,
}

impl View for Event {
    type V = EventView;

    open spec fn view(&self) -> EventView {
        EventView {
            name: self.name@,
            description: self.description@,
            before: views(self.before@),
            start: self.start,
            end: self.end,
            category: self.category@,
            characters: self.characters@.map_values(|c: Character| c@),
            effects: self.effects@.map_values(|e: Effect| e@),
            track: self.track,
        }
    }
}

/// The views of a list of events.
pub open spec fn events_view(v: Seq<Event>) -> Seq<EventView> {
    v.map_values(|e: Event| e@)
}

/// The views of a list of characters.
pub open spec fn cast_view(v: Seq<Character>) -> Seq<(Seq<char>, Seq<char>)> {
    v.map_values(|c: Character| c@)
}

/// The views of a list of strings.
pub open spec fn views(v: Seq<String>) -> Seq<Seq<char>> {
    v.map_values(|s: String| s@)
}

/// Whether a list of strings holds one whose view is `x`.
pub open spec fn holds_name(v: Seq<String>, x: Seq<char>) -> bool {
    exists|k: int| 0 <= k < v.len() && (#[trigger] v[k])@ == x
}

pub fn copy_strings(v: &Vec<String>) -> (r: Vec<String>)
    ensures
        r@ == v@,
{
    let mut r: Vec<String> = Vec::new();
    let mut i: usize = 0;
    while i < v.len()
        invariant
            i <= v.len(),
            r@ == v@.subrange(0, i as int),
        decreases v.len() - i,
    {
        r.push(v[i].clone());
        i += 1;
    }
    assert(r@ =~= v@);
    r
}

pub fn contains_name(v: &Vec<String>, x: &str) -> (r: bool)
    ensures
        r == holds_name(v@, x@),
{
    let mut i: usize = 0;
    while i < v.len()
        invariant
            i <= v.len(),
            forall|k: int| 0 <= k < i ==> (#[trigger] v@[k])@ != x@,
        decreases v.len() - i,
    {
        if str_eq(v[i].as_str(), x) {
            return true;
        }
        i += 1;
    }
    false
}

/// Equality of two strings by their characters.
pub fn str_eq(a: &str, b: &str) -> (r: bool)
    ensures
        r == (a@ == b@),
{
    let n = a.unicode_len();
    if n != b.unicode_len() {
        return false;
    }
    let mut i: usize = 0;
    while i < n
        invariant
            n == a@.len(),
            n == b@.len(),
            i <= n,
            forall|k: int| 0 <= k < i ==> a@[k] == b@[k],
        decreases n - i,
    {
        if a.get_char(i) != b.get_char(i) {
            return false;
        }
        i += 1;
    }
    assert(a@ =~= b@);
    true
}

impl Event {
    /// An event with the given structure, laid out at `[0, 0]` on track 0.
    pub fn new(
        name: String,
        description: String,
        before: Vec<String>,
        category: String,
        characters: Vec<Character>,
        effects: Vec<Effect>,
    ) -> (r: Event)
        ensures
            r@.name == name@,
            r@.description == description@,
            r@.before == views(before@),
            r@.category == category@,
            r@.characters == cast_view(characters@),
            r@.effects == effects@.map_values(|e: Effect| e@),
            r.start == Ratio::zero_spec(),
            r.end == Ratio::zero_spec(),
            r.track == 0,
    {
        Event {
            name,
            description,
            before,
            start: Ratio::zero(),
            end: Ratio::zero(),
            category,
            characters,
            effects,
            track: 0,
        }
    }

    pub fn copy(&self) -> (r: Event)
        ensures
            r@ == self@,
    {
        let mut characters: Vec<Character> = Vec::new();
        let mut i: usize = 0;
        while i < self.characters.len()
            invariant
                i <= self.characters.len(),
                characters.len() == i,
                forall|k: int| 0 <= k < i ==> (#[trigger] characters@[k])@ == self.characters@[k]@,
            decreases self.characters.len() - i,
        {
            characters.push(self.characters[i].copy());
            i += 1;
        }
        let mut effects: Vec<Effect> = Vec::new();
        let mut j: usize = 0;
        while j < self.effects.len()
            invariant
                j <= self.effects.len(),
                effects.len() == j,
                forall|k: int| 0 <= k < j ==> (#[trigger] effects@[k])@ == self.effects@[k]@,
            decreases self.effects.len() - j,
        {
            effects.push(self.effects[j].copy());
            j += 1;
        }
        assert(cast_view(characters@) =~= cast_view(self.characters@));
        assert(effects@.map_values(|e: Effect| e@) =~= self.effects@.map_values(|e: Effect| e@));
        Event {
            name: self.name.clone(),
            description: self.description.clone(),
            before: copy_strings(&self.before),
            start: self.start,
            end: self.end,
            category: self.category.clone(),
            characters,
            effects,
            track: self.track,
        }
    }
}

impl Ratio {
    pub open spec fn zero_spec() -> Ratio {
        Ratio { num: 0, den: 1 }
    }
}

pub fn copy_events(v: &Vec<Event>) -> (r: Vec<Event>)
    ensures
        events_view(r@) == events_view(v@),
{
    let mut r: Vec<Event> = Vec::new();
    let mut i: usize = 0;
    while i < v.len()
        invariant
            i <= v.len(),
            r.len() == i,
            forall|k: int| 0 <= k < i ==> (#[trigger] r@[k])@ == v@[k]@,
        decreases v.len() - i,
    {
        r.push(v[i].copy());
        i += 1;
    }
    assert(events_view(r@) =~= events_view(v@));
    r
}


pub fn copy_cast(v: &Vec<Character>) -> (r: Vec<Character>)
    ensures
        cast_view(r@) == cast_view(v@),
        r@ == v@,
{
    let mut r: Vec<Character> = Vec::new();
    let mut i: usize = 0;
    while i < v.len()
        invariant
            i <= v.len(),
            r@ == v@.subrange(0, i as int),
        decreases v.len() - i,
    {
        r.push(v[i].copy());
        proof { assert(r@[i as int] == v@[i as int]); }
        i += 1;
        proof { assert(r@ =~= v@.subrange(0, i as int)); }
    }
    assert(r@ =~= v@);
    r
}
} // verus!
