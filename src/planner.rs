use vstd::prelude::*;
use vstd::string::*;
use crate::types::{Character, Effect, Event, EventView, Ratio, events_view, cast_view, views, str_eq, contains_name, copy_events, copy_cast};
use crate::schedule::{ScheduleError, add_constraint_and_get_interval, mention_count, tracks_disjoint, schedule_result, closes_cycle, all_joined, listed_before, directly_before};
use crate::checker::{isPossible, cast_known, consistent, names_symbol_safe, STEP_LIMIT};

verus! {

#[verifier::external_type_specification]
#[verifier::external_body]
pub struct ExStdRng(rand::rngs::StdRng);

/// Relies on rand's `Rng::random_ratio`: true with probability `num / den`, always
/// when `num == den`; it panics only when `den` is 0 or `num` exceeds it.
#[verifier::external_body]
fn random_ratio(rng: &mut rand::rngs::StdRng, num: u32, den: u32) -> (r: bool)
    requires
        0 < den,
        num <= den,
    ensures
        num == den ==> r,
{
    rand::Rng::random_ratio(rng, num, den)
}

/// Relies on rand's `Rng::random_range`: a value in `0..n`; it panics only on an
/// empty range.
#[verifier::external_body]
fn random_below(rng: &mut rand::rngs::StdRng, n: usize) -> (r: usize)
    requires
        n > 0,
    ensures
        r < n,
{
    rand::Rng::random_range(rng, 0..n)
}

/// Relies on rand's `SliceRandom::shuffle`: the same characters, in some order.
#[verifier::external_body]
fn shuffle_cast(rng: &mut rand::rngs::StdRng, v: &mut Vec<Character>)
    ensures
        final(v)@.to_multiset() == old(v)@.to_multiset(),
{
    rand::seq::SliceRandom::shuffle(v.as_mut_slice(), rng)
}

/// The name a new event carries until it is enriched.
pub fn placeholder() -> (r: &'static str)
    ensures
        r@ == placeholder_name(),
{
    "NEW_EVENT"
}

pub open spec fn placeholder_name() -> Seq<char> {
    "NEW_EVENT"@
}

/// No event lists event `i` among those it comes before.
pub open spec fn is_source(ev: Seq<EventView>, i: int) -> bool {
    forall|j: int, m: int| 0 <= j < ev.len() && 0 <= m < ev[j].before.len() ==> #[trigger] ev[j].before[m] != ev[i].name
}

/// `i` is the first event that no event lists.
pub open spec fn first_source(ev: Seq<EventView>, i: int) -> bool {
    0 <= i < ev.len() && is_source(ev, i) && forall|k: int| 0 <= k < i ==> !#[trigger] is_source(ev, k)
}

/// Whether some event lists `x`.
fn listed_anywhere(events: &Vec<Event>, x: &str) -> (r: bool)
    ensures
        r == exists|j: int, m: int| 0 <= j < events.len() && 0 <= m < events_view(events@)[j].before.len()
            && #[trigger] events_view(events@)[j].before[m] == x@,
{
    let ghost ev = events_view(events@);
    let mut j: usize = 0;
    while j < events.len()
        invariant
            ev == events_view(events@),
            j <= events.len(),
            forall|j2: int, m: int| 0 <= j2 < j && 0 <= m < ev[j2].before.len() ==> #[trigger] ev[j2].before[m] != x@,
        decreases events.len() - j,
    {
        if contains_name(&events[j].before, x) {
            proof {
                let k = choose|k: int| 0 <= k < events@[j as int].before@.len() && (#[trigger] events@[j as int].before@[k])@ == x@;
                assert(ev[j as int].before[k] == x@);
            }
            return true;
        }
        proof {
            assert forall|m: int| 0 <= m < ev[j as int].before.len() implies #[trigger] ev[j as int].before[m] != x@ by {
                assert(ev[j as int].before[m] == events@[j as int].before@[m]@);
            }
        }
        j += 1;
    }
    false
}

/// The new event's `before` list and end under the guaranteed insertion: before the
/// first event that nothing precedes, ending at `max(its start, 1/20)`; with no such
/// event, an isolated event ending at `1/10`.
pub open spec fn prepended(ev: Seq<EventView>, before: Seq<Seq<char>>, end: Ratio) -> bool {
    &&& forall|i: int| #[trigger] first_source(ev, i) ==> {
        &&& before == seq![ev[i].name]
        &&& end == if ev[i].start.le(Ratio { num: 1, den: 20 }) { Ratio { num: 1, den: 20 } } else { ev[i].start }
    }
    &&& (forall|i: int| 0 <= i < ev.len() ==> !#[trigger] is_source(ev, i)) ==> before.len() == 0 && end == (Ratio { num: 1, den: 10 })
}

/// The guaranteed insertion (see [`prepended`]); it starts at 0 on track 0.
pub fn safe_prepend(events: &Vec<Event>) -> (r: (Vec<String>, (Ratio, Ratio), i64))
    ensures
        r.2 == 0,
        r.1.0 == Ratio::zero_spec(),
        prepended(events_view(events@), views(r.0@), r.1.1),
{
    let ghost ev = events_view(events@);
    let mut i: usize = 0;
    while i < events.len()
        invariant
            ev == events_view(events@),
            i <= events.len(),
            forall|k: int| 0 <= k < i ==> !#[trigger] is_source(ev, k),
        decreases events.len() - i,
    {
        proof { assert(ev[i as int].name == events@[i as int].name@); }
        if !listed_anywhere(events, events[i].name.as_str()) {
            let floor = Ratio::new(1, 20);
            let end = if events[i].start.at_most(&floor) { floor } else { events[i].start };
            let mut before: Vec<String> = Vec::new();
            before.push(events[i].name.clone());
            proof {
                assert(is_source(ev, i as int));
                assert(first_source(ev, i as int));
                assert forall|i2: int| #[trigger] first_source(ev, i2) implies i2 == i by {
                    if i2 < i { assert(!is_source(ev, i2)); }
                    if i2 > i { assert(!is_source(ev, i as int)); }
                }
                assert(views(before@) =~= seq![ev[i as int].name]);
            }
            return (before, (Ratio::zero(), end), 0);
        }
        proof {
            let (j, m) = choose|j: int, m: int| 0 <= j < events.len() && 0 <= m < ev[j].before.len() && #[trigger] ev[j].before[m] == events@[i as int].name@;
            assert(!is_source(ev, i as int));
        }
        i += 1;
    }
    proof {
        assert forall|i2: int| #[trigger] first_source(ev, i2) implies false by {
            assert(!is_source(ev, i2));
        }
    }
    (Vec::new(), (Ratio::zero(), Ratio::new(1, 10)), 0)
}


/// `s` with each occurrence of `t` replaced, where it stands, by the new event.
pub open spec fn swap_in(s: Seq<Seq<char>>, t: Seq<char>) -> Seq<Seq<char>> {
    s.map_values(|x: Seq<char>| if x == t { placeholder_name() } else { x })
}

/// `a` is the first event that lists `t`.
pub open spec fn first_lister(ev: Seq<EventView>, t: Seq<char>, a: int) -> bool {
    0 <= a < ev.len() && ev[a].before.contains(t) && forall|k: int| 0 <= k < a ==> !(#[trigger] ev[k]).before.contains(t)
}

/// The events after a transitive insertion before `t`: the first event listing `t`
/// lists the new event in its place, giving `A < NEW < t`.
pub open spec fn rewired(ev: Seq<EventView>, t: Seq<char>) -> Seq<EventView> {
    if exists|a: int| #[trigger] first_lister(ev, t, a) {
        let a = choose|a: int| #[trigger] first_lister(ev, t, a);
        ev.update(a, EventView { before: swap_in(ev[a].before, t), ..ev[a] })
    } else {
        ev
    }
}

/// The events a new event is scheduled into: rewired before `t` for a transitive
/// insertion, untouched for a flat one.
pub open spec fn candidate(ev: Seq<EventView>, t: Seq<char>, transitive: bool) -> Seq<EventView> {
    if transitive { rewired(ev, t) } else { ev }
}

proof fn lemma_mention_count_update(ev: Seq<EventView>, a: int, e2: EventView)
    requires
        0 <= a < ev.len(),
        e2.before.len() <= ev[a].before.len(),
    ensures
        mention_count(ev.update(a, e2)) <= mention_count(ev),
    decreases ev.len(),
{
    let u = ev.update(a, e2);
    if a == ev.len() - 1 {
        assert(u.drop_last() =~= ev.drop_last());
    } else {
        assert(u.drop_last() =~= ev.drop_last().update(a, e2));
        lemma_mention_count_update(ev.drop_last(), a, e2);
    }
}

/// Rewires the first event that lists `t` to list the new event in its place.
pub fn rewire(events: Vec<Event>, t: &str) -> (r: Vec<Event>)
    ensures
        events_view(r@) == rewired(events_view(events@), t@),
        mention_count(events_view(r@)) <= mention_count(events_view(events@)),
{
    let ghost ev = events_view(events@);
    let mut out = events;
    let mut a: usize = 0;
    while a < out.len()
        invariant
            ev == events_view(out@),
            ev == events_view(events@),
            a <= out.len(),
            forall|k: int| 0 <= k < a ==> !(#[trigger] ev[k]).before.contains(t@),
        decreases out.len() - a,
    {
        proof { crate::schedule::lemma_holds_name_pub(out@[a as int].before@, t@); }
        if contains_name(&out[a].before, t) {
            let mut e = out[a].copy();
            let ghost old_before = views(e.before@);
            let mut kept: Vec<String> = Vec::new();
            let mut m: usize = 0;
            while m < e.before.len()
                invariant
                    m <= e.before.len(),
                    old_before == views(e.before@),
                    views(kept@) == swap_in(old_before.take(m as int), t@),
                decreases e.before.len() - m,
            {
                let ghost k0 = views(kept@);
                if str_eq(e.before[m].as_str(), t) {
                    kept.push(placeholder().to_string());
                } else {
                    kept.push(e.before[m].clone());
                }
                proof {
                    assert(views(kept@) =~= k0.push(views(kept@).last()));
                    assert(swap_in(old_before.take(m + 1), t@) =~= swap_in(old_before.take(m as int), t@).push(
                        if old_before[m as int] == t@ { placeholder_name() } else { old_before[m as int] }));
                    assert(views(kept@) =~= swap_in(old_before.take(m + 1), t@));
                }
                m += 1;
            }
            proof {
                assert(old_before.take(m as int) =~= old_before);
                assert(old_before == ev[a as int].before);
            }
            let ghost old_e = e@;
            e.before = kept;
            let ghost e_new = e@;
            out.set(a, e);
            proof {
                assert(first_lister(ev, t@, a as int));
                assert forall|a2: int| #[trigger] first_lister(ev, t@, a2) implies a2 == a by {
                    if a2 < a { assert(!ev[a2].before.contains(t@)); }
                    if a2 > a { assert(!ev[a as int].before.contains(t@)); }
                }
                let ch = choose|a2: int| #[trigger] first_lister(ev, t@, a2);
                assert(first_lister(ev, t@, ch));
                assert(e_new == EventView { before: swap_in(ev[a as int].before, t@), ..ev[a as int] });
                assert(events_view(out@) =~= ev.update(a as int, e_new));
                lemma_mention_count_update(ev, a as int, e_new);
            }
            return out;
        }
        a += 1;
    }
    proof {
        assert forall|a2: int| #[trigger] first_lister(ev, t@, a2) implies false by {
            assert(!ev[a2].before.contains(t@));
        }
    }
    out
}

/// The candidate events for an insertion before `t` (see [`candidate`]).
pub fn transitive_candidate(events: Vec<Event>, t: &str, transitive: bool) -> (r: Vec<Event>)
    ensures
        events_view(r@) == candidate(events_view(events@), t@, transitive),
        mention_count(events_view(r@)) <= mention_count(events_view(events@)),
{
    if transitive { rewire(events, t) } else { events }
}

/// With probability 3/4 the new event goes transitively before `t` (see [`rewire`]);
/// otherwise the events stay as they are. Either way the new event lists `t`.
pub fn maybe_transitive_insert(
    events: Vec<Event>,
    rng: &mut rand::rngs::StdRng,
    before_event_name: &str,
) -> (r: (Vec<Event>, Vec<String>))
    ensures
        views(r.1@) == seq![before_event_name@],
        events_view(r.0@) == events_view(events@) || events_view(r.0@) == rewired(events_view(events@), before_event_name@),
        mention_count(events_view(r.0@)) <= mention_count(events_view(events@)),
{
    let mut before_list: Vec<String> = Vec::new();
    before_list.push(before_event_name.to_string());
    proof { assert(views(before_list@) =~= seq![before_event_name@]); }
    let coin = random_ratio(rng, 3, 4);
    (transitive_candidate(events, before_event_name, coin), before_list)
}

/// One insertion attempt before the event at `target`, transitive or flat as drawn:
/// the new event is scheduled before it into the [`candidate`] events.
pub fn try_insertion(events: &Vec<Event>, target: usize, transitive: bool)
    -> (r: Result<((Ratio, Ratio), i64, Vec<Event>), ScheduleError>)
    requires
        target < events.len(),
        mention_count(events_view(events@)) + 4 < u32::MAX,
    ensures
        r == Err::<((Ratio, Ratio), i64, Vec<Event>), ScheduleError>(ScheduleError::Cycle) <==> closes_cycle(
            candidate(events_view(events@), events_view(events@)[target as int].name, transitive),
            placeholder_name(), events_view(events@)[target as int].name),
        r == Err::<((Ratio, Ratio), i64, Vec<Event>), ScheduleError>(ScheduleError::Disconnected) <==> (!closes_cycle(
            candidate(events_view(events@), events_view(events@)[target as int].name, transitive),
            placeholder_name(), events_view(events@)[target as int].name) && !all_joined(
            candidate(events_view(events@), events_view(events@)[target as int].name, transitive),
            placeholder_name(), events_view(events@)[target as int].name)),
        r is Ok ==> schedule_result(candidate(events_view(events@), events_view(events@)[target as int].name, transitive),
            placeholder_name(), events_view(events@)[target as int].name, r->Ok_0.0, r->Ok_0.1, events_view(r->Ok_0.2@)),
{
    let t = events[target].name.clone();
    proof { assert(events_view(events@)[target as int].name == t@); }
    let cand = transitive_candidate(copy_events(events), t.as_str(), transitive);
    add_constraint_and_get_interval(cand, (placeholder(), t.as_str()))
}

/// The category drawn for slot `k` of twelve: mostly catastrophes.
pub fn category_name(k: usize) -> (r: &'static str)
    ensures
        r@ == category_spec(k as int),
{
    proof {
        reveal_strlit("auxiliary");
        reveal_strlit("ceremony");
        reveal_strlit("miracle");
        reveal_strlit("catastrophe");
    }
    if k == 0 {
        "auxiliary"
    } else if k == 2 {
        "ceremony"
    } else if k == 4 {
        "miracle"
    } else {
        "catastrophe"
    }
}

pub open spec fn category_spec(k: int) -> Seq<char> {
    if k == 0 {
        "auxiliary"@
    } else if k == 2 {
        "ceremony"@
    } else if k == 4 {
        "miracle"@
    } else {
        "catastrophe"@
    }
}

/// The structural part of a new event, before enrichment names and describes it.
pub struct Plan {
    /// Whether an edge into the existing events was accepted; otherwise the fallback
    /// prepend was used.
    pub accepted: bool,
    /// The existing events, laid out again when accepted, untouched otherwise.
    pub events: Vec<Event>,
    /// The new event.
    pub event: Event,
}

/// All of `who` belong to one faction.
pub open spec fn one_faction(who: Seq<(Seq<char>, Seq<char>)>) -> bool {
    forall|i: int, j: int| 0 <= i < who.len() && 0 <= j < who.len() ==> (#[trigger] who[i]).1 == (#[trigger] who[j]).1
}

/// Every character of `who` is a member of the cast.
pub open spec fn drawn_from(who: Seq<(Seq<char>, Seq<char>)>, cast: Seq<(Seq<char>, Seq<char>)>) -> bool {
    forall|k: int| 0 <= k < who.len() ==> cast.contains(#[trigger] who[k])
}

/// `c` is one of the first `i` members of the cast.
spec fn among_first(chars: Seq<Character>, i: int, c: Character) -> bool {
    exists|j: int| 0 <= j < i && #[trigger] chars[j] == c
}

/// The members of the cast in a given faction, in cast order.
fn same_faction(chars: &Vec<Character>, faction: &String) -> (r: Vec<Character>)
    ensures
        drawn_from(cast_view(r@), cast_view(chars@)),
        chars@.no_duplicates() ==> r@.no_duplicates(),
        forall|k: int| 0 <= k < r.len() ==> (#[trigger] r@[k]).faction@ == faction@,
{
    let mut r: Vec<Character> = Vec::new();
    let mut i: usize = 0;
    while i < chars.len()
        invariant
            i <= chars.len(),
            drawn_from(cast_view(r@), cast_view(chars@)),
            forall|k: int| 0 <= k < r.len() ==> (#[trigger] r@[k]).faction@ == faction@,
            forall|k: int| 0 <= k < r.len() ==> among_first(chars@, i as int, #[trigger] r@[k]),
            chars@.no_duplicates() ==> r@.no_duplicates(),
        decreases chars.len() - i,
    {
        if str_eq(chars[i].faction.as_str(), faction.as_str()) {
            let ghost r0 = r@;
            r.push(chars[i].copy());
            proof {
                assert forall|k: int| 0 <= k < r.len() implies among_first(chars@, i + 1, #[trigger] r@[k]) by {
                    if k < r0.len() {
                        assert(r@[k] == r0[k]);
                        assert(among_first(chars@, i as int, r0[k]));
                    } else {
                        assert(chars@[i as int] == r@[k]);
                    }
                }
                if chars@.no_duplicates() {
                    assert forall|x: int, y: int| 0 <= x < r.len() && 0 <= y < r.len() && x != y implies r@[x] != r@[y] by {
                        if x < r0.len() && y < r0.len() {
                            assert(r@[x] == r0[x] && r@[y] == r0[y]);
                        } else if x < r0.len() {
                            assert(r@[x] == r0[x]);
                            assert(among_first(chars@, i as int, r0[x]));
                            let j = choose|j: int| 0 <= j < i && #[trigger] chars@[j] == r0[x];
                            assert(chars@[j] != chars@[i as int]);
                        } else {
                            assert(r@[y] == r0[y]);
                            assert(among_first(chars@, i as int, r0[y]));
                            let j = choose|j: int| 0 <= j < i && #[trigger] chars@[j] == r0[y];
                            assert(chars@[j] != chars@[i as int]);
                        }
                    }
                }
                assert forall|k: int| 0 <= k < r.len() implies cast_view(chars@).contains(#[trigger] cast_view(r@)[k]) by {
                    if k < r0.len() {
                        assert(cast_view(r@)[k] == cast_view(r0)[k]);
                    } else {
                        assert(cast_view(chars@)[i as int] == cast_view(r@)[k]);
                    }
                }
            }
        }
        i += 1;
    }
    r
}

/// Chooses who takes part in a new event that kills no one: with probability 8/10
/// three characters of one faction, with 1/10 a single one, otherwise nobody.
fn draw_participants(chars: &Vec<Character>, rng: &mut rand::rngs::StdRng) -> (r: Vec<Character>)
    ensures
        drawn_from(cast_view(r@), cast_view(chars@)),
        r.len() <= 3,
        one_faction(cast_view(r@)),
        chars@.no_duplicates() ==> r@.no_duplicates(),
{
    if chars.len() == 0 {
        return Vec::new();
    }
    let roll = random_below(rng, 10);
    let num: usize = if roll < 8 { 3 } else if roll < 9 { 1 } else { 0 };
    if num == 0 {
        return Vec::new();
    }
    let pick = random_below(rng, chars.len());
    let mut group = same_faction(chars, &chars[pick].faction);
    proof { assert(chars[pick as int].faction@ == chars@[pick as int].faction@); }
    let ghost g0 = group@;
    shuffle_cast(rng, &mut group);
    proof {
        assert forall|k: int| 0 <= k < group.len() implies cast_view(chars@).contains(#[trigger] cast_view(group@)[k]) by {
            g0.to_multiset_ensures();
            group@.to_multiset_ensures();
            assert(group@.contains(group@[k]));
            assert(group@.to_multiset().count(group@[k]) > 0);
            assert(g0.to_multiset().count(group@[k]) > 0);
            assert(g0.contains(group@[k]));
            let j = choose|j: int| 0 <= j < g0.len() && g0[j] == group@[k];
            assert(cast_view(chars@).contains(cast_view(g0)[j]));
        }
        assert forall|k: int| 0 <= k < group.len() implies (#[trigger] group@[k]).faction@ == chars@[pick as int].faction@ by {
            g0.to_multiset_ensures();
            group@.to_multiset_ensures();
            assert(group@.contains(group@[k]));
            assert(group@.to_multiset().count(group@[k]) > 0);
            assert(g0.to_multiset().count(group@[k]) > 0);
            let j = choose|j: int| 0 <= j < g0.len() && g0[j] == group@[k];
            assert(g0[j].faction@ == chars@[pick as int].faction@);
        }
    }
    let keep = if num < group.len() { num } else { group.len() };
    proof {
        if chars@.no_duplicates() {
            g0.lemma_multiset_has_no_duplicates();
            group@.lemma_multiset_has_no_duplicates_conv();
        }
    }
    let ghost g1 = group@;
    group.truncate(keep);
    proof {
        if chars@.no_duplicates() {
            assert forall|x: int, y: int| 0 <= x < group.len() && 0 <= y < group.len() && x != y implies group@[x] != group@[y] by {
                assert(group@[x] == g1[x] && group@[y] == g1[y]);
            }
        }
        assert forall|k: int| 0 <= k < group.len() implies cast_view(chars@).contains(#[trigger] cast_view(group@)[k]) by {
            assert(group@[k] == g1[k]);
            assert(cast_view(g1)[k] == cast_view(group@)[k]);
        }
        assert forall|i: int, j: int| 0 <= i < group.len() && 0 <= j < group.len()
            implies (#[trigger] cast_view(group@)[i]).1 == (#[trigger] cast_view(group@)[j]).1 by {
            assert(group@[i] == g1[i] && group@[j] == g1[j]);
        }
    }
    group
}

/// The scheduler refuses the new event before `t` in `cand`: the edge closes a cycle
/// or leaves the events in more than one piece.
pub open spec fn refused(cand: Seq<EventView>, t: Seq<char>) -> bool {
    closes_cycle(cand, placeholder_name(), t) || !all_joined(cand, placeholder_name(), t)
}

/// The events' own precedences close no cycle.
pub open spec fn timeline_acyclic(ev: Seq<EventView>) -> bool {
    !exists|p: Seq<Seq<char>>| p.len() >= 2 && p[0] == p.last() && #[trigger] own_walk(ev, p)
}

/// Each step of `p` is a precedence the events list.
pub open spec fn own_walk(ev: Seq<EventView>, p: Seq<Seq<char>>) -> bool {
    forall|k: int| 0 <= k < p.len() - 1 ==> #[trigger] listed_before(ev, p[k], p[k + 1])
}

/// A name of an event or one an event lists.
pub open spec fn in_timeline(ev: Seq<EventView>, x: Seq<char>) -> bool {
    ||| exists|j: int| 0 <= j < ev.len() && (#[trigger] ev[j]).name == x
    ||| exists|j: int, m: int| 0 <= j < ev.len() && 0 <= m < ev[j].before.len() && #[trigger] ev[j].before[m] == x
}

/// Each step of `p` is a precedence the events list, in either direction.
pub open spec fn own_loose_walk(ev: Seq<EventView>, p: Seq<Seq<char>>) -> bool {
    forall|k: int| 0 <= k < p.len() - 1 ==> #[trigger] listed_before(ev, p[k], p[k + 1]) || listed_before(ev, p[k + 1], p[k])
}

/// Ignoring direction, every name of the timeline is joined to the first event's.
pub open spec fn timeline_joined(ev: Seq<EventView>) -> bool {
    &&& ev.len() > 0
    &&& forall|x: Seq<char>| #[trigger] in_timeline(ev, x) ==> exists|p: Seq<Seq<char>>|
        p.len() >= 1 && p[0] == ev[0].name && p.last() == x && #[trigger] own_loose_walk(ev, p)
}

/// No event is named, or lists, the placeholder.
pub open spec fn avoids_placeholder(ev: Seq<EventView>) -> bool {
    forall|j: int| 0 <= j < ev.len() ==> (#[trigger] ev[j]).name != placeholder_name() && !ev[j].before.contains(placeholder_name())
}

/// A timeline the planner can always extend: acyclic, in one piece, and free of the
/// placeholder name.
pub open spec fn sound_timeline(ev: Seq<EventView>) -> bool {
    timeline_acyclic(ev) && timeline_joined(ev) && avoids_placeholder(ev)
}

spec fn fold_new(x: Seq<char>, t: Seq<char>) -> Seq<char> {
    if x == placeholder_name() { t } else { x }
}

/// What the candidate lists, by event position.
proof fn lemma_candidate_shape(ev: Seq<EventView>, t: Seq<char>, transitive: bool)
    ensures
        candidate(ev, t, transitive).len() == ev.len(),
        forall|j: int| 0 <= j < ev.len() ==> (#[trigger] candidate(ev, t, transitive)[j]).name == ev[j].name
            && candidate(ev, t, transitive)[j].before.len() == ev[j].before.len(),
        forall|j: int, m: int| 0 <= j < ev.len() && 0 <= m < ev[j].before.len()
            ==> #[trigger] candidate(ev, t, transitive)[j].before[m] == ev[j].before[m]
            || (candidate(ev, t, transitive)[j].before[m] == placeholder_name() && ev[j].before[m] == t),
{
    if transitive && exists|a: int| #[trigger] first_lister(ev, t, a) {
        let a = choose|a: int| #[trigger] first_lister(ev, t, a);
        let c = ev.update(a, EventView { before: swap_in(ev[a].before, t), ..ev[a] });
        assert(candidate(ev, t, transitive) == c);
    }
}

/// A precedence of the candidate, with the new event folded onto `t`, is a stutter or
/// a precedence of the events.
proof fn lemma_step_folds(ev: Seq<EventView>, t: Seq<char>, transitive: bool, x: Seq<char>, y: Seq<char>)
    requires
        avoids_placeholder(ev),
        t != placeholder_name(),
        directly_before(candidate(ev, t, transitive), placeholder_name(), t, x, y),
    ensures
        fold_new(x, t) == fold_new(y, t) || listed_before(ev, fold_new(x, t), fold_new(y, t)),
        x != placeholder_name() && y != placeholder_name() ==> listed_before(ev, x, y),
        x == y ==> listed_before(ev, x, x),
        y == placeholder_name() && x != placeholder_name() ==> listed_before(ev, x, t),
{
    let c = candidate(ev, t, transitive);
    lemma_candidate_shape(ev, t, transitive);
    if listed_before(c, x, y) {
        let (j, m) = choose|j: int, m: int| 0 <= j < c.len() && 0 <= m < c[j].before.len() && c[j].name == x && #[trigger] c[j].before[m] == y;
        assert(c[j] == candidate(ev, t, transitive)[j]);
        assert(ev[j].name != placeholder_name());
        assert(x != placeholder_name());
        if c[j].before[m] == ev[j].before[m] {
            assert(ev[j].before.contains(ev[j].before[m]));
            assert(listed_before(ev, x, y));
        } else {
            assert(ev[j].before[m] == t);
            assert(listed_before(ev, x, t));
        }
    } else {
        assert(x == placeholder_name() && y == t);
    }
}

/// Removing repeated neighbours from a stutter walk leaves a walk of the events.
proof fn lemma_destutter(ev: Seq<EventView>, q: Seq<Seq<char>>) -> (w: Seq<Seq<char>>)
    requires
        q.len() >= 1,
        forall|k: int| 0 <= k < q.len() - 1 ==> q[k] == q[k + 1] || #[trigger] listed_before(ev, q[k], q[k + 1]),
    ensures
        w.len() >= 1,
        w[0] == q[0],
        w.last() == q.last(),
        own_walk(ev, w),
        (exists|k: int| 0 <= k < q.len() - 1 && q[k] != #[trigger] q[k + 1]) ==> w.len() >= 2,
    decreases q.len(),
{
    if q.len() == 1 {
        q
    } else {
        let rest = q.drop_first();
        assert forall|k: int| 0 <= k < rest.len() - 1 implies rest[k] == rest[k + 1] || #[trigger] listed_before(ev, rest[k], rest[k + 1]) by {
            assert(rest[k] == q[k + 1] && rest[k + 1] == q[k + 2]);
        }
        let w2 = lemma_destutter(ev, rest);
        if exists|k: int| 0 <= k < q.len() - 1 && q[k] != #[trigger] q[k + 1] {
            let k = choose|k: int| 0 <= k < q.len() - 1 && q[k] != #[trigger] q[k + 1];
            if k > 0 {
                assert(rest[k - 1] != rest[k - 1 + 1]);
            }
        }
        if q[0] == q[1] {
            w2
        } else {
            let w = seq![q[0]] + w2;
            assert(listed_before(ev, q[0], q[1]));
            assert forall|k: int| 0 <= k < w.len() - 1 implies #[trigger] listed_before(ev, w[k], w[k + 1]) by {
                if k > 0 {
                    assert(w[k] == w2[k - 1] && w[k + 1] == w2[k - 1 + 1]);
                    assert(listed_before(ev, w2[k - 1], w2[k - 1 + 1]));
                }
            }
            w
        }
    }
}

/// The candidate graph with the new edge closes no cycle.
proof fn lemma_candidate_acyclic(ev: Seq<EventView>, t: Seq<char>, transitive: bool)
    requires
        timeline_acyclic(ev),
        avoids_placeholder(ev),
        exists|j: int| 0 <= j < ev.len() && (#[trigger] ev[j]).name == t,
    ensures
        !closes_cycle(candidate(ev, t, transitive), placeholder_name(), t),
{
    let c = candidate(ev, t, transitive);
    let nw = placeholder_name();
    let jt = choose|j: int| 0 <= j < ev.len() && (#[trigger] ev[j]).name == t;
    assert(t != nw);
    if closes_cycle(c, nw, t) {
        let p = choose|p: Seq<Seq<char>>| p.len() >= 2 && p[0] == p.last() && #[trigger] crate::schedule::is_chain(c, nw, t, p);
        let q = Seq::new(p.len(), |k: int| fold_new(p[k], t));
        assert forall|k: int| 0 <= k < q.len() - 1 implies q[k] == q[k + 1] || #[trigger] listed_before(ev, q[k], q[k + 1]) by {
            assert(directly_before(c, nw, t, p[k], p[k + 1]));
            lemma_step_folds(ev, t, transitive, p[k], p[k + 1]);
        }
        if exists|k: int| 0 <= k < q.len() - 1 && q[k] != #[trigger] q[k + 1] {
            let w = lemma_destutter(ev, q);
            assert(w.len() >= 2 && w[0] == w.last() && own_walk(ev, w));
        } else {
            // every step stays within {new, t}: the first step leads to a contradiction
            let k0: int = 0;
            let k1: int = 1;
            assert(directly_before(c, nw, t, p[k0], p[k0 + 1]));
            lemma_step_folds(ev, t, transitive, p[0], p[1]);
            assert(!(q[k0] != q[k0 + 1]));
            if p[0] == p[1] {
                assert(own_walk(ev, seq![p[0], p[0]]));
            } else if p[1] == nw {
                assert(p[0] == t);
                assert(own_walk(ev, seq![t, t]));
            } else {
                assert(p[0] == nw && p[1] == t);
                if p.len() == 2 {
                    assert(p.last() == t);
                } else {
                    assert(directly_before(c, nw, t, p[k1], p[k1 + 1]));
                    lemma_step_folds(ev, t, transitive, p[1], p[2]);
                    assert(!(q[k1] != q[k1 + 1]));
                    if p[2] == t {
                        assert(own_walk(ev, seq![t, t]));
                    } else {
                        assert(p[2] == nw);
                        assert(own_walk(ev, seq![t, t]));
                    }
                }
            }
        }
    }
}

/// A precedence of the events stays one in the candidate, or goes through the new event.
proof fn lemma_step_lifts(ev: Seq<EventView>, t: Seq<char>, transitive: bool, u: Seq<char>, v: Seq<char>)
    requires
        listed_before(ev, u, v),
    ensures
        listed_before(candidate(ev, t, transitive), u, v)
            || (v == t && listed_before(candidate(ev, t, transitive), u, placeholder_name())),
{
    let c = candidate(ev, t, transitive);
    lemma_candidate_shape(ev, t, transitive);
    let (j, m) = choose|j: int, m: int| 0 <= j < ev.len() && 0 <= m < ev[j].before.len() && ev[j].name == u && #[trigger] ev[j].before[m] == v;
    assert(c[j] == candidate(ev, t, transitive)[j]);
    if c[j].before[m] == v {
        assert(listed_before(c, u, v));
    } else {
        assert(c[j].before[m] == placeholder_name());
        assert(listed_before(c, u, placeholder_name()));
    }
}

/// A loose walk of the events becomes one of the candidate with the new edge.
proof fn lemma_lift_walk(ev: Seq<EventView>, t: Seq<char>, transitive: bool, q: Seq<Seq<char>>) -> (w: Seq<Seq<char>>)
    requires
        q.len() >= 1,
        own_loose_walk(ev, q),
    ensures
        w.len() >= 1,
        w[0] == q[0],
        w.last() == q.last(),
        crate::schedule::is_loose_chain(candidate(ev, t, transitive), placeholder_name(), t, w),
    decreases q.len(),
{
    let c = candidate(ev, t, transitive);
    let nw = placeholder_name();
    if q.len() == 1 {
        q
    } else {
        let q2 = q.drop_last();
        assert forall|k: int| 0 <= k < q2.len() - 1 implies #[trigger] listed_before(ev, q2[k], q2[k + 1]) || listed_before(ev, q2[k + 1], q2[k]) by {
            assert(listed_before(ev, q[k], q[k + 1]) || listed_before(ev, q[k + 1], q[k]));
        }
        let w2 = lemma_lift_walk(ev, t, transitive, q2);
        let n = q.len() - 2;
        let u = q[n];
        let v = q[n + 1];
        assert(listed_before(ev, q[n], q[n + 1]) || listed_before(ev, q[n + 1], q[n]));
        assert(w2.last() == u);
        let tail: Seq<Seq<char>> = if listed_before(ev, u, v) {
            lemma_step_lifts(ev, t, transitive, u, v);
            if listed_before(c, u, v) { seq![v] } else { seq![nw, v] }
        } else {
            lemma_step_lifts(ev, t, transitive, v, u);
            if listed_before(c, v, u) { seq![v] } else { seq![nw, v] }
        };
        let w = w2 + tail;
        assert forall|k: int| 0 <= k < w.len() - 1 implies #[trigger] crate::schedule::adjoining(c, nw, t, w[k], w[k + 1]) by {
            if k < w2.len() - 1 {
                assert(w[k] == w2[k] && w[k + 1] == w2[k + 1]);
                assert(crate::schedule::adjoining(c, nw, t, w2[k], w2[k + 1]));
            } else if k == w2.len() - 1 {
                assert(w[k] == u);
            } else {
                assert(w[k] == nw && w[k + 1] == v);
            }
        }
        assert(w.last() == v);
        w
    }
}

/// Every name of a joined timeline reaches the first event's name in the candidate.
proof fn lemma_candidate_joined(ev: Seq<EventView>, t: Seq<char>, transitive: bool)
    requires
        timeline_joined(ev),
        exists|j: int| 0 <= j < ev.len() && (#[trigger] ev[j]).name == t,
    ensures
        all_joined(candidate(ev, t, transitive), placeholder_name(), t),
{
    let c = candidate(ev, t, transitive);
    let nw = placeholder_name();
    lemma_candidate_shape(ev, t, transitive);
    assert(crate::schedule::first_name(c, nw) == ev[0].name);
    assert forall|x: Seq<char>| #[trigger] crate::schedule::mentioned(c, nw, t, x) implies exists|p: Seq<Seq<char>>|
        p.len() >= 1 && p[0] == crate::schedule::first_name(c, nw) && p.last() == x
        && #[trigger] crate::schedule::is_loose_chain(c, nw, t, p) by {
        assert(in_timeline(ev, t));
        let pt = choose|p: Seq<Seq<char>>| p.len() >= 1 && p[0] == ev[0].name && p.last() == t && #[trigger] own_loose_walk(ev, p);
        let wt = lemma_lift_walk(ev, t, transitive, pt);
        let to_new = wt.push(nw);
        assert forall|k: int| 0 <= k < to_new.len() - 1 implies #[trigger] crate::schedule::adjoining(c, nw, t, to_new[k], to_new[k + 1]) by {
            if k < wt.len() - 1 {
                assert(crate::schedule::adjoining(c, nw, t, wt[k], wt[k + 1]));
            }
        }
        if x == nw {
            assert(crate::schedule::is_loose_chain(c, nw, t, to_new));
        } else if x == t {
            assert(crate::schedule::is_loose_chain(c, nw, t, wt));
        } else {
            if exists|j: int| 0 <= j < c.len() && (#[trigger] c[j]).name == x {
                let j = choose|j: int| 0 <= j < c.len() && (#[trigger] c[j]).name == x;
                assert(ev[j].name == x);
            } else {
                let (j, m) = choose|j: int, m: int| 0 <= j < c.len() && 0 <= m < c[j].before.len() && #[trigger] c[j].before[m] == x;
                assert(c[j] == candidate(ev, t, transitive)[j]);
                assert(ev[j].before[m] == x);
            }
            assert(in_timeline(ev, x));
            let px = choose|p: Seq<Seq<char>>| p.len() >= 1 && p[0] == ev[0].name && p.last() == x && #[trigger] own_loose_walk(ev, p);
            let wx = lemma_lift_walk(ev, t, transitive, px);
            assert(crate::schedule::is_loose_chain(c, nw, t, wx));
        }
    }
}

/// On a sound timeline the scheduler never refuses the new event, whichever target
/// and insertion kind are drawn.
pub proof fn lemma_never_refused(ev: Seq<EventView>, target: int, transitive: bool)
    requires
        sound_timeline(ev),
        0 <= target < ev.len(),
    ensures
        !refused(candidate(ev, ev[target].name, transitive), ev[target].name),
{
    let t = ev[target].name;
    assert(t != placeholder_name());
    lemma_candidate_acyclic(ev, t, transitive);
    lemma_candidate_joined(ev, t, transitive);
}

/// Decides where a new event goes. Tries up to five targets drawn uniformly, each
/// time going transitively (with probability 3/4) or flat before it; when none is
/// accepted, or there are no events, falls back to [`safe_prepend`] and leaves the
/// events as they were. Also draws the category, a possible death and the
/// participants. The new event carries the placeholder name until enrichment.
pub fn plan_event(
    existing_events: &Vec<Event>,
    existing_characters: &Vec<Character>,
    rng: &mut rand::rngs::StdRng,
) -> (r: Plan)
    requires
        mention_count(events_view(existing_events@)) + 4 < u32::MAX,
    ensures
        r.event@.name == placeholder_name(),
        exists|k: int| 0 <= k < 12 && r.event@.category == #[trigger] category_spec(k),
        r.event.effects.len() <= 1,
        r.event.effects.len() == 1 ==> r.event.characters.len() == 1 && r.event@.effects[0] == Some(r.event@.characters[0].0),
        drawn_from(r.event@.characters, cast_view(existing_characters@)),
        r.event.effects.len() == 0 ==> r.event.characters.len() <= 3 && one_faction(r.event@.characters),
        existing_characters@.no_duplicates() ==> r.event.characters@.no_duplicates(),
        existing_events.len() == 0 ==> !r.accepted,
        sound_timeline(events_view(existing_events@)) ==> r.accepted,
        !r.accepted && existing_events.len() > 0 ==> exists|target: int, transitive: bool| {
            &&& 0 <= target < existing_events.len()
            &&& #[trigger] refused(candidate(events_view(existing_events@), events_view(existing_events@)[target].name, transitive),
                events_view(existing_events@)[target].name)
        },
        !r.accepted ==> {
            &&& events_view(r.events@) == events_view(existing_events@)
            &&& r.event.start == Ratio::zero_spec()
            &&& r.event.track == 0
            &&& prepended(events_view(existing_events@), views(r.event.before@), r.event.end)
        },
        r.accepted ==> exists|target: int, transitive: bool, tr: i64| {
            &&& 0 <= target < existing_events.len()
            &&& views(r.event.before@) == seq![events_view(existing_events@)[target].name]
            &&& tr == r.event.track
            &&& #[trigger] schedule_result(
                candidate(events_view(existing_events@), events_view(existing_events@)[target].name, transitive),
                placeholder_name(), events_view(existing_events@)[target].name,
                (r.event.start, r.event.end), tr, events_view(r.events@))
        },
{
    let ghost ev = events_view(existing_events@);
    let slot = random_below(rng, 12);
    let category = category_name(slot);
    let mut effects: Vec<Effect> = Vec::new();
    let mut victim: Option<usize> = None;
    if str_eq(category, "catastrophe") && existing_characters.len() > 0 && random_ratio(rng, 4, 5) {
        let v = random_below(rng, existing_characters.len());
        effects.push(Effect::Death(existing_characters[v].name.clone()));
        victim = Some(v);
    }
    let mut accepted = false;
    let mut updated = copy_events(existing_events);
    let mut before_list: Vec<String> = Vec::new();
    let mut interval = (Ratio::zero(), Ratio::new(1, 10));
    let mut track: u64 = 0;
    let ghost mut g_target: int = 0;
    let ghost mut g_transitive: bool = false;
    let ghost mut g_tr: i64 = 0;
    let ghost mut f_target: int = 0;
    let ghost mut f_transitive: bool = false;
    let mut attempt: usize = 0;
    while attempt < 5 && !accepted && existing_events.len() > 0
        invariant
            ev == events_view(existing_events@),
            mention_count(ev) + 4 < u32::MAX,
            !accepted ==> events_view(updated@) == ev,
            accepted ==> existing_events.len() > 0,
            accepted ==> 0 <= g_target < existing_events.len(),
            accepted ==> views(before_list@) == seq![ev[g_target].name],
            accepted ==> g_tr == track,
            !accepted && attempt > 0 ==> 0 <= f_target < existing_events.len()
                && refused(candidate(ev, ev[f_target].name, f_transitive), ev[f_target].name),
            attempt <= 5,
            accepted ==> schedule_result(candidate(ev, ev[g_target].name, g_transitive), placeholder_name(),
                ev[g_target].name, interval, g_tr, events_view(updated@)),
        decreases 5 - attempt, (if accepted { 0int } else { 1int }),
    {
        attempt += 1;
        let k = random_below(rng, existing_events.len());
        let coin = random_ratio(rng, 3, 4);
        let attempt_result = try_insertion(existing_events, k, coin);
        match attempt_result {
            Ok((iv, tr, up)) => {
                let ghost t = ev[k as int].name;
                let ghost o = events_view(up@);
                proof {
                    let c = candidate(ev, t, coin);
                    assert(schedule_result(c, placeholder_name(), t, iv, tr, o));
                    // the target is one of the candidate events, so its track is the one returned
                    assert(c.len() == ev.len());
                    assert(c[k as int].name == t) by {
                        if coin && exists|a: int| #[trigger] first_lister(ev, t, a) {
                            let a = choose|a: int| #[trigger] first_lister(ev, t, a);
                            assert(c == ev.update(a, EventView { before: swap_in(ev[a].before, t), ..ev[a] }));
                        }
                    }
                    assert(o[k as int].name == t);
                    assert(tr != -1);
                    assert(tr >= 0);
                }
                let mut b: Vec<String> = Vec::new();
                b.push(existing_events[k].name.clone());
                proof { assert(views(b@) =~= seq![t]); }
                before_list = b;
                updated = up;
                interval = iv;
                track = tr as u64;
                proof {
                    g_target = k as int;
                    g_transitive = coin;
                    g_tr = tr;
                }
                accepted = true;
            },
            Err(e) => {
                proof {
                    f_target = k as int;
                    f_transitive = coin;
                    let c = candidate(ev, ev[k as int].name, coin);
                    if e == ScheduleError::Cycle {
                        assert(closes_cycle(c, placeholder_name(), ev[k as int].name));
                    } else {
                        assert(e == ScheduleError::Disconnected);
                        assert(!all_joined(c, placeholder_name(), ev[k as int].name));
                    }
                }
            },
        }
    }
    proof {
        if !accepted && existing_events.len() > 0 {
            assert(attempt > 0);
            assert(refused(candidate(ev, ev[f_target].name, f_transitive), ev[f_target].name));
            if sound_timeline(ev) {
                lemma_never_refused(ev, f_target, f_transitive);
            }
        }
    }
    if !accepted {
        let (b, iv, _t) = safe_prepend(existing_events);
        before_list = b;
        interval = iv;
        track = 0;
    }
    let characters: Vec<Character> = match victim {
        Some(v) => {
            let mut who: Vec<Character> = Vec::new();
            who.push(existing_characters[v].copy());
            proof {
                assert(cast_view(existing_characters@)[v as int] == cast_view(who@)[0]);
            }
            who
        },
        None => draw_participants(existing_characters, rng),
    };
    let description = String::from_str("A ").concat(category).concat(" event.");
    let event = Event {
        name: placeholder().to_string(),
        description,
        before: before_list,
        start: interval.0,
        end: interval.1,
        category: String::from_str(category),
        characters,
        effects,
        track,
    };
    proof {
        if event.effects.len() == 1 {
            assert(event@.effects[0] == event.effects@[0]@);
            assert(event@.characters[0] == event.characters@[0]@);
        }
        assert(event@.category == category_spec(slot as int));
    }
    let r = Plan { accepted, events: updated, event };
    proof {
        if accepted {
            assert(schedule_result(candidate(ev, ev[g_target].name, g_transitive), placeholder_name(),
                ev[g_target].name, (r.event.start, r.event.end), g_tr, events_view(r.events@)));
            assert(views(r.event.before@) == seq![ev[g_target].name]);
            assert(g_tr == r.event.track);
        }
    }
    r
}

/// `s` with every entry `from` renamed to `to`.
pub open spec fn renamed_list(s: Seq<Seq<char>>, from: Seq<char>, to: Seq<char>) -> Seq<Seq<char>> {
    s.map_values(|x: Seq<char>| if x == from { to } else { x })
}

/// `ev` with every `before` entry `from` renamed to `to`.
pub open spec fn renamed(ev: Seq<EventView>, from: Seq<char>, to: Seq<char>) -> Seq<EventView> {
    ev.map_values(|e: EventView| EventView { before: renamed_list(e.before, from, to), ..e })
}

/// Points every `before` entry naming the placeholder at the enriched event's name.
fn rename_placeholder(events: Vec<Event>, to: &str) -> (r: Vec<Event>)
    ensures
        events_view(r@) == renamed(events_view(events@), placeholder_name(), to@),
{
    let ghost ev = events_view(events@);
    let mut out: Vec<Event> = Vec::new();
    let mut i: usize = 0;
    while i < events.len()
        invariant
            ev == events_view(events@),
            i <= events.len(),
            out.len() == i,
            forall|k: int| 0 <= k < i ==> (#[trigger] out@[k])@ == renamed(ev, placeholder_name(), to@)[k],
        decreases events.len() - i,
    {
        let mut e = events[i].copy();
        let ghost old_before = views(e.before@);
        let mut nb: Vec<String> = Vec::new();
        let mut m: usize = 0;
        while m < e.before.len()
            invariant
                m <= e.before.len(),
                old_before == views(e.before@),
                views(nb@) == renamed_list(old_before.take(m as int), placeholder_name(), to@),
            decreases e.before.len() - m,
        {
            let ghost n0 = views(nb@);
            if str_eq(e.before[m].as_str(), placeholder()) {
                nb.push(to.to_string());
            } else {
                nb.push(e.before[m].clone());
            }
            proof {
                assert(views(nb@) =~= n0.push(views(nb@).last()));
                assert(renamed_list(old_before.take(m + 1), placeholder_name(), to@)
                    =~= renamed_list(old_before.take(m as int), placeholder_name(), to@).push(
                        if old_before[m as int] == placeholder_name() { to@ } else { old_before[m as int] }));
                assert(views(nb@) =~= renamed_list(old_before.take(m + 1), placeholder_name(), to@));
            }
            m += 1;
        }
        proof {
            assert(old_before.take(m as int) =~= old_before);
            assert(old_before == ev[i as int].before);
        }
        let ghost e_old = e@;
        e.before = nb;
        proof {
            assert(e_old == ev[i as int]);
            assert(e@ == EventView { before: renamed_list(ev[i as int].before, placeholder_name(), to@), ..ev[i as int] });
        }
        out.push(e);
        i += 1;
    }
    proof {
        assert(events_view(out@) =~= renamed(ev, placeholder_name(), to@));
    }
    out
}

/// Appends the enriched event, pointing the edges rewired into it at its final name,
/// and re-checks the whole timeline.
pub fn finish_event(updated_events: Vec<Event>, event: Event, characters: &Vec<Character>) -> (r: (bool, Vec<Event>))
    requires
        cast_known(events_view(updated_events@.push(event)), cast_view(characters@)),
        names_symbol_safe(events_view(updated_events@.push(event))),
        characters.len() * 1001 + 1001 < STEP_LIMIT,
    ensures
        events_view(r.1@) == renamed(events_view(updated_events@), placeholder_name(), event@.name).push(event@),
        r.0 ==> consistent(events_view(r.1@), cast_view(characters@)),
        crate::checker::double_death(events_view(r.1@)) ==> !r.0,
{
    let ghost before_view = events_view(updated_events@.push(event));
    let name = event.name.clone();
    let mut combined = rename_placeholder(updated_events, name.as_str());
    combined.push(event);
    let ghost cv = events_view(combined@);
    proof {
        assert(cv =~= renamed(events_view(updated_events@), placeholder_name(), event@.name).push(event@));
        assert(cv.len() == before_view.len());
        assert forall|i: int| 0 <= i < cv.len() implies (#[trigger] cv[i]).name == before_view[i].name
            && cv[i].effects == before_view[i].effects && cv[i].characters == before_view[i].characters by {
            if i < cv.len() - 1 {
                assert(before_view[i] == updated_events@[i]@);
            }
        }
        assert(cast_known(cv, cast_view(characters@)));
        assert(names_symbol_safe(cv));
    }
    let sat = isPossible(copy_events(&combined), copy_cast(characters));
    (sat, combined)
}

} // verus!
