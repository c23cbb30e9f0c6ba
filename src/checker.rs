use vstd::prelude::*;
use crate::types::{Character, Effect, Event, EventView, events_view, cast_view, str_eq};
use z3::ast::{Bool, Int};
use crate::checker::Constraint::{Before, Born, Persists, Step, Within};

verus! {

/// The last time step of the liveness model; time runs over `0..=HORIZON`.
pub const HORIZON: i64 = 1000;

/// z3 numbers integer symbols only below 2^30: every liveness step number stays under it.
pub const STEP_LIMIT: usize = 1073741824;

/// A name z3 can turn into a symbol: it holds no NUL character.
pub open spec fn symbol_safe(x: Seq<char>) -> bool {
    !x.contains('\0')
}

/// Every event name can be a z3 symbol.
pub open spec fn names_symbol_safe(ev: Seq<EventView>) -> bool {
    forall|i: int| 0 <= i < ev.len() ==> symbol_safe(#[trigger] ev[i].name)
}

/// The clause is one z3 accepts: names without NUL, step numbers below 2^30.
pub open spec fn z3_ready(c: Clause) -> bool {
    match c {
        Clause::Within(e, _, _) => symbol_safe(e),
        Clause::Before(x, y) => symbol_safe(x) && symbol_safe(y),
        Clause::Persists(v, w) => v < STEP_LIMIT && w < STEP_LIMIT,
        Clause::Born(v) => v < STEP_LIMIT,
        Clause::Step(e, _, _, v, _) => symbol_safe(e) && v < STEP_LIMIT,
    }
}

#[verifier::external_type_specification]
#[verifier::external_body]
pub struct ExSolver(z3::Solver);

/// A constraint handed to the solver, over one integer variable per event name and
/// one boolean variable per numbered liveness step.
pub enum Constraint {
    /// `lo <= t(e) <= hi`
    Within(String, i64, i64),
    /// `t(x) < t(y)`
    Before(String, String),
    /// `alive(v) ==> alive(w)`
    Persists(u32, u32),
    /// `alive(v)`
    Born(u32),
    /// `lo <= t(e) <= hi ==> alive(v) == b`
    Step(String, i64, i64, u32, bool),
}

/// The mathematical content of a [`Constraint`].
pub enum Clause {
    Within(Seq<char>, int, int),
    Before(Seq<char>, Seq<char>),
    Persists(nat, nat),
    Born(nat),
    Step(Seq<char>, int, int, nat, bool),
}

impl View for Constraint {
    type V = Clause;

    open spec fn view(&self) -> Clause {
        match self {
            Constraint::Within(e, lo, hi) => Clause::Within(e@, *lo as int, *hi as int),
            Constraint::Before(x, y) => Clause::Before(x@, y@),
            Constraint::Persists(v, w) => Clause::Persists(*v as nat, *w as nat),
            Constraint::Born(v) => Clause::Born(*v as nat),
            Constraint::Step(e, lo, hi, v, b) => Clause::Step(e@, *lo as int, *hi as int, *v as nat, *b),
        }
    }
}

/// Whether a clause holds under an assignment of times and liveness variables.
pub open spec fn holds(c: Clause, time: spec_fn(Seq<char>) -> int, alive: spec_fn(nat) -> bool) -> bool {
    match c {
        Clause::Within(e, lo, hi) => lo <= time(e) <= hi,
        Clause::Before(x, y) => time(x) < time(y),
        Clause::Persists(v, w) => alive(v) ==> alive(w),
        Clause::Born(v) => alive(v),
        Clause::Step(e, lo, hi, v, b) => lo <= time(e) <= hi ==> alive(v) == b,
    }
}

/// Every clause of `cs` holds under the assignment.
pub open spec fn all_hold(cs: Seq<Clause>, time: spec_fn(Seq<char>) -> int, alive: spec_fn(nat) -> bool) -> bool {
    forall|c: Clause| #[trigger] cs.contains(c) ==> holds(c, time, alive)
}

/// Some assignment makes every clause of `cs` hold.
pub open spec fn satisfiable(cs: Seq<Clause>) -> bool {
    exists|time: spec_fn(Seq<char>) -> int, alive: spec_fn(nat) -> bool| #[trigger] all_hold(cs, time, alive)
}

/// The clauses asserted into a solver so far.
pub uninterp spec fn solver_clauses(s: z3::Solver) -> Seq<Clause>;

/// What the solver concluded.
#[derive(Clone, Copy, Debug, PartialEq, Eq, Structural)]
pub enum Verdict {
    Sat,
    Unsat,
    Unknown,
}

/// Relies on z3's `Solver::new`: a solver with no assertions.
#[verifier::external_body]
fn new_solver() -> (s: z3::Solver)
    ensures
        solver_clauses(s) == Seq::<Clause>::empty(),
{
    z3::Solver::new()
}

/// Relies on z3's `Solver::assert`: adds the constraint, written with integer
/// constants named by event and boolean constants numbered by liveness step. z3
/// panics on a name holding NUL and numbers symbols only below 2^30, so those are
/// left out.
#[verifier::external_body]
fn solver_assert(s: &mut z3::Solver, c: &Constraint)
    requires
        z3_ready(c@),
    ensures
        solver_clauses(*final(s)) == solver_clauses(*old(s)).push(c@),
{
    let t = |e: &str| Int::new_const(e);
    let a = |v: &u32| Bool::new_const(*v);
    let g = |e: &str, lo: &i64, hi: &i64| t(e).ge(*lo) & t(e).le(*hi);
    s.assert(match c {
        Within(e, lo, hi) => g(e, lo, hi),
        Before(x, y) => t(x).lt(t(y)),
        Persists(v, w) => a(v).implies(a(w)),
        Born(v) => a(v),
        Step(e, lo, hi, v, b) => g(e, lo, hi).implies(a(v).eq(Bool::from_bool(*b))),
    });
}

/// Relies on z3's `Solver::check`: `Sat` only when the assertions can all hold,
/// `Unsat` only when they cannot; `Unknown` says neither.
#[verifier::external_body]
fn solver_check(s: &z3::Solver) -> (r: Verdict)
    ensures
        r == Verdict::Sat ==> satisfiable(solver_clauses(*s)),
        r == Verdict::Unsat ==> !satisfiable(solver_clauses(*s)),
{
    match s.check() {
        z3::SatResult::Sat => Verdict::Sat,
        z3::SatResult::Unsat => Verdict::Unsat,
        z3::SatResult::Unknown => Verdict::Unknown,
    }
}


/// `i` is the first member of the cast named `c`.
pub open spec fn first_in_cast(cast: Seq<(Seq<char>, Seq<char>)>, c: Seq<char>, i: int) -> bool {
    0 <= i < cast.len() && cast[i].0 == c && forall|j: int| 0 <= j < i ==> #[trigger] cast[j].0 != c
}

/// Some member of the cast is named `c`.
pub open spec fn in_cast(cast: Seq<(Seq<char>, Seq<char>)>, c: Seq<char>) -> bool {
    exists|i: int| 0 <= i < cast.len() && #[trigger] cast[i].0 == c
}

/// The position of the first member of the cast named `c`.
pub open spec fn cast_index(cast: Seq<(Seq<char>, Seq<char>)>, c: Seq<char>) -> int {
    choose|i: int| first_in_cast(cast, c, i)
}

/// Every victim and every participant of an event is in the cast.
pub open spec fn cast_known(ev: Seq<EventView>, cast: Seq<(Seq<char>, Seq<char>)>) -> bool {
    &&& forall|i: int, m: int| 0 <= i < ev.len() && 0 <= m < ev[i].effects.len() && (#[trigger] ev[i].effects[m]) is Some
        ==> in_cast(cast, ev[i].effects[m]->0)
    &&& forall|i: int, p: int| 0 <= i < ev.len() && 0 <= p < ev[i].characters.len()
        ==> in_cast(cast, (#[trigger] ev[i].characters[p]).0)
}

/// Event `e` kills its participant at position `p` (the effect at `p` is a death).
pub open spec fn kills(e: EventView, p: int) -> bool {
    0 <= p < e.effects.len() && e.effects[p] is Some
}

/// Some character is the victim of two death effects.
pub open spec fn double_death(ev: Seq<EventView>) -> bool {
    exists|i1: int, m1: int, i2: int, m2: int|
        0 <= i1 < ev.len() && 0 <= m1 < ev[i1].effects.len() && 0 <= i2 < ev.len() && 0 <= m2 < ev[i2].effects.len()
            && (i1, m1) != (i2, m2) && (#[trigger] ev[i1].effects[m1]) is Some
            && ev[i1].effects[m1] == #[trigger] ev[i2].effects[m2]
}

/// `x` is the name of one of the events.
pub open spec fn is_event_name(ev: Seq<EventView>, x: Seq<char>) -> bool {
    exists|j: int| 0 <= j < ev.len() && (#[trigger] ev[j]).name == x
}

/// The liveness model of a timeline: an integer time per event name in
/// `[0, HORIZON]`, each listed event strictly before the ones it names; for each
/// member of the cast (by position) and each step, whether they are alive. Everyone
/// starts alive, death is permanent, a victim is dead from the time of its death
/// event on, and a participant is alive at the time of the event, or strictly before
/// it when the event kills them.
pub open spec fn liveness_model(
    ev: Seq<EventView>,
    cast: Seq<(Seq<char>, Seq<char>)>,
    time: spec_fn(Seq<char>) -> int,
    alive: spec_fn(int, int) -> bool,
) -> bool {
    &&& forall|i: int| 0 <= i < ev.len() ==> 0 <= #[trigger] time(ev[i].name) <= HORIZON
    &&& forall|i: int, m: int, j: int|
        0 <= i < ev.len() && 0 <= m < ev[i].before.len() && 0 <= j < ev.len() && #[trigger] ev[i].before[m] == #[trigger] ev[j].name
            ==> time(ev[i].name) < time(ev[j].name)
    &&& forall|ci: int, k: int| 0 <= ci < cast.len() && 1 <= k <= HORIZON ==> (#[trigger] alive(ci, k) ==> alive(ci, k - 1))
    &&& forall|ci: int, k: int| 0 <= ci < cast.len() && 0 <= k < HORIZON ==> (!#[trigger] alive(ci, k) ==> !alive(ci, k + 1))
    &&& forall|ci: int| 0 <= ci < cast.len() ==> #[trigger] alive(ci, 0)
    &&& forall|i: int, m: int, k: int|
        0 <= i < ev.len() && 0 <= m < ev[i].effects.len() && (#[trigger] ev[i].effects[m]) is Some && 0 <= k <= HORIZON
            && k >= time(ev[i].name) ==> !#[trigger] alive(cast_index(cast, ev[i].effects[m]->0), k)
    &&& forall|i: int, p: int, k: int|
        0 <= i < ev.len() && 0 <= p < ev[i].characters.len() && 0 <= k <= HORIZON ==> (if kills(ev[i], p) {
            k < time(ev[i].name) ==> #[trigger] alive(cast_index(cast, ev[i].characters[p].0), k)
        } else {
            k == time(ev[i].name) ==> alive(cast_index(cast, ev[i].characters[p].0), k)
        })
}

/// The timeline can happen: no character dies twice, and the liveness model has a
/// solution.
pub open spec fn consistent(ev: Seq<EventView>, cast: Seq<(Seq<char>, Seq<char>)>) -> bool {
    &&& !double_death(ev)
    &&& exists|time: spec_fn(Seq<char>) -> int, alive: spec_fn(int, int) -> bool| #[trigger] liveness_model(ev, cast, time, alive)
}

/// The solver variable of cast member `ci` at step `k`.
pub open spec fn step_var(ci: int, k: int) -> nat {
    (ci * (HORIZON + 1) + k) as nat
}

/// Liveness by cast position and step, read from the solver variables.
pub open spec fn lift(av: spec_fn(nat) -> bool) -> spec_fn(int, int) -> bool {
    |ci: int, k: int| av(step_var(ci, k))
}

pub open spec fn cast_block(ci: int, c: Clause) -> bool {
    ||| c == Clause::Born(step_var(ci, 0))
    ||| exists|k: int| 1 <= k <= HORIZON && c == Clause::Persists(#[trigger] step_var(ci, k), step_var(ci, k - 1))
}

/// Which clause family a run of steps belongs to.
#[derive(Clone, Copy, Debug, PartialEq, Eq, Structural)]
pub enum StepKind {
    Dead,
    AliveBefore,
    AliveAt,
}

/// The clause of a step run for step `k`: dead from the event on, alive strictly
/// before it, or alive at it.
pub open spec fn step_clause(kind: StepKind, e: Seq<char>, ci: int, k: int) -> Clause {
    match kind {
        StepKind::Dead => Clause::Step(e, 0, k, step_var(ci, k), false),
        StepKind::AliveBefore => Clause::Step(e, k + 1, HORIZON as int, step_var(ci, k), true),
        StepKind::AliveAt => Clause::Step(e, k, k, step_var(ci, k), true),
    }
}

pub open spec fn step_block(kind: StepKind, e: Seq<char>, ci: int, c: Clause) -> bool {
    exists|k: int| 0 <= k <= HORIZON && c == #[trigger] step_clause(kind, e, ci, k)
}

pub open spec fn dead_block(e: Seq<char>, ci: int, c: Clause) -> bool {
    step_block(StepKind::Dead, e, ci, c)
}

pub open spec fn before_block(e: Seq<char>, ci: int, c: Clause) -> bool {
    step_block(StepKind::AliveBefore, e, ci, c)
}

pub open spec fn at_block(e: Seq<char>, ci: int, c: Clause) -> bool {
    step_block(StepKind::AliveAt, e, ci, c)
}

pub open spec fn within_clause(ev: Seq<EventView>, c: Clause) -> bool {
    exists|i: int| 0 <= i < ev.len() && c == Clause::Within(#[trigger] ev[i].name, 0, HORIZON as int)
}

pub open spec fn order_clause(ev: Seq<EventView>, c: Clause) -> bool {
    exists|i: int, m: int| 0 <= i < ev.len() && 0 <= m < ev[i].before.len() && is_event_name(ev, ev[i].before[m])
        && c == Clause::Before(ev[i].name, #[trigger] ev[i].before[m])
}

pub open spec fn life_clause(cast: Seq<(Seq<char>, Seq<char>)>, c: Clause) -> bool {
    exists|ci: int| 0 <= ci < cast.len() && #[trigger] cast_block(ci, c)
}

pub open spec fn death_clause(ev: Seq<EventView>, cast: Seq<(Seq<char>, Seq<char>)>, c: Clause) -> bool {
    exists|i: int, m: int| 0 <= i < ev.len() && 0 <= m < ev[i].effects.len() && (#[trigger] ev[i].effects[m]) is Some
        && dead_block(ev[i].name, cast_index(cast, ev[i].effects[m]->0), c)
}

pub open spec fn presence_block(ev: Seq<EventView>, cast: Seq<(Seq<char>, Seq<char>)>, i: int, p: int, c: Clause) -> bool {
    let who = cast_index(cast, ev[i].characters[p].0);
    if kills(ev[i], p) { before_block(ev[i].name, who, c) } else { at_block(ev[i].name, who, c) }
}

pub open spec fn presence_clause(ev: Seq<EventView>, cast: Seq<(Seq<char>, Seq<char>)>, c: Clause) -> bool {
    exists|i: int, p: int| 0 <= i < ev.len() && 0 <= p < ev[i].characters.len() && #[trigger] presence_block(ev, cast, i, p, c)
}

/// The clauses that encode the liveness model.
pub open spec fn model_clause(ev: Seq<EventView>, cast: Seq<(Seq<char>, Seq<char>)>, c: Clause) -> bool {
    ||| within_clause(ev, c)
    ||| order_clause(ev, c)
    ||| life_clause(cast, c)
    ||| death_clause(ev, cast, c)
    ||| presence_clause(ev, cast, c)
}

proof fn lemma_cast_index(cast: Seq<(Seq<char>, Seq<char>)>, c: Seq<char>)
    requires
        in_cast(cast, c),
    ensures
        first_in_cast(cast, c, cast_index(cast, c)),
{
    let i = choose|i: int| 0 <= i < cast.len() && #[trigger] cast[i].0 == c;
    lemma_first_exists(cast, c, i);
}

proof fn lemma_first_exists(cast: Seq<(Seq<char>, Seq<char>)>, c: Seq<char>, i: int)
    requires
        0 <= i < cast.len(),
        cast[i].0 == c,
    ensures
        exists|j: int| first_in_cast(cast, c, j),
    decreases i,
{
    if exists|j: int| 0 <= j < i && #[trigger] cast[j].0 == c {
        let j = choose|j: int| 0 <= j < i && #[trigger] cast[j].0 == c;
        lemma_first_exists(cast, c, j);
    } else {
        assert(first_in_cast(cast, c, i));
    }
}

/// The model clauses hold under an assignment exactly when the liveness model holds
/// with liveness read from the solver variables.
proof fn lemma_clauses_mean_model(
    ev: Seq<EventView>,
    cast: Seq<(Seq<char>, Seq<char>)>,
    time: spec_fn(Seq<char>) -> int,
    av: spec_fn(nat) -> bool,
)
    requires
        cast_known(ev, cast),
    ensures
        (forall|c: Clause| #[trigger] model_clause(ev, cast, c) ==> holds(c, time, av))
            <==> liveness_model(ev, cast, time, lift(av)),
{
    let alive = lift(av);
    if forall|c: Clause| #[trigger] model_clause(ev, cast, c) ==> holds(c, time, av) {
        assert forall|i: int| 0 <= i < ev.len() implies 0 <= #[trigger] time(ev[i].name) <= HORIZON by {
            let c = Clause::Within(ev[i].name, 0, HORIZON as int);
            assert(within_clause(ev, c));
            assert(model_clause(ev, cast, c));
        }
        assert forall|i: int, m: int, j: int|
            0 <= i < ev.len() && 0 <= m < ev[i].before.len() && 0 <= j < ev.len() && #[trigger] ev[i].before[m] == #[trigger] ev[j].name
                implies time(ev[i].name) < time(ev[j].name) by {
            let c = Clause::Before(ev[i].name, ev[i].before[m]);
            assert(is_event_name(ev, ev[i].before[m]));
            assert(order_clause(ev, c));
            assert(model_clause(ev, cast, c));
        }
        assert forall|ci: int, k: int| 0 <= ci < cast.len() && 1 <= k <= HORIZON implies (#[trigger] alive(ci, k) ==> alive(ci, k - 1)) by {
            let c = Clause::Persists(step_var(ci, k), step_var(ci, k - 1));
            assert(cast_block(ci, c));
            assert(life_clause(cast, c));
            assert(model_clause(ev, cast, c));
        }
        assert forall|ci: int, k: int| 0 <= ci < cast.len() && 0 <= k < HORIZON implies (!#[trigger] alive(ci, k) ==> !alive(ci, k + 1)) by {
            let c = Clause::Persists(step_var(ci, k + 1), step_var(ci, k + 1 - 1));
            assert(cast_block(ci, c));
            assert(life_clause(cast, c));
            assert(model_clause(ev, cast, c));
        }
        assert forall|ci: int| 0 <= ci < cast.len() implies #[trigger] alive(ci, 0) by {
            let c = Clause::Born(step_var(ci, 0));
            assert(cast_block(ci, c));
            assert(life_clause(cast, c));
            assert(model_clause(ev, cast, c));
        }
        assert forall|i: int, m: int, k: int|
            0 <= i < ev.len() && 0 <= m < ev[i].effects.len() && (#[trigger] ev[i].effects[m]) is Some && 0 <= k <= HORIZON
                && k >= time(ev[i].name) implies !#[trigger] alive(cast_index(cast, ev[i].effects[m]->0), k) by {
            let ci = cast_index(cast, ev[i].effects[m]->0);
            let c = step_clause(StepKind::Dead, ev[i].name, ci, k);
            assert(0 <= time(ev[i].name));
            assert(dead_block(ev[i].name, ci, c));
            assert(death_clause(ev, cast, c));
            assert(model_clause(ev, cast, c));
        }
        assert forall|i: int, p: int, k: int|
            0 <= i < ev.len() && 0 <= p < ev[i].characters.len() && 0 <= k <= HORIZON implies (if kills(ev[i], p) {
                k < time(ev[i].name) ==> #[trigger] alive(cast_index(cast, ev[i].characters[p].0), k)
            } else {
                k == time(ev[i].name) ==> alive(cast_index(cast, ev[i].characters[p].0), k)
            }) by {
            let ci = cast_index(cast, ev[i].characters[p].0);
            if kills(ev[i], p) {
                let c = step_clause(StepKind::AliveBefore, ev[i].name, ci, k);
                assert(time(ev[i].name) <= HORIZON);
                assert(before_block(ev[i].name, ci, c));
                assert(presence_block(ev, cast, i, p, c));
                assert(presence_clause(ev, cast, c));
                assert(model_clause(ev, cast, c));
            } else {
                let c = step_clause(StepKind::AliveAt, ev[i].name, ci, k);
                assert(at_block(ev[i].name, ci, c));
                assert(presence_block(ev, cast, i, p, c));
                assert(presence_clause(ev, cast, c));
                assert(model_clause(ev, cast, c));
            }
        }
    }
    if liveness_model(ev, cast, time, alive) {
        assert forall|c: Clause| #[trigger] model_clause(ev, cast, c) implies holds(c, time, av) by {
            if within_clause(ev, c) {
                let i = choose|i: int| 0 <= i < ev.len() && c == Clause::Within(#[trigger] ev[i].name, 0, HORIZON as int);
                assert(0 <= time(ev[i].name) <= HORIZON);
            } else if order_clause(ev, c) {
                let (i, m) = choose|i: int, m: int| 0 <= i < ev.len() && 0 <= m < ev[i].before.len() && is_event_name(ev, ev[i].before[m])
                    && c == Clause::Before(ev[i].name, #[trigger] ev[i].before[m]);
                let j = choose|j: int| 0 <= j < ev.len() && (#[trigger] ev[j]).name == ev[i].before[m];
                assert(ev[i].before[m] == ev[j].name);
            } else if life_clause(cast, c) {
                let ci = choose|ci: int| 0 <= ci < cast.len() && #[trigger] cast_block(ci, c);
                if c != Clause::Born(step_var(ci, 0)) {
                    let k = choose|k: int| 1 <= k <= HORIZON && c == Clause::Persists(#[trigger] step_var(ci, k), step_var(ci, k - 1));
                    assert(alive(ci, k) ==> alive(ci, k - 1));
                } else {
                    assert(alive(ci, 0));
                }
            } else if death_clause(ev, cast, c) {
                let (i, m) = choose|i: int, m: int| 0 <= i < ev.len() && 0 <= m < ev[i].effects.len() && (#[trigger] ev[i].effects[m]) is Some
                    && dead_block(ev[i].name, cast_index(cast, ev[i].effects[m]->0), c);
                let ci = cast_index(cast, ev[i].effects[m]->0);
                let k = choose|k: int| 0 <= k <= HORIZON && c == #[trigger] step_clause(StepKind::Dead, ev[i].name, ci, k);
                if k >= time(ev[i].name) {
                    assert(!alive(ci, k));
                }
            } else {
                assert(presence_clause(ev, cast, c));
                let (i, p) = choose|i: int, p: int| 0 <= i < ev.len() && 0 <= p < ev[i].characters.len() && #[trigger] presence_block(ev, cast, i, p, c);
                let ci = cast_index(cast, ev[i].characters[p].0);
                if kills(ev[i], p) {
                    let k = choose|k: int| 0 <= k <= HORIZON && c == #[trigger] step_clause(StepKind::AliveBefore, ev[i].name, ci, k);
                    if k < time(ev[i].name) {
                        assert(alive(ci, k));
                    }
                } else {
                    let k = choose|k: int| 0 <= k <= HORIZON && c == #[trigger] step_clause(StepKind::AliveAt, ev[i].name, ci, k);
                    if k == time(ev[i].name) {
                        assert(alive(ci, k));
                    }
                }
            }
        }
    }
}

/// Solver variables that hold the given liveness function.
pub open spec fn unlift(alive: spec_fn(int, int) -> bool) -> spec_fn(nat) -> bool {
    |v: nat| alive((v as int) / 1001, (v as int) % 1001)
}

/// A model with any liveness function gives one read from solver variables.
proof fn lemma_model_through_vars(
    ev: Seq<EventView>,
    cast: Seq<(Seq<char>, Seq<char>)>,
    time: spec_fn(Seq<char>) -> int,
    alive: spec_fn(int, int) -> bool,
)
    requires
        cast_known(ev, cast),
        liveness_model(ev, cast, time, alive),
    ensures
        liveness_model(ev, cast, time, lift(unlift(alive))),
{
    let l = lift(unlift(alive));
    assert forall|ci: int, k: int| 0 <= ci && 0 <= k <= HORIZON implies #[trigger] l(ci, k) == alive(ci, k) by {
        let v = step_var(ci, k);
        assert(v == ci * 1001 + k);
        vstd::arithmetic::div_mod::lemma_fundamental_div_mod_converse(v as int, 1001, ci, k);
    }
    assert forall|i: int, m: int| 0 <= i < ev.len() && 0 <= m < ev[i].effects.len() && (#[trigger] ev[i].effects[m]) is Some
        implies 0 <= cast_index(cast, ev[i].effects[m]->0) < cast.len() by {
        lemma_cast_index(cast, ev[i].effects[m]->0);
    }
    assert forall|i: int, p: int| 0 <= i < ev.len() && 0 <= p < ev[i].characters.len()
        implies 0 <= cast_index(cast, (#[trigger] ev[i].characters[p]).0) < cast.len() by {
        lemma_cast_index(cast, ev[i].characters[p].0);
    }
}

proof fn lemma_push_contains(cs: Seq<Clause>, x: Clause)
    ensures
        forall|c: Clause| #[trigger] cs.push(x).contains(c) <==> (cs.contains(c) || c == x),
{
    assert forall|c: Clause| #[trigger] cs.push(x).contains(c) <==> (cs.contains(c) || c == x) by {
        if cs.push(x).contains(c) {
            let k = choose|k: int| 0 <= k < cs.push(x).len() && cs.push(x)[k] == c;
            if k < cs.len() {
                assert(cs[k] == c);
            }
        }
        if cs.contains(c) {
            let k = choose|k: int| 0 <= k < cs.len() && cs[k] == c;
            assert(cs.push(x)[k] == c);
        }
        if c == x {
            assert(cs.push(x)[cs.len() as int] == c);
        }
    }
}


/// Asserts the clause of `kind` for event `e` and cast member `ci` at every step.
fn assert_steps(s: &mut z3::Solver, kind: StepKind, e: &String, ci: usize)
    requires
        ci * 1001 + 1001 < STEP_LIMIT,
        symbol_safe(e@),
    ensures
        forall|c: Clause| #[trigger] solver_clauses(*final(s)).contains(c)
            <==> (solver_clauses(*old(s)).contains(c) || step_block(kind, e@, ci as int, c)),
{
    let base: u32 = (ci * 1001) as u32;
    let mut k: i64 = 0;
    while k <= HORIZON
        invariant
            base == ci * 1001,
            ci * 1001 + 1001 < STEP_LIMIT,
            symbol_safe(e@),
            0 <= k <= HORIZON + 1,
            forall|c: Clause| #[trigger] solver_clauses(*s).contains(c) <==> (solver_clauses(*old(s)).contains(c)
                || exists|k2: int| 0 <= k2 < k && c == #[trigger] step_clause(kind, e@, ci as int, k2)),
        decreases HORIZON + 1 - k,
    {
        let v: u32 = base + k as u32;
        let c = match kind {
            StepKind::Dead => Step(e.clone(), 0, k, v, false),
            StepKind::AliveBefore => Step(e.clone(), k + 1, HORIZON, v, true),
            StepKind::AliveAt => Step(e.clone(), k, k, v, true),
        };
        let ghost cs0 = solver_clauses(*s);
        solver_assert(s, &c);
        proof {
            lemma_push_contains(cs0, c@);
            assert(step_var(ci as int, k as int) == v);
            assert(c@ == step_clause(kind, e@, ci as int, k as int));
            assert forall|cl: Clause| #[trigger] solver_clauses(*s).contains(cl) <==> (solver_clauses(*old(s)).contains(cl)
                || exists|k2: int| 0 <= k2 < k + 1 && cl == #[trigger] step_clause(kind, e@, ci as int, k2)) by {
                if exists|k2: int| 0 <= k2 < k + 1 && cl == #[trigger] step_clause(kind, e@, ci as int, k2) {
                    let k2 = choose|k2: int| 0 <= k2 < k + 1 && cl == #[trigger] step_clause(kind, e@, ci as int, k2);
                    if k2 < k {
                        assert(exists|k3: int| 0 <= k3 < k && cl == #[trigger] step_clause(kind, e@, ci as int, k3));
                    }
                }
            }
        }
        k += 1;
    }
}

spec fn life_upto(ci: int, k: int, c: Clause) -> bool {
    ||| c == Clause::Born(step_var(ci, 0))
    ||| exists|k2: int| 1 <= k2 < k && c == Clause::Persists(#[trigger] step_var(ci, k2), step_var(ci, k2 - 1))
}

#[verifier::rlimit(30)]
proof fn lemma_life_step(ci: int, k: int)
    requires
        1 <= k,
    ensures
        forall|c: Clause| #[trigger] life_upto(ci, k + 1, c)
            <==> (life_upto(ci, k, c) || c == Clause::Persists(step_var(ci, k), step_var(ci, k - 1))),
{
    assert forall|c: Clause| #[trigger] life_upto(ci, k + 1, c)
        <==> (life_upto(ci, k, c) || c == Clause::Persists(step_var(ci, k), step_var(ci, k - 1))) by {
        if c != Clause::Born(step_var(ci, 0)) && life_upto(ci, k + 1, c) {
            let k2 = choose|k2: int| 1 <= k2 < k + 1 && c == Clause::Persists(#[trigger] step_var(ci, k2), step_var(ci, k2 - 1));
            if k2 < k {
                assert(life_upto(ci, k, c));
            } else {
                assert(k2 == k);
            }
        }
        if c == Clause::Persists(step_var(ci, k), step_var(ci, k - 1)) {
            assert(1 <= k < k + 1);
            assert(life_upto(ci, k + 1, c));
        }
        if life_upto(ci, k, c) && c != Clause::Born(step_var(ci, 0)) {
            let k2 = choose|k2: int| 1 <= k2 < k && c == Clause::Persists(#[trigger] step_var(ci, k2), step_var(ci, k2 - 1));
            assert(1 <= k2 < k + 1);
        }
    }
}

/// Asserts that cast member `ci` starts alive and never comes back to life.
#[verifier::rlimit(40)]
fn assert_life(s: &mut z3::Solver, ci: usize)
    requires
        ci * 1001 + 1001 < STEP_LIMIT,
    ensures
        forall|c: Clause| #[trigger] solver_clauses(*final(s)).contains(c)
            <==> (solver_clauses(*old(s)).contains(c) || cast_block(ci as int, c)),
{
    let base: u32 = (ci * 1001) as u32;
    let ghost cs0 = solver_clauses(*s);
    solver_assert(s, &Constraint::Born(base));
    proof {
        lemma_push_contains(cs0, Clause::Born(base as nat));
        assert(step_var(ci as int, 0) == base);
        assert forall|c: Clause| #[trigger] solver_clauses(*s).contains(c) <==> (solver_clauses(*old(s)).contains(c)
            || life_upto(ci as int, 1, c)) by {}
    }
    let mut k: i64 = 1;
    while k <= HORIZON
        invariant
            base == ci * 1001,
            ci * 1001 + 1001 < STEP_LIMIT,
            1 <= k <= HORIZON + 1,
            forall|c: Clause| #[trigger] solver_clauses(*s).contains(c) <==> (solver_clauses(*old(s)).contains(c)
                || life_upto(ci as int, k as int, c)),
        decreases HORIZON + 1 - k,
    {
        let v: u32 = base + k as u32;
        let ghost cs1 = solver_clauses(*s);
        solver_assert(s, &Constraint::Persists(v, v - 1));
        proof {
            lemma_push_contains(cs1, Clause::Persists(v as nat, (v - 1) as nat));
            assert(step_var(ci as int, k as int) == v);
            assert(step_var(ci as int, k - 1) == v - 1);
            lemma_life_step(ci as int, k as int);
            let nc = Clause::Persists(v as nat, (v - 1) as nat);
            assert forall|c: Clause| #[trigger] solver_clauses(*s).contains(c) <==> (solver_clauses(*old(s)).contains(c)
                || life_upto(ci as int, k + 1, c)) by {
                assert(solver_clauses(*s).contains(c) <==> (cs1.contains(c) || c == nc));
                assert(life_upto(ci as int, k + 1, c) <==> (life_upto(ci as int, k as int, c) || c == nc));
            }
        }
        k += 1;
    }
    proof {
        assert forall|c: Clause| #[trigger] life_upto(ci as int, k as int, c) <==> cast_block(ci as int, c) by {}
    }
}

/// The position of the first member of the cast named `c`.
fn cast_position(chars: &Vec<Character>, c: &String) -> (r: usize)
    requires
        in_cast(cast_view(chars@), c@),
    ensures
        r == cast_index(cast_view(chars@), c@),
        r < chars.len(),
{
    let ghost cast = cast_view(chars@);
    proof { lemma_cast_index(cast, c@); }
    let mut i: usize = 0;
    while i < chars.len()
        invariant
            cast == cast_view(chars@),
            in_cast(cast, c@),
            first_in_cast(cast, c@, cast_index(cast, c@)),
            i <= chars.len(),
            forall|j: int| 0 <= j < i ==> #[trigger] cast[j].0 != c@,
        decreases chars.len() - i,
    {
        proof { assert(cast[i as int].0 == chars@[i as int].name@); }
        if str_eq(chars[i].name.as_str(), c.as_str()) {
            proof {
                let f = cast_index(cast, c@);
                if f < i { assert(cast[f].0 != c@); }
                if f > i { assert(cast[i as int].0 != c@); }
            }
            return i;
        }
        i += 1;
    }
    proof {
        let f = cast_index(cast, c@);
        assert(cast[f].0 != c@);
    }
    0
}

/// Whether `x` is the name of one of the events.
fn names_an_event(events: &Vec<Event>, x: &String) -> (r: bool)
    ensures
        r == is_event_name(events_view(events@), x@),
{
    let ghost ev = events_view(events@);
    let mut j: usize = 0;
    while j < events.len()
        invariant
            ev == events_view(events@),
            j <= events.len(),
            forall|q: int| 0 <= q < j ==> (#[trigger] ev[q]).name != x@,
        decreases events.len() - j,
    {
        proof { assert(ev[j as int].name == events@[j as int].name@); }
        if str_eq(events[j].name.as_str(), x.as_str()) {
            return true;
        }
        j += 1;
    }
    false
}

/// Whether a death effect other than the one at `(i1, m1)` names victim `c`.
fn death_elsewhere(events: &Vec<Event>, i1: usize, m1: usize, c: &String) -> (r: bool)
    ensures
        r == exists|i2: int, m2: int| 0 <= i2 < events.len() && 0 <= m2 < events_view(events@)[i2].effects.len()
            && (i1 as int, m1 as int) != (i2, m2) && #[trigger] events_view(events@)[i2].effects[m2] == Some(c@),
{
    let ghost ev = events_view(events@);
    let mut i: usize = 0;
    while i < events.len()
        invariant
            ev == events_view(events@),
            i <= events.len(),
            forall|i2: int, m2: int| 0 <= i2 < i && 0 <= m2 < ev[i2].effects.len() && (i1 as int, m1 as int) != (i2, m2)
                ==> #[trigger] ev[i2].effects[m2] != Some(c@),
        decreases events.len() - i,
    {
        let mut m: usize = 0;
        while m < events[i].effects.len()
            invariant
                ev == events_view(events@),
                i < events.len(),
                m <= events@[i as int].effects.len(),
                forall|i2: int, m2: int| 0 <= i2 < i && 0 <= m2 < ev[i2].effects.len() && (i1 as int, m1 as int) != (i2, m2)
                    ==> #[trigger] ev[i2].effects[m2] != Some(c@),
                forall|m2: int| 0 <= m2 < m && (i1 as int, m1 as int) != (i as int, m2) ==> #[trigger] ev[i as int].effects[m2] != Some(c@),
            decreases events@[i as int].effects.len() - m,
        {
            proof { assert(ev[i as int].effects[m as int] == events@[i as int].effects@[m as int]@); }
            if i != i1 || m != m1 {
                match &events[i].effects[m] {
                    Effect::Death(v) => {
                        if str_eq(v.as_str(), c.as_str()) {
                            return true;
                        }
                    },
                    Effect::NoEffect => {},
                }
            }
            m += 1;
        }
        i += 1;
    }
    false
}

/// Whether some character is the victim of two death effects.
pub fn has_double_death(events: &Vec<Event>) -> (r: bool)
    ensures
        r == double_death(events_view(events@)),
{
    let ghost ev = events_view(events@);
    let mut i: usize = 0;
    while i < events.len()
        invariant
            ev == events_view(events@),
            i <= events.len(),
            forall|i1: int, m1: int, i2: int, m2: int|
                0 <= i1 < i && 0 <= m1 < ev[i1].effects.len() && 0 <= i2 < ev.len() && 0 <= m2 < ev[i2].effects.len()
                    && (i1, m1) != (i2, m2) && (#[trigger] ev[i1].effects[m1]) is Some
                    ==> ev[i1].effects[m1] != #[trigger] ev[i2].effects[m2],
        decreases events.len() - i,
    {
        let mut m: usize = 0;
        while m < events[i].effects.len()
            invariant
                ev == events_view(events@),
                i < events.len(),
                m <= events@[i as int].effects.len(),
                forall|i1: int, m1: int, i2: int, m2: int|
                    0 <= i1 < i && 0 <= m1 < ev[i1].effects.len() && 0 <= i2 < ev.len() && 0 <= m2 < ev[i2].effects.len()
                        && (i1, m1) != (i2, m2) && (#[trigger] ev[i1].effects[m1]) is Some
                        ==> ev[i1].effects[m1] != #[trigger] ev[i2].effects[m2],
                forall|m1: int, i2: int, m2: int|
                    0 <= m1 < m && 0 <= i2 < ev.len() && 0 <= m2 < ev[i2].effects.len()
                        && (i as int, m1) != (i2, m2) && (#[trigger] ev[i as int].effects[m1]) is Some
                        ==> ev[i as int].effects[m1] != #[trigger] ev[i2].effects[m2],
            decreases events@[i as int].effects.len() - m,
        {
            proof { assert(ev[i as int].effects[m as int] == events@[i as int].effects@[m as int]@); }
            match &events[i].effects[m] {
                Effect::Death(v) => {
                    if death_elsewhere(events, i, m, v) {
                        return true;
                    }
                },
                Effect::NoEffect => {},
            }
            m += 1;
        }
        i += 1;
    }
    false
}

/// Bounds every event's time to `[0, HORIZON]`.
fn assert_within(s: &mut z3::Solver, events: &Vec<Event>)
    requires
        names_symbol_safe(events_view(events@)),
    ensures
        forall|c: Clause| #[trigger] solver_clauses(*final(s)).contains(c)
            <==> (solver_clauses(*old(s)).contains(c) || within_clause(events_view(events@), c)),
{
    let ghost ev = events_view(events@);
    let mut i: usize = 0;
    while i < events.len()
        invariant
            ev == events_view(events@),
            names_symbol_safe(ev),
            i <= events.len(),
            forall|c: Clause| #[trigger] solver_clauses(*s).contains(c) <==> (solver_clauses(*old(s)).contains(c)
                || exists|q: int| 0 <= q < i && c == Clause::Within(#[trigger] ev[q].name, 0, HORIZON as int)),
        decreases events.len() - i,
    {
        let ghost cs0 = solver_clauses(*s);
        let c = Constraint::Within(events[i].name.clone(), 0, HORIZON);
        proof { assert(symbol_safe(ev[i as int].name)); }
        solver_assert(s, &c);
        proof {
            assert(ev[i as int].name == events@[i as int].name@);
            lemma_push_contains(cs0, c@);
            assert forall|cl: Clause| #[trigger] solver_clauses(*s).contains(cl) <==> (solver_clauses(*old(s)).contains(cl)
                || exists|q: int| 0 <= q < i + 1 && cl == Clause::Within(#[trigger] ev[q].name, 0, HORIZON as int)) by {
                if exists|q: int| 0 <= q < i + 1 && cl == Clause::Within(#[trigger] ev[q].name, 0, HORIZON as int) {
                    let q = choose|q: int| 0 <= q < i + 1 && cl == Clause::Within(#[trigger] ev[q].name, 0, HORIZON as int);
                    if q < i {
                        assert(exists|q2: int| 0 <= q2 < i && cl == Clause::Within(#[trigger] ev[q2].name, 0, HORIZON as int));
                    }
                }
                if cl == c@ {
                    assert(cl == Clause::Within(ev[i as int].name, 0, HORIZON as int));
                }
            }
        }
        i += 1;
    }
}

spec fn order_upto(ev: Seq<EventView>, i: int, m: int, c: Clause) -> bool {
    exists|i2: int, m2: int| 0 <= i2 < ev.len() && 0 <= m2 < ev[i2].before.len() && (i2 < i || (i2 == i && m2 < m))
        && is_event_name(ev, ev[i2].before[m2]) && c == Clause::Before(ev[i2].name, #[trigger] ev[i2].before[m2])
}

/// Orders each event strictly before every event it lists.
fn assert_order(s: &mut z3::Solver, events: &Vec<Event>)
    requires
        names_symbol_safe(events_view(events@)),
    ensures
        forall|c: Clause| #[trigger] solver_clauses(*final(s)).contains(c)
            <==> (solver_clauses(*old(s)).contains(c) || order_clause(events_view(events@), c)),
{
    let ghost ev = events_view(events@);
    let mut i: usize = 0;
    while i < events.len()
        invariant
            ev == events_view(events@),
            names_symbol_safe(ev),
            i <= events.len(),
            forall|c: Clause| #[trigger] solver_clauses(*s).contains(c) <==> (solver_clauses(*old(s)).contains(c)
                || order_upto(ev, i as int, 0, c)),
        decreases events.len() - i,
    {
        let mut m: usize = 0;
        while m < events[i].before.len()
            invariant
                ev == events_view(events@),
            names_symbol_safe(ev),
                i < events.len(),
                m <= events@[i as int].before.len(),
                forall|c: Clause| #[trigger] solver_clauses(*s).contains(c) <==> (solver_clauses(*old(s)).contains(c)
                    || order_upto(ev, i as int, m as int, c)),
            decreases events@[i as int].before.len() - m,
        {
            proof {
                assert(ev[i as int].before[m as int] == events@[i as int].before@[m as int]@);
                assert(ev[i as int].name == events@[i as int].name@);
            }
            let ghost cs0 = solver_clauses(*s);
            if names_an_event(events, &events[i].before[m]) {
                let c = Constraint::Before(events[i].name.clone(), events[i].before[m].clone());
                proof {
                    assert(symbol_safe(ev[i as int].name));
                    let j = choose|j: int| 0 <= j < ev.len() && (#[trigger] ev[j]).name == ev[i as int].before[m as int];
                    assert(symbol_safe(ev[j].name));
                }
                solver_assert(s, &c);
                proof {
                    lemma_push_contains(cs0, c@);
                    assert forall|cl: Clause| #[trigger] solver_clauses(*s).contains(cl) <==> (solver_clauses(*old(s)).contains(cl)
                        || order_upto(ev, i as int, m + 1, cl)) by {
                        if order_upto(ev, i as int, m + 1, cl) {
                            let (i2, m2) = choose|i2: int, m2: int| 0 <= i2 < ev.len() && 0 <= m2 < ev[i2].before.len() && (i2 < i || (i2 == i && m2 < m + 1))
                                && is_event_name(ev, ev[i2].before[m2]) && cl == Clause::Before(ev[i2].name, #[trigger] ev[i2].before[m2]);
                            if i2 < i || m2 < m {
                                assert(order_upto(ev, i as int, m as int, cl));
                            }
                        }
                        if order_upto(ev, i as int, m as int, cl) {
                            let (i2, m2) = choose|i2: int, m2: int| 0 <= i2 < ev.len() && 0 <= m2 < ev[i2].before.len() && (i2 < i || (i2 == i && m2 < m))
                                && is_event_name(ev, ev[i2].before[m2]) && cl == Clause::Before(ev[i2].name, #[trigger] ev[i2].before[m2]);
                            assert(order_upto(ev, i as int, m + 1, cl));
                        }
                        if cl == c@ {
                            assert(order_upto(ev, i as int, m + 1, cl));
                        }
                    }
                }
            } else {
                proof {
                    assert forall|cl: Clause| #[trigger] solver_clauses(*s).contains(cl) <==> (solver_clauses(*old(s)).contains(cl)
                        || order_upto(ev, i as int, m + 1, cl)) by {
                        if order_upto(ev, i as int, m + 1, cl) {
                            let (i2, m2) = choose|i2: int, m2: int| 0 <= i2 < ev.len() && 0 <= m2 < ev[i2].before.len() && (i2 < i || (i2 == i && m2 < m + 1))
                                && is_event_name(ev, ev[i2].before[m2]) && cl == Clause::Before(ev[i2].name, #[trigger] ev[i2].before[m2]);
                            assert(order_upto(ev, i as int, m as int, cl));
                        }
                        if order_upto(ev, i as int, m as int, cl) {
                            let (i2, m2) = choose|i2: int, m2: int| 0 <= i2 < ev.len() && 0 <= m2 < ev[i2].before.len() && (i2 < i || (i2 == i && m2 < m))
                                && is_event_name(ev, ev[i2].before[m2]) && cl == Clause::Before(ev[i2].name, #[trigger] ev[i2].before[m2]);
                            assert(order_upto(ev, i as int, m + 1, cl));
                        }
                    }
                }
            }
            m += 1;
        }
        proof {
            assert forall|cl: Clause| #[trigger] order_upto(ev, i as int, m as int, cl) <==> order_upto(ev, i + 1, 0, cl) by {
                if order_upto(ev, i + 1, 0, cl) {
                    let (i2, m2) = choose|i2: int, m2: int| 0 <= i2 < ev.len() && 0 <= m2 < ev[i2].before.len() && (i2 < i + 1 || (i2 == i + 1 && m2 < 0))
                        && is_event_name(ev, ev[i2].before[m2]) && cl == Clause::Before(ev[i2].name, #[trigger] ev[i2].before[m2]);
                    assert(order_upto(ev, i as int, m as int, cl));
                }
                if order_upto(ev, i as int, m as int, cl) {
                    let (i2, m2) = choose|i2: int, m2: int| 0 <= i2 < ev.len() && 0 <= m2 < ev[i2].before.len() && (i2 < i || (i2 == i && m2 < m))
                        && is_event_name(ev, ev[i2].before[m2]) && cl == Clause::Before(ev[i2].name, #[trigger] ev[i2].before[m2]);
                    assert(order_upto(ev, i + 1, 0, cl));
                }
            }
        }
        i += 1;
    }
    proof {
        assert forall|cl: Clause| #[trigger] order_upto(ev, i as int, 0, cl) <==> order_clause(ev, cl) by {
            if order_clause(ev, cl) {
                let (i2, m2) = choose|i2: int, m2: int| 0 <= i2 < ev.len() && 0 <= m2 < ev[i2].before.len()
                    && is_event_name(ev, ev[i2].before[m2]) && cl == Clause::Before(ev[i2].name, #[trigger] ev[i2].before[m2]);
                assert(order_upto(ev, i as int, 0, cl));
            }
        }
    }
}

/// Every cast member starts alive and never comes back to life.
fn assert_lives(s: &mut z3::Solver, chars: &Vec<Character>)
    requires
        chars.len() * 1001 + 1001 < STEP_LIMIT,
    ensures
        forall|c: Clause| #[trigger] solver_clauses(*final(s)).contains(c)
            <==> (solver_clauses(*old(s)).contains(c) || life_clause(cast_view(chars@), c)),
{
    let ghost cast = cast_view(chars@);
    let mut ci: usize = 0;
    while ci < chars.len()
        invariant
            cast == cast_view(chars@),
            chars.len() * 1001 + 1001 < STEP_LIMIT,
            ci <= chars.len(),
            forall|c: Clause| #[trigger] solver_clauses(*s).contains(c) <==> (solver_clauses(*old(s)).contains(c)
                || exists|q: int| 0 <= q < ci && #[trigger] cast_block(q, c)),
        decreases chars.len() - ci,
    {
        assert_life(s, ci);
        proof {
            assert forall|cl: Clause| #[trigger] solver_clauses(*s).contains(cl) <==> (solver_clauses(*old(s)).contains(cl)
                || exists|q: int| 0 <= q < ci + 1 && #[trigger] cast_block(q, cl)) by {
                if exists|q: int| 0 <= q < ci + 1 && #[trigger] cast_block(q, cl) {
                    let q = choose|q: int| 0 <= q < ci + 1 && #[trigger] cast_block(q, cl);
                    if q < ci {
                        assert(exists|q2: int| 0 <= q2 < ci && #[trigger] cast_block(q2, cl));
                    }
                }
            }
        }
        ci += 1;
    }
}

spec fn death_upto(ev: Seq<EventView>, cast: Seq<(Seq<char>, Seq<char>)>, i: int, m: int, c: Clause) -> bool {
    exists|i2: int, m2: int| 0 <= i2 < ev.len() && 0 <= m2 < ev[i2].effects.len() && (i2 < i || (i2 == i && m2 < m))
        && (#[trigger] ev[i2].effects[m2]) is Some && dead_block(ev[i2].name, cast_index(cast, ev[i2].effects[m2]->0), c)
}

/// Kills each victim from the time of its death event on.
fn assert_deaths(s: &mut z3::Solver, events: &Vec<Event>, chars: &Vec<Character>)
    requires
        names_symbol_safe(events_view(events@)),
        cast_known(events_view(events@), cast_view(chars@)),
        chars.len() * 1001 + 1001 < STEP_LIMIT,
    ensures
        forall|c: Clause| #[trigger] solver_clauses(*final(s)).contains(c)
            <==> (solver_clauses(*old(s)).contains(c) || death_clause(events_view(events@), cast_view(chars@), c)),
{
    let ghost ev = events_view(events@);
    let ghost cast = cast_view(chars@);
    let mut i: usize = 0;
    while i < events.len()
        invariant
            ev == events_view(events@),
            names_symbol_safe(ev),
            cast == cast_view(chars@),
            cast_known(ev, cast),
            chars.len() * 1001 + 1001 < STEP_LIMIT,
            i <= events.len(),
            forall|c: Clause| #[trigger] solver_clauses(*s).contains(c) <==> (solver_clauses(*old(s)).contains(c)
                || death_upto(ev, cast, i as int, 0, c)),
        decreases events.len() - i,
    {
        let mut m: usize = 0;
        while m < events[i].effects.len()
            invariant
                ev == events_view(events@),
            names_symbol_safe(ev),
                cast == cast_view(chars@),
                cast_known(ev, cast),
                chars.len() * 1001 + 1001 < STEP_LIMIT,
                i < events.len(),
                m <= events@[i as int].effects.len(),
                forall|c: Clause| #[trigger] solver_clauses(*s).contains(c) <==> (solver_clauses(*old(s)).contains(c)
                    || death_upto(ev, cast, i as int, m as int, c)),
            decreases events@[i as int].effects.len() - m,
        {
            proof {
                assert(ev[i as int].effects[m as int] == events@[i as int].effects@[m as int]@);
                assert(ev[i as int].name == events@[i as int].name@);
            }
            match &events[i].effects[m] {
                Effect::Death(v) => {
                    proof { assert(in_cast(cast, ev[i as int].effects[m as int]->0)); }
                    let ci = cast_position(chars, v);
                    let ghost cs0 = solver_clauses(*s);
                    proof { assert(symbol_safe(ev[i as int].name)); }
                    assert_steps(s, StepKind::Dead, &events[i].name, ci);
                    proof {
                        assert forall|cl: Clause| #[trigger] solver_clauses(*s).contains(cl) <==> (solver_clauses(*old(s)).contains(cl)
                            || death_upto(ev, cast, i as int, m + 1, cl)) by {
                            if death_upto(ev, cast, i as int, m + 1, cl) {
                                let (i2, m2) = choose|i2: int, m2: int| 0 <= i2 < ev.len() && 0 <= m2 < ev[i2].effects.len() && (i2 < i || (i2 == i && m2 < m + 1))
                                    && (#[trigger] ev[i2].effects[m2]) is Some && dead_block(ev[i2].name, cast_index(cast, ev[i2].effects[m2]->0), cl);
                                if i2 < i || m2 < m {
                                    assert(death_upto(ev, cast, i as int, m as int, cl));
                                }
                            }
                            if death_upto(ev, cast, i as int, m as int, cl) {
                                let (i2, m2) = choose|i2: int, m2: int| 0 <= i2 < ev.len() && 0 <= m2 < ev[i2].effects.len() && (i2 < i || (i2 == i && m2 < m))
                                    && (#[trigger] ev[i2].effects[m2]) is Some && dead_block(ev[i2].name, cast_index(cast, ev[i2].effects[m2]->0), cl);
                                assert(death_upto(ev, cast, i as int, m + 1, cl));
                            }
                            if step_block(StepKind::Dead, events@[i as int].name@, ci as int, cl) {
                                assert(death_upto(ev, cast, i as int, m + 1, cl));
                            }
                        }
                    }
                },
                Effect::NoEffect => {
                    proof {
                        assert forall|cl: Clause| #[trigger] solver_clauses(*s).contains(cl) <==> (solver_clauses(*old(s)).contains(cl)
                            || death_upto(ev, cast, i as int, m + 1, cl)) by {
                            if death_upto(ev, cast, i as int, m + 1, cl) {
                                let (i2, m2) = choose|i2: int, m2: int| 0 <= i2 < ev.len() && 0 <= m2 < ev[i2].effects.len() && (i2 < i || (i2 == i && m2 < m + 1))
                                    && (#[trigger] ev[i2].effects[m2]) is Some && dead_block(ev[i2].name, cast_index(cast, ev[i2].effects[m2]->0), cl);
                                assert(death_upto(ev, cast, i as int, m as int, cl));
                            }
                            if death_upto(ev, cast, i as int, m as int, cl) {
                                let (i2, m2) = choose|i2: int, m2: int| 0 <= i2 < ev.len() && 0 <= m2 < ev[i2].effects.len() && (i2 < i || (i2 == i && m2 < m))
                                    && (#[trigger] ev[i2].effects[m2]) is Some && dead_block(ev[i2].name, cast_index(cast, ev[i2].effects[m2]->0), cl);
                                assert(death_upto(ev, cast, i as int, m + 1, cl));
                            }
                        }
                    }
                },
            }
            m += 1;
        }
        proof {
            assert forall|cl: Clause| #[trigger] death_upto(ev, cast, i as int, m as int, cl) <==> death_upto(ev, cast, i + 1, 0, cl) by {
                if death_upto(ev, cast, i + 1, 0, cl) {
                    let (i2, m2) = choose|i2: int, m2: int| 0 <= i2 < ev.len() && 0 <= m2 < ev[i2].effects.len() && (i2 < i + 1 || (i2 == i + 1 && m2 < 0))
                        && (#[trigger] ev[i2].effects[m2]) is Some && dead_block(ev[i2].name, cast_index(cast, ev[i2].effects[m2]->0), cl);
                    assert(death_upto(ev, cast, i as int, m as int, cl));
                }
                if death_upto(ev, cast, i as int, m as int, cl) {
                    let (i2, m2) = choose|i2: int, m2: int| 0 <= i2 < ev.len() && 0 <= m2 < ev[i2].effects.len() && (i2 < i || (i2 == i && m2 < m))
                        && (#[trigger] ev[i2].effects[m2]) is Some && dead_block(ev[i2].name, cast_index(cast, ev[i2].effects[m2]->0), cl);
                    assert(death_upto(ev, cast, i + 1, 0, cl));
                }
            }
        }
        i += 1;
    }
    proof {
        assert forall|cl: Clause| #[trigger] death_upto(ev, cast, i as int, 0, cl) <==> death_clause(ev, cast, cl) by {
            if death_clause(ev, cast, cl) {
                let (i2, m2) = choose|i2: int, m2: int| 0 <= i2 < ev.len() && 0 <= m2 < ev[i2].effects.len()
                    && (#[trigger] ev[i2].effects[m2]) is Some && dead_block(ev[i2].name, cast_index(cast, ev[i2].effects[m2]->0), cl);
                assert(death_upto(ev, cast, i as int, 0, cl));
            }
        }
    }
}

spec fn presence_upto(ev: Seq<EventView>, cast: Seq<(Seq<char>, Seq<char>)>, i: int, p: int, c: Clause) -> bool {
    exists|i2: int, p2: int| 0 <= i2 < ev.len() && 0 <= p2 < ev[i2].characters.len() && (i2 < i || (i2 == i && p2 < p))
        && #[trigger] presence_block(ev, cast, i2, p2, c)
}

/// Keeps each participant alive at their event, or strictly before it when it kills them.
fn assert_presence(s: &mut z3::Solver, events: &Vec<Event>, chars: &Vec<Character>)
    requires
        names_symbol_safe(events_view(events@)),
        cast_known(events_view(events@), cast_view(chars@)),
        chars.len() * 1001 + 1001 < STEP_LIMIT,
    ensures
        forall|c: Clause| #[trigger] solver_clauses(*final(s)).contains(c)
            <==> (solver_clauses(*old(s)).contains(c) || presence_clause(events_view(events@), cast_view(chars@), c)),
{
    let ghost ev = events_view(events@);
    let ghost cast = cast_view(chars@);
    let mut i: usize = 0;
    while i < events.len()
        invariant
            ev == events_view(events@),
            names_symbol_safe(ev),
            cast == cast_view(chars@),
            cast_known(ev, cast),
            chars.len() * 1001 + 1001 < STEP_LIMIT,
            i <= events.len(),
            forall|c: Clause| #[trigger] solver_clauses(*s).contains(c) <==> (solver_clauses(*old(s)).contains(c)
                || presence_upto(ev, cast, i as int, 0, c)),
        decreases events.len() - i,
    {
        let mut p: usize = 0;
        while p < events[i].characters.len()
            invariant
                ev == events_view(events@),
            names_symbol_safe(ev),
                cast == cast_view(chars@),
                cast_known(ev, cast),
                chars.len() * 1001 + 1001 < STEP_LIMIT,
                i < events.len(),
                p <= events@[i as int].characters.len(),
                forall|c: Clause| #[trigger] solver_clauses(*s).contains(c) <==> (solver_clauses(*old(s)).contains(c)
                    || presence_upto(ev, cast, i as int, p as int, c)),
            decreases events@[i as int].characters.len() - p,
        {
            proof {
                assert(ev[i as int].characters[p as int] == events@[i as int].characters@[p as int]@);
                assert(ev[i as int].name == events@[i as int].name@);
                assert(in_cast(cast, ev[i as int].characters[p as int].0));
                assert(ev[i as int].effects.len() == events@[i as int].effects.len());
            }
            let ci = cast_position(chars, &events[i].characters[p].name);
            let killed = p < events[i].effects.len() && match &events[i].effects[p] {
                Effect::Death(_) => true,
                Effect::NoEffect => false,
            };
            proof {
                if p < events@[i as int].effects.len() {
                    assert(ev[i as int].effects[p as int] == events@[i as int].effects@[p as int]@);
                }
                assert(killed == kills(ev[i as int], p as int));
            }
            let kind = if killed { StepKind::AliveBefore } else { StepKind::AliveAt };
            proof { assert(symbol_safe(ev[i as int].name)); }
            assert_steps(s, kind, &events[i].name, ci);
            proof {
                assert forall|cl: Clause| #[trigger] solver_clauses(*s).contains(cl) <==> (solver_clauses(*old(s)).contains(cl)
                    || presence_upto(ev, cast, i as int, p + 1, cl)) by {
                    if presence_upto(ev, cast, i as int, p + 1, cl) {
                        let (i2, p2) = choose|i2: int, p2: int| 0 <= i2 < ev.len() && 0 <= p2 < ev[i2].characters.len() && (i2 < i || (i2 == i && p2 < p + 1))
                            && #[trigger] presence_block(ev, cast, i2, p2, cl);
                        if i2 < i || p2 < p {
                            assert(presence_upto(ev, cast, i as int, p as int, cl));
                        } else {
                            assert(step_block(kind, events@[i as int].name@, ci as int, cl));
                        }
                    }
                    if presence_upto(ev, cast, i as int, p as int, cl) {
                        let (i2, p2) = choose|i2: int, p2: int| 0 <= i2 < ev.len() && 0 <= p2 < ev[i2].characters.len() && (i2 < i || (i2 == i && p2 < p))
                            && #[trigger] presence_block(ev, cast, i2, p2, cl);
                        assert(presence_upto(ev, cast, i as int, p + 1, cl));
                    }
                    if step_block(kind, events@[i as int].name@, ci as int, cl) {
                        assert(presence_block(ev, cast, i as int, p as int, cl));
                        assert(presence_upto(ev, cast, i as int, p + 1, cl));
                    }
                }
            }
            p += 1;
        }
        proof {
            assert forall|cl: Clause| #[trigger] presence_upto(ev, cast, i as int, p as int, cl) <==> presence_upto(ev, cast, i + 1, 0, cl) by {
                if presence_upto(ev, cast, i + 1, 0, cl) {
                    let (i2, p2) = choose|i2: int, p2: int| 0 <= i2 < ev.len() && 0 <= p2 < ev[i2].characters.len() && (i2 < i + 1 || (i2 == i + 1 && p2 < 0))
                        && #[trigger] presence_block(ev, cast, i2, p2, cl);
                    assert(presence_upto(ev, cast, i as int, p as int, cl));
                }
                if presence_upto(ev, cast, i as int, p as int, cl) {
                    let (i2, p2) = choose|i2: int, p2: int| 0 <= i2 < ev.len() && 0 <= p2 < ev[i2].characters.len() && (i2 < i || (i2 == i && p2 < p))
                        && #[trigger] presence_block(ev, cast, i2, p2, cl);
                    assert(presence_upto(ev, cast, i + 1, 0, cl));
                }
            }
        }
        i += 1;
    }
    proof {
        assert forall|cl: Clause| #[trigger] presence_upto(ev, cast, i as int, 0, cl) <==> presence_clause(ev, cast, cl) by {
            if presence_clause(ev, cast, cl) {
                let (i2, p2) = choose|i2: int, p2: int| 0 <= i2 < ev.len() && 0 <= p2 < ev[i2].characters.len() && #[trigger] presence_block(ev, cast, i2, p2, cl);
                assert(presence_upto(ev, cast, i as int, 0, cl));
            }
        }
    }
}

/// Decides the liveness model of the timeline with z3. A character who is the victim
/// of more than one death effect makes the timeline impossible outright, whatever the
/// order of events; the solver is not asked.
pub fn check_timeline(events: &Vec<Event>, chars: &Vec<Character>) -> (r: Verdict)
    requires
        names_symbol_safe(events_view(events@)),
        cast_known(events_view(events@), cast_view(chars@)),
        chars.len() * 1001 + 1001 < STEP_LIMIT,
    ensures
        double_death(events_view(events@)) ==> r == Verdict::Unsat,
        r == Verdict::Sat ==> consistent(events_view(events@), cast_view(chars@)),
        r == Verdict::Unsat ==> !consistent(events_view(events@), cast_view(chars@)),
{
    let ghost ev = events_view(events@);
    let ghost cast = cast_view(chars@);
    if has_double_death(events) {
        return Verdict::Unsat;
    }
    let mut s = new_solver();
    assert_within(&mut s, events);
    assert_order(&mut s, events);
    assert_lives(&mut s, chars);
    assert_deaths(&mut s, events, chars);
    assert_presence(&mut s, events, chars);
    let v = solver_check(&s);
    proof {
        let cs = solver_clauses(s);
        assert forall|c: Clause| #[trigger] cs.contains(c) <==> model_clause(ev, cast, c) by {}
        if v == Verdict::Sat {
            let (time, av) = choose|time: spec_fn(Seq<char>) -> int, av: spec_fn(nat) -> bool| #[trigger] all_hold(cs, time, av);
            assert forall|c: Clause| #[trigger] model_clause(ev, cast, c) implies holds(c, time, av) by {
                assert(cs.contains(c));
            }
            lemma_clauses_mean_model(ev, cast, time, av);
            assert(liveness_model(ev, cast, time, lift(av)));
        }
        if v == Verdict::Unsat && consistent(ev, cast) {
            let (time, alive) = choose|time: spec_fn(Seq<char>) -> int, alive: spec_fn(int, int) -> bool| #[trigger] liveness_model(ev, cast, time, alive);
            lemma_model_through_vars(ev, cast, time, alive);
            lemma_clauses_mean_model(ev, cast, time, unlift(alive));
            assert forall|c: Clause| #[trigger] cs.contains(c) implies holds(c, time, unlift(alive)) by {
                assert(model_clause(ev, cast, c));
            }
            assert(all_hold(cs, time, unlift(alive)));
        }
    }
    v
}

/// Only a definite `Sat` accepts a timeline; `Unknown` is treated as a rejection.
pub fn accepts(v: Verdict) -> (r: bool)
    ensures
        r == (v == Verdict::Sat),
{
    match v {
        Verdict::Sat => true,
        _ => false,
    }
}

/// Whether the timeline (with the new event) can happen with this cast: true only
/// when the solver finds a solution of the liveness model.
#[allow(non_snake_case)]
pub fn isPossible(events: Vec<Event>, chars: Vec<Character>) -> (r: bool)
    requires
        names_symbol_safe(events_view(events@)),
        cast_known(events_view(events@), cast_view(chars@)),
        chars.len() * 1001 + 1001 < STEP_LIMIT,
    ensures
        r ==> consistent(events_view(events@), cast_view(chars@)),
        double_death(events_view(events@)) ==> !r,
{
    accepts(check_timeline(&events, &chars))
}

/// Whether some member of the cast is named `c`.
fn cast_has(chars: &Vec<Character>, c: &String) -> (r: bool)
    ensures
        r == in_cast(cast_view(chars@), c@),
{
    let ghost cast = cast_view(chars@);
    let mut i: usize = 0;
    while i < chars.len()
        invariant
            cast == cast_view(chars@),
            i <= chars.len(),
            forall|j: int| 0 <= j < i ==> #[trigger] cast[j].0 != c@,
        decreases chars.len() - i,
    {
        proof { assert(cast[i as int].0 == chars@[i as int].name@); }
        if str_eq(chars[i].name.as_str(), c.as_str()) {
            return true;
        }
        i += 1;
    }
    false
}

/// Whether every victim and every participant of the events is in the cast.
pub fn cast_covers(events: &Vec<Event>, chars: &Vec<Character>) -> (r: bool)
    ensures
        r == cast_known(events_view(events@), cast_view(chars@)),
{
    let ghost ev = events_view(events@);
    let ghost cast = cast_view(chars@);
    let mut i: usize = 0;
    while i < events.len()
        invariant
            ev == events_view(events@),
            cast == cast_view(chars@),
            i <= events.len(),
            forall|i2: int, m: int| 0 <= i2 < i && 0 <= m < ev[i2].effects.len() && (#[trigger] ev[i2].effects[m]) is Some
                ==> in_cast(cast, ev[i2].effects[m]->0),
            forall|i2: int, p: int| 0 <= i2 < i && 0 <= p < ev[i2].characters.len()
                ==> in_cast(cast, (#[trigger] ev[i2].characters[p]).0),
        decreases events.len() - i,
    {
        let mut m: usize = 0;
        while m < events[i].effects.len()
            invariant
                ev == events_view(events@),
                cast == cast_view(chars@),
                i < events.len(),
                m <= events@[i as int].effects.len(),
                forall|m2: int| 0 <= m2 < m && (#[trigger] ev[i as int].effects[m2]) is Some ==> in_cast(cast, ev[i as int].effects[m2]->0),
            decreases events@[i as int].effects.len() - m,
        {
            proof { assert(ev[i as int].effects[m as int] == events@[i as int].effects@[m as int]@); }
            match &events[i].effects[m] {
                Effect::Death(v) => {
                    if !cast_has(chars, v) {
                        return false;
                    }
                },
                Effect::NoEffect => {},
            }
            m += 1;
        }
        let mut p: usize = 0;
        while p < events[i].characters.len()
            invariant
                ev == events_view(events@),
                cast == cast_view(chars@),
                i < events.len(),
                p <= events@[i as int].characters.len(),
                forall|p2: int| 0 <= p2 < p ==> in_cast(cast, (#[trigger] ev[i as int].characters[p2]).0),
            decreases events@[i as int].characters.len() - p,
        {
            proof { assert(ev[i as int].characters[p as int] == events@[i as int].characters@[p as int]@); }
            if !cast_has(chars, &events[i].characters[p].name) {
                return false;
            }
            p += 1;
        }
        proof {
            assert(ev[i as int].effects.len() == events@[i as int].effects.len());
            assert(ev[i as int].characters.len() == events@[i as int].characters.len());
        }
        i += 1;
    }
    true
}

/// A character killed by an event cannot take part, other than by dying, in an event
/// that the killing event lists as coming after it: such a timeline is not consistent.
pub proof fn lemma_dead_cannot_appear_later(
    ev: Seq<EventView>,
    cast: Seq<(Seq<char>, Seq<char>)>,
    i: int,
    m: int,
    j: int,
    x: int,
    p: int,
)
    requires
        0 <= i < ev.len(),
        0 <= j < ev.len(),
        0 <= m < ev[i].effects.len(),
        ev[i].effects[m] is Some,
        0 <= x < ev[i].before.len(),
        ev[i].before[x] == ev[j].name,
        0 <= p < ev[j].characters.len(),
        ev[j].characters[p].0 == ev[i].effects[m]->0,
        !kills(ev[j], p),
    ensures
        !consistent(ev, cast),
{
    if consistent(ev, cast) {
        let (time, alive) = choose|time: spec_fn(Seq<char>) -> int, alive: spec_fn(int, int) -> bool| #[trigger] liveness_model(ev, cast, time, alive);
        let t = time(ev[j].name);
        assert(0 <= time(ev[j].name) <= HORIZON);
        assert(time(ev[i].name) < time(ev[j].name));
        let who = cast_index(cast, ev[i].effects[m]->0);
        assert(!alive(who, t));
        assert(t == time(ev[j].name) ==> alive(cast_index(cast, ev[j].characters[p].0), t));
    }
}

/// Whether `x` holds no NUL character.
fn has_no_nul(x: &str) -> (r: bool)
    ensures
        r == symbol_safe(x@),
{
    let n = x.unicode_len();
    let mut i: usize = 0;
    while i < n
        invariant
            n == x@.len(),
            i <= n,
            forall|k: int| 0 <= k < i ==> x@[k] != '\0',
        decreases n - i,
    {
        if x.get_char(i) == '\0' {
            return false;
        }
        i += 1;
    }
    true
}

/// Whether every event name can be a z3 symbol.
pub fn symbols_safe(events: &Vec<Event>) -> (r: bool)
    ensures
        r == names_symbol_safe(events_view(events@)),
{
    let ghost ev = events_view(events@);
    let mut i: usize = 0;
    while i < events.len()
        invariant
            ev == events_view(events@),
            i <= events.len(),
            forall|k: int| 0 <= k < i ==> symbol_safe(#[trigger] ev[k].name),
        decreases events.len() - i,
    {
        proof { assert(ev[i as int].name == events@[i as int].name@); }
        if !has_no_nul(events[i].name.as_str()) {
            return false;
        }
        i += 1;
    }
    true
}
} // verus!
