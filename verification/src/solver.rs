use vstd::prelude::*;

use vstd::string::StringExecFns;

use crate::observed::{observed_key, observed_wf, square_text, DropIdentity, MoveIdentity, ObservedMove, VariableId};
use crate::piece::{Color, Kind};
use crate::moves::promotable_row;
use crate::position::Cell;
use crate::square::Square;
use crate::rule::{HandVariableMode, MateRule};
use crate::state::{
    appears, candidate_kinds, increasing_keys, lookup, observable, possible_pred, proven_mate, settle_all, settled,
    settled_value, successors, HiddenState,
};
use crate::world::WorldView;

verus! {

/// A solution: the observed moves from the initial position to the mate.
pub type Solution = Vec<ObservedMove>;

/// Two lists in increasing key order with the same moves are the same list.
pub proof fn lemma_increasing_unique(a: Seq<ObservedMove>, b: Seq<ObservedMove>)
    requires
        increasing_keys(a),
        increasing_keys(b),
        forall|o: ObservedMove| a.contains(o) <==> b.contains(o),
    ensures
        a == b,
    decreases a.len() + b.len(),
{
    if a.len() == 0 || b.len() == 0 {
        if a.len() > 0 {
            assert(a.contains(a[0]));
        }
        if b.len() > 0 {
            assert(b.contains(b[0]));
        }
        assert(a =~= b);
    } else {
        assert(a.contains(a[0]));
        assert(b.contains(b[0]));
        let i = choose|i: int| 0 <= i < b.len() && b[i] == a[0];
        let j = choose|j: int| 0 <= j < a.len() && a[j] == b[0];
        if i > 0 {
            assert(observed_key(b[0]) < observed_key(b[i]));
            if j > 0 {
                assert(observed_key(a[0]) < observed_key(a[j]));
            }
        }
        assert(a[0] == b[0]);
        let a1 = a.drop_first();
        let b1 = b.drop_first();
        assert forall|o: ObservedMove| a1.contains(o) <==> b1.contains(o) by {
            if a1.contains(o) {
                let k = choose|k: int| 0 <= k < a1.len() && a1[k] == o;
                assert(a[k + 1] == o);
                assert(observed_key(a[0]) < observed_key(a[k + 1]));
                assert(b.contains(o));
                let q = choose|q: int| 0 <= q < b.len() && b[q] == o;
                assert(q != 0);
                assert(b1[q - 1] == o);
            }
            if b1.contains(o) {
                let k = choose|k: int| 0 <= k < b1.len() && b1[k] == o;
                assert(b[k + 1] == o);
                assert(observed_key(b[0]) < observed_key(b[k + 1]));
                assert(a.contains(o));
                let q = choose|q: int| 0 <= q < a.len() && a[q] == o;
                assert(q != 0);
                assert(a1[q - 1] == o);
            }
        }
        lemma_increasing_unique(a1, b1);
        assert(a =~= b) by {
            assert forall|k: int| 0 <= k < a.len() implies a[k] == b[k] by {
                if k > 0 {
                    assert(a1[k - 1] == b1[k - 1]);
                }
            }
        }
    }
}

/// The observed moves possible in some world of `ws`, in key order.
pub open spec fn observed_list(ws: Seq<WorldView>, free: bool, mode: HandVariableMode) -> Seq<ObservedMove> {
    choose|v: Seq<ObservedMove>| increasing_keys(v) && forall|o: ObservedMove| #[trigger] v.contains(o) <==> observable(ws, free, mode, o)
}

/// The list of observed moves a state gives is the one of the specification.
pub proof fn lemma_observed_list(ws: Seq<WorldView>, free: bool, mode: HandVariableMode, r: Seq<ObservedMove>)
    requires
        increasing_keys(r),
        forall|o: ObservedMove| r.contains(o) <==> observable(ws, free, mode, o),
    ensures
        r == observed_list(ws, free, mode),
{
    let v = observed_list(ws, free, mode);
    assert(increasing_keys(r) && forall|o: ObservedMove| #[trigger] r.contains(o) <==> observable(ws, free, mode, o));
    lemma_increasing_unique(r, v);
}

} // verus!

verus! {

/// The worlds after observing `o`, when some world allows it.
pub open spec fn after_move(ws: Seq<WorldView>, free: bool, mode: HandVariableMode, o: ObservedMove) -> Option<Seq<WorldView>> {
    let succ = successors(ws, free, mode, o);
    if succ.len() == 0 {
        None
    } else {
        Some(settle_all(succ))
    }
}

/// The cooperative lines of exactly `remaining` more moves that end in a
/// proven mate and pass through no earlier proven mate, each after
/// `prefix`, in the order of the observed moves.
pub open spec fn mates(
    ws: Seq<WorldView>,
    free: bool,
    rule: MateRule,
    mode: HandVariableMode,
    remaining: nat,
    prefix: Seq<ObservedMove>,
) -> Seq<Seq<ObservedMove>>
    decreases remaining, 1nat, 0nat,
{
    if remaining == 0 {
        if proven_mate(ws, rule) {
            seq![prefix]
        } else {
            Seq::empty()
        }
    } else if proven_mate(ws, rule) {
        Seq::empty()
    } else {
        let os = observed_list(ws, free, mode);
        mates_from(ws, free, rule, mode, remaining, prefix, os, 0)
    }
}

/// The lines of `mates` that start with the observed moves `os[k..]`.
pub open spec fn mates_from(
    ws: Seq<WorldView>,
    free: bool,
    rule: MateRule,
    mode: HandVariableMode,
    remaining: nat,
    prefix: Seq<ObservedMove>,
    os: Seq<ObservedMove>,
    k: int,
) -> Seq<Seq<ObservedMove>>
    decreases remaining, 0nat, (if k < os.len() { os.len() - k } else { 0 }) as nat,
{
    if k < 0 || k >= os.len() || remaining == 0 {
        Seq::empty()
    } else {
        let rest = mates_from(ws, free, rule, mode, remaining, prefix, os, k + 1);
        match after_move(ws, free, mode, os[k]) {
            None => rest,
            Some(next) => mates(next, false, rule, mode, (remaining - 1) as nat, prefix.push(os[k])) + rest,
        }
    }
}

/// The observed move with the ids of variable pieces left out: how a move
/// reads when only the side of a variable piece matters.
pub open spec fn anonymous(o: ObservedMove) -> ObservedMove {
    match o {
        ObservedMove::Move { identity: MoveIdentity::Variable(_), source, destination, promote } => ObservedMove::Move {
            identity: MoveIdentity::AnonymousVariable,
            source,
            destination,
            promote,
        },
        ObservedMove::Drop { identity: DropIdentity::Variable(_), destination } => ObservedMove::Drop {
            identity: DropIdentity::AnonymousVariable,
            destination,
        },
        _ => o,
    }
}

/// Two solutions that differ only in the ids of variable pieces.
pub open spec fn same_reading(a: Seq<ObservedMove>, b: Seq<ObservedMove>) -> bool {
    a.len() == b.len() && forall|i: int| 0 <= i < a.len() ==> anonymous(#[trigger] a[i]) == anonymous(b[i])
}

/// Some solution of `s` reads as `p`.
pub open spec fn already_found(s: Seq<Seq<ObservedMove>>, p: Seq<ObservedMove>) -> bool {
    exists|i: int| 0 <= i < s.len() && same_reading(#[trigger] s[i], p)
}

/// The solutions `s` with those of `ps` added in order, leaving out one that
/// reads as a solution already there, until there are `m` of them.
pub open spec fn add_unique(s: Seq<Seq<ObservedMove>>, ps: Seq<Seq<ObservedMove>>, m: nat) -> Seq<Seq<ObservedMove>>
    decreases ps.len(),
{
    if ps.len() == 0 || s.len() >= m {
        s
    } else {
        let next = if already_found(s, ps[0]) {
            s
        } else {
            s.push(ps[0])
        };
        add_unique(next, ps.drop_first(), m)
    }
}

pub proof fn lemma_add_unique_twice(s: Seq<Seq<ObservedMove>>, p: Seq<Seq<ObservedMove>>, q: Seq<Seq<ObservedMove>>, m: nat)
    ensures
        add_unique(add_unique(s, p, m), q, m) == add_unique(s, p + q, m),
    decreases p.len(),
{
    if p.len() == 0 {
        assert(p + q =~= q);
    } else if s.len() >= m {
        lemma_add_unique_full(s, q, m);
        lemma_add_unique_full(s, p + q, m);
    } else {
        let next = if already_found(s, p[0]) {
            s
        } else {
            s.push(p[0])
        };
        assert((p + q).drop_first() =~= p.drop_first() + q);
        assert((p + q)[0] == p[0]);
        lemma_add_unique_twice(next, p.drop_first(), q, m);
    }
}

pub proof fn lemma_add_unique_full(s: Seq<Seq<ObservedMove>>, p: Seq<Seq<ObservedMove>>, m: nat)
    requires
        s.len() >= m,
    ensures
        add_unique(s, p, m) == s,
{
}

/// No two solutions read the same.
pub open spec fn readings_distinct(s: Seq<Seq<ObservedMove>>) -> bool {
    forall|a: int, b: int| 0 <= a < b < s.len() ==> !same_reading(s[a], s[b])
}

/// Adding solutions keeps those there first, never adds one that reads as a
/// solution already there, and stops at the cap.
pub proof fn lemma_add_unique_distinct(s: Seq<Seq<ObservedMove>>, ps: Seq<Seq<ObservedMove>>, m: nat)
    requires
        readings_distinct(s),
    ensures
        readings_distinct(add_unique(s, ps, m)),
        add_unique(s, ps, m).len() <= if s.len() > m { s.len() } else { m },
        s.len() <= add_unique(s, ps, m).len(),
        add_unique(s, ps, m).take(s.len() as int) == s,
    decreases ps.len(),
{
    if ps.len() == 0 || s.len() >= m {
        assert(s.take(s.len() as int) =~= s);
    } else {
        let next = if already_found(s, ps[0]) {
            s
        } else {
            s.push(ps[0])
        };
        if !already_found(s, ps[0]) {
            assert forall|a: int, b: int| 0 <= a < b < next.len() implies !same_reading(next[a], next[b]) by {
                if b == s.len() {
                    assert(next[a] == s[a]);
                    if same_reading(s[a], ps[0]) {
                        assert(already_found(s, ps[0]));
                    }
                } else {
                    assert(next[a] == s[a] && next[b] == s[b]);
                }
            }
        }
        lemma_add_unique_distinct(next, ps.drop_first(), m);
        let r = add_unique(next, ps.drop_first(), m);
        assert(r.take(s.len() as int) =~= r.take(next.len() as int).take(s.len() as int));
        assert(next.take(s.len() as int) =~= s);
    }
}

/// Below the cap nothing is lost but repetition: when adding stops short of
/// `m`, every line of `ps` reads as one of the solutions kept.
pub proof fn lemma_add_unique_complete(s: Seq<Seq<ObservedMove>>, ps: Seq<Seq<ObservedMove>>, m: nat)
    requires
        add_unique(s, ps, m).len() < m,
    ensures
        forall|i: int| 0 <= i < ps.len() ==> already_found(add_unique(s, ps, m), #[trigger] ps[i]),
    decreases ps.len(),
{
    if ps.len() > 0 {
        let next = if already_found(s, ps[0]) {
            s
        } else {
            s.push(ps[0])
        };
        lemma_add_unique_complete(next, ps.drop_first(), m);
        lemma_add_unique_prefix(next, ps.drop_first(), m);
        let r = add_unique(s, ps, m);
        assert(r == add_unique(next, ps.drop_first(), m));
        assert(already_found(next, ps[0])) by {
            if !already_found(s, ps[0]) {
                assert(same_reading(next[s.len() as int], ps[0])) by {
                    assert forall|k: int| 0 <= k < ps[0].len() implies anonymous(#[trigger] ps[0][k]) == anonymous(ps[0][k]) by {}
                }
            } else {
                let j = choose|j: int| 0 <= j < s.len() && same_reading(#[trigger] s[j], ps[0]);
                assert(next[j] == s[j]);
            }
        }
        let j = choose|j: int| 0 <= j < next.len() && same_reading(#[trigger] next[j], ps[0]);
        assert(r[j] == next[j]);
        assert forall|i: int| 0 <= i < ps.len() implies already_found(r, #[trigger] ps[i]) by {
            if i > 0 {
                assert(ps[i] == ps.drop_first()[i - 1]);
            } else {
                assert(same_reading(r[j], ps[0]));
            }
        }
    }
}

/// Adding keeps the solutions there first.
pub proof fn lemma_add_unique_prefix(s: Seq<Seq<ObservedMove>>, ps: Seq<Seq<ObservedMove>>, m: nat)
    ensures
        s.len() <= add_unique(s, ps, m).len(),
        forall|j: int| 0 <= j < s.len() ==> add_unique(s, ps, m)[j] == #[trigger] s[j],
    decreases ps.len(),
{
    if ps.len() > 0 && s.len() < m {
        let next = if already_found(s, ps[0]) {
            s
        } else {
            s.push(ps[0])
        };
        lemma_add_unique_prefix(next, ps.drop_first(), m);
        assert forall|j: int| 0 <= j < s.len() implies add_unique(s, ps, m)[j] == #[trigger] s[j] by {
            assert(next[j] == s[j]);
        }
    }
}

/// The solutions of `solve_exact` below the cap: every line of at most
/// `n - 1` moves reads, variable-piece ids aside, as one of them.
pub proof fn lemma_solutions_complete_below_cap(
    ws: Seq<WorldView>,
    free: bool,
    rule: MateRule,
    mode: HandVariableMode,
    n: nat,
    cap: nat,
)
    requires
        add_unique(Seq::empty(), mates_upto(ws, free, rule, mode, n), cap).len() < cap,
    ensures
        forall|i: int|
            0 <= i < mates_upto(ws, free, rule, mode, n).len() ==> already_found(
                add_unique(Seq::empty(), mates_upto(ws, free, rule, mode, n), cap),
                #[trigger] mates_upto(ws, free, rule, mode, n)[i],
            ),
{
    lemma_add_unique_complete(Seq::empty(), mates_upto(ws, free, rule, mode, n), cap);
}

/// The solutions of `solve_exact`: at most `max_solutions` of them, no two
/// reading the same.
pub proof fn lemma_solutions_distinct_capped(ws: Seq<WorldView>, free: bool, rule: MateRule, mode: HandVariableMode, n: nat, cap: nat)
    ensures
        readings_distinct(add_unique(Seq::empty(), mates_upto(ws, free, rule, mode, n), cap)),
        add_unique(Seq::empty(), mates_upto(ws, free, rule, mode, n), cap).len() <= cap,
{
    lemma_add_unique_distinct(Seq::empty(), mates_upto(ws, free, rule, mode, n), cap);
}

/// Every line of `mates` has the prefix's moves and `remaining` more.
pub proof fn lemma_mates_len(
    ws: Seq<WorldView>,
    free: bool,
    rule: MateRule,
    mode: HandVariableMode,
    remaining: nat,
    prefix: Seq<ObservedMove>,
)
    ensures
        forall|i: int| 0 <= i < mates(ws, free, rule, mode, remaining, prefix).len() ==> (#[trigger] mates(
            ws,
            free,
            rule,
            mode,
            remaining,
            prefix,
        )[i]).len() == prefix.len() + remaining,
    decreases remaining, 1nat, 0nat,
{
    let all = mates(ws, free, rule, mode, remaining, prefix);
    if remaining > 0 && !proven_mate(ws, rule) {
        lemma_mates_from_len(ws, free, rule, mode, remaining, prefix, observed_list(ws, free, mode), 0);
        assert(all == mates_from(ws, free, rule, mode, remaining, prefix, observed_list(ws, free, mode), 0));
    } else if remaining == 0 && proven_mate(ws, rule) {
        assert(all == seq![prefix]);
        assert(all[0] == prefix);
    } else {
        assert(all.len() == 0);
    }
}

pub proof fn lemma_mates_from_len(
    ws: Seq<WorldView>,
    free: bool,
    rule: MateRule,
    mode: HandVariableMode,
    remaining: nat,
    prefix: Seq<ObservedMove>,
    os: Seq<ObservedMove>,
    k: int,
)
    ensures
        forall|i: int| 0 <= i < mates_from(ws, free, rule, mode, remaining, prefix, os, k).len() ==> (#[trigger] mates_from(
            ws,
            free,
            rule,
            mode,
            remaining,
            prefix,
            os,
            k,
        )[i]).len() == prefix.len() + remaining,
    decreases remaining, 0nat, (if k < os.len() { os.len() - k } else { 0 }) as nat,
{
    if !(k < 0 || k >= os.len() || remaining == 0) {
        lemma_mates_from_len(ws, free, rule, mode, remaining, prefix, os, k + 1);
        let rest = mates_from(ws, free, rule, mode, remaining, prefix, os, k + 1);
        match after_move(ws, free, mode, os[k]) {
            None => {},
            Some(next) => {
                let sub = mates(next, false, rule, mode, (remaining - 1) as nat, prefix.push(os[k]));
                lemma_mates_len(next, false, rule, mode, (remaining - 1) as nat, prefix.push(os[k]));
                let all = sub + rest;
                assert forall|i: int| 0 <= i < all.len() implies (#[trigger] all[i]).len() == prefix.len() + remaining by {
                    if i < sub.len() {
                        assert(all[i] == sub[i]);
                    } else {
                        assert(all[i] == rest[i - sub.len()]);
                    }
                }
            },
        }
    }
}

/// The lines are in order of length.
pub open spec fn by_length(s: Seq<Seq<ObservedMove>>) -> bool {
    forall|a: int, b: int| 0 <= a < b < s.len() ==> (#[trigger] s[a]).len() <= (#[trigger] s[b]).len()
}

/// The lines of every length below `n` come shortest first.
pub proof fn lemma_mates_upto_by_length(ws: Seq<WorldView>, free: bool, rule: MateRule, mode: HandVariableMode, n: nat)
    ensures
        by_length(mates_upto(ws, free, rule, mode, n)),
        forall|a: int| 0 <= a < mates_upto(ws, free, rule, mode, n).len() ==> (#[trigger] mates_upto(
            ws,
            free,
            rule,
            mode,
            n,
        )[a]).len() < n,
    decreases n,
{
    if n > 0 {
        let d = (n - 1) as nat;
        lemma_mates_upto_by_length(ws, free, rule, mode, d);
        let earlier = mates_upto(ws, free, rule, mode, d);
        if turn_after(ws[0].pos.turn, d) == rule.spec_terminal_turn() {
            let extra = mates(ws, free, rule, mode, d, Seq::empty());
            lemma_mates_len(ws, free, rule, mode, d, Seq::empty());
            let all = earlier + extra;
            assert forall|a: int, b: int| 0 <= a < b < all.len() implies (#[trigger] all[a]).len() <= (#[trigger] all[b]).len() by {
                if b < earlier.len() {
                    assert(all[a] == earlier[a] && all[b] == earlier[b]);
                } else if a < earlier.len() {
                    assert(all[a] == earlier[a] && all[b] == extra[b - earlier.len()]);
                } else {
                    assert(all[a] == extra[a - earlier.len()] && all[b] == extra[b - earlier.len()]);
                }
            }
            assert forall|a: int| 0 <= a < all.len() implies (#[trigger] all[a]).len() < n by {
                if a < earlier.len() {
                    assert(all[a] == earlier[a]);
                } else {
                    assert(all[a] == extra[a - earlier.len()]);
                }
            }
        }
    }
}

/// Adding lines in order of length to lines no longer than any of them
/// keeps the order of length.
pub proof fn lemma_add_unique_by_length(s: Seq<Seq<ObservedMove>>, ps: Seq<Seq<ObservedMove>>, m: nat)
    requires
        by_length(s),
        by_length(ps),
        forall|a: int, b: int| 0 <= a < s.len() && 0 <= b < ps.len() ==> (#[trigger] s[a]).len() <= (#[trigger] ps[b]).len(),
    ensures
        by_length(add_unique(s, ps, m)),
    decreases ps.len(),
{
    if ps.len() > 0 && s.len() < m {
        let next = if already_found(s, ps[0]) {
            s
        } else {
            s.push(ps[0])
        };
        let rest = ps.drop_first();
        assert forall|a: int, b: int| 0 <= a < b < next.len() implies (#[trigger] next[a]).len() <= (#[trigger] next[b]).len() by {
            if b < s.len() {
                assert(next[a] == s[a] && next[b] == s[b]);
            } else {
                assert(next[a] == s[a]);
                assert(s[a].len() <= ps[0].len());
            }
        }
        assert forall|a: int, b: int| 0 <= a < next.len() && 0 <= b < rest.len() implies (#[trigger] next[a]).len() <= (#[trigger] rest[b]).len() by {
            assert(rest[b] == ps[b + 1]);
            assert(ps[0].len() <= ps[b + 1].len());
            if a < s.len() {
                assert(next[a] == s[a]);
            }
        }
        assert forall|a: int, b: int| 0 <= a < b < rest.len() implies (#[trigger] rest[a]).len() <= (#[trigger] rest[b]).len() by {
            assert(rest[a] == ps[a + 1] && rest[b] == ps[b + 1]);
        }
        lemma_add_unique_by_length(next, rest, m);
    }
}

/// The solutions of `solve_exact` come shortest first, each shorter than
/// `n` moves.
pub proof fn lemma_solutions_shortest_first(ws: Seq<WorldView>, free: bool, rule: MateRule, mode: HandVariableMode, n: nat, cap: nat)
    ensures
        by_length(add_unique(Seq::empty(), mates_upto(ws, free, rule, mode, n), cap)),
{
    lemma_mates_upto_by_length(ws, free, rule, mode, n);
    lemma_add_unique_by_length(Seq::empty(), mates_upto(ws, free, rule, mode, n), cap);
}

/// The views of a list of solutions.
pub open spec fn solutions_view(v: Seq<Solution>) -> Seq<Seq<ObservedMove>> {
    Seq::new(v.len(), |i: int| v[i]@)
}

/// The side to move after `d` moves from a position where `turn` moves.
pub open spec fn turn_after(turn: Color, d: nat) -> Color {
    if d % 2 == 0 {
        turn
    } else {
        turn.spec_opposite()
    }
}

/// The lines of at most `n - 1` moves, shortest first, counting only the
/// lengths that end on the rule's terminal turn.
pub open spec fn mates_upto(ws: Seq<WorldView>, free: bool, rule: MateRule, mode: HandVariableMode, n: nat) -> Seq<
    Seq<ObservedMove>,
>
    decreases n,
{
    if n == 0 {
        Seq::empty()
    } else {
        let d = (n - 1) as nat;
        let earlier = mates_upto(ws, free, rule, mode, d);
        if turn_after(ws[0].pos.turn, d) == rule.spec_terminal_turn() {
            earlier + mates(ws, free, rule, mode, d, Seq::empty())
        } else {
            earlier
        }
    }
}

/// The observed move with the id of a variable piece left out.
pub fn anonymous_move(o: ObservedMove) -> (r: ObservedMove)
    ensures
        r == anonymous(o),
{
    match o {
        ObservedMove::Move { identity: MoveIdentity::Variable(_), source, destination, promote } => ObservedMove::Move {
            identity: MoveIdentity::AnonymousVariable,
            source,
            destination,
            promote,
        },
        ObservedMove::Drop { identity: DropIdentity::Variable(_), destination } => ObservedMove::Drop {
            identity: DropIdentity::AnonymousVariable,
            destination,
        },
        _ => o,
    }
}

/// Whether two solutions differ only in the ids of variable pieces.
pub fn reads_same(a: &Vec<ObservedMove>, b: &Vec<ObservedMove>) -> (r: bool)
    ensures
        r == same_reading(a@, b@),
{
    if a.len() != b.len() {
        return false;
    }
    let mut i: usize = 0;
    while i < a.len()
        invariant
            i <= a@.len(),
            a@.len() == b@.len(),
            forall|j: int| 0 <= j < i ==> anonymous(#[trigger] a@[j]) == anonymous(b@[j]),
        decreases a@.len() - i,
    {
        if anonymous_move(a[i]) != anonymous_move(b[i]) {
            return false;
        }
        i = i + 1;
    }
    true
}

/// Whether some solution found reads as `path`.
fn found_before(solutions: &Vec<Solution>, path: &Vec<ObservedMove>) -> (r: bool)
    ensures
        r == already_found(solutions_view(solutions@), path@),
{
    let mut i: usize = 0;
    while i < solutions.len()
        invariant
            i <= solutions@.len(),
            forall|j: int| 0 <= j < i ==> !same_reading(#[trigger] solutions_view(solutions@)[j], path@),
        decreases solutions@.len() - i,
    {
        if reads_same(&solutions[i], path) {
            proof {
                assert(same_reading(solutions_view(solutions@)[i as int], path@));
            }
            return true;
        }
        i = i + 1;
    }
    false
}

/// Appends to `solutions` the lines of `mates` from `state` after `path`,
/// stopping once `max_solutions` are found.
fn solve_inner(
    state: &HiddenState,
    remaining: usize,
    max_solutions: usize,
    path: &mut Vec<ObservedMove>,
    solutions: &mut Vec<Solution>,
    metrics: &mut crate::metrics::SolveMetrics,
)
    requires
        state.wf(),
    ensures
        final(path)@ == old(path)@,
        final(metrics).initial_world_count == old(metrics).initial_world_count,
        final(metrics).peak_world_count >= old(metrics).peak_world_count,
        solutions_view(final(solutions)@) == add_unique(
            solutions_view(old(solutions)@),
            mates(state.ws(), state.free_white_move, state.rule, state.hand_variable_mode, remaining as nat, old(path)@),
            max_solutions as nat,
        ),
    decreases remaining,
{
    let ghost ws = state.ws();
    let ghost free = state.free_white_move;
    let ghost rule = state.rule;
    let ghost mode = state.hand_variable_mode;
    let ghost all = mates(ws, free, rule, mode, remaining as nat, path@);
    if solutions.len() >= max_solutions {
        return ;
    }
    metrics.visit_state(state.world_count());
    if remaining == 0 {
        if state.is_proven_mate() {
            let ghost s0 = solutions_view(solutions@);
            proof {
                let next = if already_found(s0, path@) { s0 } else { s0.push(path@) };
                assert(seq![path@][0] == path@);
                assert(add_unique(next, Seq::<Seq<ObservedMove>>::empty(), max_solutions as nat) == next);
                assert(add_unique(s0, seq![path@], max_solutions as nat) == next) by {
                    assert(seq![path@].drop_first() =~= Seq::<Seq<ObservedMove>>::empty());
                }
            }
            if !found_before(solutions, path) {
                let ghost before = solutions@;
                solutions.push(path.clone());
                proof {
                    assert(solutions_view(solutions@) =~= solutions_view(before).push(path@));
                }
            }
            proof {
                assert(seq![path@].drop_first() =~= Seq::<Seq<ObservedMove>>::empty());
            }
        }
        return ;
    }
    if state.is_proven_mate() {
        proof {
            assert(solutions_view(solutions@) + Seq::<Seq<ObservedMove>>::empty() =~= solutions_view(solutions@));
        }
        return ;
    }
    let os = state.observed_moves();
    proof {
        lemma_observed_list(ws, free, mode, os@);
    }
    let ghost start = solutions_view(solutions@);
    let ghost p0 = path@;
    let mut k: usize = 0;
    while k < os.len()
        invariant
            state.wf(),
            ws == state.ws(),
            free == state.free_white_move,
            rule == state.rule,
            mode == state.hand_variable_mode,
            remaining > 0,
            !proven_mate(ws, rule),
            os@ == observed_list(ws, free, mode),
            k <= os@.len(),
            path@ == p0,
            p0 == old(path)@,
            start == solutions_view(old(solutions)@),
            metrics.initial_world_count == old(metrics).initial_world_count,
            metrics.peak_world_count >= old(metrics).peak_world_count,
            mates(ws, free, rule, mode, remaining as nat, p0) == mates_from(ws, free, rule, mode, remaining as nat, p0, os@, 0),
            add_unique(solutions_view(solutions@), mates_from(ws, free, rule, mode, remaining as nat, p0, os@, k as int), max_solutions as nat)
                == add_unique(start, mates_from(ws, free, rule, mode, remaining as nat, p0, os@, 0), max_solutions as nat),
        decreases os@.len() - k,
    {
        let o = os[k];
        let ghost before = solutions_view(solutions@);
        let ghost rest = mates_from(ws, free, rule, mode, remaining as nat, p0, os@, k + 1);
        match state.apply(o) {
            None => {},
            Some(next) => {
                metrics.record_successor(next.world_count());
                path.push(o);
                solve_inner(&next, remaining - 1, max_solutions, path, solutions, metrics);
                let _ = path.pop();
                proof {
                    let sub = mates(next.ws(), false, rule, mode, (remaining - 1) as nat, p0.push(o));
                    lemma_add_unique_twice(before, sub, rest, max_solutions as nat);
                    assert(path@ =~= p0);
                }
            },
        }
        if solutions.len() >= max_solutions {
            proof {
                assert(add_unique(solutions_view(solutions@), rest, max_solutions as nat) == solutions_view(solutions@));
            }
            return ;
        }
        k = k + 1;
    }
    proof {
        assert(solutions_view(solutions@) + Seq::<Seq<ObservedMove>>::empty() =~= solutions_view(solutions@));
    }
}

/// The cooperative solutions of at most `plies` moves, shortest first, in
/// the order of the observed moves, at most `max_solutions` of them. Both
/// sides cooperate: a line counts when it ends in a mate proven in every
/// remaining world, on the rule's terminal turn.
fn solve_with_metrics(initial: &HiddenState, plies: usize, max_solutions: usize, metrics: &mut crate::metrics::SolveMetrics) -> (r: Vec<Solution>)
    requires
        initial.wf(),
        plies < usize::MAX,
    ensures
        solutions_view(r@) == add_unique(
            Seq::empty(),
            mates_upto(initial.ws(), initial.free_white_move, initial.rule, initial.hand_variable_mode, (plies + 1) as nat),
            max_solutions as nat,
        ),
        final(metrics).initial_world_count == old(metrics).initial_world_count,
        final(metrics).peak_world_count >= old(metrics).peak_world_count,
{
    let ghost ws = initial.ws();
    let ghost free = initial.free_white_move;
    let ghost rule = initial.rule;
    let ghost mode = initial.hand_variable_mode;
    let mut solutions: Vec<Solution> = Vec::new();
    if max_solutions == 0 {
        proof {
            assert(solutions_view(solutions@) =~= Seq::<Seq<ObservedMove>>::empty());
        }
        return solutions;
    }
    let turn = initial.turn();
    let terminal = initial.rule().terminal_turn();
    let mut path: Vec<ObservedMove> = Vec::new();
    let mut depth: usize = 0;
    proof {
        assert(solutions_view(solutions@) =~= add_unique(Seq::<Seq<ObservedMove>>::empty(), mates_upto(ws, free, rule, mode, 0), max_solutions as nat));
    }
    while depth <= plies
        invariant
            initial.wf(),
            ws == initial.ws(),
            free == initial.free_white_move,
            rule == initial.rule,
            mode == initial.hand_variable_mode,
            turn == ws[0].pos.turn,
            terminal == rule.spec_terminal_turn(),
            plies < usize::MAX,
            depth <= plies + 1,
            path@ == Seq::<ObservedMove>::empty(),
            solutions_view(solutions@) == add_unique(Seq::empty(), mates_upto(ws, free, rule, mode, depth as nat), max_solutions as nat),
            metrics.initial_world_count == old(metrics).initial_world_count,
            metrics.peak_world_count >= old(metrics).peak_world_count,
        decreases plies + 1 - depth,
    {
        let turn_at_depth = if depth % 2 == 0 {
            turn
        } else {
            turn.opposite()
        };
        let ghost before = solutions_view(solutions@);
        if turn_at_depth == terminal {
            solve_inner(initial, depth, max_solutions, &mut path, &mut solutions, metrics);
            proof {
                lemma_add_unique_twice(
                    Seq::empty(),
                    mates_upto(ws, free, rule, mode, depth as nat),
                    mates(ws, free, rule, mode, depth as nat, Seq::empty()),
                    max_solutions as nat,
                );
                assert(mates_upto(ws, free, rule, mode, (depth + 1) as nat) == mates_upto(ws, free, rule, mode, depth as nat) + mates(ws, free, rule, mode, depth as nat, Seq::empty()));
            }
        }
        if solutions.len() >= max_solutions {
            proof {
                lemma_capped_rest(ws, free, rule, mode, (depth + 1) as nat, (plies + 1) as nat, max_solutions as nat);
            }
            return solutions;
        }
        depth = depth + 1;
    }
    solutions
}

/// The cooperative solutions of at most `plies` moves, shortest first, in
/// the order of the observed moves, at most `max_solutions` of them. Both
/// sides cooperate: a line counts when it ends in a mate proven in every
/// remaining world, on the rule's terminal turn. Solutions that differ
/// only in the ids of variable pieces read the same and count once: the
/// first is kept, so that the count does not depend on whether hand
/// variables are told apart.
pub fn solve_exact(initial: &HiddenState, plies: usize, max_solutions: usize) -> (r: Vec<Solution>)
    requires
        initial.wf(),
        plies < usize::MAX,
    ensures
        solutions_view(r@) == add_unique(
            Seq::empty(),
            mates_upto(initial.ws(), initial.free_white_move, initial.rule, initial.hand_variable_mode, (plies + 1) as nat),
            max_solutions as nat,
        ),
{
    let mut metrics = crate::metrics::SolveMetrics::new(initial.world_count());
    solve_with_metrics(initial, plies, max_solutions, &mut metrics)
}

/// The solutions of `solve_exact` with counts of the search: states
/// visited, transitions made, and the most worlds a state had.
pub fn solve_exact_profiled(initial: &HiddenState, plies: usize, max_solutions: usize) -> (r: (Vec<Solution>, crate::metrics::SolveMetrics))
    requires
        initial.wf(),
        plies < usize::MAX,
    ensures
        solutions_view(r.0@) == add_unique(
            Seq::empty(),
            mates_upto(initial.ws(), initial.free_white_move, initial.rule, initial.hand_variable_mode, (plies + 1) as nat),
            max_solutions as nat,
        ),
        r.1.initial_world_count == initial.worlds@.len(),
        r.1.peak_world_count >= initial.worlds@.len(),
{
    let mut metrics = crate::metrics::SolveMetrics::new(initial.world_count());
    let solutions = solve_with_metrics(initial, plies, max_solutions, &mut metrics);
    (solutions, metrics)
}

/// Once the cap is reached, later lines change nothing.
proof fn lemma_capped_rest(ws: Seq<WorldView>, free: bool, rule: MateRule, mode: HandVariableMode, n: nat, m: nat, cap: nat)
    requires
        n <= m,
        add_unique(Seq::empty(), mates_upto(ws, free, rule, mode, n), cap).len() >= cap,
    ensures
        add_unique(Seq::empty(), mates_upto(ws, free, rule, mode, m), cap) == add_unique(Seq::empty(), mates_upto(ws, free, rule, mode, n), cap),
    decreases m - n,
{
    if m > n {
        lemma_capped_rest(ws, free, rule, mode, n, (m - 1) as nat, cap);
        let d = (m - 1) as nat;
        let earlier = mates_upto(ws, free, rule, mode, d);
        let extra = if turn_after(ws[0].pos.turn, d) == rule.spec_terminal_turn() {
            mates(ws, free, rule, mode, d, Seq::empty())
        } else {
            Seq::empty()
        };
        assert(mates_upto(ws, free, rule, mode, m) =~= earlier + extra);
        lemma_add_unique_twice(Seq::empty(), earlier, extra, cap);
    }
}

} // verus!

verus! {

/// The Japanese name of a kind.
pub open spec fn kind_name(k: Kind) -> Seq<char> {
    match k {
        Kind::Pawn => "歩"@,
        Kind::Lance => "香"@,
        Kind::Knight => "桂"@,
        Kind::Silver => "銀"@,
        Kind::Gold => "金"@,
        Kind::Bishop => "角"@,
        Kind::Rook => "飛"@,
        Kind::King => "玉"@,
        Kind::ProPawn => "と"@,
        Kind::ProLance => "杏"@,
        Kind::ProKnight => "圭"@,
        Kind::ProSilver => "全"@,
        Kind::ProBishop => "馬"@,
        Kind::ProRook => "龍"@,
    }
}

pub fn japanese_kind(k: Kind) -> (r: &'static str)
    ensures
        r@ == kind_name(k),
{
    match k {
        Kind::Pawn => "歩",
        Kind::Lance => "香",
        Kind::Knight => "桂",
        Kind::Silver => "銀",
        Kind::Gold => "金",
        Kind::Bishop => "角",
        Kind::Rook => "飛",
        Kind::King => "玉",
        Kind::ProPawn => "と",
        Kind::ProLance => "杏",
        Kind::ProKnight => "圭",
        Kind::ProSilver => "全",
        Kind::ProBishop => "馬",
        Kind::ProRook => "龍",
    }
}

/// The mark of a side: ▲ for black, △ for white.
pub open spec fn color_mark(c: Color) -> Seq<char> {
    if c == Color::Black {
        "▲"@
    } else {
        "△"@
    }
}

pub fn color_symbol(c: Color) -> (r: &'static str)
    ensures
        r@ == color_mark(c),
{
    if c.is_black() {
        "▲"
    } else {
        "△"
    }
}

/// The piece on square `sq` in the first world.
pub open spec fn piece_on(ws: Seq<WorldView>, sq: Square) -> Option<(Color, Kind)> {
    match ws[0].pos.cell(sq.spec_index()) {
        Cell::Piece(c, k) => Some((c, k)),
        _ => None,
    }
}

/// The side of the variable piece `id` in the first world.
pub open spec fn variable_side(ws: Seq<WorldView>, id: VariableId) -> Option<Color> {
    match ws[0].variable(id) {
        Some(v) => Some(v.color),
        None => None,
    }
}

/// The move can be written in the first world: a known piece stands on the
/// source of a known move, and a named variable piece exists.
pub open spec fn writable(ws: Seq<WorldView>, o: ObservedMove) -> bool {
    &&& observed_wf(o)
    &&& match o {
        ObservedMove::Move { identity: MoveIdentity::Known, source, .. } => piece_on(ws, source) is Some,
        ObservedMove::Move { identity: MoveIdentity::Variable(id), .. } => variable_side(ws, id) is Some,
        ObservedMove::Drop { identity: DropIdentity::Variable(id), .. } => variable_side(ws, id) is Some,
        _ => true,
    }
}

/// The Japanese writing of an observed move in one state: destination,
/// kind of a known piece or the side mark of a variable piece, promotion,
/// and the source in brackets; drops end with 打.
pub open spec fn move_text(ws: Seq<WorldView>, o: ObservedMove) -> Seq<char> {
    match o {
        ObservedMove::Move { identity, source, destination, promote } => {
            let who = match identity {
                MoveIdentity::Known => kind_name((piece_on(ws, source)->0).1),
                MoveIdentity::Variable(id) => color_mark(variable_side(ws, id)->0),
                MoveIdentity::AnonymousVariable => color_mark(ws[0].pos.turn),
            };
            square_text(destination) + who + (if promote { "成"@ } else { Seq::empty() }) + "("@ + square_text(source) + ")"@
        },
        ObservedMove::Drop { identity, destination } => {
            let who = match identity {
                DropIdentity::Known(k) => kind_name(k),
                DropIdentity::Variable(id) => color_mark(variable_side(ws, id)->0),
                DropIdentity::AnonymousVariable => color_mark(ws[0].pos.turn),
            };
            square_text(destination) + who + "打"@
        },
    }
}

fn push_square_text(s: &mut String, sq: Square)
    requires
        sq.wf(),
    ensures
        final(s)@ == old(s)@ + square_text(sq),
{
    crate::observed::push_square(s, sq);
}

/// The Japanese writing of an observed move, as `83銀(82)`, `84▲(64)` or
/// `92歩打`.
pub fn format_observed_japanese(state: &HiddenState, observed: ObservedMove) -> (r: String)
    requires
        state.wf(),
        writable(state.ws(), observed),
    ensures
        r@ == move_text(state.ws(), observed),
{
    let ghost ws = state.ws();
    assert(ws[0] == state.worlds@[0]@);
    let mut s = String::new();
    match observed {
        ObservedMove::Move { identity, source, destination, promote } => {
            push_square_text(&mut s, destination);
            match identity {
                MoveIdentity::Known => {
                    let (_, kind) = state.worlds[0].position.get(source).unwrap();
                    s.append(japanese_kind(kind));
                },
                MoveIdentity::Variable(id) => {
                    let v = state.worlds[0].variable(id).unwrap();
                    s.append(color_symbol(v.color));
                },
                MoveIdentity::AnonymousVariable => {
                    s.append(color_symbol(state.turn()));
                },
            }
            if promote {
                s.append("成");
            }
            s.append("(");
            push_square_text(&mut s, source);
            s.append(")");
        },
        ObservedMove::Drop { identity, destination } => {
            push_square_text(&mut s, destination);
            match identity {
                DropIdentity::Known(k) => {
                    s.append(japanese_kind(k));
                },
                DropIdentity::Variable(id) => {
                    let v = state.worlds[0].variable(id).unwrap();
                    s.append(color_symbol(v.color));
                },
                DropIdentity::AnonymousVariable => {
                    s.append(color_symbol(state.turn()));
                },
            }
            s.append("打");
        },
    }
    proof {
        assert(s@ =~= move_text(ws, observed));
    }
    s
}

} // verus!

verus! {

/// The destination, or 同 when it is the previous move's destination.
pub open spec fn destination_text(dest: Square, prev: Option<Square>) -> Seq<char> {
    if prev == Some(dest) {
        "同"@
    } else {
        square_text(dest)
    }
}

/// 成 for a promotion; 生 for a known piece that could have promoted, its
/// source or destination lying in its side's promotion zone, and did not.
pub open spec fn promotion_text(o: ObservedMove, ws: Seq<WorldView>) -> Seq<char> {
    match o {
        ObservedMove::Move { identity, source, destination, promote } => if promote {
            "成"@
        } else if identity == MoveIdentity::Known && ({
            let (c, k) = piece_on(ws, source)->0;
            k.spec_can_promote() && (promotable_row(source.spec_row(), c) || promotable_row(destination.spec_row(), c))
        }) {
            "生"@
        } else {
            Seq::empty()
        },
        ObservedMove::Drop { .. } => Seq::empty(),
    }
}

/// One line of a solution written in Japanese, `prev` being the previous
/// move's destination.
pub open spec fn line_text(ws: Seq<WorldView>, prev: Option<Square>, o: ObservedMove) -> Seq<char> {
    match o {
        ObservedMove::Move { identity, source, destination, promote } => {
            let who = match identity {
                MoveIdentity::Known => kind_name((piece_on(ws, source)->0).1),
                MoveIdentity::Variable(id) => color_mark(variable_side(ws, id)->0),
                MoveIdentity::AnonymousVariable => color_mark(ws[0].pos.turn),
            };
            destination_text(destination, prev) + who + promotion_text(o, ws) + "("@ + square_text(source) + ")"@
        },
        ObservedMove::Drop { identity, destination } => {
            let who = match identity {
                DropIdentity::Known(k) => kind_name(k),
                DropIdentity::Variable(id) => color_mark(variable_side(ws, id)->0),
                DropIdentity::AnonymousVariable => color_mark(ws[0].pos.turn),
            };
            destination_text(destination, prev) + who + "打"@
        },
    }
}

/// Every move of the solution can be written and played in turn.
pub open spec fn solution_ok(ws: Seq<WorldView>, free: bool, mode: HandVariableMode, sol: Seq<ObservedMove>) -> bool
    decreases sol.len(),
{
    if sol.len() == 0 {
        true
    } else {
        &&& writable(ws, sol[0])
        &&& after_move(ws, free, mode, sol[0]) is Some
        &&& solution_ok(after_move(ws, free, mode, sol[0])->0, false, mode, sol.drop_first())
    }
}

/// The Japanese lines of a solution played from the worlds `ws`.
pub open spec fn solution_lines(
    ws: Seq<WorldView>,
    free: bool,
    mode: HandVariableMode,
    sol: Seq<ObservedMove>,
    prev: Option<Square>,
) -> Seq<Seq<char>>
    decreases sol.len(),
{
    if sol.len() == 0 {
        Seq::empty()
    } else {
        seq![line_text(ws, prev, sol[0])] + solution_lines(
            after_move(ws, free, mode, sol[0])->0,
            false,
            mode,
            sol.drop_first(),
            Some(sol[0].spec_destination()),
        )
    }
}

/// The views of a list of texts.
pub open spec fn texts_view(v: Seq<String>) -> Seq<Seq<char>> {
    Seq::new(v.len(), |i: int| v[i]@)
}

fn format_line(state: &HiddenState, prev: Option<Square>, observed: ObservedMove) -> (r: String)
    requires
        state.wf(),
        writable(state.ws(), observed),
    ensures
        r@ == line_text(state.ws(), prev, observed),
{
    let ghost ws = state.ws();
    assert(ws[0] == state.worlds@[0]@);
    let mut s = String::new();
    let dest = observed.destination();
    let same = match prev {
        Some(p) => p == dest,
        None => false,
    };
    if same {
        s.append("同");
    } else {
        push_square_text(&mut s, dest);
    }
    match observed {
        ObservedMove::Move { identity, source, destination, promote } => {
            match identity {
                MoveIdentity::Known => {
                    let (color, kind) = state.worlds[0].position.get(source).unwrap();
                    s.append(japanese_kind(kind));
                    if promote {
                        s.append("成");
                    } else if kind.can_promote() && (crate::moves::promotable_row_exec(source.row(), color)
                        || crate::moves::promotable_row_exec(destination.row(), color)) {
                        s.append("生");
                    }
                },
                MoveIdentity::Variable(id) => {
                    let v = state.worlds[0].variable(id).unwrap();
                    s.append(color_symbol(v.color));
                    if promote {
                        s.append("成");
                    }
                },
                MoveIdentity::AnonymousVariable => {
                    s.append(color_symbol(state.turn()));
                    if promote {
                        s.append("成");
                    }
                },
            }
            s.append("(");
            push_square_text(&mut s, source);
            s.append(")");
        },
        ObservedMove::Drop { identity, destination } => {
            match identity {
                DropIdentity::Known(k) => {
                    s.append(japanese_kind(k));
                },
                DropIdentity::Variable(id) => {
                    let v = state.worlds[0].variable(id).unwrap();
                    s.append(color_symbol(v.color));
                },
                DropIdentity::AnonymousVariable => {
                    s.append(color_symbol(state.turn()));
                },
            }
            s.append("打");
        },
    }
    proof {
        assert(s@ =~= line_text(ws, prev, observed));
    }
    s
}

/// The promotion mark of a move stands in its line right after the piece.
proof fn lemma_mark_in_line(ws: Seq<WorldView>, prev: Option<Square>, o: ObservedMove)
    requires
        o is Move,
        promotion_text(o, ws).len() == 1,
    ensures
        line_text(ws, prev, o).contains(promotion_text(o, ws)[0]),
{
    if let ObservedMove::Move { identity, source, destination, promote } = o {
        let who = match identity {
            MoveIdentity::Known => kind_name((piece_on(ws, source)->0).1),
            MoveIdentity::Variable(id) => color_mark(variable_side(ws, id)->0),
            MoveIdentity::AnonymousVariable => color_mark(ws[0].pos.turn),
        };
        let a = destination_text(destination, prev);
        let t = promotion_text(o, ws);
        let rest = "("@ + square_text(source) + ")"@;
        assert(line_text(ws, prev, o) == a + who + t + "("@ + square_text(source) + ")"@);
        assert(a + who + t + "("@ + square_text(source) + ")"@ =~= a + who + t + rest);
        assert((a + who + t + rest)[(a.len() + who.len()) as int] == t[0]);
    }
}

/// A promotion is written with 成.
pub proof fn lemma_promotion_marked(ws: Seq<WorldView>, prev: Option<Square>, identity: MoveIdentity, source: Square, destination: Square)
    ensures
        line_text(ws, prev, ObservedMove::Move { identity, source, destination, promote: true }).contains('成'),
{
    reveal_strlit("成");
    lemma_mark_in_line(ws, prev, ObservedMove::Move { identity, source, destination, promote: true });
}

/// A known piece `k` of side `c` that can promote, moving without promoting
/// from or into its side's promotion zone (the first three rows for black,
/// the last three for white), is written with 生, whatever its destination.
pub proof fn lemma_declined_promotion_marked(
    ws: Seq<WorldView>,
    prev: Option<Square>,
    source: Square,
    destination: Square,
    c: Color,
    k: Kind,
)
    requires
        ws[0].pos.cell(source.spec_index()) == Cell::Piece(c, k),
        k.spec_can_promote(),
        (c == Color::Black && (source.spec_row() < 3 || destination.spec_row() < 3)) || (c == Color::White && (
        source.spec_row() >= 6 || destination.spec_row() >= 6)),
    ensures
        line_text(ws, prev, ObservedMove::Move { identity: MoveIdentity::Known, source, destination, promote: false }).contains('生'),
{
    reveal_strlit("生");
    lemma_mark_in_line(ws, prev, ObservedMove::Move { identity: MoveIdentity::Known, source, destination, promote: false });
}

/// A known piece moving without promoting, of a kind that cannot promote or
/// with neither square in its side's promotion zone, is written with no
/// mark: its destination, its kind and its source in brackets.
pub proof fn lemma_unmarked_move(
    ws: Seq<WorldView>,
    prev: Option<Square>,
    source: Square,
    destination: Square,
    c: Color,
    k: Kind,
)
    requires
        ws[0].pos.cell(source.spec_index()) == Cell::Piece(c, k),
        !k.spec_can_promote() || (c == Color::Black && source.spec_row() >= 3 && destination.spec_row() >= 3) || (c
            == Color::White && source.spec_row() < 6 && destination.spec_row() < 6),
    ensures
        line_text(ws, prev, ObservedMove::Move { identity: MoveIdentity::Known, source, destination, promote: false })
            == destination_text(destination, prev) + kind_name(k) + "("@ + square_text(source) + ")"@,
{
    let o = ObservedMove::Move { identity: MoveIdentity::Known, source, destination, promote: false };
    assert(promotion_text(o, ws) =~= Seq::<char>::empty());
    assert(destination_text(destination, prev) + kind_name(k) + Seq::<char>::empty() =~= destination_text(destination, prev)
        + kind_name(k));
}

/// A solution written in Japanese, one line per move: 同 for a move to the
/// previous destination, ▲ or △ for a variable piece, 成 for a promotion and
/// 生 for a known piece that declined one.
pub fn format_solution_japanese(initial: &HiddenState, solution: &Solution) -> (r: Vec<String>)
    requires
        initial.wf(),
        solution_ok(initial.ws(), initial.free_white_move, initial.hand_variable_mode, solution@),
    ensures
        texts_view(r@) == solution_lines(initial.ws(), initial.free_white_move, initial.hand_variable_mode, solution@, None),
{
    let ghost mode = initial.hand_variable_mode;
    let ghost all = solution_lines(initial.ws(), initial.free_white_move, mode, solution@, None);
    let mut state = initial.copy();
    let mut result: Vec<String> = Vec::new();
    let mut prev: Option<Square> = None;
    let mut i: usize = 0;
    proof {
        assert(solution@.skip(0) =~= solution@);
        assert(texts_view(result@) + solution_lines(state.ws(), state.free_white_move, mode, solution@.skip(0), prev) =~= all);
    }
    while i < solution.len()
        invariant
            i <= solution@.len(),
            state.worlds@.len() > 0 ==> state.wf(),
            state.wf(),
            state.hand_variable_mode == mode,
            solution_ok(state.ws(), state.free_white_move, mode, solution@.skip(i as int)),
            texts_view(result@) + solution_lines(state.ws(), state.free_white_move, mode, solution@.skip(i as int), prev) == all,
        decreases solution@.len() - i,
    {
        let o = solution[i];
        let ghost rest = solution@.skip(i as int);
        assert(rest[0] == o);
        assert(rest.drop_first() =~= solution@.skip(i + 1));
        let line = format_line(&state, prev, o);
        let ghost before = texts_view(result@);
        result.push(line);
        let next = state.apply(o).unwrap();
        proof {
            assert(texts_view(result@) =~= before.push(line@));
            assert(before + solution_lines(state.ws(), state.free_white_move, mode, rest, prev)
                =~= before.push(line@) + solution_lines(next.ws(), false, mode, solution@.skip(i + 1), Some(o.spec_destination())));
        }
        state = next;
        prev = Some(o.destination());
        i = i + 1;
    }
    proof {
        assert(texts_view(result@) + Seq::<Seq<char>>::empty() =~= texts_view(result@));
    }
    result
}


fn writable_exec(state: &HiddenState, o: ObservedMove) -> (r: bool)
    requires
        state.wf(),
    ensures
        r == writable(state.ws(), o),
{
    let ghost ws = state.ws();
    assert(ws[0] == state.worlds@[0]@);
    let squares_ok = match o {
        ObservedMove::Move { source, destination, .. } => source.idx < 81 && destination.idx < 81,
        ObservedMove::Drop { destination, .. } => destination.idx < 81,
    };
    if !squares_ok {
        return false;
    }
    match o {
        ObservedMove::Move { identity: MoveIdentity::Known, source, .. } => state.worlds[0].position.get(source).is_some(),
        ObservedMove::Move { identity: MoveIdentity::Variable(id), .. } => state.worlds[0].variable(id).is_some(),
        ObservedMove::Drop { identity: DropIdentity::Variable(id), .. } => state.worlds[0].variable(id).is_some(),
        _ => true,
    }
}

/// Whether every move of the solution can be written and played in turn:
/// what `format_solution_japanese` asks of it.
pub fn solution_formattable(initial: &HiddenState, solution: &Solution) -> (r: bool)
    requires
        initial.wf(),
    ensures
        r == solution_ok(initial.ws(), initial.free_white_move, initial.hand_variable_mode, solution@),
{
    let ghost mode = initial.hand_variable_mode;
    let ghost all = solution_ok(initial.ws(), initial.free_white_move, mode, solution@);
    let mut state = initial.copy();
    let mut i: usize = 0;
    proof {
        assert(solution@.skip(0) =~= solution@);
    }
    while i < solution.len()
        invariant
            i <= solution@.len(),
            state.wf(),
            state.hand_variable_mode == mode,
            mode == initial.hand_variable_mode,
            all == solution_ok(initial.ws(), initial.free_white_move, initial.hand_variable_mode, solution@),
            all == solution_ok(state.ws(), state.free_white_move, mode, solution@.skip(i as int)),
        decreases solution@.len() - i,
    {
        let o = solution[i];
        let ghost rest = solution@.skip(i as int);
        assert(rest[0] == o);
        assert(rest.drop_first() =~= solution@.skip(i + 1));
        if !writable_exec(&state, o) {
            return false;
        }
        match state.apply(o) {
            None => {
                return false;
            },
            Some(next) => {
                state = next;
            },
        }
        i = i + 1;
    }
    true
}


/// The kinds known for the variable pieces, as a function of the id.
pub type Resolution = spec_fn(VariableId) -> Option<Kind>;

/// The kinds recorded in a state.
pub open spec fn state_resolution(s: &HiddenState) -> Resolution {
    |id: VariableId| lookup(s.resolved@, id)
}

/// The worlds and known kinds after observing `o`, when some world allows
/// it.
pub open spec fn step_after(
    ws: Seq<WorldView>,
    known: Resolution,
    free: bool,
    mode: HandVariableMode,
    o: ObservedMove,
) -> Option<(Seq<WorldView>, Resolution)> {
    let succ = successors(ws, free, mode, o);
    if succ.len() == 0 {
        None
    } else {
        Some(
            (
                settle_all(succ),
                |id: VariableId| if settled(succ, id) {
                    Some(settled_value(succ, id))
                } else {
                    known(id)
                },
            ),
        )
    }
}

/// The candidates of each variable piece, by id.
pub type Listing = Seq<(VariableId, Seq<Kind>)>;

/// The value of a listing.
pub open spec fn listing_view(v: Seq<(VariableId, Vec<Kind>)>) -> Listing {
    Seq::new(v.len(), |i: int| (v[i].0, v[i].1@))
}

/// `l` lists, by increasing id, every variable piece that some world has
/// or whose kind is known, with its candidate kinds: the known kind, or
/// every kind some world gives it, in index order.
pub open spec fn listing_of(ws: Seq<WorldView>, known: Resolution, l: Listing) -> bool {
    &&& forall|a: int, b: int| 0 <= a < b < l.len() ==> (#[trigger] l[a]).0.0 < (#[trigger] l[b]).0.0
    &&& forall|id: VariableId| (exists|a: int| 0 <= a < l.len() && (#[trigger] l[a]).0 == id) <==> (appears(ws, id)
        || known(id) is Some)
    &&& forall|a: int| 0 <= a < l.len() ==> (#[trigger] l[a]).1 == match known(l[a].0) {
        Some(k) => seq![k],
        None => crate::kind_set::kind_seq().filter(possible_pred(ws, l[a].0)),
    }
}

/// The index of the first move of `sol` that no world allows, when one
/// does not.
pub open spec fn first_failure(ws: Seq<WorldView>, known: Resolution, free: bool, mode: HandVariableMode, sol: Seq<ObservedMove>) -> Option<
    nat,
>
    decreases sol.len(),
{
    if sol.len() == 0 {
        None
    } else {
        match step_after(ws, known, free, mode, sol[0]) {
            None => Some(0),
            Some((ws2, known2)) => match first_failure(ws2, known2, false, mode, sol.drop_first()) {
                None => None,
                Some(k) => Some(k + 1),
            },
        }
    }
}

/// `ls` lists the candidates after each move of `sol`.
pub open spec fn listings_along(
    ws: Seq<WorldView>,
    known: Resolution,
    free: bool,
    mode: HandVariableMode,
    sol: Seq<ObservedMove>,
    ls: Seq<Listing>,
) -> bool
    decreases sol.len(),
{
    if sol.len() == 0 {
        ls.len() == 0
    } else {
        match step_after(ws, known, free, mode, sol[0]) {
            None => false,
            Some((ws2, known2)) => ls.len() == sol.len() && listing_of(ws2, known2, ls[0]) && listings_along(
                ws2,
                known2,
                false,
                mode,
                sol.drop_first(),
                ls.drop_first(),
            ),
        }
    }
}

/// The values of the listings of one solution.
pub open spec fn listings_view(v: Seq<Vec<(VariableId, Vec<Kind>)>>) -> Seq<Listing> {
    Seq::new(v.len(), |i: int| listing_view(v[i]@))
}

/// The candidates after each move of a solution, or the index of the first
/// move that no world allows.
#[verifier::spinoff_prover]
fn candidates_along(initial: &HiddenState, solution: &Solution) -> (r: Result<Vec<Vec<(VariableId, Vec<Kind>)>>, usize>)
    requires
        initial.wf(),
    ensures
        match r {
            Ok(v) => first_failure(
                initial.ws(),
                state_resolution(initial),
                initial.free_white_move,
                initial.hand_variable_mode,
                solution@,
            ) is None && listings_along(
                initial.ws(),
                state_resolution(initial),
                initial.free_white_move,
                initial.hand_variable_mode,
                solution@,
                listings_view(v@),
            ),
            Err(d) => first_failure(
                initial.ws(),
                state_resolution(initial),
                initial.free_white_move,
                initial.hand_variable_mode,
                solution@,
            ) == Some(d as nat),
        },
{
    let ghost mode = initial.hand_variable_mode;
    let mut state = initial.copy();
    let mut out: Vec<Vec<(VariableId, Vec<Kind>)>> = Vec::new();
    let mut i: usize = 0;
    proof {
        assert(solution@.skip(0) =~= solution@);
        assert(state_resolution(&state) =~= state_resolution(initial));
    }
    while i < solution.len()
        invariant
            i <= solution@.len(),
            state.wf(),
            state.hand_variable_mode == mode,
            mode == initial.hand_variable_mode,
            out@.len() == i,
            forall|sol: Seq<ObservedMove>, ls: Seq<Listing>|
                #![trigger listings_along(state.ws(), state_resolution(&state), state.free_white_move, mode, sol, ls)]
                listings_along(state.ws(), state_resolution(&state), state.free_white_move, mode, sol, ls)
                    ==> listings_along(
                    initial.ws(),
                    state_resolution(initial),
                    initial.free_white_move,
                    mode,
                    solution@.take(i as int) + sol,
                    listings_view(out@) + ls,
                ),
            forall|sol: Seq<ObservedMove>|
                #![trigger first_failure(state.ws(), state_resolution(&state), state.free_white_move, mode, sol)]
                first_failure(initial.ws(), state_resolution(initial), initial.free_white_move, mode, solution@.take(i as int) + sol)
                    == match first_failure(state.ws(), state_resolution(&state), state.free_white_move, mode, sol) {
                    None => None,
                    Some(k) => Some((k + i) as nat),
                },
        decreases solution@.len() - i,
    {
        let o = solution[i];
        let ghost ws = state.ws();
        let ghost known = state_resolution(&state);
        let ghost free = state.free_white_move;
        match state.apply(o) {
            None => {
                proof {
                    let rest = solution@.skip(i as int);
                    assert(solution@ =~= solution@.take(i as int) + rest);
                    assert(rest[0] == o);
                    assert(first_failure(ws, known, free, mode, rest) == Some(0nat));
                }
                return Err(i);
            },
            Some(next) => {
                let listing = next.all_candidates();
                let ghost succ = successors(ws, free, mode, o);
                let ghost known2 = state_resolution(&next);
                proof {
                    assert(known2 =~= (|id: VariableId| if settled(succ, id) {
                        Some(settled_value(succ, id))
                    } else {
                        known(id)
                    }));
                    assert(step_after(ws, known, free, mode, o) == Some((next.ws(), known2)));
                    assert forall|a: int| 0 <= a < listing@.len() implies (#[trigger] listing_view(listing@)[a]).1 == match known2(
                        listing_view(listing@)[a].0,
                    ) {
                        Some(k) => seq![k],
                        None => crate::kind_set::kind_seq().filter(possible_pred(next.ws(), listing_view(listing@)[a].0)),
                    } by {
                        assert(listing@[a].1@ == candidate_kinds(next.ws(), next.resolved@, listing@[a].0));
                    }
                    assert(listing_of(next.ws(), known2, listing_view(listing@))) by {
                        let l = listing_view(listing@);
                        assert forall|a: int, b: int| 0 <= a < b < l.len() implies (#[trigger] l[a]).0.0 < (#[trigger] l[b]).0.0 by {
                            assert(l[a].0 == listing@[a].0 && l[b].0 == listing@[b].0);
                        }
                        assert forall|id: VariableId| (exists|a: int| 0 <= a < l.len() && (#[trigger] l[a]).0 == id) <==> (
                            appears(next.ws(), id) || known2(id) is Some) by {
                            assert(known2(id) == lookup(next.resolved@, id));
                            if exists|a: int| 0 <= a < l.len() && (#[trigger] l[a]).0 == id {
                                let a = choose|a: int| 0 <= a < l.len() && (#[trigger] l[a]).0 == id;
                                assert(listing@[a].0 == id);
                            }
                            if appears(next.ws(), id) || known2(id) is Some {
                                assert(appears(next.ws(), id) || lookup(next.resolved@, id) is Some);
                                assert(exists|a: int| 0 <= a < listing@.len() && (#[trigger] listing@[a]).0 == id);
                                let a = choose|a: int| 0 <= a < listing@.len() && (#[trigger] listing@[a]).0 == id;
                                assert(l[a] == (listing@[a].0, listing@[a].1@));
                                assert(l[a].0 == id);
                            }
                        }
                    }
                }
                let ghost before = out@;
                out.push(listing);
                proof {
                    let prefix = solution@.take(i as int);
                    assert(solution@.take(i + 1) =~= prefix.push(o));
                    assert(listings_view(out@) =~= listings_view(before).push(listing_view(listing@)));
                    assert forall|sol: Seq<ObservedMove>, ls: Seq<Listing>|
                        #![trigger listings_along(next.ws(), known2, next.free_white_move, mode, sol, ls)]
                        listings_along(next.ws(), known2, next.free_white_move, mode, sol, ls) implies listings_along(
                        initial.ws(),
                        state_resolution(initial),
                        initial.free_white_move,
                        mode,
                        solution@.take(i + 1) + sol,
                        listings_view(out@) + ls,
                    ) by {
                        let sol2 = seq![o] + sol;
                        let ls2 = seq![listing_view(listing@)] + ls;
                        assert(sol2[0] == o);
                        assert(sol2.drop_first() =~= sol);
                        assert(ls2[0] == listing_view(listing@));
                        assert(ls2.drop_first() =~= ls);
                        assert(listings_along(ws, known, free, mode, sol2, ls2));
                        assert(prefix + sol2 =~= solution@.take(i + 1) + sol);
                        assert(listings_view(before) + ls2 =~= listings_view(out@) + ls);
                    }
                    assert forall|sol: Seq<ObservedMove>|
                        #![trigger first_failure(next.ws(), known2, next.free_white_move, mode, sol)]
                        first_failure(initial.ws(), state_resolution(initial), initial.free_white_move, mode, solution@.take(i + 1) + sol)
                            == match first_failure(next.ws(), known2, next.free_white_move, mode, sol) {
                            None => None,
                            Some(k) => Some((k + i + 1) as nat),
                        } by {
                        let sol2 = seq![o] + sol;
                        assert(sol2[0] == o);
                        assert(sol2.drop_first() =~= sol);
                        assert(prefix + sol2 =~= solution@.take(i + 1) + sol);
                        assert(first_failure(ws, known, free, mode, sol2) == match first_failure(next.ws(), known2, false, mode, sol) {
                            None => None,
                            Some(k) => Some((k + 1) as nat),
                        });
                    }
                }
                state = next;
            },
        }
        i = i + 1;
    }
    proof {
        assert(solution@.take(i as int) + Seq::<ObservedMove>::empty() =~= solution@);
        assert(listings_view(out@) + Seq::<Listing>::empty() =~= listings_view(out@));
        assert(listings_along(state.ws(), state_resolution(&state), state.free_white_move, mode, Seq::empty(), Seq::empty()));
        assert(first_failure(state.ws(), state_resolution(&state), state.free_white_move, mode, Seq::empty()) is None);
    }
    Ok(out)
}

/// The candidates of every variable piece after each move of each solution;
/// or, for the first solution with a move that no world allows, its index
/// and that move's.
pub fn collect_solution_candidates(initial: &HiddenState, solutions: &Vec<Solution>) -> (r: Result<
    Vec<Vec<Vec<(VariableId, Vec<Kind>)>>>,
    (usize, usize),
>)
    requires
        initial.wf(),
    ensures
        match r {
            Ok(v) => v@.len() == solutions@.len() && forall|i: int|
                0 <= i < v@.len() ==> first_failure(
                    initial.ws(),
                    state_resolution(initial),
                    initial.free_white_move,
                    initial.hand_variable_mode,
                    #[trigger] solutions@[i]@,
                ) is None && listings_along(
                    initial.ws(),
                    state_resolution(initial),
                    initial.free_white_move,
                    initial.hand_variable_mode,
                    solutions@[i]@,
                    listings_view(v@[i]@),
                ),
            Err((i, d)) => i < solutions@.len() && first_failure(
                initial.ws(),
                state_resolution(initial),
                initial.free_white_move,
                initial.hand_variable_mode,
                solutions@[i as int]@,
            ) == Some(d as nat) && forall|j: int|
                0 <= j < i ==> first_failure(
                    initial.ws(),
                    state_resolution(initial),
                    initial.free_white_move,
                    initial.hand_variable_mode,
                    #[trigger] solutions@[j]@,
                ) is None,
        },
{
    let mut result: Vec<Vec<Vec<(VariableId, Vec<Kind>)>>> = Vec::new();
    let mut i: usize = 0;
    while i < solutions.len()
        invariant
            initial.wf(),
            i <= solutions@.len(),
            result@.len() == i,
            forall|j: int|
                0 <= j < i ==> first_failure(
                    initial.ws(),
                    state_resolution(initial),
                    initial.free_white_move,
                    initial.hand_variable_mode,
                    #[trigger] solutions@[j]@,
                ) is None && listings_along(
                    initial.ws(),
                    state_resolution(initial),
                    initial.free_white_move,
                    initial.hand_variable_mode,
                    solutions@[j]@,
                    listings_view(result@[j]@),
                ),
        decreases solutions@.len() - i,
    {
        match candidates_along(initial, &solutions[i]) {
            Ok(v) => {
                let ghost before = result@;
                result.push(v);
                proof {
                    assert forall|j: int| 0 <= j < i + 1 implies first_failure(
                        initial.ws(),
                        state_resolution(initial),
                        initial.free_white_move,
                        initial.hand_variable_mode,
                        #[trigger] solutions@[j]@,
                    ) is None && listings_along(
                        initial.ws(),
                        state_resolution(initial),
                        initial.free_white_move,
                        initial.hand_variable_mode,
                        solutions@[j]@,
                        listings_view(result@[j]@),
                    ) by {
                        if j < i {
                            assert(result@[j] == before[j]);
                        }
                    }
                }
            },
            Err(d) => {
                return Err((i, d));
            },
        }
        i = i + 1;
    }
    Ok(result)
}

} // verus!
