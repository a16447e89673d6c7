use vstd::prelude::*;
use vstd::string::StringExecFns;

use crate::observed::ObservedMove;
use crate::piece::Color;
use crate::rule::{HandVariableMode, MateRule};
use crate::solver::{after_move, observed_list, solutions_view, Solution};
use crate::state::{proven_mate, HiddenState};
use crate::world::WorldView;

verus! {

/// The result of a best-mate search: the length of the mate with the
/// attacker shortest and the defender longest, the main lines in which every
/// move keeps that distance, and whether lines were left out.
#[derive(Clone, Debug, PartialEq, Eq)]
pub struct BestMateResult {
    pub mate_in: usize,
    pub variations: Vec<Solution>,
    pub variations_truncated: bool,
}

/// Why no best-mate search was made.
#[derive(Clone, Copy, Debug, PartialEq, Eq, Structural)]
pub enum BestMateError {
    /// The state is not one of the best-mate rule.
    NotBestMate,
}

impl BestMateError {
    pub fn to_string(&self) -> (r: String)
        ensures
            r@ == "最善詰以外の状態が最善詰ソルバーへ渡されました"@,
    {
        let mut s = String::new();
        s.append("最善詰以外の状態が最善詰ソルバーへ渡されました");
        proof {
            assert(s@ =~= "最善詰以外の状態が最善詰ソルバーへ渡されました"@);
        }
        s
    }
}

/// The least distance among the children that mate.
pub open spec fn least(ds: Seq<Option<nat>>) -> Option<nat>
    decreases ds.len(),
{
    if ds.len() == 0 {
        None
    } else {
        let rest = least(ds.drop_last());
        match ds.last() {
            None => rest,
            Some(d) => match rest {
                None => Some(d),
                Some(r) => Some(if d < r { d } else { r }),
            },
        }
    }
}

/// The greatest distance when every child mates; `None` when one does not.
pub open spec fn greatest(ds: Seq<Option<nat>>) -> Option<nat>
    decreases ds.len(),
{
    if ds.len() == 0 {
        Some(0)
    } else {
        match (greatest(ds.drop_last()), ds.last()) {
            (Some(r), Some(d)) => Some(if d > r { d } else { r }),
            _ => None,
        }
    }
}

/// A node's distance from its children's: the attacker takes the shortest
/// mate, the defender escapes when one child does not mate and otherwise
/// takes the longest; one more move either way. No child: no mate.
pub open spec fn combine(turn: Color, ds: Seq<Option<nat>>) -> Option<nat> {
    if ds.len() == 0 {
        None
    } else if turn == Color::Black {
        match least(ds) {
            Some(d) => Some(d + 1),
            None => None,
        }
    } else {
        match greatest(ds) {
            Some(d) => Some(d + 1),
            None => None,
        }
    }
}

/// The distances of the children as plain numbers.
pub open spec fn distances_view(v: Seq<Option<usize>>) -> Seq<Option<nat>> {
    Seq::new(v.len(), |i: int| match v[i] {
        Some(d) => Some(d as nat),
        None => None,
    })
}

/// The greatest distance is defined exactly when every child mates, is at
/// least each child's distance, and is the distance of some child when
/// there is one.
proof fn lemma_greatest_bounds(ds: Seq<Option<nat>>)
    ensures
        greatest(ds) is Some <==> forall|i: int| 0 <= i < ds.len() ==> (#[trigger] ds[i]) is Some,
        greatest(ds) matches Some(g) ==> {
            &&& forall|i: int| 0 <= i < ds.len() ==> (#[trigger] ds[i] matches Some(d) && d <= g)
            &&& ds.len() > 0 ==> exists|i: int| 0 <= i < ds.len() && #[trigger] ds[i] == Some(g)
        },
    decreases ds.len(),
{
    if ds.len() > 0 {
        let r = ds.drop_last();
        lemma_greatest_bounds(r);
        assert forall|i: int| 0 <= i < r.len() implies #[trigger] r[i] == ds[i] by {}
        if greatest(ds) is Some {
            let g = greatest(ds)->0;
            let d = ds.last()->0;
            let h = greatest(r)->0;
            assert forall|i: int| 0 <= i < ds.len() implies (#[trigger] ds[i] matches Some(e) && e <= g) by {
                if i < r.len() {
                    assert(r[i] == ds[i]);
                }
            }
            if d > h {
                assert(ds[ds.len() - 1] == Some(g));
            } else if r.len() > 0 {
                let i = choose|i: int| 0 <= i < r.len() && #[trigger] r[i] == Some(h);
                assert(ds[i] == Some(g));
            } else {
                assert(ds[ds.len() - 1] == Some(g));
            }
        }
        if forall|i: int| 0 <= i < ds.len() ==> (#[trigger] ds[i]) is Some {
            assert forall|i: int| 0 <= i < r.len() implies (#[trigger] r[i]) is Some by {
                assert(ds[i] is Some);
            }
            assert(ds[ds.len() - 1] is Some);
        }
    }
}

/// The least distance is defined exactly when some child mates, is at most
/// each child's distance, and is the distance of some child.
proof fn lemma_least_bounds(ds: Seq<Option<nat>>)
    ensures
        least(ds) is Some <==> exists|i: int| 0 <= i < ds.len() && (#[trigger] ds[i]) is Some,
        least(ds) matches Some(l) ==> {
            &&& forall|i: int| 0 <= i < ds.len() ==> (#[trigger] ds[i] matches Some(d) ==> l <= d)
            &&& exists|i: int| 0 <= i < ds.len() && #[trigger] ds[i] == Some(l)
        },
    decreases ds.len(),
{
    if ds.len() > 0 {
        let r = ds.drop_last();
        lemma_least_bounds(r);
        assert forall|i: int| 0 <= i < r.len() implies #[trigger] r[i] == ds[i] by {}
        if least(ds) is Some {
            let l = least(ds)->0;
            assert forall|i: int| 0 <= i < ds.len() implies (#[trigger] ds[i] matches Some(d) ==> l <= d) by {
                if i < r.len() {
                    assert(r[i] == ds[i]);
                }
            }
            if least(r) is Some {
                let h = least(r)->0;
                if ds.last() is Some {
                    let d = ds.last()->0;
                    if d < h {
                        assert(ds[ds.len() - 1] == Some(l));
                    } else {
                        let i = choose|i: int| 0 <= i < r.len() && #[trigger] r[i] == Some(h);
                        assert(ds[i] == Some(l));
                    }
                } else {
                    let i = choose|i: int| 0 <= i < r.len() && #[trigger] r[i] == Some(h);
                    assert(ds[i] == Some(l));
                }
            } else {
                assert(ds[ds.len() - 1] == Some(l));
            }
        }
        if exists|i: int| 0 <= i < ds.len() && (#[trigger] ds[i]) is Some {
            let i = choose|i: int| 0 <= i < ds.len() && (#[trigger] ds[i]) is Some;
            if i < r.len() {
                assert(r[i] is Some);
            }
        }
    }
}

/// How a node's distance follows from its children's. With the defender
/// (white) to move, the node mates exactly when it has children and every
/// child mates, and then in one move more than the longest child. With the
/// attacker (black) to move, it mates exactly when some child mates, and
/// then in one move more than the shortest mating child.
pub proof fn lemma_combine_extremes(turn: Color, ds: Seq<Option<nat>>)
    ensures
        turn == Color::White ==> {
            &&& combine(turn, ds) is Some <==> (ds.len() > 0 && forall|i: int| 0 <= i < ds.len() ==> (#[trigger] ds[i]) is Some)
            &&& combine(turn, ds) matches Some(v) ==> {
                &&& forall|i: int| 0 <= i < ds.len() ==> (#[trigger] ds[i] matches Some(d) && d + 1 <= v)
                &&& exists|i: int| 0 <= i < ds.len() && #[trigger] ds[i] == Some((v - 1) as nat)
            }
        },
        turn == Color::Black ==> {
            &&& combine(turn, ds) is Some <==> exists|i: int| 0 <= i < ds.len() && (#[trigger] ds[i]) is Some
            &&& combine(turn, ds) matches Some(v) ==> {
                &&& forall|i: int| 0 <= i < ds.len() ==> (#[trigger] ds[i] matches Some(d) ==> v <= d + 1)
                &&& exists|i: int| 0 <= i < ds.len() && #[trigger] ds[i] == Some((v - 1) as nat)
            }
        },
{
    lemma_greatest_bounds(ds);
    lemma_least_bounds(ds);
}

/// Combines the distances of the children of a node whose side to move is
/// `turn`.
pub fn combine_child_distances(turn: Color, child_distances: Vec<Option<usize>>) -> (r: Option<usize>)
    requires
        forall|i: int| 0 <= i < child_distances@.len() ==> (#[trigger] child_distances@[i] matches Some(d) ==> d < usize::MAX),
    ensures
        match r {
            Some(d) => combine(turn, distances_view(child_distances@)) == Some(d as nat),
            None => combine(turn, distances_view(child_distances@)) is None,
        },
{
    let ghost ds = distances_view(child_distances@);
    if child_distances.len() == 0 {
        return None;
    }
    let mut i: usize = 0;
    if turn.is_black() {
        let mut best: Option<usize> = None;
        while i < child_distances.len()
            invariant
                i <= child_distances@.len(),
                ds == distances_view(child_distances@),
                forall|j: int| 0 <= j < child_distances@.len() ==> (#[trigger] child_distances@[j] matches Some(d) ==> d < usize::MAX),
                match best {
                    Some(b) => least(ds.take(i as int)) == Some(b as nat) && b < usize::MAX,
                    None => least(ds.take(i as int)) is None,
                },
            decreases child_distances@.len() - i,
        {
            proof {
                assert(ds.take(i + 1).drop_last() =~= ds.take(i as int));
            }
            match child_distances[i] {
                Some(d) => {
                    best = match best {
                        None => Some(d),
                        Some(b) => Some(if d < b { d } else { b }),
                    };
                },
                None => {},
            }
            i = i + 1;
        }
        proof {
            assert(ds.take(ds.len() as int) =~= ds);
        }
        match best {
            Some(b) => Some(b + 1),
            None => None,
        }
    } else {
        let mut worst: usize = 0;
        while i < child_distances.len()
            invariant
                i <= child_distances@.len(),
                ds == distances_view(child_distances@),
                forall|j: int| 0 <= j < child_distances@.len() ==> (#[trigger] child_distances@[j] matches Some(d) ==> d < usize::MAX),
                greatest(ds.take(i as int)) == Some(worst as nat),
                worst < usize::MAX,
                turn != Color::Black,
                ds.len() > 0,
            decreases child_distances@.len() - i,
        {
            proof {
                assert(ds.take(i + 1).drop_last() =~= ds.take(i as int));
            }
            match child_distances[i] {
                Some(d) => {
                    if d > worst {
                        worst = d;
                    }
                },
                None => {
                    proof {
                        lemma_greatest_none(ds, i as int);
                    }
                    return None;
                },
            }
            i = i + 1;
        }
        proof {
            assert(ds.take(ds.len() as int) =~= ds);
        }
        Some(worst + 1)
    }
}

/// One child that does not mate makes the greatest undefined.
proof fn lemma_greatest_none(ds: Seq<Option<nat>>, i: int)
    requires
        0 <= i < ds.len(),
        ds[i] is None,
    ensures
        greatest(ds) is None,
    decreases ds.len(),
{
    if i < ds.len() - 1 {
        lemma_greatest_none(ds.drop_last(), i);
    }
}

} // verus!

verus! {

/// The distance to mate with the attacker shortest and the defender
/// longest, within `remaining` moves; `None` when there is no such mate.
pub open spec fn best_distance(
    ws: Seq<WorldView>,
    free: bool,
    rule: MateRule,
    mode: HandVariableMode,
    remaining: nat,
) -> Option<nat>
    decreases remaining, 1nat, 0nat,
{
    if proven_mate(ws, rule) {
        Some(0)
    } else if remaining == 0 {
        None
    } else {
        let os = observed_list(ws, free, mode);
        combine(ws[0].pos.turn, child_distances(ws, free, rule, mode, remaining, os, os.len() as int))
    }
}

/// The distances of the children reached by the first `n` observed moves.
pub open spec fn child_distances(
    ws: Seq<WorldView>,
    free: bool,
    rule: MateRule,
    mode: HandVariableMode,
    remaining: nat,
    os: Seq<ObservedMove>,
    n: int,
) -> Seq<Option<nat>>
    decreases remaining, 0nat, (if n > 0 { n } else { 0 }) as nat,
{
    if n <= 0 || n > os.len() || remaining == 0 {
        Seq::empty()
    } else {
        child_distances(ws, free, rule, mode, remaining, os, n - 1).push(
            match after_move(ws, free, mode, os[n - 1]) {
                None => None,
                Some(next) => best_distance(next, false, rule, mode, (remaining - 1) as nat),
            },
        )
    }
}

proof fn lemma_least_bound(ds: Seq<Option<nat>>, b: nat)
    requires
        forall|i: int| 0 <= i < ds.len() ==> (#[trigger] ds[i] matches Some(x) ==> x <= b),
    ensures
        least(ds) matches Some(d) ==> d <= b,
    decreases ds.len(),
{
    if ds.len() > 0 {
        lemma_least_bound(ds.drop_last(), b);
    }
}

proof fn lemma_greatest_bound(ds: Seq<Option<nat>>, b: nat)
    requires
        forall|i: int| 0 <= i < ds.len() ==> (#[trigger] ds[i] matches Some(x) ==> x <= b),
    ensures
        greatest(ds) matches Some(d) ==> d <= b,
    decreases ds.len(),
{
    if ds.len() > 0 {
        lemma_greatest_bound(ds.drop_last(), b);
    }
}

/// The best-mate distance of `state` within `remaining` moves.
pub fn best_mate_distance(state: &HiddenState, remaining: usize) -> (r: Option<usize>)
    requires
        state.wf(),
    ensures
        match r {
            Some(d) => best_distance(state.ws(), state.free_white_move, state.rule, state.hand_variable_mode, remaining as nat)
                == Some(d as nat) && d <= remaining,
            None => best_distance(state.ws(), state.free_white_move, state.rule, state.hand_variable_mode, remaining as nat) is None,
        },
    decreases remaining,
{
    let ghost ws = state.ws();
    let ghost free = state.free_white_move;
    let ghost rule = state.rule;
    let ghost mode = state.hand_variable_mode;
    if state.is_proven_mate() {
        return Some(0);
    }
    if remaining == 0 {
        return None;
    }
    let os = state.observed_moves();
    proof {
        crate::solver::lemma_observed_list(ws, free, mode, os@);
    }
    let mut children: Vec<Option<usize>> = Vec::new();
    let mut k: usize = 0;
    while k < os.len()
        invariant
            state.wf(),
            ws == state.ws(),
            free == state.free_white_move,
            rule == state.rule,
            mode == state.hand_variable_mode,
            remaining > 0,
            os@ == observed_list(ws, free, mode),
            k <= os@.len(),
            distances_view(children@) == child_distances(ws, free, rule, mode, remaining as nat, os@, k as int),
            forall|i: int| 0 <= i < children@.len() ==> (#[trigger] children@[i] matches Some(d) ==> d < remaining),
        decreases os@.len() - k,
    {
        let child = match state.apply(os[k]) {
            None => None,
            Some(next) => best_mate_distance(&next, remaining - 1),
        };
        let ghost before = children@;
        children.push(child);
        proof {
            assert(distances_view(children@) =~= distances_view(before).push(match child {
                Some(d) => Some(d as nat),
                None => None,
            }));
        }
        k = k + 1;
    }
    let ghost ds = distances_view(children@);
    proof {
        assert forall|i: int| 0 <= i < ds.len() implies (#[trigger] ds[i] matches Some(x) ==> x <= (remaining - 1) as nat) by {
            assert(children@[i] matches Some(d) ==> d < remaining);
        }
        lemma_least_bound(ds, (remaining - 1) as nat);
        lemma_greatest_bound(ds, (remaining - 1) as nat);
    }
    combine_child_distances(state.turn(), children)
}

/// `s` followed by `p`, cut to at most `m` elements, or `s` when it is
/// already that long.
pub open spec fn capped<A>(s: Seq<A>, p: Seq<A>, m: nat) -> Seq<A> {
    if s.len() + p.len() <= m {
        s + p
    } else if s.len() >= m {
        s
    } else {
        (s + p).take(m as int)
    }
}

proof fn lemma_capped_twice<A>(s: Seq<A>, p: Seq<A>, q: Seq<A>, m: nat)
    ensures
        capped(capped(s, p, m), q, m) == capped(s, p + q, m),
{
    assert(s + p + q =~= s + (p + q));
    if s.len() + p.len() > m && s.len() < m {
        assert((s + p + q).take(m as int) =~= (s + p).take(m as int));
    }
}

/// The main lines: from the state, every move that keeps the best-mate
/// distance, down to the mate, each after `prefix`.
pub open spec fn best_lines(
    ws: Seq<WorldView>,
    free: bool,
    rule: MateRule,
    mode: HandVariableMode,
    remaining: nat,
    distance: nat,
    prefix: Seq<ObservedMove>,
) -> Seq<Seq<ObservedMove>>
    decreases remaining, 1nat, 0nat,
{
    if distance == 0 {
        seq![prefix]
    } else if remaining == 0 {
        Seq::empty()
    } else {
        let os = observed_list(ws, free, mode);
        lines_from(ws, free, rule, mode, remaining, distance, prefix, os, 0)
    }
}

/// The main lines that start with the observed moves `os[k..]`.
pub open spec fn lines_from(
    ws: Seq<WorldView>,
    free: bool,
    rule: MateRule,
    mode: HandVariableMode,
    remaining: nat,
    distance: nat,
    prefix: Seq<ObservedMove>,
    os: Seq<ObservedMove>,
    k: int,
) -> Seq<Seq<ObservedMove>>
    decreases remaining, 0nat, (if k < os.len() { os.len() - k } else { 0 }) as nat,
{
    if k < 0 || k >= os.len() || remaining == 0 {
        Seq::empty()
    } else {
        let rest = lines_from(ws, free, rule, mode, remaining, distance, prefix, os, k + 1);
        match after_move(ws, free, mode, os[k]) {
            None => rest,
            Some(next) => match best_distance(next, false, rule, mode, (remaining - 1) as nat) {
                Some(cd) => if cd + 1 == distance {
                    best_lines(next, false, rule, mode, (remaining - 1) as nat, cd, prefix.push(os[k])) + rest
                } else {
                    rest
                },
                None => rest,
            },
        }
    }
}

/// Some line was left out: there are lines, and not all fit.
pub open spec fn cut_short(have: nat, lines: nat, m: nat) -> bool {
    lines > 0 && have + lines > m
}

/// Appends the main lines to `variations` up to `max_variations`; true when
/// some line was left out.
fn collect_variations(
    state: &HiddenState,
    remaining: usize,
    distance: usize,
    max_variations: usize,
    path: &mut Vec<ObservedMove>,
    variations: &mut Vec<Solution>,
) -> (truncated: bool)
    requires
        state.wf(),
    ensures
        final(path)@ == old(path)@,
        solutions_view(final(variations)@) == capped(
            solutions_view(old(variations)@),
            best_lines(state.ws(), state.free_white_move, state.rule, state.hand_variable_mode, remaining as nat, distance as nat, old(path)@),
            max_variations as nat,
        ),
        truncated == cut_short(
            old(variations)@.len(),
            best_lines(state.ws(), state.free_white_move, state.rule, state.hand_variable_mode, remaining as nat, distance as nat, old(path)@).len(),
            max_variations as nat,
        ),
    decreases remaining,
{
    let ghost ws = state.ws();
    let ghost free = state.free_white_move;
    let ghost rule = state.rule;
    let ghost mode = state.hand_variable_mode;
    if distance == 0 {
        if variations.len() < max_variations {
            let ghost before = solutions_view(variations@);
            variations.push(path.clone());
            proof {
                assert(solutions_view(variations@) =~= before + seq![path@]);
            }
            return false;
        }
        return true;
    }
    if remaining == 0 {
        proof {
            assert(solutions_view(variations@) + Seq::<Seq<ObservedMove>>::empty() =~= solutions_view(variations@));
        }
        return false;
    }
    let os = state.observed_moves();
    proof {
        crate::solver::lemma_observed_list(ws, free, mode, os@);
    }
    let ghost start = solutions_view(variations@);
    let ghost p0 = path@;
    let ghost all = lines_from(ws, free, rule, mode, remaining as nat, distance as nat, p0, os@, 0);
    let mut k: usize = 0;
    while k < os.len()
        invariant
            state.wf(),
            ws == state.ws(),
            free == state.free_white_move,
            rule == state.rule,
            mode == state.hand_variable_mode,
            remaining > 0,
            distance > 0,
            os@ == observed_list(ws, free, mode),
            k <= os@.len(),
            path@ == p0,
            p0 == old(path)@,
            start == solutions_view(old(variations)@),
            all == lines_from(ws, free, rule, mode, remaining as nat, distance as nat, p0, os@, 0),
            best_lines(ws, free, rule, mode, remaining as nat, distance as nat, p0) == all,
            capped(solutions_view(variations@), lines_from(ws, free, rule, mode, remaining as nat, distance as nat, p0, os@, k as int), max_variations as nat)
                == capped(start, all, max_variations as nat),
            cut_short(variations@.len(), lines_from(ws, free, rule, mode, remaining as nat, distance as nat, p0, os@, k as int).len(), max_variations as nat)
                == cut_short(start.len(), all.len(), max_variations as nat),
            !cut_short(start.len(), all.len(), max_variations as nat) ==> solutions_view(variations@).len() + lines_from(ws, free, rule, mode, remaining as nat, distance as nat, p0, os@, k as int).len() <= max_variations || lines_from(ws, free, rule, mode, remaining as nat, distance as nat, p0, os@, k as int).len() == 0,
        decreases os@.len() - k,
    {
        let o = os[k];
        let ghost before = solutions_view(variations@);
        let ghost rest = lines_from(ws, free, rule, mode, remaining as nat, distance as nat, p0, os@, k + 1);
        let ghost here = lines_from(ws, free, rule, mode, remaining as nat, distance as nat, p0, os@, k as int);
        match state.apply(o) {
            None => {},
            Some(next) => {
                match best_mate_distance(&next, remaining - 1) {
                    None => {},
                    Some(child_distance) => {
                        if child_distance + 1 == distance {
                            path.push(o);
                            let truncated = collect_variations(&next, remaining - 1, child_distance, max_variations, path, variations);
                            let _ = path.pop();
                            proof {
                                let sub = best_lines(next.ws(), false, rule, mode, (remaining - 1) as nat, child_distance as nat, p0.push(o));
                                assert(here == sub + rest);
                                lemma_capped_twice(before, sub, rest, max_variations as nat);
                                assert(path@ =~= p0);
                            }
                            if truncated {
                                proof {
                                    let sub = best_lines(next.ws(), false, rule, mode, (remaining - 1) as nat, child_distance as nat, p0.push(o));
                                    assert(capped(solutions_view(variations@), rest, max_variations as nat) == solutions_view(variations@));
                                }
                                return true;
                            }
                        }
                    },
                }
            },
        }
        k = k + 1;
    }
    proof {
        assert(solutions_view(variations@) + Seq::<Seq<ObservedMove>>::empty() =~= solutions_view(variations@));
    }
    false
}

/// The best mate within `plies` moves: its length with the attacker
/// shortest and the defender longest (a defender with one move that does
/// not mate escapes), and up to `max_variations` main lines. `None` when no
/// such mate exists.
pub fn solve_best_mate(initial: &HiddenState, plies: usize, max_variations: usize) -> (r: Result<Option<BestMateResult>, BestMateError>)
    requires
        initial.wf(),
    ensures
        initial.rule != MateRule::BestMate ==> r == Err::<Option<BestMateResult>, BestMateError>(BestMateError::NotBestMate),
        initial.rule == MateRule::BestMate ==> match r {
            Err(_) => false,
            Ok(None) => best_distance(initial.ws(), initial.free_white_move, initial.rule, initial.hand_variable_mode, plies as nat) is None,
            Ok(Some(res)) => {
                let lines = best_lines(initial.ws(), initial.free_white_move, initial.rule, initial.hand_variable_mode, plies as nat, res.mate_in as nat, Seq::empty());
                &&& best_distance(initial.ws(), initial.free_white_move, initial.rule, initial.hand_variable_mode, plies as nat) == Some(res.mate_in as nat)
                &&& solutions_view(res.variations@) == capped(Seq::empty(), lines, max_variations as nat)
                &&& res.variations_truncated == cut_short(0, lines.len(), max_variations as nat)
            },
        },
{
    if initial.rule() != MateRule::BestMate {
        return Err(BestMateError::NotBestMate);
    }
    let mate_in = match best_mate_distance(initial, plies) {
        None => {
            return Ok(None);
        },
        Some(d) => d,
    };
    let mut variations: Vec<Solution> = Vec::new();
    let mut path: Vec<ObservedMove> = Vec::new();
    proof {
        assert(solutions_view(variations@) =~= Seq::<Seq<ObservedMove>>::empty());
    }
    let variations_truncated = collect_variations(initial, plies, mate_in, max_variations, &mut path, &mut variations);
    proof {
        assert(path@ =~= Seq::<ObservedMove>::empty());
    }
    Ok(Some(BestMateResult { mate_in, variations, variations_truncated }))
}


/// Solves a state as its rule asks: a best mate through `solve_best_mate`,
/// giving its lines, its length and whether lines were left out (no lines
/// and no length when there is no best mate within `plies`); any other rule
/// through `solve_exact`, with no length and nothing left out.
pub fn solve_by_rule(initial: &HiddenState, plies: usize, max_solutions: usize) -> (r: (Vec<Solution>, Option<usize>, bool))
    requires
        initial.wf(),
        plies < usize::MAX,
    ensures
        initial.rule == MateRule::BestMate ==> match r.1 {
            None => {
                &&& best_distance(initial.ws(), initial.free_white_move, initial.rule, initial.hand_variable_mode, plies as nat) is None
                &&& r.0@.len() == 0
                &&& !r.2
            },
            Some(m) => {
                let lines = best_lines(initial.ws(), initial.free_white_move, initial.rule, initial.hand_variable_mode, plies as nat, m as nat, Seq::empty());
                &&& best_distance(initial.ws(), initial.free_white_move, initial.rule, initial.hand_variable_mode, plies as nat) == Some(m as nat)
                &&& solutions_view(r.0@) == capped(Seq::empty(), lines, max_solutions as nat)
                &&& r.2 == cut_short(0, lines.len(), max_solutions as nat)
            },
        },
        initial.rule != MateRule::BestMate ==> {
            &&& solutions_view(r.0@) == crate::solver::add_unique(
                Seq::empty(),
                crate::solver::mates_upto(initial.ws(), initial.free_white_move, initial.rule, initial.hand_variable_mode, (plies + 1) as nat),
                max_solutions as nat,
            )
            &&& r.1 is None
            &&& !r.2
        },
{
    if initial.rule() == MateRule::BestMate {
        match solve_best_mate(initial, plies, max_solutions) {
            Ok(Some(result)) => (result.variations, Some(result.mate_in), result.variations_truncated),
            _ => (Vec::new(), None, false),
        }
    } else {
        (crate::solver::solve_exact(initial, plies, max_solutions), None, false)
    }
}

} // verus!
