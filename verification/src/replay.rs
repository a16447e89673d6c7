use vstd::prelude::*;

use crate::metrics::EnumerationMetrics;
use crate::observed::{ObservedMove, VariableId};
use crate::piece::{Color, Kind};
use crate::problem::{enumerated, specs_wf, ProblemError, VariableProblem};
use crate::rule::{HandVariableMode, MateRule};
use crate::solver::{add_unique, after_move, mates_upto, observed_list, solutions_view, Solution};
use crate::state::{
    increasing_keys, observable, possible_kind, proven_mate, settle, settle_all, settled, settled_kind, successors, successors_upto, unsettled,
    unsettled_id, world_candidates, world_kind, world_successors, HiddenState,
};
use crate::world::WorldView;

verus! {

/// The worlds after playing the observed moves `history` from `ws`, with
/// the free-move flag; `None` when some move is possible in no world.
pub open spec fn replay_worlds(
    ws: Seq<WorldView>,
    free: bool,
    mode: HandVariableMode,
    history: Seq<ObservedMove>,
) -> Option<(Seq<WorldView>, bool)>
    decreases history.len(),
{
    if history.len() == 0 {
        Some((ws, free))
    } else {
        match after_move(ws, free, mode, history[0]) {
            None => None,
            Some(next) => replay_worlds(next, false, mode, history.drop_first()),
        }
    }
}

/// A state that keeps only the problem and the observed moves, and plays the
/// moves again over the initial worlds whenever it is asked something.
#[derive(Clone, Debug)]
pub struct ReplayHiddenState {
    pub problem: VariableProblem,
    pub history: Vec<ObservedMove>,
    pub hand_variable_mode: HandVariableMode,
    pub world_count: usize,
    pub initial_turn: Color,
    pub resolved: Vec<(VariableId, Kind)>,
}

impl ReplayHiddenState {
    /// Some initial state of the problem becomes the worlds `ws`, with the
    /// flag `free`, after the history.
    pub open spec fn replays_to(&self, ws: Seq<WorldView>, free: bool) -> bool {
        exists|s0: HiddenState|
            #![trigger enumerated(self.problem.base_sfen@, self.problem.variables@, self.problem.rule, self.hand_variable_mode, Ok(s0))]
            enumerated(self.problem.base_sfen@, self.problem.variables@, self.problem.rule, self.hand_variable_mode, Ok(s0))
                && replay_worlds(s0.ws(), s0.free_white_move, self.hand_variable_mode, self.history@) == Some((ws, free))
    }

    /// Some initial state of the problem loses every world on the history.
    pub open spec fn replays_to_nothing(&self) -> bool {
        exists|s0: HiddenState|
            #![trigger enumerated(self.problem.base_sfen@, self.problem.variables@, self.problem.rule, self.hand_variable_mode, Ok(s0))]
            enumerated(self.problem.base_sfen@, self.problem.variables@, self.problem.rule, self.hand_variable_mode, Ok(s0))
                && replay_worlds(s0.ws(), s0.free_white_move, self.hand_variable_mode, self.history@) is None
    }

    /// The problem's enumeration fails with `e`.
    pub open spec fn fails_with(&self, e: ProblemError) -> bool {
        enumerated(self.problem.base_sfen@, self.problem.variables@, self.problem.rule, self.hand_variable_mode, Err(e))
    }

    /// The state after the history, played again from the problem.
    pub fn rebuild(&self) -> (r: Result<Option<HiddenState>, ProblemError>)
        requires
            specs_wf(self.problem.variables@),
        ensures
            match r {
                Err(e) => self.fails_with(e),
                Ok(None) => self.replays_to_nothing(),
                Ok(Some(s)) => {
                    &&& s.wf()
                    &&& s.rule == self.problem.rule
                    &&& s.hand_variable_mode == self.hand_variable_mode
                    &&& self.replays_to(s.ws(), s.free_white_move)
                },
            },
    {
        let s0 = match crate::problem::enumerate_state(
            &self.problem.base_sfen,
            &self.problem.variables,
            self.problem.rule,
            self.hand_variable_mode,
        ) {
            Ok(s) => s,
            Err(e) => {
                return Err(e);
            },
        };
        let ghost g0 = s0;
        let mode = self.hand_variable_mode;
        let mut state = s0;
        let mut i: usize = 0;
        proof {
            assert(self.history@.skip(0) =~= self.history@);
        }
        while i < self.history.len()
            invariant
                i <= self.history@.len(),
                state.wf(),
                state.rule == self.problem.rule,
                state.hand_variable_mode == mode,
                mode == self.hand_variable_mode,
                enumerated(self.problem.base_sfen@, self.problem.variables@, self.problem.rule, mode, Ok(g0)),
                replay_worlds(g0.ws(), g0.free_white_move, mode, self.history@)
                    == replay_worlds(state.ws(), state.free_white_move, mode, self.history@.skip(i as int)),
            decreases self.history@.len() - i,
        {
            let o = self.history[i];
            let ghost rest = self.history@.skip(i as int);
            proof {
                assert(rest[0] == o);
                assert(rest.drop_first() =~= self.history@.skip(i + 1));
            }
            match state.apply(o) {
                None => {
                    return Ok(None);
                },
                Some(next) => {
                    state = next;
                },
            }
            i = i + 1;
        }
        proof {
            assert(self.history@.skip(i as int).len() == 0);
        }
        Ok(Some(state))
    }

    /// Number of worlds after the history.
    pub fn world_count(&self) -> (r: usize)
        ensures
            r == self.world_count,
    {
        self.world_count
    }

    /// The side to move.
    pub fn turn(&self) -> (c: Color)
        ensures
            c == if self.history@.len() % 2 == 0 {
                self.initial_turn
            } else {
                self.initial_turn.spec_opposite()
            },
    {
        if self.history.len() % 2 == 0 {
            self.initial_turn
        } else {
            self.initial_turn.opposite()
        }
    }

    pub fn rule(&self) -> (r: MateRule)
        ensures
            r == self.problem.rule,
    {
        self.problem.rule
    }

    pub fn hand_variable_mode(&self) -> (r: HandVariableMode)
        ensures
            r == self.hand_variable_mode,
    {
        self.hand_variable_mode
    }

    /// The kind of the variable piece `id` once it is certain.
    pub fn resolved_kind(&self, id: VariableId) -> (r: Option<Kind>)
        ensures
            r == crate::state::lookup(self.resolved@, id),
    {
        let mut i: usize = self.resolved.len();
        proof {
            assert(self.resolved@.take(i as int) =~= self.resolved@);
        }
        while i > 0
            invariant
                i <= self.resolved@.len(),
                crate::state::lookup(self.resolved@, id) == crate::state::lookup(self.resolved@.take(i as int), id),
            decreases i,
        {
            let (a, k) = self.resolved[i - 1];
            proof {
                let t = self.resolved@.take(i as int);
                assert(t.last() == (a, k));
                assert(t.drop_last() =~= self.resolved@.take(i - 1));
            }
            if a == id {
                return Some(k);
            }
            i = i - 1;
        }
        None
    }

    /// The kinds the variable piece `id` may have after the history.
    pub fn candidates(&self, id: VariableId) -> (r: Result<Vec<Kind>, ProblemError>)
        requires
            specs_wf(self.problem.variables@),
        ensures
            match r {
                Err(e) => self.fails_with(e),
                Ok(v) => self.replays_to_nothing() && v@.len() == 0 || exists|s: HiddenState|
                    #![trigger self.replays_to(s.ws(), s.free_white_move)]
                    self.replays_to(s.ws(), s.free_white_move) && s.wf() && v@ == crate::state::candidate_kinds(s.ws(), s.resolved@, id),
            },
    {
        match self.rebuild() {
            Err(e) => Err(e),
            Ok(None) => Ok(Vec::new()),
            Ok(Some(s)) => Ok(s.candidates(id)),
        }
    }

    /// The observed moves possible after the history, in key order.
    pub fn observed_moves(&self) -> (r: Result<Vec<ObservedMove>, ProblemError>)
        requires
            specs_wf(self.problem.variables@),
        ensures
            match r {
                Err(e) => self.fails_with(e),
                Ok(v) => self.replays_to_nothing() && v@.len() == 0 || exists|ws: Seq<WorldView>, free: bool|
                    #![trigger self.replays_to(ws, free)]
                    self.replays_to(ws, free) && v@ == observed_list(ws, free, self.hand_variable_mode),
            },
    {
        match self.rebuild() {
            Err(e) => Err(e),
            Ok(None) => Ok(Vec::new()),
            Ok(Some(s)) => {
                let v = s.observed_moves();
                proof {
                    crate::solver::lemma_observed_list(s.ws(), s.free_white_move, s.hand_variable_mode, v@);
                }
                Ok(v)
            },
        }
    }

    /// Whether the target king is mated in every world after the history.
    pub fn is_proven_mate(&self) -> (r: Result<bool, ProblemError>)
        requires
            specs_wf(self.problem.variables@),
        ensures
            match r {
                Err(e) => self.fails_with(e),
                Ok(b) => self.replays_to_nothing() && !b || exists|ws: Seq<WorldView>, free: bool|
                    #![trigger self.replays_to(ws, free)]
                    self.replays_to(ws, free) && ws.len() > 0 && b == proven_mate(ws, self.problem.rule),
            },
    {
        match self.rebuild() {
            Err(e) => Err(e),
            Ok(None) => Ok(false),
            Ok(Some(s)) => Ok(s.is_proven_mate()),
        }
    }

    /// The state after one more observed move; `None` when no world allows it.
    pub fn apply(&self, observed: ObservedMove) -> (r: Result<Option<ReplayHiddenState>, ProblemError>)
        requires
            specs_wf(self.problem.variables@),
        ensures
            match r {
                Err(e) => self.fails_with(e),
                Ok(None) => self.replays_to_nothing() || exists|ws: Seq<WorldView>, free: bool|
                    #![trigger self.replays_to(ws, free)]
                    self.replays_to(ws, free) && after_move(ws, free, self.hand_variable_mode, observed) is None,
                Ok(Some(n)) => {
                    &&& exists|ws: Seq<WorldView>, free: bool|
                        #![trigger self.replays_to(ws, free)]
                        self.replays_to(ws, free) && (after_move(ws, free, self.hand_variable_mode, observed) matches Some(
                            next,
                        ) && n.world_count == next.len())
                    &&& n.history@ == self.history@.push(observed)
                    &&& n.hand_variable_mode == self.hand_variable_mode
                    &&& n.initial_turn == self.initial_turn
                    &&& n.problem.rule == self.problem.rule
                    &&& n.problem.base_sfen@ == self.problem.base_sfen@
                    &&& crate::problem::same_specs(n.problem.variables@, self.problem.variables@)
                },
            },
    {
        match self.rebuild() {
            Err(e) => Err(e),
            Ok(None) => Ok(None),
            Ok(Some(s)) => match s.apply(observed) {
                None => {
                    proof {
                        assert(self.replays_to(s.ws(), s.free_white_move));
                    }
                    Ok(None)
                },
                Some(next) => {
                    proof {
                        assert(self.replays_to(s.ws(), s.free_white_move));
                        assert(next.ws().len() == next.worlds@.len());
                    }
                    let mut history = self.history.clone();
                    proof {
                        assert(history@ =~= self.history@);
                    }
                    history.push(observed);
                    Ok(Some(ReplayHiddenState {
                        problem: self.problem.copy(),
                        history,
                        hand_variable_mode: self.hand_variable_mode,
                        world_count: next.world_count(),
                        initial_turn: self.initial_turn,
                        resolved: next.resolved,
                    }))
                },
            },
        }
    }
}

} // verus!

verus! {

/// `n` is the replay state of `problem` with no move observed yet: it keeps
/// the problem and the mode, and the number of worlds, the side to move and
/// the resolved kinds of an enumeration of the problem.
pub open spec fn starts_replay(n: ReplayHiddenState, problem: VariableProblem, mode: HandVariableMode) -> bool {
    &&& n.problem == problem
    &&& n.history@.len() == 0
    &&& n.hand_variable_mode == mode
    &&& exists|s0: HiddenState|
        #![trigger enumerated(problem.base_sfen@, problem.variables@, problem.rule, mode, Ok(s0))]
        enumerated(problem.base_sfen@, problem.variables@, problem.rule, mode, Ok(s0)) && n.world_count
            == s0.worlds@.len() && n.initial_turn == s0.ws()[0].pos.turn && n.resolved@ == s0.resolved@
}

impl ReplayHiddenState {
    /// The replay state of a problem, with no move observed yet.
    pub fn new(problem: VariableProblem, hand_variable_mode: HandVariableMode) -> (r: Result<ReplayHiddenState, ProblemError>)
        requires
            specs_wf(problem.variables@),
        ensures
            match r {
                Err(e) => enumerated(problem.base_sfen@, problem.variables@, problem.rule, hand_variable_mode, Err(e)),
                Ok(n) => starts_replay(n, problem, hand_variable_mode),
            },
    {
        let s = match crate::problem::enumerate_state(&problem.base_sfen, &problem.variables, problem.rule, hand_variable_mode) {
            Ok(s) => s,
            Err(e) => {
                return Err(e);
            },
        };
        let world_count = s.world_count();
        let initial_turn = s.turn();
        Ok(ReplayHiddenState {
            problem,
            history: Vec::new(),
            hand_variable_mode,
            world_count,
            initial_turn,
            resolved: s.resolved,
        })
    }
}

impl VariableProblem {
    /// A state that keeps the problem and the observed moves only.
    pub fn enumerate_replay_with_hand_variable_mode(self, hand_variable_mode: HandVariableMode) -> (r: Result<ReplayHiddenState, ProblemError>)
        requires
            specs_wf(self.variables@),
        ensures
            match r {
                Err(e) => enumerated(self.base_sfen@, self.variables@, self.rule, hand_variable_mode, Err(e)),
                Ok(n) => starts_replay(n, self, hand_variable_mode),
            },
    {
        ReplayHiddenState::new(self, hand_variable_mode)
    }

    /// A replay state, variable pieces in one hand told apart only by later
    /// moves.
    pub fn enumerate_replay(self) -> (r: Result<ReplayHiddenState, ProblemError>)
        requires
            specs_wf(self.variables@),
        ensures
            match r {
                Err(e) => enumerated(self.base_sfen@, self.variables@, self.rule, HandVariableMode::Indistinguishable, Err(e)),
                Ok(n) => starts_replay(n, self, HandVariableMode::Indistinguishable),
            },
    {
        self.enumerate_replay_with_hand_variable_mode(HandVariableMode::default())
    }

    /// A replay state with the number of initial worlds.
    pub fn enumerate_replay_profiled_with_hand_variable_mode(
        self,
        hand_variable_mode: HandVariableMode,
    ) -> (r: Result<(ReplayHiddenState, EnumerationMetrics), ProblemError>)
        requires
            specs_wf(self.variables@),
        ensures
            match r {
                Err(e) => enumerated(self.base_sfen@, self.variables@, self.rule, hand_variable_mode, Err(e)),
                Ok((n, m)) => starts_replay(n, self, hand_variable_mode) && m.world_count == n.world_count,
            },
    {
        match ReplayHiddenState::new(self, hand_variable_mode) {
            Err(e) => Err(e),
            Ok(n) => {
                let m = EnumerationMetrics { world_count: n.world_count() };
                Ok((n, m))
            },
        }
    }

    /// A replay state with the number of initial worlds, variable pieces in
    /// one hand told apart only by later moves.
    pub fn enumerate_replay_profiled(self) -> (r: Result<(ReplayHiddenState, EnumerationMetrics), ProblemError>)
        requires
            specs_wf(self.variables@),
        ensures
            match r {
                Err(e) => enumerated(self.base_sfen@, self.variables@, self.rule, HandVariableMode::Indistinguishable, Err(e)),
                Ok((n, m)) => starts_replay(n, self, HandVariableMode::Indistinguishable) && m.world_count == n.world_count,
            },
    {
        self.enumerate_replay_profiled_with_hand_variable_mode(HandVariableMode::default())
    }
}

/// The solutions of a replay state: those of the state it plays again.
pub fn solve_replay_exact(state: &ReplayHiddenState, plies: usize, max_solutions: usize) -> (r: Result<Vec<Solution>, ProblemError>)
    requires
        specs_wf(state.problem.variables@),
        plies < usize::MAX,
    ensures
        match r {
            Err(e) => state.fails_with(e),
            Ok(v) => state.replays_to_nothing() && v@.len() == 0 || exists|s: HiddenState|
                #![trigger state.replays_to(s.ws(), s.free_white_move)]
                state.replays_to(s.ws(), s.free_white_move) && s.wf() && solutions_view(v@) == add_unique(
                    Seq::empty(),
                    mates_upto(s.ws(), s.free_white_move, s.rule, s.hand_variable_mode, (plies + 1) as nat),
                    max_solutions as nat,
                ),
        },
{
    match state.rebuild() {
        Err(e) => Err(e),
        Ok(None) => Ok(Vec::new()),
        Ok(Some(s)) => Ok(crate::solver::solve_exact(&s, plies, max_solutions)),
    }
}

} // verus!

verus! {

/// The lists `a` and `b` hold the same worlds, in any order and number.
pub open spec fn same_worlds(a: Seq<WorldView>, b: Seq<WorldView>) -> bool {
    forall|w: WorldView| #![trigger a.contains(w)] #![trigger b.contains(w)] a.contains(w) <==> b.contains(w)
}

/// Lists holding the same worlds allow the same kinds to each variable
/// piece.
proof fn lemma_possible_same(ws1: Seq<WorldView>, ws2: Seq<WorldView>)
    requires
        same_worlds(ws1, ws2),
    ensures
        forall|id: VariableId, k: Kind|
            #![trigger possible_kind(ws1, id, k)]
            #![trigger possible_kind(ws2, id, k)]
            possible_kind(ws1, id, k) <==> possible_kind(ws2, id, k),
{
    assert forall|id: VariableId, k: Kind| #[trigger] possible_kind(ws1, id, k) implies possible_kind(ws2, id, k) by {
        let i = choose|i: int| 0 <= i < ws1.len() && world_kind(#[trigger] ws1[i], id, k);
        assert(ws1.contains(ws1[i]));
        let j = choose|j: int| 0 <= j < ws2.len() && ws2[j] == ws1[i];
        assert(world_kind(ws2[j], id, k));
    }
    assert forall|id: VariableId, k: Kind| #[trigger] possible_kind(ws2, id, k) implies possible_kind(ws1, id, k) by {
        let i = choose|i: int| 0 <= i < ws2.len() && world_kind(#[trigger] ws2[i], id, k);
        assert(ws2.contains(ws2[i]));
        let j = choose|j: int| 0 <= j < ws1.len() && ws1[j] == ws2[i];
        assert(world_kind(ws1[j], id, k));
    }
}

/// Lists holding the same worlds settle each world alike.
proof fn lemma_settle_same(ws1: Seq<WorldView>, ws2: Seq<WorldView>)
    requires
        same_worlds(ws1, ws2),
    ensures
        forall|w: WorldView| #[trigger] settle(w, ws1) == settle(w, ws2),
{
    lemma_possible_same(ws1, ws2);
    assert forall|id: VariableId| settled(ws1, id) <==> settled(ws2, id) by {
        if settled(ws1, id) {
            let k = choose|k: Kind| settled_kind(ws1, id, k);
            assert(settled_kind(ws2, id, k));
        }
        if settled(ws2, id) {
            let k = choose|k: Kind| settled_kind(ws2, id, k);
            assert(settled_kind(ws1, id, k));
        }
    }
    assert(unsettled(ws1) =~= unsettled(ws2));
    assert(unsettled_id(ws1) =~= unsettled_id(ws2));
}

/// The successors of the first `n` worlds depend on those worlds only.
proof fn lemma_successors_upto_prefix(
    ws1: Seq<WorldView>,
    ws2: Seq<WorldView>,
    free: bool,
    mode: HandVariableMode,
    o: ObservedMove,
    n: int,
)
    requires
        0 <= n <= ws1.len(),
        n <= ws2.len(),
        forall|i: int| 0 <= i < n ==> ws1[i] == ws2[i],
    ensures
        successors_upto(ws1, free, mode, o, n) == successors_upto(ws2, free, mode, o, n),
    decreases n,
{
    if n > 0 {
        lemma_successors_upto_prefix(ws1, ws2, free, mode, o, n - 1);
    }
}

/// The successors of two lists one after the other are those of the first
/// list followed by those of the second.
proof fn lemma_successors_concat(a: Seq<WorldView>, b: Seq<WorldView>, free: bool, mode: HandVariableMode, o: ObservedMove)
    ensures
        successors(a + b, free, mode, o) == successors(a, free, mode, o) + successors(b, free, mode, o),
    decreases b.len(),
{
    if b.len() == 0 {
        assert(a + b =~= a);
        assert(successors(a, free, mode, o) + successors(b, free, mode, o) =~= successors(a, free, mode, o));
    } else {
        let c = b.drop_last();
        lemma_successors_concat(a, c, free, mode, o);
        lemma_successors_upto_prefix(a + b, a + c, free, mode, o, (a + c).len() as int);
        lemma_successors_upto_prefix(b, c, free, mode, o, c.len() as int);
        assert((a + b)[(a + b).len() - 1] == b[b.len() - 1]);
        assert(successors(a + b, free, mode, o) == successors(a + c, free, mode, o) + world_successors(b.last(), free, mode, o));
        assert(successors(b, free, mode, o) == successors(c, free, mode, o) + world_successors(b.last(), free, mode, o));
        assert(successors(a, free, mode, o) + successors(c, free, mode, o) + world_successors(b.last(), free, mode, o)
            =~= successors(a, free, mode, o) + (successors(c, free, mode, o) + world_successors(b.last(), free, mode, o)));
    }
}

/// Reordering the worlds reorders their successors.
proof fn lemma_successors_perm(ws1: Seq<WorldView>, ws2: Seq<WorldView>, free: bool, mode: HandVariableMode, o: ObservedMove)
    requires
        ws1.to_multiset() == ws2.to_multiset(),
    ensures
        successors(ws1, free, mode, o).to_multiset() == successors(ws2, free, mode, o).to_multiset(),
    decreases ws1.len(),
{
    broadcast use vstd::seq_lib::group_to_multiset_ensures, vstd::seq_lib::lemma_multiset_commutative;

    assert(ws1.len() == ws1.to_multiset().len() && ws2.len() == ws2.to_multiset().len());
    if ws1.len() == 0 {
        assert(successors(ws1, free, mode, o) =~= Seq::<WorldView>::empty());
        assert(successors(ws2, free, mode, o) =~= Seq::<WorldView>::empty());
    } else {
        let x = ws1.last();
        let r1 = ws1.drop_last();
        assert(r1.push(x) =~= ws1);
        assert(ws1.to_multiset().count(x) > 0);
        assert(ws2.contains(x));
        let j = choose|j: int| 0 <= j < ws2.len() && ws2[j] == x;
        let r2 = ws2.remove(j);
        assert(r2.to_multiset() =~= ws2.to_multiset().remove(x));
        assert(r1.to_multiset() =~= ws1.to_multiset().remove(x));
        lemma_successors_perm(r1, r2, free, mode, o);
        lemma_successors_upto_prefix(ws1, r1, free, mode, o, r1.len() as int);
        assert(successors(ws1, free, mode, o) == successors(r1, free, mode, o) + world_successors(x, free, mode, o));
        let front = ws2.take(j);
        let back = ws2.skip(j + 1);
        assert(ws2 =~= front + seq![x] + back);
        assert(r2 =~= front + back);
        lemma_successors_concat(front + seq![x], back, free, mode, o);
        lemma_successors_concat(front, seq![x], free, mode, o);
        lemma_successors_concat(front, back, free, mode, o);
        assert(successors(seq![x], free, mode, o) =~= world_successors(x, free, mode, o)) by {
            assert(successors_upto(seq![x], free, mode, o, 0) =~= Seq::<WorldView>::empty());
        }
        let sf = successors(front, free, mode, o);
        let sx = world_successors(x, free, mode, o);
        let sb = successors(back, free, mode, o);
        assert((sf + sx + sb).to_multiset() =~= sf.to_multiset().add(sx.to_multiset()).add(sb.to_multiset()));
        assert((sf + sb).to_multiset() =~= sf.to_multiset().add(sb.to_multiset()));
        assert((successors(r1, free, mode, o) + sx).to_multiset() =~= successors(r1, free, mode, o).to_multiset().add(sx.to_multiset()));
        assert(successors(ws1, free, mode, o).to_multiset() =~= successors(ws2, free, mode, o).to_multiset());
    }
}

/// Reordering a list reorders its image under `f`.
proof fn lemma_map_perm(s1: Seq<WorldView>, s2: Seq<WorldView>, f: spec_fn(WorldView) -> WorldView)
    requires
        s1.to_multiset() == s2.to_multiset(),
    ensures
        Seq::new(s1.len(), |i: int| f(s1[i])).to_multiset() == Seq::new(s2.len(), |i: int| f(s2[i])).to_multiset(),
    decreases s1.len(),
{
    broadcast use vstd::seq_lib::group_to_multiset_ensures;

    assert(s1.len() == s1.to_multiset().len() && s2.len() == s2.to_multiset().len());
    let m1 = Seq::new(s1.len(), |i: int| f(s1[i]));
    let m2 = Seq::new(s2.len(), |i: int| f(s2[i]));
    if s1.len() == 0 {
        assert(m1 =~= m2);
    } else {
        let x = s1.last();
        let r1 = s1.drop_last();
        assert(r1.push(x) =~= s1);
        assert(s1.to_multiset().count(x) > 0);
        assert(s2.contains(x));
        let j = choose|j: int| 0 <= j < s2.len() && s2[j] == x;
        let r2 = s2.remove(j);
        assert(r2.to_multiset() =~= s2.to_multiset().remove(x));
        assert(r1.to_multiset() =~= s1.to_multiset().remove(x));
        lemma_map_perm(r1, r2, f);
        let n1 = Seq::new(r1.len(), |i: int| f(r1[i]));
        let n2 = Seq::new(r2.len(), |i: int| f(r2[i]));
        assert(m1 =~= n1.push(f(x)));
        assert(n2 =~= m2.remove(j));
        assert(m2[j] == f(x));
        assert(m2.to_multiset().count(f(x)) > 0) by {
            assert(m2.contains(f(x)));
        }
        assert(n2.to_multiset() =~= m2.to_multiset().remove(f(x)));
        assert(m1.to_multiset() =~= n1.to_multiset().insert(f(x)));
        assert(m2.to_multiset() =~= m2.to_multiset().remove(f(x)).insert(f(x)));
    }
}

/// Two lists with no world twice that hold the same worlds are reorderings
/// of each other.
proof fn lemma_distinct_perm(a: Seq<WorldView>, b: Seq<WorldView>)
    requires
        a.no_duplicates(),
        b.no_duplicates(),
        same_worlds(a, b),
    ensures
        a.to_multiset() == b.to_multiset(),
{
    broadcast use vstd::seq_lib::group_to_multiset_ensures;

    a.lemma_multiset_has_no_duplicates();
    b.lemma_multiset_has_no_duplicates();
    assert forall|w: WorldView| a.to_multiset().count(w) == b.to_multiset().count(w) by {
        if a.contains(w) {
            assert(a.to_multiset().contains(w));
            assert(b.to_multiset().contains(w));
        } else {
            assert(!b.contains(w));
        }
    }
    assert(a.to_multiset() =~= b.to_multiset());
}

/// Reorderings hold the same worlds.
proof fn lemma_perm_same(a: Seq<WorldView>, b: Seq<WorldView>)
    requires
        a.to_multiset() == b.to_multiset(),
    ensures
        same_worlds(a, b),
        a.len() == b.len(),
{
    broadcast use vstd::seq_lib::group_to_multiset_ensures;

    assert(a.len() == a.to_multiset().len() && b.len() == b.to_multiset().len());
    assert forall|w: WorldView| a.contains(w) <==> b.contains(w) by {
        assert(a.contains(w) <==> a.to_multiset().count(w) > 0);
        assert(b.contains(w) <==> b.to_multiset().count(w) > 0);
    }
}

/// Settling a reordering of a list gives a reordering of the settled list.
proof fn lemma_settle_perm(ws1: Seq<WorldView>, ws2: Seq<WorldView>)
    requires
        ws1.to_multiset() == ws2.to_multiset(),
    ensures
        settle_all(ws1).to_multiset() == settle_all(ws2).to_multiset(),
{
    lemma_perm_same(ws1, ws2);
    lemma_settle_same(ws1, ws2);
    let f1 = |w: WorldView| settle(w, ws1);
    let f2 = |w: WorldView| settle(w, ws2);
    assert forall|w: WorldView| #[trigger] f1(w) == f2(w) by {
        assert(settle(w, ws1) == settle(w, ws2));
    }
    assert(f1 =~= f2);
    lemma_map_perm(ws1, ws2, f1);
    assert(settle_all(ws1) =~= Seq::new(ws1.len(), |i: int| f1(ws1[i])));
    assert(settle_all(ws2) =~= Seq::new(ws2.len(), |i: int| f2(ws2[i])));
}

/// Playing the same observed moves over two orders of the same worlds: both
/// lose every world at the same move, or end with two orders of the same
/// worlds and the same free-move flag.
pub proof fn lemma_replay_same_worlds(
    ws1: Seq<WorldView>,
    ws2: Seq<WorldView>,
    free: bool,
    mode: HandVariableMode,
    history: Seq<ObservedMove>,
)
    requires
        ws1.to_multiset() == ws2.to_multiset(),
    ensures
        match replay_worlds(ws1, free, mode, history) {
            None => replay_worlds(ws2, free, mode, history) is None,
            Some((a, f)) => replay_worlds(ws2, free, mode, history) matches Some((b, g)) && f == g && a.to_multiset()
                == b.to_multiset(),
        },
    decreases history.len(),
{
    if history.len() > 0 {
        let o = history[0];
        lemma_successors_perm(ws1, ws2, free, mode, o);
        lemma_perm_same(successors(ws1, free, mode, o), successors(ws2, free, mode, o));
        if successors(ws1, free, mode, o).len() > 0 {
            lemma_settle_perm(successors(ws1, free, mode, o), successors(ws2, free, mode, o));
            lemma_replay_same_worlds(
                settle_all(successors(ws1, free, mode, o)),
                settle_all(successors(ws2, free, mode, o)),
                false,
                mode,
                history.drop_first(),
            );
        }
    }
}

/// Lists holding the same worlds allow the same observed moves.
proof fn lemma_observable_same(ws1: Seq<WorldView>, ws2: Seq<WorldView>, free: bool, mode: HandVariableMode)
    requires
        same_worlds(ws1, ws2),
    ensures
        forall|o: ObservedMove|
            #![trigger observable(ws1, free, mode, o)]
            #![trigger observable(ws2, free, mode, o)]
            observable(ws1, free, mode, o) <==> observable(ws2, free, mode, o),
{
    assert forall|o: ObservedMove| #[trigger] observable(ws1, free, mode, o) implies observable(ws2, free, mode, o) by {
        let (i, j) = choose|i: int, j: int|
            0 <= i < ws1.len() && 0 <= j < world_candidates(ws1[i], free, mode).len()
                && (#[trigger] world_candidates(ws1[i], free, mode)[j]).0 == o;
        assert(ws1.contains(ws1[i]));
        let k = choose|k: int| 0 <= k < ws2.len() && ws2[k] == ws1[i];
        assert(world_candidates(ws2[k], free, mode)[j].0 == o);
    }
    assert forall|o: ObservedMove| #[trigger] observable(ws2, free, mode, o) implies observable(ws1, free, mode, o) by {
        let (i, j) = choose|i: int, j: int|
            0 <= i < ws2.len() && 0 <= j < world_candidates(ws2[i], free, mode).len()
                && (#[trigger] world_candidates(ws2[i], free, mode)[j]).0 == o;
        assert(ws2.contains(ws2[i]));
        let k = choose|k: int| 0 <= k < ws1.len() && ws1[k] == ws2[i];
        assert(world_candidates(ws1[k], free, mode)[j].0 == o);
    }
}


/// Replaying keeps one side to move in all the worlds.
proof fn lemma_replay_turns(ws: Seq<WorldView>, free: bool, mode: HandVariableMode, history: Seq<ObservedMove>, t: Color)
    requires
        crate::state::all_to_move(ws, t),
    ensures
        replay_worlds(ws, free, mode, history) is Some ==> crate::state::all_to_move(
            replay_worlds(ws, free, mode, history)->Some_0.0,
            if history.len() % 2 == 0 {
                t
            } else {
                t.spec_opposite()
            },
        ),
    decreases history.len(),
{
    if history.len() == 0 {
        assert(replay_worlds(ws, free, mode, history) == Some((ws, free)));
        assert(crate::state::all_to_move(ws, t));
    } else {
        let o = history[0];
        crate::state::lemma_after_move_turn(ws, free, mode, o, t);
        if successors(ws, free, mode, o).len() > 0 {
            let next = settle_all(successors(ws, free, mode, o));
            assert(after_move(ws, free, mode, o) == Some(next));
            assert(replay_worlds(ws, free, mode, history) == replay_worlds(next, false, mode, history.drop_first()));
            lemma_replay_turns(next, false, mode, history.drop_first(), t.spec_opposite());
        }
    }
}

/// Two enumerations of one problem order the same worlds and agree on whether
/// White moves freely first.
proof fn lemma_enumerations_same(
    sfen: Seq<char>,
    specs: Seq<crate::problem::VariableSpec>,
    rule: MateRule,
    mode: HandVariableMode,
    s0: HiddenState,
    s1: HiddenState,
)
    requires
        enumerated(sfen, specs, rule, mode, Ok(s0)),
        enumerated(sfen, specs, rule, mode, Ok(s1)),
    ensures
        s0.ws().to_multiset() == s1.ws().to_multiset(),
        s0.free_white_move == s1.free_white_move,
{
    let base = crate::sfen::sfen_position(vstd::utf8::encode_utf8(sfen))->Ok_0;
    let w0 = choose|ws: Seq<WorldView>|
        #![trigger crate::problem::exactly_initial(base, specs, rule, ws)]
        {
            &&& ws.len() > 0
            &&& crate::problem::exactly_initial(base, specs, rule, ws)
            &&& s0.ws() == settle_all(ws)
            &&& forall|id: VariableId| #[trigger] crate::state::lookup(s0.resolved@, id) == crate::state::resolved_after(ws, Seq::empty(), id)
            &&& s0.free_white_move == (ws[0].pos.turn == Color::White)
        };
    let w1 = choose|ws: Seq<WorldView>|
        #![trigger crate::problem::exactly_initial(base, specs, rule, ws)]
        {
            &&& ws.len() > 0
            &&& crate::problem::exactly_initial(base, specs, rule, ws)
            &&& s1.ws() == settle_all(ws)
            &&& forall|id: VariableId| #[trigger] crate::state::lookup(s1.resolved@, id) == crate::state::resolved_after(ws, Seq::empty(), id)
            &&& s1.free_white_move == (ws[0].pos.turn == Color::White)
        };
    crate::problem::lemma_initial_count(base, specs, rule, w0);
    crate::problem::lemma_initial_count(base, specs, rule, w1);
    assert(same_worlds(w0, w1)) by {
        assert forall|w: WorldView| w0.contains(w) <==> w1.contains(w) by {
            assert(w0.to_set().contains(w) == w0.contains(w));
            assert(w1.to_set().contains(w) == w1.contains(w));
        }
    }
    assert(w0.no_duplicates() && w1.no_duplicates()) by {
        reveal(crate::problem::exactly_initial);
    }
    lemma_distinct_perm(w0, w1);
    lemma_settle_perm(w0, w1);
    assert(s0.ws()[0] == settle(w0[0], w0));
    assert(s1.ws()[0] == settle(w1[0], w1));
}

/// The worlds `ws2` with the flag `free2` answer as `ws` with `free`: the
/// same worlds in some order, as many of them, the same flag, the same
/// observed moves and list of them, and the same kinds for each variable
/// piece.
pub open spec fn agree_after(ws2: Seq<WorldView>, free2: bool, ws: Seq<WorldView>, free: bool, mode: HandVariableMode) -> bool {
    &&& ws2.to_multiset() == ws.to_multiset()
    &&& ws2.len() == ws.len()
    &&& same_worlds(ws2, ws)
    &&& free2 == free
    &&& forall|o: ObservedMove|
        #![trigger observable(ws2, free2, mode, o)]
        #![trigger observable(ws, free, mode, o)]
        observable(ws2, free2, mode, o) <==> observable(ws, free, mode, o)
    &&& forall|id: VariableId, k: Kind|
        #![trigger possible_kind(ws2, id, k)]
        #![trigger possible_kind(ws, id, k)]
        possible_kind(ws2, id, k) <==> possible_kind(ws, id, k)
    &&& forall|u: Seq<ObservedMove>|
        #![trigger increasing_keys(u)]
        increasing_keys(u) && (forall|o: ObservedMove| #[trigger] u.contains(o) <==> observable(ws, free, mode, o))
            ==> observed_list(ws2, free2, mode) == u
}

/// However the enumeration ordered the initial worlds, playing a history
/// again reaches the same worlds: a replay state and the state reached by
/// applying its history to an enumerated state of its problem agree on the
/// worlds and their number, on whether White moves freely, on the observed
/// moves and their list, on the kinds each variable piece may have, and on
/// whether the mate is proven.
pub proof fn lemma_replay_agrees(r: ReplayHiddenState, s0: HiddenState, ws: Seq<WorldView>, free: bool)
    requires
        enumerated(r.problem.base_sfen@, r.problem.variables@, r.problem.rule, r.hand_variable_mode, Ok(s0)),
        replay_worlds(s0.ws(), s0.free_white_move, r.hand_variable_mode, r.history@) == Some((ws, free)),
    ensures
        !r.replays_to_nothing(),
        forall|ws2: Seq<WorldView>, free2: bool| #[trigger] r.replays_to(ws2, free2) ==> agree_after(ws2, free2, ws, free, r.hand_variable_mode),
        forall|ws2: Seq<WorldView>, free2: bool| #[trigger] r.replays_to(ws2, free2) ==> proven_mate(ws2, r.problem.rule) == proven_mate(ws, r.problem.rule),
{
    let sfen = r.problem.base_sfen@;
    let specs = r.problem.variables@;
    let rule = r.problem.rule;
    let mode = r.hand_variable_mode;
    assert forall|s1: HiddenState| #[trigger] enumerated(sfen, specs, rule, mode, Ok(s1)) implies replay_worlds(
        s1.ws(),
        s1.free_white_move,
        mode,
        r.history@,
    ) is Some by {
        lemma_enumerations_same(sfen, specs, rule, mode, s0, s1);
        lemma_replay_same_worlds(s0.ws(), s1.ws(), s0.free_white_move, mode, r.history@);
    }
    assert forall|ws2: Seq<WorldView>, free2: bool| #[trigger] r.replays_to(ws2, free2) implies agree_after(ws2, free2, ws, free, mode) by {
        let s1 = choose|s1: HiddenState|
            #![trigger enumerated(sfen, specs, rule, mode, Ok(s1))]
            enumerated(sfen, specs, rule, mode, Ok(s1)) && replay_worlds(s1.ws(), s1.free_white_move, mode, r.history@) == Some(
                (ws2, free2),
            );
        lemma_enumerations_same(sfen, specs, rule, mode, s0, s1);
        lemma_replay_same_worlds(s0.ws(), s1.ws(), s0.free_white_move, mode, r.history@);
        lemma_perm_same(ws2, ws);
        lemma_observable_same(ws2, ws, free, mode);
        lemma_possible_same(ws2, ws);
        assert forall|u: Seq<ObservedMove>|
            #[trigger] increasing_keys(u) && (forall|o: ObservedMove| #[trigger] u.contains(o) <==> observable(ws, free, mode, o))
                implies observed_list(ws2, free2, mode) == u by {
            assert(forall|o: ObservedMove| #[trigger] u.contains(o) <==> observable(ws2, free2, mode, o));
            crate::solver::lemma_observed_list(ws2, free2, mode, u);
        }
    }
    lemma_replay_turns(s0.ws(), s0.free_white_move, mode, r.history@, s0.ws()[0].pos.turn);
    let t0 = s0.ws()[0].pos.turn;
    let t = if r.history@.len() % 2 == 0 {
        t0
    } else {
        t0.spec_opposite()
    };
    assert(crate::state::all_to_move(ws, t));
    assert forall|ws2: Seq<WorldView>, free2: bool| #[trigger] r.replays_to(ws2, free2) implies proven_mate(ws2, rule) == proven_mate(ws, rule) by {
        assert(agree_after(ws2, free2, ws, free, mode));
        if ws.len() == 0 {
            assert(ws2 =~= ws);
        } else {
            assert(ws.contains(ws[0]));
            assert(ws2.contains(ws2[0]));
            let j = choose|j: int| 0 <= j < ws.len() && ws[j] == ws2[0];
            assert(ws2[0].pos.turn == t && ws[0].pos.turn == t);
            assert((forall|i: int| 0 <= i < ws2.len() ==> crate::state::mated(#[trigger] ws2[i], rule)) <==> (forall|i: int|
                0 <= i < ws.len() ==> crate::state::mated(#[trigger] ws[i], rule))) by {
                if forall|i: int| 0 <= i < ws2.len() ==> crate::state::mated(#[trigger] ws2[i], rule) {
                    assert forall|i: int| 0 <= i < ws.len() implies crate::state::mated(#[trigger] ws[i], rule) by {
                        assert(ws.contains(ws[i]));
                        let k = choose|k: int| 0 <= k < ws2.len() && ws2[k] == ws[i];
                    }
                }
                if forall|i: int| 0 <= i < ws.len() ==> crate::state::mated(#[trigger] ws[i], rule) {
                    assert forall|i: int| 0 <= i < ws2.len() implies crate::state::mated(#[trigger] ws2[i], rule) by {
                        assert(ws2.contains(ws2[i]));
                        let k = choose|k: int| 0 <= k < ws.len() && ws[k] == ws2[i];
                    }
                }
            }
        }
    }
}

} // verus!
