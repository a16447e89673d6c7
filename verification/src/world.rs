use vstd::prelude::*;

use crate::moves::{apply, moved, playable};
use crate::observed::{DropIdentity, MoveIdentity, ObservedMove, VariableId};
use crate::piece::{Color, Kind};
use crate::position::{Movement, Position, PositionView};
use crate::rule::HandVariableMode;
use crate::square::Square;

verus! {

/// Where a variable piece is.
#[derive(Clone, Copy, Debug, PartialEq, Eq, Structural)]
pub enum VariableLocation {
    Board(Square),
    Hand(Color),
}

/// A variable piece with its identity decided in one world.
#[derive(Clone, Copy, Debug, PartialEq, Eq, Structural)]
pub struct VariablePiece {
    pub id: VariableId,
    pub color: Color,
    pub kind: Kind,
    pub location: VariableLocation,
}

/// One ordinary position in which every variable piece has a kind: the
/// position, the variable pieces by increasing id, and the ids of those
/// dropped without showing which piece they were.
#[derive(Debug)]
pub struct ConcreteWorld {
    pub position: Position,
    pub variables: Vec<VariablePiece>,
    pub anonymous: Vec<VariableId>,
}

/// The mathematical content of a world.
pub struct WorldView {
    pub pos: PositionView,
    pub vars: Seq<VariablePiece>,
    pub anon: Seq<VariableId>,
}

impl View for ConcreteWorld {
    type V = WorldView;

    open spec fn view(&self) -> WorldView {
        WorldView { pos: self.position@, vars: self.variables@, anon: self.anonymous@ }
    }
}

/// Ids strictly increase along the sequence.
pub open spec fn sorted_ids(vars: Seq<VariablePiece>) -> bool {
    forall|i: int, j: int| 0 <= i < j < vars.len() ==> (#[trigger] vars[i]).id.0 < (#[trigger] vars[j]).id.0
}

pub open spec fn location_wf(l: VariableLocation) -> bool {
    match l {
        VariableLocation::Board(sq) => sq.wf(),
        VariableLocation::Hand(_) => true,
    }
}

impl WorldView {
    pub open spec fn wf(self) -> bool {
        &&& self.pos.wf()
        &&& sorted_ids(self.vars)
        &&& forall|i: int| 0 <= i < self.vars.len() ==> location_wf(#[trigger] self.vars[i].location)
    }

    /// The variable piece with a given id.
    pub open spec fn variable(self, id: VariableId) -> Option<VariablePiece> {
        if exists|i: int| 0 <= i < self.vars.len() && #[trigger] self.vars[i].id == id {
            Some(self.vars[choose|i: int| 0 <= i < self.vars.len() && #[trigger] self.vars[i].id == id])
        } else {
            None
        }
    }

    /// Index of the first variable piece standing on `sq`.
    pub open spec fn on_board(self, sq: Square) -> Option<int> {
        first_on_board(self.vars, sq, 0)
    }
}

/// Index of the first variable piece from the `i`-th on that stands on `sq`.
pub open spec fn first_on_board(vars: Seq<VariablePiece>, sq: Square, i: int) -> Option<int>
    decreases vars.len() - i,
{
    if 0 <= i < vars.len() {
        if vars[i].location == VariableLocation::Board(sq) {
            Some(i)
        } else {
            first_on_board(vars, sq, i + 1)
        }
    } else {
        None
    }
}

proof fn lemma_first_on_board(vars: Seq<VariablePiece>, sq: Square, i: int)
    requires
        0 <= i <= vars.len(),
    ensures
        first_on_board(vars, sq, i) matches Some(j) ==> i <= j < vars.len() && vars[j].location
            == VariableLocation::Board(sq),
        first_on_board(vars, sq, i) is None ==> forall|j: int|
            i <= j < vars.len() ==> #[trigger] vars[j].location != VariableLocation::Board(sq),
    decreases vars.len() - i,
{
    if i < vars.len() {
        lemma_first_on_board(vars, sq, i + 1);
    }
}

/// The identity a board move shows of the piece on its source square.
pub open spec fn move_identity(w: WorldView, source: Square) -> (MoveIdentity, Option<VariableId>) {
    match w.on_board(source) {
        Some(j) => {
            let id = w.vars[j].id;
            if w.anon.contains(id) {
                (MoveIdentity::AnonymousVariable, Some(id))
            } else {
                (MoveIdentity::Variable(id), Some(id))
            }
        },
        None => (MoveIdentity::Known, None),
    }
}

/// The observed forms of a concrete move, each with the variable piece it
/// moves: a board move shows which piece moved; a drop of a held variable
/// piece shows its id (or, when hand pieces are indistinguishable, only that
/// it was a variable piece), and a drop of an ordinary piece shows its kind
/// when the hand holds more pieces of that kind than variable ones.
pub open spec fn variants_of(w: WorldView, m: Movement, mode: HandVariableMode) -> Seq<
    (ObservedMove, Option<VariableId>),
> {
    match m {
        Movement::Move { source, dest, promote } => {
            let (identity, selected) = move_identity(w, source);
            seq![
                (
                    ObservedMove::Move {
                        identity,
                        source,
                        destination: dest,
                        promote,
                    },
                    selected,
                ),
            ]
        },
        Movement::Drop(dest, kind) => {
            let turn = w.pos.turn;
            let held = w.vars.filter(held_by(turn, kind));
            let from_vars = held.map_values(drop_variant(dest, mode));
            if w.pos.hand(turn, kind) > from_vars.len() {
                from_vars.push(
                    (ObservedMove::Drop { identity: DropIdentity::Known(kind), destination: dest }, None),
                )
            } else {
                from_vars
            }
        },
    }
}

/// A variable piece after the move: a captured one changes side, loses its
/// promotion and goes to the mover's hand; the selected one follows the move.
pub open spec fn moved_variable(
    v: VariablePiece,
    mover: Color,
    captured: Option<VariableId>,
    m: Movement,
    selected: Option<VariableId>,
) -> VariablePiece {
    if captured == Some(v.id) {
        VariablePiece {
            id: v.id,
            color: mover,
            kind: v.kind.spec_maybe_unpromote(),
            location: VariableLocation::Hand(mover),
        }
    } else if selected == Some(v.id) {
        match m {
            Movement::Move { dest, promote, .. } => VariablePiece {
                id: v.id,
                color: v.color,
                kind: crate::moves::moved_kind(v.kind, promote),
                location: VariableLocation::Board(dest),
            },
            Movement::Drop(dest, _) => VariablePiece {
                id: v.id,
                color: v.color,
                kind: v.kind,
                location: VariableLocation::Board(dest),
            },
        }
    } else {
        v
    }
}

/// The variable piece captured by a board move to `dest`.
pub open spec fn captured_variable(w: WorldView, o: ObservedMove) -> Option<VariableId> {
    match o {
        ObservedMove::Move { destination, .. } => match w.on_board(destination) {
            Some(j) => Some(w.vars[j].id),
            None => None,
        },
        ObservedMove::Drop { .. } => None,
    }
}

/// The world after playing `m`, observed as `o`, moving the variable piece
/// `selected`.
pub open spec fn apply_world(
    w: WorldView,
    o: ObservedMove,
    m: Movement,
    selected: Option<VariableId>,
) -> WorldView {
    let captured = captured_variable(w, o);
    let mover = w.pos.turn;
    WorldView {
        pos: apply(w.pos, m),
        vars: w.vars.map_values(|v: VariablePiece| moved_variable(v, mover, captured, m, selected)),
        anon: match (o, selected) {
            (ObservedMove::Drop { identity: DropIdentity::AnonymousVariable, .. }, Some(id)) => if w.anon.contains(
                id,
            ) {
                w.anon
            } else {
                w.anon.push(id)
            },
            _ => w.anon,
        },
    }
}

pub open spec fn not_listed(ids: Seq<VariableId>) -> spec_fn(VariablePiece) -> bool {
    |v: VariablePiece| !ids.contains(v.id)
}

pub open spec fn not_listed_id(ids: Seq<VariableId>) -> spec_fn(VariableId) -> bool {
    |a: VariableId| !ids.contains(a)
}

/// The world without the variable pieces listed in `ids`.
pub open spec fn forget_all(w: WorldView, ids: Seq<VariableId>) -> WorldView {
    WorldView {
        pos: w.pos,
        vars: w.vars.filter(not_listed(ids)),
        anon: w.anon.filter(not_listed_id(ids)),
    }
}

/// Some piece of `vars` has the id `id`.
pub open spec fn has_id(vars: Seq<VariablePiece>, id: VariableId) -> bool {
    exists|j: int| 0 <= j < vars.len() && #[trigger] vars[j].id == id
}

} // verus!

verus! {

/// Whether `id` is listed in `ids`.
pub fn contains_id(ids: &Vec<VariableId>, id: VariableId) -> (r: bool)
    ensures
        r == ids@.contains(id),
{
    let mut i: usize = 0;
    while i < ids.len()
        invariant
            i <= ids@.len(),
            forall|j: int| 0 <= j < i ==> ids@[j] != id,
        decreases ids@.len() - i,
    {
        if ids[i] == id {
            return true;
        }
        i = i + 1;
    }
    false
}

/// Growing a prefix by one element adds exactly that element.
pub proof fn lemma_take_contains<A>(s: Seq<A>, i: int, x: A)
    requires
        0 <= i < s.len(),
    ensures
        s.take(i + 1).contains(x) <==> (s.take(i).contains(x) || s[i] == x),
{
    let t1 = s.take(i + 1);
    let t0 = s.take(i);
    if t1.contains(x) {
        let k = choose|k: int| 0 <= k < t1.len() && t1[k] == x;
        if k < i {
            assert(t0[k] == x);
        }
    }
    if t0.contains(x) {
        let k = choose|k: int| 0 <= k < t0.len() && t0[k] == x;
        assert(t1[k] == x);
    }
    if s[i] == x {
        assert(t1[i] == x);
    }
}

/// Pushing onto a sequence adds exactly that element.
pub proof fn lemma_push_contains<A>(s: Seq<A>, y: A, x: A)
    ensures
        s.push(y).contains(x) <==> (s.contains(x) || y == x),
{
    let t = s.push(y);
    if t.contains(x) {
        let k = choose|k: int| 0 <= k < t.len() && t[k] == x;
        if k < s.len() {
            assert(s[k] == x);
        }
    }
    if s.contains(x) {
        let k = choose|k: int| 0 <= k < s.len() && s[k] == x;
        assert(s.push(y)[k] == x);
    }
    if y == x {
        assert(s.push(y)[s.len() as int] == x);
    }
}

/// The pieces of `vars` with the piece `v` put in id order; a piece with the
/// same id is replaced.
fn insert_piece(vars: &Vec<VariablePiece>, v: VariablePiece) -> (r: Vec<VariablePiece>)
    requires
        sorted_ids(vars@),
    ensures
        sorted_ids(r@),
        forall|x: VariablePiece| r@.contains(x) <==> (x == v || (vars@.contains(x) && x.id != v.id)),
{
    let mut r: Vec<VariablePiece> = Vec::new();
    let mut i: usize = 0;
    while i < vars.len()
        invariant
            sorted_ids(vars@),
            i <= vars@.len(),
            sorted_ids(r@),
            forall|j: int| 0 <= j < r@.len() ==> (#[trigger] r@[j]).id.0 < v.id.0,
            forall|j: int, k: int|
                0 <= j < r@.len() && i <= k < vars@.len() ==> (#[trigger] r@[j]).id.0 < (
                #[trigger] vars@[k]).id.0,
            forall|q: VariablePiece|
                r@.contains(q) <==> (vars@.take(i as int).contains(q) && q.id.0 < v.id.0),
        decreases vars@.len() - i,
    {
        let x = vars[i];
        let ghost prev = r@;
        if x.id.0 < v.id.0 {
            r.push(x);
        }
        proof {
            assert forall|y: VariablePiece|
                r@.contains(y) <==> (vars@.take(i + 1).contains(y) && y.id.0 < v.id.0) by {
                lemma_take_contains(vars@, i as int, y);
                lemma_push_contains(prev, x, y);
            }
        }
        i = i + 1;
    }
    let ghost low = r@;
    proof {
        assert(vars@.take(vars@.len() as int) =~= vars@);
    }
    r.push(v);
    proof {
        assert forall|y: VariablePiece| r@.contains(y) <==> (low.contains(y) || y == v) by {
            lemma_push_contains(low, v, y);
        }
        assert(vars@.take(0) =~= Seq::<VariablePiece>::empty());
    }
    let mut n: usize = 0;
    proof {
        assert forall|q: VariablePiece|
            r@.contains(q) <==> (low.contains(q) || q == v || (vars@.take(n as int).contains(q)
                && q.id.0 > v.id.0)) by {
            assert(!vars@.take(n as int).contains(q));
        }
    }
    while n < vars.len()
        invariant
            sorted_ids(vars@),
            n <= vars@.len(),
            sorted_ids(r@),
            r@.len() >= 1,
            forall|j: int, k: int|
                0 <= j < r@.len() && n <= k < vars@.len() && v.id.0 < (#[trigger] vars@[k]).id.0
                    ==> (#[trigger] r@[j]).id.0 < vars@[k].id.0,
            forall|q: VariablePiece|
                r@.contains(q) <==> (low.contains(q) || q == v || (vars@.take(n as int).contains(q)
                    && q.id.0 > v.id.0)),
            forall|q: VariablePiece| low.contains(q) <==> (vars@.contains(q) && q.id.0 < v.id.0),
            forall|j: int| 0 <= j < low.len() ==> (#[trigger] low[j]).id.0 < v.id.0,
            forall|j: int| 0 <= j < r@.len() ==> (#[trigger] r@[j]).id.0 <= v.id.0 || exists|k: int| 0 <= k < n && vars@[k] == r@[j],
        decreases vars@.len() - n,
    {
        let x = vars[n];
        let ghost prev = r@;
        let ghost old_n = n as int;
        if x.id.0 > v.id.0 {
            r.push(x);
        }
        n = n + 1;
        proof {
            assert forall|q: VariablePiece|
                r@.contains(q) <==> (low.contains(q) || q == v || (vars@.take(n as int).contains(q)
                    && q.id.0 > v.id.0)) by {
                lemma_take_contains(vars@, old_n, q);
                assert(n as int == old_n + 1);
                assert(x == vars@[old_n]);
                assert(prev.contains(q) <==> (low.contains(q) || q == v || (vars@.take(old_n).contains(q)
                    && q.id.0 > v.id.0)));
                if x.id.0 > v.id.0 {
                    lemma_push_contains(prev, x, q);
                    assert(r@ == prev.push(x));
                } else {
                    assert(r@ == prev);
                }
                if q == x && x.id.0 < v.id.0 {
                    assert(vars@.contains(x)) by {
                        assert(vars@[old_n] == x);
                    }
                }
            }
        }
    }
    proof {
        assert(vars@.take(vars@.len() as int) =~= vars@);
        assert forall|x: VariablePiece|
            r@.contains(x) <==> (x == v || (vars@.contains(x) && x.id != v.id)) by {
            assert(vars@.take(n as int) == vars@);
            assert(r@.contains(x) <==> (low.contains(x) || x == v || (vars@.take(n as int).contains(x)
                && x.id.0 > v.id.0)));
            assert(low.contains(x) <==> (vars@.contains(x) && x.id.0 < v.id.0));
            if vars@.contains(x) && x.id != v.id {
                assert(x.id.0 != v.id.0);
            }
        }
    }
    r
}

} // verus!

verus! {

impl ConcreteWorld {
    /// A world from a position and its variable pieces, kept by increasing
    /// id (of two pieces with one id the later is kept).
    pub fn new(position: Position, variables: Vec<VariablePiece>) -> (w: ConcreteWorld)
        requires
            position.wf(),
            forall|i: int| 0 <= i < variables@.len() ==> location_wf(#[trigger] variables@[i].location),
        ensures
            w@.wf(),
            w@.pos == position@,
            w@.anon.len() == 0,
            forall|v: VariablePiece| w@.vars.contains(v) ==> variables@.contains(v),
            forall|i: int|
                0 <= i < variables@.len() ==> #[trigger] has_id(w.variables@, variables@[i].id),
    {
        let mut vars: Vec<VariablePiece> = Vec::new();
        let mut i: usize = 0;
        while i < variables.len()
            invariant
                i <= variables@.len(),
                sorted_ids(vars@),
                forall|k: int| 0 <= k < variables@.len() ==> location_wf(#[trigger] variables@[k].location),
                forall|v: VariablePiece| vars@.contains(v) ==> variables@.contains(v),
                forall|k: int| 0 <= k < i ==> (exists|j: int| 0 <= j < vars@.len() && #[trigger] vars@[j].id == (#[trigger] variables@[k]).id),
            decreases variables@.len() - i,
        {
            let v = variables[i];
            let ghost prev = vars@;
            vars = insert_piece(&vars, v);
            proof {
                assert(vars@.contains(v));
                assert forall|k: int| 0 <= k < i + 1 implies (exists|j: int| 0 <= j < vars@.len() && #[trigger] vars@[j].id == (#[trigger] variables@[k]).id) by {
                    if k == i {
                        let j = choose|j: int| 0 <= j < vars@.len() && vars@[j] == v;
                        assert(vars@[j].id == variables@[k].id);
                    } else {
                        let j0 = choose|j: int| 0 <= j < prev.len() && #[trigger] prev[j].id == variables@[k].id;
                        let x = prev[j0];
                        assert(prev.contains(x));
                        if x.id == v.id {
                            let j = choose|j: int| 0 <= j < vars@.len() && vars@[j] == v;
                            assert(vars@[j].id == variables@[k].id);
                        } else {
                            assert(vars@.contains(x));
                            let j = choose|j: int| 0 <= j < vars@.len() && vars@[j] == x;
                            assert(vars@[j].id == variables@[k].id);
                        }
                    }
                }
                assert forall|x: VariablePiece| vars@.contains(x) implies variables@.contains(x) by {
                    if x == v {
                        assert(variables@[i as int] == v);
                    } else {
                        assert(prev.contains(x));
                    }
                }
            }
            i = i + 1;
        }
        proof {
            assert forall|k: int| 0 <= k < vars@.len() implies location_wf(#[trigger] vars@[k].location) by {
                assert(vars@.contains(vars@[k]));
                assert(variables@.contains(vars@[k]));
                let j = choose|j: int| 0 <= j < variables@.len() && variables@[j] == vars@[k];
                assert(location_wf(variables@[j].location));
            }
        }
        let w = ConcreteWorld { position, variables: vars, anonymous: Vec::new() };
        proof {
            assert(w@.vars == vars@);
            assert forall|k: int| 0 <= k < variables@.len() implies #[trigger] has_id(w.variables@, variables@[k].id) by {
                let j = choose|j: int| 0 <= j < vars@.len() && #[trigger] vars@[j].id == variables@[k].id;
                assert(w.variables@[j].id == variables@[k].id);
            }
        }
        w
    }

    pub fn position(&self) -> (p: &Position)
        ensures
            p == &self.position,
    {
        &self.position
    }

    /// The variable pieces by increasing id.
    pub fn variables(&self) -> (v: &Vec<VariablePiece>)
        ensures
            v == &self.variables,
    {
        &self.variables
    }

    /// The variable piece with a given id.
    pub fn variable(&self, id: VariableId) -> (r: Option<VariablePiece>)
        requires
            sorted_ids(self.variables@),
        ensures
            r == self@.variable(id),
    {
        let mut i: usize = 0;
        while i < self.variables.len()
            invariant
                i <= self.variables@.len(),
                sorted_ids(self.variables@),
                forall|j: int| 0 <= j < i ==> (#[trigger] self.variables@[j]).id != id,
            decreases self.variables@.len() - i,
        {
            if self.variables[i].id == id {
                proof {
                    let j = choose|j: int| 0 <= j < self.variables@.len() && #[trigger] self.variables@[j].id == id;
                    if j != i {
                        if j < i {
                            assert(self.variables@[j].id.0 < self.variables@[i as int].id.0);
                        } else {
                            assert(self.variables@[i as int].id.0 < self.variables@[j].id.0);
                        }
                    }
                }
                return Some(self.variables[i]);
            }
            i = i + 1;
        }
        None
    }

    /// Index of the first variable piece on `sq`.
    fn variable_on_board(&self, sq: Square) -> (r: Option<usize>)
        ensures
            match r {
                Some(j) => self@.on_board(sq) == Some(j as int) && j < self.variables@.len(),
                None => self@.on_board(sq) is None,
            },
    {
        proof {
            lemma_first_on_board(self.variables@, sq, 0);
        }
        let mut i: usize = 0;
        while i < self.variables.len()
            invariant
                i <= self.variables@.len(),
                first_on_board(self.variables@, sq, 0) == first_on_board(self.variables@, sq, i as int),
            decreases self.variables@.len() - i,
        {
            if self.variables[i].location == VariableLocation::Board(sq) {
                return Some(i);
            }
            i = i + 1;
        }
        None
    }

    /// A copy of this world.
    pub fn copy(&self) -> (r: ConcreteWorld)
        ensures
            r@ == self@,
    {
        let position = self.position.copy();
        let variables = self.variables.clone();
        let anonymous = self.anonymous.clone();
        proof {
            assert(position@.board =~= self.position@.board);
            assert(position@.hands =~= self.position@.hands);
            assert(variables@ =~= self.variables@);
            assert(anonymous@ =~= self.anonymous@);
        }
        ConcreteWorld { position, variables, anonymous }
    }

    /// This world without the variable pieces listed in `ids`: those pieces
    /// become ordinary ones.
    pub fn without_variables(&self, ids: &Vec<VariableId>) -> (r: ConcreteWorld)
        requires
            self@.wf(),
        ensures
            r@ == forget_all(self@, ids@),
            r@.wf(),
    {
        let ghost w = self@;
        let mut vars: Vec<VariablePiece> = Vec::new();
        let mut i: usize = 0;
        while i < self.variables.len()
            invariant
                i <= self.variables@.len(),
                self.variables@ == w.vars,
                vars@ == w.vars.take(i as int).filter(not_listed(ids@)),
            decreases self.variables@.len() - i,
        {
            proof {
                assert(w.vars.take(i + 1) =~= w.vars.take(i as int).push(w.vars[i as int]));
                w.vars.take(i as int).lemma_filter_push(w.vars[i as int], not_listed(ids@));
            }
            if !contains_id(ids, self.variables[i].id) {
                vars.push(self.variables[i]);
            }
            i = i + 1;
        }
        let mut anon: Vec<VariableId> = Vec::new();
        let mut i: usize = 0;
        while i < self.anonymous.len()
            invariant
                i <= self.anonymous@.len(),
                self.anonymous@ == w.anon,
                anon@ == w.anon.take(i as int).filter(not_listed_id(ids@)),
            decreases self.anonymous@.len() - i,
        {
            proof {
                assert(w.anon.take(i + 1) =~= w.anon.take(i as int).push(w.anon[i as int]));
                w.anon.take(i as int).lemma_filter_push(w.anon[i as int], not_listed_id(ids@));
            }
            if !contains_id(ids, self.anonymous[i]) {
                anon.push(self.anonymous[i]);
            }
            i = i + 1;
        }
        proof {
            assert(w.vars.take(w.vars.len() as int) =~= w.vars);
            assert(w.anon.take(w.anon.len() as int) =~= w.anon);
            lemma_filter_keeps_sorted(w.vars, not_listed(ids@));
            assert forall|a: int| 0 <= a < vars@.len() implies location_wf(#[trigger] vars@[a].location) by {
                assert(vars@.contains(vars@[a]));
                w.vars.lemma_filter_contains_rev(not_listed(ids@), vars@[a]);
                let k = choose|k: int| 0 <= k < w.vars.len() && w.vars[k] == vars@[a];
                assert(location_wf(w.vars[k].location));
            }
        }
        let position = self.position.copy();
        proof {
            assert(position@.board =~= self.position@.board);
            assert(position@.hands =~= self.position@.hands);
        }
        ConcreteWorld { position, variables: vars, anonymous: anon }
    }

}

/// Leaving out pieces keeps the ids increasing.
pub proof fn lemma_filter_keeps_sorted(vars: Seq<VariablePiece>, f: spec_fn(VariablePiece) -> bool)
    requires
        sorted_ids(vars),
    ensures
        sorted_ids(vars.filter(f)),
    decreases vars.len(),
{
    if vars.len() > 0 {
        let rest = vars.drop_last();
        lemma_filter_keeps_sorted(rest, f);
        let fr = rest.filter(f);
        if f(vars.last()) {
            assert forall|a: int| 0 <= a < fr.len() implies (#[trigger] fr[a]).id.0 < vars.last().id.0 by {
                assert(fr.contains(fr[a]));
                rest.lemma_filter_contains_rev(f, fr[a]);
                let k = choose|k: int| 0 <= k < rest.len() && rest[k] == fr[a];
                assert(vars[k] == fr[a]);
            }
        }
        assert(vars == rest.push(vars.last()));
        rest.lemma_filter_push(vars.last(), f);
    }
}

} // verus!

verus! {

pub open spec fn drop_variant(dest: Square, mode: HandVariableMode) -> spec_fn(VariablePiece) -> (ObservedMove, Option<VariableId>) {
    |v: VariablePiece|
        (
            ObservedMove::Drop {
                identity: if mode == HandVariableMode::Distinguishable {
                    DropIdentity::Variable(v.id)
                } else {
                    DropIdentity::AnonymousVariable
                },
                destination: dest,
            },
            Some(v.id),
        )
}

pub open spec fn held_by(color: Color, kind: Kind) -> spec_fn(VariablePiece) -> bool {
    |v: VariablePiece| v.color == color && v.kind == kind && v.location == VariableLocation::Hand(color)
}

impl ConcreteWorld {
    /// The observed forms of the concrete move `movement`, each with the
    /// variable piece it moves.
    pub fn observed_variants(&self, movement: Movement, mode: HandVariableMode) -> (r: Vec<(ObservedMove, Option<VariableId>)>)
        requires
            self@.wf(),
        ensures
            r@ == variants_of(self@, movement, mode),
    {
        match movement {
            Movement::Move { source, dest, promote } => {
                let (identity, selected) = match self.variable_on_board(source) {
                    Some(j) => {
                        let id = self.variables[j].id;
                        if contains_id(&self.anonymous, id) {
                            (MoveIdentity::AnonymousVariable, Some(id))
                        } else {
                            (MoveIdentity::Variable(id), Some(id))
                        }
                    },
                    None => (MoveIdentity::Known, None),
                };
                let mut r = Vec::new();
                r.push((ObservedMove::Move { identity, source, destination: dest, promote }, selected));
                proof {
                    assert(r@ =~= variants_of(self@, movement, mode));
                }
                r
            },
            Movement::Drop(dest, kind) => {
                let turn = self.position.turn;
                let ghost f = held_by(turn, kind);
                let ghost g = drop_variant(dest, mode);
                let mut r: Vec<(ObservedMove, Option<VariableId>)> = Vec::new();
                let mut i: usize = 0;
                while i < self.variables.len()
                    invariant
                        i <= self.variables@.len(),
                        turn == self@.pos.turn,
                        f == held_by(turn, kind),
                        g == drop_variant(dest, mode),
                        r@ == self.variables@.take(i as int).filter(f).map_values(g),
                    decreases self.variables@.len() - i,
                {
                    let v = self.variables[i];
                    proof {
                        assert(self.variables@.take(i + 1) =~= self.variables@.take(i as int).push(v));
                        self.variables@.take(i as int).lemma_filter_push(v, f);
                        let fi = self.variables@.take(i as int).filter(f);
                        assert(fi.push(v).map_values(g) =~= fi.map_values(g).push(g(v)));
                    }
                    if v.color == turn && v.kind == kind && v.location == VariableLocation::Hand(turn) {
                        let identity = match mode {
                            HandVariableMode::Distinguishable => DropIdentity::Variable(v.id),
                            HandVariableMode::Indistinguishable => DropIdentity::AnonymousVariable,
                        };
                        r.push((ObservedMove::Drop { identity, destination: dest }, Some(v.id)));
                    }
                    i = i + 1;
                }
                proof {
                    assert(self.variables@.take(self.variables@.len() as int) =~= self.variables@);
                }
                if self.position.hands.count(turn, kind) > r.len() {
                    r.push((ObservedMove::Drop { identity: DropIdentity::Known(kind), destination: dest }, None));
                }
                r
            },
        }
    }

    /// The world after the concrete move `movement`, observed as `observed`
    /// and moving the variable piece `selected`.
    pub fn apply(&self, observed: ObservedMove, movement: Movement, selected: Option<VariableId>) -> (r: ConcreteWorld)
        requires
            self@.wf(),
            playable(self@.pos, movement),
        ensures
            r@ == apply_world(self@, observed, movement, selected),
            r@.wf(),
    {
        let mover = self.position.turn;
        let captured = match observed {
            ObservedMove::Move { destination, .. } => match self.variable_on_board(destination) {
                Some(j) => Some(self.variables[j].id),
                None => None,
            },
            ObservedMove::Drop { .. } => None,
        };
        proof {
            assert(captured == captured_variable(self@, observed));
        }
        let ghost h = |v: VariablePiece| moved_variable(v, mover, captured, movement, selected);
        let mut vars: Vec<VariablePiece> = Vec::new();
        let mut i: usize = 0;
        while i < self.variables.len()
            invariant
                i <= self.variables@.len(),
                vars@.len() == i,
                forall|k: int| 0 <= k < i ==> #[trigger] vars@[k] == h(self.variables@[k]),
                h == (|v: VariablePiece| moved_variable(v, mover, captured, movement, selected)),
            decreases self.variables@.len() - i,
        {
            let v = self.variables[i];
            let nv = if captured == Some(v.id) {
                VariablePiece { id: v.id, color: mover, kind: v.kind.maybe_unpromote(), location: VariableLocation::Hand(mover) }
            } else if selected == Some(v.id) {
                match movement {
                    Movement::Move { dest, promote, .. } => {
                        let k = if promote {
                            match v.kind.promote() {
                                Some(pk) => pk,
                                None => v.kind,
                            }
                        } else {
                            v.kind
                        };
                        VariablePiece { id: v.id, color: v.color, kind: k, location: VariableLocation::Board(dest) }
                    },
                    Movement::Drop(dest, _) => VariablePiece { id: v.id, color: v.color, kind: v.kind, location: VariableLocation::Board(dest) },
                }
            } else {
                v
            };
            vars.push(nv);
            i = i + 1;
        }
        let mut anon: Vec<VariableId> = self.anonymous.clone();
        proof {
            assert(anon@ =~= self.anonymous@);
        }
        match (observed, selected) {
            (ObservedMove::Drop { identity: DropIdentity::AnonymousVariable, .. }, Some(id)) => {
                if !contains_id(&self.anonymous, id) {
                    anon.push(id);
                }
            },
            _ => {},
        }
        let position = moved(&self.position, movement);
        let r = ConcreteWorld { position, variables: vars, anonymous: anon };
        proof {
            assert(r@.vars =~= self@.vars.map_values(h));
            assert forall|a: int, b: int| 0 <= a < b < r@.vars.len() implies (#[trigger] r@.vars[a]).id.0 < (#[trigger] r@.vars[b]).id.0 by {
                assert(self@.vars[a].id.0 < self@.vars[b].id.0);
            }
            assert forall|a: int| 0 <= a < r@.vars.len() implies location_wf(#[trigger] r@.vars[a].location) by {
                assert(location_wf(self@.vars[a].location));
            }
        }
        r
    }
}

} // verus!
