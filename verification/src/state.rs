use vstd::prelude::*;

use crate::kind_set::{lemma_kinds_contains, lemma_kinds_sorted, KindSet};
use crate::moves::{
    advance, apply, generated_seq, is_legal_mate, is_mate, legal, legal_movements, moved,
    movement_wf,
};
use crate::observed::{lemma_observed_key_injective, observed_key, observed_wf, ObservedMove, VariableId};
use crate::piece::{Color, Kind};
use crate::position::Movement;
use crate::rule::{HandVariableMode, MateRule};
use crate::world::{
    apply_world, drop_variant, has_id, held_by, variants_of, ConcreteWorld, VariablePiece, WorldView,
};

verus! {

/// A concrete move as the search sees it: its observed form, the move, and
/// the variable piece it moves.
pub type Candidate = (ObservedMove, Movement, Option<VariableId>);

/// A pawn drop that mates is illegal; such drops are not played.
pub open spec fn illegal_pawn_drop_mate(w: WorldView, m: Movement) -> bool {
    m.spec_is_pawn_drop() && is_mate(apply(w.pos, m))
}

/// The moves searched in a world: every legal move for the defender's free
/// first move, otherwise the checks of black and all legal moves of white.
pub open spec fn searched_moves(w: WorldView, free: bool) -> Seq<Movement> {
    if free {
        generated_seq(w.pos, false)
    } else {
        generated_seq(w.pos, w.pos.turn == Color::Black)
    }
}

pub open spec fn with_movement(m: Movement) -> spec_fn((ObservedMove, Option<VariableId>)) -> Candidate {
    |v: (ObservedMove, Option<VariableId>)| (v.0, m, v.1)
}

/// The candidates of the first `i` searched moves, each move with all its
/// observed forms, illegal pawn-drop mates left out.
pub open spec fn candidates_upto(
    w: WorldView,
    mode: HandVariableMode,
    ms: Seq<Movement>,
    i: int,
) -> Seq<Candidate>
    decreases i,
{
    if i <= 0 {
        Seq::empty()
    } else {
        let prev = candidates_upto(w, mode, ms, i - 1);
        let m = ms[i - 1];
        if illegal_pawn_drop_mate(w, m) {
            prev
        } else {
            prev + variants_of(w, m, mode).map_values(with_movement(m))
        }
    }
}

/// All candidates of a world, in the order of the move generator.
pub open spec fn world_candidates(w: WorldView, free: bool, mode: HandVariableMode) -> Seq<
    Candidate,
> {
    let ms = searched_moves(w, free);
    candidates_upto(w, mode, ms, ms.len() as int)
}

proof fn lemma_variants_wf(w: WorldView, m: Movement, mode: HandVariableMode)
    requires
        movement_wf(m),
    ensures
        forall|j: int| 0 <= j < variants_of(w, m, mode).len() ==> observed_wf(#[trigger] variants_of(w, m, mode)[j].0),
{
    match m {
        Movement::Move { .. } => {},
        Movement::Drop(dest, kind) => {
            let held = w.vars.filter(held_by(w.pos.turn, kind));
            let from_vars = held.map_values(drop_variant(dest, mode));
            assert forall|j: int| 0 <= j < from_vars.len() implies observed_wf(#[trigger] from_vars[j].0) by {
                assert(from_vars[j] == drop_variant(dest, mode)(held[j]));
            }
        },
    }
}

/// Whether the pawn drop `m` would be an illegal pawn-drop mate.
fn is_illegal_pawn_drop_mate(world: &ConcreteWorld, m: Movement) -> (r: bool)
    requires
        world@.wf(),
        legal(world@.pos, m),
    ensures
        r == illegal_pawn_drop_mate(world@, m),
{
    if !m.is_pawn_drop() {
        return false;
    }
    let q = moved(&world.position, m);
    is_legal_mate(&q)
}

/// The concrete moves of a world with their observed forms and the variable
/// piece each one moves.
pub fn concrete_moves(world: &ConcreteWorld, free_white_move: bool, mode: HandVariableMode) -> (r:
    Vec<Candidate>)
    requires
        world@.wf(),
    ensures
        r@ == world_candidates(world@, free_white_move, mode),
        forall|j: int| 0 <= j < r@.len() ==> observed_wf((#[trigger] r@[j]).0) && legal(world@.pos, r@[j].1),
{
    let moves = if free_white_move {
        legal_movements(&world.position)
    } else {
        advance(&world.position).0
    };
    let ghost ms = searched_moves(world@, free_white_move);
    assert(moves@ == ms);
    assert forall|m: Movement| #[trigger] ms.contains(m) implies legal(world@.pos, m) by {
        assert(moves@.contains(m));
    }
    let mut r: Vec<Candidate> = Vec::new();
    let mut i: usize = 0;
    while i < moves.len()
        invariant
            world@.wf(),
            i <= moves@.len(),
            moves@ == ms,
            ms == searched_moves(world@, free_white_move),
            forall|m: Movement| #[trigger] ms.contains(m) ==> legal(world@.pos, m),
            r@ == candidates_upto(world@, mode, ms, i as int),
            forall|j: int| 0 <= j < r@.len() ==> observed_wf((#[trigger] r@[j]).0) && legal(world@.pos, r@[j].1),
        decreases moves@.len() - i,
    {
        let m = moves[i];
        assert(ms.contains(m)) by {
            assert(ms[i as int] == m);
        }
        if !is_illegal_pawn_drop_mate(world, m) {
            let vs = world.observed_variants(m, mode);
            proof {
                lemma_variants_wf(world@, m, mode);
            }
            let ghost prev = r@;
            let mut j: usize = 0;
            while j < vs.len()
                invariant
                    j <= vs@.len(),
                    r@ == prev + vs@.take(j as int).map_values(with_movement(m)),
                    legal(world@.pos, m),
                    forall|a: int| 0 <= a < vs@.len() ==> observed_wf((#[trigger] vs@[a]).0),
                    forall|a: int| 0 <= a < r@.len() ==> observed_wf((#[trigger] r@[a]).0) && legal(world@.pos, r@[a].1),
                decreases vs@.len() - j,
            {
                let v = vs[j];
                proof {
                    assert(vs@.take(j + 1).map_values(with_movement(m)) =~= vs@.take(
                        j as int,
                    ).map_values(with_movement(m)).push(with_movement(m)(v)));
                }
                r.push((v.0, m, v.1));
                j = j + 1;
                proof {
                    assert(r@ =~= prev + vs@.take(j as int).map_values(with_movement(m)));
                }
            }
            proof {
                assert(vs@.take(vs@.len() as int) =~= vs@);
            }
        }
        i = i + 1;
    }
    r
}

} // verus!

verus! {

/// Ids strictly increase along the sequence.
pub open spec fn increasing_ids(v: Seq<VariableId>) -> bool {
    forall|a: int, b: int| 0 <= a < b < v.len() ==> (#[trigger] v[a]).0 < (#[trigger] v[b]).0
}

/// Keys strictly increase along the sequence.
pub open spec fn increasing_keys(v: Seq<ObservedMove>) -> bool {
    forall|a: int, b: int|
        0 <= a < b < v.len() ==> observed_key(#[trigger] v[a]) < observed_key(#[trigger] v[b])
}

/// Inserting into a sequence adds exactly the inserted element.
pub proof fn lemma_insert_contains<A>(s: Seq<A>, i: int, e: A)
    requires
        0 <= i <= s.len(),
    ensures
        forall|x: A| #[trigger] s.insert(i, e).contains(x) <==> (s.contains(x) || x == e),
{
    let t = s.insert(i, e);
    assert forall|x: A| #[trigger] t.contains(x) <==> (s.contains(x) || x == e) by {
        if t.contains(x) {
            let k = choose|k: int| 0 <= k < t.len() && t[k] == x;
            if k < i {
                assert(s[k] == x);
            } else if k > i {
                assert(s[k - 1] == x);
            }
        }
        if s.contains(x) {
            let k = choose|k: int| 0 <= k < s.len() && s[k] == x;
            if k < i {
                assert(t[k] == x);
            } else {
                assert(t[k + 1] == x);
            }
        }
        if x == e {
            assert(t[i] == x);
        }
    }
}

/// Adds `id` to an increasing list of ids, unless it is there already.
fn insert_id(v: &mut Vec<VariableId>, id: VariableId)
    requires
        increasing_ids(old(v)@),
    ensures
        increasing_ids(final(v)@),
        forall|x: VariableId| final(v)@.contains(x) <==> (old(v)@.contains(x) || x == id),
{
    let mut i: usize = 0;
    while i < v.len() && v[i].0 < id.0
        invariant
            i <= v@.len(),
            v@ == old(v)@,
            forall|a: int| 0 <= a < i ==> (#[trigger] v@[a]).0 < id.0,
        decreases v@.len() - i,
    {
        i = i + 1;
    }
    if i < v.len() && v[i].0 == id.0 {
        proof {
            assert(v@[i as int] == id);
        }
        return;
    }
    let ghost old_v = v@;
    v.insert(i, id);
    proof {
        assert forall|a: int, b: int| 0 <= a < b < v@.len() implies (#[trigger] v@[a]).0 < (
        #[trigger] v@[b]).0 by {
            if b < i {
            } else if b == i {
            } else if a < i {
                assert(v@[b] == old_v[b - 1]);
                assert(old_v[i as int].0 > id.0);
                if b - 1 > i {
                    assert(old_v[i as int].0 < old_v[b - 1].0);
                }
            } else if a == i {
                assert(v@[b] == old_v[b - 1]);
                assert(old_v[i as int].0 > id.0);
                if b - 1 > i {
                    assert(old_v[i as int].0 < old_v[b - 1].0);
                }
            } else {
                assert(v@[a] == old_v[a - 1]);
                assert(v@[b] == old_v[b - 1]);
            }
        }
        lemma_insert_contains(old_v, i as int, id);
    }
}

/// Every observed move of the list has its squares on the board.
pub open spec fn all_observed_wf(v: Seq<ObservedMove>) -> bool {
    forall|a: int| 0 <= a < v.len() ==> observed_wf(#[trigger] v[a])
}

/// Adds `o` to a list of observed moves kept in key order, unless it is
/// there already.
fn insert_observed(v: &mut Vec<ObservedMove>, o: ObservedMove)
    requires
        increasing_keys(old(v)@),
        all_observed_wf(old(v)@),
        observed_wf(o),
    ensures
        increasing_keys(final(v)@),
        all_observed_wf(final(v)@),
        forall|x: ObservedMove| final(v)@.contains(x) <==> (old(v)@.contains(x) || x == o),
{
    let key = o.key();
    let mut i: usize = 0;
    while i < v.len() && v[i].key() < key
        invariant
            i <= v@.len(),
            v@ == old(v)@,
            key == observed_key(o),
            forall|a: int| 0 <= a < i ==> observed_key(#[trigger] v@[a]) < key,
        decreases v@.len() - i,
    {
        i = i + 1;
    }
    if i < v.len() && v[i].key() == key {
        proof {
            lemma_observed_key_injective(v@[i as int], o);
            assert(v@[i as int] == o);
        }
        return;
    }
    let ghost old_v = v@;
    v.insert(i, o);
    proof {
        assert forall|a: int, b: int| 0 <= a < b < v@.len() implies observed_key(#[trigger] v@[a])
            < observed_key(#[trigger] v@[b]) by {
            if b < i {
            } else if b == i {
            } else if a < i {
                assert(v@[b] == old_v[b - 1]);
                assert(observed_key(old_v[i as int]) > key);
                if b - 1 > i {
                    assert(observed_key(old_v[i as int]) < observed_key(old_v[b - 1]));
                }
            } else if a == i {
                assert(v@[b] == old_v[b - 1]);
                assert(observed_key(old_v[i as int]) > key);
                if b - 1 > i {
                    assert(observed_key(old_v[i as int]) < observed_key(old_v[b - 1]));
                }
            } else {
                assert(v@[a] == old_v[a - 1]);
                assert(v@[b] == old_v[b - 1]);
            }
        }
        assert forall|a: int| 0 <= a < v@.len() implies observed_wf(#[trigger] v@[a]) by {
            if a < i {
                assert(v@[a] == old_v[a]);
            } else if a > i {
                assert(v@[a] == old_v[a - 1]);
            }
        }
        lemma_insert_contains(old_v, i as int, o);
    }
}

} // verus!

verus! {

/// The views of a list of worlds.
pub open spec fn worlds_view(ws: Seq<ConcreteWorld>) -> Seq<WorldView> {
    Seq::new(ws.len(), |i: int| ws[i]@)
}

pub open spec fn worlds_wf(ws: Seq<WorldView>) -> bool {
    forall|i: int| 0 <= i < ws.len() ==> (#[trigger] ws[i]).wf()
}

/// In world `w`, the variable piece `id` is of kind `k`.
pub open spec fn world_kind(w: WorldView, id: VariableId, k: Kind) -> bool {
    w.variable(id) matches Some(v) && v.kind == k
}

/// Some world gives the variable piece `id` the kind `k`.
pub open spec fn possible_kind(ws: Seq<WorldView>, id: VariableId, k: Kind) -> bool {
    exists|i: int| 0 <= i < ws.len() && world_kind(#[trigger] ws[i], id, k)
}

pub open spec fn possible_pred(ws: Seq<WorldView>, id: VariableId) -> spec_fn(Kind) -> bool {
    |k: Kind| possible_kind(ws, id, k)
}

/// Every world that has the variable piece `id` gives it the kind `k`.
pub open spec fn settled_kind(ws: Seq<WorldView>, id: VariableId, k: Kind) -> bool {
    possible_kind(ws, id, k) && forall|k2: Kind| #[trigger] possible_kind(ws, id, k2) ==> k2 == k
}

/// The kind of the variable piece `id` is the same in every world.
pub open spec fn settled(ws: Seq<WorldView>, id: VariableId) -> bool {
    exists|k: Kind| settled_kind(ws, id, k)
}

pub open spec fn settled_value(ws: Seq<WorldView>, id: VariableId) -> Kind {
    choose|k: Kind| settled_kind(ws, id, k)
}

/// Some world has a variable piece `id`.
pub open spec fn appears(ws: Seq<WorldView>, id: VariableId) -> bool {
    exists|i: int| 0 <= i < ws.len() && #[trigger] has_id(ws[i].vars, id)
}

/// The kind recorded last for `id`.
pub open spec fn lookup(res: Seq<(VariableId, Kind)>, id: VariableId) -> Option<Kind>
    decreases res.len(),
{
    if res.len() == 0 {
        None
    } else if res.last().0 == id {
        Some(res.last().1)
    } else {
        lookup(res.drop_last(), id)
    }
}

/// The kind known for `id` once the worlds `ws` are settled.
pub open spec fn resolved_after(ws: Seq<WorldView>, res: Seq<(VariableId, Kind)>, id: VariableId) -> Option<Kind> {
    if settled(ws, id) {
        Some(settled_value(ws, id))
    } else {
        lookup(res, id)
    }
}

pub open spec fn unsettled(ws: Seq<WorldView>) -> spec_fn(VariablePiece) -> bool {
    |v: VariablePiece| !settled(ws, v.id)
}

pub open spec fn unsettled_id(ws: Seq<WorldView>) -> spec_fn(VariableId) -> bool {
    |a: VariableId| !settled(ws, a)
}

/// A world of `ws` with the settled variable pieces made ordinary.
pub open spec fn settle(w: WorldView, ws: Seq<WorldView>) -> WorldView {
    WorldView { pos: w.pos, vars: w.vars.filter(unsettled(ws)), anon: w.anon.filter(unsettled_id(ws)) }
}

pub open spec fn settle_all(ws: Seq<WorldView>) -> Seq<WorldView> {
    Seq::new(ws.len(), |i: int| settle(ws[i], ws))
}

proof fn lemma_settled_appears(ws: Seq<WorldView>, id: VariableId)
    requires
        settled(ws, id),
    ensures
        appears(ws, id),
{
    let k = choose|k: Kind| settled_kind(ws, id, k);
    let i = choose|i: int| 0 <= i < ws.len() && world_kind(#[trigger] ws[i], id, k);
    assert(has_id(ws[i].vars, id));
}

/// The set of kinds the worlds give to `id`.
fn kinds_of(worlds: &Vec<ConcreteWorld>, id: VariableId) -> (ks: KindSet)
    requires
        worlds_wf(worlds_view(worlds@)),
    ensures
        ks.wf(),
        forall|k: Kind| ks.has(k) <==> possible_kind(worlds_view(worlds@), id, k),
{
    let ghost ws = worlds_view(worlds@);
    let mut ks = KindSet::new();
    let mut i: usize = 0;
    while i < worlds.len()
        invariant
            i <= worlds@.len(),
            ws == worlds_view(worlds@),
            worlds_wf(ws),
            ks.wf(),
            forall|k: Kind| ks.has(k) <==> exists|j: int| 0 <= j < i && world_kind(#[trigger] ws[j], id, k),
        decreases worlds@.len() - i,
    {
        assert(ws[i as int] == worlds@[i as int]@);
        assert(ws[i as int].wf());
        let ghost prev = ks;
        match worlds[i].variable(id) {
            Some(v) => {
                ks.insert(v.kind);
            },
            None => {},
        }
        proof {
            assert forall|k: Kind| ks.has(k) <==> exists|j: int| 0 <= j < i + 1 && world_kind(#[trigger] ws[j], id, k) by {
                if ks.has(k) && !prev.has(k) {
                    assert(world_kind(ws[i as int], id, k));
                }
                if exists|j: int| 0 <= j < i + 1 && world_kind(#[trigger] ws[j], id, k) {
                    let j = choose|j: int| 0 <= j < i + 1 && world_kind(#[trigger] ws[j], id, k);
                    if j < i {
                        assert(prev.has(k));
                    }
                }
            }
        }
        i = i + 1;
    }
    ks
}

/// Adds the ids of `vars` to an increasing list of ids.
fn add_ids(r: &mut Vec<VariableId>, vars: &Vec<VariablePiece>)
    requires
        increasing_ids(old(r)@),
    ensures
        increasing_ids(final(r)@),
        forall|a: VariableId| final(r)@.contains(a) <==> (old(r)@.contains(a) || has_id(vars@, a)),
{
    let mut k: usize = 0;
    while k < vars.len()
        invariant
            k <= vars@.len(),
            increasing_ids(r@),
            forall|a: VariableId| r@.contains(a) <==> (old(r)@.contains(a) || has_id(vars@.take(k as int), a)),
        decreases vars@.len() - k,
    {
        let ghost prev = r@;
        let id = vars[k].id;
        insert_id(r, id);
        proof {
            let t0 = vars@.take(k as int);
            let t1 = vars@.take(k + 1);
            assert forall|a: VariableId| has_id(t1, a) <==> (has_id(t0, a) || id == a) by {
                if has_id(t1, a) {
                    let q = choose|q: int| 0 <= q < t1.len() && #[trigger] t1[q].id == a;
                    if q < k {
                        assert(t0[q].id == a);
                    }
                }
                if has_id(t0, a) {
                    let q = choose|q: int| 0 <= q < t0.len() && #[trigger] t0[q].id == a;
                    assert(t1[q].id == a);
                }
                if id == a {
                    assert(t1[k as int].id == a);
                }
            }
        }
        k = k + 1;
    }
    proof {
        assert(vars@.take(vars@.len() as int) =~= vars@);
    }
}

/// The ids of the variable pieces of all worlds, increasing.
fn all_ids(worlds: &Vec<ConcreteWorld>) -> (r: Vec<VariableId>)
    ensures
        increasing_ids(r@),
        forall|a: VariableId| r@.contains(a) <==> appears(worlds_view(worlds@), a),
{
    let ghost ws = worlds_view(worlds@);
    let mut r: Vec<VariableId> = Vec::new();
    let mut i: usize = 0;
    while i < worlds.len()
        invariant
            i <= worlds@.len(),
            ws == worlds_view(worlds@),
            increasing_ids(r@),
            forall|a: VariableId| r@.contains(a) <==> exists|j: int| 0 <= j < i && #[trigger] has_id(ws[j].vars, a),
        decreases worlds@.len() - i,
    {
        assert(ws[i as int].vars == worlds@[i as int].variables@);
        let ghost before = r@;
        add_ids(&mut r, &worlds[i].variables);
        proof {
            assert forall|a: VariableId| r@.contains(a) implies exists|j: int| 0 <= j < i + 1 && #[trigger] has_id(ws[j].vars, a) by {
                if before.contains(a) {
                    let j = choose|j: int| 0 <= j < i && #[trigger] has_id(ws[j].vars, a);
                    assert(0 <= j < i + 1 && has_id(ws[j].vars, a));
                } else {
                    assert(has_id(worlds@[i as int].variables@, a));
                    assert(has_id(ws[i as int].vars, a));
                }
            }
            assert forall|a: VariableId| (exists|j: int| 0 <= j < i + 1 && #[trigger] has_id(ws[j].vars, a)) implies r@.contains(a) by {
                let j = choose|j: int| 0 <= j < i + 1 && #[trigger] has_id(ws[j].vars, a);
                if j < i {
                    assert(before.contains(a));
                } else {
                    assert(j == i);
                    assert(ws[j] == worlds@[j]@);
                    assert(ws[j].vars == worlds@[j].variables@);
                    assert(has_id(worlds@[i as int].variables@, a));
                }
            }
            assert forall|a: VariableId| r@.contains(a) <==> exists|j: int| 0 <= j < i + 1 && #[trigger] has_id(ws[j].vars, a) by {
                if r@.contains(a) && !before.contains(a) {
                    assert(has_id(ws[i as int].vars, a));
                }
                if exists|j: int| 0 <= j < i + 1 && #[trigger] has_id(ws[j].vars, a) {
                    let j = choose|j: int| 0 <= j < i + 1 && #[trigger] has_id(ws[j].vars, a);
                    if j < i {
                        assert(before.contains(a));
                    } else {
                        assert(has_id(worlds@[i as int].variables@, a));
                    }
                }
                if r@.contains(a) && before.contains(a) {
                    let j = choose|j: int| 0 <= j < i && #[trigger] has_id(ws[j].vars, a);
                    assert(0 <= j < i + 1 && has_id(ws[j].vars, a));
                }
            }
        }
        i = i + 1;
    }
    r
}

/// A set of kinds listed as a single kind exactly when the kind of `id` is
/// settled, and then that kind is the settled one.
proof fn lemma_single_kind(ws: Seq<WorldView>, id: VariableId, ks: KindSet)
    requires
        forall|k: Kind| ks.has(k) <==> possible_kind(ws, id, k),
    ensures
        (ks.kinds().len() == 1) == settled(ws, id),
        ks.kinds().len() == 1 ==> ks.kinds()[0] == settled_value(ws, id),
{
    let v = ks.kinds();
    lemma_kinds_sorted(ks);
    if v.len() == 1 {
        let k0 = v[0];
        assert(v.contains(k0));
        lemma_kinds_contains(ks, k0);
        assert forall|k2: Kind| #[trigger] possible_kind(ws, id, k2) implies k2 == k0 by {
            lemma_kinds_contains(ks, k2);
            let idx = choose|idx: int| 0 <= idx < v.len() && v[idx] == k2;
        }
        assert(settled_kind(ws, id, k0));
        let c = settled_value(ws, id);
        assert(settled_kind(ws, id, c));
        assert(c == k0);
    }
    if settled(ws, id) {
        let k = choose|k: Kind| settled_kind(ws, id, k);
        lemma_kinds_contains(ks, k);
        assert(v.len() >= 1);
        if v.len() >= 2 {
            assert(v.contains(v[0]));
            assert(v.contains(v[1]));
            lemma_kinds_contains(ks, v[0]);
            lemma_kinds_contains(ks, v[1]);
            assert(possible_kind(ws, id, v[0]));
            assert(possible_kind(ws, id, v[1]));
            assert(v[0].spec_index() < v[1].spec_index());
        }
    }
}

} // verus!

verus! {

/// The worlds consistent with the moves observed so far.
#[derive(Debug)]
pub struct HiddenState {
    /// The candidate worlds, in the order they were reached.
    pub worlds: Vec<ConcreteWorld>,
    /// Variable pieces whose kind became certain, in the order they did;
    /// they are ordinary pieces in every world from then on.
    pub resolved: Vec<(VariableId, Kind)>,
    /// The defender's first move need not answer a check.
    pub free_white_move: bool,
    pub rule: MateRule,
    pub hand_variable_mode: HandVariableMode,
}

impl HiddenState {
    /// The views of the worlds.
    pub open spec fn ws(&self) -> Seq<WorldView> {
        worlds_view(self.worlds@)
    }

    pub open spec fn wf(&self) -> bool {
        &&& self.worlds@.len() > 0
        &&& worlds_wf(self.ws())
    }

    /// A state over `worlds`, with the variable pieces whose kind is the same
    /// in every world turned into ordinary pieces and recorded as resolved.
    fn with_resolved(
        worlds: Vec<ConcreteWorld>,
        resolved: Vec<(VariableId, Kind)>,
        free_white_move: bool,
        rule: MateRule,
        hand_variable_mode: HandVariableMode,
    ) -> (s: HiddenState)
        requires
            worlds@.len() > 0,
            worlds_wf(worlds_view(worlds@)),
        ensures
            s.wf(),
            s.ws() == settle_all(worlds_view(worlds@)),
            forall|id: VariableId| #[trigger] lookup(s.resolved@, id) == resolved_after(worlds_view(worlds@), resolved@, id),
            s.free_white_move == free_white_move,
            s.rule == rule,
            s.hand_variable_mode == hand_variable_mode,
    {
        let ghost ws = worlds_view(worlds@);
        let ghost res0 = resolved@;
        let ids = all_ids(&worlds);
        let mut resolved = resolved;
        let mut settled_ids: Vec<VariableId> = Vec::new();
        let mut n: usize = 0;
        while n < ids.len()
            invariant
                n <= ids@.len(),
                ws == worlds_view(worlds@),
                worlds_wf(ws),
                forall|a: VariableId| ids@.contains(a) <==> appears(ws, a),
                forall|a: VariableId| #[trigger] settled_ids@.contains(a) <==> (ids@.take(n as int).contains(a) && settled(ws, a)),
                forall|a: VariableId| #[trigger] lookup(resolved@, a) == if ids@.take(n as int).contains(a) && settled(ws, a) {
                    Some(settled_value(ws, a))
                } else {
                    lookup(res0, a)
                },
            decreases ids@.len() - n,
        {
            let id = ids[n];
            let ks = kinds_of(&worlds, id);
            let v = ks.iter();
            proof {
                lemma_single_kind(ws, id, ks);
            }
            let ghost prev_res = resolved@;
            let ghost prev_ids = settled_ids@;
            if v.len() == 1 {
                resolved.push((id, v[0]));
                settled_ids.push(id);
            }
            proof {
                crate::world::lemma_take_contains(ids@, n as int, id);
                assert(ids@[n as int] == id);
                assert forall|a: VariableId| #[trigger] settled_ids@.contains(a) <==> (ids@.take(n + 1).contains(a) && settled(ws, a)) by {
                    crate::world::lemma_take_contains(ids@, n as int, a);
                    if v.len() == 1 {
                        crate::world::lemma_push_contains(prev_ids, id, a);
                    }
                }
                assert forall|a: VariableId| #[trigger] lookup(resolved@, a) == if ids@.take(n + 1).contains(a) && settled(ws, a) {
                    Some(settled_value(ws, a))
                } else {
                    lookup(res0, a)
                } by {
                    crate::world::lemma_take_contains(ids@, n as int, a);
                    if v.len() == 1 {
                        assert(resolved@.drop_last() =~= prev_res);
                        assert(lookup(resolved@, a) == if a == id { Some(v@[0]) } else { lookup(prev_res, a) });
                    }
                }
            }
            n = n + 1;
        }
        proof {
            assert(ids@.take(ids@.len() as int) =~= ids@);
            assert forall|a: VariableId| settled_ids@.contains(a) <==> settled(ws, a) by {
                if settled(ws, a) {
                    lemma_settled_appears(ws, a);
                }
            }
            assert(crate::world::not_listed(settled_ids@) =~= unsettled(ws));
            assert(crate::world::not_listed_id(settled_ids@) =~= unsettled_id(ws));
        }
        let mut next: Vec<ConcreteWorld> = Vec::new();
        let mut i: usize = 0;
        while i < worlds.len()
            invariant
                i <= worlds@.len(),
                ws == worlds_view(worlds@),
                worlds_wf(ws),
                crate::world::not_listed(settled_ids@) == unsettled(ws),
                crate::world::not_listed_id(settled_ids@) == unsettled_id(ws),
                next@.len() == i,
                forall|j: int| 0 <= j < i ==> (#[trigger] next@[j])@ == settle(ws[j], ws) && next@[j]@.wf(),
            decreases worlds@.len() - i,
        {
            assert(ws[i as int] == worlds@[i as int]@);
            let w = worlds[i].without_variables(&settled_ids);
            next.push(w);
            i = i + 1;
        }
        let s = HiddenState { worlds: next, resolved, free_white_move, rule, hand_variable_mode };
        proof {
            assert(s.ws() =~= settle_all(ws));
            assert forall|j: int| 0 <= j < s.ws().len() implies (#[trigger] s.ws()[j]).wf() by {
                assert(s.ws()[j] == next@[j]@);
            }
            assert forall|id: VariableId| #[trigger] lookup(s.resolved@, id) == resolved_after(ws, res0, id) by {
                if settled(ws, id) {
                    lemma_settled_appears(ws, id);
                }
            }
        }
        s
    }
}

} // verus!

verus! {

/// Some candidate of `s` is observed as `o`.
pub open spec fn observed_in(s: Seq<Candidate>, o: ObservedMove) -> bool {
    exists|a: int| 0 <= a < s.len() && (#[trigger] s[a]).0 == o
}

proof fn lemma_observed_in_take(s: Seq<Candidate>, j: int)
    requires
        0 <= j < s.len(),
    ensures
        forall|o: ObservedMove| #[trigger] observed_in(s.take(j + 1), o) <==> (observed_in(s.take(j), o) || s[j].0 == o),
{
    let t0 = s.take(j);
    let t1 = s.take(j + 1);
    assert forall|o: ObservedMove| #[trigger] observed_in(t1, o) <==> (observed_in(t0, o) || s[j].0 == o) by {
        if observed_in(t1, o) {
            let a = choose|a: int| 0 <= a < t1.len() && (#[trigger] t1[a]).0 == o;
            if a < j {
                assert(t0[a].0 == o);
            }
        }
        if observed_in(t0, o) {
            let a = choose|a: int| 0 <= a < t0.len() && (#[trigger] t0[a]).0 == o;
            assert(t1[a].0 == o);
        }
        if s[j].0 == o {
            assert(t1[j].0 == o);
        }
    }
}

/// Adds the observed forms of `cands` to a list kept in key order.
fn add_observed(r: &mut Vec<ObservedMove>, cands: &Vec<Candidate>)
    requires
        increasing_keys(old(r)@),
        all_observed_wf(old(r)@),
        forall|a: int| 0 <= a < cands@.len() ==> observed_wf((#[trigger] cands@[a]).0),
    ensures
        increasing_keys(final(r)@),
        all_observed_wf(final(r)@),
        forall|o: ObservedMove| #[trigger] final(r)@.contains(o) <==> (old(r)@.contains(o) || observed_in(cands@, o)),
{
    let mut j: usize = 0;
    while j < cands.len()
        invariant
            j <= cands@.len(),
            increasing_keys(r@),
            all_observed_wf(r@),
            forall|a: int| 0 <= a < cands@.len() ==> observed_wf((#[trigger] cands@[a]).0),
            forall|o: ObservedMove| r@.contains(o) <==> (old(r)@.contains(o) || observed_in(cands@.take(j as int), o)),
        decreases cands@.len() - j,
    {
        let o = cands[j].0;
        insert_observed(r, o);
        proof {
            lemma_observed_in_take(cands@, j as int);
        }
        j = j + 1;
    }
    proof {
        assert(cands@.take(cands@.len() as int) =~= cands@);
    }
}

proof fn lemma_observable_step(ws: Seq<WorldView>, free: bool, mode: HandVariableMode, i: int)
    requires
        0 <= i < ws.len(),
    ensures
        forall|o: ObservedMove| #[trigger] observable_upto(ws, free, mode, o, i + 1) <==> (
            observable_upto(ws, free, mode, o, i) || observed_in(world_candidates(ws[i], free, mode), o)),
{
    let c = world_candidates(ws[i], free, mode);
    assert forall|o: ObservedMove| #[trigger] observable_upto(ws, free, mode, o, i + 1) <==> (
        observable_upto(ws, free, mode, o, i) || observed_in(c, o)) by {
        if observable_upto(ws, free, mode, o, i + 1) {
            let (a, b) = choose|a: int, b: int|
                0 <= a < i + 1 && 0 <= b < world_candidates(ws[a], free, mode).len() && (#[trigger] world_candidates(ws[a], free, mode)[b]).0 == o;
            if a == i {
                assert(c[b].0 == o);
            } else {
                assert(world_candidates(ws[a], free, mode)[b].0 == o);
            }
        }
        if observable_upto(ws, free, mode, o, i) {
            let (a, b) = choose|a: int, b: int|
                0 <= a < i && 0 <= b < world_candidates(ws[a], free, mode).len() && (#[trigger] world_candidates(ws[a], free, mode)[b]).0 == o;
            assert(world_candidates(ws[a], free, mode)[b].0 == o);
        }
        if observed_in(c, o) {
            let b = choose|b: int| 0 <= b < c.len() && (#[trigger] c[b]).0 == o;
            assert(world_candidates(ws[i], free, mode)[b].0 == o);
        }
    }
}

/// The kinds listed for `id`: the resolved kind, or every kind some world
/// gives it, in index order.
pub open spec fn candidate_kinds(ws: Seq<WorldView>, res: Seq<(VariableId, Kind)>, id: VariableId) -> Seq<Kind> {
    match lookup(res, id) {
        Some(k) => seq![k],
        None => crate::kind_set::kind_seq().filter(possible_pred(ws, id)),
    }
}

/// Some candidate of one of the first `n` worlds is observed as `o`.
pub open spec fn observable_upto(
    ws: Seq<WorldView>,
    free: bool,
    mode: HandVariableMode,
    o: ObservedMove,
    n: int,
) -> bool {
    exists|i: int, j: int|
        0 <= i < n && 0 <= j < world_candidates(ws[i], free, mode).len() && (#[trigger] world_candidates(
            ws[i],
            free,
            mode,
        )[j]).0 == o
}

/// Some candidate of some world is observed as `o`.
pub open spec fn observable(ws: Seq<WorldView>, free: bool, mode: HandVariableMode, o: ObservedMove) -> bool {
    observable_upto(ws, free, mode, o, ws.len() as int)
}

pub open spec fn matching(o: ObservedMove) -> spec_fn(Candidate) -> bool {
    |t: Candidate| t.0 == o
}

pub open spec fn after(w: WorldView, o: ObservedMove) -> spec_fn(Candidate) -> WorldView {
    |t: Candidate| apply_world(w, o, t.1, t.2)
}

/// The worlds that follow `w` when `o` is observed, one for each candidate
/// observed as `o`.
pub open spec fn world_successors(w: WorldView, free: bool, mode: HandVariableMode, o: ObservedMove) -> Seq<WorldView> {
    world_candidates(w, free, mode).filter(matching(o)).map_values(after(w, o))
}

pub open spec fn successors_upto(
    ws: Seq<WorldView>,
    free: bool,
    mode: HandVariableMode,
    o: ObservedMove,
    n: int,
) -> Seq<WorldView>
    decreases n,
{
    if n <= 0 {
        Seq::empty()
    } else {
        successors_upto(ws, free, mode, o, n - 1) + world_successors(ws[n - 1], free, mode, o)
    }
}

/// The worlds that follow all worlds of `ws` when `o` is observed.
pub open spec fn successors(ws: Seq<WorldView>, free: bool, mode: HandVariableMode, o: ObservedMove) -> Seq<WorldView> {
    successors_upto(ws, free, mode, o, ws.len() as int)
}

proof fn lemma_observable_upto(ws: Seq<WorldView>, free: bool, mode: HandVariableMode, o: ObservedMove, n: int)
    requires
        0 <= n <= ws.len(),
    ensures
        observable_upto(ws, free, mode, o, n) <==> successors_upto(ws, free, mode, o, n).len() > 0,
    decreases n,
{
    if n > 0 {
        lemma_observable_upto(ws, free, mode, o, n - 1);
        let cs = world_candidates(ws[n - 1], free, mode);
        let f = cs.filter(matching(o));
        assert(world_successors(ws[n - 1], free, mode, o).len() == f.len());
        if exists|j: int| 0 <= j < cs.len() && (#[trigger] cs[j]).0 == o {
            let j = choose|j: int| 0 <= j < cs.len() && (#[trigger] cs[j]).0 == o;
            cs.lemma_filter_contains(matching(o), j);
            assert(f.len() > 0);
            assert(observable_upto(ws, free, mode, o, n)) by {
                assert(0 <= n - 1 < n && 0 <= j < world_candidates(ws[n - 1], free, mode).len()
                    && world_candidates(ws[n - 1], free, mode)[j].0 == o);
            }
        } else {
            if f.len() > 0 {
                cs.lemma_filter_pred(matching(o), 0);
                assert(f.contains(f[0]));
                cs.lemma_filter_contains_rev(matching(o), f[0]);
                let j = choose|j: int| 0 <= j < cs.len() && cs[j] == f[0];
                assert(cs[j].0 == o);
            }
            if observable_upto(ws, free, mode, o, n) {
                let (i, j) = choose|i: int, j: int|
                    0 <= i < n && 0 <= j < world_candidates(ws[i], free, mode).len() && (#[trigger] world_candidates(
                        ws[i],
                        free,
                        mode,
                    )[j]).0 == o;
                if i < n - 1 {
                    assert(observable_upto(ws, free, mode, o, n - 1));
                } else {
                    assert(cs[j].0 == o);
                }
            }
        }
    }
}

/// A move is observed in some world exactly when some world follows it: the
/// observed moves of a state are those it can be advanced by.
pub proof fn lemma_observable_successors(ws: Seq<WorldView>, free: bool, mode: HandVariableMode, o: ObservedMove)
    ensures
        observable(ws, free, mode, o) <==> successors(ws, free, mode, o).len() > 0,
{
    lemma_observable_upto(ws, free, mode, o, ws.len() as int);
}

/// Each world in `ws` has `t` to move.
pub open spec fn all_to_move(ws: Seq<WorldView>, t: Color) -> bool {
    forall|i: int| 0 <= i < ws.len() ==> (#[trigger] ws[i]).pos.turn == t
}

proof fn lemma_successors_upto_turn(
    ws: Seq<WorldView>,
    free: bool,
    mode: HandVariableMode,
    o: ObservedMove,
    n: int,
    t: Color,
)
    requires
        0 <= n <= ws.len(),
        all_to_move(ws, t),
    ensures
        all_to_move(successors_upto(ws, free, mode, o, n), t.spec_opposite()),
    decreases n,
{
    if n > 0 {
        lemma_successors_upto_turn(ws, free, mode, o, n - 1, t);
        let w = ws[n - 1];
        let f = world_candidates(w, free, mode).filter(matching(o));
        let ss = world_successors(w, free, mode, o);
        assert forall|j: int| 0 <= j < ss.len() implies (#[trigger] ss[j]).pos.turn == t.spec_opposite() by {
            assert(ss[j] == apply_world(w, o, f[j].1, f[j].2));
            crate::moves::lemma_apply_turn(w.pos, f[j].1);
        }
        let a = successors_upto(ws, free, mode, o, n - 1);
        assert forall|j: int| 0 <= j < (a + ss).len() implies (#[trigger] (a + ss)[j]).pos.turn == t.spec_opposite() by {
            if j < a.len() {
                assert((a + ss)[j] == a[j]);
            } else {
                assert((a + ss)[j] == ss[j - a.len()]);
            }
        }
    }
}

/// After a move every world has the other side to move: when all worlds of
/// a state have `t` to move, all worlds the move leads to have the other
/// side to move.
pub proof fn lemma_after_move_turn(ws: Seq<WorldView>, free: bool, mode: HandVariableMode, o: ObservedMove, t: Color)
    requires
        all_to_move(ws, t),
    ensures
        all_to_move(settle_all(successors(ws, free, mode, o)), t.spec_opposite()),
{
    lemma_successors_upto_turn(ws, free, mode, o, ws.len() as int, t);
    let succ = successors(ws, free, mode, o);
    assert forall|j: int| 0 <= j < settle_all(succ).len() implies (#[trigger] settle_all(succ)[j]).pos.turn
        == t.spec_opposite() by {
        assert(settle_all(succ)[j] == settle(succ[j], succ));
    }
}

/// The worlds `ws` go on consistently: all have the side to move of the
/// first, and no variable piece whose kind is recorded in `res` is still
/// variable in any of them.
pub open spec fn consistent(ws: Seq<WorldView>, res: Seq<(VariableId, Kind)>) -> bool {
    &&& all_to_move(ws, ws[0].pos.turn)
    &&& forall|id: VariableId| #[trigger] lookup(res, id) is Some ==> !appears(ws, id)
}

/// The worlds `ws2` with the resolved kinds `res2` carry on from `ws` with
/// `res`: they are consistent, have the other side to move, and keep every
/// kind already resolved.
#[verifier::opaque]
pub open spec fn carries_on(
    ws: Seq<WorldView>,
    res: Seq<(VariableId, Kind)>,
    ws2: Seq<WorldView>,
    res2: Seq<(VariableId, Kind)>,
) -> bool {
    &&& consistent(ws2, res2)
    &&& ws2[0].pos.turn == ws[0].pos.turn.spec_opposite()
    &&& forall|id: VariableId| #[trigger] lookup(res, id) is Some ==> lookup(res2, id) == lookup(res, id)
}

/// What `carries_on` says.
pub proof fn lemma_carries_on(ws: Seq<WorldView>, res: Seq<(VariableId, Kind)>, ws2: Seq<WorldView>, res2: Seq<(VariableId, Kind)>)
    requires
        carries_on(ws, res, ws2, res2),
    ensures
        consistent(ws2, res2),
        all_to_move(ws2, ws[0].pos.turn.spec_opposite()),
        forall|id: VariableId| #[trigger] lookup(res, id) is Some ==> lookup(res2, id) == lookup(res, id),
{
    reveal(carries_on);
}

/// The variable pieces of a world that follows `w` are those of `w`.
proof fn lemma_world_successors_ids(w: WorldView, free: bool, mode: HandVariableMode, o: ObservedMove, id: VariableId)
    requires
        !has_id(w.vars, id),
    ensures
        forall|j: int|
            0 <= j < world_successors(w, free, mode, o).len() ==> !has_id(
                #[trigger] world_successors(w, free, mode, o)[j].vars,
                id,
            ),
{
    let f = world_candidates(w, free, mode).filter(matching(o));
    assert forall|j: int| 0 <= j < world_successors(w, free, mode, o).len() implies !has_id(
        #[trigger] world_successors(w, free, mode, o)[j].vars,
        id,
    ) by {
        let x = world_successors(w, free, mode, o)[j];
        assert(x == apply_world(w, o, f[j].1, f[j].2));
        if has_id(x.vars, id) {
            let t = choose|t: int| 0 <= t < x.vars.len() && #[trigger] x.vars[t].id == id;
            assert(x.vars[t].id == w.vars[t].id);
        }
    }
}

/// A variable piece in no world stays in no world after a move.
proof fn lemma_successors_ids(ws: Seq<WorldView>, free: bool, mode: HandVariableMode, o: ObservedMove, id: VariableId, n: int)
    requires
        0 <= n <= ws.len(),
        !appears(ws, id),
    ensures
        !appears(successors_upto(ws, free, mode, o, n), id),
    decreases n,
{
    if n > 0 {
        lemma_successors_ids(ws, free, mode, o, id, n - 1);
        assert(!has_id(ws[n - 1].vars, id));
        lemma_world_successors_ids(ws[n - 1], free, mode, o, id);
        let a = successors_upto(ws, free, mode, o, n - 1);
        let b = world_successors(ws[n - 1], free, mode, o);
        assert forall|i: int| 0 <= i < (a + b).len() implies !has_id(#[trigger] (a + b)[i].vars, id) by {
            if i < a.len() {
                assert((a + b)[i] == a[i]);
            } else {
                assert((a + b)[i] == b[i - a.len()]);
            }
        }
    }
}

/// Settling keeps every position.
pub proof fn lemma_settle_all_pos(ws: Seq<WorldView>)
    ensures
        settle_all(ws).len() == ws.len(),
        forall|i: int| 0 <= i < ws.len() ==> (#[trigger] settle_all(ws)[i]).pos == ws[i].pos,
{
}

/// After settling, no settled piece, nor one in no world before, is
/// variable in any world.
pub proof fn lemma_settle_all_ids(ws: Seq<WorldView>, id: VariableId)
    requires
        settled(ws, id) || !appears(ws, id),
    ensures
        !appears(settle_all(ws), id),
{
    assert forall|i: int| 0 <= i < settle_all(ws).len() implies !has_id(#[trigger] settle_all(ws)[i].vars, id) by {
        let v = ws[i].vars.filter(unsettled(ws));
        assert(settle_all(ws)[i].vars == v);
        if has_id(v, id) {
            let t = choose|t: int| 0 <= t < v.len() && #[trigger] v[t].id == id;
            ws[i].vars.lemma_filter_pred(unsettled(ws), t);
            assert(v.contains(v[t]));
            ws[i].vars.lemma_filter_contains_rev(unsettled(ws), v[t]);
            let u = choose|u: int| 0 <= u < ws[i].vars.len() && ws[i].vars[u] == v[t];
            assert(has_id(ws[i].vars, id));
        }
    }
}

/// A move keeps the worlds consistent, passes the turn in every world, and
/// keeps every kind already resolved.
pub proof fn lemma_move_consistent(
    ws: Seq<WorldView>,
    res: Seq<(VariableId, Kind)>,
    free: bool,
    mode: HandVariableMode,
    o: ObservedMove,
    next_res: Seq<(VariableId, Kind)>,
)
    requires
        consistent(ws, res),
        successors(ws, free, mode, o).len() > 0,
        forall|id: VariableId| #[trigger] lookup(next_res, id) == resolved_after(successors(ws, free, mode, o), res, id),
    ensures
        consistent(settle_all(successors(ws, free, mode, o)), next_res),
        settle_all(successors(ws, free, mode, o))[0].pos.turn == ws[0].pos.turn.spec_opposite(),
        forall|id: VariableId| #[trigger] lookup(res, id) is Some ==> lookup(next_res, id) == lookup(res, id),
{
    let succ = successors(ws, free, mode, o);
    let t = ws[0].pos.turn;
    lemma_after_move_turn(ws, free, mode, o, t);
    assert forall|id: VariableId| #[trigger] lookup(res, id) is Some implies lookup(next_res, id) == lookup(res, id) by {
        lemma_successors_ids(ws, free, mode, o, id, ws.len() as int);
        if settled(succ, id) {
            lemma_settled_appears(succ, id);
        }
    }
    assert forall|id: VariableId| #[trigger] lookup(next_res, id) is Some implies !appears(settle_all(succ), id) by {
        if lookup(res, id) is Some {
            lemma_successors_ids(ws, free, mode, o, id, ws.len() as int);
        }
        lemma_settle_all_ids(succ, id);
    }
    assert(settle_all(succ)[0].pos.turn == t.spec_opposite());
}

/// The rule's target king is mated in world `w`: for a helpmate white, to
/// move, is in check with no legal move and not by a pawn drop; for a help
/// selfmate black is mated after white's move.
pub open spec fn mated(w: WorldView, rule: MateRule) -> bool {
    match rule {
        MateRule::HelpSelfmate => crate::help_selfmate::help_selfmate_end(w.pos),
        _ => {
            &&& w.pos.turn == Color::White
            &&& crate::rules::in_check(w.pos, Color::White)
            &&& !w.pos.pawn_drop
            &&& forall|m: Movement| !legal(w.pos, m)
        },
    }
}

/// The target king is mated in every world, on the rule's terminal turn.
pub open spec fn proven_mate(ws: Seq<WorldView>, rule: MateRule) -> bool {
    &&& ws[0].pos.turn == rule.spec_terminal_turn()
    &&& forall|i: int| 0 <= i < ws.len() ==> mated(#[trigger] ws[i], rule)
}

/// Whether world `w` is mated under `rule`.
fn world_mated(w: &ConcreteWorld, rule: MateRule) -> (r: bool)
    requires
        w@.wf(),
    ensures
        r == mated(w@, rule),
{
    match rule {
        MateRule::HelpSelfmate => crate::help_selfmate::is_help_selfmate(&w.position),
        _ => {
            let (moves, flag) = advance(&w.position);
            proof {
                if flag && moves@.len() > 0 {
                    assert(moves@.contains(moves@[0]));
                }
            }
            flag && moves.len() == 0
        },
    }
}

impl HiddenState {
    /// A state over the initial worlds of a problem: the variable pieces
    /// that are certain from the start become ordinary, and a defender who
    /// moves first may move without being in check.
    pub fn new_with_hand_variable_mode(
        worlds: Vec<ConcreteWorld>,
        rule: MateRule,
        hand_variable_mode: HandVariableMode,
    ) -> (s: HiddenState)
        requires
            worlds@.len() > 0,
            worlds_wf(worlds_view(worlds@)),
        ensures
            s.wf(),
            s.ws() == settle_all(worlds_view(worlds@)),
            forall|id: VariableId| #[trigger] lookup(s.resolved@, id) == resolved_after(worlds_view(worlds@), Seq::empty(), id),
            s.free_white_move == (worlds@[0].position.turn == Color::White),
            s.rule == rule,
            s.hand_variable_mode == hand_variable_mode,
    {
        let free_white_move = worlds[0].position.turn.is_white();
        let resolved: Vec<(VariableId, Kind)> = Vec::new();
        proof {
            assert(resolved@ =~= Seq::<(VariableId, Kind)>::empty());
        }
        HiddenState::with_resolved(worlds, resolved, free_white_move, rule, hand_variable_mode)
    }

    /// As `new_with_hand_variable_mode`, with hand pieces indistinguishable.
    pub fn new(worlds: Vec<ConcreteWorld>, rule: MateRule) -> (s: HiddenState)
        requires
            worlds@.len() > 0,
            worlds_wf(worlds_view(worlds@)),
        ensures
            s.wf(),
            s.ws() == settle_all(worlds_view(worlds@)),
            forall|id: VariableId| #[trigger] lookup(s.resolved@, id) == resolved_after(worlds_view(worlds@), Seq::empty(), id),
            s.free_white_move == (worlds@[0].position.turn == Color::White),
            s.rule == rule,
            s.hand_variable_mode == HandVariableMode::Indistinguishable,
    {
        HiddenState::new_with_hand_variable_mode(worlds, rule, HandVariableMode::default())
    }

    pub fn worlds(&self) -> (r: &Vec<ConcreteWorld>)
        ensures
            r == &self.worlds,
    {
        &self.worlds
    }

    pub fn world_count(&self) -> (r: usize)
        ensures
            r == self.worlds@.len(),
    {
        self.worlds.len()
    }

    /// The side to move.
    pub fn turn(&self) -> (c: Color)
        requires
            self.wf(),
        ensures
            c == self.ws()[0].pos.turn,
    {
        self.worlds[0].position.turn
    }

    pub fn rule(&self) -> (r: MateRule)
        ensures
            r == self.rule,
    {
        self.rule
    }

    pub fn hand_variable_mode(&self) -> (r: HandVariableMode)
        ensures
            r == self.hand_variable_mode,
    {
        self.hand_variable_mode
    }

    /// The kind of the variable piece `id` once it is certain.
    pub fn resolved_kind(&self, id: VariableId) -> (r: Option<Kind>)
        ensures
            r == lookup(self.resolved@, id),
    {
        let mut i: usize = self.resolved.len();
        proof {
            assert(self.resolved@.take(i as int) =~= self.resolved@);
        }
        while i > 0
            invariant
                i <= self.resolved@.len(),
                lookup(self.resolved@, id) == lookup(self.resolved@.take(i as int), id),
            decreases i,
        {
            let (a, k) = self.resolved[i - 1];
            proof {
                let t = self.resolved@.take(i as int);
                assert(t.last() == (a, k));
                assert(t.drop_last() =~= self.resolved@.take(i - 1));
            }
            if a == id {
                return Some(k);
            }
            i = i - 1;
        }
        None
    }

    /// The kinds the variable piece `id` may have, in index order.
    pub fn candidates(&self, id: VariableId) -> (r: Vec<Kind>)
        requires
            self.wf(),
        ensures
            r@ == candidate_kinds(self.ws(), self.resolved@, id),
    {
        match self.resolved_kind(id) {
            Some(k) => {
                let mut r = Vec::new();
                r.push(k);
                proof {
                    assert(r@ =~= seq![k]);
                }
                r
            },
            None => {
                let ks = kinds_of(&self.worlds, id);
                proof {
                    assert((|k: Kind| ks.has(k)) =~= possible_pred(self.ws(), id));
                }
                ks.iter()
            },
        }
    }

    /// The observed moves possible in at least one world, in key order.
    pub fn observed_moves(&self) -> (r: Vec<ObservedMove>)
        requires
            self.wf(),
        ensures
            increasing_keys(r@),
            forall|o: ObservedMove| r@.contains(o) <==> observable(self.ws(), self.free_white_move, self.hand_variable_mode, o),
    {
        let ghost ws = self.ws();
        let free = self.free_white_move;
        let mode = self.hand_variable_mode;
        let mut r: Vec<ObservedMove> = Vec::new();
        let mut i: usize = 0;
        while i < self.worlds.len()
            invariant
                i <= self.worlds@.len(),
                ws == self.ws(),
                self.wf(),
                free == self.free_white_move,
                mode == self.hand_variable_mode,
                increasing_keys(r@),
                all_observed_wf(r@),
                forall|o: ObservedMove| r@.contains(o) <==> observable_upto(ws, free, mode, o, i as int),
            decreases self.worlds@.len() - i,
        {
            assert(ws[i as int] == self.worlds@[i as int]@);
            let cands = concrete_moves(&self.worlds[i], free, mode);
            let ghost before = r@;
            add_observed(&mut r, &cands);
            proof {
                assert(cands@ == world_candidates(ws[i as int], free, mode));
                lemma_observable_step(ws, free, mode, i as int);
                assert forall|o: ObservedMove| r@.contains(o) <==> observable_upto(ws, free, mode, o, i + 1) by {
                    assert(before.contains(o) <==> observable_upto(ws, free, mode, o, i as int));
                    assert(r@.contains(o) <==> (before.contains(o) || observed_in(cands@, o)));
                    assert(observable_upto(ws, free, mode, o, i + 1) <==> (
                        observable_upto(ws, free, mode, o, i as int) || observed_in(cands@, o)));
                }
            }
            i = i + 1;
        }
        r
    }
}

} // verus!

verus! {

/// Appends to `next` the worlds that follow `w` through the candidates
/// observed as `o`.
fn add_successors(next: &mut Vec<ConcreteWorld>, w: &ConcreteWorld, cands: &Vec<Candidate>, o: ObservedMove)
    requires
        w@.wf(),
        forall|a: int| 0 <= a < cands@.len() ==> legal(w@.pos, (#[trigger] cands@[a]).1),
        worlds_wf(worlds_view(old(next)@)),
    ensures
        worlds_view(final(next)@) == worlds_view(old(next)@) + cands@.filter(matching(o)).map_values(after(w@, o)),
        worlds_wf(worlds_view(final(next)@)),
{
    let ghost start = worlds_view(next@);
    let mut j: usize = 0;
    while j < cands.len()
        invariant
            j <= cands@.len(),
            w@.wf(),
            forall|a: int| 0 <= a < cands@.len() ==> legal(w@.pos, (#[trigger] cands@[a]).1),
            worlds_view(next@) == start + cands@.take(j as int).filter(matching(o)).map_values(after(w@, o)),
            worlds_wf(worlds_view(next@)),
        decreases cands@.len() - j,
    {
        let t = cands[j];
        let ghost prev = next@;
        proof {
            assert(cands@.take(j + 1) =~= cands@.take(j as int).push(t));
            cands@.take(j as int).lemma_filter_push(t, matching(o));
        }
        if t.0 == o {
            let n = w.apply(o, t.1, t.2);
            next.push(n);
            proof {
                let f = cands@.take(j as int).filter(matching(o));
                assert(f.push(t).map_values(after(w@, o)) =~= f.map_values(after(w@, o)).push(after(w@, o)(t)));
                assert(worlds_view(next@) =~= worlds_view(prev).push(n@));
            }
        }
        j = j + 1;
    }
    proof {
        assert(cands@.take(cands@.len() as int) =~= cands@);
    }
}

/// A copy of a list of resolved kinds.
fn copy_resolved(v: &Vec<(VariableId, Kind)>) -> (r: Vec<(VariableId, Kind)>)
    ensures
        r@ == v@,
{
    let mut r: Vec<(VariableId, Kind)> = Vec::new();
    let mut i: usize = 0;
    while i < v.len()
        invariant
            i <= v@.len(),
            r@ == v@.take(i as int),
        decreases v@.len() - i,
    {
        let (a, k) = v[i];
        r.push((a, k));
        proof {
            assert(v@.take(i + 1) =~= v@.take(i as int).push(v@[i as int]));
        }
        i = i + 1;
    }
    proof {
        assert(v@.take(v@.len() as int) =~= v@);
    }
    r
}

/// The recorded kind of `id` exists exactly when some entry names `id`.
pub proof fn lemma_lookup_some(res: Seq<(VariableId, Kind)>, id: VariableId)
    ensures
        lookup(res, id) is Some <==> exists|k: int| 0 <= k < res.len() && (#[trigger] res[k]).0 == id,
    decreases res.len(),
{
    if res.len() > 0 {
        lemma_lookup_some(res.drop_last(), id);
        if exists|k: int| 0 <= k < res.len() && (#[trigger] res[k]).0 == id {
            let k = choose|k: int| 0 <= k < res.len() && (#[trigger] res[k]).0 == id;
            if k < res.len() - 1 {
                assert(res.drop_last()[k].0 == id);
            }
        }
        if exists|k: int| 0 <= k < res.drop_last().len() && (#[trigger] res.drop_last()[k]).0 == id {
            let k = choose|k: int| 0 <= k < res.drop_last().len() && (#[trigger] res.drop_last()[k]).0 == id;
            assert(res[k].0 == id);
        }
    }
}

impl HiddenState {
    /// The state after observing `observed`: only the worlds where a
    /// concrete move shows as `observed` remain, each advanced by that move;
    /// `None` when no world allows it.
    pub fn apply(&self, observed: ObservedMove) -> (r: Option<HiddenState>)
        requires
            self.wf(),
        ensures
            match r {
                None => successors(self.ws(), self.free_white_move, self.hand_variable_mode, observed).len() == 0,
                Some(n) => {
                    let succ = successors(self.ws(), self.free_white_move, self.hand_variable_mode, observed);
                    &&& succ.len() > 0
                    &&& n.wf()
                    &&& n.ws() == settle_all(succ)
                    &&& forall|id: VariableId| #[trigger] lookup(n.resolved@, id) == resolved_after(succ, self.resolved@, id)
                    &&& !n.free_white_move
                    &&& n.rule == self.rule
                    &&& n.hand_variable_mode == self.hand_variable_mode
                    &&& consistent(self.ws(), self.resolved@) ==> carries_on(self.ws(), self.resolved@, n.ws(), n.resolved@)
                },
            },
    {
        let ghost ws = self.ws();
        let free = self.free_white_move;
        let mode = self.hand_variable_mode;
        let mut next: Vec<ConcreteWorld> = Vec::new();
        let mut i: usize = 0;
        while i < self.worlds.len()
            invariant
                i <= self.worlds@.len(),
                ws == self.ws(),
                self.wf(),
                free == self.free_white_move,
                mode == self.hand_variable_mode,
                worlds_view(next@) == successors_upto(ws, free, mode, observed, i as int),
                worlds_wf(worlds_view(next@)),
            decreases self.worlds@.len() - i,
        {
            assert(ws[i as int] == self.worlds@[i as int]@);
            let cands = concrete_moves(&self.worlds[i], free, mode);
            add_successors(&mut next, &self.worlds[i], &cands, observed);
            i = i + 1;
        }
        if next.len() == 0 {
            None
        } else {
            let resolved = copy_resolved(&self.resolved);
            let n = HiddenState::with_resolved(next, resolved, false, self.rule, mode);
            proof {
                if consistent(self.ws(), self.resolved@) {
                    lemma_move_consistent(self.ws(), self.resolved@, free, mode, observed, n.resolved@);
                    reveal(carries_on);
                }
            }
            Some(n)
        }
    }

    /// Whether the rule's target king is mated in every remaining world.
    pub fn is_proven_mate(&self) -> (r: bool)
        requires
            self.wf(),
        ensures
            r == proven_mate(self.ws(), self.rule),
    {
        if self.turn() != self.rule.terminal_turn() {
            return false;
        }
        let ghost ws = self.ws();
        let mut i: usize = 0;
        while i < self.worlds.len()
            invariant
                i <= self.worlds@.len(),
                ws == self.ws(),
                self.wf(),
                forall|j: int| 0 <= j < i ==> mated(#[trigger] ws[j], self.rule),
            decreases self.worlds@.len() - i,
        {
            assert(ws[i as int] == self.worlds@[i as int]@);
            if !world_mated(&self.worlds[i], self.rule) {
                return false;
            }
            i = i + 1;
        }
        true
    }

    /// Every variable piece that some world has or that was resolved, by
    /// increasing id, with the kinds it may have.
    pub fn all_candidates(&self) -> (r: Vec<(VariableId, Vec<Kind>)>)
        requires
            self.wf(),
        ensures
            forall|a: int, b: int| 0 <= a < b < r@.len() ==> (#[trigger] r@[a]).0.0 < (#[trigger] r@[b]).0.0,
            forall|id: VariableId| (exists|a: int| 0 <= a < r@.len() && (#[trigger] r@[a]).0 == id) <==> (
                appears(self.ws(), id) || lookup(self.resolved@, id) is Some),
            forall|a: int| 0 <= a < r@.len() ==> (#[trigger] r@[a]).1@ == candidate_kinds(self.ws(), self.resolved@, r@[a].0),
    {
        let mut ids = all_ids(&self.worlds);
        let mut i: usize = 0;
        while i < self.resolved.len()
            invariant
                i <= self.resolved@.len(),
                increasing_ids(ids@),
                forall|a: VariableId| #[trigger] ids@.contains(a) <==> (appears(self.ws(), a) || exists|k: int| 0 <= k < i && (#[trigger] self.resolved@[k]).0 == a),
            decreases self.resolved@.len() - i,
        {
            let ghost prev = ids@;
            insert_id(&mut ids, self.resolved[i].0);
            proof {
                assert forall|a: VariableId| #[trigger] ids@.contains(a) <==> (appears(self.ws(), a) || exists|k: int| 0 <= k < i + 1 && (#[trigger] self.resolved@[k]).0 == a) by {
                    assert(prev.contains(a) <==> (appears(self.ws(), a) || exists|k: int| 0 <= k < i && (#[trigger] self.resolved@[k]).0 == a));
                    if exists|k: int| 0 <= k < i + 1 && (#[trigger] self.resolved@[k]).0 == a {
                        let k = choose|k: int| 0 <= k < i + 1 && (#[trigger] self.resolved@[k]).0 == a;
                        if k < i {
                            assert(prev.contains(a));
                        }
                    }
                    if prev.contains(a) && !appears(self.ws(), a) {
                        let k = choose|k: int| 0 <= k < i && (#[trigger] self.resolved@[k]).0 == a;
                        assert(0 <= k < i + 1);
                    }
                }
            }
            i = i + 1;
        }
        let mut r: Vec<(VariableId, Vec<Kind>)> = Vec::new();
        let mut n: usize = 0;
        while n < ids.len()
            invariant
                n <= ids@.len(),
                self.wf(),
                r@.len() == n,
                forall|a: int| 0 <= a < n ==> (#[trigger] r@[a]).0 == ids@[a],
                forall|a: int| 0 <= a < n ==> (#[trigger] r@[a]).1@ == candidate_kinds(self.ws(), self.resolved@, r@[a].0),
            decreases ids@.len() - n,
        {
            let id = ids[n];
            let ks = self.candidates(id);
            r.push((id, ks));
            n = n + 1;
        }
        proof {
            lemma_lookup_some_all(self.resolved@);
            assert forall|id: VariableId| (exists|a: int| 0 <= a < r@.len() && (#[trigger] r@[a]).0 == id) <==> (
                appears(self.ws(), id) || lookup(self.resolved@, id) is Some) by {
                if exists|a: int| 0 <= a < r@.len() && (#[trigger] r@[a]).0 == id {
                    let a = choose|a: int| 0 <= a < r@.len() && (#[trigger] r@[a]).0 == id;
                    assert(ids@[a] == id);
                    assert(ids@.contains(id));
                }
                if appears(self.ws(), id) || lookup(self.resolved@, id) is Some {
                    assert(ids@.contains(id));
                    let a = choose|a: int| 0 <= a < ids@.len() && ids@[a] == id;
                    assert(r@[a].0 == id);
                }
            }
        }
        r
    }

    /// A copy of this state.
    pub fn copy(&self) -> (r: HiddenState)
        ensures
            r.ws() == self.ws(),
            r.worlds@.len() == self.worlds@.len(),
            r.resolved@ == self.resolved@,
            r.free_white_move == self.free_white_move,
            r.rule == self.rule,
            r.hand_variable_mode == self.hand_variable_mode,
    {
        let mut worlds: Vec<ConcreteWorld> = Vec::new();
        let mut i: usize = 0;
        while i < self.worlds.len()
            invariant
                i <= self.worlds@.len(),
                worlds@.len() == i,
                forall|j: int| 0 <= j < i ==> (#[trigger] worlds@[j])@ == self.worlds@[j]@,
            decreases self.worlds@.len() - i,
        {
            worlds.push(self.worlds[i].copy());
            i = i + 1;
        }
        let r = HiddenState {
            worlds,
            resolved: copy_resolved(&self.resolved),
            free_white_move: self.free_white_move,
            rule: self.rule,
            hand_variable_mode: self.hand_variable_mode,
        };
        proof {
            assert(r.ws() =~= self.ws());
        }
        r
    }
}

proof fn lemma_lookup_some_all(res: Seq<(VariableId, Kind)>)
    ensures
        forall|id: VariableId| #[trigger] lookup(res, id) is Some <==> exists|k: int| 0 <= k < res.len() && (#[trigger] res[k]).0 == id,
{
    assert forall|id: VariableId| #[trigger] lookup(res, id) is Some <==> exists|k: int| 0 <= k < res.len() && (#[trigger] res[k]).0 == id by {
        lemma_lookup_some(res, id);
    }
}

} // verus!
