use vstd::prelude::*;

use crate::known_invisible::{
    changed, common, first_at, held, lists_of, invisible_location_wf, lemma_found_in, lemma_occurrence_in, lemma_occurrences_update,
    moved_piece, occurrences, piece_key, pieces_wf, same_pieces, same_world, same_world_exec, sorted_pieces,
    world_after, InvisibleLocation, InvisiblePiece, InvisibleWorld, KnownInvisibleError, KnownInvisibleObservedMove,
    KnownInvisibleState, MAX_WORLDS,
};
use crate::moves::{advance, apply, generated_seq, is_legal_mate, is_mate, legal, legal_movements, moved, playable};
use crate::observed::{DropIdentity, MoveIdentity, ObservedMove};
use crate::piece::{lemma_index_injective, Color, Kind};
use crate::rule::MateRule;
use crate::rules::in_check;
use crate::solver::{destination_text, japanese_kind, kind_name, texts_view, turn_after};
use crate::observed::square_text;
use crate::square::Square;
use vstd::string::StringExecFns;
use crate::position::{Cell, Movement, PositionView};

verus! {

/// Different pieces on valid locations have different keys.
pub proof fn lemma_piece_key_injective(x: InvisiblePiece, y: InvisiblePiece)
    requires
        invisible_location_wf(x.location),
        invisible_location_wf(y.location),
        piece_key(x) == piece_key(y),
    ensures
        x == y,
{
    let lx: int = match x.location {
        InvisibleLocation::Board(sq) => sq.idx as int,
        InvisibleLocation::Hand(c) => 81 + c.spec_index() as int,
    };
    let ly: int = match y.location {
        InvisibleLocation::Board(sq) => sq.idx as int,
        InvisibleLocation::Hand(c) => 81 + c.spec_index() as int,
    };
    let ax: int = (x.color.spec_index() * 14 + x.kind.spec_index()) as int;
    let ay: int = (y.color.spec_index() * 14 + y.kind.spec_index()) as int;
    assert(0 <= lx < 83 && 0 <= ly < 83);
    assert(ax * 83 + lx == ay * 83 + ly);
    assert(ax == ay && lx == ly) by (nonlinear_arith)
        requires
            ax * 83 + lx == ay * 83 + ly,
            0 <= lx < 83,
            0 <= ly < 83,
            ax >= 0,
            ay >= 0,
    ;
    assert(x.kind.spec_index() < 14 && y.kind.spec_index() < 14);
    assert(x.color.spec_index() == y.color.spec_index() && x.kind.spec_index() == y.kind.spec_index()) by (nonlinear_arith)
        requires
            x.color.spec_index() * 14 + x.kind.spec_index() == y.color.spec_index() * 14 + y.kind.spec_index(),
            x.kind.spec_index() < 14,
            y.kind.spec_index() < 14,
    ;
    lemma_index_injective(x.kind, y.kind);
    assert(x.color == y.color);
    match x.location {
        InvisibleLocation::Board(sx) => match y.location {
            InvisibleLocation::Board(sy) => {
                assert(sx.idx == sy.idx);
            },
            InvisibleLocation::Hand(_) => {},
        },
        InvisibleLocation::Hand(cx) => match y.location {
            InvisibleLocation::Board(_) => {},
            InvisibleLocation::Hand(cy) => {
                assert(cx.spec_index() == cy.spec_index());
            },
        },
    }
}

proof fn lemma_max_key(s: Seq<InvisiblePiece>, x: InvisiblePiece)
    requires
        sorted_pieces(s),
        occurrences(s, x) > 0,
    ensures
        s.len() > 0,
        piece_key(x) <= piece_key(s.last()),
{
    lemma_found_in(s, x);
    let i = choose|i: int| 0 <= i < s.len() && s[i] == x;
    if i < s.len() - 1 {
        assert(piece_key(s[i]) <= piece_key(s[s.len() - 1]));
    }
}

/// Two lists in key order holding the same valid pieces are the same list.
pub proof fn lemma_sorted_unique(a: Seq<InvisiblePiece>, b: Seq<InvisiblePiece>)
    requires
        sorted_pieces(a),
        sorted_pieces(b),
        pieces_wf(a),
        pieces_wf(b),
        same_pieces(a, b),
    ensures
        a == b,
    decreases a.len(),
{
    if a.len() == 0 {
        if b.len() > 0 {
            lemma_occurrence_in(b, b.len() - 1);
            assert(occurrences(a, b[b.len() - 1]) == occurrences(b, b[b.len() - 1]));
        }
        assert(a =~= b);
    } else {
        let x = a.last();
        lemma_occurrence_in(a, a.len() - 1);
        assert(occurrences(b, x) == occurrences(a, x));
        lemma_max_key(b, x);
        let y = b.last();
        lemma_occurrence_in(b, b.len() - 1);
        assert(occurrences(a, y) == occurrences(b, y));
        lemma_max_key(a, y);
        assert(invisible_location_wf(a[a.len() - 1].location));
        assert(invisible_location_wf(b[b.len() - 1].location));
        lemma_piece_key_injective(x, y);
        let a1 = a.drop_last();
        let b1 = b.drop_last();
        assert forall|z: InvisiblePiece| #[trigger] occurrences(a1, z) == occurrences(b1, z) by {
            assert(occurrences(a, z) == occurrences(b, z));
        }
        assert forall|i: int| 0 <= i < a1.len() implies invisible_location_wf(#[trigger] a1[i].location) by {
            assert(a1[i] == a[i]);
        }
        assert forall|i: int| 0 <= i < b1.len() implies invisible_location_wf(#[trigger] b1[i].location) by {
            assert(b1[i] == b[i]);
        }
        lemma_sorted_unique(a1, b1);
        assert(a =~= a1.push(x));
        assert(b =~= b1.push(y));
    }
}

/// The pieces of `s` in key order.
pub open spec fn canon(s: Seq<InvisiblePiece>) -> Seq<InvisiblePiece> {
    choose|t: Seq<InvisiblePiece>| sorted_pieces(t) && pieces_wf(t) && same_pieces(t, s)
}

/// A sorted list of valid pieces is the key order of any list holding the
/// same pieces.
pub proof fn lemma_canon(t: Seq<InvisiblePiece>, s: Seq<InvisiblePiece>)
    requires
        sorted_pieces(t),
        pieces_wf(t),
        same_pieces(t, s),
    ensures
        canon(s) == t,
{
    let c = canon(s);
    assert(sorted_pieces(c) && pieces_wf(c) && same_pieces(c, s));
    assert(same_pieces(c, t));
    lemma_sorted_unique(c, t);
}


/// A world as a value: its position and its invisible pieces.
pub type KnownView = (PositionView, Seq<InvisiblePiece>);

/// The value of a world.
pub open spec fn kview(w: &InvisibleWorld) -> KnownView {
    (w.position@, w.invisibles@)
}

/// The index of some invisible piece `x` in `s`.
pub open spec fn some_index(s: Seq<InvisiblePiece>, x: InvisiblePiece) -> int {
    choose|i: int| 0 <= i < s.len() && s[i] == x
}

/// The ways a move `m` shows from the world `v`, each with the world it
/// leads to: for a board move one; for a drop an ordinary drop while the
/// hand holds more of the kind than its invisible pieces, then one hidden
/// drop for each invisible piece of the kind in the hand.
pub open spec fn kvariants(v: KnownView, m: Movement) -> Seq<(KnownInvisibleObservedMove, KnownView)> {
    let p = v.0;
    let s = v.1;
    match m {
        Movement::Move { source, dest, promote } => {
            let moving = first_at(s, source, 0);
            let captured = first_at(s, dest, 0);
            let visible_capture = p.cell(dest.spec_index()) is Piece && captured is None;
            let o = if moving is Some {
                if visible_capture {
                    KnownInvisibleObservedMove::InvisibleCapture(dest)
                } else {
                    KnownInvisibleObservedMove::Invisible
                }
            } else {
                KnownInvisibleObservedMove::Known(
                    ObservedMove::Move { identity: MoveIdentity::Known, source, destination: dest, promote },
                )
            };
            seq![(o, (apply(p, m), canon(changed(s, p.turn, m, moving, captured))))]
        },
        Movement::Drop(dest, k) => {
            let h = held(p.turn, k);
            let n = occurrences(s, h);
            let shown = if p.hand(p.turn, k) > n {
                seq![
                    (
                        KnownInvisibleObservedMove::Known(
                            ObservedMove::Drop { identity: DropIdentity::Known(k), destination: dest },
                        ),
                        (apply(p, m), canon(s)),
                    ),
                ]
            } else {
                Seq::empty()
            };
            let hidden = (
                KnownInvisibleObservedMove::Invisible,
                (apply(p, m), canon(s.update(some_index(s, h), moved_piece(h, m)))),
            );
            shown + Seq::new(n, |j: int| hidden)
        },
    }
}

/// The values of a list of variants.
pub open spec fn variants_view(r: Seq<(KnownInvisibleObservedMove, InvisibleWorld)>) -> Seq<
    (KnownInvisibleObservedMove, KnownView),
> {
    Seq::new(r.len(), |j: int| (r[j].0, kview(&r[j].1)))
}

proof fn lemma_after_view(w: &InvisibleWorld, m: Movement, moving: Option<int>, captured: Option<int>, r: &InvisibleWorld)
    requires
        world_after(w, m, moving, captured, r),
    ensures
        kview(r) == (apply(w.position@, m), canon(changed(w.invisibles@, w.position@.turn, m, moving, captured))),
{
    lemma_canon(r.invisibles@, changed(w.invisibles@, w.position@.turn, m, moving, captured));
}

/// A legal board move leaves its square.
pub proof fn lemma_legal_moves_away(p: PositionView, m: Movement)
    requires
        legal(p, m),
    ensures
        playable(p, m),
        m matches Movement::Move { source, dest, .. } ==> source != dest,
{
}

/// The ways a legal move shows from a world, with the worlds they lead to.
pub fn world_variants(w: &InvisibleWorld, m: Movement) -> (r: Vec<(KnownInvisibleObservedMove, InvisibleWorld)>)
    requires
        w.wf(),
        legal(w.position@, m),
    ensures
        variants_view(r@) == kvariants(kview(w), m),
        forall|j: int| 0 <= j < r@.len() ==> (#[trigger] r@[j]).1.wf(),
{
    proof {
        lemma_legal_moves_away(w.position@, m);
    }
    let r = w.transition_variants(m);
    proof {
        let kv = kvariants(kview(w), m);
        let s = w.invisibles@;
        match m {
            Movement::Move { source, dest, promote } => {
                lemma_after_view(w, m, first_at(s, source, 0), first_at(s, dest, 0), &r@[0].1);
                assert(variants_view(r@) =~= kv);
            },
            Movement::Drop(dest, k) => {
                let h = held(w.position@.turn, k);
                let n = occurrences(s, h);
                let known = w.position@.hand(w.position@.turn, k) > n;
                let off: int = if known { 1 } else { 0 };
                if known {
                    lemma_after_view(w, m, None, None, &r@[0].1);
                    assert(changed(s, w.position@.turn, m, None, None) == s);
                }
                assert forall|j: int| off <= j < r@.len() implies kview(&(#[trigger] r@[j]).1) == (
                    apply(w.position@, m),
                    canon(s.update(some_index(s, h), moved_piece(h, m))),
                ) by {
                    let i = choose|i: int|
                        0 <= i < s.len() && s[i] == held(w.position@.turn, k) && world_after(w, m, Some(i), None, &r@[j].1);
                    lemma_after_view(w, m, Some(i), None, &r@[j].1);
                    assert(changed(s, w.position@.turn, m, Some(i), None) == s.update(i, moved_piece(h, m)));
                    lemma_occurrence_in(s, i);
                    lemma_found_in(s, h);
                    let q = some_index(s, h);
                    assert(0 <= q < s.len() && s[q] == h);
                    let y = moved_piece(h, m);
                    assert forall|z: InvisiblePiece| #[trigger] occurrences(s.update(i, y), z) == occurrences(s.update(q, y), z) by {
                        lemma_occurrences_update(s, i, y, z);
                        lemma_occurrences_update(s, q, y, z);
                    }
                    lemma_canon(r@[j].1.invisibles@, s.update(q, y));
                }
                assert(variants_view(r@) =~= kv);
            },
        }
    }
    r
}


/// The moves searched in a world: every legal move for the defender's free
/// first move, otherwise the checks of black and all legal moves of white.
pub open spec fn ksearched(p: PositionView, free: bool) -> Seq<Movement> {
    if free {
        generated_seq(p, false)
    } else {
        generated_seq(p, p.turn == Color::Black)
    }
}

/// A pawn drop that mates: illegal, so never played.
pub open spec fn pawn_drop_mate(p: PositionView, m: Movement) -> bool {
    m.spec_is_pawn_drop() && is_mate(apply(p, m))
}

/// The first `i` moves of `ms` without the pawn drops that mate.
pub open spec fn kept_moves(p: PositionView, ms: Seq<Movement>, i: int) -> Seq<Movement>
    decreases i,
{
    if i <= 0 {
        Seq::empty()
    } else if pawn_drop_mate(p, ms[i - 1]) {
        kept_moves(p, ms, i - 1)
    } else {
        kept_moves(p, ms, i - 1).push(ms[i - 1])
    }
}

/// The moves played from a position: the searched moves, in the order of
/// the move generator, without the pawn drops that mate.
pub open spec fn kmoves(p: PositionView, free: bool) -> Seq<Movement> {
    kept_moves(p, ksearched(p, free), ksearched(p, free).len() as int)
}

/// The moves played from a world.
pub fn concrete_movements(world: &InvisibleWorld, free_white_move: bool) -> (r: Vec<Movement>)
    requires
        world.position.wf(),
    ensures
        r@ == kmoves(world.position@, free_white_move),
        forall|j: int| 0 <= j < r@.len() ==> legal(world.position@, #[trigger] r@[j]),
{
    let p = &world.position;
    let moves = if free_white_move {
        legal_movements(p)
    } else {
        advance(p).0
    };
    let ghost ms = ksearched(p@, free_white_move);
    assert(moves@ == ms);
    let mut r: Vec<Movement> = Vec::new();
    let mut i: usize = 0;
    while i < moves.len()
        invariant
            p.wf(),
            i <= moves@.len(),
            moves@ == ms,
            forall|m: Movement| #[trigger] ms.contains(m) ==> legal(p@, m),
            r@ == kept_moves(p@, ms, i as int),
            forall|j: int| 0 <= j < r@.len() ==> legal(p@, #[trigger] r@[j]),
        decreases moves@.len() - i,
    {
        let m = moves[i];
        assert(ms.contains(m)) by {
            assert(ms[i as int] == m);
        }
        let drop_mate = if m.is_pawn_drop() {
            let q = moved(p, m);
            is_legal_mate(&q)
        } else {
            false
        };
        if !drop_mate {
            r.push(m);
        }
        i = i + 1;
    }
    r
}

/// The variants of the moves `ms[..j]` from `v`, in order.
pub open spec fn flat_variants(v: KnownView, ms: Seq<Movement>, j: int) -> Seq<(KnownInvisibleObservedMove, KnownView)>
    decreases j,
{
    if j <= 0 {
        Seq::empty()
    } else {
        flat_variants(v, ms, j - 1) + kvariants(v, ms[j - 1])
    }
}

/// Every way a move shows from the world `v`, with the world it leads to.
pub open spec fn world_kcands(v: KnownView, free: bool) -> Seq<(KnownInvisibleObservedMove, KnownView)> {
    let ms = kmoves(v.0, free);
    flat_variants(v, ms, ms.len() as int)
}

/// The moves of the first `i` worlds, each with the world it leads to.
pub open spec fn kcands_upto(ws: Seq<KnownView>, free: bool, i: int) -> Seq<(KnownInvisibleObservedMove, KnownView)>
    decreases i,
{
    if i <= 0 {
        Seq::empty()
    } else {
        kcands_upto(ws, free, i - 1) + world_kcands(ws[i - 1], free)
    }
}

/// A group of worlds reached by one observed move.
pub type KnownGroup = (KnownInvisibleObservedMove, Seq<KnownView>);

/// The rank of the kind of an observed move: ordinary moves, then hidden
/// moves, then hidden captures.
pub open spec fn known_rank(o: KnownInvisibleObservedMove) -> nat {
    match o {
        KnownInvisibleObservedMove::Known(_) => 0,
        KnownInvisibleObservedMove::Invisible => 1,
        KnownInvisibleObservedMove::InvisibleCapture(_) => 2,
    }
}

/// The rank of an observed move within its kind.
pub open spec fn known_inner(o: KnownInvisibleObservedMove) -> nat {
    match o {
        KnownInvisibleObservedMove::Known(x) => crate::observed::observed_key(x),
        KnownInvisibleObservedMove::Invisible => 0,
        KnownInvisibleObservedMove::InvisibleCapture(sq) => sq.idx as nat,
    }
}

/// `a` comes before `b`: by kind, then within the kind.
pub open spec fn known_before(a: KnownInvisibleObservedMove, b: KnownInvisibleObservedMove) -> bool {
    known_rank(a) < known_rank(b) || (known_rank(a) == known_rank(b) && known_inner(a) < known_inner(b))
}

fn known_before_exec(a: KnownInvisibleObservedMove, b: KnownInvisibleObservedMove) -> (r: bool)
    ensures
        r == known_before(a, b),
{
    let ra: u8 = match a {
        KnownInvisibleObservedMove::Known(_) => 0,
        KnownInvisibleObservedMove::Invisible => 1,
        KnownInvisibleObservedMove::InvisibleCapture(_) => 2,
    };
    let rb: u8 = match b {
        KnownInvisibleObservedMove::Known(_) => 0,
        KnownInvisibleObservedMove::Invisible => 1,
        KnownInvisibleObservedMove::InvisibleCapture(_) => 2,
    };
    if ra != rb {
        return ra < rb;
    }
    match a {
        KnownInvisibleObservedMove::Known(x) => match b {
            KnownInvisibleObservedMove::Known(y) => x.key() < y.key(),
            _ => false,
        },
        KnownInvisibleObservedMove::Invisible => false,
        KnownInvisibleObservedMove::InvisibleCapture(sx) => match b {
            KnownInvisibleObservedMove::InvisibleCapture(sy) => sx.idx < sy.idx,
            _ => false,
        },
    }
}

/// The groups `gs` with the world `v` added under `o`, looking from the
/// `i`-th group on: into the group of `o` unless already there, else as a
/// new group in its place in the order of observed moves.
pub open spec fn insert_at(gs: Seq<KnownGroup>, o: KnownInvisibleObservedMove, v: KnownView, i: int) -> Seq<KnownGroup>
    decreases gs.len() - i,
{
    if i < 0 || i >= gs.len() {
        gs.push((o, seq![v]))
    } else if gs[i].0 == o {
        gs.update(
            i,
            (
                o,
                if gs[i].1.contains(v) {
                    gs[i].1
                } else {
                    gs[i].1.push(v)
                },
            ),
        )
    } else if known_before(o, gs[i].0) {
        gs.insert(i, (o, seq![v]))
    } else {
        insert_at(gs, o, v, i + 1)
    }
}

/// The groups with the candidates `cs` added in order.
pub open spec fn fold_groups(gs: Seq<KnownGroup>, cs: Seq<(KnownInvisibleObservedMove, KnownView)>) -> Seq<KnownGroup>
    decreases cs.len(),
{
    if cs.len() == 0 {
        gs
    } else {
        let prev = fold_groups(gs, cs.drop_last());
        insert_at(prev, cs.last().0, cs.last().1, 0)
    }
}

/// Grouping a list joined from two is grouping the first, then the second.
pub proof fn lemma_fold_append(
    gs: Seq<KnownGroup>,
    a: Seq<(KnownInvisibleObservedMove, KnownView)>,
    b: Seq<(KnownInvisibleObservedMove, KnownView)>,
)
    ensures
        fold_groups(gs, a + b) == fold_groups(fold_groups(gs, a), b),
    decreases b.len(),
{
    if b.len() == 0 {
        assert(a + b =~= a);
    } else {
        lemma_fold_append(gs, a, b.drop_last());
        assert((a + b).drop_last() =~= a + b.drop_last());
        assert((a + b).last() == b.last());
    }
}

/// The worlds after each observed move from the worlds `ws`, grouped by the
/// observed move in its order, each world once, in the order first reached.
pub open spec fn ksucc(ws: Seq<KnownView>, free: bool) -> Seq<KnownGroup> {
    fold_groups(Seq::empty(), kcands_upto(ws, free, ws.len() as int))
}


/// The values of some worlds.
pub open spec fn kviews(ws: Seq<InvisibleWorld>) -> Seq<KnownView> {
    Seq::new(ws.len(), |j: int| kview(&ws[j]))
}

/// The values of groups of worlds.
pub open spec fn groups_view(g: Seq<(KnownInvisibleObservedMove, Vec<InvisibleWorld>)>) -> Seq<KnownGroup> {
    Seq::new(g.len(), |i: int| (g[i].0, kviews(g[i].1@)))
}

/// Every world of every group is well formed.
pub open spec fn groups_wf(g: Seq<(KnownInvisibleObservedMove, Vec<InvisibleWorld>)>) -> bool {
    forall|i: int, j: int| 0 <= i < g.len() && 0 <= j < g[i].1@.len() ==> (#[trigger] g[i].1@[j]).wf()
}

/// Adds the world `w` under `o` to the groups.
fn insert_world(groups: &mut Vec<(KnownInvisibleObservedMove, Vec<InvisibleWorld>)>, o: KnownInvisibleObservedMove, w: InvisibleWorld)
    requires
        groups_wf(old(groups)@),
        w.wf(),
    ensures
        groups_wf(final(groups)@),
        groups_view(final(groups)@) == insert_at(groups_view(old(groups)@), o, kview(&w), 0),
{
    let ghost g0 = groups_view(groups@);
    let ghost v = kview(&w);
    let mut i: usize = 0;
    while i < groups.len()
        invariant
            i <= groups@.len(),
            groups_wf(groups@),
            groups_view(groups@) == g0,
            g0 == groups_view(old(groups)@),
            v == kview(&w),
            w.wf(),
            insert_at(g0, o, v, 0) == insert_at(g0, o, v, i as int),
        decreases groups@.len() - i,
    {
        let go = groups[i].0;
        assert(g0[i as int].0 == go);
        if go == o {
            let (go2, mut gw) = groups.remove(i);
            let ghost gv = kviews(gw@);
            assert(g0[i as int] == (go2, gv));
            let mut j: usize = 0;
            let mut found = false;
            while j < gw.len()
                invariant
                    j <= gw@.len(),
                    gv == kviews(gw@),
                    v == kview(&w),
                    w.wf(),
                    forall|q: int| 0 <= q < gw@.len() ==> (#[trigger] gw@[q]).wf(),
                    found ==> gv.contains(v),
                    !found ==> forall|q: int| 0 <= q < j ==> gv[q] != v,
                decreases gw@.len() - j,
            {
                let same = same_world_exec(&gw[j], &w);
                assert(gv[j as int] == kview(&gw@[j as int]));
                if same {
                    assert(same_world(&gw@[j as int], &w));
                    assert(gv[j as int] == v);
                    found = true;
                }
                j = j + 1;
            }
            let ghost before = gw@;
            if !found {
                gw.push(w);
                proof {
                    assert(kviews(gw@) =~= gv.push(v));
                    assert(!gv.contains(v));
                }
            } else {
                assert(kviews(gw@) == gv);
            }
            let ghost gmid = groups@;
            groups.insert(i, (go2, gw));
            proof {
                assert(insert_at(g0, o, v, i as int) == g0.update(
                    i as int,
                    (
                        o,
                        if g0[i as int].1.contains(v) {
                            g0[i as int].1
                        } else {
                            g0[i as int].1.push(v)
                        },
                    ),
                ));
                assert(groups_view(groups@) =~= g0.update(
                    i as int,
                    (
                        o,
                        if g0[i as int].1.contains(v) {
                            g0[i as int].1
                        } else {
                            g0[i as int].1.push(v)
                        },
                    ),
                ));
                assert forall|a: int, b: int| 0 <= a < groups@.len() && 0 <= b < groups@[a].1@.len() implies (#[trigger] groups@[a].1@[b]).wf() by {
                    if a < i {
                        assert(groups@[a] == gmid[a]);
                    } else if a > i {
                        assert(groups@[a] == gmid[a - 1]);
                    } else {
                        if b < before.len() {
                            assert(groups@[a].1@[b] == before[b]);
                        }
                    }
                }
            }
            return ;
        } else if known_before_exec(o, go) {
            let mut gw: Vec<InvisibleWorld> = Vec::new();
            gw.push(w);
            let ghost gmid = groups@;
            groups.insert(i, (o, gw));
            proof {
                assert(kviews(gw@) =~= seq![v]);
                assert(insert_at(g0, o, v, i as int) == g0.insert(i as int, (o, seq![v])));
                assert(groups_view(groups@) =~= g0.insert(i as int, (o, seq![v])));
                assert forall|a: int, b: int| 0 <= a < groups@.len() && 0 <= b < groups@[a].1@.len() implies (#[trigger] groups@[a].1@[b]).wf() by {
                    if a < i {
                        assert(groups@[a] == gmid[a]);
                    } else if a > i {
                        assert(groups@[a] == gmid[a - 1]);
                    }
                }
            }
            return ;
        }
        i = i + 1;
    }
    let mut gw: Vec<InvisibleWorld> = Vec::new();
    gw.push(w);
    let ghost gmid = groups@;
    groups.push((o, gw));
    proof {
        assert(kviews(gw@) =~= seq![v]);
        assert(groups_view(groups@) =~= g0.push((o, seq![v])));
        assert forall|a: int, b: int| 0 <= a < groups@.len() && 0 <= b < groups@[a].1@.len() implies (#[trigger] groups@[a].1@[b]).wf() by {
            if a < gmid.len() {
                assert(groups@[a] == gmid[a]);
            }
        }
    }
}


/// Some group holds more worlds than the search takes.
pub open spec fn too_large(gs: Seq<KnownGroup>) -> bool {
    exists|i: int| 0 <= i < gs.len() && (#[trigger] gs[i]).1.len() > MAX_WORLDS
}

/// The worlds after each observed move from the worlds of a state, grouped
/// by the observed move in its order, each world once; or the error when a
/// group holds more worlds than the search takes.
pub fn successors(worlds: &Vec<InvisibleWorld>, free_white_move: bool) -> (r: Result<
    Vec<(KnownInvisibleObservedMove, Vec<InvisibleWorld>)>,
    KnownInvisibleError,
>)
    requires
        forall|j: int| 0 <= j < worlds@.len() ==> (#[trigger] worlds@[j]).wf(),
    ensures
        match r {
            Ok(g) => groups_view(g@) == ksucc(kviews(worlds@), free_white_move) && !too_large(groups_view(g@))
                && groups_wf(g@),
            Err(e) => e == KnownInvisibleError::TooManyWorlds && too_large(ksucc(kviews(worlds@), free_white_move)),
        },
{
    let ghost vs = kviews(worlds@);
    let ghost free = free_white_move;
    let mut groups: Vec<(KnownInvisibleObservedMove, Vec<InvisibleWorld>)> = Vec::new();
    let mut i: usize = 0;
    proof {
        assert(groups_view(groups@) =~= fold_groups(Seq::empty(), kcands_upto(vs, free, 0)));
    }
    while i < worlds.len()
        invariant
            i <= worlds@.len(),
            vs == kviews(worlds@),
            free == free_white_move,
            forall|j: int| 0 <= j < worlds@.len() ==> (#[trigger] worlds@[j]).wf(),
            groups_wf(groups@),
            groups_view(groups@) == fold_groups(Seq::empty(), kcands_upto(vs, free, i as int)),
        decreases worlds@.len() - i,
    {
        let w = &worlds[i];
        assert(vs[i as int] == kview(w));
        let ms = concrete_movements(w, free_white_move);
        let ghost base = groups_view(groups@);
        let mut j: usize = 0;
        proof {
            assert(fold_groups(base, flat_variants(kview(w), ms@, 0)) =~= base);
        }
        while j < ms.len()
            invariant
                j <= ms@.len(),
                w.wf(),
                ms@ == kmoves(w.position@, free_white_move),
                forall|q: int| 0 <= q < ms@.len() ==> legal(w.position@, #[trigger] ms@[q]),
                groups_wf(groups@),
                groups_view(groups@) == fold_groups(base, flat_variants(kview(w), ms@, j as int)),
            decreases ms@.len() - j,
        {
            let m = ms[j];
            assert(legal(w.position@, ms@[j as int]));
            let vars = world_variants(w, m);
            let ghost kv = variants_view(vars@);
            let ghost mid = groups_view(groups@);
            let mut t: usize = 0;
            proof {
                assert(kv.take(0) =~= Seq::<(KnownInvisibleObservedMove, KnownView)>::empty());
            }
            while t < vars.len()
                invariant
                    t <= vars@.len(),
                    kv == variants_view(vars@),
                    forall|q: int| 0 <= q < vars@.len() ==> (#[trigger] vars@[q]).1.wf(),
                    groups_wf(groups@),
                    groups_view(groups@) == fold_groups(mid, kv.take(t as int)),
                decreases vars@.len() - t,
            {
                let o = vars[t].0;
                let nw = vars[t].1.copy();
                proof {
                    assert(kv.take(t + 1).drop_last() =~= kv.take(t as int));
                    assert(kv.take(t + 1).last() == kv[t as int]);
                    assert(kview(&nw) == kv[t as int].1);
                }
                insert_world(&mut groups, o, nw);
                t = t + 1;
            }
            proof {
                assert(kv.take(vars@.len() as int) =~= kv);
                lemma_fold_append(base, flat_variants(kview(w), ms@, j as int), kv);
                assert(kv == kvariants(kview(w), ms@[j as int]));
            }
            j = j + 1;
        }
        proof {
            lemma_fold_append(Seq::empty(), kcands_upto(vs, free, i as int), world_kcands(vs[i as int], free));
        }
        i = i + 1;
    }
    let mut k: usize = 0;
    while k < groups.len()
        invariant
            k <= groups@.len(),
            vs == kviews(worlds@),
            free == free_white_move,
            groups_wf(groups@),
            groups_view(groups@) == ksucc(vs, free),
            forall|q: int| 0 <= q < k ==> (#[trigger] groups_view(groups@)[q]).1.len() <= MAX_WORLDS,
        decreases groups@.len() - k,
    {
        if groups[k].1.len() > MAX_WORLDS {
            proof {
                assert(groups_view(groups@)[k as int].1.len() > MAX_WORLDS);
            }
            return Err(KnownInvisibleError::TooManyWorlds);
        }
        k = k + 1;
    }
    Ok(groups)
}


/// The piece lists of some world values.
pub open spec fn klists(vs: Seq<KnownView>) -> Seq<Seq<InvisiblePiece>> {
    Seq::new(vs.len(), |i: int| vs[i].1)
}

/// The pieces of `s`, in key order, without those every list of `lists`
/// holds.
pub open spec fn reduced_pieces(s: Seq<InvisiblePiece>, lists: Seq<Seq<InvisiblePiece>>) -> Seq<InvisiblePiece> {
    choose|t: Seq<InvisiblePiece>|
        sorted_pieces(t) && pieces_wf(t) && forall|x: InvisiblePiece| #[trigger]
            occurrences(t, x) == occurrences(s, x) - common(lists, x)
}

/// A sorted list of valid pieces with the counts of `reduced_pieces` is
/// that list.
pub proof fn lemma_reduced_pieces(t: Seq<InvisiblePiece>, s: Seq<InvisiblePiece>, lists: Seq<Seq<InvisiblePiece>>)
    requires
        sorted_pieces(t),
        pieces_wf(t),
        forall|x: InvisiblePiece| #[trigger] occurrences(t, x) == occurrences(s, x) - common(lists, x),
    ensures
        reduced_pieces(s, lists) == t,
{
    let c = reduced_pieces(s, lists);
    assert(sorted_pieces(c) && pieces_wf(c) && forall|x: InvisiblePiece| #[trigger]
        occurrences(c, x) == occurrences(s, x) - common(lists, x));
    assert(same_pieces(c, t));
    lemma_sorted_unique(c, t);
}

/// A world with the pieces common to every list of `lists` made visible.
pub open spec fn reduce_view(v: KnownView, lists: Seq<Seq<InvisiblePiece>>) -> KnownView {
    (v.0, reduced_pieces(v.1, lists))
}

/// The values of `s`, each once, in the order first met.
pub open spec fn kdedup(s: Seq<KnownView>) -> Seq<KnownView>
    decreases s.len(),
{
    if s.len() == 0 {
        Seq::empty()
    } else {
        let d = kdedup(s.drop_last());
        if d.contains(s.last()) {
            d
        } else {
            d.push(s.last())
        }
    }
}

/// The worlds of a state built over `vs`: each with the pieces common to
/// all of them made visible, each once, in the order first met.
pub open spec fn reveal_views(vs: Seq<KnownView>) -> Seq<KnownView> {
    kdedup(Seq::new(vs.len(), |i: int| reduce_view(vs[i], klists(vs))))
}

/// The piece lists of worlds are those of their values.
pub proof fn lemma_lists_of(ws: Seq<InvisibleWorld>)
    ensures
        lists_of(ws) == klists(kviews(ws)),
{
    assert(lists_of(ws) =~= klists(kviews(ws)));
}


/// Groups as the search makes them: each observed move once, in order,
/// each with some worlds, none twice.
pub open spec fn groups_ok(gs: Seq<KnownGroup>) -> bool {
    &&& forall|a: int, b: int| 0 <= a < b < gs.len() ==> (#[trigger] gs[a]).0 != (#[trigger] gs[b]).0
    &&& forall|a: int, b: int| 0 <= a < b < gs.len() ==> !known_before((#[trigger] gs[b]).0, (#[trigger] gs[a]).0)
    &&& forall|a: int| 0 <= a < gs.len() ==> (#[trigger] gs[a]).1.len() > 0 && gs[a].1.no_duplicates()
}

proof fn lemma_insert_ok(gs: Seq<KnownGroup>, o: KnownInvisibleObservedMove, v: KnownView, i: int)
    requires
        groups_ok(gs),
        0 <= i,
        forall|j: int| 0 <= j < i && j < gs.len() ==> (#[trigger] gs[j]).0 != o && !known_before(o, gs[j].0),
    ensures
        groups_ok(insert_at(gs, o, v, i)),
    decreases gs.len() - i,
{
    let r = insert_at(gs, o, v, i);
    if i >= gs.len() {
        assert forall|a: int, b: int| 0 <= a < b < r.len() implies (#[trigger] r[a]).0 != (#[trigger] r[b]).0
            && !known_before(r[b].0, r[a].0) by {
            assert(r[a] == gs[a]);
            if b < gs.len() {
                assert(r[b] == gs[b]);
            }
        }
        assert forall|a: int| 0 <= a < r.len() implies (#[trigger] r[a]).1.len() > 0 && r[a].1.no_duplicates() by {
            if a < gs.len() {
                assert(r[a] == gs[a]);
            }
        }
    } else if gs[i].0 == o {
        let w = gs[i].1;
        let nw = if w.contains(v) { w } else { w.push(v) };
        if !w.contains(v) {
            assert forall|a: int, b: int| 0 <= a < nw.len() && 0 <= b < nw.len() && a != b implies nw[a] != nw[b] by {
                if a == w.len() as int {
                    assert(nw[b] == w[b]);
                } else if b == w.len() as int {
                    assert(nw[a] == w[a]);
                }
            }
        }
        assert forall|a: int, b: int| 0 <= a < b < r.len() implies (#[trigger] r[a]).0 != (#[trigger] r[b]).0
            && !known_before(r[b].0, r[a].0) by {
            assert(r[a].0 == gs[a].0);
            assert(r[b].0 == gs[b].0);
        }
        assert forall|a: int| 0 <= a < r.len() implies (#[trigger] r[a]).1.len() > 0 && r[a].1.no_duplicates() by {
            if a != i {
                assert(r[a] == gs[a]);
            }
        }
    } else if known_before(o, gs[i].0) {
        assert forall|a: int, b: int| 0 <= a < b < r.len() implies (#[trigger] r[a]).0 != (#[trigger] r[b]).0
            && !known_before(r[b].0, r[a].0) by {
            if b < i {
                assert(r[a] == gs[a] && r[b] == gs[b]);
            } else if b == i {
                assert(r[a] == gs[a]);
            } else if a < i {
                assert(r[a] == gs[a] && r[b] == gs[b - 1]);
            } else if a == i {
                assert(r[b] == gs[b - 1]);
                if b - 1 > i {
                    assert(!known_before(gs[b - 1].0, gs[i].0));
                }
            } else {
                assert(r[a] == gs[a - 1] && r[b] == gs[b - 1]);
            }
        }
        assert forall|a: int| 0 <= a < r.len() implies (#[trigger] r[a]).1.len() > 0 && r[a].1.no_duplicates() by {
            if a < i {
                assert(r[a] == gs[a]);
            } else if a > i {
                assert(r[a] == gs[a - 1]);
            }
        }
    } else {
        lemma_insert_ok(gs, o, v, i + 1);
    }
}

/// The groups after each observed move: each observed move once, in order,
/// each group with some worlds and none twice.
pub proof fn lemma_ksucc_ok(vs: Seq<KnownView>, free: bool)
    ensures
        groups_ok(ksucc(vs, free)),
{
    lemma_fold_ok(Seq::empty(), kcands_upto(vs, free, vs.len() as int));
}

proof fn lemma_fold_ok(gs: Seq<KnownGroup>, cs: Seq<(KnownInvisibleObservedMove, KnownView)>)
    requires
        groups_ok(gs),
    ensures
        groups_ok(fold_groups(gs, cs)),
    decreases cs.len(),
{
    if cs.len() > 0 {
        lemma_fold_ok(gs, cs.drop_last());
        lemma_insert_ok(fold_groups(gs, cs.drop_last()), cs.last().0, cs.last().1, 0);
    }
}

/// The rule's target king is mated in the position: for the help selfmate
/// black is mated after white's move; otherwise white, to move, is in check
/// with no legal move and not by a pawn drop.
pub open spec fn pos_mated(p: PositionView, rule: MateRule) -> bool {
    match rule {
        MateRule::HelpSelfmate => crate::help_selfmate::help_selfmate_end(p),
        _ => {
            &&& p.turn == Color::White
            &&& in_check(p, Color::White)
            &&& !p.pawn_drop
            &&& forall|m: Movement| !legal(p, m)
        },
    }
}

/// The target king is mated in every world, on the rule's terminal turn.
pub open spec fn kproven(vs: Seq<KnownView>, rule: MateRule) -> bool {
    &&& vs[0].0.turn == rule.spec_terminal_turn()
    &&& forall|i: int| 0 <= i < vs.len() ==> pos_mated(#[trigger] vs[i].0, rule)
}

/// A state with worlds, each well formed.
pub open spec fn state_wf(s: &KnownInvisibleState) -> bool {
    &&& s.worlds@.len() > 0
    &&& forall|i: int| 0 <= i < s.worlds@.len() ==> (#[trigger] s.worlds@[i]).wf()
}

fn position_mated(p: &crate::position::Position, rule: MateRule) -> (r: bool)
    requires
        p.wf(),
    ensures
        r == pos_mated(p@, rule),
{
    match rule {
        MateRule::HelpSelfmate => crate::help_selfmate::is_help_selfmate(p),
        _ => {
            let (moves, flag) = advance(p);
            proof {
                if flag && moves@.len() > 0 {
                    assert(moves@.contains(moves@[0]));
                }
            }
            flag && moves.len() == 0
        },
    }
}

impl KnownInvisibleState {
    /// The target king is mated in every world, on the rule's terminal turn.
    fn is_proven_mate(&self) -> (r: bool)
        requires
            state_wf(self),
        ensures
            r == kproven(kviews(self.worlds@), self.rule),
    {
        let ghost vs = kviews(self.worlds@);
        assert(vs[0] == kview(&self.worlds@[0]));
        if self.turn() != self.rule.terminal_turn() {
            return false;
        }
        let mut i: usize = 0;
        while i < self.worlds.len()
            invariant
                i <= self.worlds@.len(),
                vs == kviews(self.worlds@),
                forall|j: int| 0 <= j < self.worlds@.len() ==> (#[trigger] self.worlds@[j]).wf(),
                forall|j: int| 0 <= j < i ==> pos_mated(#[trigger] vs[j].0, self.rule),
            decreases self.worlds@.len() - i,
        {
            assert(vs[i as int] == kview(&self.worlds@[i as int]));
            if !position_mated(&self.worlds[i].position, self.rule) {
                assert(!pos_mated(vs[i as int].0, self.rule));
                assert(!kproven(vs, self.rule));
                return false;
            }
            i = i + 1;
        }
        true
    }
}

/// The values of solutions.
pub open spec fn ksols_view(v: Seq<Vec<KnownInvisibleObservedMove>>) -> Seq<Seq<KnownInvisibleObservedMove>> {
    Seq::new(v.len(), |i: int| v[i]@)
}

/// The search from the worlds `vs` with `remaining` moves to go after
/// `path`, adding to the solutions `sols` until there are `cap` of them: a
/// line counts when it ends in a proven mate and passes through none
/// before; the observed moves are tried in order; nothing when a group of
/// worlds visited is too large.
pub open spec fn ksearch(
    vs: Seq<KnownView>,
    free: bool,
    rule: MateRule,
    remaining: nat,
    path: Seq<KnownInvisibleObservedMove>,
    sols: Seq<Seq<KnownInvisibleObservedMove>>,
    cap: nat,
) -> Option<Seq<Seq<KnownInvisibleObservedMove>>>
    decreases remaining, 2nat, 0nat,
{
    if sols.len() >= cap {
        Some(sols)
    } else if remaining == 0 {
        if kproven(vs, rule) && !sols.contains(path) {
            Some(sols.push(path))
        } else {
            Some(sols)
        }
    } else if kproven(vs, rule) {
        Some(sols)
    } else {
        let gs = ksucc(vs, free);
        if too_large(gs) {
            None
        } else {
            ksearch_from(gs, rule, remaining, path, sols, cap, 0)
        }
    }
}

/// The search of `ksearch` through the groups `gs[k..]`.
pub open spec fn ksearch_from(
    gs: Seq<KnownGroup>,
    rule: MateRule,
    remaining: nat,
    path: Seq<KnownInvisibleObservedMove>,
    sols: Seq<Seq<KnownInvisibleObservedMove>>,
    cap: nat,
    k: int,
) -> Option<Seq<Seq<KnownInvisibleObservedMove>>>
    decreases remaining, 1nat, (if 0 <= k < gs.len() { gs.len() - k } else { 0 }) as nat,
{
    if remaining == 0 || k < 0 || k >= gs.len() {
        Some(sols)
    } else {
        match ksearch(reveal_views(gs[k].1), false, rule, (remaining - 1) as nat, path.push(gs[k].0), sols, cap) {
            None => None,
            Some(s2) => if s2.len() >= cap {
                Some(s2)
            } else {
                ksearch_from(gs, rule, remaining, path, s2, cap, k + 1)
            },
        }
    }
}

/// The search of every length from `d` to `plies` that ends on the rule's
/// terminal turn, shortest first, until there are `cap` solutions.
pub open spec fn ksearch_upto(
    vs: Seq<KnownView>,
    free: bool,
    rule: MateRule,
    d: nat,
    plies: nat,
    sols: Seq<Seq<KnownInvisibleObservedMove>>,
    cap: nat,
) -> Option<Seq<Seq<KnownInvisibleObservedMove>>>
    decreases plies + 1 - d,
{
    if d > plies {
        Some(sols)
    } else if turn_after(vs[0].0.turn, d) != rule.spec_terminal_turn() {
        ksearch_upto(vs, free, rule, d + 1, plies, sols, cap)
    } else {
        match ksearch(vs, free, rule, d, Seq::empty(), sols, cap) {
            None => None,
            Some(s) => if s.len() >= cap {
                Some(s)
            } else {
                ksearch_upto(vs, free, rule, d + 1, plies, s, cap)
            },
        }
    }
}

/// `r` keeps the solutions `s` first, has no solution twice when `s` has
/// none, and stops at the cap.
pub open spec fn grows_distinct(
    s: Seq<Seq<KnownInvisibleObservedMove>>,
    r: Seq<Seq<KnownInvisibleObservedMove>>,
    cap: nat,
) -> bool {
    &&& s.len() <= r.len()
    &&& r.take(s.len() as int) == s
    &&& r.len() <= if s.len() > cap { s.len() } else { cap }
    &&& s.no_duplicates() ==> r.no_duplicates()
}

proof fn lemma_grows_trans(
    a: Seq<Seq<KnownInvisibleObservedMove>>,
    b: Seq<Seq<KnownInvisibleObservedMove>>,
    c: Seq<Seq<KnownInvisibleObservedMove>>,
    cap: nat,
)
    requires
        grows_distinct(a, b, cap),
        grows_distinct(b, c, cap),
        a.len() < cap,
    ensures
        grows_distinct(a, c, cap),
{
    assert(c.take(a.len() as int) =~= c.take(b.len() as int).take(a.len() as int));
}

/// The search only adds solutions, never one already found, and stops at
/// the cap.
pub proof fn lemma_ksearch_distinct(
    vs: Seq<KnownView>,
    free: bool,
    rule: MateRule,
    remaining: nat,
    path: Seq<KnownInvisibleObservedMove>,
    sols: Seq<Seq<KnownInvisibleObservedMove>>,
    cap: nat,
)
    ensures
        ksearch(vs, free, rule, remaining, path, sols, cap) matches Some(r) ==> grows_distinct(sols, r, cap),
    decreases remaining, 2nat, 0nat,
{
    assert(sols.take(sols.len() as int) =~= sols);
    if sols.len() >= cap {
    } else if remaining == 0 {
        if kproven(vs, rule) && !sols.contains(path) {
            let r = sols.push(path);
            assert(r.take(sols.len() as int) =~= sols);
            if sols.no_duplicates() {
                assert forall|a: int, b: int| 0 <= a < r.len() && 0 <= b < r.len() && a != b implies r[a] != r[b] by {
                    if a == sols.len() as int {
                        assert(r[b] == sols[b]);
                    } else if b == sols.len() as int {
                        assert(r[a] == sols[a]);
                    }
                }
            }
        }
    } else if kproven(vs, rule) {
    } else {
        let gs = ksucc(vs, free);
        if !too_large(gs) {
            lemma_ksearch_from_distinct(gs, rule, remaining, path, sols, cap, 0);
        }
    }
}

/// The search through groups only adds solutions, never one already found,
/// and stops at the cap.
pub proof fn lemma_ksearch_from_distinct(
    gs: Seq<KnownGroup>,
    rule: MateRule,
    remaining: nat,
    path: Seq<KnownInvisibleObservedMove>,
    sols: Seq<Seq<KnownInvisibleObservedMove>>,
    cap: nat,
    k: int,
)
    requires
        sols.len() < cap,
    ensures
        ksearch_from(gs, rule, remaining, path, sols, cap, k) matches Some(r) ==> grows_distinct(sols, r, cap),
    decreases remaining, 1nat, (if 0 <= k < gs.len() { gs.len() - k } else { 0 }) as nat,
{
    assert(sols.take(sols.len() as int) =~= sols);
    if remaining == 0 || k < 0 || k >= gs.len() {
    } else {
        let sub = ksearch(reveal_views(gs[k].1), false, rule, (remaining - 1) as nat, path.push(gs[k].0), sols, cap);
        lemma_ksearch_distinct(reveal_views(gs[k].1), false, rule, (remaining - 1) as nat, path.push(gs[k].0), sols, cap);
        match sub {
            None => {},
            Some(s2) => {
                if s2.len() < cap {
                    lemma_ksearch_from_distinct(gs, rule, remaining, path, s2, cap, k + 1);
                    match ksearch_from(gs, rule, remaining, path, s2, cap, k + 1) {
                        Some(r) => {
                            lemma_grows_trans(sols, s2, r, cap);
                        },
                        None => {},
                    }
                }
            },
        }
    }
}

/// The solutions of every length up to `plies`: at most the cap of them,
/// none twice.
pub proof fn lemma_ksearch_upto_distinct(
    vs: Seq<KnownView>,
    free: bool,
    rule: MateRule,
    d: nat,
    plies: nat,
    sols: Seq<Seq<KnownInvisibleObservedMove>>,
    cap: nat,
)
    requires
        sols.no_duplicates(),
        sols.len() <= cap,
    ensures
        ksearch_upto(vs, free, rule, d, plies, sols, cap) matches Some(r) ==> r.no_duplicates() && r.len() <= cap,
    decreases plies + 1 - d,
{
    if d > plies {
    } else if turn_after(vs[0].0.turn, d) != rule.spec_terminal_turn() {
        lemma_ksearch_upto_distinct(vs, free, rule, d + 1, plies, sols, cap);
    } else {
        lemma_ksearch_distinct(vs, free, rule, d, Seq::empty(), sols, cap);
        match ksearch(vs, free, rule, d, Seq::empty(), sols, cap) {
            None => {},
            Some(s) => {
                if s.len() < cap {
                    lemma_ksearch_upto_distinct(vs, free, rule, d + 1, plies, s, cap);
                }
            },
        }
    }
}

/// The solutions of `r` after the first `n` all have `len` moves.
pub open spec fn added_of_length(r: Seq<Seq<KnownInvisibleObservedMove>>, n: int, len: int) -> bool {
    forall|i: int| n <= i < r.len() ==> (#[trigger] r[i]).len() == len
}

/// The search adds only lines of the remaining length after the path.
pub proof fn lemma_ksearch_lengths(
    vs: Seq<KnownView>,
    free: bool,
    rule: MateRule,
    remaining: nat,
    path: Seq<KnownInvisibleObservedMove>,
    sols: Seq<Seq<KnownInvisibleObservedMove>>,
    cap: nat,
)
    ensures
        ksearch(vs, free, rule, remaining, path, sols, cap) matches Some(r) ==> added_of_length(
            r,
            sols.len() as int,
            (path.len() + remaining) as int,
        ),
    decreases remaining, 2nat, 0nat,
{
    if sols.len() >= cap {
    } else if remaining == 0 {
    } else if kproven(vs, rule) {
    } else {
        let gs = ksucc(vs, free);
        if !too_large(gs) {
            lemma_ksearch_from_lengths(gs, rule, remaining, path, sols, cap, 0);
        }
    }
}

/// The search through groups adds only lines of the remaining length after
/// the path.
pub proof fn lemma_ksearch_from_lengths(
    gs: Seq<KnownGroup>,
    rule: MateRule,
    remaining: nat,
    path: Seq<KnownInvisibleObservedMove>,
    sols: Seq<Seq<KnownInvisibleObservedMove>>,
    cap: nat,
    k: int,
)
    requires
        sols.len() < cap,
    ensures
        ksearch_from(gs, rule, remaining, path, sols, cap, k) matches Some(r) ==> added_of_length(
            r,
            sols.len() as int,
            (path.len() + remaining) as int,
        ),
    decreases remaining, 1nat, (if 0 <= k < gs.len() { gs.len() - k } else { 0 }) as nat,
{
    if remaining == 0 || k < 0 || k >= gs.len() {
    } else {
        let p2 = path.push(gs[k].0);
        let sub = ksearch(reveal_views(gs[k].1), false, rule, (remaining - 1) as nat, p2, sols, cap);
        lemma_ksearch_lengths(reveal_views(gs[k].1), false, rule, (remaining - 1) as nat, p2, sols, cap);
        lemma_ksearch_distinct(reveal_views(gs[k].1), false, rule, (remaining - 1) as nat, p2, sols, cap);
        match sub {
            None => {},
            Some(s2) => {
                if s2.len() < cap {
                    lemma_ksearch_from_lengths(gs, rule, remaining, path, s2, cap, k + 1);
                    lemma_ksearch_from_distinct(gs, rule, remaining, path, s2, cap, k + 1);
                    match ksearch_from(gs, rule, remaining, path, s2, cap, k + 1) {
                        Some(r) => {
                            assert forall|i: int| sols.len() <= i < r.len() implies (#[trigger] r[i]).len() == path.len() + remaining by {
                                if i < s2.len() {
                                    assert(r.take(s2.len() as int)[i] == r[i]);
                                }
                            }
                        },
                        None => {},
                    }
                }
            },
        }
    }
}

/// Solutions come shortest first, none longer than `plies`.
pub proof fn lemma_ksearch_upto_shortest_first(
    vs: Seq<KnownView>,
    free: bool,
    rule: MateRule,
    d: nat,
    plies: nat,
    sols: Seq<Seq<KnownInvisibleObservedMove>>,
    cap: nat,
)
    requires
        forall|a: int, b: int| 0 <= a < b < sols.len() ==> (#[trigger] sols[a]).len() <= (#[trigger] sols[b]).len(),
        forall|a: int| 0 <= a < sols.len() ==> (#[trigger] sols[a]).len() <= d,
        d <= plies + 1,
    ensures
        ksearch_upto(vs, free, rule, d, plies, sols, cap) matches Some(r) ==> (forall|a: int, b: int|
            0 <= a < b < r.len() ==> (#[trigger] r[a]).len() <= (#[trigger] r[b]).len()) && (forall|a: int|
            0 <= a < r.len() ==> (#[trigger] r[a]).len() <= if d > plies { d as int } else { plies as int }),
    decreases plies + 1 - d,
{
    if d > plies {
    } else if turn_after(vs[0].0.turn, d) != rule.spec_terminal_turn() {
        lemma_ksearch_upto_shortest_first(vs, free, rule, d + 1, plies, sols, cap);
    } else {
        lemma_ksearch_distinct(vs, free, rule, d, Seq::empty(), sols, cap);
        lemma_ksearch_lengths(vs, free, rule, d, Seq::empty(), sols, cap);
        match ksearch(vs, free, rule, d, Seq::empty(), sols, cap) {
            None => {},
            Some(s) => {
                assert forall|a: int| 0 <= a < s.len() implies (#[trigger] s[a]).len() <= d by {
                    if a < sols.len() {
                        assert(s.take(sols.len() as int)[a] == s[a]);
                    }
                }
                assert forall|a: int, b: int| 0 <= a < b < s.len() implies (#[trigger] s[a]).len() <= (#[trigger] s[b]).len() by {
                    if b < sols.len() {
                        assert(s.take(sols.len() as int)[a] == s[a]);
                        assert(s.take(sols.len() as int)[b] == s[b]);
                    } else if a < sols.len() {
                        assert(s.take(sols.len() as int)[a] == s[a]);
                    }
                }
                if s.len() < cap {
                    lemma_ksearch_upto_shortest_first(vs, free, rule, d + 1, plies, s, cap);
                }
            },
        }
    }
}

/// Whether `path` is among the solutions.
fn has_solution(solutions: &Vec<Vec<KnownInvisibleObservedMove>>, path: &Vec<KnownInvisibleObservedMove>) -> (r: bool)
    ensures
        r == ksols_view(solutions@).contains(path@),
{
    let mut i: usize = 0;
    while i < solutions.len()
        invariant
            i <= solutions@.len(),
            forall|q: int| 0 <= q < i ==> ksols_view(solutions@)[q] != path@,
        decreases solutions@.len() - i,
    {
        let s = &solutions[i];
        let mut same = s.len() == path.len();
        let mut j: usize = 0;
        while same && j < s.len()
            invariant
                j <= s@.len(),
                same ==> s@.len() == path@.len(),
                same ==> forall|q: int| 0 <= q < j ==> s@[q] == path@[q],
                !same ==> s@ != path@,
            decreases s@.len() - j,
        {
            if s[j] != path[j] {
                same = false;
            }
            j = j + 1;
        }
        if same {
            proof {
                assert(s@ =~= path@);
                assert(ksols_view(solutions@)[i as int] == path@);
            }
            return true;
        }
        i = i + 1;
    }
    false
}


/// Adds to `solutions` the lines of `ksearch` from `state` after `path`.
fn solve_inner(
    state: &KnownInvisibleState,
    remaining: usize,
    max_solutions: usize,
    path: &mut Vec<KnownInvisibleObservedMove>,
    solutions: &mut Vec<Vec<KnownInvisibleObservedMove>>,
) -> (r: Result<(), KnownInvisibleError>)
    requires
        state_wf(state),
    ensures
        final(path)@ == old(path)@,
        match ksearch(
            kviews(state.worlds@),
            state.free_white_move,
            state.rule,
            remaining as nat,
            old(path)@,
            ksols_view(old(solutions)@),
            max_solutions as nat,
        ) {
            Some(s) => r is Ok && ksols_view(final(solutions)@) == s,
            None => r == Err::<(), KnownInvisibleError>(KnownInvisibleError::TooManyWorlds),
        },
    decreases remaining,
{
    let ghost vs = kviews(state.worlds@);
    let ghost rule = state.rule;
    let ghost cap = max_solutions as nat;
    if solutions.len() >= max_solutions {
        return Ok(());
    }
    if remaining == 0 {
        if state.is_proven_mate() && !has_solution(solutions, path) {
            let ghost before = solutions@;
            let copy = path.clone();
            proof {
                assert(copy@ =~= path@);
            }
            solutions.push(copy);
            proof {
                assert(ksols_view(solutions@) =~= ksols_view(before).push(path@));
            }
        }
        return Ok(());
    }
    if state.is_proven_mate() {
        return Ok(());
    }
    let mut groups = match successors(&state.worlds, state.free_white_move) {
        Ok(g) => g,
        Err(e) => {
            return Err(e);
        },
    };
    let ghost gs = groups_view(groups@);
    proof {
        lemma_ksucc_ok(vs, state.free_white_move);
    }
    let ghost p0 = path@;
    let ghost start = ksols_view(solutions@);
    let ghost total = ksearch_from(gs, rule, remaining as nat, p0, start, cap, 0);
    let count = groups.len();
    let ghost n = gs.len();
    assert(n == count);
    proof {
        assert(ksearch(vs, state.free_white_move, rule, remaining as nat, p0, start, cap) == total);
    }
    let mut k: usize = 0;
    while groups.len() > 0
        invariant
            k <= n,
            n == gs.len(),
            n <= usize::MAX,
            groups@.len() == n - k,
            groups_wf(groups@),
            groups_view(groups@) == gs.skip(k as int),
            groups_ok(gs),
            remaining > 0,
            rule == state.rule,
            cap == max_solutions as nat,
            path@ == p0,
            p0 == old(path)@,
            start == ksols_view(old(solutions)@),
            total == ksearch_from(gs, rule, remaining as nat, p0, start, cap, 0),
            vs == kviews(state.worlds@),
            ksearch(vs, state.free_white_move, rule, remaining as nat, p0, start, cap) == total,
            ksols_view(solutions@).len() < cap,
            ksearch_from(gs, rule, remaining as nat, p0, ksols_view(solutions@), cap, k as int) == total,
        decreases n - k,
    {
        let ghost before = ksols_view(solutions@);
        let ghost g_all = groups@;
        let (o, worlds) = groups.remove(0);
        proof {
            assert(gs.skip(k as int)[0] == gs[k as int]);
            assert(groups_view(g_all)[0] == (o, kviews(worlds@)));
            assert(gs[k as int] == (o, kviews(worlds@)));
            assert forall|j: int| 0 <= j < worlds@.len() implies (#[trigger] worlds@[j]).wf() by {
                assert(g_all[0].1@[j] == worlds@[j]);
            }
            assert(groups_view(groups@) =~= gs.skip(k + 1)) by {
                assert forall|q: int| 0 <= q < groups@.len() implies #[trigger] groups_view(groups@)[q] == gs.skip(k + 1)[q] by {
                    assert(groups@[q] == g_all[q + 1]);
                    assert(groups_view(g_all)[q + 1] == gs.skip(k as int)[q + 1]);
                }
            }
            assert forall|a: int, b: int| 0 <= a < groups@.len() && 0 <= b < groups@[a].1@.len() implies (#[trigger] groups@[a].1@[b]).wf() by {
                assert(groups@[a] == g_all[a + 1]);
            }
            assert(kviews(worlds@).len() > 0);
        }
        let next = KnownInvisibleState::from_worlds(worlds, false, state.rule);
        proof {
            assert(state_wf(&next));
        }
        path.push(o);
        let res = solve_inner(&next, remaining - 1, max_solutions, path, solutions);
        let _ = path.pop();
        proof {
            assert(path@ =~= p0);
            assert(kviews(next.worlds@) == reveal_views(gs[k as int].1));
        }
        match res {
            Err(e) => {
                return Err(e);
            },
            Ok(()) => {},
        }
        if solutions.len() >= max_solutions {
            return Ok(());
        }
        k = k + 1;
    }
    Ok(())
}

/// The cooperative solutions of at most `plies` moves from a state, shortest
/// first, in the order of the observed moves, at most `max_solutions` of
/// them: a line counts when it ends, on the rule's terminal turn, in a mate
/// proven in every remaining world, and passes through no proven mate
/// before. Fails when a group of worlds visited is too large.
pub fn solve_known_invisible_exact(initial: &KnownInvisibleState, plies: usize, max_solutions: usize) -> (r: Result<
    Vec<Vec<KnownInvisibleObservedMove>>,
    KnownInvisibleError,
>)
    requires
        state_wf(initial),
        plies < usize::MAX,
    ensures
        match ksearch_upto(
            kviews(initial.worlds@),
            initial.free_white_move,
            initial.rule,
            0,
            plies as nat,
            Seq::empty(),
            max_solutions as nat,
        ) {
            Some(s) => r matches Ok(v) && ksols_view(v@) == s,
            None => r == Err::<Vec<Vec<KnownInvisibleObservedMove>>, KnownInvisibleError>(KnownInvisibleError::TooManyWorlds),
        },
{
    let ghost vs = kviews(initial.worlds@);
    let ghost free = initial.free_white_move;
    let ghost rule = initial.rule;
    let ghost cap = max_solutions as nat;
    let ghost total = ksearch_upto(vs, free, rule, 0, plies as nat, Seq::empty(), cap);
    let mut solutions: Vec<Vec<KnownInvisibleObservedMove>> = Vec::new();
    let turn = initial.turn();
    proof {
        assert(vs[0] == kview(&initial.worlds@[0]));
        assert(ksols_view(solutions@) =~= Seq::<Seq<KnownInvisibleObservedMove>>::empty());
    }
    let terminal = initial.rule.terminal_turn();
    let mut depth: usize = 0;
    while depth <= plies
        invariant
            state_wf(initial),
            vs == kviews(initial.worlds@),
            free == initial.free_white_move,
            rule == initial.rule,
            cap == max_solutions as nat,
            turn == vs[0].0.turn,
            terminal == rule.spec_terminal_turn(),
            plies < usize::MAX,
            depth <= plies + 1,
            total == ksearch_upto(vs, free, rule, 0, plies as nat, Seq::empty(), cap),
            ksearch_upto(vs, free, rule, depth as nat, plies as nat, ksols_view(solutions@), cap) == total,
        decreases plies + 1 - depth,
    {
        let turn_at_depth = if depth % 2 == 0 {
            turn
        } else {
            turn.opposite()
        };
        if turn_at_depth == terminal {
            let mut path: Vec<KnownInvisibleObservedMove> = Vec::new();
            proof {
                assert(path@ =~= Seq::<KnownInvisibleObservedMove>::empty());
            }
            let res = solve_inner(initial, depth, max_solutions, &mut path, &mut solutions);
            match res {
                Err(e) => {
                    return Err(e);
                },
                Ok(()) => {},
            }
            if solutions.len() >= max_solutions {
                return Ok(solutions);
            }
        }
        depth = depth + 1;
    }
    Ok(solutions)
}


/// 成 for a promotion; 生 for a piece that could have promoted, its source
/// or destination in its side's promotion zone, and did not.
pub open spec fn known_suffix(promote: bool, c: Color, k: Kind, source: Square, dest: Square) -> Seq<char> {
    if promote {
        "成"@
    } else if k.spec_can_promote() && (crate::moves::promotable_row(source.spec_row(), c)
        || crate::moves::promotable_row(dest.spec_row(), c)) {
        "生"@
    } else {
        Seq::empty()
    }
}

/// A move can be written from the worlds `vs`: its squares on the board, a
/// visible piece on the source of an ordinary move, and a drop of a known
/// kind.
pub open spec fn known_writable(vs: Seq<KnownView>, o: KnownInvisibleObservedMove) -> bool {
    match o {
        KnownInvisibleObservedMove::Known(ObservedMove::Move { source, destination, .. }) => source.wf()
            && destination.wf() && vs[0].0.cell(source.spec_index()) is Piece,
        KnownInvisibleObservedMove::Known(ObservedMove::Drop { identity, destination }) => destination.wf()
            && identity is Known,
        KnownInvisibleObservedMove::Invisible => true,
        KnownInvisibleObservedMove::InvisibleCapture(sq) => sq.wf(),
    }
}

/// One move written in Japanese from the worlds `vs`, `prev` being the
/// previous destination: `X` for a hidden move, the square and `X` for a
/// hidden capture, `83銀(82)` for a move and `92歩打` for a drop.
pub open spec fn known_text(vs: Seq<KnownView>, prev: Option<Square>, o: KnownInvisibleObservedMove) -> Seq<char> {
    match o {
        KnownInvisibleObservedMove::Invisible => "X"@,
        KnownInvisibleObservedMove::InvisibleCapture(sq) => destination_text(sq, prev) + "X"@,
        KnownInvisibleObservedMove::Known(ObservedMove::Move { source, destination, promote, .. }) => match vs[0].0.cell(
            source.spec_index(),
        ) {
            Cell::Piece(c, k) => destination_text(destination, prev) + kind_name(k) + known_suffix(
                promote,
                c,
                k,
                source,
                destination,
            ) + "("@ + square_text(source) + ")"@,
            _ => Seq::empty(),
        },
        KnownInvisibleObservedMove::Known(ObservedMove::Drop { identity, destination }) => match identity {
            DropIdentity::Known(k) => destination_text(destination, prev) + kind_name(k) + "打"@,
            _ => Seq::empty(),
        },
    }
}

/// The destination a move leaves for the next one: none after a hidden move.
pub open spec fn next_prev(o: KnownInvisibleObservedMove) -> Option<Square> {
    match o {
        KnownInvisibleObservedMove::Invisible => None,
        KnownInvisibleObservedMove::InvisibleCapture(sq) => Some(sq),
        KnownInvisibleObservedMove::Known(m) => Some(m.spec_destination()),
    }
}

/// The index of the group of `o`.
pub open spec fn group_of(gs: Seq<KnownGroup>, o: KnownInvisibleObservedMove, i: int) -> Option<int>
    decreases gs.len() - i,
{
    if i < 0 || i >= gs.len() {
        None
    } else if gs[i].0 == o {
        Some(i)
    } else {
        group_of(gs, o, i + 1)
    }
}

/// The lines of a solution from its `i`-th move, replayed over the worlds
/// `vs`: each move written, then followed to its worlds; the error when the
/// worlds after a move form a group too large, or the move leads nowhere.
pub open spec fn known_lines(
    vs: Seq<KnownView>,
    free: bool,
    prev: Option<Square>,
    sol: Seq<KnownInvisibleObservedMove>,
    i: int,
) -> Result<Seq<Seq<char>>, KnownInvisibleError>
    decreases sol.len() - i,
{
    if i < 0 || i >= sol.len() {
        Ok(Seq::empty())
    } else {
        let o = sol[i];
        let gs = ksucc(vs, free);
        if too_large(gs) {
            Err(KnownInvisibleError::TooManyWorlds)
        } else {
            match group_of(gs, o, 0) {
                None => Err(KnownInvisibleError::Unreplayable),
                Some(g) => match known_lines(reveal_views(gs[g].1), false, next_prev(o), sol, i + 1) {
                    Ok(rest) => Ok(seq![known_text(vs, prev, o)] + rest),
                    Err(e) => Err(e),
                },
            }
        }
    }
}

/// Every move of the solution that is reached can be written.
pub open spec fn known_formattable(vs: Seq<KnownView>, free: bool, sol: Seq<KnownInvisibleObservedMove>, i: int) -> bool
    decreases sol.len() - i,
{
    if i < 0 || i >= sol.len() {
        true
    } else {
        let o = sol[i];
        let gs = ksucc(vs, free);
        &&& known_writable(vs, o)
        &&& !too_large(gs) ==> match group_of(gs, o, 0) {
            None => true,
            Some(g) => known_formattable(reveal_views(gs[g].1), false, sol, i + 1),
        }
    }
}

fn push_destination(s: &mut String, dest: Square, prev: Option<Square>)
    requires
        dest.wf(),
    ensures
        final(s)@ == old(s)@ + destination_text(dest, prev),
{
    let same = match prev {
        Some(p) => p == dest,
        None => false,
    };
    if same {
        s.append("同");
    } else {
        crate::observed::push_square(s, dest);
    }
}

fn format_known(state: &KnownInvisibleState, prev: Option<Square>, observed: KnownInvisibleObservedMove) -> (r: String)
    requires
        state_wf(state),
        known_writable(kviews(state.worlds@), observed),
    ensures
        r@ == known_text(kviews(state.worlds@), prev, observed),
{
    let ghost vs = kviews(state.worlds@);
    assert(vs[0] == kview(&state.worlds@[0]));
    let mut s = String::new();
    match observed {
        KnownInvisibleObservedMove::Invisible => {
            s.append("X");
        },
        KnownInvisibleObservedMove::InvisibleCapture(sq) => {
            push_destination(&mut s, sq, prev);
            s.append("X");
        },
        KnownInvisibleObservedMove::Known(ObservedMove::Move { source, destination, promote, .. }) => {
            let (color, kind) = state.worlds[0].position.get(source).unwrap();
            push_destination(&mut s, destination, prev);
            s.append(japanese_kind(kind));
            if promote {
                s.append("成");
            } else if kind.can_promote() && (crate::moves::promotable_row_exec(source.row(), color)
                || crate::moves::promotable_row_exec(destination.row(), color)) {
                s.append("生");
            }
            s.append("(");
            crate::observed::push_square(&mut s, source);
            s.append(")");
        },
        KnownInvisibleObservedMove::Known(ObservedMove::Drop { identity, destination }) => {
            if let DropIdentity::Known(kind) = identity {
                push_destination(&mut s, destination, prev);
                s.append(japanese_kind(kind));
                s.append("打");
            }
        },
    }
    proof {
        assert(s@ =~= known_text(vs, prev, observed));
    }
    s
}


/// A copy of a state.
fn copy_state(state: &KnownInvisibleState) -> (r: KnownInvisibleState)
    requires
        state_wf(state),
    ensures
        state_wf(&r),
        kviews(r.worlds@) == kviews(state.worlds@),
        r.free_white_move == state.free_white_move,
        r.rule == state.rule,
{
    let mut worlds: Vec<InvisibleWorld> = Vec::new();
    let mut i: usize = 0;
    while i < state.worlds.len()
        invariant
            state_wf(state),
            i <= state.worlds@.len(),
            worlds@.len() == i,
            forall|j: int| 0 <= j < i ==> (#[trigger] worlds@[j]).wf() && kview(&worlds@[j]) == kview(&state.worlds@[j]),
        decreases state.worlds@.len() - i,
    {
        let w = state.worlds[i].copy();
        worlds.push(w);
        i = i + 1;
    }
    let r = KnownInvisibleState { worlds, free_white_move: state.free_white_move, rule: state.rule };
    proof {
        assert(kviews(r.worlds@) =~= kviews(state.worlds@));
    }
    r
}

/// A solution written in Japanese, one line per move: `X` for a hidden
/// move, the square and `X` for a hidden capture, 同 for a move to the
/// previous destination, 成 for a promotion and 生 for a piece that declined
/// one; each move followed to the worlds it leads to.
pub fn format_known_invisible_solution_japanese(
    initial: &KnownInvisibleState,
    solution: &Vec<KnownInvisibleObservedMove>,
) -> (r: Result<Vec<String>, KnownInvisibleError>)
    requires
        state_wf(initial),
        known_formattable(kviews(initial.worlds@), initial.free_white_move, solution@, 0),
    ensures
        match known_lines(kviews(initial.worlds@), initial.free_white_move, None, solution@, 0) {
            Ok(t) => r matches Ok(v) && texts_view(v@) == t,
            Err(e) => r == Err::<Vec<String>, KnownInvisibleError>(e),
        },
{
    let ghost total = known_lines(kviews(initial.worlds@), initial.free_white_move, None, solution@, 0);
    let mut state = copy_state(initial);
    let mut result: Vec<String> = Vec::new();
    let mut prev: Option<Square> = None;
    let mut i: usize = 0;
    while i < solution.len()
        invariant
            i <= solution@.len(),
            state_wf(&state),
            known_formattable(kviews(state.worlds@), state.free_white_move, solution@, i as int),
            total == known_lines(kviews(initial.worlds@), initial.free_white_move, None, solution@, 0),
            total == match known_lines(kviews(state.worlds@), state.free_white_move, prev, solution@, i as int) {
                Ok(rest) => Ok::<Seq<Seq<char>>, KnownInvisibleError>(texts_view(result@) + rest),
                Err(e) => Err(e),
            },
        decreases solution@.len() - i,
    {
        let observed = solution[i];
        let ghost vs = kviews(state.worlds@);
        let line = format_known(&state, prev, observed);
        let groups = match successors(&state.worlds, state.free_white_move) {
            Ok(g) => g,
            Err(e) => {
                return Err(e);
            },
        };
        let ghost gs = groups_view(groups@);
        let mut g: usize = 0;
        let mut found: Option<usize> = None;
        while g < groups.len()
            invariant
                g <= groups@.len(),
                gs == groups_view(groups@),
                found is None ==> group_of(gs, observed, 0) == group_of(gs, observed, g as int),
                found matches Some(f) ==> group_of(gs, observed, 0) == Some(f as int) && f < groups@.len(),
            decreases groups@.len() - g,
        {
            if found.is_none() && groups[g].0 == observed {
                assert(gs[g as int].0 == observed);
                found = Some(g);
            }
            g = g + 1;
        }
        let f = match found {
            Some(f) => f,
            None => {
                return Err(KnownInvisibleError::Unreplayable);
            },
        };
        let mut groups = groups;
        let (o, worlds) = groups.remove(f);
        proof {
            lemma_ksucc_ok(vs, state.free_white_move);
            assert(gs[f as int] == (o, kviews(worlds@)));
            assert(kviews(worlds@).len() > 0);
        }
        let next = KnownInvisibleState::from_worlds(worlds, false, state.rule);
        let ghost before = result@;
        result.push(line);
        proof {
            assert(texts_view(result@) =~= texts_view(before).push(line@));
            assert(kviews(next.worlds@) == reveal_views(gs[f as int].1));
            match known_lines(kviews(next.worlds@), false, next_prev(observed), solution@, i + 1) {
                Ok(rest) => {
                    assert(texts_view(before) + (seq![line@] + rest) =~= texts_view(result@) + rest);
                },
                Err(e) => {},
            }
        }
        state = next;
        prev = match observed {
            KnownInvisibleObservedMove::Invisible => None,
            KnownInvisibleObservedMove::InvisibleCapture(sq) => Some(sq),
            KnownInvisibleObservedMove::Known(m) => Some(m.destination()),
        };
        i = i + 1;
    }
    proof {
        assert(texts_view(result@) + Seq::<Seq<char>>::empty() =~= texts_view(result@));
    }
    Ok(result)
}


fn writable_exec(state: &KnownInvisibleState, o: KnownInvisibleObservedMove) -> (r: bool)
    requires
        state_wf(state),
    ensures
        r == known_writable(kviews(state.worlds@), o),
{
    let ghost vs = kviews(state.worlds@);
    assert(vs[0] == kview(&state.worlds@[0]));
    match o {
        KnownInvisibleObservedMove::Known(ObservedMove::Move { source, destination, .. }) => {
            source.idx < 81 && destination.idx < 81 && state.worlds[0].position.get(source).is_some()
        },
        KnownInvisibleObservedMove::Known(ObservedMove::Drop { identity, destination }) => {
            destination.idx < 81 && match identity {
                DropIdentity::Known(_) => true,
                _ => false,
            }
        },
        KnownInvisibleObservedMove::Invisible => true,
        KnownInvisibleObservedMove::InvisibleCapture(sq) => sq.idx < 81,
    }
}

/// Whether every move of the solution that the replay reaches can be
/// written: what `format_known_invisible_solution_japanese` asks of it.
pub fn known_solution_formattable(initial: &KnownInvisibleState, solution: &Vec<KnownInvisibleObservedMove>) -> (r: bool)
    requires
        state_wf(initial),
    ensures
        r == known_formattable(kviews(initial.worlds@), initial.free_white_move, solution@, 0),
{
    let ghost total = known_formattable(kviews(initial.worlds@), initial.free_white_move, solution@, 0);
    let mut state = copy_state(initial);
    let mut i: usize = 0;
    while i < solution.len()
        invariant
            i <= solution@.len(),
            state_wf(&state),
            total == known_formattable(kviews(initial.worlds@), initial.free_white_move, solution@, 0),
            total == known_formattable(kviews(state.worlds@), state.free_white_move, solution@, i as int),
        decreases solution@.len() - i,
    {
        let observed = solution[i];
        let ghost vs = kviews(state.worlds@);
        if !writable_exec(&state, observed) {
            return false;
        }
        let groups = match successors(&state.worlds, state.free_white_move) {
            Ok(g) => g,
            Err(_) => {
                return true;
            },
        };
        let ghost gs = groups_view(groups@);
        let mut g: usize = 0;
        let mut found: Option<usize> = None;
        while g < groups.len()
            invariant
                g <= groups@.len(),
                gs == groups_view(groups@),
                found is None ==> group_of(gs, observed, 0) == group_of(gs, observed, g as int),
                found matches Some(f) ==> group_of(gs, observed, 0) == Some(f as int) && f < groups@.len(),
            decreases groups@.len() - g,
        {
            if found.is_none() && groups[g].0 == observed {
                assert(gs[g as int].0 == observed);
                found = Some(g);
            }
            g = g + 1;
        }
        let f = match found {
            Some(f) => f,
            None => {
                return true;
            },
        };
        let mut groups = groups;
        let (o, worlds) = groups.remove(f);
        proof {
            lemma_ksucc_ok(vs, state.free_white_move);
            assert(gs[f as int] == (o, kviews(worlds@)));
            assert(kviews(worlds@).len() > 0);
        }
        let next = KnownInvisibleState::from_worlds(worlds, false, state.rule);
        proof {
            assert(kviews(next.worlds@) == reveal_views(gs[f as int].1));
        }
        state = next;
        i = i + 1;
    }
    true
}

} // verus!
