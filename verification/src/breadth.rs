use vstd::prelude::*;

use crate::help_selfmate::{help_selfmate_end, hsm_branch, hsm_lines, hsm_lines_from, is_help_selfmate, searched};
use crate::low_mem::{mate_lines, mate_lines_from, positions_view, starts_lines, std_searched, white_mated};
use crate::moves::{advance, apply, generated, lemma_apply_turn, moved};
use crate::piece::Color;
use crate::position::{Movement, Position, PositionView};

verus! {

// The breadth-first search shared by the two shortest-line searches. A
// round starts from positions with white to move, plays a white move and a
// black reply (black always checks), and records the positions reached for
// the first time. Under the help selfmate rules (`hs`) a white move that
// mates black ends a line; otherwise a line ends where white is mated.

/// The position after the moves `ms` from `p`.
pub open spec fn play(p: PositionView, ms: Seq<Movement>) -> PositionView
    decreases ms.len(),
{
    if ms.len() == 0 {
        p
    } else {
        apply(play(p, ms.drop_last()), ms.last())
    }
}

/// The search stops at `b`: under the help selfmate rules, black is mated
/// there.
pub open spec fn stops(hs: bool, b: PositionView) -> bool {
    hs && help_selfmate_end(b)
}

/// The moves `ms` are searched moves from `p` in turn, and the search stops
/// after none of them.
pub open spec fn clear_path(hs: bool, p: PositionView, ms: Seq<Movement>) -> bool
    decreases ms.len(),
{
    if ms.len() == 0 {
        true
    } else {
        &&& clear_path(hs, p, ms.drop_last())
        &&& searched(play(p, ms.drop_last())).contains(ms.last())
        &&& !stops(hs, play(p, ms))
    }
}

/// `q`, white to move, is reached from `p` by a clear path of at most `n`
/// moves.
pub open spec fn reached_from(hs: bool, p: PositionView, n: nat, q: PositionView) -> bool {
    &&& q.turn == Color::White
    &&& exists|ms: Seq<Movement>| #![trigger play(p, ms)] clear_path(hs, p, ms) && ms.len() <= n && play(p, ms) == q
}

/// `q`, white to move, is reached from one of the starts `ps` by a clear
/// path of at most `n` moves.
pub open spec fn reached_within(hs: bool, ps: Seq<PositionView>, n: nat, q: PositionView) -> bool {
    exists|s: int| 0 <= s < ps.len() && #[trigger] reached_from(hs, ps[s], n, q)
}

/// White, to move at `w`, has a move that ends a help selfmate.
pub open spec fn mates_next(w: PositionView) -> bool {
    exists|m: Movement| #[trigger] searched(w).contains(m) && help_selfmate_end(apply(w, m))
}

/// A line ends at `w` or right after it: under the help selfmate rules a
/// white move ends a help selfmate; otherwise white is mated at `w`.
pub open spec fn mate_from(hs: bool, w: PositionView) -> bool {
    if hs {
        mates_next(w)
    } else {
        white_mated(w)
    }
}

/// Every position that follows `w` after a white move the search does not
/// stop at and a black reply is in `vs`.
pub open spec fn expanded_into(hs: bool, w: PositionView, vs: Seq<PositionView>) -> bool {
    forall|a: Movement, b: Movement|
        #![trigger searched(w).contains(a), searched(apply(w, a)).contains(b)]
        searched(w).contains(a) && !stops(hs, apply(w, a)) && searched(apply(w, a)).contains(b) ==> vs.contains(
            apply(apply(w, a), b),
        )
}

/// A breadth-first search from the starts `ps` over the paths of at most
/// `d` moves: `vs` holds, once each, exactly the positions with white to
/// move reached within `d` moves, and those before `f` are done with: no
/// line ends at or right after them, and the positions that follow them are
/// in `vs`.
pub open spec fn search_state(hs: bool, ps: Seq<PositionView>, d: nat, vs: Seq<PositionView>, f: int) -> bool {
    &&& 0 <= f <= vs.len()
    &&& vs.no_duplicates()
    &&& forall|i: int| 0 <= i < vs.len() ==> reached_within(hs, ps, d, #[trigger] vs[i])
    &&& forall|q: PositionView| #[trigger] reached_within(hs, ps, d, q) ==> vs.contains(q)
    &&& forall|i: int| #![trigger vs[i]] 0 <= i < f ==> !mate_from(hs, vs[i]) && expanded_into(hs, vs[i], vs)
}

/// Each move passes the turn.
pub proof fn lemma_play_turn(p: PositionView, ms: Seq<Movement>)
    ensures
        play(p, ms).turn == (if ms.len() % 2 == 0 {
            p.turn
        } else {
            p.turn.spec_opposite()
        }),
    decreases ms.len(),
{
    if ms.len() > 0 {
        lemma_play_turn(p, ms.drop_last());
        lemma_apply_turn(play(p, ms.drop_last()), ms.last());
    }
}

/// A path read from its first move.
pub proof fn lemma_path_cons(hs: bool, p: PositionView, a: Movement, rest: Seq<Movement>)
    ensures
        clear_path(hs, p, seq![a] + rest) <==> (searched(p).contains(a) && !stops(hs, apply(p, a)) && clear_path(
            hs,
            apply(p, a),
            rest,
        )),
        play(p, seq![a] + rest) == play(apply(p, a), rest),
    decreases rest.len(),
{
    let s = seq![a] + rest;
    let q = apply(p, a);
    if rest.len() == 0 {
        assert(s =~= seq![a]);
        assert(s.drop_last() =~= Seq::<Movement>::empty());
        assert(play(p, s.drop_last()) == p);
        assert(clear_path(hs, p, s.drop_last()));
        assert(s.last() == a);
        assert(play(p, s) == q);
        assert(clear_path(hs, p, s) == (searched(p).contains(a) && !stops(hs, q)));
    } else {
        let sd = s.drop_last();
        assert(sd =~= seq![a] + rest.drop_last());
        assert(s.last() == rest.last());
        lemma_path_cons(hs, p, a, rest.drop_last());
        assert(play(p, sd) == play(q, rest.drop_last()));
        assert(play(p, s) == apply(play(p, sd), rest.last()));
        assert(play(p, s) == play(q, rest));
        assert(clear_path(hs, p, s) == (clear_path(hs, p, sd) && searched(play(p, sd)).contains(s.last()) && !stops(
            hs,
            play(p, s),
        )));
        assert(clear_path(hs, q, rest) == (clear_path(hs, q, rest.drop_last()) && searched(
            play(q, rest.drop_last()),
        ).contains(rest.last()) && !stops(hs, play(q, rest))));
    }
}

/// A path read up to its last move.
pub proof fn lemma_path_push(hs: bool, p: PositionView, ms: Seq<Movement>, a: Movement)
    ensures
        clear_path(hs, p, ms.push(a)) == (clear_path(hs, p, ms) && searched(play(p, ms)).contains(a) && !stops(
            hs,
            apply(play(p, ms), a),
        )),
        play(p, ms.push(a)) == apply(play(p, ms), a),
{
    assert(ms.push(a).drop_last() =~= ms);
}

/// Once no position is left to expand, every position with white to move
/// reached by a clear path from a start is among those found.
pub proof fn lemma_reach_explored(
    hs: bool,
    ps: Seq<PositionView>,
    d: nat,
    vs: Seq<PositionView>,
    s: int,
    ms: Seq<Movement>,
)
    requires
        search_state(hs, ps, d, vs, vs.len() as int),
        0 <= s < ps.len(),
        ps[s].turn == Color::Black ==> d >= 1,
        clear_path(hs, ps[s], ms),
        play(ps[s], ms).turn == Color::White,
    ensures
        vs.contains(play(ps[s], ms)),
    decreases ms.len(),
{
    let p = ps[s];
    lemma_play_turn(p, ms);
    if ms.len() <= d {
        assert(reached_from(hs, ps[s], d, play(p, ms)));
        assert(reached_within(hs, ps, d, play(p, ms)));
    } else {
        let m1 = ms.drop_last();
        let m2 = m1.drop_last();
        assert(clear_path(hs, p, m1) && searched(play(p, m1)).contains(ms.last()) && !stops(hs, play(p, ms)));
        assert(m1.len() > 0);
        assert(clear_path(hs, p, m2) && searched(play(p, m2)).contains(m1.last()) && !stops(hs, play(p, m1)));
        lemma_play_turn(p, m2);
        let w = play(p, m2);
        lemma_reach_explored(hs, ps, d, vs, s, m2);
        let i = choose|i: int| 0 <= i < vs.len() && vs[i] == w;
        assert(vs[i] == w);
        let a = m1.last();
        let b = ms.last();
        assert(searched(w).contains(a));
        assert(searched(apply(w, a)).contains(b));
        assert(expanded_into(hs, w, vs));
    }
}

/// `q` follows `w` after a white move the search does not stop at and a
/// black reply.
pub open spec fn follows(hs: bool, w: PositionView, q: PositionView) -> bool {
    exists|a: Movement, b: Movement|
        #![trigger searched(w).contains(a), searched(apply(w, a)).contains(b)]
        searched(w).contains(a) && !stops(hs, apply(w, a)) && searched(apply(w, a)).contains(b) && q == apply(
            apply(w, a),
            b,
        )
}

/// A position that follows one reached within `d` moves is reached within
/// `d + 2`.
proof fn lemma_follows_reached(hs: bool, ps: Seq<PositionView>, d: nat, w: PositionView, q: PositionView)
    requires
        reached_within(hs, ps, d, w),
        follows(hs, w, q),
    ensures
        reached_within(hs, ps, d + 2, q),
{
    let s = choose|s: int| 0 <= s < ps.len() && #[trigger] reached_from(hs, ps[s], d, w);
    let p = ps[s];
    let ms = choose|ms: Seq<Movement>| #![trigger play(p, ms)] clear_path(hs, p, ms) && ms.len() <= d && play(p, ms) == w;
    let (a, b) = choose|a: Movement, b: Movement|
        #![trigger searched(w).contains(a), searched(apply(w, a)).contains(b)]
        searched(w).contains(a) && !stops(hs, apply(w, a)) && searched(apply(w, a)).contains(b) && q == apply(
            apply(w, a),
            b,
        );
    lemma_path_push(hs, p, ms, a);
    lemma_path_push(hs, p, ms.push(a), b);
    lemma_apply_turn(w, a);
    lemma_apply_turn(apply(w, a), b);
    let ms2 = ms.push(a).push(b);
    assert(clear_path(hs, p, ms2) && ms2.len() <= d + 2 && play(p, ms2) == q);
    assert(reached_from(hs, ps[s], d + 2, q));
}

/// Some move from the `k`-th on starts a line when `hsm_lines_from` has one.
proof fn lemma_from_branch(p: PositionView, n: nat, prefix: Seq<Movement>, ms: Seq<Movement>, k: int) -> (j: int)
    requires
        hsm_lines_from(p, n, prefix, ms, k).len() > 0,
    ensures
        0 <= k <= j < ms.len(),
        n > 0,
        hsm_branch(p, n, prefix, ms[j]).len() > 0,
    decreases ms.len() - k,
{
    if hsm_branch(p, n, prefix, ms[k]).len() > 0 {
        k
    } else {
        lemma_from_branch(p, n, prefix, ms, k + 1)
    }
}

/// A move with a line after it gives `hsm_lines_from` a line.
proof fn lemma_branch_from(p: PositionView, n: nat, prefix: Seq<Movement>, ms: Seq<Movement>, k: int, j: int)
    requires
        0 <= k <= j < ms.len(),
        n > 0,
        hsm_branch(p, n, prefix, ms[j]).len() > 0,
    ensures
        hsm_lines_from(p, n, prefix, ms, k).len() > 0,
    decreases j - k,
{
    if k < j {
        lemma_branch_from(p, n, prefix, ms, k + 1, j);
    }
}

/// A clear path followed by a white move that ends a help selfmate is a
/// help selfmate line.
pub proof fn lemma_lines_from_path(p: PositionView, ms: Seq<Movement>, m: Movement, prefix: Seq<Movement>)
    requires
        clear_path(true, p, ms),
        searched(play(p, ms)).contains(m),
        help_selfmate_end(apply(play(p, ms), m)),
    ensures
        hsm_lines(p, ms.len() + 1, prefix).len() > 0,
    decreases ms.len(),
{
    let n = ms.len() + 1;
    if ms.len() == 0 {
        let j = choose|j: int| 0 <= j < searched(p).len() && searched(p)[j] == m;
        assert(hsm_branch(p, n, prefix, m) == seq![prefix.push(m)]);
        lemma_branch_from(p, n, prefix, searched(p), 0, j);
    } else {
        let a = ms[0];
        let rest = ms.drop_first();
        assert(ms =~= seq![a] + rest);
        lemma_path_cons(true, p, a, rest);
        lemma_lines_from_path(apply(p, a), rest, m, prefix.push(a));
        let j = choose|j: int| 0 <= j < searched(p).len() && searched(p)[j] == a;
        lemma_branch_from(p, n, prefix, searched(p), 0, j);
    }
}

/// A help selfmate line is a clear path followed by a white move that ends
/// the help selfmate.
pub proof fn lemma_path_from_lines(p: PositionView, n: nat, prefix: Seq<Movement>) -> (r: (Seq<Movement>, Movement))
    requires
        hsm_lines(p, n, prefix).len() > 0,
    ensures
        clear_path(true, p, r.0),
        r.0.len() + 1 == n,
        searched(play(p, r.0)).contains(r.1),
        help_selfmate_end(apply(play(p, r.0), r.1)),
    decreases n,
{
    let j = lemma_from_branch(p, n, prefix, searched(p), 0);
    let a = searched(p)[j];
    assert(searched(p).contains(a));
    let q = apply(p, a);
    if help_selfmate_end(q) {
        assert(play(p, Seq::<Movement>::empty()) == p);
        (Seq::empty(), a)
    } else {
        let (rest, m) = lemma_path_from_lines(q, (n - 1) as nat, prefix.push(a));
        lemma_path_cons(true, p, a, rest);
        (seq![a] + rest, m)
    }
}

/// Once no position is left to expand, no help selfmate line exists at all.
pub proof fn lemma_search_complete(p: PositionView, d: nat, vs: Seq<PositionView>)
    requires
        search_state(true, seq![p], d, vs, vs.len() as int),
        p.turn == Color::Black ==> d >= 1,
    ensures
        forall|n: nat| #[trigger] hsm_lines(p, n, Seq::empty()).len() == 0,
{
    assert forall|n: nat| #[trigger] hsm_lines(p, n, Seq::empty()).len() == 0 by {
        if hsm_lines(p, n, Seq::empty()).len() > 0 {
            let (ms, m) = lemma_path_from_lines(p, n, Seq::empty());
            let w = play(p, ms);
            lemma_apply_turn(w, m);
            assert(seq![p][0] == p);
            lemma_reach_explored(true, seq![p], d, vs, 0, ms);
            let i = choose|i: int| 0 <= i < vs.len() && vs[i] == w;
            assert(vs[i] == w);
            assert(searched(w).contains(m) && help_selfmate_end(apply(w, m)));
        }
    }
}

/// A help selfmate follows a position not yet expanded exactly when the
/// shortest help selfmate lines are one move longer than the paths
/// searched.
pub proof fn lemma_mate_found(p: PositionView, d: nat, vs: Seq<Position>, f: int)
    requires
        search_state(true, seq![p], d, positions_view(vs), f),
        forall|n: nat| 1 <= n <= d ==> #[trigger] hsm_lines(p, n, Seq::empty()).len() == 0,
    ensures
        (exists|i: int| f <= i < vs.len() && mates_next(#[trigger] vs[i]@)) <==> hsm_lines(p, d + 1, Seq::empty()).len()
            > 0,
{
    let v = positions_view(vs);
    assert(seq![p][0] == p);
    if exists|i: int| f <= i < vs.len() && mates_next(#[trigger] vs[i]@) {
        let i = choose|i: int| f <= i < vs.len() && mates_next(#[trigger] vs[i]@);
        let w = vs[i]@;
        assert(v[i] == w);
        assert(reached_within(true, seq![p], d, v[i]));
        let s = choose|s: int| 0 <= s < 1 && #[trigger] reached_from(true, seq![p][s], d, w);
        assert(s == 0);
        let ms = choose|ms: Seq<Movement>| #![trigger play(p, ms)] clear_path(true, p, ms) && ms.len() <= d && play(p, ms) == w;
        let m = choose|m: Movement| #[trigger] searched(w).contains(m) && help_selfmate_end(apply(w, m));
        lemma_lines_from_path(p, ms, m, Seq::empty());
        if ms.len() + 1 <= d {
            assert(hsm_lines(p, (ms.len() + 1) as nat, Seq::empty()).len() == 0);
        }
    }
    if hsm_lines(p, d + 1, Seq::empty()).len() > 0 {
        let (ms, m) = lemma_path_from_lines(p, d + 1, Seq::empty());
        let w = play(p, ms);
        lemma_apply_turn(w, m);
        assert(reached_from(true, seq![p][0], d, w));
        assert(reached_within(true, seq![p], d, w));
        assert(v.contains(w));
        let i = choose|i: int| 0 <= i < v.len() && v[i] == w;
        assert(searched(w).contains(m) && help_selfmate_end(apply(w, m)));
        if i < f {
            assert(!mate_from(true, v[i]));
        }
        assert(f <= i < vs.len() && mates_next(vs[i]@));
    }
}

/// All positions of `v` are well formed.
pub open spec fn all_wf(v: Seq<Position>) -> bool {
    forall|i: int| 0 <= i < v.len() ==> (#[trigger] v[i]).wf()
}

/// The same position, the side to move and the pawn-drop mark included.
pub fn same_position(x: &Position, y: &Position) -> (r: bool)
    requires
        x.wf(),
        y.wf(),
    ensures
        r == (x@ == y@),
{
    if x.turn != y.turn || x.pawn_drop != y.pawn_drop {
        return false;
    }
    let mut i: usize = 0;
    while i < 81
        invariant
            x.wf(),
            y.wf(),
            i <= 81,
            forall|j: int| 0 <= j < i ==> x.board@[j] == y.board@[j],
        decreases 81 - i,
    {
        if x.board[i] != y.board[i] {
            return false;
        }
        i = i + 1;
    }
    let mut i: usize = 0;
    while i < 14
        invariant
            x.wf(),
            y.wf(),
            i <= 14,
            forall|j: int| 0 <= j < i ==> x.hands.counts@[j] == y.hands.counts@[j],
        decreases 14 - i,
    {
        if x.hands.counts[i] != y.hands.counts[i] {
            return false;
        }
        i = i + 1;
    }
    proof {
        assert(x.board@ =~= y.board@);
        assert(x.hands.counts@ =~= y.hands.counts@);
    }
    true
}

/// Whether `q` is among the positions `vs`.
fn holds(vs: &Vec<Position>, q: &Position) -> (r: bool)
    requires
        all_wf(vs@),
        q.wf(),
    ensures
        r == positions_view(vs@).contains(q@),
{
    let mut i: usize = 0;
    while i < vs.len()
        invariant
            all_wf(vs@),
            q.wf(),
            i <= vs@.len(),
            forall|j: int| 0 <= j < i ==> vs@[j]@ != q@,
        decreases vs@.len() - i,
    {
        if same_position(&vs[i], q) {
            proof {
                assert(positions_view(vs@)[i as int] == q@);
            }
            return true;
        }
        i = i + 1;
    }
    proof {
        if positions_view(vs@).contains(q@) {
            let j = choose|j: int| 0 <= j < positions_view(vs@).len() && positions_view(vs@)[j] == q@;
            assert(vs@[j]@ == q@);
        }
    }
    false
}

/// The positions of `vs` from the `lo`-th on each follow `b` after one of
/// its searched moves.
pub open spec fn replies_from(b: PositionView, vs: Seq<Position>, lo: int) -> bool {
    forall|j: int| lo <= j < vs.len() ==> reply_of(b, #[trigger] vs[j]@)
}

/// `q` follows `b` after one of its searched moves.
pub open spec fn reply_of(b: PositionView, q: PositionView) -> bool {
    exists|m: Movement| #[trigger] searched(b).contains(m) && q == apply(b, m)
}

/// Adds to `vs`, once each and in move order, the positions after the
/// searched moves of `b` that are not there yet.
fn add_replies(vs: Vec<Position>, b: &Position) -> (r: Vec<Position>)
    requires
        b.wf(),
        all_wf(vs@),
        positions_view(vs@).no_duplicates(),
    ensures
        all_wf(r@),
        positions_view(r@).no_duplicates(),
        r@.len() >= vs@.len(),
        r@.take(vs@.len() as int) == vs@,
        forall|m: Movement| searched(b@).contains(m) ==> positions_view(r@).contains(#[trigger] apply(b@, m)),
        replies_from(b@, r@, vs@.len() as int),
{
    let mut vs = vs;
    let ghost v0 = vs@;
    let (moves, _) = advance(b);
    let ghost ms = moves@;
    let mut k: usize = 0;
    while k < moves.len()
        invariant
            b.wf(),
            ms == moves@,
            ms == searched(b@),
            forall|m: Movement| ms.contains(m) <==> generated(b@, b@.turn == Color::Black, m),
            k <= ms.len(),
            all_wf(vs@),
            positions_view(vs@).no_duplicates(),
            vs@.len() >= v0.len(),
            vs@.take(v0.len() as int) == v0,
            forall|t: int| 0 <= t < k ==> positions_view(vs@).contains(#[trigger] apply(b@, ms[t])),
            forall|j: int|
                #![trigger vs@[j]]
                v0.len() <= j < vs@.len() ==> exists|m: Movement| #[trigger] ms.contains(m) && vs@[j]@ == apply(b@, m),
        decreases ms.len() - k,
    {
        let m = moves[k];
        proof {
            assert(ms.contains(ms[k as int]));
        }
        let q = moved(b, m);
        if !holds(&vs, &q) {
            let ghost before = vs@;
            vs.push(q);
            proof {
                assert(positions_view(vs@) =~= positions_view(before).push(q@));
                assert(vs@.take(v0.len() as int) =~= before.take(v0.len() as int));
                assert forall|t: int| 0 <= t < k implies positions_view(vs@).contains(#[trigger] apply(b@, ms[t])) by {
                    let j = choose|j: int| 0 <= j < positions_view(before).len() && positions_view(before)[j] == apply(b@, ms[t]);
                    assert(positions_view(vs@)[j] == apply(b@, ms[t]));
                }
                assert(positions_view(vs@)[before.len() as int] == apply(b@, ms[k as int]));
                assert forall|j: int| #![trigger vs@[j]] v0.len() <= j < vs@.len() implies exists|m: Movement|
                    #[trigger] ms.contains(m) && vs@[j]@ == apply(b@, m) by {
                    if j < before.len() {
                        assert(vs@[j] == before[j]);
                    } else {
                        assert(ms.contains(ms[k as int]) && vs@[j]@ == apply(b@, ms[k as int]));
                    }
                }
                assert forall|i: int| 0 <= i < vs@.len() implies (#[trigger] vs@[i]).wf() by {
                    if i < before.len() {
                        assert(vs@[i] == before[i]);
                    }
                }
            }
        }
        k = k + 1;
    }
    proof {
        assert forall|m: Movement| searched(b@).contains(m) implies positions_view(vs@).contains(#[trigger] apply(b@, m)) by {
            let t = choose|t: int| 0 <= t < ms.len() && ms[t] == m;
            assert(positions_view(vs@).contains(apply(b@, ms[t])));
        }
        assert forall|j: int| v0.len() <= j < vs@.len() implies reply_of(b@, #[trigger] vs@[j]@) by {
            let m = choose|m: Movement| #[trigger] ms.contains(m) && vs@[j]@ == apply(b@, m);
            assert(searched(b@).contains(m));
        }
    }
    vs
}



/// The positions of `vs` from the `lo`-th on each follow `w`.
pub open spec fn follows_from(hs: bool, w: PositionView, vs: Seq<Position>, lo: int) -> bool {
    forall|j: int| lo <= j < vs.len() ==> follows(hs, w, #[trigger] vs[j]@)
}

/// `q` follows one of `vs[lo..hi]`.
pub open spec fn follows_some(hs: bool, vs: Seq<Position>, lo: int, hi: int, q: PositionView) -> bool {
    exists|i: int| lo <= i < hi && follows(hs, #[trigger] vs[i]@, q)
}

/// What `a` holds, `b` holds too when `a` is a prefix of `b`.
proof fn lemma_prefix_contains(a: Seq<Position>, b: Seq<Position>)
    requires
        b.len() >= a.len(),
        b.take(a.len() as int) == a,
    ensures
        forall|x: PositionView| positions_view(a).contains(x) ==> #[trigger] positions_view(b).contains(x),
{
    assert forall|x: PositionView| positions_view(a).contains(x) implies #[trigger] positions_view(b).contains(x) by {
        let j = choose|j: int| 0 <= j < positions_view(a).len() && positions_view(a)[j] == x;
        assert(b[j] == b.take(a.len() as int)[j]);
        assert(positions_view(b)[j] == x);
    }
}

/// Positions after `w` found in `a` are found in `b` too.
proof fn lemma_expanded_grow(hs: bool, w: PositionView, a: Seq<PositionView>, b: Seq<PositionView>)
    requires
        expanded_into(hs, w, a),
        forall|x: PositionView| a.contains(x) ==> #[trigger] b.contains(x),
    ensures
        expanded_into(hs, w, b),
{
}

/// Adds to `vs` what follows `w`: for each white move in turn that the
/// search does not stop at, the positions after black's replies, once each.
/// Tells whether a line ends at or right after `w`.
fn expand_one(hs: bool, vs: Vec<Position>, w: &Position) -> (r: (Vec<Position>, bool))
    requires
        w.wf(),
        w@.turn == Color::White,
        all_wf(vs@),
        positions_view(vs@).no_duplicates(),
    ensures
        all_wf(r.0@),
        positions_view(r.0@).no_duplicates(),
        r.0@.len() >= vs@.len(),
        r.0@.take(vs@.len() as int) == vs@,
        r.1 == mate_from(hs, w@),
        expanded_into(hs, w@, positions_view(r.0@)),
        follows_from(hs, w@, r.0@, vs@.len() as int),
{
    let mut vs = vs;
    let ghost v0 = vs@;
    let (moves, stuck) = advance(w);
    let ghost ms = moves@;
    let mut mate = !hs && stuck;
    let mut k: usize = 0;
    while k < moves.len()
        invariant
            w.wf(),
            w@.turn == Color::White,
            ms == moves@,
            ms == searched(w@),
            forall|m: Movement| ms.contains(m) <==> generated(w@, w@.turn == Color::Black, m),
            k <= ms.len(),
            all_wf(vs@),
            positions_view(vs@).no_duplicates(),
            vs@.len() >= v0.len(),
            vs@.take(v0.len() as int) == v0,
            mate == ((!hs && white_mated(w@)) || exists|t: int| 0 <= t < k && #[trigger] stops(hs, apply(w@, ms[t]))),
            forall|t: int, b: Movement|
                #![trigger searched(apply(w@, ms[t])).contains(b)]
                0 <= t < k && !stops(hs, apply(w@, ms[t])) && searched(apply(w@, ms[t])).contains(b)
                    ==> positions_view(vs@).contains(apply(apply(w@, ms[t]), b)),
            follows_from(hs, w@, vs@, v0.len() as int),
        decreases ms.len() - k,
    {
        let a = moves[k];
        proof {
            assert(ms.contains(ms[k as int]));
        }
        let b = moved(w, a);
        if hs && is_help_selfmate(&b) {
            proof {
                assert(stops(hs, apply(w@, ms[k as int])));
            }
            mate = true;
        } else {
            proof {
                assert(!stops(hs, apply(w@, ms[k as int])));
            }
            let ghost before = vs@;
            vs = add_replies(vs, &b);
            proof {
                lemma_prefix_contains(before, vs@);
                assert(vs@.take(v0.len() as int) =~= before.take(v0.len() as int)) by {
                    assert(vs@.take(before.len() as int) == before);
                }
                assert forall|j: int| v0.len() <= j < vs@.len() implies follows(hs, w@, #[trigger] vs@[j]@) by {
                    if j < before.len() {
                        assert(vs@[j] == vs@.take(before.len() as int)[j]);
                        assert(follows(hs, w@, before[j]@));
                    } else {
                        assert(reply_of(b@, vs@[j]@));
                        let bm = choose|bm: Movement| #[trigger] searched(b@).contains(bm) && vs@[j]@ == apply(b@, bm);
                        assert(searched(w@).contains(a) && searched(apply(w@, a)).contains(bm));
                    }
                }
            }
        }
        k = k + 1;
    }
    proof {
        if hs {
            if mate {
                let t = choose|t: int| 0 <= t < k && #[trigger] stops(hs, apply(w@, ms[t]));
                assert(ms.contains(ms[t]));
            }
            if mates_next(w@) {
                let m = choose|m: Movement| #[trigger] searched(w@).contains(m) && help_selfmate_end(apply(w@, m));
                let t = choose|t: int| 0 <= t < ms.len() && ms[t] == m;
                assert(stops(hs, apply(w@, ms[t])));
            }
        }
        assert forall|a: Movement, b: Movement|
            #![trigger searched(w@).contains(a), searched(apply(w@, a)).contains(b)]
            searched(w@).contains(a) && !stops(hs, apply(w@, a)) && searched(apply(w@, a)).contains(b)
                implies positions_view(vs@).contains(apply(apply(w@, a), b)) by {
            let t = choose|t: int| 0 <= t < ms.len() && ms[t] == a;
            assert(searched(apply(w@, ms[t])).contains(b));
        }
    }
    (vs, mate)
}

/// Expands the positions `vs[fresh..]` in turn: adds, once each, every
/// position that follows one of them, and tells whether a line ends at or
/// right after one of them.
pub fn expand(hs: bool, vs: Vec<Position>, fresh: usize) -> (r: (Vec<Position>, bool))
    requires
        fresh <= vs@.len(),
        all_wf(vs@),
        forall|i: int| 0 <= i < vs@.len() ==> (#[trigger] vs@[i])@.turn == Color::White,
        positions_view(vs@).no_duplicates(),
    ensures
        all_wf(r.0@),
        positions_view(r.0@).no_duplicates(),
        r.0@.len() >= vs@.len(),
        r.0@.take(vs@.len() as int) == vs@,
        r.1 == exists|i: int| fresh <= i < vs@.len() && mate_from(hs, #[trigger] vs@[i]@),
        forall|i: int| fresh <= i < vs@.len() ==> expanded_into(hs, #[trigger] vs@[i]@, positions_view(r.0@)),
        forall|j: int|
            vs@.len() <= j < r.0@.len() ==> follows_some(hs, vs@, fresh as int, vs@.len() as int, #[trigger] r.0@[j]@),
{
    let ghost v0 = vs@;
    let n = vs.len();
    let mut vs = vs;
    let mut mate = false;
    let mut i: usize = fresh;
    while i < n
        invariant
            n == v0.len(),
            fresh <= i <= n,
            forall|t: int| 0 <= t < v0.len() ==> (#[trigger] v0[t])@.turn == Color::White,
            all_wf(vs@),
            positions_view(vs@).no_duplicates(),
            vs@.len() >= n,
            vs@.take(n as int) == v0,
            mate == exists|t: int| fresh <= t < i && mate_from(hs, #[trigger] v0[t]@),
            forall|t: int| fresh <= t < i ==> expanded_into(hs, #[trigger] v0[t]@, positions_view(vs@)),
            forall|j: int| n <= j < vs@.len() ==> follows_some(hs, v0, fresh as int, i as int, #[trigger] vs@[j]@),
        decreases n - i,
    {
        proof {
            assert(vs@[i as int] == vs@.take(n as int)[i as int]);
            assert(v0[i as int]@.turn == Color::White);
        }
        let w = vs[i].copy();
        proof {
            assert(w@.board == v0[i as int]@.board);
            assert(w@.hands == v0[i as int]@.hands);
            assert(w@ == v0[i as int]@);
        }
        let ghost before = vs@;
        let (next, m) = expand_one(hs, vs, &w);
        vs = next;
        proof {
            lemma_prefix_contains(before, vs@);
            assert(vs@.take(n as int) =~= before.take(n as int)) by {
                assert(vs@.take(before.len() as int) == before);
            }
            assert forall|t: int| fresh <= t < i + 1 implies expanded_into(hs, #[trigger] v0[t]@, positions_view(vs@)) by {
                if t < i {
                    lemma_expanded_grow(hs, v0[t]@, positions_view(before), positions_view(vs@));
                }
            }
            assert forall|j: int| n <= j < vs@.len() implies follows_some(hs, v0, fresh as int, i + 1, #[trigger] vs@[j]@) by {
                if j < before.len() {
                    assert(vs@[j] == vs@.take(before.len() as int)[j]);
                    assert(follows_some(hs, v0, fresh as int, i as int, before[j]@));
                    let t = choose|t: int| fresh <= t < i && follows(hs, #[trigger] v0[t]@, before[j]@);
                    assert(fresh <= t < i + 1 && follows(hs, v0[t]@, vs@[j]@));
                } else {
                    assert(follows(hs, w@, vs@[j]@));
                    assert(fresh <= i < i + 1 && follows(hs, v0[i as int]@, vs@[j]@));
                }
            }
            if m {
                assert(fresh <= i < i + 1 && mate_from(hs, v0[i as int]@));
            }
        }
        mate = mate || m;
        i = i + 1;
    }
    (vs, mate)
}

/// After the positions from `f` on are expanded, the search holds the
/// positions reached within two moves more; when no line ends at or right
/// after the expanded ones, all of them are done with but the new ones.
pub proof fn lemma_search_step(
    hs: bool,
    ps: Seq<PositionView>,
    d: nat,
    old: Seq<Position>,
    f: int,
    new: Seq<Position>,
)
    requires
        search_state(hs, ps, d, positions_view(old), f),
        forall|s: int| 0 <= s < ps.len() ==> (d % 2 == 1 <==> (#[trigger] ps[s]).turn == Color::Black),
        new.len() >= old.len(),
        new.take(old.len() as int) == old,
        positions_view(new).no_duplicates(),
        forall|i: int| f <= i < old.len() ==> expanded_into(hs, #[trigger] old[i]@, positions_view(new)),
        forall|j: int| old.len() <= j < new.len() ==> follows_some(hs, old, f, old.len() as int, #[trigger] new[j]@),
    ensures
        forall|i: int| 0 <= i < new.len() ==> reached_within(hs, ps, d + 2, #[trigger] positions_view(new)[i]),
        forall|q: PositionView| #[trigger] reached_within(hs, ps, d + 2, q) ==> positions_view(new).contains(q),
        (forall|i: int| f <= i < old.len() ==> !mate_from(hs, #[trigger] old[i]@)) ==> search_state(
            hs,
            ps,
            d + 2,
            positions_view(new),
            old.len() as int,
        ),
{
    let vo = positions_view(old);
    let vn = positions_view(new);
    lemma_prefix_contains(old, new);
    assert forall|j: int| 0 <= j < old.len() implies old[j] == #[trigger] new[j] by {
        assert(new[j] == new.take(old.len() as int)[j]);
    }
    assert forall|i: int| 0 <= i < vn.len() implies reached_within(hs, ps, d + 2, #[trigger] vn[i]) by {
        if i < old.len() {
            assert(vn[i] == vo[i]);
            assert(reached_within(hs, ps, d, vo[i]));
            let s = choose|s: int| 0 <= s < ps.len() && #[trigger] reached_from(hs, ps[s], d, vo[i]);
            let p = ps[s];
            let ms = choose|ms: Seq<Movement>| #![trigger play(p, ms)] clear_path(hs, p, ms) && ms.len() <= d && play(p, ms) == vo[i];
            assert(clear_path(hs, p, ms) && ms.len() <= d + 2 && play(p, ms) == vn[i]);
            assert(reached_from(hs, ps[s], d + 2, vn[i]));
        } else {
            assert(follows_some(hs, old, f, old.len() as int, new[i]@));
            let t = choose|t: int| f <= t < old.len() && follows(hs, #[trigger] old[t]@, new[i]@);
            assert(vo[t] == old[t]@);
            lemma_follows_reached(hs, ps, d, old[t]@, new[i]@);
        }
    }
    assert forall|q: PositionView| #[trigger] reached_within(hs, ps, d + 2, q) implies vn.contains(q) by {
        let s = choose|s: int| 0 <= s < ps.len() && #[trigger] reached_from(hs, ps[s], d + 2, q);
        let p = ps[s];
        let ms = choose|ms: Seq<Movement>| #![trigger play(p, ms)] clear_path(hs, p, ms) && ms.len() <= d + 2 && play(p, ms) == q;
        lemma_play_turn(p, ms);
        assert(d % 2 == 1 <==> ps[s].turn == Color::Black);
        if ms.len() <= d {
            assert(reached_from(hs, ps[s], d, q));
            assert(reached_within(hs, ps, d, q));
            assert(vo.contains(q));
        } else {
            assert(ms.len() == d + 2);
            let m1 = ms.drop_last();
            let m2 = m1.drop_last();
            assert(clear_path(hs, p, m1) && searched(play(p, m1)).contains(ms.last()) && !stops(hs, play(p, ms)));
            assert(clear_path(hs, p, m2) && searched(play(p, m2)).contains(m1.last()) && !stops(hs, play(p, m1)));
            lemma_play_turn(p, m2);
            let w = play(p, m2);
            assert(reached_from(hs, ps[s], d, w));
            assert(reached_within(hs, ps, d, w));
            assert(vo.contains(w));
            let i = choose|i: int| 0 <= i < vo.len() && vo[i] == w;
            let a = m1.last();
            let b = ms.last();
            assert(searched(w).contains(a));
            assert(searched(apply(w, a)).contains(b));
            if i < f {
                assert(expanded_into(hs, vo[i], vo));
                assert(vo.contains(q));
            } else {
                assert(expanded_into(hs, old[i]@, vn));
            }
        }
    }
    if forall|i: int| f <= i < old.len() ==> !mate_from(hs, #[trigger] old[i]@) {
        assert forall|i: int| #![trigger vn[i]] 0 <= i < old.len() implies !mate_from(hs, vn[i]) && expanded_into(
            hs,
            vn[i],
            vn,
        ) by {
            assert(vn[i] == vo[i]);
            if i < f {
                lemma_expanded_grow(hs, vo[i], vo, vn);
            } else {
                assert(!mate_from(hs, old[i]@));
            }
        }
    }
}

/// The positions with white to move reached from the starts `ps` by clear
/// paths of at most `n` moves.
pub open spec fn reached_set(hs: bool, ps: Seq<PositionView>, n: nat) -> Set<PositionView> {
    Set::new(|q: PositionView| reached_within(hs, ps, n, q))
}

/// Positions held once each, exactly those reached within `n` moves, are as
/// many as the positions so reached.
pub proof fn lemma_reached_count(hs: bool, ps: Seq<PositionView>, n: nat, v: Seq<PositionView>)
    requires
        v.no_duplicates(),
        forall|i: int| 0 <= i < v.len() ==> reached_within(hs, ps, n, #[trigger] v[i]),
        forall|q: PositionView| #[trigger] reached_within(hs, ps, n, q) ==> v.contains(q),
    ensures
        v.to_set() == reached_set(hs, ps, n),
        reached_set(hs, ps, n).len() == v.len(),
        reached_set(hs, ps, n).finite(),
{
    assert(v.to_set() =~= reached_set(hs, ps, n)) by {
        assert forall|q: PositionView| v.to_set().contains(q) implies reached_set(hs, ps, n).contains(q) by {
            let i = choose|i: int| 0 <= i < v.len() && v[i] == q;
            assert(reached_within(hs, ps, n, v[i]));
        }
    }
    v.unique_seq_to_set();
}

/// A copy of the positions `v`.
pub fn copy_positions(v: &Vec<Position>) -> (r: Vec<Position>)
    requires
        all_wf(v@),
    ensures
        all_wf(r@),
        positions_view(r@) == positions_view(v@),
        r@.len() == v@.len(),
        forall|i: int| 0 <= i < v@.len() ==> (#[trigger] r@[i])@ == v@[i]@,
{
    let mut r: Vec<Position> = Vec::new();
    let mut i: usize = 0;
    while i < v.len()
        invariant
            all_wf(v@),
            all_wf(r@),
            i <= v@.len(),
            positions_view(r@) == positions_view(v@).take(i as int),
        decreases v@.len() - i,
    {
        let q = v[i].copy();
        proof {
            assert(q@.board == v@[i as int]@.board);
            assert(q@.hands == v@[i as int]@.hands);
            assert(q@ == v@[i as int]@);
        }
        let ghost before = r@;
        let ghost qv = q@;
        assert(positions_view(before).len() == before.len());
        assert(positions_view(v@).take(i as int).len() == i);
        assert(before.len() == i);
        r.push(q);
        proof {
            assert(r@ == before.push(q));
            assert(r@[i as int]@ == qv);
            assert(positions_view(r@)[i as int] == positions_view(v@)[i as int]);
            assert(positions_view(r@) =~= positions_view(v@).take(i + 1));
            assert forall|j: int| 0 <= j < r@.len() implies (#[trigger] r@[j]).wf() by {
                if j < before.len() {
                    assert(r@[j] == before[j]);
                }
            }
        }
        i = i + 1;
    }
    proof {
        assert(positions_view(v@).take(i as int) =~= positions_view(v@));
        assert(positions_view(r@).len() == r@.len());
        assert forall|i: int| 0 <= i < v@.len() implies (#[trigger] r@[i])@ == v@[i]@ by {
            assert(positions_view(r@)[i] == positions_view(v@)[i]);
        }
    }
    r
}

/// The positions with white to move of a search from the starts `ps`, all
/// with the same side to move: the starts themselves when white is to move,
/// else those after black's searched moves; once each.
pub fn first_positions(hs: bool, ps: &Vec<Position>) -> (r: Vec<Position>)
    requires
        ps@.len() > 0,
        all_wf(ps@),
        forall|s: int| 0 <= s < ps@.len() ==> (#[trigger] ps@[s]).turn == ps@[0].turn,
    ensures
        all_wf(r@),
        forall|i: int| 0 <= i < r@.len() ==> (#[trigger] r@[i])@.turn == Color::White,
        search_state(
            hs,
            positions_view(ps@),
            if ps@[0].turn == Color::Black {
                1nat
            } else {
                0nat
            },
            positions_view(r@),
            0,
        ),
{
    let ghost d: nat = if ps@[0].turn == Color::Black {
        1nat
    } else {
        0nat
    };
    let ghost pv = positions_view(ps@);
    let black = ps[0].turn.is_black();
    let mut r: Vec<Position> = Vec::new();
    let mut i: usize = 0;
    proof {
        assert(r@.take(0) =~= Seq::<Position>::empty());
    }
    while i < ps.len()
        invariant
            pv == positions_view(ps@),
            ps@.len() > 0,
            all_wf(ps@),
            forall|s: int| 0 <= s < ps@.len() ==> (#[trigger] ps@[s]).turn == ps@[0].turn,
            black == (ps@[0].turn == Color::Black),
            d == (if black { 1nat } else { 0nat }),
            i <= ps@.len(),
            all_wf(r@),
            positions_view(r@).no_duplicates(),
            forall|j: int| 0 <= j < r@.len() ==> reached_within(hs, pv, d, #[trigger] positions_view(r@)[j]),
            forall|j: int| 0 <= j < r@.len() ==> (#[trigger] r@[j])@.turn == Color::White,
            forall|s: int, q: PositionView|
                0 <= s < i && #[trigger] reached_from(hs, pv[s], d, q) ==> positions_view(r@).contains(q),
        decreases ps@.len() - i,
    {
        let ghost before = r@;
        let ghost p = pv[i as int];
        proof {
            assert(p == ps@[i as int]@);
        }
        if !black {
            let present = holds(&r, &ps[i]);
            if !present {
                let q = ps[i].copy();
                proof {
                    assert(q@.board == p.board);
                    assert(q@.hands == p.hands);
                    assert(q@ == p);
                }
                r.push(q);
                proof {
                    assert(r@[before.len() as int]@ == p);
                    assert(positions_view(r@) =~= positions_view(before).push(p));
                    assert(positions_view(r@)[before.len() as int] == p);
                    assert forall|j: int| 0 <= j < r@.len() implies (#[trigger] r@[j]).wf() by {
                        if j < before.len() {
                            assert(r@[j] == before[j]);
                        }
                    }
                }
            }
            proof {
                assert(r@.take(before.len() as int) =~= before);
                assert(p.turn == Color::White);
                lemma_prefix_contains(before, r@);
                assert(play(p, Seq::<Movement>::empty()) == p);
                assert(reached_from(hs, pv[i as int], d, p));
                if present {
                    assert(positions_view(before).contains(p));
                }
                assert(positions_view(r@).contains(p));
                assert forall|j: int| 0 <= j < r@.len() implies reached_within(hs, pv, d, #[trigger] positions_view(r@)[j]) by {
                    if j < before.len() {
                        assert(r@[j] == before[j]);
                        assert(positions_view(r@)[j] == positions_view(before)[j]);
                    } else {
                        assert(positions_view(r@)[j] == p);
                    }
                }
                assert forall|j: int| 0 <= j < r@.len() implies (#[trigger] r@[j])@.turn == Color::White by {
                    if j < before.len() {
                        assert(r@[j] == before[j]);
                    } else {
                        assert(positions_view(r@)[j] == p);
                        assert(positions_view(r@)[j] == r@[j]@);
                    }
                }
                assert forall|s: int, q: PositionView|
                    0 <= s < i + 1 && #[trigger] reached_from(hs, pv[s], d, q) implies positions_view(r@).contains(q) by {
                    if s == i {
                        let ms = choose|ms: Seq<Movement>| #![trigger play(p, ms)] clear_path(hs, p, ms) && ms.len() <= d && play(p, ms) == q;
                        assert(ms.len() == 0);
                        assert(play(p, ms) == p);
                    }
                }
            }
        } else {
            proof {
                assert(p.turn == Color::Black);
            }
            r = add_replies(r, &ps[i]);
            proof {
                lemma_prefix_contains(before, r@);
                assert forall|j: int| 0 <= j < r@.len() implies reached_within(hs, pv, d, positions_view(r@)[j]) && (
                #[trigger] r@[j])@.turn == Color::White by {
                    if j < before.len() {
                        assert(r@[j] == r@.take(before.len() as int)[j]);
                        assert(positions_view(r@)[j] == positions_view(before)[j]);
                    } else {
                        assert(reply_of(p, r@[j]@));
                        let m = choose|m: Movement| #[trigger] searched(p).contains(m) && r@[j]@ == apply(p, m);
                        lemma_path_push(hs, p, Seq::empty(), m);
                        lemma_apply_turn(p, m);
                        assert(play(p, Seq::<Movement>::empty()) == p);
                        assert(clear_path(hs, p, Seq::<Movement>::empty()));
                        assert(clear_path(hs, p, Seq::<Movement>::empty().push(m)) && play(
                            p,
                            Seq::<Movement>::empty().push(m),
                        ) == r@[j]@);
                        assert(reached_from(hs, pv[i as int], d, r@[j]@));
                    }
                }
                assert forall|j: int| 0 <= j < r@.len() implies reached_within(hs, pv, d, #[trigger] positions_view(r@)[j]) by {
                    assert(positions_view(r@)[j] == r@[j]@);
                }
                assert forall|s: int, q: PositionView|
                    0 <= s < i + 1 && #[trigger] reached_from(hs, pv[s], d, q) implies positions_view(r@).contains(q) by {
                    if s == i {
                        let ms = choose|ms: Seq<Movement>| #![trigger play(p, ms)] clear_path(hs, p, ms) && ms.len() <= d && play(p, ms) == q;
                        if ms.len() == 0 {
                            assert(play(p, ms) == p);
                        } else {
                            assert(ms =~= Seq::<Movement>::empty().push(ms[0]));
                            lemma_path_push(hs, p, Seq::empty(), ms[0]);
                            assert(play(p, Seq::<Movement>::empty()) == p);
                            assert(clear_path(hs, p, Seq::<Movement>::empty()));
                        }
                    }
                }
            }
        }
        i = i + 1;
    }
    proof {
        assert forall|q: PositionView| #[trigger] reached_within(hs, pv, d, q) implies positions_view(r@).contains(q) by {
            let s = choose|s: int| 0 <= s < pv.len() && #[trigger] reached_from(hs, pv[s], d, q);
        }
        assert forall|j: int| 0 <= j < positions_view(r@).len() implies reached_within(hs, pv, d, #[trigger] positions_view(r@)[j]) by {
        }
    }
    r
}

/// A path followed by white mated is a mating line.
pub proof fn lemma_mate_lines_from_path(p: PositionView, ms: Seq<Movement>, prefix: Seq<Movement>)
    requires
        clear_path(false, p, ms),
        white_mated(play(p, ms)),
    ensures
        mate_lines(p, ms.len(), prefix).len() > 0,
    decreases ms.len(),
{
    if ms.len() == 0 {
        assert(play(p, ms) == p);
    } else {
        let a = ms[0];
        let rest = ms.drop_first();
        assert(ms =~= seq![a] + rest);
        lemma_path_cons(false, p, a, rest);
        lemma_mate_lines_from_path(apply(p, a), rest, prefix.push(a));
        let j = choose|j: int| 0 <= j < std_searched(p).len() && std_searched(p)[j] == a;
        lemma_std_branch_from(p, ms.len(), prefix, std_searched(p), 0, j);
    }
}

proof fn lemma_std_branch_from(p: PositionView, n: nat, prefix: Seq<Movement>, ms: Seq<Movement>, k: int, j: int)
    requires
        0 <= k <= j < ms.len(),
        n > 0,
        mate_lines(apply(p, ms[j]), (n - 1) as nat, prefix.push(ms[j])).len() > 0,
    ensures
        mate_lines_from(p, n, prefix, ms, k).len() > 0,
    decreases j - k,
{
    if k < j {
        lemma_std_branch_from(p, n, prefix, ms, k + 1, j);
    }
}

proof fn lemma_std_from_branch(p: PositionView, n: nat, prefix: Seq<Movement>, ms: Seq<Movement>, k: int) -> (j: int)
    requires
        mate_lines_from(p, n, prefix, ms, k).len() > 0,
    ensures
        0 <= k <= j < ms.len(),
        n > 0,
        mate_lines(apply(p, ms[j]), (n - 1) as nat, prefix.push(ms[j])).len() > 0,
    decreases ms.len() - k,
{
    if mate_lines(apply(p, ms[k]), (n - 1) as nat, prefix.push(ms[k])).len() > 0 {
        k
    } else {
        lemma_std_from_branch(p, n, prefix, ms, k + 1)
    }
}

/// A mating line is a path of searched moves that ends with white mated.
pub proof fn lemma_path_from_mate_lines(p: PositionView, n: nat, prefix: Seq<Movement>) -> (ms: Seq<Movement>)
    requires
        mate_lines(p, n, prefix).len() > 0,
    ensures
        clear_path(false, p, ms),
        ms.len() == n,
        white_mated(play(p, ms)),
    decreases n,
{
    if n == 0 {
        assert(play(p, Seq::<Movement>::empty()) == p);
        Seq::empty()
    } else {
        let j = lemma_std_from_branch(p, n, prefix, std_searched(p), 0);
        let a = std_searched(p)[j];
        assert(std_searched(p).contains(a));
        let rest = lemma_path_from_mate_lines(apply(p, a), (n - 1) as nat, prefix.push(a));
        lemma_path_cons(false, p, a, rest);
        seq![a] + rest
    }
}

/// The lines from several starts are there exactly when one start has one.
pub proof fn lemma_starts_lines_some(ps: Seq<PositionView>, n: nat)
    ensures
        starts_lines(ps, n).len() > 0 <==> exists|s: int|
            0 <= s < ps.len() && #[trigger] mate_lines(ps[s], n, Seq::empty()).len() > 0,
    decreases ps.len(),
{
    if ps.len() > 0 {
        lemma_starts_lines_some(ps.drop_last(), n);
        if exists|s: int| 0 <= s < ps.len() && #[trigger] mate_lines(ps[s], n, Seq::empty()).len() > 0 {
            let s = choose|s: int| 0 <= s < ps.len() && #[trigger] mate_lines(ps[s], n, Seq::empty()).len() > 0;
            if s < ps.len() - 1 {
                assert(ps.drop_last()[s] == ps[s]);
            }
        }
        if exists|s: int| 0 <= s < ps.len() - 1 && #[trigger] mate_lines(ps.drop_last()[s], n, Seq::empty()).len() > 0 {
            let s = choose|s: int| 0 <= s < ps.len() - 1 && #[trigger] mate_lines(ps.drop_last()[s], n, Seq::empty()).len() > 0;
            assert(ps.drop_last()[s] == ps[s]);
        }
    }
}

/// Once no position is left to expand, no start has a mating line at all.
pub proof fn lemma_std_search_complete(ps: Seq<PositionView>, d: nat, vs: Seq<PositionView>)
    requires
        search_state(false, ps, d, vs, vs.len() as int),
        forall|s: int| 0 <= s < ps.len() ==> (#[trigger] ps[s]).turn == Color::Black ==> d >= 1,
    ensures
        forall|n: nat| #[trigger] starts_lines(ps, n).len() == 0,
{
    assert forall|n: nat| #[trigger] starts_lines(ps, n).len() == 0 by {
        lemma_starts_lines_some(ps, n);
        if starts_lines(ps, n).len() > 0 {
            let s = choose|s: int| 0 <= s < ps.len() && #[trigger] mate_lines(ps[s], n, Seq::empty()).len() > 0;
            let ms = lemma_path_from_mate_lines(ps[s], n, Seq::empty());
            let w = play(ps[s], ms);
            lemma_reach_explored(false, ps, d, vs, s, ms);
            let i = choose|i: int| 0 <= i < vs.len() && vs[i] == w;
            assert(!mate_from(false, vs[i]));
        }
    }
}

/// White is mated at a position not yet expanded exactly when the shortest
/// mating lines are as long as the paths searched.
pub proof fn lemma_std_mate_found(ps: Seq<PositionView>, d: nat, vs: Seq<Position>, f: int)
    requires
        search_state(false, ps, d, positions_view(vs), f),
        forall|n: nat| n < d ==> #[trigger] starts_lines(ps, n).len() == 0,
    ensures
        (exists|i: int| f <= i < vs.len() && white_mated(#[trigger] vs[i]@)) <==> starts_lines(ps, d).len() > 0,
{
    let v = positions_view(vs);
    lemma_starts_lines_some(ps, d);
    if exists|i: int| f <= i < vs.len() && white_mated(#[trigger] vs[i]@) {
        let i = choose|i: int| f <= i < vs.len() && white_mated(#[trigger] vs[i]@);
        let w = vs[i]@;
        assert(v[i] == w);
        assert(reached_within(false, ps, d, v[i]));
        let s = choose|s: int| 0 <= s < ps.len() && #[trigger] reached_from(false, ps[s], d, w);
        let p = ps[s];
        let ms = choose|ms: Seq<Movement>| #![trigger play(p, ms)] clear_path(false, p, ms) && ms.len() <= d && play(p, ms) == w;
        lemma_mate_lines_from_path(p, ms, Seq::empty());
        lemma_starts_lines_some(ps, ms.len());
        if ms.len() < d {
            assert(starts_lines(ps, ms.len()).len() == 0);
        }
    }
    if starts_lines(ps, d).len() > 0 {
        let s = choose|s: int| 0 <= s < ps.len() && #[trigger] mate_lines(ps[s], d, Seq::empty()).len() > 0;
        let ms = lemma_path_from_mate_lines(ps[s], d, Seq::empty());
        let w = play(ps[s], ms);
        assert(reached_from(false, ps[s], d, w));
        assert(reached_within(false, ps, d, w));
        assert(v.contains(w));
        let i = choose|i: int| 0 <= i < v.len() && v[i] == w;
        if i < f {
            assert(!mate_from(false, v[i]));
        }
        assert(f <= i < vs.len() && white_mated(vs[i]@));
    }
}

} // verus!
