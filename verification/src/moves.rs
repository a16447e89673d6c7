use vstd::prelude::*;

use crate::piece::{spec_kind_of, kind_of, Color, Kind};
use crate::position::{hand_slot, Cell, Movement, Position, PositionView};
use crate::rules::{attacks, attacks_exec, col_of, in_check, in_check_exec, row_of};
use crate::square::Square;

verus! {

/// One more piece in a hand slot (counts never wrap).
pub open spec fn inc(x: u32) -> u32 {
    if x < u32::MAX {
        (x + 1) as u32
    } else {
        x
    }
}

/// The kind a piece has after moving, promoted or not.
pub open spec fn moved_kind(k: Kind, promote: bool) -> Kind {
    if promote {
        match k.spec_promote() {
            Some(pk) => pk,
            None => k,
        }
    } else {
        k
    }
}

/// The hands after the side to move captures what stands on `d`.
pub open spec fn hands_after_capture(p: PositionView, d: int) -> Seq<u32> {
    match p.cell(d) {
        Cell::Piece(_, ck) => {
            let base = ck.spec_maybe_unpromote();
            if base.spec_is_hand_piece() {
                let slot = hand_slot(p.turn, base);
                p.hands.update(slot, inc(p.hands[slot]))
            } else {
                p.hands
            }
        },
        _ => p.hands,
    }
}

/// Every move passes the turn.
pub proof fn lemma_apply_turn(p: PositionView, m: Movement)
    ensures
        apply(p, m).turn == p.turn.spec_opposite(),
{
    match m {
        Movement::Move { source, .. } => {
            match p.cell(source.spec_index()) {
                Cell::Piece(_, _) => {},
                _ => {},
            }
        },
        Movement::Drop(_, _) => {},
    }
}

/// The position after playing `m`: the piece moves (promoting if asked), a
/// captured piece goes unpromoted to the mover's hand, a dropped piece leaves
/// the hand, and the other side is to move.
pub open spec fn apply(p: PositionView, m: Movement) -> PositionView {
    match m {
        Movement::Move { source, dest, promote } => {
            let s = source.spec_index();
            let d = dest.spec_index();
            match p.cell(s) {
                Cell::Piece(c, k) => PositionView {
                    board: p.board.update(s, Cell::Empty).update(d, Cell::Piece(c, moved_kind(k, promote))),
                    hands: hands_after_capture(p, d),
                    turn: p.turn.spec_opposite(),
                    pawn_drop: false,
                },
                _ => PositionView {
                    board: p.board,
                    hands: p.hands,
                    turn: p.turn.spec_opposite(),
                    pawn_drop: false,
                },
            }
        },
        Movement::Drop(dest, k) => {
            let slot = hand_slot(p.turn, k);
            PositionView {
                board: p.board.update(dest.spec_index(), Cell::Piece(p.turn, k)),
                hands: p.hands.update(slot, (p.hands[slot] - 1) as u32),
                turn: p.turn.spec_opposite(),
                pawn_drop: k == Kind::Pawn,
            }
        },
    }
}

/// Rows 1-3 for black and 7-9 for white, where promotion is possible.
pub open spec fn promotable_row(row: int, color: Color) -> bool {
    if color == Color::Black {
        row < 3
    } else {
        row >= 6
    }
}

/// Distance from `row` to the far edge, seen from `color`.
pub open spec fn forward_room(row: int, color: Color) -> int {
    if color == Color::Black {
        row
    } else {
        8 - row
    }
}

/// A piece of `kind` standing on `row` could never move again.
pub open spec fn dead_end(color: Color, kind: Kind, row: int) -> bool {
    let f = forward_room(row, color);
    ((kind == Kind::Pawn || kind == Kind::Lance) && f == 0) || (kind == Kind::Knight && f <= 1)
}

pub open spec fn cell_at(p: PositionView, col: int, row: int) -> Cell {
    p.cell(col * 9 + row)
}

/// An unpromoted pawn of `color` stands on column `col`.
pub open spec fn pawn_on_col(p: PositionView, color: Color, col: int) -> bool {
    exists|r: int| 0 <= r < 9 && #[trigger] cell_at(p, col, r) == Cell::Piece(color, Kind::Pawn)
}

/// The destination may be entered: empty, or an enemy piece other than the
/// king.
pub open spec fn target_ok(p: PositionView, d: int) -> bool {
    match p.cell(d) {
        Cell::Empty => true,
        Cell::Stone => false,
        Cell::Piece(c, k) => c != p.turn && k != Kind::King,
    }
}

/// Squares of the movement lie on the board.
pub open spec fn movement_wf(m: Movement) -> bool {
    match m {
        Movement::Move { source, dest, .. } => source.wf() && dest.wf(),
        Movement::Drop(dest, _) => dest.wf(),
    }
}

/// A move obeying the movement, promotion and drop rules, king safety aside.
pub open spec fn pseudo_legal(p: PositionView, m: Movement) -> bool {
    &&& movement_wf(m)
    &&& match m {
        Movement::Move { source, dest, promote } => {
            let s = source.spec_index();
            let d = dest.spec_index();
            match p.cell(s) {
                Cell::Piece(c, k) => {
                    &&& c == p.turn
                    &&& attacks(p, c, k, s, d)
                    &&& target_ok(p, d)
                    &&& if promote {
                        k.spec_can_promote() && (promotable_row(row_of(s), c) || promotable_row(
                            row_of(d),
                            c,
                        ))
                    } else {
                        !dead_end(c, k, row_of(d))
                    }
                },
                _ => false,
            }
        },
        Movement::Drop(dest, k) => {
            let d = dest.spec_index();
            &&& k.spec_is_hand_piece()
            &&& p.hand(p.turn, k) > 0
            &&& p.cell(d) == Cell::Empty
            &&& !dead_end(p.turn, k, row_of(d))
            &&& (k == Kind::Pawn ==> !pawn_on_col(p, p.turn, col_of(d)))
        },
    }
}

/// A piece of kind `k` and side `c` that stays unpromoted on row `row`
/// keeps a move: a pawn or lance is not on the last row of its side, a
/// knight not on the last two.
pub open spec fn keeps_a_move(c: Color, k: Kind, row: int) -> bool {
    &&& (k == Kind::Pawn || k == Kind::Lance) ==> if c == Color::Black {
        row >= 1
    } else {
        row <= 7
    }
    &&& k == Kind::Knight ==> if c == Color::Black {
        row >= 2
    } else {
        row <= 6
    }
}

/// No move that obeys the rules leaves a piece that can never move again:
/// a piece moved without promoting, or dropped, keeps a move from where it
/// lands.
pub proof fn lemma_moved_piece_keeps_a_move(p: PositionView, m: Movement)
    requires
        pseudo_legal(p, m),
    ensures
        match m {
            Movement::Move { source, dest, promote } => !promote ==> match p.cell(source.spec_index()) {
                Cell::Piece(c, k) => keeps_a_move(c, k, dest.spec_row()),
                _ => false,
            },
            Movement::Drop(dest, k) => keeps_a_move(p.turn, k, dest.spec_row()),
        },
{
}

/// Room to move on is the only bar a landing square adds: a drop that obeys
/// the other drop rules, or an unpromoted move that obeys the other move
/// rules, is allowed exactly when the piece keeps a move where it lands.
pub proof fn lemma_room_decides(p: PositionView, m: Movement)
    requires
        movement_wf(m),
    ensures
        match m {
            Movement::Drop(dest, k) => (k.spec_is_hand_piece() && p.hand(p.turn, k) > 0 && p.cell(dest.spec_index())
                == Cell::Empty && (k == Kind::Pawn ==> !pawn_on_col(p, p.turn, col_of(dest.spec_index())))) ==> (
            pseudo_legal(p, m) <==> keeps_a_move(p.turn, k, dest.spec_row())),
            Movement::Move { source, dest, promote } => !promote ==> match p.cell(source.spec_index()) {
                Cell::Piece(c, k) => (c == p.turn && attacks(p, c, k, source.spec_index(), dest.spec_index()) && target_ok(
                    p,
                    dest.spec_index(),
                )) ==> (pseudo_legal(p, m) <==> keeps_a_move(c, k, dest.spec_row())),
                _ => true,
            },
        },
{
}

/// A legal move: pseudo-legal and not leaving the mover's king attacked.
pub open spec fn legal(p: PositionView, m: Movement) -> bool {
    pseudo_legal(p, m) && !in_check(apply(p, m), p.turn)
}

/// A legal move that attacks the opponent's king.
pub open spec fn gives_check(p: PositionView, m: Movement) -> bool {
    in_check(apply(p, m), p.turn.spec_opposite())
}

/// Number of candidate moves enumerated by the generator.
pub open spec fn num_candidates() -> int {
    13689int
}

/// Position of a movement in the enumeration of candidates.
pub open spec fn move_index(m: Movement) -> int {
    match m {
        Movement::Move { source, dest, promote } => (source.spec_index() * 81 + dest.spec_index())
            * 2 + if promote {
            1int
        } else {
            0int
        },
        Movement::Drop(dest, k) => 13122 + k.spec_index() * 81 + dest.spec_index(),
    }
}

/// The `t`-th candidate move.
pub open spec fn candidate(t: int) -> Movement {
    if t < 13122 {
        Movement::Move {
            source: Square { idx: (t / 162) as u8 },
            dest: Square { idx: ((t % 162) / 2) as u8 },
            promote: t % 2 == 1,
        }
    } else {
        Movement::Drop(Square { idx: ((t - 13122) % 81) as u8 }, spec_kind_of((t - 13122) / 81))
    }
}

proof fn lemma_candidate_index(t: int)
    requires
        0 <= t < num_candidates(),
    ensures
        move_index(candidate(t)) == t,
        movement_wf(candidate(t)),
{
    if t >= 13122 {
        let k = spec_kind_of((t - 13122) / 81);
        assert(k.spec_index() == (t - 13122) / 81);
    }
}

proof fn lemma_index_candidate(m: Movement)
    requires
        movement_wf(m),
        m matches Movement::Drop(_, k) ==> k.spec_is_hand_piece(),
    ensures
        0 <= move_index(m) < num_candidates(),
        candidate(move_index(m)) == m,
{
    match m {
        Movement::Move { source, dest, promote } => {},
        Movement::Drop(dest, k) => {
            assert(spec_kind_of(k.spec_index() as int) == k);
        },
    }
}

fn candidate_exec(t: usize) -> (m: Movement)
    requires
        t < num_candidates(),
    ensures
        m == candidate(t as int),
{
    if t < 13122 {
        Movement::Move {
            source: Square { idx: (t / 162) as u8 },
            dest: Square { idx: ((t % 162) / 2) as u8 },
            promote: t % 2 == 1,
        }
    } else {
        Movement::Drop(Square { idx: ((t - 13122) % 81) as u8 }, kind_of((t - 13122) / 81))
    }
}

pub fn promotable_row_exec(row: usize, color: Color) -> (r: bool)
    ensures
        r == promotable_row(row as int, color),
{
    if color.is_black() {
        row < 3
    } else {
        row >= 6
    }
}

pub fn dead_end_exec(color: Color, kind: Kind, row: usize) -> (r: bool)
    requires
        row < 9,
    ensures
        r == dead_end(color, kind, row as int),
{
    let f = if color.is_black() {
        row
    } else {
        8 - row
    };
    ((kind == Kind::Pawn || kind == Kind::Lance) && f == 0) || (kind == Kind::Knight && f <= 1)
}

/// Whether an unpromoted pawn of `color` stands on column `col`.
fn pawn_on_col_exec(p: &Position, color: Color, col: usize) -> (r: bool)
    requires
        p.wf(),
        col < 9,
    ensures
        r == pawn_on_col(p@, color, col as int),
{
    let mut r: usize = 0;
    while r < 9
        invariant
            p.wf(),
            col < 9,
            r <= 9,
            forall|j: int| 0 <= j < r ==> #[trigger] cell_at(p@, col as int, j) != Cell::Piece(color, Kind::Pawn),
        decreases 9 - r,
    {
        if p.board[col * 9 + r] == Cell::Piece(color, Kind::Pawn) {
            proof {
                assert(cell_at(p@, col as int, r as int) == Cell::Piece(color, Kind::Pawn));
            }
            return true;
        }
        r = r + 1;
    }
    false
}

/// Movements the position can carry out: board squares, and a held piece
/// for a drop.
pub open spec fn playable(p: PositionView, m: Movement) -> bool {
    &&& movement_wf(m)
    &&& m matches Movement::Drop(_, k) ==> k.spec_is_hand_piece() && p.hand(p.turn, k) > 0
}

impl Position {
    /// Plays `m` on this position.
    pub fn do_move(&mut self, m: Movement)
        requires
            old(self).wf(),
            playable(old(self)@, m),
        ensures
            final(self).wf(),
            final(self)@ == apply(old(self)@, m),
    {
        let ghost p0 = self@;
        let turn = self.turn;
        match m {
            Movement::Move { source, dest, promote } => {
                let s = source.index();
                let d = dest.index();
                match self.board[s] {
                    Cell::Piece(c, k) => {
                        match self.board[d] {
                            Cell::Piece(_, ck) => {
                                let base = ck.maybe_unpromote();
                                if base.is_hand_piece() {
                                    let slot = turn.index() * 7 + base.index();
                                    let v = self.hands.counts[slot];
                                    let nv = if v < u32::MAX {
                                        v + 1
                                    } else {
                                        v
                                    };
                                    self.hands.counts.set(slot, nv);
                                }
                            },
                            _ => {},
                        }
                        let nk = if promote {
                            match k.promote() {
                                Some(pk) => pk,
                                None => k,
                            }
                        } else {
                            k
                        };
                        self.board.set(s, Cell::Empty);
                        self.board.set(d, Cell::Piece(c, nk));
                    },
                    _ => {},
                }
                self.pawn_drop = false;
            },
            Movement::Drop(dest, k) => {
                let d = dest.index();
                let slot = turn.index() * 7 + k.index();
                let v = self.hands.counts[slot];
                self.hands.counts.set(slot, v - 1);
                self.board.set(d, Cell::Piece(turn, k));
                self.pawn_drop = k == Kind::Pawn;
            },
        }
        self.turn = turn.opposite();
        proof {
            assert(self@.board =~= apply(p0, m).board);
            assert(self@.hands =~= apply(p0, m).hands);
        }
    }
}

/// The position after `m`, leaving `p` unchanged.
pub fn moved(p: &Position, m: Movement) -> (q: Position)
    requires
        p.wf(),
        playable(p@, m),
    ensures
        q.wf(),
        q@ == apply(p@, m),
{
    let mut q = p.copy();
    proof {
        assert(q@ == p@);
    }
    q.do_move(m);
    q
}

/// Whether `m` obeys the movement, promotion and drop rules.
pub fn pseudo_legal_exec(p: &Position, m: Movement) -> (r: bool)
    requires
        p.wf(),
        movement_wf(m),
    ensures
        r == pseudo_legal(p@, m),
        r ==> playable(p@, m),
{
    match m {
        Movement::Move { source, dest, promote } => {
            match p.board[source.index()] {
                Cell::Piece(c, k) => {
                    if c != p.turn {
                        return false;
                    }
                    if !attacks_exec(p, c, k, source, dest) {
                        return false;
                    }
                    let target = match p.board[dest.index()] {
                        Cell::Empty => true,
                        Cell::Stone => false,
                        Cell::Piece(tc, tk) => tc != p.turn && tk != Kind::King,
                    };
                    if !target {
                        return false;
                    }
                    if promote {
                        k.can_promote() && (promotable_row_exec(source.row(), c)
                            || promotable_row_exec(dest.row(), c))
                    } else {
                        !dead_end_exec(c, k, dest.row())
                    }
                },
                _ => false,
            }
        },
        Movement::Drop(dest, k) => {
            if !k.is_hand_piece() {
                return false;
            }
            if p.hands.count(p.turn, k) == 0 {
                return false;
            }
            if p.board[dest.index()] != Cell::Empty {
                return false;
            }
            if dead_end_exec(p.turn, k, dest.row()) {
                return false;
            }
            if k == Kind::Pawn && pawn_on_col_exec(p, p.turn, dest.col()) {
                return false;
            }
            true
        },
    }
}

/// Whether `m` is legal in `p`.
pub fn legal_exec(p: &Position, m: Movement) -> (r: bool)
    requires
        p.wf(),
        movement_wf(m),
    ensures
        r == legal(p@, m),
{
    if !pseudo_legal_exec(p, m) {
        return false;
    }
    let q = moved(p, m);
    !in_check_exec(&q, p.turn)
}

/// The moves the generator keeps: legal moves, and when `checks_only`, only
/// those that attack the opponent's king.
pub open spec fn generated(p: PositionView, checks_only: bool, m: Movement) -> bool {
    legal(p, m) && (checks_only ==> gives_check(p, m))
}

proof fn lemma_not_own_source(p: PositionView, s: int, t: int)
    requires
        0 <= s < 81,
        s * 162 <= t < (s + 1) * 162,
        !(p.cell(s) matches Cell::Piece(c, _) && c == p.turn),
    ensures
        !pseudo_legal(p, candidate(t)),
{
    assert(t / 162 == s);
}

proof fn lemma_empty_hand_drop(p: PositionView, k: int, t: int)
    requires
        0 <= k < 7,
        13122 + k * 81 <= t < 13122 + (k + 1) * 81,
        p.hand(p.turn, spec_kind_of(k)) == 0,
    ensures
        !pseudo_legal(p, candidate(t)),
{
    assert((t - 13122) / 81 == k);
}

/// The moves kept among the first `n` candidates, in candidate order.
pub open spec fn generated_upto(p: PositionView, checks_only: bool, n: int) -> Seq<Movement>
    decreases n,
{
    if n <= 0 {
        Seq::empty()
    } else {
        let s = generated_upto(p, checks_only, n - 1);
        if generated(p, checks_only, candidate(n - 1)) {
            s.push(candidate(n - 1))
        } else {
            s
        }
    }
}

/// The moves the generator keeps, in candidate order.
pub open spec fn generated_seq(p: PositionView, checks_only: bool) -> Seq<Movement> {
    generated_upto(p, checks_only, num_candidates())
}

proof fn lemma_generated_skip(p: PositionView, checks_only: bool, t: int, t2: int)
    requires
        0 <= t <= t2,
        forall|u: int| t <= u < t2 ==> !generated(p, checks_only, #[trigger] candidate(u)),
    ensures
        generated_upto(p, checks_only, t2) == generated_upto(p, checks_only, t),
    decreases t2 - t,
{
    if t2 > t {
        lemma_generated_skip(p, checks_only, t, t2 - 1);
    }
}

/// All moves of `p` that the generator keeps, each once, in candidate order.
pub fn generate(p: &Position, checks_only: bool) -> (result: Vec<Movement>)
    requires
        p.wf(),
    ensures
        result@.no_duplicates(),
        forall|m: Movement| result@.contains(m) <==> generated(p@, checks_only, m),
        result@ == generated_seq(p@, checks_only),
{
    let mut result: Vec<Movement> = Vec::new();
    let mut t: usize = 0;
    while t < 13122 + 567
        invariant
            p.wf(),
            t <= num_candidates(),
            result@.no_duplicates(),
            forall|m: Movement|
                result@.contains(m) <==> generated(p@, checks_only, m) && move_index(m) < t,
            result@ == generated_upto(p@, checks_only, t as int),
        decreases num_candidates() - t,
    {
        if t < 13122 && t % 162 == 0 {
            let s = t / 162;
            let own = match p.board[s] {
                Cell::Piece(c, _) => c == p.turn,
                _ => false,
            };
            if !own {
                proof {
                    assert forall|m: Movement|
                        generated(p@, checks_only, m) && t <= move_index(m) < (s + 1) * 162 implies false by {
                        lemma_index_candidate(m);
                        lemma_not_own_source(p@, s as int, move_index(m));
                    }
                    assert forall|u: int| t <= u < (s + 1) * 162 implies !generated(p@, checks_only, #[trigger] candidate(u)) by {
                        lemma_candidate_index(u);
                    }
                    lemma_generated_skip(p@, checks_only, t as int, (s + 1) * 162);
                }
                t = (s + 1) * 162;
                continue;
            }
        }
        if t >= 13122 && (t - 13122) % 81 == 0 {
            let k = (t - 13122) / 81;
            if p.hands.count(p.turn, kind_of(k)) == 0 {
                proof {
                    assert forall|m: Movement|
                        generated(p@, checks_only, m) && t <= move_index(m) < 13122 + (k + 1) * 81 implies false by {
                        lemma_index_candidate(m);
                        lemma_empty_hand_drop(p@, k as int, move_index(m));
                    }
                    assert forall|u: int| t <= u < 13122 + (k + 1) * 81 implies !generated(p@, checks_only, #[trigger] candidate(u)) by {
                        lemma_candidate_index(u);
                    }
                    lemma_generated_skip(p@, checks_only, t as int, 13122 + (k + 1) * 81);
                }
                t = 13122 + (k + 1) * 81;
                continue;
            }
        }
        let m = candidate_exec(t);
        proof {
            lemma_candidate_index(t as int);
        }
        if legal_exec(p, m) {
            let keep = if checks_only {
                let q = moved(p, m);
                in_check_exec(&q, p.turn.opposite())
            } else {
                true
            };
            if keep {
                proof {
                    assert(!result@.contains(m));
                }
                let ghost prev = result@;
                result.push(m);
                proof {
                    assert forall|x: Movement|
                        result@.contains(x) <==> generated(p@, checks_only, x) && move_index(x) < t + 1 by {
                        if result@.contains(x) && x != m {
                            let i = choose|i: int| 0 <= i < result@.len() && result@[i] == x;
                            assert(prev.contains(x)) by {
                                assert(result@[i] == x);
                            }
                        }
                        if generated(p@, checks_only, x) && move_index(x) < t + 1 && move_index(x) != t {
                            assert(result@.contains(x)) by {
                                assert(prev.contains(x));
                                let i = choose|i: int| 0 <= i < prev.len() && prev[i] == x;
                                assert(result@[i] == x);
                            }
                        }
                        if generated(p@, checks_only, x) && move_index(x) == t {
                            lemma_index_candidate(x);
                            assert(x == m);
                            assert(result@[result@.len() - 1] == m);
                        }
                    }
                }
            } else {
                proof {
                    assert forall|x: Movement|
                        generated(p@, checks_only, x) && move_index(x) == t implies false by {
                        lemma_index_candidate(x);
                    }
                }
            }
        } else {
            proof {
                assert forall|x: Movement|
                    generated(p@, checks_only, x) && move_index(x) == t implies false by {
                    lemma_index_candidate(x);
                }
            }
        }
        t = t + 1;
    }
    proof {
        assert forall|m: Movement| generated(p@, checks_only, m) implies move_index(m) < t by {
            lemma_index_candidate(m);
        }
    }
    result
}

/// All legal moves of the side to move, whether or not it is in check, each
/// once.
pub fn legal_movements(p: &Position) -> (result: Vec<Movement>)
    requires
        p.wf(),
    ensures
        result@.no_duplicates(),
        forall|m: Movement| result@.contains(m) <==> legal(p@, m),
        result@ == generated_seq(p@, false),
{
    generate(p, false)
}

} // verus!

verus! {

/// Pawns held by both sides; a pawn drop lowers it.
pub open spec fn hand_pawns(p: PositionView) -> nat {
    p.hand(Color::Black, Kind::Pawn) + p.hand(Color::White, Kind::Pawn)
}

/// A legal move that refutes a mate: anything but a pawn drop, or a pawn
/// drop that does not itself give a legal mate.
pub open spec fn escapes(p: PositionView, m: Movement) -> bool
    decreases hand_pawns(p), 0nat,
{
    if p.wf() && legal(p, m) && m.spec_is_pawn_drop() {
        proof {
            lemma_pawn_drop_decreases(p, m);
        }
        !is_mate(apply(p, m))
    } else {
        legal(p, m)
    }
}

/// Some candidate from the `t`-th on escapes.
pub open spec fn escape_from(p: PositionView, t: int) -> bool
    decreases hand_pawns(p), (num_candidates() + 1 - t) as nat,
    when 0 <= t <= num_candidates()
{
    if t < num_candidates() {
        escapes(p, candidate(t)) || escape_from(p, t + 1)
    } else {
        false
    }
}

/// The side to move is checkmated in the ordinary sense: in check, and no
/// legal move escapes. A pawn drop that mates is illegal, so such a drop
/// does not count as an escape.
pub open spec fn is_mate(p: PositionView) -> bool
    decreases hand_pawns(p), (num_candidates() + 2) as nat,
{
    in_check(p, p.turn) && !escape_from(p, 0)
}

/// A legal pawn drop takes one pawn from the mover's hand.
pub proof fn lemma_pawn_drop_decreases(p: PositionView, m: Movement)
    requires
        p.wf(),
        legal(p, m),
        m.spec_is_pawn_drop(),
    ensures
        hand_pawns(apply(p, m)) < hand_pawns(p),
{
    let q = apply(p, m);
    let slot = hand_slot(p.turn, Kind::Pawn);
    let other = hand_slot(p.turn.spec_opposite(), Kind::Pawn);
    assert(slot != other);
    assert(q.hands[other] == p.hands[other]);
    assert(q.hands[slot] == p.hands[slot] - 1);
}

proof fn lemma_escape_from(p: PositionView, t: int)
    requires
        0 <= t <= num_candidates(),
    ensures
        escape_from(p, t) <==> exists|m: Movement| #[trigger] escapes(p, m) && t <= move_index(m),
    decreases num_candidates() - t,
{
    if t < num_candidates() {
        lemma_escape_from(p, t + 1);
        lemma_candidate_index(t);
        if escape_from(p, t) && !escape_from(p, t + 1) {
            assert(escapes(p, candidate(t)));
        }
        if exists|m: Movement| #[trigger] escapes(p, m) && t <= move_index(m) {
            let m = choose|m: Movement| #[trigger] escapes(p, m) && t <= move_index(m);
            assert(legal(p, m));
            lemma_index_candidate(m);
            if move_index(m) == t {
                assert(escapes(p, candidate(t)));
            }
        }
    } else {
        assert forall|m: Movement| #[trigger] escapes(p, m) implies move_index(m) < t by {
            lemma_index_candidate(m);
        }
    }
}

/// A position is mate exactly when the side to move is in check and no
/// move escapes.
pub proof fn lemma_is_mate(p: PositionView)
    ensures
        is_mate(p) == (in_check(p, p.turn) && !exists|m: Movement| #[trigger] escapes(p, m)),
{
    lemma_escape_from(p, 0);
    assert forall|m: Movement| #[trigger] escapes(p, m) implies 0 <= move_index(m) by {
        lemma_index_candidate(m);
    }
}

} // verus!

verus! {

/// Whether the side to move is checkmated; a mate given by a pawn drop does
/// not count as an escape being available for the dropping side.
pub fn is_legal_mate(p: &Position) -> (r: bool)
    requires
        p.wf(),
    ensures
        r == is_mate(p@),
    decreases hand_pawns(p@),
{
    proof {
        lemma_is_mate(p@);
    }
    if !in_check_exec(p, p.turn) {
        return false;
    }
    let moves = legal_movements(p);
    let mut i: usize = 0;
    while i < moves.len()
        invariant
            p.wf(),
            i <= moves@.len(),
            forall|m: Movement| moves@.contains(m) <==> legal(p@, m),
            forall|j: int| 0 <= j < i ==> !#[trigger] escapes(p@, moves@[j]),
            is_mate(p@) == (in_check(p@, p@.turn) && !exists|m: Movement| #[trigger] escapes(p@, m)),
        decreases moves@.len() - i,
    {
        let m = moves[i];
        assert(moves@.contains(m));
        if !m.is_pawn_drop() {
            assert(escapes(p@, m));

            return false;
        }
        proof {
            lemma_pawn_drop_decreases(p@, m);
        }
        let q = moved(p, m);
        if !is_legal_mate(&q) {
            assert(escapes(p@, m));
            return false;
        }
        i = i + 1;
    }
    proof {
        assert forall|m: Movement| !escapes(p@, m) by {
            if escapes(p@, m) {
                assert(legal(p@, m));
                assert(moves@.contains(m));
                let j = choose|j: int| 0 <= j < moves@.len() && moves@[j] == m;
                assert(!escapes(p@, moves@[j]));
            }
        }
    }
    true
}

/// The moves searched from `p`: for black every legal check, for white
/// every legal move. The flag reports that white, to move, is checkmated
/// (no legal move while in check, the check not given by a pawn drop).
pub fn advance(p: &Position) -> (r: (Vec<Movement>, bool))
    requires
        p.wf(),
    ensures
        r.0@.no_duplicates(),
        forall|m: Movement| r.0@.contains(m) <==> generated(p@, p.turn == Color::Black, m),
        r.0@ == generated_seq(p@, p.turn == Color::Black),
        r.1 == (p.turn == Color::White && in_check(p@, Color::White) && !p.pawn_drop && forall|
            m: Movement,
        | !legal(p@, m)),
{
    let checks_only = p.turn.is_black();
    let moves = generate(p, checks_only);
    let mated = if checks_only {
        false
    } else {
        moves.len() == 0 && in_check_exec(p, Color::White) && !p.pawn_drop
    };
    proof {
        if !checks_only && moves@.len() != 0 {
            assert(moves@.contains(moves@[0]));
        }
        if !checks_only && moves@.len() == 0 {
            assert forall|m: Movement| !legal(p@, m) by {
                if legal(p@, m) {
                    assert(moves@.contains(m));
                }
            }
        }
    }
    (moves, mated)
}

} // verus!

verus! {

} // verus!
