use vstd::prelude::*;
use vstd::string::StringExecFns;

use crate::census::{count_kind, count_selected, kinds_mask};
use crate::kind_set::{lemma_kinds_contains, lemma_kinds_sorted};
use crate::moves::{cell_at, dead_end, dead_end_exec};
use crate::observed::VariableId;
use crate::piece::{Color, Kind};
use crate::position::{hand_slot, Cell, Position, PositionView};
use crate::rule::MateRule;
use crate::rules::{in_check, in_check_exec, row_of};
use crate::square::Square;
use crate::text::{decimal, push_decimal};
use crate::piece::spec_kind_of;
use crate::world::{has_id, location_wf, sorted_ids, ConcreteWorld, VariableLocation, VariablePiece, WorldView};

verus! {

/// At most this many variable pieces can be given.
pub const MAX_VARIABLES: usize = 6;

/// Hand kinds and the king: the kinds a variable piece can be taken from.
pub const NUM_SOURCE_KIND: usize = 8;

/// A variable piece of the initial position: its id, side and place are
/// known, its kind is one of the candidates.
#[derive(Clone, Debug)]
pub struct VariableSpec {
    pub id: VariableId,
    pub color: Color,
    pub location: VariableLocation,
    pub candidates: Vec<Kind>,
}

/// Why a problem has no candidate world.
#[derive(Clone, Debug, PartialEq, Eq)]
pub enum ProblemError {
    /// The base position, as given, is not valid SFEN.
    Sfen(String),
    /// More than six variable pieces.
    TooManyVariables,
    /// Two variable pieces share an id.
    DuplicateId(VariableId),
    /// Two variable pieces share a square.
    DuplicateSquare(Square),
    /// A variable piece stands where the base position has a piece.
    OccupiedSquare(Square),
    /// A variable piece in hand lies on the other side's hand.
    HandOwnerMismatch(VariableId),
    /// A variable piece has no candidate kind.
    EmptyCandidates(VariableId),
    /// No assignment of kinds gives a legal initial position.
    NoConsistentWorld,
}

/// A pawn of `c` stands at column `col`, row `r`.
pub open spec fn pawn_at(p: PositionView, c: Color, col: int, r: int) -> bool {
    cell_at(p, col, r) == Cell::Piece(c, Kind::Pawn)
}

/// Two pawns of one side on one file.
pub open spec fn two_pawns(p: PositionView) -> bool {
    exists|c: Color, col: int, r1: int, r2: int|
        0 <= col < 9 && 0 <= r1 < r2 < 9 && #[trigger] pawn_at(p, c, col, r1) && #[trigger] pawn_at(p, c, col, r2)
}

/// A piece that could never move again.
pub open spec fn stuck_piece(p: PositionView) -> bool {
    exists|i: int|
        0 <= i < 81 && (#[trigger] p.cell(i) matches Cell::Piece(c, k) && dead_end(c, k, row_of(i)))
}

/// An initial position that breaks the rules: two pawns on a file, or a
/// piece with no move left.
pub open spec fn illegal_initial(p: PositionView) -> bool {
    two_pawns(p) || stuck_piece(p)
}

impl Position {
    /// Whether this position could not arise as a problem's initial
    /// position: two pawns of a side on a file, or a piece that could never
    /// move again.
    pub fn is_illegal_initial_position(&self) -> (r: bool)
        requires
            self.wf(),
        ensures
            r == illegal_initial(self@),
    {
        let mut col: usize = 0;
        while col < 9
            invariant
                self.wf(),
                col <= 9,
                forall|c: Color, x: int, r1: int, r2: int|
                    0 <= x < col && 0 <= r1 < r2 < 9 ==> !(#[trigger] pawn_at(self@, c, x, r1) && #[trigger] pawn_at(self@, c, x, r2)),
                forall|i: int|
                    0 <= i < col * 9 ==> !(#[trigger] self@.cell(i) matches Cell::Piece(c, k) && dead_end(
                        c,
                        k,
                        row_of(i),
                    )),
            decreases 9 - col,
        {
            let mut black_pawn = false;
            let mut white_pawn = false;
            let mut row: usize = 0;
            while row < 9
                invariant
                    self.wf(),
                    col < 9,
                    row <= 9,
                    forall|c: Color, x: int, r1: int, r2: int|
                        0 <= x < col && 0 <= r1 < r2 < 9 ==> !(#[trigger] pawn_at(self@, c, x, r1) && #[trigger] pawn_at(self@, c, x, r2)),
                    black_pawn == exists|r: int| 0 <= r < row && #[trigger] pawn_at(self@, Color::Black, col as int, r),
                    white_pawn == exists|r: int| 0 <= r < row && #[trigger] pawn_at(self@, Color::White, col as int, r),
                    forall|c: Color, r1: int, r2: int|
                        0 <= r1 < r2 < row ==> !(#[trigger] pawn_at(self@, c, col as int, r1) && #[trigger] pawn_at(self@, c, col as int, r2)),
                    forall|i: int|
                        0 <= i < col * 9 + row ==> !(#[trigger] self@.cell(i) matches Cell::Piece(c, k) && dead_end(
                            c,
                            k,
                            row_of(i),
                        )),
                decreases 9 - row,
            {
                let i = col * 9 + row;
                assert(cell_at(self@, col as int, row as int) == self@.cell(i as int));
                assert(pawn_at(self@, Color::Black, col as int, row as int) == (self@.cell(i as int) == Cell::Piece(Color::Black, Kind::Pawn)));
                assert(pawn_at(self@, Color::White, col as int, row as int) == (self@.cell(i as int) == Cell::Piece(Color::White, Kind::Pawn)));
                assert(row_of(i as int) == row) by (nonlinear_arith)
                    requires
                        i == col * 9 + row,
                        row < 9,
                ;
                match self.board[i] {
                    Cell::Piece(c, k) => {
                        if dead_end_exec(c, k, row) {
                            return true;
                        }
                        if k == Kind::Pawn {
                            if c.is_black() {
                                if black_pawn {
                                    return true;
                                }
                                black_pawn = true;
                            } else {
                                if white_pawn {
                                    return true;
                                }
                                white_pawn = true;
                            }
                        }
                    },
                    _ => {},
                }
                row = row + 1;
            }
            col = col + 1;
        }
        false
    }
}

} // verus!

verus! {

/// The problem found with the `i`-th variable piece, given the ones before
/// it: a repeated id, a repeated or occupied square, a hand of the other
/// side, or no candidate.
pub open spec fn spec_error(base: PositionView, specs: Seq<VariableSpec>, i: int) -> Option<ProblemError> {
    let s = specs[i];
    if exists|j: int| 0 <= j < i && #[trigger] specs[j].id == s.id {
        Some(ProblemError::DuplicateId(s.id))
    } else {
        let location_error = match s.location {
            VariableLocation::Board(sq) => if exists|j: int|
                0 <= j < i && #[trigger] specs[j].location == VariableLocation::Board(sq) {
                Some(ProblemError::DuplicateSquare(sq))
            } else if base.cell(sq.spec_index()) is Piece {
                Some(ProblemError::OccupiedSquare(sq))
            } else {
                None
            },
            VariableLocation::Hand(c) => if c != s.color {
                Some(ProblemError::HandOwnerMismatch(s.id))
            } else {
                None
            },
        };
        if location_error is Some {
            location_error
        } else if s.candidates@.len() == 0 {
            Some(ProblemError::EmptyCandidates(s.id))
        } else {
            None
        }
    }
}

/// The first problem among the first `n` variable pieces.
pub open spec fn first_error(base: PositionView, specs: Seq<VariableSpec>, n: int) -> Option<ProblemError>
    decreases n,
{
    if n <= 0 {
        None
    } else {
        match first_error(base, specs, n - 1) {
            Some(e) => Some(e),
            None => spec_error(base, specs, n - 1),
        }
    }
}

/// What is wrong with the variable pieces of a problem, if anything.
pub open spec fn validation_error(base: PositionView, specs: Seq<VariableSpec>) -> Option<ProblemError> {
    if specs.len() > MAX_VARIABLES {
        Some(ProblemError::TooManyVariables)
    } else {
        first_error(base, specs, specs.len() as int)
    }
}

/// The squares of the variable pieces lie on the board.
pub open spec fn specs_wf(specs: Seq<VariableSpec>) -> bool {
    forall|i: int| 0 <= i < specs.len() ==> location_wf(#[trigger] specs[i].location)
}

proof fn lemma_first_error_stays(base: PositionView, specs: Seq<VariableSpec>, i: int, n: int)
    requires
        0 <= i < n,
        first_error(base, specs, i) is None,
        spec_error(base, specs, i) is Some,
    ensures
        first_error(base, specs, n) == spec_error(base, specs, i),
    decreases n - i,
{
    if n > i + 1 {
        lemma_first_error_stays(base, specs, i, n - 1);
    }
}

/// Checks the variable pieces of a problem against its base position.
pub fn validate_specs(base: &Position, specs: &Vec<VariableSpec>) -> (r: Result<(), ProblemError>)
    requires
        base.wf(),
        specs_wf(specs@),
    ensures
        r == match validation_error(base@, specs@) {
            None => Ok(()),
            Some(e) => Err(e),
        },
{
    if specs.len() > MAX_VARIABLES {
        return Err(ProblemError::TooManyVariables);
    }
    let mut i: usize = 0;
    while i < specs.len()
        invariant
            base.wf(),
            specs_wf(specs@),
            specs@.len() <= MAX_VARIABLES,
            i <= specs@.len(),
            first_error(base@, specs@, i as int) is None,
        decreases specs@.len() - i,
    {
        let id = specs[i].id;
        let location = specs[i].location;
        let color = specs[i].color;
        let mut j: usize = 0;
        while j < i
            invariant
                j <= i,
                i < specs@.len(),
                specs@.len() <= MAX_VARIABLES,
                first_error(base@, specs@, i as int) is None,
                id == specs@[i as int].id,
                forall|q: int| 0 <= q < j ==> specs@[q].id != id,
            decreases i - j,
        {
            if specs[j].id == id {
                proof {
                    assert(specs@[j as int].id == specs@[i as int].id);
                    assert(spec_error(base@, specs@, i as int) == Some(ProblemError::DuplicateId(id)));
                    lemma_first_error_stays(base@, specs@, i as int, specs@.len() as int);
                }
                return Err(ProblemError::DuplicateId(id));
            }
            j = j + 1;
        }
        match location {
            VariableLocation::Board(sq) => {
                let mut j: usize = 0;
                while j < i
                    invariant
                        j <= i,
                        i < specs@.len(),
                        specs@.len() <= MAX_VARIABLES,
                        first_error(base@, specs@, i as int) is None,
                        id == specs@[i as int].id,
                        forall|q: int| 0 <= q < i ==> specs@[q].id != id,
                        specs@[i as int].location == VariableLocation::Board(sq),
                        forall|q: int| 0 <= q < j ==> specs@[q].location != VariableLocation::Board(sq),
                    decreases i - j,
                {
                    if specs[j].location == VariableLocation::Board(sq) {
                        proof {
                            assert(specs@[j as int].location == VariableLocation::Board(sq));
                            assert(spec_error(base@, specs@, i as int) == Some(ProblemError::DuplicateSquare(sq)));
                            lemma_first_error_stays(base@, specs@, i as int, specs@.len() as int);
                        }
                        return Err(ProblemError::DuplicateSquare(sq));
                    }
                    j = j + 1;
                }
                assert(location_wf(specs@[i as int].location));
                if base.get(sq).is_some() {
                    proof {
                        assert(spec_error(base@, specs@, i as int) == Some(ProblemError::OccupiedSquare(sq)));
                        lemma_first_error_stays(base@, specs@, i as int, specs@.len() as int);
                    }
                    return Err(ProblemError::OccupiedSquare(sq));
                }
            },
            VariableLocation::Hand(c) => {
                if c != color {
                    proof {
                        assert(spec_error(base@, specs@, i as int) == Some(ProblemError::HandOwnerMismatch(id)));
                        lemma_first_error_stays(base@, specs@, i as int, specs@.len() as int);
                    }
                    return Err(ProblemError::HandOwnerMismatch(id));
                }
            },
        }
        if specs[i].candidates.len() == 0 {
            proof {
                assert(spec_error(base@, specs@, i as int) == Some(ProblemError::EmptyCandidates(id)));
                lemma_first_error_stays(base@, specs@, i as int, specs@.len() as int);
            }
            return Err(ProblemError::EmptyCandidates(id));
        }
        assert(spec_error(base@, specs@, i as int) is None);
        i = i + 1;
    }
    Ok(())
}

/// File then rank of a square, as in `64`.
pub open spec fn square_label(sq: Square) -> Seq<char> {
    decimal((sq.idx / 9 + 1) as nat) + decimal((sq.idx % 9 + 1) as nat)
}

/// The message of an error.
pub open spec fn error_text(e: ProblemError) -> Seq<char> {
    match e {
        ProblemError::Sfen(t) => "SFENを解釈できません: "@ + t@,
        ProblemError::TooManyVariables => "覆面駒は6枚まで指定できます"@,
        ProblemError::DuplicateId(VariableId(id)) => "覆面駒ID "@ + decimal(id as nat) + " が重複しています"@,
        ProblemError::DuplicateSquare(sq) => "覆面駒の配置マス "@ + square_label(sq) + " が重複しています"@,
        ProblemError::OccupiedSquare(sq) => "覆面駒の配置マス "@ + square_label(sq) + " に通常駒があります"@,
        ProblemError::HandOwnerMismatch(VariableId(id)) => "覆面駒ID "@ + decimal(id as nat) + " の所属と駒台が一致しません"@,
        ProblemError::EmptyCandidates(VariableId(id)) => "覆面駒ID "@ + decimal(id as nat) + " の候補が空です"@,
        ProblemError::NoConsistentWorld => "初形の合法性と矛盾しない覆面駒の割当がありません"@,
    }
}

fn push_square_label(s: &mut String, sq: Square)
    ensures
        final(s)@ == old(s)@ + square_label(sq),
{
    push_decimal(s, (sq.idx / 9 + 1) as u64);
    push_decimal(s, (sq.idx % 9 + 1) as u64);
    proof {
        assert(final(s)@ =~= old(s)@ + square_label(sq));
    }
}

impl ProblemError {
    /// The message for this error.
    pub fn to_string(&self) -> (r: String)
        ensures
            r@ == error_text(*self),
    {
        let mut s = String::new();
        match self {
            ProblemError::Sfen(t) => {
                s.append("SFENを解釈できません: ");
                s.append(t.as_str());
            },
            ProblemError::TooManyVariables => {
                s.append("覆面駒は6枚まで指定できます");
            },
            ProblemError::DuplicateId(VariableId(id)) => {
                s.append("覆面駒ID ");
                push_decimal(&mut s, *id as u64);
                s.append(" が重複しています");
            },
            ProblemError::DuplicateSquare(sq) => {
                s.append("覆面駒の配置マス ");
                push_square_label(&mut s, *sq);
                s.append(" が重複しています");
            },
            ProblemError::OccupiedSquare(sq) => {
                s.append("覆面駒の配置マス ");
                push_square_label(&mut s, *sq);
                s.append(" に通常駒があります");
            },
            ProblemError::HandOwnerMismatch(VariableId(id)) => {
                s.append("覆面駒ID ");
                push_decimal(&mut s, *id as u64);
                s.append(" の所属と駒台が一致しません");
            },
            ProblemError::EmptyCandidates(VariableId(id)) => {
                s.append("覆面駒ID ");
                push_decimal(&mut s, *id as u64);
                s.append(" の候補が空です");
            },
            ProblemError::NoConsistentWorld => {
                s.append("初形の合法性と矛盾しない覆面駒の割当がありません");
            },
        }
        proof {
            assert(s@ =~= error_text(*self));
        }
        s
    }
}

} // verus!

verus! {

/// The position with `c[k]` pieces of each hand kind `k` taken out of
/// white's hand.
pub open spec fn take_from_white(p: PositionView, c: Seq<usize>) -> PositionView {
    PositionView {
        board: p.board,
        hands: Seq::new(
            14,
            |s: int|
                if 7 <= s {
                    (p.hands[s] - c[s - 7]) as u32
                } else {
                    p.hands[s]
                },
        ),
        turn: p.turn,
        pawn_drop: p.pawn_drop,
    }
}

/// The position with the variable piece `v` put in place; `None` when its
/// square is taken, or it lies in hand as a kind no hand can hold or on the
/// other side's hand.
pub open spec fn place(p: PositionView, v: VariablePiece) -> Option<PositionView> {
    match v.location {
        VariableLocation::Board(sq) => if p.cell(sq.spec_index()) is Piece {
            None
        } else {
            Some(
                PositionView {
                    board: p.board.update(sq.spec_index(), Cell::Piece(v.color, v.kind)),
                    hands: p.hands,
                    turn: p.turn,
                    pawn_drop: p.pawn_drop,
                },
            )
        },
        VariableLocation::Hand(c) => if !v.kind.spec_is_hand_piece() || c != v.color {
            None
        } else {
            let s = hand_slot(c, v.kind);
            Some(
                PositionView {
                    board: p.board,
                    hands: p.hands.update(s, (p.hands[s] + 1) as u32),
                    turn: p.turn,
                    pawn_drop: p.pawn_drop,
                },
            )
        },
    }
}

/// The position with all the variable pieces put in place, in order.
pub open spec fn place_all(p: PositionView, a: Seq<VariablePiece>) -> Option<PositionView>
    decreases a.len(),
{
    if a.len() == 0 {
        Some(p)
    } else {
        match place_all(p, a.drop_last()) {
            Some(q) => place(q, a.last()),
            None => None,
        }
    }
}

/// Number of kings of side `c` on the board.
pub open spec fn kings(p: PositionView, c: Color) -> nat {
    count_selected(p.board, c == Color::Black, c == Color::White, kinds_mask(seq![Kind::King]))
}

/// A legal initial position for the rule: no two pawns on a file nor stuck
/// piece; one white king, and for a help selfmate one black king (at most
/// one otherwise); not both kings in check, and the side not to move not
/// in check.
pub open spec fn acceptable(p: PositionView, rule: MateRule) -> bool {
    &&& !illegal_initial(p)
    &&& kings(p, Color::White) == 1
    &&& if rule == MateRule::HelpSelfmate {
        kings(p, Color::Black) == 1
    } else {
        kings(p, Color::Black) <= 1
    }
    &&& !(in_check(p, Color::Black) && in_check(p, Color::White))
    &&& !(p.turn == Color::Black && in_check(p, Color::White))
    &&& !(p.turn == Color::White && in_check(p, Color::Black))
}

/// The initial position of one assignment `a` of kinds, with `c` pieces of
/// each hand kind taken from white's hand, when it is legal.
#[verifier::opaque]
pub open spec fn built(base: PositionView, a: Seq<VariablePiece>, c: Seq<usize>, rule: MateRule) -> Option<PositionView> {
    match place_all(take_from_white(base, c), a) {
        Some(p) => if acceptable(p, rule) {
            Some(p)
        } else {
            None
        },
        None => None,
    }
}

/// Putting the same pieces in place on two positions with the same board
/// gives the same board, and keeps the difference of every hand count.
proof fn lemma_place_all_pair(p1: PositionView, p2: PositionView, a: Seq<VariablePiece>)
    requires
        p1.board == p2.board,
        p1.hands.len() == 14,
        p2.hands.len() == 14,
        forall|s: int| 0 <= s < 14 ==> #[trigger] p1.hands[s] + a.len() < u32::MAX && p2.hands[s] + a.len() < u32::MAX,
        place_all(p1, a) is Some,
        place_all(p2, a) is Some,
    ensures
        place_all(p1, a)->0.board == place_all(p2, a)->0.board,
        place_all(p1, a)->0.hands.len() == 14,
        place_all(p2, a)->0.hands.len() == 14,
        forall|s: int| 0 <= s < 14 ==> #[trigger] place_all(p1, a)->0.hands[s] <= p1.hands[s] + a.len(),
        forall|s: int| 0 <= s < 14 ==> #[trigger] place_all(p2, a)->0.hands[s] <= p2.hands[s] + a.len(),
        forall|s: int|
            0 <= s < 14 ==> place_all(p1, a)->0.hands[s] - place_all(p2, a)->0.hands[s] == #[trigger] p1.hands[s]
                - p2.hands[s],
    decreases a.len(),
{
    if a.len() > 0 {
        let d = a.drop_last();
        lemma_place_all_pair(p1, p2, d);
        let r1 = place_all(p1, d)->0;
        let r2 = place_all(p2, d)->0;
        let v = a.last();
        assert(place_all(p1, a) == place(r1, v));
        assert(place_all(p2, a) == place(r2, v));
        let q1 = place_all(p1, a)->0;
        let q2 = place_all(p2, a)->0;
        match v.location {
            VariableLocation::Board(sq) => {
                assert(q1.hands == r1.hands && q2.hands == r2.hands);
            },
            VariableLocation::Hand(c) => {
                let slot = hand_slot(c, v.kind);
                assert(0 <= slot < 14) by {
                    assert(v.kind.spec_is_hand_piece());
                }
                assert(r1.hands[slot] <= p1.hands[slot] + d.len());
                assert(r2.hands[slot] <= p2.hands[slot] + d.len());
                assert(q1.hands == r1.hands.update(slot, (r1.hands[slot] + 1) as u32));
                assert(q2.hands == r2.hands.update(slot, (r2.hands[slot] + 1) as u32));
            },
        }
        assert forall|s: int| 0 <= s < 14 implies #[trigger] q1.hands[s] <= p1.hands[s] + a.len() && q2.hands[s]
            <= p2.hands[s] + a.len() && q1.hands[s] - q2.hands[s] == p1.hands[s] - p2.hands[s] by {
            assert(r1.hands[s] <= p1.hands[s] + d.len());
            assert(r2.hands[s] <= p2.hands[s] + d.len());
            assert(r1.hands[s] - r2.hands[s] == p1.hands[s] - p2.hands[s]);
        }
        assert(q1 == place_all(p1, a)->0);
        assert(q2 == place_all(p2, a)->0);
    } else {
        assert(place_all(p1, a) == Some(p1));
        assert(place_all(p2, a) == Some(p2));
    }
}

/// A position built from an assignment tells how many pieces of each kind
/// were taken from white's hand.
proof fn lemma_built_injective(base: PositionView, a: Seq<VariablePiece>, c1: Seq<usize>, c2: Seq<usize>, rule: MateRule)
    requires
        base.hands.len() == 14,
        forall|s: int| 0 <= s < 14 ==> #[trigger] base.hands[s] <= 100000,
        a.len() <= MAX_VARIABLES,
        consumption_ok(base, a, c1),
        consumption_ok(base, a, c2),
        built(base, a, c1, rule) is Some,
        built(base, a, c1, rule) == built(base, a, c2, rule),
    ensures
        c1 == c2,
{
    let p1 = take_from_white(base, c1);
    let p2 = take_from_white(base, c2);
    assert forall|s: int| 0 <= s < 14 implies #[trigger] p1.hands[s] + a.len() < u32::MAX && p2.hands[s] + a.len()
        < u32::MAX by {
        if 7 <= s {
            assert(c1[s - 7] <= white_room(base, s - 7));
            assert(c2[s - 7] <= white_room(base, s - 7));
            assert(base.hand(Color::White, spec_kind_of(s - 7)) == base.hands[s]);
        }
    }
    reveal(built);
    assert(place_all(p1, a) is Some);
    assert(place_all(p2, a) is Some);
    assert(place_all(p1, a)->0 == place_all(p2, a)->0);
    lemma_place_all_pair(p1, p2, a);
    assert forall|i: int| 0 <= i < NUM_SOURCE_KIND implies c1[i] == c2[i] by {
        if i < 7 {
            let s = i + 7;
            assert(base.hand(Color::White, spec_kind_of(i)) == base.hands[s]);
            assert(c1[i] <= white_room(base, i) && c2[i] <= white_room(base, i));
            assert(place_all(p1, a)->0.hands[s] - place_all(p2, a)->0.hands[s] == p1.hands[s] - p2.hands[s]);
        } else {
            assert(white_room(base, i) == 0);
        }
    }
    assert(c1 =~= c2);
}

proof fn lemma_place_all_none(p: PositionView, a: Seq<VariablePiece>, i: int)
    requires
        0 <= i <= a.len(),
        place_all(p, a.take(i)) is None,
    ensures
        place_all(p, a) is None,
    decreases a.len() - i,
{
    if i < a.len() {
        assert(a.take(i + 1).drop_last() =~= a.take(i));
        lemma_place_all_none(p, a, i + 1);
    } else {
        assert(a.take(i) =~= a);
    }
}

/// The initial position of one assignment, when it is legal.
fn build_world(base: &Position, vars: &Vec<VariablePiece>, rule: MateRule, consumed: &Vec<usize>) -> (r:
    Option<Position>)
    requires
        base.wf(),
        crate::sfen::hands_bounded(base),
        consumed@.len() == NUM_SOURCE_KIND,
        forall|k: int| 0 <= k < 7 ==> #[trigger] consumed@[k] <= base@.hand(Color::White, crate::piece::spec_kind_of(k)),
        vars@.len() <= MAX_VARIABLES,
        forall|i: int| 0 <= i < vars@.len() ==> location_wf(#[trigger] vars@[i].location),
    ensures
        match r {
            Some(p) => p.wf() && built(base@, vars@, consumed@, rule) == Some(p@),
            None => built(base@, vars@, consumed@, rule) is None,
        },
{
    reveal(built);
    let mut p = base.copy();
    let mut k: usize = 0;
    while k < 7
        invariant
            k <= 7,
            p.wf(),
            base.wf(),
            consumed@.len() == NUM_SOURCE_KIND,
            forall|q: int| 0 <= q < 7 ==> #[trigger] consumed@[q] <= base@.hand(Color::White, crate::piece::spec_kind_of(q)),
            p.board@ == base.board@,
            p.turn == base.turn,
            p.pawn_drop == base.pawn_drop,
            forall|s: int| 0 <= s < 14 ==> #[trigger] p.hands.counts@[s] == if 7 <= s < 7 + k {
                (base.hands.counts@[s] - consumed@[s - 7]) as u32
            } else {
                base.hands.counts@[s]
            },
        decreases 7 - k,
    {
        let kind = crate::piece::kind_of(k);
        let ghost before = p.hands.counts@;
        assert(hand_slot(Color::White, kind) == 7 + k);
        p.hands.remove_n(Color::White, kind, consumed[k]);
        proof {
            assert forall|s: int| 0 <= s < 14 implies #[trigger] p.hands.counts@[s] == if 7 <= s < 7 + k + 1 {
                (base.hands.counts@[s] - consumed@[s - 7]) as u32
            } else {
                base.hands.counts@[s]
            } by {
                let c = if s < 7 { Color::Black } else { Color::White };
                let kk = crate::piece::spec_kind_of(s % 7);
                assert(hand_slot(c, kk) == s);
                assert(p.hands.spec_count(c, kk) == p.hands.counts@[s]);
                if s != 7 + k {
                    assert((c, kk) != (Color::White, kind));
                }
            }
        }
        k = k + 1;
    }
    let ghost start = take_from_white(base@, consumed@);
    proof {
        assert(p@.hands =~= start.hands);
        assert forall|s: int| 0 <= s < 14 implies #[trigger] p.hands.counts@[s] <= 100000 by {
            assert(base.hands.counts@[s] <= 100000);
        }
    }
    let mut i: usize = 0;
    while i < vars.len()
        invariant
            i <= vars@.len(),
            vars@.len() <= MAX_VARIABLES,
            forall|q: int| 0 <= q < vars@.len() ==> location_wf(#[trigger] vars@[q].location),
            p.wf(),
            start == take_from_white(base@, consumed@),
            place_all(start, vars@.take(i as int)) == Some(p@),
            forall|s: int| 0 <= s < 14 ==> #[trigger] p.hands.counts@[s] <= 100000 + i,
        decreases vars@.len() - i,
    {
        let v = vars[i];
        proof {
            assert(vars@.take(i + 1).drop_last() =~= vars@.take(i as int));
            assert(vars@.take(i + 1).last() == v);
            assert(location_wf(vars@[i as int].location));
        }
        match v.location {
            VariableLocation::Board(sq) => {
                if p.get(sq).is_some() {
                    proof {
                        reveal(built);
                        assert(place_all(start, vars@.take(i + 1)) == place(p@, v));
                        assert(place(p@, v) is None);
                        lemma_place_all_none(start, vars@, i + 1);
                    }
                    return None;
                }
                let ghost before = p@;
                p.set(sq, v.color, v.kind);
                proof {
                    assert(place_all(start, vars@.take(i + 1)) == place(before, v));
                    assert(place(before, v) == Some(p@));
                }
            },
            VariableLocation::Hand(c) => {
                if !v.kind.is_hand_piece() || c != v.color {
                    proof {
                        reveal(built);
                        assert(place_all(start, vars@.take(i + 1)) == place(p@, v));
                        assert(place(p@, v) is None);
                        lemma_place_all_none(start, vars@, i + 1);
                    }
                    return None;
                }
                let ghost before_p = p@;
                let ghost before = p.hands.counts@;
                let slot = c.index() * 7 + v.kind.index();
                assert(before[slot as int] <= 100000 + i);
                p.hands.add(c, v.kind);
                proof {
                    assert(slot == hand_slot(c, v.kind));
                    assert forall|s: int| 0 <= s < 14 implies #[trigger] p.hands.counts@[s] == if s == slot {
                        (before[s] + 1) as u32
                    } else {
                        before[s]
                    } by {
                        let cc = if s < 7 { Color::Black } else { Color::White };
                        let kk = crate::piece::spec_kind_of(s % 7);
                        assert(hand_slot(cc, kk) == s);
                        assert(p.hands.spec_count(cc, kk) == p.hands.counts@[s]);
                        if s != slot {
                            assert((cc, kk) != (c, v.kind));
                        }
                    }
                    assert(p.hands.counts@ =~= before.update(slot as int, (before[slot as int] + 1) as u32));
                    assert(place_all(start, vars@.take(i + 1)) == place(before_p, v));
                    assert(place(before_p, v) == Some(p@));
                }
            },
        }
        i = i + 1;
    }
    proof {
        assert(vars@.take(vars@.len() as int) =~= vars@);
    }
    if p.is_illegal_initial_position() {
        return None;
    }
    let white_kings = count_kind(&p, Color::White, Kind::King);
    let black_kings = count_kind(&p, Color::Black, Kind::King);
    if white_kings != 1 {
        return None;
    }
    match rule {
        MateRule::HelpSelfmate => {
            if black_kings != 1 {
                return None;
            }
        },
        _ => {
            if black_kings > 1 {
                return None;
            }
        },
    }
    let black_checked = in_check_exec(&p, Color::Black);
    let white_checked = in_check_exec(&p, Color::White);
    if black_checked && white_checked {
        return None;
    }
    if p.turn.is_black() && white_checked {
        return None;
    }
    if p.turn.is_white() && black_checked {
        return None;
    }
    Some(p)
}

} // verus!

verus! {

/// The board kinds that count as kind `k`: itself and its promoted form.
pub open spec fn source_mask(k: Kind) -> Seq<bool> {
    match k.spec_promote() {
        Some(pk) => kinds_mask(seq![k, pk]),
        None => kinds_mask(seq![k]),
    }
}

/// Pieces of kind `k` already in the position: in both hands and on the
/// board, promoted or not.
pub open spec fn inventory(p: PositionView, k: Kind) -> nat {
    p.hand(Color::Black, k) + p.hand(Color::White, k) + count_selected(p.board, true, true, source_mask(k))
}

/// Pieces of source kind `i` a variable piece may take from white's hand.
pub open spec fn white_room(p: PositionView, i: int) -> nat {
    if i < 7 {
        p.hand(Color::White, spec_kind_of(i))
    } else {
        0
    }
}

/// Pieces of source kind `i` left in the box of a standard set.
pub open spec fn box_room(p: PositionView, i: int) -> int {
    spec_kind_of(i).spec_max_count() - inventory(p, spec_kind_of(i))
}

/// Variable pieces of `a` whose unpromoted kind is source kind `i`.
pub open spec fn assigned(a: Seq<VariablePiece>, i: int) -> nat
    decreases a.len(),
{
    if a.len() == 0 {
        0
    } else {
        assigned(a.drop_last(), i) + if a.last().kind.spec_maybe_unpromote().spec_index() == i {
            1nat
        } else {
            0nat
        }
    }
}

/// The set holds enough pieces of every kind for the assignment `a`.
pub open spec fn stock_ok(p: PositionView, a: Seq<VariablePiece>) -> bool {
    forall|i: int|
        0 <= i < NUM_SOURCE_KIND ==> inventory(p, spec_kind_of(i)) <= spec_kind_of(i).spec_max_count()
            && #[trigger] assigned(a, i) <= white_room(p, i) + box_room(p, i)
}

/// `c[i]` pieces of source kind `i` are taken from white's hand, the rest of
/// the assigned ones from the box.
pub open spec fn consumption_ok(p: PositionView, a: Seq<VariablePiece>, c: Seq<usize>) -> bool {
    &&& c.len() == NUM_SOURCE_KIND
    &&& forall|i: int|
        0 <= i < NUM_SOURCE_KIND ==> assigned(a, i) - box_room(p, i) <= #[trigger] c[i] && c[i] <= assigned(
            a,
            i,
        ) && c[i] <= white_room(p, i)
}

/// `w` is the world of the position `p` with the variable pieces `a`.
pub open spec fn world_of(w: WorldView, p: PositionView, a: Seq<VariablePiece>) -> bool {
    &&& w.pos == p
    &&& w.anon.len() == 0
    &&& sorted_ids(w.vars)
    &&& forall|v: VariablePiece| #[trigger] w.vars.contains(v) <==> a.contains(v)
}

/// `out` holds a world whose view is `w`.
pub open spec fn holds(out: Seq<ConcreteWorld>, w: WorldView) -> bool {
    exists|i: int| 0 <= i < out.len() && (#[trigger] out[i])@ == w
}

/// No two variable pieces share an id.
pub open spec fn distinct_ids(a: Seq<VariablePiece>) -> bool {
    forall|i: int, j: int| 0 <= i < j < a.len() ==> (#[trigger] a[i]).id != (#[trigger] a[j]).id
}

proof fn lemma_new_world(w: WorldView, p: PositionView, a: Seq<VariablePiece>)
    requires
        distinct_ids(a),
        w.wf(),
        w.pos == p,
        w.anon.len() == 0,
        forall|v: VariablePiece| w.vars.contains(v) ==> a.contains(v),
        forall|i: int| 0 <= i < a.len() ==> #[trigger] has_id(w.vars, a[i].id),
    ensures
        world_of(w, p, a),
{
    assert forall|v: VariablePiece| #[trigger] w.vars.contains(v) <==> a.contains(v) by {
        if a.contains(v) {
            let i = choose|i: int| 0 <= i < a.len() && a[i] == v;
            assert(has_id(w.vars, a[i].id));
            let j = choose|j: int| 0 <= j < w.vars.len() && #[trigger] w.vars[j].id == a[i].id;
            assert(w.vars.contains(w.vars[j]));
            assert(a.contains(w.vars[j]));
            let i2 = choose|i2: int| 0 <= i2 < a.len() && a[i2] == w.vars[j];
            if i2 != i {
                if i2 < i {
                    assert(a[i2].id != a[i].id);
                } else {
                    assert(a[i].id != a[i2].id);
                }
            }
        }
    }
}

/// Number of variable pieces of each source kind.
fn count_sources(vars: &Vec<VariablePiece>) -> (r: Vec<usize>)
    requires
        vars@.len() <= MAX_VARIABLES,
    ensures
        r@.len() == NUM_SOURCE_KIND,
        forall|i: int| 0 <= i < NUM_SOURCE_KIND ==> #[trigger] r@[i] == assigned(vars@, i),
{
    let mut r: Vec<usize> = Vec::new();
    let mut i: usize = 0;
    while i < NUM_SOURCE_KIND
        invariant
            i <= NUM_SOURCE_KIND,
            r@.len() == i,
            forall|q: int| 0 <= q < i ==> r@[q] == 0,
        decreases NUM_SOURCE_KIND - i,
    {
        r.push(0);
        i = i + 1;
    }
    let mut j: usize = 0;
    while j < vars.len()
        invariant
            j <= vars@.len(),
            vars@.len() <= MAX_VARIABLES,
            r@.len() == NUM_SOURCE_KIND,
            forall|q: int| 0 <= q < NUM_SOURCE_KIND ==> #[trigger] r@[q] == assigned(vars@.take(j as int), q),
            forall|q: int| 0 <= q < NUM_SOURCE_KIND ==> #[trigger] r@[q] <= j,
        decreases vars@.len() - j,
    {
        let b = vars[j].kind.maybe_unpromote().index();
        proof {
            crate::piece::lemma_promote_unpromote(vars@[j as int].kind);
            assert(vars@.take(j + 1).drop_last() =~= vars@.take(j as int));
            assert(vars@.take(j + 1).last() == vars@[j as int]);
        }
        let x = r[b];
        r.set(b, x + 1);
        j = j + 1;
    }
    proof {
        assert(vars@.take(vars@.len() as int) =~= vars@);
    }
    r
}

/// Number of pieces of kind `k` already in the position.
fn inventory_exec(p: &Position, k: Kind) -> (r: usize)
    requires
        p.wf(),
        crate::sfen::hands_bounded(p),
    ensures
        r == inventory(p@, k),
{
    let mask = match k.promote() {
        Some(pk) => {
            let ks = [k, pk];
            proof {
                assert(ks@ =~= seq![k, pk]);
            }
            crate::census::kinds_mask_exec(&ks)
        },
        None => {
            let ks = [k];
            proof {
                assert(ks@ =~= seq![k]);
            }
            crate::census::kinds_mask_exec(&ks)
        },
    };
    proof {
        crate::sfen::lemma_hands_bounded(p, Color::Black, k);
        crate::sfen::lemma_hands_bounded(p, Color::White, k);
    }
    let on_board = crate::census::count_pieces(p, true, true, &mask);
    p.hands.count(Color::Black, k) + p.hands.count(Color::White, k) + on_board as usize
}

} // verus!

verus! {

/// A world of the assignment `a`, with a way of taking pieces from white's
/// hand that starts with `prefix`.
#[verifier::opaque]
pub open spec fn from_counts(
    base: PositionView,
    a: Seq<VariablePiece>,
    rule: MateRule,
    prefix: Seq<usize>,
    w: WorldView,
) -> bool {
    exists|c: Seq<usize>|
        c.take(prefix.len() as int) == prefix && consumption_ok(base, a, c) && (#[trigger] built(
            base,
            a,
            c,
            rule,
        ) matches Some(p) && world_of(w, p, a))
}

/// The limits of the source kinds, as computed from the base position.
pub open spec fn limits_ok(base: PositionView, white: Seq<usize>, boxl: Seq<usize>) -> bool {
    &&& white.len() == NUM_SOURCE_KIND
    &&& boxl.len() == NUM_SOURCE_KIND
    &&& forall|i: int| 0 <= i < NUM_SOURCE_KIND ==> #[trigger] white[i] == white_room(base, i)
    &&& forall|i: int| 0 <= i < NUM_SOURCE_KIND ==> #[trigger] boxl[i] == box_room(base, i)
}

proof fn lemma_assigned_bound(a: Seq<VariablePiece>, i: int)
    ensures
        assigned(a, i) <= a.len(),
    decreases a.len(),
{
    if a.len() > 0 {
        lemma_assigned_bound(a.drop_last(), i);
    }
}

/// Adds to `out` the worlds of the assignment `vars` for every way of taking
/// pieces from white's hand that starts with `consumed`.
#[verifier::rlimit(40)]
/// After the ways that take `x` pieces of the next kind from white's hand
/// are added, the worlds found so far stay apart, and each takes at most `x`.
proof fn lemma_counts_step(
    base: PositionView,
    vars: Seq<VariablePiece>,
    rule: MateRule,
    consumed: Seq<usize>,
    next: Seq<usize>,
    x: int,
    old: Seq<ConcreteWorld>,
    mid: Seq<ConcreteWorld>,
    out: Seq<ConcreteWorld>,
)
    requires
        base.hands.len() == 14,
        forall|q: int| 0 <= q < 14 ==> #[trigger] base.hands[q] <= 100000,
        vars.len() <= MAX_VARIABLES,
        consumed.len() < NUM_SOURCE_KIND,
        next.len() == consumed.len() + 1,
        next.take(consumed.len() as int) == consumed,
        next[consumed.len() as int] == x,
        old.len() <= mid.len() <= out.len(),
        out.take(mid.len() as int) == mid,
        forall|i: int| old.len() <= i < mid.len() ==> counted_below(base, vars, rule, consumed, x, (#[trigger] mid[i])@),
        forall|i: int, j: int| old.len() <= i < j < mid.len() ==> (#[trigger] mid[i])@ != (#[trigger] mid[j])@,
        forall|i: int| mid.len() <= i < out.len() ==> from_counts(base, vars, rule, next, (#[trigger] out[i])@),
        forall|i: int, j: int| mid.len() <= i < j < out.len() ==> (#[trigger] out[i])@ != (#[trigger] out[j])@,
    ensures
        forall|i: int| old.len() <= i < out.len() ==> counted_below(base, vars, rule, consumed, x + 1, (#[trigger] out[i])@),
        forall|i: int, j: int| old.len() <= i < j < out.len() ==> (#[trigger] out[i])@ != (#[trigger] out[j])@,
{
    reveal(from_counts);
    let n = consumed.len() as int;
    assert forall|i: int| mid.len() <= i < out.len() implies counted_below(base, vars, rule, consumed, x + 1, (#[trigger] out[i])@) by {
        let c = choose|c: Seq<usize>|
            c.take(n + 1) == next && consumption_ok(base, vars, c) && (#[trigger] built(base, vars, c, rule) matches Some(p) && world_of(out[i]@, p, vars));
        assert(c.len() == NUM_SOURCE_KIND);
        assert(c.take(n) =~= c.take(n + 1).take(n));
        assert(next.take(n) =~= consumed);
        assert(c[n] == c.take(n + 1)[n]);
    }
    assert forall|i: int| old.len() <= i < out.len() implies counted_below(base, vars, rule, consumed, x + 1, (#[trigger] out[i])@) by {
        if i < mid.len() {
            assert(out[i] == out.take(mid.len() as int)[i]);
            assert(counted_below(base, vars, rule, consumed, x, mid[i]@));
        }
    }
    assert forall|i: int, j: int| old.len() <= i < j < out.len() implies (#[trigger] out[i])@ != (#[trigger] out[j])@ by {
        if j < mid.len() {
            assert(out[i] == out.take(mid.len() as int)[i]);
            assert(out[j] == out.take(mid.len() as int)[j]);
        } else if i < mid.len() {
            assert(out[i] == out.take(mid.len() as int)[i]);
            assert(counted_below(base, vars, rule, consumed, x, mid[i]@));
            let ci = choose|c: Seq<usize>|
                c.take(n) == consumed && c[n] < x && consumption_ok(base, vars, c) && (#[trigger] built(base, vars, c, rule) matches Some(p)
                    && world_of(mid[i]@, p, vars));
            let cj = choose|c: Seq<usize>|
                c.take(n + 1) == next && consumption_ok(base, vars, c) && (#[trigger] built(base, vars, c, rule) matches Some(p) && world_of(out[j]@, p, vars));
            assert(cj.len() == NUM_SOURCE_KIND);
            assert(cj[n] == cj.take(n + 1)[n]);
            if out[i]@ == out[j]@ {
                lemma_built_injective(base, vars, ci, cj, rule);
            }
        }
    }
}

/// `w` is the world of the assignment `a` with a way of taking pieces from
/// white's hand that starts with `prefix` and then takes fewer than `x` of
/// the next kind.
pub open spec fn counted_below(
    base: PositionView,
    a: Seq<VariablePiece>,
    rule: MateRule,
    prefix: Seq<usize>,
    x: int,
    w: WorldView,
) -> bool {
    exists|c: Seq<usize>|
        c.take(prefix.len() as int) == prefix && c[prefix.len() as int] < x && consumption_ok(base, a, c) && (
        #[trigger] built(base, a, c, rule) matches Some(p) && world_of(w, p, a))
}

#[verifier::rlimit(80)]
#[verifier::spinoff_prover]
fn enumerate_counts(
    base: &Position,
    vars: &Vec<VariablePiece>,
    rule: MateRule,
    counts: &Vec<usize>,
    white: &Vec<usize>,
    boxl: &Vec<usize>,
    consumed: Vec<usize>,
    out: &mut Vec<ConcreteWorld>,
)
    requires
        base.wf(),
        crate::sfen::hands_bounded(base),
        vars@.len() <= MAX_VARIABLES,
        forall|i: int| 0 <= i < vars@.len() ==> location_wf(#[trigger] vars@[i].location),
        distinct_ids(vars@),
        counts@.len() == NUM_SOURCE_KIND,
        forall|i: int| 0 <= i < NUM_SOURCE_KIND ==> #[trigger] counts@[i] == assigned(vars@, i),
        limits_ok(base@, white@, boxl@),
        stock_ok(base@, vars@),
        consumed@.len() <= NUM_SOURCE_KIND,
        forall|i: int|
            0 <= i < consumed@.len() ==> assigned(vars@, i) - box_room(base@, i) <= #[trigger] consumed@[i]
                && consumed@[i] <= assigned(vars@, i) && consumed@[i] <= white_room(base@, i),
        crate::state::worlds_wf(crate::state::worlds_view(old(out)@)),
    ensures
        crate::state::worlds_wf(crate::state::worlds_view(final(out)@)),
        final(out)@.len() >= old(out)@.len(),
        final(out)@.take(old(out)@.len() as int) == old(out)@,
        forall|i: int|
            old(out)@.len() <= i < final(out)@.len() ==> from_counts(base@, vars@, rule, consumed@, (#[trigger] final(out)@[i])@),
        forall|i: int, j: int|
            old(out)@.len() <= i < j < final(out)@.len() ==> (#[trigger] final(out)@[i])@ != (#[trigger] final(out)@[j])@,
        forall|c: Seq<usize>|
            c.take(consumed@.len() as int) == consumed@ && consumption_ok(base@, vars@, c) && #[trigger] built(
                base@,
                vars@,
                c,
                rule,
            ) is Some ==> exists|i: int|
                old(out)@.len() <= i < final(out)@.len() && world_of(
                    (#[trigger] final(out)@[i])@,
                    built(base@, vars@, c, rule)->0,
                    vars@,
                ),
    decreases NUM_SOURCE_KIND - consumed@.len(),
{
    let n = consumed.len();
    if n == NUM_SOURCE_KIND {
        proof {
            reveal(from_counts);
            assert forall|k: int| 0 <= k < 7 implies #[trigger] consumed@[k] <= base@.hand(Color::White, spec_kind_of(k)) by {
                assert(consumed@[k] <= white_room(base@, k));
            }
            assert(consumption_ok(base@, vars@, consumed@));
            assert(consumed@.take(n as int) =~= consumed@);
        }
        match build_world(base, vars, rule, &consumed) {
            Some(p) => {
                let ghost pv = p@;
                let copy = vars.clone();
                proof {
            reveal(from_counts);
                    assert(copy@ =~= vars@);
                }
                let w = ConcreteWorld::new(p, copy);
                proof {
            reveal(from_counts);
                    lemma_new_world(w@, pv, vars@);
                }
                let ghost old_out = out@;
                out.push(w);
                proof {
            reveal(from_counts);
                    assert(out@.take(old_out.len() as int) =~= old_out);
                    assert(built(base@, vars@, consumed@, rule) == Some(pv));
                    assert(from_counts(base@, vars@, rule, consumed@, w@));
                    assert forall|j: int| 0 <= j < crate::state::worlds_view(out@).len() implies (#[trigger] crate::state::worlds_view(out@)[j]).wf() by {
                        if j < old_out.len() {
                            assert(crate::state::worlds_view(old_out)[j] == old_out[j]@);
                        }
                    }
                    assert forall|c: Seq<usize>|
                        c.take(n as int) == consumed@ && consumption_ok(base@, vars@, c) && #[trigger] built(base@, vars@, c, rule) is Some
                        implies exists|i: int| old_out.len() <= i < out@.len() && world_of((#[trigger] out@[i])@, built(base@, vars@, c, rule)->0, vars@) by {
                        assert(c =~= consumed@);
                        assert(out@[old_out.len() as int] == w);
                    }
                }
            },
            None => {
                proof {
            reveal(from_counts);
                    assert(out@.take(out@.len() as int) =~= out@);
                    assert forall|c: Seq<usize>|
                        c.take(n as int) == consumed@ && consumption_ok(base@, vars@, c) implies !(#[trigger] built(base@, vars@, c, rule) is Some) by {
                        assert(c =~= consumed@);
                    }
                }
            },
        }
        return ;
    }
    proof {
        lemma_assigned_bound(vars@, n as int);
        assert(assigned(vars@, n as int) <= white_room(base@, n as int) + box_room(base@, n as int));
    }
    let lo = if counts[n] > boxl[n] { counts[n] - boxl[n] } else { 0 };
    let hi = if counts[n] < white[n] { counts[n] } else { white[n] };
    let ghost old_out = out@;
    let mut x = lo;
    proof {
        assert(out@.take(old_out.len() as int) =~= old_out);
    }
    while x <= hi
        invariant
            base.wf(),
            crate::sfen::hands_bounded(base),
            vars@.len() <= MAX_VARIABLES,
            forall|i: int| 0 <= i < vars@.len() ==> location_wf(#[trigger] vars@[i].location),
            distinct_ids(vars@),
            counts@.len() == NUM_SOURCE_KIND,
            forall|i: int| 0 <= i < NUM_SOURCE_KIND ==> #[trigger] counts@[i] == assigned(vars@, i),
            limits_ok(base@, white@, boxl@),
            stock_ok(base@, vars@),
            n == consumed@.len(),
            n < NUM_SOURCE_KIND,
            forall|i: int|
                0 <= i < consumed@.len() ==> assigned(vars@, i) - box_room(base@, i) <= #[trigger] consumed@[i]
                    && consumed@[i] <= assigned(vars@, i) && consumed@[i] <= white_room(base@, i),
            lo == if assigned(vars@, n as int) > box_room(base@, n as int) { assigned(vars@, n as int) - box_room(base@, n as int) } else { 0 },
            hi <= assigned(vars@, n as int) && hi <= white_room(base@, n as int),
            hi == assigned(vars@, n as int) || hi == white_room(base@, n as int),
            lo <= x,
            x <= hi + 1,
            hi <= MAX_VARIABLES,
            crate::state::worlds_wf(crate::state::worlds_view(out@)),
            out@.len() >= old_out.len(),
            out@.take(old_out.len() as int) == old_out,
            forall|i: int|
                old_out.len() <= i < out@.len() ==> from_counts(base@, vars@, rule, consumed@, (#[trigger] out@[i])@),
            forall|i: int| old_out.len() <= i < out@.len() ==> counted_below(base@, vars@, rule, consumed@, x as int, (#[trigger] out@[i])@),
            forall|i: int, j: int| old_out.len() <= i < j < out@.len() ==> (#[trigger] out@[i])@ != (#[trigger] out@[j])@,
            forall|c: Seq<usize>|
                c.take(n as int) == consumed@ && consumption_ok(base@, vars@, c) && c[n as int] < x && #[trigger] built(
                    base@,
                    vars@,
                    c,
                    rule,
                ) is Some ==> exists|i: int|
                    old_out.len() <= i < out@.len() && world_of(
                        (#[trigger] out@[i])@,
                        built(base@, vars@, c, rule)->0,
                        vars@,
                    ),
        decreases hi + 1 - x,
    {
        let mut next = consumed.clone();
        proof {
            reveal(from_counts);
            assert(next@ =~= consumed@);
        }
        next.push(x);
        let ghost mid = out@;
        enumerate_counts(base, vars, rule, counts, white, boxl, next, out);
        proof {
            reveal(from_counts);
            assert(out@.take(old_out.len() as int) =~= old_out) by {
                assert(out@.take(mid.len() as int) == mid);
                assert forall|j: int| 0 <= j < old_out.len() implies out@[j] == old_out[j] by {
                    assert(out@.take(mid.len() as int)[j] == mid[j]);
                    assert(mid.take(old_out.len() as int)[j] == old_out[j]);
                }
            }
            assert forall|i: int| old_out.len() <= i < out@.len() implies from_counts(base@, vars@, rule, consumed@, (#[trigger] out@[i])@) by {
                if i < mid.len() {
                    assert(out@.take(mid.len() as int)[i] == mid[i]);
                } else {
                    let c = choose|c: Seq<usize>|
                        c.take(n + 1) == next@ && consumption_ok(base@, vars@, c) && (#[trigger] built(base@, vars@, c, rule) matches Some(p) && world_of(out@[i]@, p, vars@));
                    assert(c.take(n as int) =~= c.take(n + 1).take(n as int));
                    assert(next@.take(n as int) =~= consumed@);
                }
            }
            assert forall|q: int| 0 <= q < 14 implies #[trigger] base@.hands[q] <= 100000 by {
                assert(base.hands.counts@[q] <= 100000);
            }
            assert(next@.take(n as int) =~= consumed@);
            lemma_counts_step(base@, vars@, rule, consumed@, next@, x as int, old_out, mid, out@);
            assert forall|c: Seq<usize>|
                c.take(n as int) == consumed@ && consumption_ok(base@, vars@, c) && c[n as int] < x + 1 && #[trigger] built(base@, vars@, c, rule) is Some
                implies exists|i: int| old_out.len() <= i < out@.len() && world_of((#[trigger] out@[i])@, built(base@, vars@, c, rule)->0, vars@) by {
                if c[n as int] < x {
                    let i = choose|i: int| old_out.len() <= i < mid.len() && world_of((#[trigger] mid[i])@, built(base@, vars@, c, rule)->0, vars@);
                    assert(out@.take(mid.len() as int)[i] == mid[i]);
                    assert(out@[i] == mid[i]);
                } else {
                    assert(c.take(n + 1) =~= next@);
                }
            }
        }
        x = x + 1;
    }
    proof {
        assert forall|c: Seq<usize>| consumption_ok(base@, vars@, c) implies c[n as int] < x by {
            assert(c[n as int] <= assigned(vars@, n as int) && c[n as int] <= white_room(base@, n as int));
        }
    }
}

} // verus!

verus! {

/// The variable piece `v` is one way to read the spec `s`.
pub open spec fn piece_ok(s: VariableSpec, v: VariablePiece) -> bool {
    &&& v.id == s.id
    &&& v.color == s.color
    &&& v.location == s.location
    &&& s.candidates@.contains(v.kind)
}

/// `a` gives every variable piece of `specs` one of its candidate kinds.
pub open spec fn assignment_ok(specs: Seq<VariableSpec>, a: Seq<VariablePiece>) -> bool {
    &&& a.len() == specs.len()
    &&& forall|i: int| 0 <= i < a.len() ==> piece_ok(specs[i], #[trigger] a[i])
}

/// No two specs share an id.
pub open spec fn distinct_spec_ids(specs: Seq<VariableSpec>) -> bool {
    forall|i: int, j: int| 0 <= i < j < specs.len() ==> (#[trigger] specs[i]).id != (#[trigger] specs[j]).id
}

/// A world of an assignment starting with `prefix`.
#[verifier::opaque]
pub open spec fn from_assignment(
    base: PositionView,
    specs: Seq<VariableSpec>,
    rule: MateRule,
    prefix: Seq<VariablePiece>,
    w: WorldView,
) -> bool {
    exists|a: Seq<VariablePiece>|
        a.take(prefix.len() as int) == prefix && assignment_ok(specs, a) && stock_ok(base, a)
            && #[trigger] from_counts(base, a, rule, Seq::empty(), w)
}

/// `w` is the world of an assignment that starts with `prefix` and gives
/// the next variable piece one of the kinds `ks`.
pub open spec fn assigned_among(
    base: PositionView,
    specs: Seq<VariableSpec>,
    rule: MateRule,
    prefix: Seq<VariablePiece>,
    ks: Seq<Kind>,
    w: WorldView,
) -> bool {
    exists|a: Seq<VariablePiece>|
        a.take(prefix.len() as int) == prefix && ks.contains(a[prefix.len() as int].kind) && assignment_ok(specs, a)
            && stock_ok(base, a) && #[trigger] from_counts(base, a, rule, Seq::empty(), w)
}

/// After the assignments that give the next piece the `j`-th kind are
/// added, the worlds found so far stay apart.
proof fn lemma_assignments_step(
    base: PositionView,
    specs: Seq<VariableSpec>,
    rule: MateRule,
    prefix: Seq<VariablePiece>,
    next: Seq<VariablePiece>,
    kinds: Seq<Kind>,
    j: int,
    old: Seq<ConcreteWorld>,
    mid: Seq<ConcreteWorld>,
    out: Seq<ConcreteWorld>,
)
    requires
        distinct_spec_ids(specs),
        prefix.len() < specs.len(),
        next.len() == prefix.len() + 1,
        next.take(prefix.len() as int) == prefix,
        next[prefix.len() as int].kind == kinds[j],
        next[prefix.len() as int].id == specs[prefix.len() as int].id,
        0 <= j < kinds.len(),
        forall|a: int, b: int| 0 <= a < b < kinds.len() ==> (#[trigger] kinds[a]).spec_index() < (#[trigger] kinds[b]).spec_index(),
        old.len() <= mid.len() <= out.len(),
        out.take(mid.len() as int) == mid,
        forall|i: int| old.len() <= i < mid.len() ==> assigned_among(base, specs, rule, prefix, kinds.take(j), (#[trigger] mid[i])@),
        forall|i: int, k: int| old.len() <= i < k < mid.len() ==> (#[trigger] mid[i])@ != (#[trigger] mid[k])@,
        forall|i: int| mid.len() <= i < out.len() ==> from_assignment(base, specs, rule, next, (#[trigger] out[i])@),
        forall|i: int, k: int| mid.len() <= i < k < out.len() ==> (#[trigger] out[i])@ != (#[trigger] out[k])@,
    ensures
        forall|i: int| old.len() <= i < out.len() ==> assigned_among(base, specs, rule, prefix, kinds.take(j + 1), (#[trigger] out[i])@),
        forall|i: int, k: int| old.len() <= i < k < out.len() ==> (#[trigger] out[i])@ != (#[trigger] out[k])@,
{
    reveal(from_assignment);
    reveal(from_counts);
    let n = prefix.len() as int;
    assert forall|i: int| old.len() <= i < out.len() implies assigned_among(base, specs, rule, prefix, kinds.take(j + 1), (#[trigger] out[i])@) by {
        if i < mid.len() {
            assert(out[i] == out.take(mid.len() as int)[i]);
            assert(assigned_among(base, specs, rule, prefix, kinds.take(j), mid[i]@));
            let a = choose|a: Seq<VariablePiece>|
                a.take(n) == prefix && kinds.take(j).contains(a[n].kind) && assignment_ok(specs, a) && stock_ok(base, a)
                    && #[trigger] from_counts(base, a, rule, Seq::empty(), mid[i]@);
            let t = choose|t: int| 0 <= t < kinds.take(j).len() && kinds.take(j)[t] == a[n].kind;
            assert(kinds.take(j + 1)[t] == a[n].kind);
        } else {
            let a = choose|a: Seq<VariablePiece>|
                a.take(n + 1) == next && assignment_ok(specs, a) && stock_ok(base, a) && #[trigger] from_counts(
                    base,
                    a,
                    rule,
                    Seq::empty(),
                    out[i]@,
                );
            assert(a.take(n) =~= a.take(n + 1).take(n));
            assert(next.take(n) =~= prefix);
            assert(a[n] == a.take(n + 1)[n]);
            assert(kinds.take(j + 1)[j] == kinds[j]);
        }
    }
    assert forall|i: int, k: int| old.len() <= i < k < out.len() implies (#[trigger] out[i])@ != (#[trigger] out[k])@ by {
        if k < mid.len() {
            assert(out[i] == out.take(mid.len() as int)[i]);
            assert(out[k] == out.take(mid.len() as int)[k]);
        } else if i < mid.len() {
            assert(out[i] == out.take(mid.len() as int)[i]);
            assert(assigned_among(base, specs, rule, prefix, kinds.take(j), mid[i]@));
            let a1 = choose|a: Seq<VariablePiece>|
                a.take(n) == prefix && kinds.take(j).contains(a[n].kind) && assignment_ok(specs, a) && stock_ok(base, a)
                    && #[trigger] from_counts(base, a, rule, Seq::empty(), mid[i]@);
            let a2 = choose|a: Seq<VariablePiece>|
                a.take(n + 1) == next && assignment_ok(specs, a) && stock_ok(base, a) && #[trigger] from_counts(
                    base,
                    a,
                    rule,
                    Seq::empty(),
                    out[k]@,
                );
            assert(a2[n] == a2.take(n + 1)[n]);
            if out[i]@ == out[k]@ {
                let w = out[k]@;
                let c1 = choose|c: Seq<usize>|
                    c.take(0) == Seq::<usize>::empty() && consumption_ok(base, a1, c) && (#[trigger] built(base, a1, c, rule) matches Some(
                        p,
                    ) && world_of(w, p, a1));
                let c2 = choose|c: Seq<usize>|
                    c.take(0) == Seq::<usize>::empty() && consumption_ok(base, a2, c) && (#[trigger] built(base, a2, c, rule) matches Some(
                        p,
                    ) && world_of(w, p, a2));
                assert(a2.contains(a2[n]));
                assert(w.vars.contains(a2[n]));
                assert(a1.contains(a2[n]));
                let m = choose|m: int| 0 <= m < a1.len() && a1[m] == a2[n];
                assert(piece_ok(specs[m], a1[m]));
                assert(piece_ok(specs[n], a2[n]));
                if m != n {
                    if m < n {
                        assert(specs[m].id != specs[n].id);
                    } else {
                        assert(specs[n].id != specs[m].id);
                    }
                }
                let t = choose|t: int| 0 <= t < kinds.take(j).len() && kinds.take(j)[t] == a1[n].kind;
                assert(kinds[t] == kinds[j]);
            }
        }
    }
}

/// Adds to `out` the worlds of every assignment of kinds that starts with
/// `prefix`.
#[verifier::rlimit(40)]
fn enumerate_assignments(
    base: &Position,
    specs: &Vec<VariableSpec>,
    rule: MateRule,
    white: &Vec<usize>,
    boxl: &Vec<usize>,
    prefix: Vec<VariablePiece>,
    out: &mut Vec<ConcreteWorld>,
)
    requires
        base.wf(),
        crate::sfen::hands_bounded(base),
        specs@.len() <= MAX_VARIABLES,
        specs_wf(specs@),
        distinct_spec_ids(specs@),
        limits_ok(base@, white@, boxl@),
        forall|i: int| 0 <= i < NUM_SOURCE_KIND ==> #[trigger] inventory(base@, spec_kind_of(i)) <= spec_kind_of(i).spec_max_count(),
        prefix@.len() <= specs@.len(),
        forall|i: int| 0 <= i < prefix@.len() ==> piece_ok(specs@[i], #[trigger] prefix@[i]),
        crate::state::worlds_wf(crate::state::worlds_view(old(out)@)),
    ensures
        crate::state::worlds_wf(crate::state::worlds_view(final(out)@)),
        final(out)@.len() >= old(out)@.len(),
        final(out)@.take(old(out)@.len() as int) == old(out)@,
        forall|i: int|
            old(out)@.len() <= i < final(out)@.len() ==> from_assignment(base@, specs@, rule, prefix@, (#[trigger] final(out)@[i])@),
        forall|i: int, j: int|
            old(out)@.len() <= i < j < final(out)@.len() ==> (#[trigger] final(out)@[i])@ != (#[trigger] final(out)@[j])@,
        forall|a: Seq<VariablePiece>, c: Seq<usize>|
            a.take(prefix@.len() as int) == prefix@ && assignment_ok(specs@, a) && stock_ok(base@, a)
                && consumption_ok(base@, a, c) && #[trigger] built(base@, a, c, rule) is Some ==> exists|i: int|
                old(out)@.len() <= i < final(out)@.len() && world_of(
                    (#[trigger] final(out)@[i])@,
                    built(base@, a, c, rule)->0,
                    a,
                ),
    decreases specs@.len() - prefix@.len(),
{
    let n = prefix.len();
    if n == specs.len() {
        proof {
            reveal(from_assignment);
            assert(prefix@.take(n as int) =~= prefix@);
            assert forall|i: int| 0 <= i < prefix@.len() implies location_wf(#[trigger] prefix@[i].location) by {
                assert(piece_ok(specs@[i], prefix@[i]));
                assert(location_wf(specs@[i].location));
            }
            assert forall|i: int, j: int| 0 <= i < j < prefix@.len() implies (#[trigger] prefix@[i]).id != (#[trigger] prefix@[j]).id by {
                assert(piece_ok(specs@[i], prefix@[i]));
                assert(piece_ok(specs@[j], prefix@[j]));
            }
        }
        let counts = count_sources(&prefix);
        let mut i: usize = 0;
        while i < NUM_SOURCE_KIND
            invariant
                i <= NUM_SOURCE_KIND,
                limits_ok(base@, white@, boxl@),
                out@ == old(out)@,
                crate::state::worlds_wf(crate::state::worlds_view(out@)),
                n == prefix@.len(),
                n == specs@.len(),
                counts@.len() == NUM_SOURCE_KIND,
                forall|q: int| 0 <= q < NUM_SOURCE_KIND ==> #[trigger] counts@[q] == assigned(prefix@, q),
                forall|q: int| 0 <= q < i ==> #[trigger] assigned(prefix@, q) <= white_room(base@, q) + box_room(base@, q),
            decreases NUM_SOURCE_KIND - i,
        {
            if counts[i] > white[i] + boxl[i] {
                proof {
            reveal(from_assignment);
                    assert(!stock_ok(base@, prefix@));
                    assert(out@.take(out@.len() as int) =~= out@);
                    assert forall|a: Seq<VariablePiece>|
                        a.take(n as int) == prefix@ && #[trigger] assignment_ok(specs@, a) implies !stock_ok(base@, a) by {
                        assert(a =~= prefix@);
                    }
                }
                return ;
            }
            i = i + 1;
        }
        proof {
            reveal(from_assignment);
            assert(stock_ok(base@, prefix@));
        }
        let ghost old_out = out@;
        let empty: Vec<usize> = Vec::new();
        enumerate_counts(base, &prefix, rule, &counts, white, boxl, empty, out);
        proof {
            reveal(from_assignment);
            assert(empty@ =~= Seq::<usize>::empty());
            assert forall|i: int| old_out.len() <= i < out@.len() implies from_assignment(base@, specs@, rule, prefix@, (#[trigger] out@[i])@) by {
                assert(from_counts(base@, prefix@, rule, Seq::empty(), out@[i]@));
            }
            assert forall|a: Seq<VariablePiece>, c: Seq<usize>|
                a.take(n as int) == prefix@ && assignment_ok(specs@, a) && stock_ok(base@, a)
                    && consumption_ok(base@, a, c) && #[trigger] built(base@, a, c, rule) is Some
                implies exists|i: int| old_out.len() <= i < out@.len() && world_of((#[trigger] out@[i])@, built(base@, a, c, rule)->0, a) by {
                assert(a =~= prefix@);
                assert(c.take(0) =~= Seq::<usize>::empty());
            }
        }
        return ;
    }
    let ks = crate::kind_set::KindSet::from_iter(specs[n].candidates.as_slice());
    let kinds = ks.iter();
    let id = specs[n].id;
    let color = specs[n].color;
    let location = specs[n].location;
    let ghost old_out = out@;
    proof {
        assert(out@.take(old_out.len() as int) =~= old_out);
    }
    let mut j: usize = 0;
    while j < kinds.len()
        invariant
            base.wf(),
            crate::sfen::hands_bounded(base),
            specs@.len() <= MAX_VARIABLES,
            specs_wf(specs@),
            distinct_spec_ids(specs@),
            limits_ok(base@, white@, boxl@),
            forall|i: int| 0 <= i < NUM_SOURCE_KIND ==> #[trigger] inventory(base@, spec_kind_of(i)) <= spec_kind_of(i).spec_max_count(),
            n == prefix@.len(),
            n < specs@.len(),
            forall|i: int| 0 <= i < prefix@.len() ==> piece_ok(specs@[i], #[trigger] prefix@[i]),
            id == specs@[n as int].id,
            color == specs@[n as int].color,
            location == specs@[n as int].location,
            kinds@ == ks.kinds(),
            forall|k: Kind| ks.has(k) <==> specs@[n as int].candidates@.contains(k),
            j <= kinds@.len(),
            crate::state::worlds_wf(crate::state::worlds_view(out@)),
            out@.len() >= old_out.len(),
            out@.take(old_out.len() as int) == old_out,
            forall|i: int|
                old_out.len() <= i < out@.len() ==> from_assignment(base@, specs@, rule, prefix@, (#[trigger] out@[i])@),
            forall|i: int|
                old_out.len() <= i < out@.len() ==> assigned_among(base@, specs@, rule, prefix@, kinds@.take(j as int), (#[trigger] out@[i])@),
            forall|i: int, j: int| old_out.len() <= i < j < out@.len() ==> (#[trigger] out@[i])@ != (#[trigger] out@[j])@,
            forall|a: Seq<VariablePiece>, c: Seq<usize>|
                a.take(n as int) == prefix@ && assignment_ok(specs@, a) && stock_ok(base@, a)
                    && consumption_ok(base@, a, c) && kinds@.take(j as int).contains(a[n as int].kind)
                    && #[trigger] built(base@, a, c, rule) is Some ==> exists|i: int|
                    old_out.len() <= i < out@.len() && world_of(
                        (#[trigger] out@[i])@,
                        built(base@, a, c, rule)->0,
                        a,
                    ),
        decreases kinds@.len() - j,
    {
        let k = kinds[j];
        let v = VariablePiece { id, color, kind: k, location };
        proof {
            reveal(from_assignment);
            lemma_kinds_contains_seq(ks, kinds@, j as int);
        }
        let mut next = prefix.clone();
        proof {
            reveal(from_assignment);
            assert(next@ =~= prefix@);
        }
        next.push(v);
        let ghost mid = out@;
        enumerate_assignments(base, specs, rule, white, boxl, next, out);
        proof {
            reveal(from_assignment);
            assert(out@.take(old_out.len() as int) =~= old_out) by {
                assert forall|q: int| 0 <= q < old_out.len() implies out@[q] == old_out[q] by {
                    assert(out@.take(mid.len() as int)[q] == mid[q]);
                    assert(mid.take(old_out.len() as int)[q] == old_out[q]);
                }
            }
            assert forall|i: int| old_out.len() <= i < out@.len() implies from_assignment(base@, specs@, rule, prefix@, (#[trigger] out@[i])@) by {
                if i < mid.len() {
                    assert(out@.take(mid.len() as int)[i] == mid[i]);
                } else {
                    let a = choose|a: Seq<VariablePiece>|
                        a.take(n + 1) == next@ && assignment_ok(specs@, a) && stock_ok(base@, a)
                            && #[trigger] from_counts(base@, a, rule, Seq::empty(), out@[i]@);
                    assert(a.take(n as int) =~= a.take(n + 1).take(n as int));
                    assert(next@.take(n as int) =~= prefix@);
                }
            }
            lemma_kinds_sorted(ks);
            assert(next@.take(n as int) =~= prefix@);
            lemma_assignments_step(base@, specs@, rule, prefix@, next@, kinds@, j as int, old_out, mid, out@);
            lemma_take_contains_kind(kinds@, j as int);
            assert forall|a: Seq<VariablePiece>, c: Seq<usize>|
                a.take(n as int) == prefix@ && assignment_ok(specs@, a) && stock_ok(base@, a)
                    && consumption_ok(base@, a, c) && kinds@.take(j + 1).contains(a[n as int].kind)
                    && #[trigger] built(base@, a, c, rule) is Some
                implies exists|i: int| old_out.len() <= i < out@.len() && world_of((#[trigger] out@[i])@, built(base@, a, c, rule)->0, a) by {
                if kinds@.take(j as int).contains(a[n as int].kind) {
                    let i = choose|i: int| old_out.len() <= i < mid.len() && world_of((#[trigger] mid[i])@, built(base@, a, c, rule)->0, a);
                    assert(out@.take(mid.len() as int)[i] == mid[i]);
                    assert(out@[i] == mid[i]);
                } else {
                    assert(a[n as int].kind == k);
                    assert(piece_ok(specs@[n as int], a[n as int]));
                    assert(a[n as int] == v);
                    assert(a.take(n + 1) =~= next@) by {
                        assert forall|q: int| 0 <= q < n + 1 implies a.take(n + 1)[q] == next@[q] by {
                            if q < n {
                                assert(a.take(n as int)[q] == prefix@[q]);
                            }
                        }
                    }
                }
            }
        }
        j = j + 1;
    }
    proof {
        assert(kinds@.take(kinds@.len() as int) =~= kinds@);
        assert forall|a: Seq<VariablePiece>| assignment_ok(specs@, a) implies kinds@.contains(#[trigger] a[n as int].kind) by {
            assert(piece_ok(specs@[n as int], a[n as int]));
            lemma_kinds_contains(ks, a[n as int].kind);
        }
    }
}

proof fn lemma_kinds_contains_seq(ks: crate::kind_set::KindSet, kinds: Seq<Kind>, j: int)
    requires
        kinds == ks.kinds(),
        0 <= j < kinds.len(),
    ensures
        ks.has(kinds[j]),
{
    assert(kinds.contains(kinds[j]));
    lemma_kinds_contains(ks, kinds[j]);
}

proof fn lemma_take_contains_kind(kinds: Seq<Kind>, j: int)
    requires
        0 <= j < kinds.len(),
    ensures
        forall|k: Kind| #[trigger] kinds.take(j + 1).contains(k) <==> (kinds.take(j).contains(k) || kinds[j] == k),
{
    assert forall|k: Kind| #[trigger] kinds.take(j + 1).contains(k) <==> (kinds.take(j).contains(k) || kinds[j] == k) by {
        crate::world::lemma_take_contains(kinds, j, k);
    }
}

} // verus!

verus! {

/// `w` is an initial world of the problem: the world of some assignment of
/// candidate kinds, with the pieces it needs taken from white's hand or the
/// box, whose position is legal.
pub open spec fn initial_world(base: PositionView, specs: Seq<VariableSpec>, rule: MateRule, w: WorldView) -> bool {
    from_assignment(base, specs, rule, Seq::empty(), w)
}

/// Some assignment gives a legal initial position.
#[verifier::opaque]
pub open spec fn some_world(base: PositionView, specs: Seq<VariableSpec>, rule: MateRule) -> bool {
    exists|a: Seq<VariablePiece>, c: Seq<usize>|
        assignment_ok(specs, a) && stock_ok(base, a) && consumption_ok(base, a, c) && #[trigger] built(
            base,
            a,
            c,
            rule,
        ) is Some
}

/// The worlds are exactly the initial worlds of the problem: each once,
/// each an initial world, and each legal assignment has its world among
/// them.
#[verifier::opaque]
pub open spec fn exactly_initial(base: PositionView, specs: Seq<VariableSpec>, rule: MateRule, ws: Seq<WorldView>) -> bool {
    &&& ws.no_duplicates()
    &&& forall|i: int| 0 <= i < ws.len() ==> initial_world(base, specs, rule, #[trigger] ws[i])
    &&& forall|a: Seq<VariablePiece>, c: Seq<usize>|
        assignment_ok(specs, a) && stock_ok(base, a) && consumption_ok(base, a, c) && #[trigger] built(
            base,
            a,
            c,
            rule,
        ) is Some ==> exists|i: int| 0 <= i < ws.len() && world_of(#[trigger] ws[i], built(base, a, c, rule)->0, a)
}

/// The initial worlds of a problem.
pub open spec fn initial_worlds(base: PositionView, specs: Seq<VariableSpec>, rule: MateRule) -> Set<WorldView> {
    Set::new(|w: WorldView| initial_world(base, specs, rule, w))
}

/// Two lists of variable pieces sorted by id with the same pieces are the
/// same list.
proof fn lemma_sorted_vars_equal(x: Seq<VariablePiece>, y: Seq<VariablePiece>)
    requires
        sorted_ids(x),
        sorted_ids(y),
        forall|v: VariablePiece| x.contains(v) <==> y.contains(v),
    ensures
        x == y,
    decreases x.len(),
{
    if x.len() == 0 {
        if y.len() > 0 {
            assert(y.contains(y[0]));
        }
        assert(x =~= y);
    } else {
        assert(x.contains(x[0]));
        assert(y.contains(x[0]));
        let k = choose|k: int| 0 <= k < y.len() && y[k] == x[0];
        assert(y.contains(y[0]));
        let m = choose|m: int| 0 <= m < x.len() && x[m] == y[0];
        if k > 0 {
            assert(y[0].id.0 < y[k].id.0);
            if m > 0 {
                assert(x[0].id.0 < x[m].id.0);
            }
        }
        assert(y[0] == x[0]);
        let xr = x.drop_first();
        let yr = y.drop_first();
        assert forall|v: VariablePiece| xr.contains(v) implies yr.contains(v) by {
            let i = choose|i: int| 0 <= i < xr.len() && xr[i] == v;
            assert(x[i + 1] == v);
            assert(x[0].id.0 < x[i + 1].id.0);
            assert(y.contains(v));
            let t = choose|t: int| 0 <= t < y.len() && y[t] == v;
            if t == 0 {
                assert(v == x[0]);
            }
            assert(yr[t - 1] == v);
        }
        assert forall|v: VariablePiece| yr.contains(v) implies xr.contains(v) by {
            let i = choose|i: int| 0 <= i < yr.len() && yr[i] == v;
            assert(y[i + 1] == v);
            assert(y[0].id.0 < y[i + 1].id.0);
            assert(x.contains(v));
            let t = choose|t: int| 0 <= t < x.len() && x[t] == v;
            if t == 0 {
                assert(v == y[0]);
            }
            assert(xr[t - 1] == v);
        }
        assert forall|i: int, j: int| 0 <= i < j < xr.len() implies (#[trigger] xr[i]).id.0 < (#[trigger] xr[j]).id.0 by {
            assert(xr[i] == x[i + 1] && xr[j] == x[j + 1]);
        }
        assert forall|i: int, j: int| 0 <= i < j < yr.len() implies (#[trigger] yr[i]).id.0 < (#[trigger] yr[j]).id.0 by {
            assert(yr[i] == y[i + 1] && yr[j] == y[j + 1]);
        }
        lemma_sorted_vars_equal(xr, yr);
        assert(x =~= seq![x[0]] + xr);
        assert(y =~= seq![y[0]] + yr);
    }
}

/// A position and an assignment make one world.
proof fn lemma_world_of_unique(w1: WorldView, w2: WorldView, p: PositionView, a: Seq<VariablePiece>)
    requires
        world_of(w1, p, a),
        world_of(w2, p, a),
    ensures
        w1 == w2,
{
    lemma_sorted_vars_equal(w1.vars, w2.vars);
    assert(w1.anon =~= w2.anon);
}

/// Putting pieces in place keeps the side to move.
proof fn lemma_place_all_turn(p: PositionView, a: Seq<VariablePiece>)
    requires
        place_all(p, a) is Some,
    ensures
        place_all(p, a)->0.turn == p.turn,
    decreases a.len(),
{
    if a.len() > 0 {
        lemma_place_all_turn(p, a.drop_last());
    }
}

/// Every initial world has the base position's side to move.
proof fn lemma_initial_turns(base: PositionView, specs: Seq<VariableSpec>, rule: MateRule, ws: Seq<WorldView>)
    requires
        exactly_initial(base, specs, rule, ws),
    ensures
        crate::state::all_to_move(ws, base.turn),
{
    reveal(exactly_initial);
    reveal(from_assignment);
    reveal(from_counts);
    reveal(built);
    assert forall|i: int| 0 <= i < ws.len() implies (#[trigger] ws[i]).pos.turn == base.turn by {
        assert(initial_world(base, specs, rule, ws[i]));
        let a = choose|a: Seq<VariablePiece>|
            a.take(0) == Seq::<VariablePiece>::empty() && assignment_ok(specs, a) && stock_ok(base, a)
                && #[trigger] from_counts(base, a, rule, Seq::empty(), ws[i]);
        let c = choose|c: Seq<usize>|
            c.take(0) == Seq::<usize>::empty() && consumption_ok(base, a, c) && (#[trigger] built(base, a, c, rule) matches Some(p)
                && world_of(ws[i], p, a));
        lemma_place_all_turn(take_from_white(base, c), a);
    }
}

/// Every initial world of a problem is a legal start: the side not to move
/// is not in check, and neither is either king while the other is; it has
/// one white king and at most one black king (exactly one for a help
/// selfmate), and no unmovable piece nor two pawns of a side on a file.
pub proof fn lemma_initial_world_legal(base: PositionView, specs: Seq<VariableSpec>, rule: MateRule, w: WorldView)
    requires
        initial_world(base, specs, rule, w),
    ensures
        w.pos.turn == Color::White ==> !in_check(w.pos, Color::Black),
        w.pos.turn == Color::Black ==> !in_check(w.pos, Color::White),
        !(in_check(w.pos, Color::Black) && in_check(w.pos, Color::White)),
        kings(w.pos, Color::White) == 1,
        rule == MateRule::HelpSelfmate ==> kings(w.pos, Color::Black) == 1,
        kings(w.pos, Color::Black) <= 1,
        !illegal_initial(w.pos),
{
    reveal(from_assignment);
    reveal(from_counts);
    reveal(built);
    let a = choose|a: Seq<VariablePiece>|
        a.take(0) == Seq::<VariablePiece>::empty() && assignment_ok(specs, a) && stock_ok(base, a)
            && #[trigger] from_counts(base, a, rule, Seq::empty(), w);
    let c = choose|c: Seq<usize>|
        c.take(0) == Seq::<usize>::empty() && consumption_ok(base, a, c) && (#[trigger] built(base, a, c, rule) matches Some(
            p,
        ) && world_of(w, p, a));
    lemma_acceptable_legal(built(base, a, c, rule)->0, rule);
}

/// The positions accepted as initial worlds are exactly those that leave
/// the side not to move out of check and not both kings in check, have one
/// white king and at most one black king (exactly one for a help selfmate),
/// and have no unmovable piece nor two pawns of a side on a file.
pub proof fn lemma_acceptable_legal(p: PositionView, rule: MateRule)
    ensures
        acceptable(p, rule) <==> {
            &&& p.turn == Color::White ==> !in_check(p, Color::Black)
            &&& p.turn == Color::Black ==> !in_check(p, Color::White)
            &&& !(in_check(p, Color::Black) && in_check(p, Color::White))
            &&& kings(p, Color::White) == 1
            &&& rule == MateRule::HelpSelfmate ==> kings(p, Color::Black) == 1
            &&& kings(p, Color::Black) <= 1
            &&& !illegal_initial(p)
        },
{
}

/// The worlds of an enumeration are as many as the initial worlds of the
/// problem.
pub proof fn lemma_initial_count(base: PositionView, specs: Seq<VariableSpec>, rule: MateRule, ws: Seq<WorldView>)
    requires
        exactly_initial(base, specs, rule, ws),
    ensures
        ws.to_set() == initial_worlds(base, specs, rule),
        initial_worlds(base, specs, rule).finite(),
        ws.len() == initial_worlds(base, specs, rule).len(),
{
    reveal(exactly_initial);
    reveal(from_assignment);
    reveal(from_counts);
    assert(ws.to_set() =~= initial_worlds(base, specs, rule)) by {
        assert forall|w: WorldView| ws.to_set().contains(w) implies initial_worlds(base, specs, rule).contains(w) by {
            let i = choose|i: int| 0 <= i < ws.len() && ws[i] == w;
            assert(initial_world(base, specs, rule, ws[i]));
        }
        assert forall|w: WorldView| initial_worlds(base, specs, rule).contains(w) implies ws.to_set().contains(w) by {
            assert(initial_world(base, specs, rule, w));
            let a = choose|a: Seq<VariablePiece>|
                a.take(0) == Seq::<VariablePiece>::empty() && assignment_ok(specs, a) && stock_ok(base, a)
                    && #[trigger] from_counts(base, a, rule, Seq::empty(), w);
            let c = choose|c: Seq<usize>|
                c.take(0) == Seq::<usize>::empty() && consumption_ok(base, a, c) && (#[trigger] built(base, a, c, rule) matches Some(
                    p,
                ) && world_of(w, p, a));
            assert(built(base, a, c, rule) is Some);
            let i = choose|i: int| 0 <= i < ws.len() && world_of(#[trigger] ws[i], built(base, a, c, rule)->0, a);
            lemma_world_of_unique(ws[i], w, built(base, a, c, rule)->0, a);
            assert(ws.contains(w));
        }
    }
    ws.unique_seq_to_set();
}

proof fn lemma_overfull(base: PositionView, specs: Seq<VariableSpec>, rule: MateRule, i: int)
    requires
        0 <= i < NUM_SOURCE_KIND,
        inventory(base, spec_kind_of(i)) > spec_kind_of(i).spec_max_count(),
    ensures
        !some_world(base, specs, rule),
{
    reveal(some_world);
    assert forall|a: Seq<VariablePiece>, c: Seq<usize>|
        assignment_ok(specs, a) && stock_ok(base, a) && consumption_ok(base, a, c)
            implies !(#[trigger] built(base, a, c, rule) is Some) by {
        assert(assigned(a, i) <= white_room(base, i) + box_room(base, i));
    }
}

/// The worlds found from the empty assignment are initial worlds.
proof fn lemma_enum_sound(base: PositionView, specs: Seq<VariableSpec>, rule: MateRule, out: Seq<ConcreteWorld>)
    requires
        forall|i: int| 0 <= i < out.len() ==> from_assignment(base, specs, rule, Seq::empty(), (#[trigger] out[i])@),
    ensures
        forall|i: int| 0 <= i < out.len() ==> initial_world(base, specs, rule, #[trigger] crate::state::worlds_view(out)[i]),
{
    assert forall|i: int| 0 <= i < out.len() implies initial_world(base, specs, rule, #[trigger] crate::state::worlds_view(out)[i]) by {
        assert(crate::state::worlds_view(out)[i] == out[i]@);
    }
}

/// Every legal assignment has its world among those found.
proof fn lemma_enum_complete(base: PositionView, specs: Seq<VariableSpec>, rule: MateRule, out: Seq<ConcreteWorld>)
    requires
        forall|a: Seq<VariablePiece>, c: Seq<usize>|
            a.take(0) == Seq::<VariablePiece>::empty() && assignment_ok(specs, a) && stock_ok(base, a)
                && consumption_ok(base, a, c) && #[trigger] built(base, a, c, rule) is Some ==> exists|i: int|
                0 <= i < out.len() && world_of((#[trigger] out[i])@, built(base, a, c, rule)->0, a),
    ensures
        forall|a: Seq<VariablePiece>, c: Seq<usize>|
            assignment_ok(specs, a) && stock_ok(base, a) && consumption_ok(base, a, c) && #[trigger] built(base, a, c, rule) is Some
            ==> exists|i: int| 0 <= i < out.len() && world_of(#[trigger] crate::state::worlds_view(out)[i], built(base, a, c, rule)->0, a),
{
    assert forall|a: Seq<VariablePiece>, c: Seq<usize>|
        assignment_ok(specs, a) && stock_ok(base, a) && consumption_ok(base, a, c) && #[trigger] built(base, a, c, rule) is Some
        implies exists|i: int| 0 <= i < out.len() && world_of(#[trigger] crate::state::worlds_view(out)[i], built(base, a, c, rule)->0, a) by {
        assert(a.take(0) =~= Seq::<VariablePiece>::empty());
        let i = choose|i: int| 0 <= i < out.len() && world_of((#[trigger] out[i])@, built(base, a, c, rule)->0, a);
        assert(crate::state::worlds_view(out)[i] == out[i]@);
    }
}

/// A world found shows that some assignment is legal.
proof fn lemma_enum_some(base: PositionView, specs: Seq<VariableSpec>, rule: MateRule, w: WorldView)
    requires
        from_assignment(base, specs, rule, Seq::empty(), w),
    ensures
        some_world(base, specs, rule),
{
    reveal(from_assignment);
    reveal(from_counts);
    reveal(some_world);
    let a = choose|a: Seq<VariablePiece>|
        a.take(0) == Seq::<VariablePiece>::empty() && assignment_ok(specs, a) && stock_ok(base, a)
            && #[trigger] from_counts(base, a, rule, Seq::empty(), w);
    let c = choose|c: Seq<usize>|
        c.take(0) == Seq::<usize>::empty() && consumption_ok(base, a, c) && (#[trigger] built(base, a, c, rule) matches Some(p) && world_of(w, p, a));
    assert(built(base, a, c, rule) is Some);
}

/// What the search from the empty assignment gives: the initial worlds,
/// present exactly when some assignment is legal.
proof fn lemma_enumerated(
    base: PositionView,
    specs: Seq<VariableSpec>,
    rule: MateRule,
    out: Seq<ConcreteWorld>,
)
    requires
        forall|i: int| 0 <= i < out.len() ==> from_assignment(base, specs, rule, Seq::empty(), (#[trigger] out[i])@),
        forall|a: Seq<VariablePiece>, c: Seq<usize>|
            a.take(0) == Seq::<VariablePiece>::empty() && assignment_ok(specs, a) && stock_ok(base, a)
                && consumption_ok(base, a, c) && #[trigger] built(base, a, c, rule) is Some ==> exists|i: int|
                0 <= i < out.len() && world_of((#[trigger] out[i])@, built(base, a, c, rule)->0, a),
        forall|i: int, j: int| 0 <= i < j < out.len() ==> (#[trigger] out[i])@ != (#[trigger] out[j])@,
    ensures
        exactly_initial(base, specs, rule, crate::state::worlds_view(out)),
        out.len() > 0 <==> some_world(base, specs, rule),
{
    let v = crate::state::worlds_view(out);
    assert forall|i: int, j: int| 0 <= i < v.len() && 0 <= j < v.len() && i != j implies v[i] != v[j] by {
        assert(v[i] == out[i]@ && v[j] == out[j]@);
        if i < j {
            assert(out[i]@ != out[j]@);
        } else {
            assert(out[j]@ != out[i]@);
        }
    }
    lemma_enum_sound(base, specs, rule, out);
    lemma_enum_complete(base, specs, rule, out);
    assert(exactly_initial(base, specs, rule, crate::state::worlds_view(out))) by {
        reveal(exactly_initial);
    }
    if out.len() > 0 {
        lemma_enum_some(base, specs, rule, out[0]@);
    }
    if some_world(base, specs, rule) {
        assert(out.len() > 0) by {
            reveal(some_world);
            let (a, c) = choose|a: Seq<VariablePiece>, c: Seq<usize>|
                assignment_ok(specs, a) && stock_ok(base, a) && consumption_ok(base, a, c) && #[trigger] built(base, a, c, rule) is Some;
        }
    }
}

/// The initial worlds of a problem over the position `base`.
pub fn enumerate_worlds(base: &Position, specs: &Vec<VariableSpec>, rule: MateRule) -> (r: Result<Vec<ConcreteWorld>, ProblemError>)
    requires
        base.wf(),
        crate::sfen::hands_bounded(base),
        specs_wf(specs@),
    ensures
        match r {
            Ok(ws) => {
                &&& validation_error(base@, specs@) is None
                &&& some_world(base@, specs@, rule)
                &&& ws@.len() > 0
                &&& crate::state::worlds_wf(crate::state::worlds_view(ws@))
                &&& exactly_initial(base@, specs@, rule, crate::state::worlds_view(ws@))
            },
            Err(e) => match validation_error(base@, specs@) {
                Some(v) => e == v,
                None => e == ProblemError::NoConsistentWorld && !some_world(base@, specs@, rule),
            },
        },
{
    match validate_specs(base, specs) {
        Err(e) => {
            return Err(e);
        },
        Ok(()) => {},
    }
    proof {
        lemma_valid_ids(base@, specs@);
    }
    let mut white: Vec<usize> = Vec::new();
    let mut boxl: Vec<usize> = Vec::new();
    let mut i: usize = 0;
    while i < NUM_SOURCE_KIND
        invariant
            base.wf(),
            crate::sfen::hands_bounded(base),
            validation_error(base@, specs@) is None,
            i <= NUM_SOURCE_KIND,
            white@.len() == i,
            boxl@.len() == i,
            forall|q: int| 0 <= q < i ==> #[trigger] white@[q] == white_room(base@, q),
            forall|q: int| 0 <= q < i ==> #[trigger] boxl@[q] == box_room(base@, q),
            forall|q: int| 0 <= q < i ==> #[trigger] inventory(base@, spec_kind_of(q)) <= spec_kind_of(q).spec_max_count(),
        decreases NUM_SOURCE_KIND - i,
    {
        let kind = crate::piece::kind_of(i);
        let used = inventory_exec(base, kind);
        let max = kind.max_count() as usize;
        if used > max {
            proof {
                lemma_overfull(base@, specs@, rule, i as int);
            }
            return Err(ProblemError::NoConsistentWorld);
        }
        let w = if i < 7 {
            proof {
                crate::sfen::lemma_hands_bounded(base, Color::White, kind);
            }
            base.hands.count(Color::White, kind)
        } else {
            0
        };
        white.push(w);
        boxl.push(max - used);
        i = i + 1;
    }
    let mut out: Vec<ConcreteWorld> = Vec::new();
    let empty: Vec<VariablePiece> = Vec::new();
    proof {
        assert(crate::state::worlds_view(out@) =~= Seq::<WorldView>::empty());
    }
    enumerate_assignments(base, specs, rule, &white, &boxl, empty, &mut out);
    proof {
        assert(empty@ =~= Seq::<VariablePiece>::empty());
        lemma_enumerated(base@, specs@, rule, out@);
    }
    if out.len() == 0 {
        return Err(ProblemError::NoConsistentWorld);
    }
    Ok(out)
}

proof fn lemma_valid_ids(base: PositionView, specs: Seq<VariableSpec>)
    requires
        validation_error(base, specs) is None,
    ensures
        distinct_spec_ids(specs),
        specs.len() <= MAX_VARIABLES,
{
    assert forall|i: int, j: int| 0 <= i < j < specs.len() implies (#[trigger] specs[i]).id != (#[trigger] specs[j]).id by {
        lemma_first_error_none(base, specs, j + 1, specs.len() as int);
        assert(first_error(base, specs, j) is None);
        assert(spec_error(base, specs, j) is None);
    }
}

proof fn lemma_first_error_none(base: PositionView, specs: Seq<VariableSpec>, m: int, n: int)
    requires
        0 <= m <= n,
        first_error(base, specs, n) is None,
    ensures
        first_error(base, specs, m) is None,
    decreases n - m,
{
    if m < n {
        lemma_first_error_none(base, specs, m, n - 1);
    }
}

} // verus!

verus! {

/// A problem of variable pieces: the ordinary pieces as SFEN, the variable
/// pieces, and the rule.
#[derive(Clone, Debug)]
pub struct VariableProblem {
    pub base_sfen: String,
    pub variables: Vec<VariableSpec>,
    pub rule: MateRule,
}

/// The state `s` is the one over the initial worlds of the problem.
pub open spec fn initial_state(
    base: PositionView,
    specs: Seq<VariableSpec>,
    rule: MateRule,
    mode: crate::rule::HandVariableMode,
    s: crate::state::HiddenState,
) -> bool {
    &&& s.wf()
    &&& s.rule == rule
    &&& s.hand_variable_mode == mode
    &&& s.worlds@.len() == initial_worlds(base, specs, rule).len()
    &&& crate::state::consistent(s.ws(), s.resolved@)
    &&& s.ws()[0].pos.turn == base.turn
    &&& exists|ws: Seq<WorldView>|
        #![trigger exactly_initial(base, specs, rule, ws)]
        {
            &&& ws.len() > 0
            &&& exactly_initial(base, specs, rule, ws)
            &&& s.ws() == crate::state::settle_all(ws)
            &&& forall|id: VariableId| #[trigger] crate::state::lookup(s.resolved@, id) == crate::state::resolved_after(ws, Seq::empty(), id)
            &&& s.free_white_move == (ws[0].pos.turn == Color::White)
        }
}

/// What enumerating a problem gives: the SFEN error, the first problem with
/// the variable pieces, no legal assignment, or the state over the initial
/// worlds.
pub open spec fn enumerated(
    sfen: Seq<char>,
    specs: Seq<VariableSpec>,
    rule: MateRule,
    mode: crate::rule::HandVariableMode,
    r: Result<crate::state::HiddenState, ProblemError>,
) -> bool {
    match crate::sfen::sfen_position(vstd::utf8::encode_utf8(sfen)) {
        Err(_) => r matches Err(ProblemError::Sfen(t)) && t@ == sfen,
        Ok(base) => match r {
            Ok(s) => {
                &&& validation_error(base, specs) is None
                &&& some_world(base, specs, rule)
                &&& initial_state(base, specs, rule, mode, s)
            },
            Err(e) => match validation_error(base, specs) {
                Some(v) => e == v,
                None => e == ProblemError::NoConsistentWorld && !some_world(base, specs, rule),
            },
        },
    }
}

/// The state over all initial worlds of a problem given by its parts.
pub fn enumerate_state(
    base_sfen: &String,
    specs: &Vec<VariableSpec>,
    rule: MateRule,
    hand_variable_mode: crate::rule::HandVariableMode,
) -> (r: Result<crate::state::HiddenState, ProblemError>)
    requires
        specs_wf(specs@),
    ensures
        enumerated(base_sfen@, specs@, rule, hand_variable_mode, r),
{
    let base = match Position::from_sfen(base_sfen.as_str()) {
        Ok(p) => p,
        Err(_) => {
            return Err(ProblemError::Sfen(base_sfen.clone()));
        },
    };
    match enumerate_worlds(&base, specs, rule) {
        Err(e) => Err(e),
        Ok(worlds) => {
            let ghost ws = crate::state::worlds_view(worlds@);
            let s = crate::state::HiddenState::new_with_hand_variable_mode(worlds, rule, hand_variable_mode);
            proof {
                assert(ws[0] == worlds@[0]@);
                lemma_initial_count(base@, specs@, rule, ws);
                assert(s.ws().len() == s.worlds@.len());
                lemma_initial_turns(base@, specs@, rule, ws);
                assert forall|id: VariableId| #[trigger] crate::state::lookup(s.resolved@, id) is Some implies !crate::state::appears(
                    s.ws(),
                    id,
                ) by {
                    crate::state::lemma_settle_all_ids(ws, id);
                }
                crate::state::lemma_settle_all_pos(ws);
                assert(crate::state::all_to_move(s.ws(), base@.turn));
                assert(initial_state(base@, specs@, rule, hand_variable_mode, s));
            }
            Ok(s)
        },
    }
}

impl VariableProblem {
    /// The state over all initial worlds of the problem.
    pub fn enumerate_explicit_with_hand_variable_mode(
        self,
        hand_variable_mode: crate::rule::HandVariableMode,
    ) -> (r: Result<crate::state::HiddenState, ProblemError>)
        requires
            specs_wf(self.variables@),
        ensures
            enumerated(self.base_sfen@, self.variables@, self.rule, hand_variable_mode, r),
    {
        enumerate_state(&self.base_sfen, &self.variables, self.rule, hand_variable_mode)
    }

    /// The state over all initial worlds, variable pieces in one hand told
    /// apart only by later moves.
    pub fn enumerate_explicit(self) -> (r: Result<crate::state::HiddenState, ProblemError>)
        requires
            specs_wf(self.variables@),
        ensures
            enumerated(self.base_sfen@, self.variables@, self.rule, crate::rule::HandVariableMode::Indistinguishable, r),
    {
        self.enumerate_explicit_with_hand_variable_mode(crate::rule::HandVariableMode::default())
    }

    /// The state over all initial worlds of the problem.
    pub fn enumerate_with_hand_variable_mode(
        self,
        hand_variable_mode: crate::rule::HandVariableMode,
    ) -> (r: Result<crate::state::HiddenState, ProblemError>)
        requires
            specs_wf(self.variables@),
        ensures
            enumerated(self.base_sfen@, self.variables@, self.rule, hand_variable_mode, r),
    {
        self.enumerate_explicit_with_hand_variable_mode(hand_variable_mode)
    }

    /// The state over all initial worlds, variable pieces in one hand told
    /// apart only by later moves.
    pub fn enumerate(self) -> (r: Result<crate::state::HiddenState, ProblemError>)
        requires
            specs_wf(self.variables@),
        ensures
            enumerated(self.base_sfen@, self.variables@, self.rule, crate::rule::HandVariableMode::Indistinguishable, r),
    {
        self.enumerate_with_hand_variable_mode(crate::rule::HandVariableMode::default())
    }

    /// The state over all initial worlds with the number of worlds.
    pub fn enumerate_profiled_with_hand_variable_mode(
        self,
        hand_variable_mode: crate::rule::HandVariableMode,
    ) -> (r: Result<(crate::state::HiddenState, crate::metrics::EnumerationMetrics), ProblemError>)
        requires
            specs_wf(self.variables@),
        ensures
            match r {
                Ok((s, m)) => enumerated(self.base_sfen@, self.variables@, self.rule, hand_variable_mode, Ok(s))
                    && m.world_count == s.worlds@.len(),
                Err(e) => enumerated(self.base_sfen@, self.variables@, self.rule, hand_variable_mode, Err(e)),
            },
    {
        match self.enumerate_explicit_with_hand_variable_mode(hand_variable_mode) {
            Ok(s) => {
                let m = crate::metrics::EnumerationMetrics { world_count: s.world_count() };
                Ok((s, m))
            },
            Err(e) => Err(e),
        }
    }

    /// The state over all initial worlds with the number of worlds.
    pub fn enumerate_profiled(self) -> (r: Result<(crate::state::HiddenState, crate::metrics::EnumerationMetrics), ProblemError>)
        requires
            specs_wf(self.variables@),
        ensures
            match r {
                Ok((s, m)) => enumerated(self.base_sfen@, self.variables@, self.rule, crate::rule::HandVariableMode::Indistinguishable, Ok(s))
                    && m.world_count == s.worlds@.len(),
                Err(e) => enumerated(self.base_sfen@, self.variables@, self.rule, crate::rule::HandVariableMode::Indistinguishable, Err(e)),
            },
    {
        self.enumerate_profiled_with_hand_variable_mode(crate::rule::HandVariableMode::default())
    }
}

} // verus!

verus! {

impl VariableSpec {
    /// A copy of this spec.
    pub fn copy(&self) -> (r: VariableSpec)
        ensures
            r.id == self.id,
            r.color == self.color,
            r.location == self.location,
            r.candidates@ == self.candidates@,
    {
        let candidates = self.candidates.clone();
        proof {
            assert(candidates@ =~= self.candidates@);
        }
        VariableSpec { id: self.id, color: self.color, location: self.location, candidates }
    }
}

/// Two lists of specs with the same ids, sides, places and candidates.
pub open spec fn same_specs(a: Seq<VariableSpec>, b: Seq<VariableSpec>) -> bool {
    &&& a.len() == b.len()
    &&& forall|i: int|
        0 <= i < a.len() ==> (#[trigger] a[i]).id == b[i].id && a[i].color == b[i].color && a[i].location
            == b[i].location && a[i].candidates@ == b[i].candidates@
}

impl VariableProblem {
    /// A copy of this problem.
    pub fn copy(&self) -> (r: VariableProblem)
        ensures
            r.base_sfen@ == self.base_sfen@,
            r.rule == self.rule,
            same_specs(r.variables@, self.variables@),
    {
        let mut variables: Vec<VariableSpec> = Vec::new();
        let mut i: usize = 0;
        while i < self.variables.len()
            invariant
                i <= self.variables@.len(),
                variables@.len() == i,
                forall|j: int|
                    0 <= j < i ==> (#[trigger] variables@[j]).id == self.variables@[j].id && variables@[j].color
                        == self.variables@[j].color && variables@[j].location == self.variables@[j].location
                        && variables@[j].candidates@ == self.variables@[j].candidates@,
            decreases self.variables@.len() - i,
        {
            variables.push(self.variables[i].copy());
            i = i + 1;
        }
        VariableProblem { base_sfen: self.base_sfen.clone(), variables, rule: self.rule }
    }
}

} // verus!
