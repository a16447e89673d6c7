use vstd::prelude::*;

use crate::piece::{spec_kind_of, Color, Kind};
use crate::square::Square;

verus! {

/// The content of one square. A stone is a blocked square that no piece may
/// enter or cross.
#[derive(Clone, Copy, Debug, PartialEq, Eq, Structural)]
pub enum Cell {
    Empty,
    Stone,
    Piece(Color, Kind),
}

/// Pieces in hand: for each color the count of each of the seven hand kinds.
#[derive(Debug)]
pub struct Hands {
    pub counts: Vec<u32>,
}

/// Slot of a (color, hand kind) pair in `Hands::counts`.
pub open spec fn hand_slot(color: Color, kind: Kind) -> int {
    (color.spec_index() * 7 + kind.spec_index()) as int
}

impl Hands {
    pub open spec fn wf(&self) -> bool {
        self.counts@.len() == 14
    }

    /// Number of pieces of `kind` that `color` holds; zero for kinds that
    /// cannot be held.
    pub open spec fn spec_count(&self, color: Color, kind: Kind) -> nat {
        if kind.spec_is_hand_piece() {
            self.counts@[hand_slot(color, kind)] as nat
        } else {
            0
        }
    }

    /// Empty hands.
    pub fn new() -> (h: Hands)
        ensures
            h.wf(),
            forall|c: Color, k: Kind| h.spec_count(c, k) == 0,
    {
        let mut counts: Vec<u32> = Vec::new();
        let mut i: usize = 0;
        while i < 14
            invariant
                i <= 14,
                counts@.len() == i,
                forall|j: int| 0 <= j < i ==> counts@[j] == 0,
            decreases 14 - i,
        {
            counts.push(0);
            i = i + 1;
        }
        Hands { counts }
    }

    pub fn copy(&self) -> (h: Hands)
        ensures
            h.counts@ == self.counts@,
    {
        let counts = self.counts.clone();
        proof {
            assert(counts@ =~= self.counts@);
        }
        Hands { counts }
    }

    pub fn count(&self, color: Color, kind: Kind) -> (r: usize)
        requires
            self.wf(),
        ensures
            r == self.spec_count(color, kind),
    {
        if kind.is_hand_piece() {
            self.counts[color.index() * 7 + kind.index()] as usize
        } else {
            0
        }
    }

    /// Whether `color` holds no piece.
    pub fn is_empty(&self, color: Color) -> (r: bool)
        requires
            self.wf(),
        ensures
            r == (forall|k: Kind| self.spec_count(color, k) == 0),
    {
        let base = color.index() * 7;
        let mut i: usize = 0;
        while i < 7
            invariant
                self.wf(),
                base == color.spec_index() * 7,
                i <= 7,
                forall|j: int| base <= j < base + i ==> self.counts@[j] == 0,
            decreases 7 - i,
        {
            if self.counts[base + i] != 0 {
                proof {
                    let k = spec_kind_of(i as int);
                    assert(self.spec_count(color, k) != 0);
                }
                return false;
            }
            i = i + 1;
        }
        proof {
            assert forall|k: Kind| self.spec_count(color, k) == 0 by {
                if k.spec_is_hand_piece() {
                    assert(self.counts@[base + k.spec_index()] == 0);
                }
            }
        }
        true
    }

    /// Adds `n` pieces of a hand kind to `color`'s hand.
    pub fn add_n(&mut self, color: Color, kind: Kind, n: usize)
        requires
            old(self).wf(),
            kind.spec_is_hand_piece(),
            old(self).spec_count(color, kind) + n <= u32::MAX,
        ensures
            final(self).wf(),
            final(self).spec_count(color, kind) == old(self).spec_count(color, kind) + n,
            forall|c: Color, k: Kind|
                (c, k) != (color, kind) ==> final(self).spec_count(c, k) == old(self).spec_count(
                    c,
                    k,
                ),
    {
        let slot = color.index() * 7 + kind.index();
        let v = self.counts[slot];
        self.counts.set(slot, v + n as u32);
        proof {
            assert forall|c: Color, k: Kind| (c, k) != (color, kind) implies self.spec_count(c, k)
                == old(self).spec_count(c, k) by {
                if k.spec_is_hand_piece() {
                    assert(hand_slot(c, k) != slot);
                }
            }
        }
    }

    /// Adds one piece of a hand kind to `color`'s hand.
    pub fn add(&mut self, color: Color, kind: Kind)
        requires
            old(self).wf(),
            kind.spec_is_hand_piece(),
            old(self).spec_count(color, kind) + 1 <= u32::MAX,
        ensures
            final(self).wf(),
            final(self).spec_count(color, kind) == old(self).spec_count(color, kind) + 1,
            forall|c: Color, k: Kind|
                (c, k) != (color, kind) ==> final(self).spec_count(c, k) == old(self).spec_count(
                    c,
                    k,
                ),
    {
        self.add_n(color, kind, 1);
    }

    /// Removes `n` pieces of a hand kind from `color`'s hand.
    pub fn remove_n(&mut self, color: Color, kind: Kind, n: usize)
        requires
            old(self).wf(),
            kind.spec_is_hand_piece(),
            n <= old(self).spec_count(color, kind),
        ensures
            final(self).wf(),
            final(self).spec_count(color, kind) == old(self).spec_count(color, kind) - n,
            forall|c: Color, k: Kind|
                (c, k) != (color, kind) ==> final(self).spec_count(c, k) == old(self).spec_count(
                    c,
                    k,
                ),
    {
        let slot = color.index() * 7 + kind.index();
        let v = self.counts[slot];
        self.counts.set(slot, v - n as u32);
        proof {
            assert forall|c: Color, k: Kind| (c, k) != (color, kind) implies self.spec_count(c, k)
                == old(self).spec_count(c, k) by {
                if k.spec_is_hand_piece() {
                    assert(hand_slot(c, k) != slot);
                }
            }
        }
    }

    /// Removes one piece of a hand kind from `color`'s hand.
    pub fn remove(&mut self, color: Color, kind: Kind)
        requires
            old(self).wf(),
            kind.spec_is_hand_piece(),
            1 <= old(self).spec_count(color, kind),
        ensures
            final(self).wf(),
            final(self).spec_count(color, kind) == old(self).spec_count(color, kind) - 1,
            forall|c: Color, k: Kind|
                (c, k) != (color, kind) ==> final(self).spec_count(c, k) == old(self).spec_count(
                    c,
                    k,
                ),
    {
        self.remove_n(color, kind, 1);
    }
}

/// A shogi position: the board, both hands, the side to move, and whether
/// the last move was a pawn drop (a pawn-drop mate is illegal).
#[derive(Debug)]
pub struct Position {
    pub board: Vec<Cell>,
    pub hands: Hands,
    pub turn: Color,
    pub pawn_drop: bool,
}

/// The mathematical content of a position.
pub struct PositionView {
    pub board: Seq<Cell>,
    pub hands: Seq<u32>,
    pub turn: Color,
    pub pawn_drop: bool,
}

impl PositionView {
    pub open spec fn wf(self) -> bool {
        &&& self.board.len() == 81
        &&& self.hands.len() == 14
    }

    pub open spec fn cell(self, i: int) -> Cell {
        self.board[i]
    }

    /// Number of pieces of `kind` held by `color`; zero for kinds that cannot
    /// be held.
    pub open spec fn hand(self, color: Color, kind: Kind) -> nat {
        if kind.spec_is_hand_piece() {
            self.hands[hand_slot(color, kind)] as nat
        } else {
            0
        }
    }
}

impl View for Position {
    type V = PositionView;

    open spec fn view(&self) -> PositionView {
        PositionView {
            board: self.board@,
            hands: self.hands.counts@,
            turn: self.turn,
            pawn_drop: self.pawn_drop,
        }
    }
}

impl Position {
    pub open spec fn wf(&self) -> bool {
        &&& self.board@.len() == 81
        &&& self.hands.wf()
    }

    /// The content of square index `i`.
    pub open spec fn cell(&self, i: int) -> Cell {
        self.board@[i]
    }

    /// The piece on square index `i`, if any.
    pub open spec fn piece(&self, i: int) -> Option<(Color, Kind)> {
        match self.board@[i] {
            Cell::Piece(c, k) => Some((c, k)),
            _ => None,
        }
    }

    pub open spec fn hand(&self, color: Color, kind: Kind) -> nat {
        self.hands.spec_count(color, kind)
    }

    /// Two positions are the same shogi position.
    pub open spec fn same(&self, other: &Position) -> bool {
        &&& self.board@ == other.board@
        &&& self.hands.counts@ == other.hands.counts@
        &&& self.turn == other.turn
        &&& self.pawn_drop == other.pawn_drop
    }

    /// An empty board, empty hands, black to move.
    pub fn default() -> (p: Position)
        ensures
            p.wf(),
            forall|i: int| 0 <= i < 81 ==> p.cell(i) == Cell::Empty,
            forall|c: Color, k: Kind| p.hand(c, k) == 0,
            p.turn == Color::Black,
            !p.pawn_drop,
    {
        let mut board: Vec<Cell> = Vec::new();
        let mut i: usize = 0;
        while i < 81
            invariant
                i <= 81,
                board@.len() == i,
                forall|j: int| 0 <= j < i ==> board@[j] == Cell::Empty,
            decreases 81 - i,
        {
            board.push(Cell::Empty);
            i = i + 1;
        }
        Position { board, hands: Hands::new(), turn: Color::Black, pawn_drop: false }
    }

    /// A copy of this position.
    pub fn copy(&self) -> (p: Position)
        ensures
            p.same(self),
            p.wf() == self.wf(),
    {
        let board = self.board.clone();
        proof {
            assert(board@ =~= self.board@);
        }
        Position { board, hands: self.hands.copy(), turn: self.turn, pawn_drop: self.pawn_drop }
    }

    pub fn turn(&self) -> (c: Color)
        ensures
            c == self.turn,
    {
        self.turn
    }

    pub fn set_turn(&mut self, color: Color)
        ensures
            final(self).turn == color,
            final(self).board@ == old(self).board@,
            final(self).hands.counts@ == old(self).hands.counts@,
            final(self).pawn_drop == old(self).pawn_drop,
    {
        self.turn = color;
    }

    pub fn pawn_drop(&self) -> (b: bool)
        ensures
            b == self.pawn_drop,
    {
        self.pawn_drop
    }

    pub fn set_pawn_drop(&mut self, pawn_drop: bool)
        ensures
            final(self).pawn_drop == pawn_drop,
            final(self).board@ == old(self).board@,
            final(self).hands.counts@ == old(self).hands.counts@,
            final(self).turn == old(self).turn,
    {
        self.pawn_drop = pawn_drop;
    }

    pub fn hands(&self) -> (h: &Hands)
        ensures
            h == &self.hands,
    {
        &self.hands
    }

    /// The content of a square.
    pub fn cell_at(&self, sq: Square) -> (c: Cell)
        requires
            self.wf(),
            sq.wf(),
        ensures
            c == self.cell(sq.spec_index()),
    {
        self.board[sq.index()]
    }

    /// The piece on a square, if any.
    pub fn get(&self, sq: Square) -> (r: Option<(Color, Kind)>)
        requires
            self.wf(),
            sq.wf(),
        ensures
            r == self.piece(sq.spec_index()),
    {
        match self.board[sq.index()] {
            Cell::Piece(c, k) => Some((c, k)),
            _ => None,
        }
    }

    /// Puts a piece on a square, replacing its content.
    pub fn set(&mut self, sq: Square, color: Color, kind: Kind)
        requires
            old(self).wf(),
            sq.wf(),
        ensures
            final(self).wf(),
            final(self).board@ == old(self).board@.update(sq.spec_index(), Cell::Piece(color, kind)),
            final(self).hands.counts@ == old(self).hands.counts@,
            final(self).turn == old(self).turn,
            final(self).pawn_drop == old(self).pawn_drop,
    {
        self.board.set(sq.index(), Cell::Piece(color, kind));
    }

    /// Sets the content of a square.
    pub fn set_cell(&mut self, sq: Square, cell: Cell)
        requires
            old(self).wf(),
            sq.wf(),
        ensures
            final(self).wf(),
            final(self).board@ == old(self).board@.update(sq.spec_index(), cell),
            final(self).hands.counts@ == old(self).hands.counts@,
            final(self).turn == old(self).turn,
            final(self).pawn_drop == old(self).pawn_drop,
    {
        self.board.set(sq.index(), cell);
    }

    /// Adds `n` pieces to a hand.
    pub fn add_to_hand(&mut self, color: Color, kind: Kind, n: usize)
        requires
            old(self).wf(),
            kind.spec_is_hand_piece(),
            old(self).hand(color, kind) + n <= u32::MAX,
        ensures
            final(self).wf(),
            final(self).hand(color, kind) == old(self).hand(color, kind) + n,
            forall|c: Color, k: Kind|
                (c, k) != (color, kind) ==> final(self).hand(c, k) == old(self).hand(c, k),
            final(self).board@ == old(self).board@,
            final(self).turn == old(self).turn,
            final(self).pawn_drop == old(self).pawn_drop,
    {
        self.hands.add_n(color, kind, n);
    }
}

/// A move: a board move, optionally promoting, or a drop from hand.
#[derive(Clone, Copy, Debug, PartialEq, Eq, Structural, PartialOrd, Ord, Hash)]
pub enum Movement {
    Move { source: Square, dest: Square, promote: bool },
    Drop(Square, Kind),
}

impl Movement {
    pub open spec fn spec_is_pawn_drop(self) -> bool {
        self matches Movement::Drop(_, Kind::Pawn)
    }

    #[verifier::when_used_as_spec(spec_is_pawn_drop)]
    pub fn is_pawn_drop(self) -> (r: bool)
        ensures
            r == self.spec_is_pawn_drop(),
    {
        match self {
            Movement::Drop(_, Kind::Pawn) => true,
            _ => false,
        }
    }

    /// The destination square.
    pub open spec fn spec_dest(self) -> Square {
        match self {
            Movement::Move { dest, .. } => dest,
            Movement::Drop(dest, _) => dest,
        }
    }

    #[verifier::when_used_as_spec(spec_dest)]
    pub fn dest(self) -> (r: Square)
        ensures
            r == self.spec_dest(),
    {
        match self {
            Movement::Move { dest, .. } => dest,
            Movement::Drop(dest, _) => dest,
        }
    }
}

} // verus!
