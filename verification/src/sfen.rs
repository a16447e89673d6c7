use vstd::prelude::*;

use vstd::string::StringSliceAdditionalSpecFns;

use crate::piece::{Color, Kind};
use crate::position::{hand_slot, Cell, Movement, Position, PositionView};
use crate::square::Square;
use crate::text::{decimal, digit, digit_text};
use crate::piece::spec_kind_of;
use vstd::string::StrSliceExecFns;
use vstd::string::StringExecFns;

verus! {

/// Why an SFEN text was refused.
#[derive(Clone, Copy, Debug, PartialEq, Eq, Structural)]
pub enum SfenError {
    /// The board part is not nine rows of nine squares.
    Board,
    /// The side to move is not `b` or `w`.
    Turn,
    /// The hand part is not `-` or counts of hand pieces.
    Hand,
}

/// The piece kind written with an uppercase letter, the letter K included.
pub open spec fn kind_of_letter(u: u8) -> Option<Kind> {
    if u == 80 {
        Some(Kind::Pawn)
    } else if u == 76 {
        Some(Kind::Lance)
    } else if u == 78 {
        Some(Kind::Knight)
    } else if u == 83 {
        Some(Kind::Silver)
    } else if u == 71 {
        Some(Kind::Gold)
    } else if u == 66 {
        Some(Kind::Bishop)
    } else if u == 82 {
        Some(Kind::Rook)
    } else if u == 75 {
        Some(Kind::King)
    } else {
        None
    }
}

/// The color and kind of an SFEN piece letter: uppercase for black,
/// lowercase for white.
pub open spec fn piece_of_letter(b: u8) -> Option<(Color, Kind)> {
    if 65 <= b <= 90 {
        match kind_of_letter(b) {
            Some(k) => Some((Color::Black, k)),
            None => None,
        }
    } else if 97 <= b <= 122 {
        match kind_of_letter((b - 32) as u8) {
            Some(k) => Some((Color::White, k)),
            None => None,
        }
    } else {
        None
    }
}

fn piece_of_letter_exec(b: u8) -> (r: Option<(Color, Kind)>)
    ensures
        r == piece_of_letter(b),
{
    let (color, u) = if 65 <= b && b <= 90 {
        (Color::Black, b)
    } else if 97 <= b && b <= 122 {
        (Color::White, b - 32)
    } else {
        return None;
    };
    let k = if u == 80 {
        Kind::Pawn
    } else if u == 76 {
        Kind::Lance
    } else if u == 78 {
        Kind::Knight
    } else if u == 83 {
        Kind::Silver
    } else if u == 71 {
        Kind::Gold
    } else if u == 66 {
        Kind::Bishop
    } else if u == 82 {
        Kind::Rook
    } else if u == 75 {
        Kind::King
    } else {
        return None;
    };
    Some((color, k))
}

/// No hand holds more than a hundred thousand pieces of a kind.
pub open spec fn hands_bounded(p: &Position) -> bool {
    forall|s: int| 0 <= s < p.hands.counts@.len() ==> #[trigger] p.hands.counts@[s] <= 100000
}

/// Bounded hands hold at most a hundred thousand pieces of each kind.
pub proof fn lemma_hands_bounded(p: &Position, c: Color, k: Kind)
    requires
        p.wf(),
        hands_bounded(p),
    ensures
        p.hand(c, k) <= 100000,
{
    if k.spec_is_hand_piece() {
        assert(p.hands.counts@[hand_slot(c, k)] <= 100000);
    }
}

/// The empty board, with empty hands and black to move.
pub open spec fn empty_position() -> PositionView {
    PositionView {
        board: Seq::new(81, |i: int| Cell::Empty),
        hands: Seq::new(14, |i: int| 0u32),
        turn: Color::Black,
        pawn_drop: false,
    }
}

/// The position with square index `i` set to `cell`.
pub open spec fn with_cell(p: PositionView, i: int, cell: Cell) -> PositionView {
    PositionView { board: p.board.update(i, cell), hands: p.hands, turn: p.turn, pawn_drop: p.pawn_drop }
}

/// The position with `m` more pieces of `kind` in `color`'s hand.
pub open spec fn with_hand(p: PositionView, color: Color, kind: Kind, m: int) -> PositionView {
    let s = hand_slot(color, kind);
    PositionView { board: p.board, hands: p.hands.update(s, (p.hands[s] + m) as u32), turn: p.turn, pawn_drop: p.pawn_drop }
}

/// The state of reading the board: the position so far, the row, the
/// squares of the row already read, and a pending promotion mark.
pub type BoardState = (PositionView, int, int, bool);

/// Reading one character of the board part; `None` when it cannot stand
/// there.
pub open spec fn board_step(st: BoardState, ch: u8) -> Option<BoardState> {
    let (p, row, j, promoted) = st;
    if ch == 47 {
        if j != 9 || promoted || row + 1 >= 9 {
            None
        } else {
            Some((p, row + 1, 0, false))
        }
    } else if 49 <= ch <= 57 {
        if promoted || j + (ch - 48) > 9 {
            None
        } else {
            Some((p, row, j + (ch - 48), false))
        }
    } else if ch == 43 {
        if promoted {
            None
        } else {
            Some((p, row, j, true))
        }
    } else if ch == 79 {
        if promoted || j >= 9 {
            None
        } else {
            Some((with_cell(p, (8 - j) * 9 + row, Cell::Stone), row, j + 1, false))
        }
    } else {
        match piece_of_letter(ch) {
            Some((color, kind)) => if j >= 9 {
                None
            } else {
                let k = if promoted {
                    kind.spec_promote()
                } else {
                    Some(kind)
                };
                match k {
                    Some(kk) => Some((with_cell(p, (8 - j) * 9 + row, Cell::Piece(color, kk)), row, j + 1, false)),
                    None => None,
                }
            },
            None => None,
        }
    }
}

/// Reads the board part from byte `i` on, up to a space or the end: the
/// final state and where reading stopped.
pub open spec fn board_scan(b: Seq<u8>, i: int, st: BoardState) -> Option<(BoardState, int)>
    decreases b.len() - i,
{
    if i < 0 || i >= b.len() || b[i] == 32 {
        Some((st, i))
    } else {
        match board_step(st, b[i]) {
            Some(next) => board_scan(b, i + 1, next),
            None => None,
        }
    }
}

/// Reading one character of the hand part, with the count read so far.
pub open spec fn hand_step(st: (PositionView, int), ch: u8) -> Option<(PositionView, int)> {
    let (p, count) = st;
    if 48 <= ch <= 57 {
        let c2 = count * 10 + (ch - 48);
        if c2 > 1000 {
            None
        } else {
            Some((p, c2))
        }
    } else {
        match piece_of_letter(ch) {
            Some((color, kind)) => if !kind.spec_is_hand_piece() {
                None
            } else {
                let m = if count == 0 {
                    1
                } else {
                    count
                };
                if p.hand(color, kind) > 100000 - m {
                    None
                } else {
                    Some((with_hand(p, color, kind, m), 0))
                }
            },
            None => None,
        }
    }
}

/// Reads the hand part from byte `i` on, up to a space or the end.
pub open spec fn hand_scan(b: Seq<u8>, i: int, st: (PositionView, int)) -> Option<((PositionView, int), int)>
    decreases b.len() - i,
{
    if i < 0 || i >= b.len() || b[i] == 32 {
        Some((st, i))
    } else {
        match hand_step(st, b[i]) {
            Some(next) => hand_scan(b, i + 1, next),
            None => None,
        }
    }
}

/// The position an SFEN text describes: nine ranks from rank 1, each from
/// file 9 to file 1, digits for runs of empty squares, `+` before a promoted
/// piece and `O` for a stone; a space, `b` or `w`, a space; then `-` or the
/// hands as counts of piece letters; anything after a further space (the
/// move number) is ignored.
pub open spec fn sfen_position(b: Seq<u8>) -> Result<PositionView, SfenError> {
    match board_scan(b, 0, (empty_position(), 0, 0, false)) {
        None => Err(SfenError::Board),
        Some((st, i)) => {
            let (p, row, j, promoted) = st;
            if row != 8 || j != 9 || promoted {
                Err(SfenError::Board)
            } else if b.len() - i <= 2 || b[i] != 32 {
                Err(SfenError::Turn)
            } else if b[i + 1] != 98 && b[i + 1] != 119 {
                Err(SfenError::Turn)
            } else if b[i + 2] != 32 {
                Err(SfenError::Turn)
            } else {
                let p2 = PositionView {
                    board: p.board,
                    hands: p.hands,
                    turn: if b[i + 1] == 98 {
                        Color::Black
                    } else {
                        Color::White
                    },
                    pawn_drop: p.pawn_drop,
                };
                let k = i + 3;
                if k >= b.len() {
                    Err(SfenError::Hand)
                } else if b[k] == 45 {
                    if k + 1 < b.len() && b[k + 1] != 32 {
                        Err(SfenError::Hand)
                    } else {
                        Ok(p2)
                    }
                } else {
                    match hand_scan(b, k, (p2, 0)) {
                        None => Err(SfenError::Hand),
                        Some((hs, e)) => if hs.1 != 0 {
                            Err(SfenError::Hand)
                        } else {
                            Ok(hs.0)
                        },
                    }
                }
            }
        },
    }
}

/// Reads a position in SFEN.
pub fn parse_sfen_bytes(b: &[u8]) -> (r: Result<Position, SfenError>)
    ensures
        r matches Ok(p) ==> p.wf() && hands_bounded(&p),
        match r {
            Ok(p) => sfen_position(b@) == Ok::<PositionView, SfenError>(p@),
            Err(e) => sfen_position(b@) == Err::<PositionView, SfenError>(e),
        },
{
    let n = b.len();
    let mut p = Position::default();
    proof {
        assert forall|s: int| 0 <= s < p.hands.counts@.len() implies #[trigger] p.hands.counts@[s] <= 100000 by {
            let c = if s < 7 { Color::Black } else { Color::White };
            let k = crate::piece::spec_kind_of(s % 7);
            assert(hand_slot(c, k) == s);
            assert(p.hand(c, k) == p.hands.counts@[s]);
        }
        assert forall|s: int| 0 <= s < 14 implies p.hands.counts@[s] == 0 by {
            let c = if s < 7 { Color::Black } else { Color::White };
            let k = crate::piece::spec_kind_of(s % 7);
            assert(hand_slot(c, k) == s);
            assert(p.hand(c, k) == p.hands.counts@[s]);
        }
        assert forall|q: int| 0 <= q < 81 implies p@.board[q] == Cell::Empty by {
            assert(p.cell(q) == Cell::Empty);
        }
        assert(p@.board =~= empty_position().board);
        assert(p@.hands =~= empty_position().hands);
        assert(p@ == empty_position());
    }
    let mut i: usize = 0;
    let mut row: usize = 0;
    let mut j: usize = 0;
    let mut promoted = false;
    while i < n && b[i] != 32
        invariant
            p.wf(),
            hands_bounded(&p),
            n == b@.len(),
            i <= n,
            row < 9,
            j <= 9,
            board_scan(b@, 0, (empty_position(), 0, 0, false)) == board_scan(b@, i as int, (p@, row as int, j as int, promoted)),
        decreases n - i,
    {
        let ch = b[i];
        let ghost st = (p@, row as int, j as int, promoted);
        proof {
            assert(board_scan(b@, i as int, st) == match board_step(st, ch) {
                Some(next) => board_scan(b@, i + 1, next),
                None => None,
            });
        }
        if ch == 47 {
            if j != 9 || promoted || row + 1 >= 9 {
                return Err(SfenError::Board);
            }
            row = row + 1;
            j = 0;
        } else if 49 <= ch && ch <= 57 {
            let e = (ch - 48) as usize;
            if promoted || j + e > 9 {
                return Err(SfenError::Board);
            }
            j = j + e;
        } else if ch == 43 {
            if promoted {
                return Err(SfenError::Board);
            }
            promoted = true;
        } else if ch == 79 {
            if promoted || j >= 9 {
                return Err(SfenError::Board);
            }
            p.set_cell(Square::new(8 - j, row), Cell::Stone);
            j = j + 1;
        } else {
            match piece_of_letter_exec(ch) {
                Some((color, kind)) => {
                    if j >= 9 {
                        return Err(SfenError::Board);
                    }
                    let k = if promoted {
                        match kind.promote() {
                            Some(pk) => pk,
                            None => {
                                return Err(SfenError::Board);
                            },
                        }
                    } else {
                        kind
                    };
                    p.set(Square::new(8 - j, row), color, k);
                    j = j + 1;
                    promoted = false;
                },
                None => {
                    return Err(SfenError::Board);
                },
            }
        }
        i = i + 1;
    }
    if row != 8 || j != 9 || promoted {
        return Err(SfenError::Board);
    }
    // side to move
    if n - i <= 2 || b[i] != 32 {
        return Err(SfenError::Turn);
    }
    if b[i + 1] == 98 {
        p.set_turn(Color::Black);
    } else if b[i + 1] == 119 {
        p.set_turn(Color::White);
    } else {
        return Err(SfenError::Turn);
    }
    if b[i + 2] != 32 {
        return Err(SfenError::Turn);
    }
    i = i + 3;
    if i >= n {
        return Err(SfenError::Hand);
    }
    if b[i] == 45 {
        if i + 1 < n && b[i + 1] != 32 {
            return Err(SfenError::Hand);
        }
        return Ok(p);
    }
    let ghost start = i as int;
    let ghost p2 = p@;
    proof {
        assert(sfen_position(b@) == match hand_scan(b@, start, (p2, 0)) {
            None => Err(SfenError::Hand),
            Some((hs, e)) => if hs.1 != 0 {
                Err(SfenError::Hand)
            } else {
                Ok::<PositionView, SfenError>(hs.0)
            },
        });
    }
    let mut count: usize = 0;
    while i < n && b[i] != 32
        invariant
            p.wf(),
            hands_bounded(&p),
            n == b@.len(),
            i <= n,
            count <= 1000,
            hand_scan(b@, start, (p2, 0)) == hand_scan(b@, i as int, (p@, count as int)),
            sfen_position(b@) == match hand_scan(b@, start, (p2, 0)) {
                None => Err(SfenError::Hand),
                Some((hs, e)) => if hs.1 != 0 {
                    Err(SfenError::Hand)
                } else {
                    Ok::<PositionView, SfenError>(hs.0)
                },
            },
        decreases n - i,
    {
        let ch = b[i];
        let ghost st = (p@, count as int);
        proof {
            assert(hand_scan(b@, i as int, st) == match hand_step(st, ch) {
                Some(next) => hand_scan(b@, i + 1, next),
                None => None,
            });
        }
        if 48 <= ch && ch <= 57 {
            count = count * 10 + (ch - 48) as usize;
            if count > 1000 {
                return Err(SfenError::Hand);
            }
        } else {
            match piece_of_letter_exec(ch) {
                Some((color, kind)) => {
                    if !kind.is_hand_piece() {
                        return Err(SfenError::Hand);
                    }
                    let m = if count == 0 {
                        1
                    } else {
                        count
                    };
                    proof {
                        lemma_hands_bounded(&p, color, kind);
                    }
                    if p.hands.count(color, kind) > 100000 - m {
                        return Err(SfenError::Hand);
                    }
                    let ghost before = p.hands.counts@;
                    let ghost before_p = p@;
                    p.add_to_hand(color, kind, m);
                    proof {
                        assert forall|s: int| 0 <= s < p.hands.counts@.len() implies #[trigger] p.hands.counts@[s] == if s == hand_slot(color, kind) {
                            (before[s] + m) as u32
                        } else {
                            before[s]
                        } by {
                            let c = if s < 7 { Color::Black } else { Color::White };
                            let k = crate::piece::spec_kind_of(s % 7);
                            assert(hand_slot(c, k) == s);
                            assert(p.hand(c, k) == p.hands.counts@[s]);
                            if (c, k) != (color, kind) {
                                assert(p.hand(c, k) == before[s]);
                            }
                        }
                        assert(p@.hands =~= with_hand(before_p, color, kind, m as int).hands);
                        assert forall|s: int| 0 <= s < p.hands.counts@.len() implies #[trigger] p.hands.counts@[s] <= 100000 by {
                            if s == hand_slot(color, kind) {
                                assert(before_p.hand(color, kind) == before[s]);
                            }
                        }
                    }
                    count = 0;
                },
                None => {
                    return Err(SfenError::Hand);
                },
            }
        }
        i = i + 1;
    }
    if count != 0 {
        return Err(SfenError::Hand);
    }
    Ok(p)
}

impl Position {
    /// Reads a position written in SFEN.
    pub fn from_sfen(sfen: &str) -> (r: Result<Position, SfenError>)
        ensures
            r matches Ok(p) ==> p.wf() && hands_bounded(&p),
            match r {
                Ok(p) => sfen_position(sfen.spec_bytes()) == Ok::<PositionView, SfenError>(p@),
                Err(e) => sfen_position(sfen.spec_bytes()) == Err::<PositionView, SfenError>(e),
            },
    {
        parse_sfen_bytes(sfen.as_bytes())
    }
}

/// The USI letter of a row: `a` for rank 1 through `i` for rank 9.
pub open spec fn rank_letter(row: int) -> Seq<char> {
    seq![((97 + row) as u8) as char]
}

/// A square in USI: its file digit and rank letter.
pub open spec fn usi_square(sq: Square) -> Seq<char> {
    digit((sq.spec_col() + 1) as nat) + rank_letter(sq.spec_row())
}

/// The uppercase SFEN letter of a kind that can be dropped.
pub open spec fn drop_letter(k: Kind) -> Seq<char> {
    match k {
        Kind::Pawn => "P"@,
        Kind::Lance => "L"@,
        Kind::Knight => "N"@,
        Kind::Silver => "S"@,
        Kind::Gold => "G"@,
        Kind::Bishop => "B"@,
        _ => "R"@,
    }
}

/// A move in USI: source and destination squares, `+` when promoting; a
/// drop as the kind letter, `*` and the destination.
pub open spec fn usi_move(m: Movement) -> Seq<char> {
    match m {
        Movement::Move { source, dest, promote } => usi_square(source) + usi_square(dest) + if promote {
            "+"@
        } else {
            ""@
        },
        Movement::Drop(dest, k) => drop_letter(k) + "*"@ + usi_square(dest),
    }
}

fn rank_letter_text(row: usize) -> (r: &'static str)
    requires
        row < 9,
    ensures
        r@ == rank_letter(row as int),
{
    proof {
        reveal_strlit("a");
        reveal_strlit("b");
        reveal_strlit("c");
        reveal_strlit("d");
        reveal_strlit("e");
        reveal_strlit("f");
        reveal_strlit("g");
        reveal_strlit("h");
        reveal_strlit("i");
    }
    if row == 0 {
        "a"
    } else if row == 1 {
        "b"
    } else if row == 2 {
        "c"
    } else if row == 3 {
        "d"
    } else if row == 4 {
        "e"
    } else if row == 5 {
        "f"
    } else if row == 6 {
        "g"
    } else if row == 7 {
        "h"
    } else {
        "i"
    }
}

fn push_usi_square(s: &mut String, sq: Square)
    requires
        sq.wf(),
    ensures
        final(s)@ == old(s)@ + usi_square(sq),
{
    s.append(digit_text((sq.col() + 1) as u64));
    s.append(rank_letter_text(sq.row()));
    proof {
        assert(final(s)@ =~= old(s)@ + usi_square(sq));
    }
}

/// Writes a move in USI notation, such as `7g7f`, `8h2b+` or `P*5e`.
pub fn encode_move(m: Movement) -> (r: String)
    requires
        match m {
            Movement::Move { source, dest, .. } => source.wf() && dest.wf(),
            Movement::Drop(dest, _) => dest.wf(),
        },
    ensures
        r@ == usi_move(m),
{
    let mut s = String::new();
    proof {
        reveal_strlit("+");
        reveal_strlit("");
        reveal_strlit("*");
        reveal_strlit("P");
        reveal_strlit("L");
        reveal_strlit("N");
        reveal_strlit("S");
        reveal_strlit("G");
        reveal_strlit("B");
        reveal_strlit("R");
    }
    match m {
        Movement::Move { source, dest, promote } => {
            push_usi_square(&mut s, source);
            push_usi_square(&mut s, dest);
            if promote {
                s.append("+");
            }
        },
        Movement::Drop(dest, k) => {
            let letter = match k {
                Kind::Pawn => "P",
                Kind::Lance => "L",
                Kind::Knight => "N",
                Kind::Silver => "S",
                Kind::Gold => "G",
                Kind::Bishop => "B",
                _ => "R",
            };
            s.append(letter);
            s.append("*");
            push_usi_square(&mut s, dest);
        },
    }
    proof {
        assert(s@ =~= usi_move(m));
    }
    s
}

/// The ASCII code of the uppercase letter of an unpromoted kind.
pub open spec fn letter_code(k: Kind) -> u8 {
    match k {
        Kind::Pawn => 80,
        Kind::Lance => 76,
        Kind::Knight => 78,
        Kind::Silver => 83,
        Kind::Gold => 71,
        Kind::Bishop => 66,
        Kind::Rook => 82,
        _ => 75,
    }
}

/// The SFEN letter of a kind held by `c`: uppercase for black, lowercase
/// for white.
pub open spec fn kind_letter(c: Color, k: Kind) -> Seq<char> {
    seq![((letter_code(k) + if c == Color::White { 32u8 } else { 0u8 }) as u8) as char]
}

/// How a square's content is written: `O` for a stone, the letter of a
/// piece (after `+` when promoted), nothing for an empty square.
pub open spec fn cell_letters(cell: Cell) -> Seq<char> {
    match cell {
        Cell::Empty => Seq::empty(),
        Cell::Stone => "O"@,
        Cell::Piece(c, k) => (if k.spec_unpromote() is Some {
            "+"@
        } else {
            Seq::empty()
        }) + kind_letter(c, k.spec_maybe_unpromote()),
    }
}

/// A count of empty squares: nothing for none, its digit otherwise.
pub open spec fn run_text(n: nat) -> Seq<char> {
    if n == 0 {
        Seq::empty()
    } else {
        digit(n)
    }
}

/// The row `row` from its `j`-th square (file 9 first) on, with `run` empty
/// squares pending before it.
pub open spec fn row_text_from(p: PositionView, row: int, j: int, run: nat) -> Seq<char>
    decreases 9 - j,
{
    if j >= 9 {
        run_text(run)
    } else {
        let cell = p.cell((8 - j) * 9 + row);
        if cell == Cell::Empty {
            row_text_from(p, row, j + 1, run + 1)
        } else {
            run_text(run) + cell_letters(cell) + row_text_from(p, row, j + 1, 0)
        }
    }
}

/// The first `rows` rows of the board, from rank 1, separated by `/`.
pub open spec fn board_text(p: PositionView, rows: int) -> Seq<char>
    decreases rows,
{
    if rows <= 0 {
        Seq::empty()
    } else if rows == 1 {
        row_text_from(p, 0, 0, 0)
    } else {
        board_text(p, rows - 1) + "/"@ + row_text_from(p, rows - 1, 0, 0)
    }
}

/// The pieces of `c`'s hand among the first `i` kinds of the order rook,
/// bishop, gold, silver, knight, lance, pawn; each with its count first when
/// more than one.
pub open spec fn hand_text(p: PositionView, c: Color, i: int) -> Seq<char>
    decreases i,
{
    if i <= 0 {
        Seq::empty()
    } else {
        let k = spec_kind_of(7 - i);
        let n = p.hand(c, k);
        hand_text(p, c, i - 1) + if n == 0 {
            Seq::empty()
        } else if n == 1 {
            kind_letter(c, k)
        } else {
            decimal(n) + kind_letter(c, k)
        }
    }
}

/// Both hands, black first, or `-` when both are empty.
pub open spec fn hands_text(p: PositionView) -> Seq<char> {
    let t = hand_text(p, Color::Black, 7) + hand_text(p, Color::White, 7);
    if t.len() == 0 {
        "-"@
    } else {
        t
    }
}

/// A position in SFEN: board, side to move, hands and move number 1.
pub open spec fn position_sfen(p: PositionView) -> Seq<char> {
    board_text(p, 9) + " "@ + (if p.turn == Color::Black {
        "b"@
    } else {
        "w"@
    }) + " "@ + hands_text(p) + " 1"@
}

fn letter_text(c: Color, k: Kind) -> (r: &'static str)
    ensures
        r@ == kind_letter(c, k),
{
    proof {
        reveal_strlit("P");
        reveal_strlit("L");
        reveal_strlit("N");
        reveal_strlit("S");
        reveal_strlit("G");
        reveal_strlit("B");
        reveal_strlit("R");
        reveal_strlit("K");
        reveal_strlit("p");
        reveal_strlit("l");
        reveal_strlit("n");
        reveal_strlit("s");
        reveal_strlit("g");
        reveal_strlit("b");
        reveal_strlit("r");
        reveal_strlit("k");
    }
    match (c, k) {
        (Color::Black, Kind::Pawn) => "P",
        (Color::Black, Kind::Lance) => "L",
        (Color::Black, Kind::Knight) => "N",
        (Color::Black, Kind::Silver) => "S",
        (Color::Black, Kind::Gold) => "G",
        (Color::Black, Kind::Bishop) => "B",
        (Color::Black, Kind::Rook) => "R",
        (Color::Black, _) => "K",
        (Color::White, Kind::Pawn) => "p",
        (Color::White, Kind::Lance) => "l",
        (Color::White, Kind::Knight) => "n",
        (Color::White, Kind::Silver) => "s",
        (Color::White, Kind::Gold) => "g",
        (Color::White, Kind::Bishop) => "b",
        (Color::White, Kind::Rook) => "r",
        (Color::White, _) => "k",
    }
}

fn push_run(s: &mut String, run: usize)
    requires
        run <= 9,
    ensures
        final(s)@ == old(s)@ + run_text(run as nat),
{
    if run > 0 {
        s.append(digit_text(run as u64));
    } else {
        proof {
            assert(old(s)@ + run_text(run as nat) =~= old(s)@);
        }
    }
}

fn push_cell(s: &mut String, cell: Cell)
    ensures
        final(s)@ == old(s)@ + cell_letters(cell),
{
    proof {
        reveal_strlit("O");
        reveal_strlit("+");
    }
    match cell {
        Cell::Empty => {
            proof {
                assert(old(s)@ + cell_letters(cell) =~= old(s)@);
            }
        },
        Cell::Stone => {
            s.append("O");
        },
        Cell::Piece(c, k) => {
            if k.unpromote().is_some() {
                s.append("+");
            }
            s.append(letter_text(c, k.maybe_unpromote()));
            proof {
                assert(final(s)@ =~= old(s)@ + cell_letters(cell));
            }
        },
    }
}

fn push_row(s: &mut String, p: &Position, row: usize)
    requires
        p.wf(),
        row < 9,
    ensures
        final(s)@ == old(s)@ + row_text_from(p@, row as int, 0, 0),
{
    let mut run: usize = 0;
    let mut j: usize = 0;
    while j < 9
        invariant
            p.wf(),
            row < 9,
            j <= 9,
            run <= j,
            s@ + row_text_from(p@, row as int, j as int, run as nat) == old(s)@ + row_text_from(p@, row as int, 0, 0),
        decreases 9 - j,
    {
        let cell = p.board[(8 - j) * 9 + row];
        let ghost before = s@;
        let ghost r0 = run as nat;
        if cell == Cell::Empty {
            run = run + 1;
        } else {
            push_run(s, run);
            push_cell(s, cell);
            run = 0;
            proof {
                assert(row_text_from(p@, row as int, j as int, r0) == run_text(r0) + cell_letters(cell) + row_text_from(
                    p@,
                    row as int,
                    j + 1,
                    0,
                ));
                assert(s@ + row_text_from(p@, row as int, j + 1, 0) =~= before + row_text_from(
                    p@,
                    row as int,
                    j as int,
                    r0,
                ));
            }
        }
        j = j + 1;
    }
    push_run(s, run);
}

fn push_hand(s: &mut String, p: &Position, c: Color)
    requires
        p.wf(),
    ensures
        final(s)@ == old(s)@ + hand_text(p@, c, 7),
{
    let mut i: usize = 0;
    while i < 7
        invariant
            p.wf(),
            i <= 7,
            s@ == old(s)@ + hand_text(p@, c, i as int),
        decreases 7 - i,
    {
        let k = crate::piece::kind_of(6 - i);
        let n = p.hands.count(c, k);
        let ghost before = s@;
        if n == 1 {
            s.append(letter_text(c, k));
        } else if n > 1 {
            crate::text::push_decimal(s, n as u64);
            s.append(letter_text(c, k));
        }
        proof {
            assert(s@ =~= old(s)@ + hand_text(p@, c, i + 1));
        }
        i = i + 1;
    }
}

impl Position {
    /// This position written in SFEN.
    pub fn sfen(&self) -> (r: String)
        requires
            self.wf(),
        ensures
            r@ == position_sfen(self@),
    {
        proof {
            reveal_strlit("/");
            reveal_strlit(" ");
            reveal_strlit("b");
            reveal_strlit("w");
            reveal_strlit("-");
            reveal_strlit(" 1");
        }
        let mut s = String::new();
        let mut row: usize = 0;
        while row < 9
            invariant
                self.wf(),
                row <= 9,
                s@ == board_text(self@, row as int),
            decreases 9 - row,
        {
            if row > 0 {
                s.append("/");
            }
            push_row(&mut s, self, row);
            proof {
                assert(s@ =~= board_text(self@, row + 1));
            }
            row = row + 1;
        }
        s.append(" ");
        if self.turn.is_black() {
            s.append("b");
        } else {
            s.append("w");
        }
        s.append(" ");
        let mut h = String::new();
        push_hand(&mut h, self, Color::Black);
        push_hand(&mut h, self, Color::White);
        proof {
            assert(h@ =~= hand_text(self@, Color::Black, 7) + hand_text(self@, Color::White, 7));
        }
        if h.as_str().unicode_len() == 0 {
            s.append("-");
        } else {
            s.append(h.as_str());
        }
        s.append(" 1");
        proof {
            assert(s@ =~= position_sfen(self@));
        }
        s
    }
}


/// Whether white's king is attacked in the position written in `sfen`;
/// false when the text is not a position.
pub fn is_white_in_check(sfen: &str) -> (r: bool)
    ensures
        r == match sfen_position(sfen.spec_bytes()) {
            Ok(p) => crate::rules::in_check(p, Color::White),
            Err(_) => false,
        },
{
    match Position::from_sfen(sfen) {
        Ok(p) => crate::rules::in_check_exec(&p, Color::White),
        Err(_) => false,
    }
}

} // verus!
