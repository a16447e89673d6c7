use vstd::prelude::*;

use crate::piece::{Color, Kind};
use crate::position::{Cell, Position, PositionView};
use crate::square::Square;

verus! {

pub open spec fn sign(x: int) -> int {
    if x > 0 {
        1
    } else if x < 0 {
        -1
    } else {
        0
    }
}

pub open spec fn abs(x: int) -> int {
    if x < 0 {
        -x
    } else {
        x
    }
}

/// `m` steps in direction `s`, where `s` is -1, 0 or 1.
pub open spec fn scale(m: int, s: int) -> int {
    if s > 0 {
        m
    } else if s < 0 {
        -m
    } else {
        0
    }
}

pub open spec fn col_of(i: int) -> int {
    i / 9
}

pub open spec fn row_of(i: int) -> int {
    i % 9
}

/// Whether a piece of `kind` moves one step by (`dc`, `dr`), seen from
/// black: a negative `dr` is forward.
pub open spec fn step_pattern(kind: Kind, dc: int, dr: int) -> bool {
    match kind {
        Kind::Pawn => dc == 0 && dr == -1,
        Kind::Knight => (dc == 1 || dc == -1) && dr == -2,
        Kind::Silver => (abs(dc) == 1 && abs(dr) == 1) || (dc == 0 && dr == -1),
        Kind::Gold | Kind::ProPawn | Kind::ProLance | Kind::ProKnight | Kind::ProSilver => {
            &&& abs(dc) <= 1
            &&& abs(dr) <= 1
            &&& !(dc == 0 && dr == 0)
            &&& !(dr == 1 && dc != 0)
        },
        Kind::King => abs(dc) <= 1 && abs(dr) <= 1 && !(dc == 0 && dr == 0),
        Kind::ProBishop => abs(dc) + abs(dr) == 1,
        Kind::ProRook => abs(dc) == 1 && abs(dr) == 1,
        _ => false,
    }
}

/// Whether a piece of `kind` slides in direction (`sx`, `sy`), each -1, 0
/// or 1, seen from black.
pub open spec fn slides(kind: Kind, sx: int, sy: int) -> bool {
    match kind {
        Kind::Lance => sx == 0 && sy == -1,
        Kind::Bishop | Kind::ProBishop => abs(sx) == 1 && abs(sy) == 1,
        Kind::Rook | Kind::ProRook => (sx == 0 && abs(sy) == 1) || (sy == 0 && abs(sx) == 1),
        _ => false,
    }
}

/// The content of the square `m` steps from (`fc`, `fr`) in board direction
/// (`sx`, `sy`).
pub open spec fn ray_cell(p: PositionView, fc: int, fr: int, sx: int, sy: int, m: int) -> Cell {
    p.cell((fc + scale(m, sx)) * 9 + (fr + scale(m, sy)))
}

/// All squares strictly between the start and the `n`-th step are empty.
pub open spec fn path_clear(p: PositionView, fc: int, fr: int, sx: int, sy: int, n: int) -> bool {
    forall|m: int| 1 <= m < n ==> #[trigger] ray_cell(p, fc, fr, sx, sy, m) == Cell::Empty
}

/// Whether a piece of `color` and `kind` on square `from` attacks square
/// `to` (empty or not): by one step of its pattern, or by sliding along a
/// clear line.
pub open spec fn attacks(p: PositionView, color: Color, kind: Kind, from: int, to: int) -> bool {
    let bc = col_of(to) - col_of(from);
    let br = row_of(to) - row_of(from);
    let dc = if color == Color::Black {
        bc
    } else {
        -bc
    };
    let dr = if color == Color::Black {
        br
    } else {
        -br
    };
    &&& !(bc == 0 && br == 0)
    &&& (step_pattern(kind, dc, dr) || {
        &&& (bc == 0 || br == 0 || abs(bc) == abs(br))
        &&& slides(kind, sign(dc), sign(dr))
        &&& path_clear(
            p,
            col_of(from),
            row_of(from),
            sign(bc),
            sign(br),
            if abs(bc) > abs(br) {
                abs(bc)
            } else {
                abs(br)
            },
        )
    })
}

/// Whether square `from` holds a piece of `color` that attacks `to`.
pub open spec fn attacks_from(p: PositionView, color: Color, from: int, to: int) -> bool {
    match p.cell(from) {
        Cell::Piece(c, k) => c == color && attacks(p, color, k, from, to),
        _ => false,
    }
}

/// Whether some piece of `color` attacks square `to`.
pub open spec fn attacked_by(p: PositionView, color: Color, to: int) -> bool {
    exists|from: int| 0 <= from < 81 && #[trigger] attacks_from(p, color, from, to)
}

/// Whether a king of `color` is attacked.
pub open spec fn in_check(p: PositionView, color: Color) -> bool {
    exists|i: int|
        0 <= i < 81 && #[trigger] p.cell(i) == Cell::Piece(color, Kind::King) && attacked_by(
            p,
            color.spec_opposite(),
            i,
        )
}

fn step_pattern_exec(kind: Kind, dc: i32, dr: i32) -> (r: bool)
    requires
        -9 < dc < 9,
        -9 < dr < 9,
    ensures
        r == step_pattern(kind, dc as int, dr as int),
{
    let adc = if dc < 0 {
        -dc
    } else {
        dc
    };
    let adr = if dr < 0 {
        -dr
    } else {
        dr
    };
    match kind {
        Kind::Pawn => dc == 0 && dr == -1,
        Kind::Knight => (dc == 1 || dc == -1) && dr == -2,
        Kind::Silver => (adc == 1 && adr == 1) || (dc == 0 && dr == -1),
        Kind::Gold | Kind::ProPawn | Kind::ProLance | Kind::ProKnight | Kind::ProSilver => {
            adc <= 1 && adr <= 1 && !(dc == 0 && dr == 0) && !(dr == 1 && dc != 0)
        },
        Kind::King => adc <= 1 && adr <= 1 && !(dc == 0 && dr == 0),
        Kind::ProBishop => adc + adr == 1,
        Kind::ProRook => adc == 1 && adr == 1,
        _ => false,
    }
}

fn slides_exec(kind: Kind, sx: i32, sy: i32) -> (r: bool)
    requires
        -1 <= sx <= 1,
        -1 <= sy <= 1,
    ensures
        r == slides(kind, sx as int, sy as int),
{
    let ax = if sx < 0 {
        -sx
    } else {
        sx
    };
    let ay = if sy < 0 {
        -sy
    } else {
        sy
    };
    match kind {
        Kind::Lance => sx == 0 && sy == -1,
        Kind::Bishop | Kind::ProBishop => ax == 1 && ay == 1,
        Kind::Rook | Kind::ProRook => (sx == 0 && ay == 1) || (sy == 0 && ax == 1),
        _ => false,
    }
}

fn sign_exec(x: i32) -> (r: i32)
    ensures
        r == sign(x as int),
{
    if x > 0 {
        1
    } else if x < 0 {
        -1
    } else {
        0
    }
}

fn scale_exec(m: i32, s: i32) -> (r: i32)
    requires
        -100 < m < 100,
    ensures
        r == scale(m as int, s as int),
{
    if s > 0 {
        m
    } else if s < 0 {
        -m
    } else {
        0
    }
}

/// Whether the piece of `color` and `kind` on `from` attacks `to`.
pub fn attacks_exec(p: &Position, color: Color, kind: Kind, from: Square, to: Square) -> (r: bool)
    requires
        p.wf(),
        from.wf(),
        to.wf(),
    ensures
        r == attacks(p@, color, kind, from.spec_index(), to.spec_index()),
{
    let fc = from.col() as i32;
    let fr = from.row() as i32;
    let tc = to.col() as i32;
    let tr = to.row() as i32;
    let bc = tc - fc;
    let br = tr - fr;
    if bc == 0 && br == 0 {
        return false;
    }
    let dc = if color.is_black() {
        bc
    } else {
        -bc
    };
    let dr = if color.is_black() {
        br
    } else {
        -br
    };
    if step_pattern_exec(kind, dc, dr) {
        return true;
    }
    let abc = if bc < 0 {
        -bc
    } else {
        bc
    };
    let abr = if br < 0 {
        -br
    } else {
        br
    };
    if !(bc == 0 || br == 0 || abc == abr) {
        return false;
    }
    if !slides_exec(kind, sign_exec(dc), sign_exec(dr)) {
        return false;
    }
    let sx = sign_exec(bc);
    let sy = sign_exec(br);
    let n = if abc > abr {
        abc
    } else {
        abr
    };
    proof {
        assert(col_of(from.spec_index()) == fc);
        assert(row_of(from.spec_index()) == fr);
        assert(col_of(to.spec_index()) == tc);
        assert(row_of(to.spec_index()) == tr);
    }
    let mut m: i32 = 1;
    while m < n
        invariant
            p.wf(),
            from.wf(),
            to.wf(),
            col_of(from.spec_index()) == fc,
            row_of(from.spec_index()) == fr,
            col_of(to.spec_index()) == tc,
            row_of(to.spec_index()) == tr,
            !step_pattern(kind, dc as int, dr as int),
            dc as int == (if color == Color::Black { bc as int } else { -bc }),
            dr as int == (if color == Color::Black { br as int } else { -br }),
            1 <= m <= n,
            n < 9,
            0 <= fc < 9,
            0 <= fr < 9,
            0 <= tc < 9,
            0 <= tr < 9,
            bc == tc - fc,
            br == tr - fr,
            sx == sign(bc as int),
            sy == sign(br as int),
            n == (if abs(bc as int) > abs(br as int) {
                abs(bc as int)
            } else {
                abs(br as int)
            }),
            bc == 0 || br == 0 || abs(bc as int) == abs(br as int),
            forall|mm: int|
                1 <= mm < m ==> #[trigger] ray_cell(p@, fc as int, fr as int, sx as int, sy as int, mm)
                    == Cell::Empty,
        decreases n - m,
    {
        let c = fc + scale_exec(m, sx);
        let r = fr + scale_exec(m, sy);
        let idx = (c * 9 + r) as usize;
        if p.board[idx] != Cell::Empty {
            proof {
                assert(ray_cell(p@, fc as int, fr as int, sx as int, sy as int, m as int) != Cell::Empty);
            }
            return false;
        }
        m = m + 1;
    }
    proof {
        assert(col_of(from.spec_index()) == fc);
        assert(row_of(from.spec_index()) == fr);
        assert(col_of(to.spec_index()) == tc);
        assert(row_of(to.spec_index()) == tr);
    }
    true
}

/// Whether some piece of `color` attacks `to`.
pub fn attacked_by_exec(p: &Position, color: Color, to: Square) -> (r: bool)
    requires
        p.wf(),
        to.wf(),
    ensures
        r == attacked_by(p@, color, to.spec_index()),
{
    let mut i: usize = 0;
    while i < 81
        invariant
            p.wf(),
            to.wf(),
            i <= 81,
            forall|j: int|
                0 <= j < i ==> !#[trigger] attacks_from(p@, color, j, to.spec_index()),
        decreases 81 - i,
    {
        match p.board[i] {
            Cell::Piece(c, k) => {
                if c == color && attacks_exec(p, color, k, Square::from_index(i), to) {
                    proof {
                        assert(attacks_from(p@, color, i as int, to.spec_index()));
                    }
                    return true;
                }
            },
            _ => {},
        }
        i = i + 1;
    }
    false
}

/// Whether a king of `color` is attacked.
pub fn in_check_exec(p: &Position, color: Color) -> (r: bool)
    requires
        p.wf(),
    ensures
        r == in_check(p@, color),
{
    let mut i: usize = 0;
    while i < 81
        invariant
            p.wf(),
            i <= 81,
            forall|j: int|
                0 <= j < i ==> !(#[trigger] p@.cell(j) == Cell::Piece(color, Kind::King)
                    && attacked_by(p@, color.spec_opposite(), j)),
        decreases 81 - i,
    {
        if p.board[i] == Cell::Piece(color, Kind::King) {
            if attacked_by_exec(p, color.opposite(), Square::from_index(i)) {
                proof {
                    assert(p@.cell(i as int) == Cell::Piece(color, Kind::King));
                }
                return true;
            }
        }
        i = i + 1;
    }
    false
}

} // verus!
