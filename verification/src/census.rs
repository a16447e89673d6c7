use vstd::prelude::*;

use crate::piece::{Color, Kind};
use crate::position::{Cell, Position};

verus! {

/// A cell holds a piece of a selected color and a selected kind.
pub open spec fn selected(cell: Cell, black: bool, white: bool, kinds: Seq<bool>) -> bool {
    match cell {
        Cell::Piece(c, k) => (if c == Color::Black {
            black
        } else {
            white
        }) && kinds[k.spec_index() as int],
        _ => false,
    }
}

/// Number of cells of `s` holding a selected piece.
pub open spec fn count_selected(s: Seq<Cell>, black: bool, white: bool, kinds: Seq<bool>) -> nat
    decreases s.len(),
{
    if s.len() == 0 {
        0
    } else {
        count_selected(s.drop_last(), black, white, kinds) + if selected(
            s.last(),
            black,
            white,
            kinds,
        ) {
            1nat
        } else {
            0nat
        }
    }
}

/// The selection of every kind in `ks`.
pub open spec fn kinds_mask(ks: Seq<Kind>) -> Seq<bool> {
    Seq::new(14, |i: int| exists|j: int| 0 <= j < ks.len() && #[trigger] ks[j].spec_index() == i)
}

/// The selection of all fourteen kinds.
pub open spec fn all_kinds_mask() -> Seq<bool> {
    Seq::new(14, |i: int| true)
}

pub proof fn lemma_count_bound(s: Seq<Cell>, black: bool, white: bool, kinds: Seq<bool>)
    ensures
        count_selected(s, black, white, kinds) <= s.len(),
    decreases s.len(),
{
    if s.len() > 0 {
        lemma_count_bound(s.drop_last(), black, white, kinds);
    }
}

/// Counting over `s.take(i + 1)` adds the `i`-th cell to the count over
/// `s.take(i)`.
pub proof fn lemma_count_step(s: Seq<Cell>, i: int, black: bool, white: bool, kinds: Seq<bool>)
    requires
        0 <= i < s.len(),
    ensures
        count_selected(s.take(i + 1), black, white, kinds) == count_selected(
            s.take(i),
            black,
            white,
            kinds,
        ) + if selected(s[i], black, white, kinds) {
            1nat
        } else {
            0nat
        },
{
    assert(s.take(i + 1).drop_last() =~= s.take(i));
}

/// The selection of the kinds listed in `ks`.
pub fn kinds_mask_exec(ks: &[Kind]) -> (r: Vec<bool>)
    ensures
        r@ == kinds_mask(ks@),
{
    let mut r: Vec<bool> = Vec::new();
    let mut i: usize = 0;
    while i < 14
        invariant
            i <= 14,
            r@.len() == i,
            forall|x: int| 0 <= x < i ==> r@[x] == kinds_mask(ks@)[x],
        decreases 14 - i,
    {
        let mut found = false;
        let mut j: usize = 0;
        while j < ks.len()
            invariant
                j <= ks@.len(),
                i < 14,
                found == exists|y: int| 0 <= y < j && #[trigger] ks@[y].spec_index() == i,
            decreases ks@.len() - j,
        {
            if ks[j].index() == i {
                found = true;
            }
            j = j + 1;
        }
        r.push(found);
        i = i + 1;
    }
    proof {
        assert(r@ =~= kinds_mask(ks@));
    }
    r
}

/// Number of board pieces of the selected colors whose kind is selected.
pub fn count_pieces(p: &Position, black: bool, white: bool, kinds: &Vec<bool>) -> (r: u32)
    requires
        p.wf(),
        kinds@.len() == 14,
    ensures
        r == count_selected(p.board@, black, white, kinds@),
        r <= 81,
{
    let mut n: u32 = 0;
    let mut i: usize = 0;
    while i < 81
        invariant
            p.wf(),
            kinds@.len() == 14,
            i <= 81,
            n == count_selected(p.board@.take(i as int), black, white, kinds@),
            n <= i,
        decreases 81 - i,
    {
        proof {
            lemma_count_step(p.board@, i as int, black, white, kinds@);
        }
        let hit = match p.board[i] {
            Cell::Piece(c, k) => (if c.is_black() {
                black
            } else {
                white
            }) && kinds[k.index()],
            _ => false,
        };
        if hit {
            n = n + 1;
        }
        i = i + 1;
    }
    proof {
        assert(p.board@.take(81) =~= p.board@);
    }
    n
}

/// Number of board pieces of `color` and `kind`.
pub fn count_kind(p: &Position, color: Color, kind: Kind) -> (r: u32)
    requires
        p.wf(),
    ensures
        r == count_selected(p.board@, color == Color::Black, color == Color::White, kinds_mask(seq![kind])),
        r <= 81,
{
    let ks = [kind];
    let mask = kinds_mask_exec(&ks);
    proof {
        assert(ks@ =~= seq![kind]);
    }
    count_pieces(p, color.is_black(), color.is_white(), &mask)
}

/// Number of pieces on the board.
pub fn count_all(p: &Position) -> (r: u32)
    requires
        p.wf(),
    ensures
        r == count_selected(p.board@, true, true, all_kinds_mask()),
        r <= 81,
{
    let mut mask: Vec<bool> = Vec::new();
    let mut i: usize = 0;
    while i < 14
        invariant
            i <= 14,
            mask@.len() == i,
            forall|j: int| 0 <= j < i ==> mask@[j],
        decreases 14 - i,
    {
        mask.push(true);
        i = i + 1;
    }
    proof {
        assert(mask@ =~= all_kinds_mask());
    }
    count_pieces(p, true, true, &mask)
}

} // verus!
