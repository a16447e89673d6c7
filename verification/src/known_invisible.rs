use vstd::prelude::*;
use vstd::string::StringExecFns;

use crate::census::count_kind;
use crate::moves::{apply, playable};
use crate::observed::{DropIdentity, MoveIdentity, ObservedMove};
use crate::piece::{Color, Kind};
use crate::position::{Cell, Movement, Position, PositionView};
use crate::problem::acceptable;
use crate::rule::MateRule;
use crate::rules::in_check_exec;
use crate::square::Square;
use crate::smoke::{board_kinds, count_kind_on_board, with_promoted};
use crate::sfen::{hands_bounded, lemma_hands_bounded, sfen_position};

verus! {

/// Where a known-kind invisible piece is: on a square, or in a hand.
#[derive(Clone, Copy, Debug, PartialEq, Eq, Structural, PartialOrd, Ord, Hash)]
pub enum InvisibleLocation {
    Board(Square),
    Hand(Color),
}

/// An invisible piece whose side and kind are known.
#[derive(Clone, Copy, Debug, PartialEq, Eq, Structural, PartialOrd, Ord, Hash)]
pub struct InvisiblePiece {
    pub color: Color,
    pub kind: Kind,
    pub location: InvisibleLocation,
}

/// A location on a square of the board, or in a hand.
pub open spec fn invisible_location_wf(l: InvisibleLocation) -> bool {
    match l {
        InvisibleLocation::Board(sq) => sq.wf(),
        InvisibleLocation::Hand(_) => true,
    }
}

/// Every piece of the list has a valid location.
pub open spec fn pieces_wf(s: Seq<InvisiblePiece>) -> bool {
    forall|i: int| 0 <= i < s.len() ==> invisible_location_wf(#[trigger] s[i].location)
}

/// The rank of a piece in the order of side, then kind, then location
/// (squares by index before hands).
pub open spec fn piece_key(p: InvisiblePiece) -> nat {
    ((p.color.spec_index() * 14 + p.kind.spec_index()) * 83 + match p.location {
        InvisibleLocation::Board(sq) => sq.idx as nat,
        InvisibleLocation::Hand(c) => 81 + c.spec_index(),
    }) as nat
}

fn piece_key_exec(p: InvisiblePiece) -> (r: u32)
    ensures
        r == piece_key(p),
{
    let loc: u32 = match p.location {
        InvisibleLocation::Board(sq) => sq.idx as u32,
        InvisibleLocation::Hand(c) => 81 + c.index() as u32,
    };
    (p.color.index() as u32 * 14 + p.kind.index() as u32) * 83 + loc
}

/// The pieces are in key order.
pub open spec fn sorted_pieces(s: Seq<InvisiblePiece>) -> bool {
    forall|i: int, j: int| 0 <= i < j < s.len() ==> piece_key(s[i]) <= piece_key(s[j])
}

/// Number of times `x` occurs in `s`.
pub open spec fn occurrences(s: Seq<InvisiblePiece>, x: InvisiblePiece) -> nat
    decreases s.len(),
{
    if s.len() == 0 {
        0
    } else {
        occurrences(s.drop_last(), x) + if s.last() == x {
            1nat
        } else {
            0nat
        }
    }
}

/// Two lists hold the same pieces, each as often.
pub open spec fn same_pieces(a: Seq<InvisiblePiece>, b: Seq<InvisiblePiece>) -> bool {
    forall|x: InvisiblePiece| #[trigger] occurrences(a, x) == occurrences(b, x)
}

proof fn lemma_occurrences_take(s: Seq<InvisiblePiece>, i: int, x: InvisiblePiece)
    requires
        0 <= i < s.len(),
    ensures
        occurrences(s.take(i + 1), x) == occurrences(s.take(i), x) + if s[i] == x {
            1nat
        } else {
            0nat
        },
{
    assert(s.take(i + 1).drop_last() =~= s.take(i));
}

pub(crate) proof fn lemma_occurrences_concat(a: Seq<InvisiblePiece>, b: Seq<InvisiblePiece>, x: InvisiblePiece)
    ensures
        occurrences(a + b, x) == occurrences(a, x) + occurrences(b, x),
    decreases b.len(),
{
    if b.len() == 0 {
        assert(a + b =~= a);
    } else {
        lemma_occurrences_concat(a, b.drop_last(), x);
        assert((a + b).drop_last() =~= a + b.drop_last());
    }
}

proof fn lemma_occurrences_insert(s: Seq<InvisiblePiece>, i: int, y: InvisiblePiece, x: InvisiblePiece)
    requires
        0 <= i <= s.len(),
    ensures
        occurrences(s.insert(i, y), x) == occurrences(s, x) + if y == x {
            1nat
        } else {
            0nat
        },
{
    let a = s.take(i);
    let b = s.skip(i);
    assert(s =~= a + b);
    assert(s.insert(i, y) =~= a.push(y) + b);
    lemma_occurrences_concat(a, b, x);
    lemma_occurrences_concat(a.push(y), b, x);
    assert(a.push(y).drop_last() =~= a);
}

pub(crate) proof fn lemma_occurrences_update(s: Seq<InvisiblePiece>, i: int, y: InvisiblePiece, x: InvisiblePiece)
    requires
        0 <= i < s.len(),
    ensures
        occurrences(s.update(i, y), x) + (if s[i] == x {
            1nat
        } else {
            0nat
        }) == occurrences(s, x) + if y == x {
            1nat
        } else {
            0nat
        },
{
    let a = s.take(i);
    let b = s.skip(i + 1);
    assert(s =~= a.push(s[i]) + b);
    assert(s.update(i, y) =~= a.push(y) + b);
    lemma_occurrences_concat(a.push(s[i]), b, x);
    lemma_occurrences_concat(a.push(y), b, x);
    assert(a.push(s[i]).drop_last() =~= a);
    assert(a.push(y).drop_last() =~= a);
}

/// Sorts pieces in key order, keeping each as often as it occurs.
fn sort_pieces(v: &Vec<InvisiblePiece>) -> (r: Vec<InvisiblePiece>)
    ensures
        sorted_pieces(r@),
        same_pieces(r@, v@),
        r@.len() == v@.len(),
{
    let mut r: Vec<InvisiblePiece> = Vec::new();
    let mut i: usize = 0;
    while i < v.len()
        invariant
            i <= v@.len(),
            r@.len() == i,
            sorted_pieces(r@),
            forall|x: InvisiblePiece| #[trigger] occurrences(r@, x) == occurrences(v@.take(i as int), x),
        decreases v@.len() - i,
    {
        let x = v[i];
        let kx = piece_key_exec(x);
        let mut pos: usize = 0;
        while pos < r.len() && piece_key_exec(r[pos]) <= kx
            invariant
                pos <= r@.len(),
                kx == piece_key(x),
                forall|j: int| 0 <= j < pos ==> piece_key(r@[j]) <= kx,
            decreases r@.len() - pos,
        {
            pos = pos + 1;
        }
        let ghost before = r@;
        r.insert(pos, x);
        proof {
            assert forall|a: int, b: int| 0 <= a < b < r@.len() implies piece_key(r@[a]) <= piece_key(r@[b]) by {
                if pos < before.len() {
                    assert(piece_key(before[pos as int]) > kx);
                }
            }
            assert forall|y: InvisiblePiece| #[trigger] occurrences(r@, y) == occurrences(v@.take(i + 1), y) by {
                lemma_occurrences_insert(before, pos as int, x, y);
                lemma_occurrences_take(v@, i as int, y);
            }
        }
        i = i + 1;
    }
    proof {
        assert(v@.take(v@.len() as int) =~= v@);
    }
    r
}

/// A candidate world: a position with its invisible pieces placed, and
/// where each invisible piece is.
#[derive(Debug)]
pub struct InvisibleWorld {
    pub position: Position,
    pub invisibles: Vec<InvisiblePiece>,
}

impl InvisibleWorld {
    /// The world is well formed: a well-formed position and the invisible
    /// pieces in key order on board squares.
    pub open spec fn wf(&self) -> bool {
        &&& self.position.wf()
        &&& sorted_pieces(self.invisibles@)
        &&& pieces_wf(self.invisibles@)
    }

    /// A world of `position` with the invisible pieces `invisibles`, kept in
    /// key order.
    pub fn new(position: Position, invisibles: Vec<InvisiblePiece>) -> (w: InvisibleWorld)
        requires
            position.wf(),
            pieces_wf(invisibles@),
        ensures
            w.wf(),
            w.position@ == position@,
            same_pieces(w.invisibles@, invisibles@),
    {
        let sorted = sort_pieces(&invisibles);
        proof {
            assert forall|i: int| 0 <= i < sorted@.len() implies invisible_location_wf(#[trigger] sorted@[i].location) by {
                lemma_occurrence_in(sorted@, i);
                assert(occurrences(invisibles@, sorted@[i]) > 0);
                lemma_found_in(invisibles@, sorted@[i]);
            }
        }
        InvisibleWorld { position, invisibles: sorted }
    }

    /// A copy of this world.
    pub fn copy(&self) -> (w: InvisibleWorld)
        ensures
            w.position@ == self.position@,
            w.position.wf() == self.position.wf(),
            w.invisibles@ == self.invisibles@,
    {
        let invisibles = self.invisibles.clone();
        proof {
            assert(invisibles@ =~= self.invisibles@);
        }
        InvisibleWorld { position: self.position.copy(), invisibles }
    }
}

pub(crate) proof fn lemma_occurrence_in(s: Seq<InvisiblePiece>, i: int)
    requires
        0 <= i < s.len(),
    ensures
        occurrences(s, s[i]) > 0,
    decreases s.len(),
{
    if i < s.len() - 1 {
        lemma_occurrence_in(s.drop_last(), i);
    }
}

pub(crate) proof fn lemma_found_in(s: Seq<InvisiblePiece>, x: InvisiblePiece)
    requires
        occurrences(s, x) > 0,
    ensures
        exists|i: int| 0 <= i < s.len() && s[i] == x,
    decreases s.len(),
{
    if s.last() != x {
        lemma_found_in(s.drop_last(), x);
        let i = choose|i: int| 0 <= i < s.drop_last().len() && s.drop_last()[i] == x;
        assert(s[i] == x);
    } else {
        assert(s[s.len() - 1] == x);
    }
}

/// How a move shows in the record when some pieces are invisible: an
/// ordinary move, a move of an invisible piece, or an invisible piece
/// capturing on a square.
#[derive(Clone, Copy, Debug, PartialEq, Eq, Structural, PartialOrd, Ord, Hash)]
pub enum KnownInvisibleObservedMove {
    Known(ObservedMove),
    Invisible,
    InvisibleCapture(Square),
}

/// The index of the first piece of `s`, from `i` on, standing on `sq`.
pub open spec fn first_at(s: Seq<InvisiblePiece>, sq: Square, i: int) -> Option<int>
    decreases s.len() - i,
{
    if i < 0 || i >= s.len() {
        None
    } else if s[i].location == InvisibleLocation::Board(sq) {
        Some(i)
    } else {
        first_at(s, sq, i + 1)
    }
}

/// A captured invisible piece: it goes unpromoted to the mover's hand.
pub open spec fn captured_piece(mover: Color, p: InvisiblePiece) -> InvisiblePiece {
    InvisiblePiece { color: mover, kind: p.kind.spec_maybe_unpromote(), location: InvisibleLocation::Hand(mover) }
}

/// An invisible piece that makes the move `m`: it lands on the destination,
/// promoted when the move promotes.
pub open spec fn moved_piece(p: InvisiblePiece, m: Movement) -> InvisiblePiece {
    match m {
        Movement::Move { dest, promote, .. } => InvisiblePiece {
            color: p.color,
            kind: if promote {
                match p.kind.spec_promote() {
                    Some(k) => k,
                    None => p.kind,
                }
            } else {
                p.kind
            },
            location: InvisibleLocation::Board(dest),
        },
        Movement::Drop(dest, _) => InvisiblePiece {
            color: p.color,
            kind: p.kind,
            location: InvisibleLocation::Board(dest),
        },
    }
}

/// The invisible pieces after `m` by `mover`, the piece at index `captured`
/// taken and the piece at index `moving` making the move.
pub open spec fn changed(
    s: Seq<InvisiblePiece>,
    mover: Color,
    m: Movement,
    moving: Option<int>,
    captured: Option<int>,
) -> Seq<InvisiblePiece> {
    let s1 = match captured {
        Some(i) => s.update(i, captured_piece(mover, s[i])),
        None => s,
    };
    match moving {
        Some(i) => s1.update(i, moved_piece(s1[i], m)),
        None => s1,
    }
}

/// `r` is the world `w` after `m`, with the invisible pieces at `moving`
/// and `captured` moving and being taken.
pub open spec fn world_after(w: &InvisibleWorld, m: Movement, moving: Option<int>, captured: Option<int>, r: &InvisibleWorld) -> bool {
    &&& r.wf()
    &&& r.position@ == apply(w.position@, m)
    &&& same_pieces(r.invisibles@, changed(w.invisibles@, w.position@.turn, m, moving, captured))
}

/// The invisible piece of the side to move held in its hand with kind `k`.
pub open spec fn held(turn: Color, k: Kind) -> InvisiblePiece {
    InvisiblePiece { color: turn, kind: k, location: InvisibleLocation::Hand(turn) }
}

impl InvisibleWorld {
    /// The index of the first invisible piece on `sq`.
    fn invisible_index_on_board(&self, sq: Square) -> (r: Option<usize>)
        ensures
            match r {
                Some(i) => first_at(self.invisibles@, sq, 0) == Some(i as int),
                None => first_at(self.invisibles@, sq, 0) is None,
            },
    {
        let mut i: usize = 0;
        while i < self.invisibles.len()
            invariant
                i <= self.invisibles@.len(),
                first_at(self.invisibles@, sq, 0) == first_at(self.invisibles@, sq, i as int),
            decreases self.invisibles@.len() - i,
        {
            if self.invisibles[i].location == InvisibleLocation::Board(sq) {
                return Some(i);
            }
            i = i + 1;
        }
        None
    }

    /// This world after `m`, the invisible pieces at `moving` and
    /// `captured` moving and being taken.
    fn apply(&self, m: Movement, moving: Option<usize>, captured: Option<usize>) -> (r: InvisibleWorld)
        requires
            self.wf(),
            playable(self.position@, m),
            moving matches Some(i) ==> i < self.invisibles@.len(),
            captured matches Some(i) ==> i < self.invisibles@.len(),
            moving matches Some(i) ==> captured != Some(i),
        ensures
            world_after(self, m, match moving {
                Some(i) => Some(i as int),
                None => None,
            }, match captured {
                Some(i) => Some(i as int),
                None => None,
            }, &r),
    {
        let ghost s = self.invisibles@;
        let mover = self.position.turn;
        let mut position = self.position.copy();
        position.do_move(m);
        let mut pieces = self.invisibles.clone();
        proof {
            assert(pieces@ =~= s);
        }
        match captured {
            Some(i) => {
                let p = pieces[i];
                pieces.set(i, InvisiblePiece { color: mover, kind: p.kind.maybe_unpromote(), location: InvisibleLocation::Hand(mover) });
            },
            None => {},
        }
        let ghost s1 = pieces@;
        match moving {
            Some(i) => {
                let p = pieces[i];
                let next = match m {
                    Movement::Move { dest, promote, .. } => {
                        let kind = if promote {
                            match p.kind.promote() {
                                Some(k) => k,
                                None => p.kind,
                            }
                        } else {
                            p.kind
                        };
                        InvisiblePiece { color: p.color, kind, location: InvisibleLocation::Board(dest) }
                    },
                    Movement::Drop(dest, _) => InvisiblePiece {
                        color: p.color,
                        kind: p.kind,
                        location: InvisibleLocation::Board(dest),
                    },
                };
                pieces.set(i, next);
            },
            None => {},
        }
        let ghost mv = match moving {
            Some(i) => Some(i as int),
            None => None,
        };
        let ghost cp = match captured {
            Some(i) => Some(i as int),
            None => None,
        };
        proof {
            assert(pieces@ =~= changed(s, mover, m, mv, cp));
            assert forall|j: int| 0 <= j < pieces@.len() implies invisible_location_wf(#[trigger] pieces@[j].location) by {
                assert(invisible_location_wf(s[j].location));
            }
        }
        InvisibleWorld::new(position, pieces)
    }

    /// How the move `m` can show in the record from this world, each with the
    /// world it leads to: one outcome for a board move; for a drop, an
    /// ordinary drop while the hand holds more of the kind than its
    /// invisible pieces, and a hidden drop for each invisible piece of the
    /// kind in the hand.
    pub fn transition_variants(&self, m: Movement) -> (r: Vec<(KnownInvisibleObservedMove, InvisibleWorld)>)
        requires
            self.wf(),
            playable(self.position@, m),
            m matches Movement::Move { source, dest, .. } ==> source != dest,
        ensures
            match m {
                Movement::Move { source, dest, promote } => {
                    let s = self.invisibles@;
                    let moving = first_at(s, source, 0);
                    let captured = first_at(s, dest, 0);
                    let visible_capture = self.position@.cell(dest.spec_index()) is Piece && captured is None;
                    &&& r@.len() == 1
                    &&& r@[0].0 == if moving is Some {
                        if visible_capture {
                            KnownInvisibleObservedMove::InvisibleCapture(dest)
                        } else {
                            KnownInvisibleObservedMove::Invisible
                        }
                    } else {
                        KnownInvisibleObservedMove::Known(
                            ObservedMove::Move { identity: MoveIdentity::Known, source, destination: dest, promote },
                        )
                    }
                    &&& world_after(self, m, moving, captured, &r@[0].1)
                },
                Movement::Drop(dest, k) => {
                    let turn = self.position@.turn;
                    let n = occurrences(self.invisibles@, held(turn, k));
                    let known = self.position@.hand(turn, k) > n;
                    let off: int = if known {
                        1
                    } else {
                        0
                    };
                    &&& r@.len() == off + n
                    &&& known ==> r@[0].0 == KnownInvisibleObservedMove::Known(
                        ObservedMove::Drop { identity: DropIdentity::Known(k), destination: dest },
                    ) && world_after(self, m, None, None, &r@[0].1)
                    &&& forall|j: int|
                        off <= j < r@.len() ==> (#[trigger] r@[j]).0 == KnownInvisibleObservedMove::Invisible && exists|
                            i: int,
                        |
                            0 <= i < self.invisibles@.len() && self.invisibles@[i] == held(turn, k) && world_after(
                                self,
                                m,
                                Some(i),
                                None,
                                &r@[j].1,
                            )
                },
            },
    {
        match m {
            Movement::Move { source, dest, promote } => {
                let moving = self.invisible_index_on_board(source);
                let captured = self.invisible_index_on_board(dest);
                proof {
                    if moving is Some {
                        lemma_first_at_location(self.invisibles@, source, 0);
                    }
                    if captured is Some {
                        lemma_first_at_location(self.invisibles@, dest, 0);
                    }
                }
                let captured_visible = self.position.get(dest).is_some() && captured.is_none();
                let observed = if moving.is_some() {
                    if captured_visible {
                        KnownInvisibleObservedMove::InvisibleCapture(dest)
                    } else {
                        KnownInvisibleObservedMove::Invisible
                    }
                } else {
                    KnownInvisibleObservedMove::Known(
                        ObservedMove::Move { identity: MoveIdentity::Known, source, destination: dest, promote },
                    )
                };
                let next = self.apply(m, moving, captured);
                let mut r: Vec<(KnownInvisibleObservedMove, InvisibleWorld)> = Vec::new();
                r.push((observed, next));
                r
            },
            Movement::Drop(dest, k) => {
                let turn = self.position.turn;
                let h = InvisiblePiece { color: turn, kind: k, location: InvisibleLocation::Hand(turn) };
                let mut hidden: Vec<usize> = Vec::new();
                let mut i: usize = 0;
                while i < self.invisibles.len()
                    invariant
                        i <= self.invisibles@.len(),
                        h == held(turn, k),
                        hidden@.len() == occurrences(self.invisibles@.take(i as int), h),
                        forall|j: int| 0 <= j < hidden@.len() ==> #[trigger] hidden@[j] < self.invisibles@.len()
                            && self.invisibles@[hidden@[j] as int] == h,
                    decreases self.invisibles@.len() - i,
                {
                    proof {
                        lemma_occurrences_take(self.invisibles@, i as int, h);
                    }
                    if self.invisibles[i] == h {
                        hidden.push(i);
                    }
                    i = i + 1;
                }
                proof {
                    assert(self.invisibles@.take(self.invisibles@.len() as int) =~= self.invisibles@);
                }
                let mut r: Vec<(KnownInvisibleObservedMove, InvisibleWorld)> = Vec::new();
                let known = self.position.hands.count(turn, k) > hidden.len();
                if known {
                    let next = self.apply(m, None, None);
                    r.push(
                        (
                            KnownInvisibleObservedMove::Known(
                                ObservedMove::Drop { identity: DropIdentity::Known(k), destination: dest },
                            ),
                            next,
                        ),
                    );
                }
                let ghost off: int = if known {
                    1
                } else {
                    0
                };
                let mut j: usize = 0;
                while j < hidden.len()
                    invariant
                        self.wf(),
                        playable(self.position@, m),
                        m == Movement::Drop(dest, k),
                        turn == self.position@.turn,
                        h == held(turn, k),
                        j <= hidden@.len(),
                        off == (if known {
                            1int
                        } else {
                            0int
                        }),
                        hidden@.len() == occurrences(self.invisibles@, h),
                        known == (self.position@.hand(turn, k) > hidden@.len()),
                        r@.len() == off + j,
                        known ==> r@[0].0 == KnownInvisibleObservedMove::Known(
                            ObservedMove::Drop { identity: DropIdentity::Known(k), destination: dest },
                        ) && world_after(self, m, None, None, &r@[0].1),
                        forall|q: int| 0 <= q < hidden@.len() ==> #[trigger] hidden@[q] < self.invisibles@.len()
                            && self.invisibles@[hidden@[q] as int] == h,
                        forall|q: int|
                            off <= q < r@.len() ==> (#[trigger] r@[q]).0 == KnownInvisibleObservedMove::Invisible && exists|
                                i: int,
                            |
                                0 <= i < self.invisibles@.len() && self.invisibles@[i] == held(turn, k) && world_after(
                                    self,
                                    m,
                                    Some(i),
                                    None,
                                    &r@[q].1,
                                ),
                    decreases hidden@.len() - j,
                {
                    let idx = hidden[j];
                    let next = self.apply(m, Some(idx), None);
                    let ghost old_r = r@;
                    let item = (KnownInvisibleObservedMove::Invisible, next);
                    let ghost gi = item;
                    r.push(item);
                    proof {
                        assert(r@ == old_r.push(gi));
                        assert(self.invisibles@[idx as int] == h);
                        assert(world_after(self, m, Some(idx as int), None, &r@[off + j].1));
                        if known {
                            assert(r@[0] == old_r[0]);
                        }
                        assert forall|q: int| off <= q < r@.len() implies (#[trigger] r@[q]).0
                            == KnownInvisibleObservedMove::Invisible && exists|i: int|
                            0 <= i < self.invisibles@.len() && self.invisibles@[i] == held(turn, k) && world_after(
                                self,
                                m,
                                Some(i),
                                None,
                                &r@[q].1,
                            ) by {
                            if q < old_r.len() {
                                assert(r@[q] == old_r[q]);
                            } else {
                                assert(self.invisibles@[idx as int] == held(turn, k));
                            }
                        }
                    }
                    j = j + 1;
                }
                r
            },
        }
    }
}

pub(crate) proof fn lemma_first_at_location(s: Seq<InvisiblePiece>, sq: Square, i: int)
    requires
        first_at(s, sq, i) is Some,
    ensures
        0 <= first_at(s, sq, i)->0 < s.len(),
        s[first_at(s, sq, i)->0].location == InvisibleLocation::Board(sq),
    decreases s.len() - i,
{
    if !(i < 0 || i >= s.len()) && s[i].location != InvisibleLocation::Board(sq) {
        lemma_first_at_location(s, sq, i + 1);
    }
}

/// The piece lists of some worlds.
pub open spec fn lists_of(ws: Seq<InvisibleWorld>) -> Seq<Seq<InvisiblePiece>> {
    Seq::new(ws.len(), |i: int| ws[i].invisibles@)
}

/// How many times `x` occurs in every list: the least of its counts.
pub open spec fn common(lists: Seq<Seq<InvisiblePiece>>, x: InvisiblePiece) -> nat
    decreases lists.len(),
{
    if lists.len() == 0 {
        0
    } else if lists.len() == 1 {
        occurrences(lists[0], x)
    } else {
        let a = common(lists.drop_last(), x);
        let b = occurrences(lists.last(), x);
        if a <= b {
            a
        } else {
            b
        }
    }
}

pub(crate) proof fn lemma_common_le(lists: Seq<Seq<InvisiblePiece>>, x: InvisiblePiece, i: int)
    requires
        0 <= i < lists.len(),
    ensures
        common(lists, x) <= occurrences(lists[i], x),
    decreases lists.len(),
{
    if lists.len() > 1 && i < lists.len() - 1 {
        lemma_common_le(lists.drop_last(), x, i);
    }
}

fn count_in(v: &Vec<InvisiblePiece>, x: InvisiblePiece, upto: usize) -> (r: usize)
    requires
        upto <= v@.len(),
    ensures
        r == occurrences(v@.take(upto as int), x),
        r <= upto,
{
    let mut n: usize = 0;
    let mut i: usize = 0;
    while i < upto
        invariant
            upto <= v@.len(),
            i <= upto,
            n == occurrences(v@.take(i as int), x),
            n <= i,
        decreases upto - i,
    {
        proof {
            lemma_occurrences_take(v@, i as int, x);
        }
        if v[i] == x {
            n = n + 1;
        }
        i = i + 1;
    }
    n
}

fn common_exec(ws: &Vec<InvisibleWorld>, x: InvisiblePiece) -> (r: usize)
    ensures
        r == common(lists_of(ws@), x),
{
    let ghost lists = lists_of(ws@);
    if ws.len() == 0 {
        return 0;
    }
    let mut m = count_in(&ws[0].invisibles, x, ws[0].invisibles.len());
    proof {
        assert(ws@[0].invisibles@.take(ws@[0].invisibles@.len() as int) =~= ws@[0].invisibles@);
        assert(lists.take(1).len() == 1);
        assert(lists.take(1)[0] == lists[0]);
    }
    let mut i: usize = 1;
    while i < ws.len()
        invariant
            lists == lists_of(ws@),
            1 <= i <= ws@.len(),
            m == common(lists.take(i as int), x),
        decreases ws@.len() - i,
    {
        let c = count_in(&ws[i].invisibles, x, ws[i].invisibles.len());
        proof {
            assert(ws@[i as int].invisibles@.take(ws@[i as int].invisibles@.len() as int) =~= ws@[i as int].invisibles@);
            assert(lists.take(i + 1).drop_last() =~= lists.take(i as int));
            assert(lists.take(i + 1).last() == lists[i as int]);
        }
        if c < m {
            m = c;
        }
        i = i + 1;
    }
    proof {
        assert(lists.take(ws@.len() as int) =~= lists);
    }
    m
}

/// The pieces of `s` without `n(x)` copies of each piece `x`, in order.
fn without_common(v: &Vec<InvisiblePiece>, ws: &Vec<InvisibleWorld>) -> (r: Vec<InvisiblePiece>)
    requires
        sorted_pieces(v@),
        pieces_wf(v@),
        forall|x: InvisiblePiece| common(lists_of(ws@), x) <= #[trigger] occurrences(v@, x),
    ensures
        sorted_pieces(r@),
        pieces_wf(r@),
        forall|x: InvisiblePiece| #[trigger] occurrences(r@, x) == occurrences(v@, x) - common(lists_of(ws@), x),
{
    let mut r: Vec<InvisiblePiece> = Vec::new();
    let mut i: usize = 0;
    while i < v.len()
        invariant
            sorted_pieces(v@),
            pieces_wf(v@),
            i <= v@.len(),
            forall|x: InvisiblePiece| common(lists_of(ws@), x) <= #[trigger] occurrences(v@, x),
            pieces_wf(r@),
            forall|a: int, b: int| 0 <= a < r@.len() && i <= b < v@.len() ==> piece_key(#[trigger] r@[a]) <= piece_key(#[trigger] v@[b]),
            sorted_pieces(r@),
            forall|x: InvisiblePiece| #[trigger] occurrences(r@, x) == if occurrences(v@.take(i as int), x) >= common(lists_of(ws@), x) {
                occurrences(v@.take(i as int), x) - common(lists_of(ws@), x)
            } else {
                0
            },
        decreases v@.len() - i,
    {
        let x = v[i];
        let seen = count_in(v, x, i);
        let c = common_exec(ws, x);
        let ghost before = r@;
        if seen >= c {
            r.push(x);
        }
        proof {
            assert forall|y: InvisiblePiece| #[trigger] occurrences(r@, y) == if occurrences(v@.take(i + 1), y) >= common(lists_of(ws@), y) {
                occurrences(v@.take(i + 1), y) - common(lists_of(ws@), y)
            } else {
                0
            } by {
                lemma_occurrences_take(v@, i as int, y);
                let o = occurrences(v@.take(i as int), y);
                let cy = common(lists_of(ws@), y);
                if seen >= c {
                    assert(r@.drop_last() =~= before);
                    assert(r@.last() == x);
                    assert(occurrences(r@, y) == occurrences(before, y) + if x == y { 1nat } else { 0nat });
                    if x == y {
                        assert(o == seen);
                        assert(cy == c);
                    }
                } else {
                    assert(r@ == before);
                    if x == y {
                        assert(o == seen);
                        assert(cy == c);
                    }
                }
            }
            assert forall|a: int, b: int| 0 <= a < r@.len() && i + 1 <= b < v@.len() implies piece_key(#[trigger] r@[a]) <= piece_key(#[trigger] v@[b]) by {
                if a < before.len() {
                    assert(r@[a] == before[a]);
                    assert(piece_key(before[a]) <= piece_key(v@[b]));
                } else {
                    assert(piece_key(v@[i as int]) <= piece_key(v@[b]));
                }
            }
            assert forall|a: int, b: int| 0 <= a < b < r@.len() implies piece_key(r@[a]) <= piece_key(r@[b]) by {
                if b == before.len() && seen >= c {
                    assert(r@[a] == before[a]);
                    assert(piece_key(before[a]) <= piece_key(v@[i as int]));
                } else {
                    assert(r@[a] == before[a]);
                    assert(r@[b] == before[b]);
                }
            }
        }
        i = i + 1;
    }
    proof {
        assert(v@.take(v@.len() as int) =~= v@);
    }
    r
}

/// The same world: the same position and the same invisible pieces.
pub open spec fn same_world(a: &InvisibleWorld, b: &InvisibleWorld) -> bool {
    a.position@ == b.position@ && a.invisibles@ == b.invisibles@
}

pub(crate) fn same_world_exec(a: &InvisibleWorld, b: &InvisibleWorld) -> (r: bool)
    requires
        a.position.wf(),
        b.position.wf(),
    ensures
        r == same_world(a, b),
{
    if a.position.turn != b.position.turn || a.position.pawn_drop != b.position.pawn_drop {
        return false;
    }
    let mut i: usize = 0;
    while i < 81
        invariant
            a.position.wf(),
            b.position.wf(),
            i <= 81,
            forall|j: int| 0 <= j < i ==> a.position.board@[j] == b.position.board@[j],
        decreases 81 - i,
    {
        if a.position.board[i] != b.position.board[i] {
            return false;
        }
        i = i + 1;
    }
    let mut i: usize = 0;
    while i < 14
        invariant
            a.position.wf(),
            b.position.wf(),
            i <= 14,
            forall|j: int| 0 <= j < i ==> a.position.hands.counts@[j] == b.position.hands.counts@[j],
        decreases 14 - i,
    {
        if a.position.hands.counts[i] != b.position.hands.counts[i] {
            return false;
        }
        i = i + 1;
    }
    if a.invisibles.len() != b.invisibles.len() {
        return false;
    }
    let mut i: usize = 0;
    while i < a.invisibles.len()
        invariant
            i <= a.invisibles@.len(),
            a.invisibles@.len() == b.invisibles@.len(),
            forall|j: int| 0 <= j < i ==> a.invisibles@[j] == b.invisibles@[j],
        decreases a.invisibles@.len() - i,
    {
        if a.invisibles[i] != b.invisibles[i] {
            return false;
        }
        i = i + 1;
    }
    proof {
        assert(a.position.board@ =~= b.position.board@);
        assert(a.position.hands.counts@ =~= b.position.hands.counts@);
        assert(a.invisibles@ =~= b.invisibles@);
    }
    true
}

/// The candidate worlds after the moves observed so far.
#[derive(Debug)]
pub struct KnownInvisibleState {
    pub worlds: Vec<InvisibleWorld>,
    /// The defender's first move need not answer a check.
    pub free_white_move: bool,
    pub rule: MateRule,
}

/// `o` is the world `w` with the invisible pieces common to all of `ws`
/// made visible.
#[verifier::opaque]
pub open spec fn reduced(o: &InvisibleWorld, w: &InvisibleWorld, ws: Seq<InvisibleWorld>) -> bool {
    o.position@ == w.position@ && forall|x: InvisiblePiece|
        #[trigger] occurrences(o.invisibles@, x) == occurrences(w.invisibles@, x) - common(lists_of(ws), x)
}

/// The `j`-th world of `out` comes from some world of `ws`.
pub open spec fn from_some(ws: Seq<InvisibleWorld>, out: Seq<InvisibleWorld>, j: int) -> bool {
    exists|i: int| 0 <= i < ws.len() && #[trigger] reduced(&out[j], &ws[i], ws)
}

/// The `i`-th world of `ws` shows in `out`.
pub open spec fn kept_in(ws: Seq<InvisibleWorld>, out: Seq<InvisibleWorld>, i: int) -> bool {
    exists|j: int| 0 <= j < out.len() && #[trigger] reduced(&out[j], &ws[i], ws)
}

/// `out` holds the worlds of `ws` with the invisible pieces common to all of
/// them made visible, each world once.
pub open spec fn revealed(ws: Seq<InvisibleWorld>, out: Seq<InvisibleWorld>) -> bool {
    &&& forall|j: int| 0 <= j < out.len() ==> (#[trigger] out[j]).wf()
    &&& forall|j: int| 0 <= j < out.len() ==> #[trigger] from_some(ws, out, j)
    &&& forall|i: int| 0 <= i < ws.len() ==> #[trigger] kept_in(ws, out, i)
    &&& forall|a: int, b: int| 0 <= a < b < out.len() ==> !same_world(&out[a], &out[b])
}

proof fn lemma_revealed(ws: Seq<InvisibleWorld>, out: Seq<InvisibleWorld>, origin: Seq<int>, placed: Seq<int>)
    requires
        forall|j: int| 0 <= j < out.len() ==> (#[trigger] out[j]).wf(),
        origin.len() == out.len(),
        placed.len() == ws.len(),
        forall|j: int| 0 <= j < out.len() ==> 0 <= #[trigger] origin[j] < ws.len() && reduced(&out[j], &ws[origin[j]], ws),
        forall|k: int| 0 <= k < ws.len() ==> 0 <= #[trigger] placed[k] < out.len() && reduced(&out[placed[k]], &ws[k], ws),
        forall|a: int, b: int| 0 <= a < b < out.len() ==> !same_world(&out[a], &out[b]),
    ensures
        revealed(ws, out),
{
    assert forall|j: int| 0 <= j < out.len() implies #[trigger] from_some(ws, out, j) by {
        assert(reduced(&out[j], &ws[origin[j]], ws));
    }
    assert forall|i: int| 0 <= i < ws.len() implies #[trigger] kept_in(ws, out, i) by {
        assert(reduced(&out[placed[i]], &ws[i], ws));
    }
}

impl KnownInvisibleState {
    /// The state over `worlds`, with the invisible pieces common to every
    /// world made visible and each world kept once.
    pub fn from_worlds(worlds: Vec<InvisibleWorld>, free_white_move: bool, rule: MateRule) -> (s: KnownInvisibleState)
        requires
            forall|i: int| 0 <= i < worlds@.len() ==> (#[trigger] worlds@[i]).wf(),
        ensures
            revealed(worlds@, s.worlds@),
            crate::known_search::kviews(s.worlds@) == crate::known_search::reveal_views(crate::known_search::kviews(worlds@)),
            worlds@.len() > 0 ==> s.worlds@.len() > 0,
            s.free_white_move == free_white_move,
            s.rule == rule,
    {
        let ghost ws = worlds@;
        let ghost vs = crate::known_search::kviews(ws);
        let ghost rmap = Seq::new(vs.len(), |k: int| crate::known_search::reduce_view(vs[k], crate::known_search::klists(vs)));
        proof {
            crate::known_search::lemma_lists_of(ws);
            assert(rmap.take(0) =~= Seq::<crate::known_search::KnownView>::empty());
            assert(crate::known_search::kviews(Seq::<InvisibleWorld>::empty()) =~= Seq::<crate::known_search::KnownView>::empty());
        }
        let ghost mut origin: Seq<int> = Seq::empty();
        let ghost mut placed: Seq<int> = Seq::empty();
        let mut out: Vec<InvisibleWorld> = Vec::new();
        let mut i: usize = 0;
        while i < worlds.len()
            invariant
                ws == worlds@,
                forall|k: int| 0 <= k < ws.len() ==> (#[trigger] ws[k]).wf(),
                i <= ws.len(),
                i > 0 ==> out@.len() > 0,
                forall|j: int| 0 <= j < out@.len() ==> (#[trigger] out@[j]).wf(),
                origin.len() == out@.len(),
                placed.len() == i,
                forall|j: int| 0 <= j < out@.len() ==> 0 <= #[trigger] origin[j] < ws.len() && reduced(&out@[j], &ws[origin[j]], ws),
                forall|k: int| 0 <= k < i ==> 0 <= #[trigger] placed[k] < out@.len() && reduced(&out@[placed[k]], &ws[k], ws),
                forall|a: int, b: int| 0 <= a < b < out@.len() ==> !same_world(&out@[a], &out@[b]),
                vs == crate::known_search::kviews(ws),
                lists_of(ws) == crate::known_search::klists(vs),
                rmap == Seq::new(vs.len(), |k: int| crate::known_search::reduce_view(vs[k], crate::known_search::klists(vs))),
                crate::known_search::kviews(out@) == crate::known_search::kdedup(rmap.take(i as int)),
            decreases ws.len() - i,
        {
            let w = &worlds[i];
            proof {
                assert forall|x: InvisiblePiece| common(lists_of(ws), x) <= #[trigger] occurrences(w.invisibles@, x) by {
                    lemma_common_le(lists_of(ws), x, i as int);
                    assert(lists_of(ws)[i as int] == w.invisibles@);
                }
            }
            let pieces = without_common(&w.invisibles, &worlds);
            let candidate = InvisibleWorld { position: w.position.copy(), invisibles: pieces };
            proof {
                reveal(reduced);
                assert(reduced(&candidate, &ws[i as int], ws));
                crate::known_search::lemma_reduced_pieces(candidate.invisibles@, ws[i as int].invisibles@, lists_of(ws));
                assert(crate::known_search::kview(&candidate) == rmap[i as int]);
            }
            let mut j: usize = 0;
            let mut found: Option<usize> = None;
            while j < out.len()
                invariant
                    j <= out@.len(),
                    candidate.position.wf(),
                    forall|q: int| 0 <= q < out@.len() ==> (#[trigger] out@[q]).wf(),
                    found matches Some(f) ==> f < out@.len() && same_world(&out@[f as int], &candidate),
                    found is None ==> forall|q: int| 0 <= q < j ==> !same_world(&out@[q], &candidate),
                decreases out@.len() - j,
            {
                if found.is_none() && same_world_exec(&out[j], &candidate) {
                    found = Some(j);
                }
                j = j + 1;
            }
            let ghost before = out@;
            proof {
                let d = crate::known_search::kdedup(rmap.take(i as int));
                assert(rmap.take(i + 1).drop_last() =~= rmap.take(i as int));
                assert(rmap.take(i + 1).last() == rmap[i as int]);
                if found is Some {
                    let f = found->0 as int;
                    assert(d[f] == crate::known_search::kview(&out@[f]));
                    assert(d.contains(rmap[i as int]));
                } else {
                    assert forall|q: int| 0 <= q < d.len() implies d[q] != rmap[i as int] by {
                        assert(d[q] == crate::known_search::kview(&out@[q]));
                        assert(!same_world(&out@[q], &candidate));
                    }
                    assert(!d.contains(rmap[i as int]));
                }
            }
            match found {
                Some(f) => {
                    proof {
                        assert(reduced(&out@[f as int], &ws[i as int], ws));
                        placed = placed.push(f as int);
                    }
                },
                None => {
                    out.push(candidate);
                    proof {
                        origin = origin.push(i as int);
                        placed = placed.push(before.len() as int);
                        assert(out@[before.len() as int] == candidate);
                        assert forall|a: int, b: int| 0 <= a < b < out@.len() implies !same_world(&out@[a], &out@[b]) by {
                            assert(out@[a] == before[a]);
                            if b < before.len() {
                                assert(out@[b] == before[b]);
                            }
                        }
                        assert forall|q: int| 0 <= q < out@.len() implies (#[trigger] out@[q]).wf() by {
                            if q < before.len() {
                                assert(out@[q] == before[q]);
                            }
                        }
                        assert(crate::known_search::kviews(out@) =~= crate::known_search::kviews(before).push(
                            crate::known_search::kview(&candidate),
                        ));
                    }
                },
            }
            proof {
                assert forall|jj: int| 0 <= jj < out@.len() implies 0 <= #[trigger] origin[jj] < ws.len() && reduced(&out@[jj], &ws[origin[jj]], ws) by {
                    if jj < before.len() {
                        assert(out@[jj] == before[jj]);
                    }
                }
                assert forall|k: int| 0 <= k < i + 1 implies 0 <= #[trigger] placed[k] < out@.len() && reduced(&out@[placed[k]], &ws[k], ws) by {
                    if k < i {
                        assert(out@[placed[k]] == before[placed[k]]);
                    }
                }
            }
            i = i + 1;
        }
        proof {
            lemma_revealed(ws, out@, origin, placed);
            assert(rmap.take(ws.len() as int) =~= rmap);
        }
        let s = KnownInvisibleState { worlds: out, free_white_move, rule };
        assert(s.worlds@ == out@);
        s
    }

    /// Number of candidate worlds.
    pub fn world_count(&self) -> (r: usize)
        ensures
            r == self.worlds@.len(),
    {
        self.worlds.len()
    }

    /// The side to move.
    pub fn turn(&self) -> (c: Color)
        requires
            self.worlds@.len() > 0,
        ensures
            c == self.worlds@[0].position@.turn,
    {
        self.worlds[0].position.turn
    }
}

/// Whether `p` is a legal initial position for the rule: no two pawns on
/// a file nor stuck piece, one white king and the right black kings, and
/// neither king left in check against the rules.
pub fn legal_initial_world(p: &Position, rule: MateRule) -> (r: bool)
    requires
        p.wf(),
    ensures
        r == acceptable(p@, rule),
{
    if p.is_illegal_initial_position() {
        return false;
    }
    let white_kings = count_kind(p, Color::White, Kind::King);
    let black_kings = count_kind(p, Color::Black, Kind::King);
    if white_kings != 1 {
        return false;
    }
    match rule {
        MateRule::HelpSelfmate => {
            if black_kings != 1 {
                return false;
            }
        },
        _ => {
            if black_kings > 1 {
                return false;
            }
        },
    }
    let black_checked = in_check_exec(p, Color::Black);
    let white_checked = in_check_exec(p, Color::White);
    !((black_checked && white_checked) || (p.turn.is_black() && white_checked) || (p.turn.is_white()
        && black_checked))
}

/// The pieces of a kind in use: in both hands and on the board, promoted
/// ones included.
pub open spec fn inventory(p: PositionView, k: Kind) -> nat {
    p.hand(Color::Black, k) + p.hand(Color::White, k) + board_kinds(p, with_promoted(k))
}

/// Every kind the invisible pieces need is in use at most as often as the
/// set holds.
pub open spec fn inventory_ok(p: PositionView, specs: Seq<KnownInvisibleSpec>) -> bool {
    forall|k: Kind| needed(specs, k, specs.len() as int) > 0 ==> #[trigger] inventory(p, k) <= k.spec_max_count()
}

fn inventory_count(p: &Position, k: Kind) -> (r: usize)
    requires
        p.wf(),
        hands_bounded(p),
    ensures
        r == inventory(p@, k),
{
    proof {
        lemma_hands_bounded(p, Color::Black, k);
        lemma_hands_bounded(p, Color::White, k);
    }
    p.hands.count(Color::Black, k) + p.hands.count(Color::White, k) + count_kind_on_board(p, k) as usize
}

/// A kind-known invisible piece of a problem: its side and kind.
#[derive(Clone, Copy, Debug, PartialEq, Eq, Structural, PartialOrd, Ord)]
pub struct KnownInvisibleSpec {
    pub color: Color,
    pub kind: Kind,
}

/// Number of the first `n` specs whose unpromoted kind is `k`.
pub open spec fn needed(specs: Seq<KnownInvisibleSpec>, k: Kind, n: int) -> nat
    decreases n,
{
    if n <= 0 {
        0
    } else {
        needed(specs, k, n - 1) + if specs[n - 1].kind.spec_maybe_unpromote() == k {
            1nat
        } else {
            0nat
        }
    }
}

/// The pieces of kind `k` that white's hand can give.
pub open spec fn white_limit(p: PositionView, k: Kind) -> nat {
    if k.spec_is_hand_piece() {
        p.hand(Color::White, k)
    } else {
        0
    }
}

/// The pieces of kind `k` left in the box.
pub open spec fn box_limit(p: PositionView, k: Kind) -> nat {
    (k.spec_max_count() - inventory(p, k)) as nat
}

/// The invisible pieces needed, counted kind by kind over the first `i`
/// kinds in kind order, among the first `n` pieces.
pub open spec fn needed_through(specs: Seq<KnownInvisibleSpec>, n: int, i: int) -> nat
    decreases i,
{
    if i <= 0 {
        0
    } else {
        needed_through(specs, n, i - 1) + needed(specs, crate::piece::spec_kind_of(i - 1), n)
    }
}

proof fn lemma_kind_of_distinct(a: int, b: int)
    requires
        0 <= a < 14,
        0 <= b < 14,
        crate::piece::spec_kind_of(a) == crate::piece::spec_kind_of(b),
    ensures
        a == b,
{
}

proof fn lemma_kind_of_onto(k: Kind)
    ensures
        exists|j: int| 0 <= j < 14 && #[trigger] crate::piece::spec_kind_of(j) == k,
{
    match k {
        Kind::Pawn => assert(crate::piece::spec_kind_of(0) == k),
        Kind::Lance => assert(crate::piece::spec_kind_of(1) == k),
        Kind::Knight => assert(crate::piece::spec_kind_of(2) == k),
        Kind::Silver => assert(crate::piece::spec_kind_of(3) == k),
        Kind::Gold => assert(crate::piece::spec_kind_of(4) == k),
        Kind::Bishop => assert(crate::piece::spec_kind_of(5) == k),
        Kind::Rook => assert(crate::piece::spec_kind_of(6) == k),
        Kind::King => assert(crate::piece::spec_kind_of(7) == k),
        Kind::ProPawn => assert(crate::piece::spec_kind_of(8) == k),
        Kind::ProLance => assert(crate::piece::spec_kind_of(9) == k),
        Kind::ProKnight => assert(crate::piece::spec_kind_of(10) == k),
        Kind::ProSilver => assert(crate::piece::spec_kind_of(11) == k),
        Kind::ProBishop => assert(crate::piece::spec_kind_of(12) == k),
        Kind::ProRook => assert(crate::piece::spec_kind_of(13) == k),
    }
}

proof fn lemma_needed_through_step(specs: Seq<KnownInvisibleSpec>, n: int, i: int)
    requires
        1 <= n <= specs.len(),
        0 <= i <= 14,
    ensures
        needed_through(specs, n, i) == needed_through(specs, n - 1, i) + (if exists|j: int|
            0 <= j < i && #[trigger] crate::piece::spec_kind_of(j) == specs[n - 1].kind.spec_maybe_unpromote() {
            1nat
        } else {
            0nat
        }),
    decreases i,
{
    let u = specs[n - 1].kind.spec_maybe_unpromote();
    if i > 0 {
        lemma_needed_through_step(specs, n, i - 1);
        if crate::piece::spec_kind_of(i - 1) == u {
            assert forall|j: int| 0 <= j < i - 1 implies #[trigger] crate::piece::spec_kind_of(j) != u by {
                if crate::piece::spec_kind_of(j) == u {
                    lemma_kind_of_distinct(j, i - 1);
                }
            }
        }
        if exists|j: int| 0 <= j < i - 1 && #[trigger] crate::piece::spec_kind_of(j) == u {
            let j = choose|j: int| 0 <= j < i - 1 && #[trigger] crate::piece::spec_kind_of(j) == u;
            assert(0 <= j < i && crate::piece::spec_kind_of(j) == u);
        }
        if crate::piece::spec_kind_of(i - 1) == u {
            assert(0 <= i - 1 < i && crate::piece::spec_kind_of(i - 1) == u);
        }
    }
}

/// Counted kind by kind over all kinds, the needed pieces are all the pieces.
proof fn lemma_needed_through_all(specs: Seq<KnownInvisibleSpec>, n: int)
    requires
        0 <= n <= specs.len(),
    ensures
        needed_through(specs, n, 14) == n,
    decreases n,
{
    if n == 0 {
        lemma_needed_through_zero(specs, 14);
    } else {
        lemma_needed_through_all(specs, n - 1);
        lemma_needed_through_step(specs, n, 14);
        lemma_kind_of_onto(specs[n - 1].kind.spec_maybe_unpromote());
    }
}

proof fn lemma_needed_through_zero(specs: Seq<KnownInvisibleSpec>, i: int)
    ensures
        needed_through(specs, 0, i) == 0,
    decreases i,
{
    if i > 0 {
        lemma_needed_through_zero(specs, i - 1);
    }
}

/// When no kind is short, each kind is needed at most 18 times.
proof fn lemma_needed_within(p: PositionView, specs: Seq<KnownInvisibleSpec>, i: int)
    requires
        0 <= i <= 14,
        short_kind_upto(p, specs, i) is None,
        inventory_ok(p, specs),
    ensures
        needed_through(specs, specs.len() as int, i) <= 18 * i,
    decreases i,
{
    if i > 0 {
        lemma_needed_within(p, specs, i - 1);
        let k = crate::piece::spec_kind_of(i - 1);
        let n = needed(specs, k, specs.len() as int);
        if n > 0 {
            assert(inventory(p, k) <= k.spec_max_count());
            assert(white_limit(p, k) <= p.hand(Color::White, k));
            assert(k.spec_max_count() <= 18);
        }
    }
}

/// When no kind is short, there are at most a few hundred invisible pieces.
proof fn lemma_few_pieces(p: PositionView, specs: Seq<KnownInvisibleSpec>)
    requires
        short_kind_upto(p, specs, 14) is None,
        inventory_ok(p, specs),
    ensures
        specs.len() <= 252,
{
    lemma_needed_within(p, specs, 14);
    lemma_needed_through_all(specs, specs.len() as int);
}

/// For each kind the invisible pieces need, in kind order: the kind, the
/// fewest and the most of them taken from white's hand (the rest come from
/// the box).
pub open spec fn allocations_upto(p: PositionView, specs: Seq<KnownInvisibleSpec>, i: int) -> Seq<(Kind, nat, nat)>
    decreases i,
{
    if i <= 0 {
        Seq::empty()
    } else {
        let k = crate::piece::spec_kind_of(i - 1);
        let n = needed(specs, k, specs.len() as int);
        let rest = allocations_upto(p, specs, i - 1);
        if n == 0 {
            rest
        } else {
            let lo: nat = if n >= box_limit(p, k) {
                (n - box_limit(p, k)) as nat
            } else {
                0
            };
            let hi: nat = if n <= white_limit(p, k) {
                n
            } else {
                white_limit(p, k)
            };
            rest.push((k, lo, hi))
        }
    }
}

/// The first kind, if any, of which white's hand and the box together hold
/// fewer than the invisible pieces need.
pub open spec fn short_kind_upto(p: PositionView, specs: Seq<KnownInvisibleSpec>, i: int) -> Option<Kind>
    decreases i,
{
    if i <= 0 {
        None
    } else {
        match short_kind_upto(p, specs, i - 1) {
            Some(k) => Some(k),
            None => {
                let k = crate::piece::spec_kind_of(i - 1);
                if needed(specs, k, specs.len() as int) > white_limit(p, k) + box_limit(p, k) {
                    Some(k)
                } else {
                    None
                }
            },
        }
    }
}

/// `p` with `n` pieces of kind `k` taken from white's hand.
pub open spec fn take_white(p: PositionView, k: Kind, n: nat) -> PositionView {
    if n == 0 {
        p
    } else {
        PositionView { hands: p.hands.update(crate::position::hand_slot(Color::White, k), (p.hand(Color::White, k) - n) as u32), ..p }
    }
}

/// The positions of every way of taking, for the allocations from `i` on,
/// between their fewest and most pieces from white's hand.
pub open spec fn allocated_from(p: PositionView, allocs: Seq<(Kind, nat, nat)>, i: int) -> Seq<PositionView>
    decreases allocs.len() - i, (if 0 <= i < allocs.len() { allocs[i].2 + 2 } else { 0 }) as nat,
{
    if i < 0 || i >= allocs.len() {
        seq![p]
    } else {
        counts_from(p, allocs, i, allocs[i].1)
    }
}

/// The positions of `allocated_from` taking `c` or more pieces for the
/// `i`-th allocation.
pub open spec fn counts_from(p: PositionView, allocs: Seq<(Kind, nat, nat)>, i: int, c: nat) -> Seq<PositionView>
    decreases allocs.len() - i, (if 0 <= i < allocs.len() && c <= allocs[i].2 { allocs[i].2 + 1 - c } else { 0 }) as nat,
{
    if i < 0 || i >= allocs.len() || c > allocs[i].2 {
        Seq::empty()
    } else {
        allocated_from(take_white(p, allocs[i].0, c), allocs, i + 1) + counts_from(p, allocs, i, c + 1)
    }
}

/// Why a kind-known invisible problem was refused.
#[derive(Clone, Debug, PartialEq, Eq)]
pub enum KnownInvisibleError {
    /// The SFEN text, as given, cannot be read.
    Sfen(String),
    /// The best-mate rule is not available with these pieces.
    BestMateUnsupported,
    /// A kind name, as given, is not known.
    UnknownKind(String),
    /// More invisible pieces than allowed.
    TooMany,
    /// White's hand and the box do not hold enough pieces of a kind.
    NotEnough(Kind),
    /// More candidate worlds than the search takes.
    TooManyWorlds,
    /// No placement is consistent with a legal initial position.
    NoWorld,
    /// A move of a solution leads to no candidate world.
    Unreplayable,
}

/// The name of a kind as its variant is written, `Lance` for a lance.
pub open spec fn kind_variant_name(k: Kind) -> Seq<char> {
    match k {
        Kind::Pawn => "Pawn"@,
        Kind::Lance => "Lance"@,
        Kind::Knight => "Knight"@,
        Kind::Silver => "Silver"@,
        Kind::Gold => "Gold"@,
        Kind::Bishop => "Bishop"@,
        Kind::Rook => "Rook"@,
        Kind::King => "King"@,
        Kind::ProPawn => "ProPawn"@,
        Kind::ProLance => "ProLance"@,
        Kind::ProKnight => "ProKnight"@,
        Kind::ProSilver => "ProSilver"@,
        Kind::ProBishop => "ProBishop"@,
        Kind::ProRook => "ProRook"@,
    }
}

fn kind_variant_text(k: Kind) -> (r: &'static str)
    ensures
        r@ == kind_variant_name(k),
{
    match k {
        Kind::Pawn => "Pawn",
        Kind::Lance => "Lance",
        Kind::Knight => "Knight",
        Kind::Silver => "Silver",
        Kind::Gold => "Gold",
        Kind::Bishop => "Bishop",
        Kind::Rook => "Rook",
        Kind::King => "King",
        Kind::ProPawn => "ProPawn",
        Kind::ProLance => "ProLance",
        Kind::ProKnight => "ProKnight",
        Kind::ProSilver => "ProSilver",
        Kind::ProBishop => "ProBishop",
        Kind::ProRook => "ProRook",
    }
}

/// The message of an error.
pub open spec fn known_error_text(e: KnownInvisibleError) -> Seq<char> {
    match e {
        KnownInvisibleError::Sfen(t) => "SFENを解釈できません: "@ + t@,
        KnownInvisibleError::BestMateUnsupported => "最善詰は現在、覆面駒でのみ利用できます"@,
        KnownInvisibleError::UnknownKind(t) => "未知の駒種 `"@ + t@ + "` です"@,
        KnownInvisibleError::TooMany => "透明駒（駒種指定）は合計2枚まで指定できます"@,
        KnownInvisibleError::NotEnough(k) => "透明駒に割り当てる"@ + kind_variant_name(k) + "が受方持駒または駒箱に足りません"@,
        KnownInvisibleError::TooManyWorlds => "候補世界が上限の20000件を超えました"@,
        KnownInvisibleError::NoWorld => "初形の合法性と矛盾しない透明駒の配置がありません"@,
        KnownInvisibleError::Unreplayable => "解手順を候補世界へ適用できません"@,
    }
}

impl KnownInvisibleError {
    /// The message for this error.
    pub fn to_string(&self) -> (r: String)
        ensures
            r@ == known_error_text(*self),
    {
        let mut s = String::new();
        match self {
            KnownInvisibleError::Sfen(t) => {
                s.append("SFENを解釈できません: ");
                s.append(t.as_str());
            },
            KnownInvisibleError::BestMateUnsupported => {
                s.append("最善詰は現在、覆面駒でのみ利用できます");
            },
            KnownInvisibleError::UnknownKind(t) => {
                s.append("未知の駒種 `");
                s.append(t.as_str());
                s.append("` です");
            },
            KnownInvisibleError::TooMany => {
                s.append("透明駒（駒種指定）は合計2枚まで指定できます");
            },
            KnownInvisibleError::NotEnough(k) => {
                s.append("透明駒に割り当てる");
                s.append(kind_variant_text(*k));
                s.append("が受方持駒または駒箱に足りません");
            },
            KnownInvisibleError::TooManyWorlds => {
                s.append("候補世界が上限の20000件を超えました");
            },
            KnownInvisibleError::NoWorld => {
                s.append("初形の合法性と矛盾しない透明駒の配置がありません");
            },
            KnownInvisibleError::Unreplayable => {
                s.append("解手順を候補世界へ適用できません");
            },
        }
        s
    }
}

/// The largest number of kind-known invisible pieces.
pub const MAX_KNOWN_INVISIBLES: usize = 2;

/// The largest number of candidate worlds.
pub const MAX_WORLDS: usize = 20000;

proof fn lemma_allocations_feasible(p: PositionView, specs: Seq<KnownInvisibleSpec>, i: int)
    requires
        0 <= i <= 14,
    ensures
        forall|j: int|
            0 <= j < allocations_upto(p, specs, i).len() ==> (#[trigger] allocations_upto(p, specs, i)[j]).2 <= white_limit(
                p,
                allocations_upto(p, specs, i)[j].0,
            ) && allocations_upto(p, specs, i)[j].0.spec_index() < i,
        forall|a: int, b: int|
            0 <= a < b < allocations_upto(p, specs, i).len() ==> (#[trigger] allocations_upto(p, specs, i)[a]).0.spec_index()
                < (#[trigger] allocations_upto(p, specs, i)[b]).0.spec_index(),
    decreases i,
{
    if i > 0 {
        lemma_allocations_feasible(p, specs, i - 1);
        let rest = allocations_upto(p, specs, i - 1);
        let all = allocations_upto(p, specs, i);
        assert forall|j: int| 0 <= j < all.len() implies (#[trigger] all[j]).2 <= white_limit(p, all[j].0) && all[j].0.spec_index() < i by {
            if j < rest.len() {
                assert(all[j] == rest[j]);
            }
        }
        assert forall|a: int, b: int| 0 <= a < b < all.len() implies (#[trigger] all[a]).0.spec_index() < (#[trigger] all[b]).0.spec_index() by {
            assert(all[a] == rest[a]);
            if b < rest.len() {
                assert(all[b] == rest[b]);
            }
        }
    }
}

fn needed_exec(specs: &Vec<KnownInvisibleSpec>, k: Kind) -> (r: usize)
    ensures
        r == needed(specs@, k, specs@.len() as int),
        r <= specs@.len(),
{
    let mut n: usize = 0;
    let mut i: usize = 0;
    while i < specs.len()
        invariant
            i <= specs@.len(),
            n == needed(specs@, k, i as int),
            n <= i,
        decreases specs@.len() - i,
    {
        if specs[i].kind.maybe_unpromote() == k {
            n = n + 1;
        }
        i = i + 1;
    }
    n
}

/// The views of a list of positions.
pub open spec fn views(v: Seq<Position>) -> Seq<PositionView> {
    Seq::new(v.len(), |i: int| v[i]@)
}

/// The allocations as exec values.
pub open spec fn allocs_view(v: Seq<(Kind, usize, usize)>) -> Seq<(Kind, nat, nat)> {
    Seq::new(v.len(), |i: int| (v[i].0, v[i].1 as nat, v[i].2 as nat))
}

fn allocate_inner(p: &Position, allocs: &Vec<(Kind, usize, usize)>, i: usize, out: &mut Vec<Position>)
    requires
        p.wf(),
        hands_bounded(p),
        i <= allocs@.len(),
        forall|j: int| i <= j < allocs@.len() ==> (#[trigger] allocs@[j]).2 <= white_limit(p@, allocs@[j].0),
        forall|a: int, b: int| i <= a < b < allocs@.len() ==> (#[trigger] allocs@[a]).0 != (#[trigger] allocs@[b]).0,
        forall|j: int| 0 <= j < old(out)@.len() ==> (#[trigger] old(out)@[j]).wf() && hands_bounded(&old(out)@[j]),
    ensures
        views(final(out)@) == views(old(out)@) + allocated_from(p@, allocs_view(allocs@), i as int),
        forall|j: int| 0 <= j < final(out)@.len() ==> (#[trigger] final(out)@[j]).wf() && hands_bounded(&final(out)@[j]),
    decreases allocs@.len() - i, 1nat,
{
    let ghost av = allocs_view(allocs@);
    if i >= allocs.len() {
        let q = p.copy();
        let ghost before = out@;
        out.push(q);
        proof {
            assert(views(out@) =~= views(before) + seq![p@]);
            assert forall|j: int| 0 <= j < out@.len() implies (#[trigger] out@[j]).wf() && hands_bounded(&out@[j]) by {
                if j < before.len() {
                    assert(out@[j] == before[j]);
                }
            }
        }
        return ;
    }
    let (kind, lo, hi) = allocs[i];
    proof {
        assert(av[i as int] == (kind, lo as nat, hi as nat));
    }
    if lo > hi {
        proof {
            assert(counts_from(p@, av, i as int, lo as nat) =~= Seq::<PositionView>::empty());
            assert(views(out@) + Seq::<PositionView>::empty() =~= views(out@));
        }
        return ;
    }
    let next_i = i + 1;
    let mut c: usize = lo;
    while c <= hi
        invariant
            p.wf(),
            hands_bounded(p),
            i < allocs@.len(),
            next_i == i + 1,
            av == allocs_view(allocs@),
            av[i as int] == (kind, lo as nat, hi as nat),
            hi <= white_limit(p@, kind),
            forall|j: int| i < j < allocs@.len() ==> (#[trigger] allocs@[j]).2 <= white_limit(p@, allocs@[j].0),
            forall|j: int| i < j < allocs@.len() ==> (#[trigger] allocs@[j]).0 != kind,
            forall|a: int, b: int| i <= a < b < allocs@.len() ==> (#[trigger] allocs@[a]).0 != (#[trigger] allocs@[b]).0,
            forall|j: int| 0 <= j < out@.len() ==> (#[trigger] out@[j]).wf() && hands_bounded(&out@[j]),
            lo <= c <= hi,
            views(out@) + counts_from(p@, av, i as int, c as nat) == views(old(out)@) + allocated_from(p@, av, i as int),
        decreases hi - c,
    {
        let mut q = p.copy();
        if c > 0 {
            let slot = 7 + kind.index();
            let v = q.hands.counts[slot];
            q.hands.counts.set(slot, v - c as u32);
        }
        proof {
            if c > 0 {
                assert(kind.spec_is_hand_piece());
                assert(q@.hands =~= p@.hands.update(crate::position::hand_slot(Color::White, kind), (p@.hand(Color::White, kind) - c) as u32));
            } else {
                assert(q@ =~= p@);
            }
            assert(q@ == take_white(p@, kind, c as nat));
            assert forall|s: int| 0 <= s < q.hands.counts@.len() implies #[trigger] q.hands.counts@[s] <= 100000 by {
                assert(p.hands.counts@[s] <= 100000);
            }
            assert forall|j: int| i + 1 <= j < allocs@.len() implies (#[trigger] allocs@[j]).2 <= white_limit(q@, allocs@[j].0) by {
                assert(allocs@[j].0 != kind);
                assert(allocs@[j].0.spec_index() != kind.spec_index());
            }
        }
        allocate_inner(&q, allocs, next_i, out);
        proof {
            assert(counts_from(p@, av, i as int, c as nat) == allocated_from(take_white(p@, kind, c as nat), av, i + 1)
                + counts_from(p@, av, i as int, (c + 1) as nat));
        }
        if c == hi {
            proof {
                assert(counts_from(p@, av, i as int, (c + 1) as nat) =~= Seq::<PositionView>::empty());
                assert(views(out@) + Seq::<PositionView>::empty() =~= views(out@));
            }
            return ;
        }
        c = c + 1;
    }
}

proof fn lemma_short_stays(p: PositionView, specs: Seq<KnownInvisibleSpec>, i: int, j: int)
    requires
        0 <= i <= j,
        short_kind_upto(p, specs, i) is Some,
    ensures
        short_kind_upto(p, specs, j) == short_kind_upto(p, specs, i),
    decreases j - i,
{
    if j > i {
        lemma_short_stays(p, specs, i, j - 1);
    }
}

/// Whether every kind the invisible pieces need is in use at most as often
/// as the set holds: what enumerating asks of the base position.
pub fn inventory_fits(base: &Position, specs: &Vec<KnownInvisibleSpec>) -> (r: bool)
    requires
        base.wf(),
        hands_bounded(base),
    ensures
        r == inventory_ok(base@, specs@),
{
    let mut i: usize = 0;
    while i < 14
        invariant
            base.wf(),
            hands_bounded(base),
            i <= 14,
            forall|j: int|
                0 <= j < i && needed(specs@, crate::piece::spec_kind_of(j), specs@.len() as int) > 0 ==> #[trigger] inventory(
                    base@,
                    crate::piece::spec_kind_of(j),
                ) <= crate::piece::spec_kind_of(j).spec_max_count(),
        decreases 14 - i,
    {
        let kind = crate::piece::kind_of(i);
        if needed_exec(specs, kind) > 0 {
            let used = inventory_count(base, kind);
            if used > kind.max_count() as usize {
                return false;
            }
        }
        i = i + 1;
    }
    proof {
        assert forall|k: Kind| needed(specs@, k, specs@.len() as int) > 0 implies #[trigger] inventory(base@, k) <= k.spec_max_count() by {
            assert(crate::piece::spec_kind_of(k.spec_index() as int) == k);
            assert(inventory(base@, crate::piece::spec_kind_of(k.spec_index() as int)) <= crate::piece::spec_kind_of(k.spec_index() as int).spec_max_count());
        }
    }
    true
}

/// Allocates the pieces the invisible pieces need from white's hand and the
/// box: every way of taking between the fewest and most pieces of each kind
/// from white's hand, or the first kind short of pieces.
pub fn allocate_invisible_inventory(base: &Position, specs: &Vec<KnownInvisibleSpec>) -> (r: Result<
    Vec<Position>,
    KnownInvisibleError,
>)
    requires
        base.wf(),
        hands_bounded(base),
        inventory_ok(base@, specs@),
    ensures
        match r {
            Ok(v) => short_kind_upto(base@, specs@, 14) is None && views(v@) == allocated_from(
                base@,
                allocations_upto(base@, specs@, 14),
                0,
            ) && forall|j: int| 0 <= j < v@.len() ==> (#[trigger] v@[j]).wf() && hands_bounded(&v@[j]),
            Err(e) => short_kind_upto(base@, specs@, 14) matches Some(k) && e == KnownInvisibleError::NotEnough(k),
        },
{
    let mut allocs: Vec<(Kind, usize, usize)> = Vec::new();
    let mut i: usize = 0;
    while i < 14
        invariant
            base.wf(),
            hands_bounded(base),
            inventory_ok(base@, specs@),
            i <= 14,
            short_kind_upto(base@, specs@, i as int) is None,
            allocs_view(allocs@) == allocations_upto(base@, specs@, i as int),
        decreases 14 - i,
    {
        let kind = crate::piece::kind_of(i);
        let n = needed_exec(specs, kind);
        if n > 0 {
            let white: usize = if kind.is_hand_piece() {
                proof {
                    lemma_hands_bounded(base, Color::White, kind);
                }
                base.hands.count(Color::White, kind)
            } else {
                0
            };
            let used = inventory_count(base, kind);
            proof {
                assert(inventory(base@, kind) <= kind.spec_max_count());
            }
            let boxed: usize = kind.max_count() as usize - used;
            if n > white + boxed {
                proof {
                    assert(short_kind_upto(base@, specs@, i + 1) == Some(kind));
                    lemma_short_stays(base@, specs@, i + 1, 14);
                }
                return Err(KnownInvisibleError::NotEnough(kind));
            }
            let lo: usize = if n >= boxed {
                n - boxed
            } else {
                0
            };
            let hi: usize = if n <= white {
                n
            } else {
                white
            };
            let ghost before = allocs@;
            allocs.push((kind, lo, hi));
            proof {
                assert(allocs_view(allocs@) =~= allocs_view(before).push((kind, lo as nat, hi as nat)));
            }
        } else {
            proof {
                assert(allocs_view(allocs@) =~= allocations_upto(base@, specs@, i + 1));
            }
        }
        i = i + 1;
    }
    proof {
        lemma_allocations_feasible(base@, specs@, 14);
        let av = allocs_view(allocs@);
        assert forall|j: int| 0 <= j < allocs@.len() implies (#[trigger] allocs@[j]).2 <= white_limit(base@, allocs@[j].0) by {
            assert(av[j] == (allocs@[j].0, allocs@[j].1 as nat, allocs@[j].2 as nat));
        }
        assert forall|a: int, b: int| 0 <= a < b < allocs@.len() implies (#[trigger] allocs@[a]).0 != (#[trigger] allocs@[b]).0 by {
            assert(av[a].0 == allocs@[a].0);
            assert(av[b].0 == allocs@[b].0);
        }
    }
    let mut out: Vec<Position> = Vec::new();
    allocate_inner(base, &allocs, 0, &mut out);
    proof {
        assert(views(Seq::<Position>::empty()) + allocated_from(base@, allocs_view(allocs@), 0) =~= allocated_from(
            base@,
            allocs_view(allocs@),
            0,
        ));
    }
    Ok(out)
}

/// The rank of a location: squares by index, then black's hand, then
/// white's.
pub open spec fn location_key(l: InvisibleLocation) -> nat {
    match l {
        InvisibleLocation::Board(sq) => sq.idx as nat,
        InvisibleLocation::Hand(c) => 81 + c.spec_index(),
    }
}

/// The `raw`-th location tried for a piece of `spec`: square `raw`, or the
/// owner's hand for 81.
pub open spec fn raw_location(spec: KnownInvisibleSpec, raw: int) -> InvisibleLocation {
    if raw == 81 {
        InvisibleLocation::Hand(spec.color)
    } else {
        InvisibleLocation::Board(Square { idx: raw as u8 })
    }
}

/// The piece of the `index`-th spec at the `raw`-th location may be placed:
/// a hand only for a kind that can be held; a square holding no piece and
/// no earlier invisible piece; and, for a spec equal to the one before, no
/// location ranked before that piece's, so that the same set of pieces is
/// placed once.
pub open spec fn location_open(
    p: PositionView,
    specs: Seq<KnownInvisibleSpec>,
    index: int,
    pieces: Seq<InvisiblePiece>,
    raw: int,
) -> bool {
    let spec = specs[index];
    let loc = raw_location(spec, raw);
    &&& raw == 81 ==> spec.kind.spec_is_hand_piece()
    &&& raw < 81 ==> !(p.cell(raw) is Piece) && forall|q: int| 0 <= q < pieces.len() ==> #[trigger] pieces[q].location != loc
    &&& !(index > 0 && specs[index - 1] == spec && pieces.len() > 0 && location_key(loc) < location_key(pieces.last().location))
}

/// The piece of a spec at a location.
pub open spec fn spec_piece(spec: KnownInvisibleSpec, loc: InvisibleLocation) -> InvisiblePiece {
    InvisiblePiece { color: spec.color, kind: spec.kind, location: loc }
}

/// Every placement of the specs from `index` on after the pieces placed so
/// far, in the order of locations tried.
pub open spec fn placements(p: PositionView, specs: Seq<KnownInvisibleSpec>, index: int, pieces: Seq<InvisiblePiece>) -> Seq<
    Seq<InvisiblePiece>,
>
    decreases specs.len() - index, 83nat,
{
    if index < 0 || index >= specs.len() {
        seq![pieces]
    } else {
        placements_from(p, specs, index, pieces, 0)
    }
}

/// The placements of `placements` whose piece of the `index`-th spec is at
/// the `raw`-th location or a later one.
pub open spec fn placements_from(
    p: PositionView,
    specs: Seq<KnownInvisibleSpec>,
    index: int,
    pieces: Seq<InvisiblePiece>,
    raw: int,
) -> Seq<Seq<InvisiblePiece>>
    decreases specs.len() - index, (if 0 <= raw <= 82 { 82 - raw } else { 0 }) as nat,
{
    if index < 0 || index >= specs.len() || raw < 0 || raw > 81 {
        Seq::empty()
    } else {
        (if location_open(p, specs, index, pieces, raw) {
            placements(p, specs, index + 1, pieces.push(spec_piece(specs[index], raw_location(specs[index], raw))))
        } else {
            Seq::empty()
        }) + placements_from(p, specs, index, pieces, raw + 1)
    }
}

/// The position with the invisible pieces placed: on their squares, or in
/// their hands.
pub open spec fn placed(p: PositionView, pieces: Seq<InvisiblePiece>) -> PositionView
    decreases pieces.len(),
{
    if pieces.len() == 0 {
        p
    } else {
        let q = placed(p, pieces.drop_last());
        let x = pieces.last();
        match x.location {
            InvisibleLocation::Board(sq) => PositionView {
                board: q.board.update(sq.idx as int, Cell::Piece(x.color, x.kind)),
                ..q
            },
            InvisibleLocation::Hand(c) => if x.kind.spec_is_hand_piece() {
                PositionView {
                    hands: q.hands.update(crate::position::hand_slot(c, x.kind), (q.hand(c, x.kind) + 1) as u32),
                    ..q
                }
            } else {
                q
            },
        }
    }
}

/// The world `w` is the placement `pieces` on `p`.
pub open spec fn is_placement(w: &InvisibleWorld, p: PositionView, pieces: Seq<InvisiblePiece>) -> bool {
    w.position@ == placed(p, pieces) && same_pieces(w.invisibles@, pieces)
}

/// The world `w` is a legal placement among `cands` on `p`.
pub open spec fn drawn(w: &InvisibleWorld, p: PositionView, cands: Seq<Seq<InvisiblePiece>>, rule: MateRule) -> bool {
    exists|c: int| 0 <= c < cands.len() && #[trigger] is_placement(w, p, cands[c]) && acceptable(placed(p, cands[c]), rule)
}

/// The placement `pieces` on `p` shows among the worlds `ws`.
pub open spec fn shown(ws: Seq<InvisibleWorld>, p: PositionView, pieces: Seq<InvisiblePiece>) -> bool {
    exists|j: int| 0 <= j < ws.len() && #[trigger] is_placement(&ws[j], p, pieces)
}

/// The worlds of `ws` from index `from` on are placements of `cands` on `p`
/// that are legal starts for the rule.
pub open spec fn drawn_from(ws: Seq<InvisibleWorld>, from: int, p: PositionView, cands: Seq<Seq<InvisiblePiece>>, rule: MateRule) -> bool {
    forall|j: int| from <= j < ws.len() ==> #[trigger] drawn(&ws[j], p, cands, rule)
}

/// Every legal placement of `cands` on `p` shows among the worlds `ws`.
pub open spec fn all_drawn(ws: Seq<InvisibleWorld>, p: PositionView, cands: Seq<Seq<InvisiblePiece>>, rule: MateRule) -> bool {
    forall|c: int| 0 <= c < cands.len() && acceptable(placed(p, cands[c]), rule) ==> #[trigger] shown(ws, p, cands[c])
}

/// No world shows twice.
pub open spec fn distinct_worlds(ws: Seq<InvisibleWorld>) -> bool {
    forall|a: int, b: int| 0 <= a < b < ws.len() ==> !same_world(&ws[a], &ws[b])
}

/// Hands hold at most a hundred thousand pieces of each kind and `extra`
/// more.
pub open spec fn hands_within(p: PositionView, extra: nat) -> bool {
    forall|s: int| 0 <= s < p.hands.len() ==> #[trigger] p.hands[s] <= 100000 + extra
}

fn place_pieces(base: &Position, pieces: &Vec<InvisiblePiece>) -> (r: Position)
    requires
        base.wf(),
        hands_bounded(base),
        pieces_wf(pieces@),
        pieces@.len() <= 1000000,
    ensures
        r.wf(),
        r@ == placed(base@, pieces@),
{
    let mut q = base.copy();
    let mut i: usize = 0;
    proof {
        assert(pieces@.take(0) =~= Seq::<InvisiblePiece>::empty());
        assert forall|s: int| 0 <= s < q@.hands.len() implies #[trigger] q@.hands[s] <= 100000 + 0 by {
            assert(base.hands.counts@[s] <= 100000);
        }
    }
    while i < pieces.len()
        invariant
            q.wf(),
            pieces_wf(pieces@),
            pieces@.len() <= 1000000,
            i <= pieces@.len(),
            q@ == placed(base@, pieces@.take(i as int)),
            hands_within(q@, i as nat),
        decreases pieces@.len() - i,
    {
        let x = pieces[i];
        proof {
            assert(pieces@.take(i + 1).drop_last() =~= pieces@.take(i as int));
            assert(pieces@.take(i + 1).last() == x);
            assert(invisible_location_wf(pieces@[i as int].location));
        }
        match x.location {
            InvisibleLocation::Board(sq) => {
                q.set(sq, x.color, x.kind);
                proof {
                    assert(q@.board =~= placed(base@, pieces@.take(i + 1)).board);
                }
            },
            InvisibleLocation::Hand(c) => {
                if x.kind.is_hand_piece() {
                    let slot = c.index() * 7 + x.kind.index();
                    let v = q.hands.counts[slot];
                    proof {
                        assert(q@.hands[slot as int] <= 100000 + i);
                    }
                    q.hands.counts.set(slot, v + 1);
                    proof {
                        assert(q@.hands =~= placed(base@, pieces@.take(i + 1)).hands);
                    }
                }
            },
        }
        i = i + 1;
    }
    proof {
        assert(pieces@.take(pieces@.len() as int) =~= pieces@);
    }
    q
}

/// The worlds of `old` stay first in `new`.
pub open spec fn keeps_prefix(old: Seq<InvisibleWorld>, new: Seq<InvisibleWorld>) -> bool {
    old.len() <= new.len() && forall|j: int| 0 <= j < old.len() ==> #[trigger] new[j] == old[j]
}

/// Every world is well formed.
pub open spec fn all_wf(ws: Seq<InvisibleWorld>) -> bool {
    forall|j: int| 0 <= j < ws.len() ==> (#[trigger] ws[j]).wf()
}

fn location_open_exec(
    base: &Position,
    specs: &Vec<KnownInvisibleSpec>,
    index: usize,
    pieces: &Vec<InvisiblePiece>,
    raw: usize,
) -> (r: bool)
    requires
        base.wf(),
        index < specs@.len(),
        raw <= 81,
    ensures
        r == location_open(base@, specs@, index as int, pieces@, raw as int),
{
    let spec = specs[index];
    let loc = if raw == 81 {
        InvisibleLocation::Hand(spec.color)
    } else {
        InvisibleLocation::Board(Square::from_index(raw))
    };
    assert(loc == raw_location(spec, raw as int));
    if raw == 81 && !spec.kind.is_hand_piece() {
        return false;
    }
    if raw < 81 {
        let occupied = match base.board[raw] {
            Cell::Piece(_, _) => true,
            _ => false,
        };
        assert(base@.cell(raw as int) == base.board@[raw as int]);
        if occupied {
            return false;
        }
        let mut q: usize = 0;
        while q < pieces.len()
            invariant
                q <= pieces@.len(),
                base.wf(),
                index < specs@.len(),
                raw < 81,
                spec == specs@[index as int],
                loc == raw_location(spec, raw as int),
                forall|t: int| 0 <= t < q ==> #[trigger] pieces@[t].location != loc,
            decreases pieces@.len() - q,
        {
            if pieces[q].location == loc {
                assert(pieces@[q as int].location == loc);
                return false;
            }
            q = q + 1;
        }
    }
    if index > 0 && specs[index - 1] == spec && pieces.len() > 0 {
        let last = pieces[pieces.len() - 1];
        let lk: usize = match last.location {
            InvisibleLocation::Board(sq) => sq.idx as usize,
            InvisibleLocation::Hand(c) => 81 + c.index(),
        };
        let k: usize = match loc {
            InvisibleLocation::Board(sq) => sq.idx as usize,
            InvisibleLocation::Hand(c) => 81 + c.index(),
        };
        if k < lk {
            return false;
        }
    }
    true
}

proof fn lemma_drawn_grow(
    now: Seq<InvisibleWorld>,
    before: Seq<InvisibleWorld>,
    w0: Seq<InvisibleWorld>,
    p: PositionView,
    cands: Seq<Seq<InvisiblePiece>>,
    done: Seq<Seq<InvisiblePiece>>,
    sub: Seq<Seq<InvisiblePiece>>,
    next_rest: Seq<Seq<InvisiblePiece>>,
    rule: MateRule,
    ok: bool,
)
    requires
        keeps_prefix(w0, before),
        keeps_prefix(before, now),
        drawn_from(before, w0.len() as int, p, cands, rule),
        drawn_from(now, before.len() as int, p, sub, rule),
        all_drawn(before, p, done, rule),
        ok ==> all_drawn(now, p, sub, rule),
        cands == done + (sub + next_rest),
    ensures
        keeps_prefix(w0, now),
        drawn_from(now, w0.len() as int, p, cands, rule),
        ok ==> all_drawn(now, p, done + sub, rule),
        cands == (done + sub) + next_rest,
        done + sub == cands.take(cands.len() - next_rest.len()),
{
    assert(cands =~= (done + sub) + next_rest);
    assert(done + sub =~= cands.take(cands.len() - next_rest.len()));
    assert forall|j: int| 0 <= j < w0.len() implies #[trigger] now[j] == w0[j] by {
        assert(now[j] == before[j]);
    }
    assert forall|j: int| w0.len() <= j < now.len() implies #[trigger] drawn(&now[j], p, cands, rule) by {
        if j < before.len() {
            assert(now[j] == before[j]);
            assert(drawn(&before[j], p, cands, rule));
        } else {
            assert(drawn(&now[j], p, sub, rule));
            let c = choose|c: int| 0 <= c < sub.len() && #[trigger] is_placement(&now[j], p, sub[c]) && acceptable(placed(p, sub[c]), rule);
            assert(cands[done.len() + c] == sub[c]);
            assert(is_placement(&now[j], p, cands[done.len() + c]));
        }
    }
    if ok {
        let ds = done + sub;
        assert forall|c: int| 0 <= c < ds.len() && acceptable(placed(p, ds[c]), rule) implies #[trigger] shown(now, p, ds[c]) by {
            if c < done.len() {
                assert(ds[c] == done[c]);
                assert(shown(before, p, done[c]));
                let j = choose|j: int| 0 <= j < before.len() && #[trigger] is_placement(&before[j], p, done[c]);
                assert(now[j] == before[j]);
                assert(is_placement(&now[j], p, ds[c]));
            } else {
                assert(ds[c] == sub[c - done.len()]);
                assert(shown(now, p, sub[c - done.len()]));
            }
        }
    }
}

/// Adds to `worlds` the legal placements of the specs from `index` on,
/// after the pieces placed so far, each world once; fails once there are
/// more worlds than the search takes.
fn enumerate_locations(
    base: &Position,
    specs: &Vec<KnownInvisibleSpec>,
    index: usize,
    pieces: Vec<InvisiblePiece>,
    rule: MateRule,
    worlds: &mut Vec<InvisibleWorld>,
) -> (r: Result<(), KnownInvisibleError>)
    requires
        base.wf(),
        hands_bounded(base),
        index <= specs@.len(),
        specs@.len() <= 1000000,
        pieces@.len() == index,
        pieces_wf(pieces@),
        all_wf(old(worlds)@),
        distinct_worlds(old(worlds)@),
        old(worlds)@.len() <= MAX_WORLDS,
    ensures
        keeps_prefix(old(worlds)@, final(worlds)@),
        all_wf(final(worlds)@),
        distinct_worlds(final(worlds)@),
        drawn_from(final(worlds)@, old(worlds)@.len() as int, base@, placements(base@, specs@, index as int, pieces@), rule),
        match r {
            Ok(()) => final(worlds)@.len() <= MAX_WORLDS && all_drawn(
                final(worlds)@,
                base@,
                placements(base@, specs@, index as int, pieces@),
                rule,
            ),
            Err(e) => e == KnownInvisibleError::TooManyWorlds && final(worlds)@.len() > MAX_WORLDS,
        },
    decreases specs@.len() - index, 1nat,
{
    let ghost cands = placements(base@, specs@, index as int, pieces@);
    let ghost w0 = worlds@;
    if index == specs.len() {
        proof {
            assert(cands == seq![pieces@]);
        }
        let position = place_pieces(base, &pieces);
        if !legal_initial_world(&position, rule) {
            proof {
                assert forall|c: int| 0 <= c < cands.len() && acceptable(placed(base@, cands[c]), rule) implies #[trigger] shown(worlds@, base@, cands[c]) by {
                    assert(cands[c] == pieces@);
                }
            }
            return Ok(());
        }
        let world = InvisibleWorld::new(position, pieces);
        proof {
            assert(is_placement(&world, base@, cands[0]));
        }
        let mut j: usize = 0;
        let mut found: Option<usize> = None;
        while j < worlds.len()
            invariant
                world.position.wf(),
                all_wf(worlds@),
                worlds@ == w0,
                j <= worlds@.len(),
                found matches Some(f) ==> f < worlds@.len() && same_world(&worlds@[f as int], &world),
                found is None ==> forall|q: int| 0 <= q < j ==> !same_world(&worlds@[q], &world),
            decreases worlds@.len() - j,
        {
            if found.is_none() && same_world_exec(&worlds[j], &world) {
                found = Some(j);
            }
            j = j + 1;
        }
        if let Some(f) = found {
            proof {
                assert(is_placement(&worlds@[f as int], base@, cands[0]));
                assert forall|c: int| 0 <= c < cands.len() && acceptable(placed(base@, cands[c]), rule) implies #[trigger] shown(worlds@, base@, cands[c]) by {
                    assert(cands[c] == cands[0]);
                    assert(is_placement(&worlds@[f as int], base@, cands[c]));
                }
            }
            return Ok(());
        }
        worlds.push(world);
        proof {
            let n = w0.len() as int;
            assert(worlds@[n] == world);
            assert forall|q: int| 0 <= q < w0.len() implies #[trigger] worlds@[q] == w0[q] by {}
            assert forall|q: int| 0 <= q < worlds@.len() implies (#[trigger] worlds@[q]).wf() by {
                if q < n {
                    assert(worlds@[q] == w0[q]);
                }
            }
            assert forall|a: int, b: int| 0 <= a < b < worlds@.len() implies !same_world(&worlds@[a], &worlds@[b]) by {
                assert(worlds@[a] == w0[a]);
                if b < n {
                    assert(worlds@[b] == w0[b]);
                }
            }
            assert forall|q: int| n <= q < worlds@.len() implies #[trigger] drawn(&worlds@[q], base@, cands, rule) by {
                assert(is_placement(&worlds@[q], base@, cands[0]));
            }
            assert forall|c: int| 0 <= c < cands.len() && acceptable(placed(base@, cands[c]), rule) implies #[trigger] shown(worlds@, base@, cands[c]) by {
                assert(cands[c] == cands[0]);
                assert(is_placement(&worlds@[n], base@, cands[c]));
            }
        }
        if worlds.len() > MAX_WORLDS {
            return Err(KnownInvisibleError::TooManyWorlds);
        }
        return Ok(());
    }
    let mut raw: usize = 0;
    while raw <= 81
        invariant
            base.wf(),
            hands_bounded(base),
            index < specs@.len(),
            specs@.len() <= 1000000,
            pieces@.len() == index,
            pieces_wf(pieces@),
            raw <= 82,
            cands == placements(base@, specs@, index as int, pieces@),
            cands == placements_from(base@, specs@, index as int, pieces@, 0),
            w0 == old(worlds)@,
            all_wf(worlds@),
            distinct_worlds(worlds@),
            worlds@.len() <= MAX_WORLDS,
            keeps_prefix(w0, worlds@),
            drawn_from(worlds@, w0.len() as int, base@, cands, rule),
            all_drawn(
                worlds@,
                base@,
                cands.take(cands.len() - placements_from(base@, specs@, index as int, pieces@, raw as int).len()),
                rule,
            ),
            cands == cands.take(cands.len() - placements_from(base@, specs@, index as int, pieces@, raw as int).len())
                + placements_from(base@, specs@, index as int, pieces@, raw as int),
        decreases 82 - raw,
    {
        let ghost rest = placements_from(base@, specs@, index as int, pieces@, raw as int);
        let ghost done = cands.take(cands.len() - rest.len());
        let ghost next_rest = placements_from(base@, specs@, index as int, pieces@, raw + 1);
        if location_open_exec(base, specs, index, &pieces, raw) {
            let spec = specs[index];
            let loc = if raw == 81 {
                InvisibleLocation::Hand(spec.color)
            } else {
                InvisibleLocation::Board(Square::from_index(raw))
            };
            let mut next = pieces.clone();
            next.push(InvisiblePiece { color: spec.color, kind: spec.kind, location: loc });
            let ghost sub = placements(base@, specs@, index + 1, next@);
            proof {
                assert(next@ =~= pieces@.push(spec_piece(specs@[index as int], raw_location(specs@[index as int], raw as int))));
                assert forall|t: int| 0 <= t < next@.len() implies invisible_location_wf(#[trigger] next@[t].location) by {
                    if t < pieces@.len() {
                        assert(next@[t] == pieces@[t]);
                    }
                }
                assert(rest == sub + next_rest);
            }
            let ghost before = worlds@;
            let res = enumerate_locations(base, specs, index + 1, next, rule, worlds);
            proof {
                lemma_drawn_grow(worlds@, before, w0, base@, cands, done, sub, next_rest, rule, res is Ok);
            }
            match res {
                Err(e) => {
                    return Err(e);
                },
                Ok(()) => {},
            }
        } else {
            proof {
                assert(rest == next_rest);
            }
        }
        raw = raw + 1;
    }
    proof {
        assert(placements_from(base@, specs@, index as int, pieces@, 82) =~= Seq::<Seq<InvisiblePiece>>::empty());
        assert(cands.take(cands.len() as int) =~= cands);
    }
    Ok(())
}

/// The rank of a spec in the order of side, then kind.
pub open spec fn spec_key(x: KnownInvisibleSpec) -> nat {
    x.color.spec_index() * 14 + x.kind.spec_index()
}

/// Specs in key order.
pub open spec fn sorted_specs(s: Seq<KnownInvisibleSpec>) -> bool {
    forall|i: int, j: int| 0 <= i < j < s.len() ==> spec_key(s[i]) <= spec_key(s[j])
}

/// Number of times `x` occurs in `s`.
pub open spec fn spec_occurrences(s: Seq<KnownInvisibleSpec>, x: KnownInvisibleSpec) -> nat
    decreases s.len(),
{
    if s.len() == 0 {
        0
    } else {
        spec_occurrences(s.drop_last(), x) + if s.last() == x {
            1nat
        } else {
            0nat
        }
    }
}

proof fn lemma_spec_occurrences_insert(s: Seq<KnownInvisibleSpec>, i: int, y: KnownInvisibleSpec, x: KnownInvisibleSpec)
    requires
        0 <= i <= s.len(),
    ensures
        spec_occurrences(s.insert(i, y), x) == spec_occurrences(s, x) + if y == x {
            1nat
        } else {
            0nat
        },
    decreases s.len(),
{
    if i == s.len() {
        assert(s.insert(i, y).drop_last() =~= s);
    } else {
        lemma_spec_occurrences_insert(s.drop_last(), i, y, x);
        assert(s.insert(i, y).drop_last() =~= s.drop_last().insert(i, y));
    }
}

proof fn lemma_needed_same(a: Seq<KnownInvisibleSpec>, b: Seq<KnownInvisibleSpec>, k: Kind)
    requires
        forall|x: KnownInvisibleSpec| #[trigger] spec_occurrences(a, x) == spec_occurrences(b, x),
    ensures
        needed(a, k, a.len() as int) == needed(b, k, b.len() as int),
    decreases a.len() + b.len(),
{
    if a.len() == 0 && b.len() > 0 {
        assert(spec_occurrences(b, b.last()) > 0) by {
            lemma_spec_occurs(b, b.len() - 1);
        }
        assert(spec_occurrences(a, b.last()) == 0);
    } else if a.len() > 0 {
        let x = a.last();
        assert(spec_occurrences(a, x) > 0) by {
            lemma_spec_occurs(a, a.len() - 1);
        }
        let i = lemma_spec_find(b, x);
        let b2 = b.remove(i);
        assert(b2.insert(i, x) =~= b);
        assert forall|y: KnownInvisibleSpec| #[trigger] spec_occurrences(a.drop_last(), y) == spec_occurrences(b2, y) by {
            lemma_spec_occurrences_insert(b2, i, x, y);
            assert(spec_occurrences(a, y) == spec_occurrences(b, y));
            assert(spec_occurrences(a, y) == spec_occurrences(a.drop_last(), y) + if a.last() == y {
                1nat
            } else {
                0nat
            });
        }
        lemma_needed_same(a.drop_last(), b2, k);
        lemma_needed_insert(b2, i, x, k);
        assert(needed(a, k, a.len() as int) == needed(a.drop_last(), k, a.drop_last().len() as int) + if x.kind.spec_maybe_unpromote() == k {
            1nat
        } else {
            0nat
        }) by {
            lemma_needed_prefix(a, k);
        }
    }
}

proof fn lemma_needed_prefix(a: Seq<KnownInvisibleSpec>, k: Kind)
    requires
        a.len() > 0,
    ensures
        needed(a, k, a.len() as int) == needed(a.drop_last(), k, a.drop_last().len() as int) + if a.last().kind.spec_maybe_unpromote() == k {
            1nat
        } else {
            0nat
        },
{
    lemma_needed_upto(a, a.drop_last(), k, a.len() - 1);
}

proof fn lemma_needed_upto(a: Seq<KnownInvisibleSpec>, b: Seq<KnownInvisibleSpec>, k: Kind, n: int)
    requires
        0 <= n <= b.len(),
        n <= a.len(),
        forall|i: int| 0 <= i < n ==> a[i] == b[i],
    ensures
        needed(a, k, n) == needed(b, k, n),
    decreases n,
{
    if n > 0 {
        lemma_needed_upto(a, b, k, n - 1);
    }
}

proof fn lemma_needed_insert(s: Seq<KnownInvisibleSpec>, i: int, y: KnownInvisibleSpec, k: Kind)
    requires
        0 <= i <= s.len(),
    ensures
        needed(s.insert(i, y), k, s.len() + 1int) == needed(s, k, s.len() as int) + if y.kind.spec_maybe_unpromote() == k {
            1nat
        } else {
            0nat
        },
    decreases s.len(),
{
    let t = s.insert(i, y);
    if i == s.len() {
        lemma_needed_upto(t, s, k, s.len() as int);
    } else {
        lemma_needed_insert(s.drop_last(), i, y, k);
        let t2 = s.drop_last().insert(i, y);
        lemma_needed_upto(t, t2, k, s.len() as int);
        lemma_needed_upto(s, s.drop_last(), k, s.len() - 1);
    }
}

proof fn lemma_spec_occurs(s: Seq<KnownInvisibleSpec>, i: int)
    requires
        0 <= i < s.len(),
    ensures
        spec_occurrences(s, s[i]) > 0,
    decreases s.len(),
{
    if i < s.len() - 1 {
        lemma_spec_occurs(s.drop_last(), i);
    }
}

proof fn lemma_spec_find(s: Seq<KnownInvisibleSpec>, x: KnownInvisibleSpec) -> (i: int)
    requires
        spec_occurrences(s, x) > 0,
    ensures
        0 <= i < s.len(),
        s[i] == x,
    decreases s.len(),
{
    if s.last() == x {
        s.len() - 1
    } else {
        lemma_spec_find(s.drop_last(), x)
    }
}

fn spec_key_exec(x: KnownInvisibleSpec) -> (r: usize)
    ensures
        r == spec_key(x),
{
    x.color.index() * 14 + x.kind.index()
}

/// The specs in key order, each as often as given.
fn sort_specs(v: &Vec<KnownInvisibleSpec>) -> (r: Vec<KnownInvisibleSpec>)
    ensures
        sorted_specs(r@),
        forall|x: KnownInvisibleSpec| #[trigger] spec_occurrences(r@, x) == spec_occurrences(v@, x),
        r@.len() == v@.len(),
{
    let mut r: Vec<KnownInvisibleSpec> = Vec::new();
    let mut i: usize = 0;
    while i < v.len()
        invariant
            i <= v@.len(),
            r@.len() == i,
            sorted_specs(r@),
            forall|x: KnownInvisibleSpec| #[trigger] spec_occurrences(r@, x) == spec_occurrences(v@.take(i as int), x),
        decreases v@.len() - i,
    {
        let x = v[i];
        let kx = spec_key_exec(x);
        let mut pos: usize = 0;
        while pos < r.len() && spec_key_exec(r[pos]) <= kx
            invariant
                pos <= r@.len(),
                kx == spec_key(x),
                forall|j: int| 0 <= j < pos ==> spec_key(r@[j]) <= kx,
            decreases r@.len() - pos,
        {
            pos = pos + 1;
        }
        let ghost before = r@;
        r.insert(pos, x);
        proof {
            assert forall|a: int, b: int| 0 <= a < b < r@.len() implies spec_key(r@[a]) <= spec_key(r@[b]) by {
                if pos < before.len() {
                    assert(spec_key(before[pos as int]) > kx);
                }
            }
            assert forall|y: KnownInvisibleSpec| #[trigger] spec_occurrences(r@, y) == spec_occurrences(v@.take(i + 1), y) by {
                lemma_spec_occurrences_insert(before, pos as int, x, y);
                assert(v@.take(i + 1).drop_last() =~= v@.take(i as int));
            }
        }
        i = i + 1;
    }
    proof {
        assert(v@.take(v@.len() as int) =~= v@);
    }
    r
}

proof fn lemma_allocations_same(p: PositionView, a: Seq<KnownInvisibleSpec>, b: Seq<KnownInvisibleSpec>, i: int)
    requires
        forall|x: KnownInvisibleSpec| #[trigger] spec_occurrences(a, x) == spec_occurrences(b, x),
    ensures
        allocations_upto(p, a, i) == allocations_upto(p, b, i),
        short_kind_upto(p, a, i) == short_kind_upto(p, b, i),
    decreases i,
{
    if i > 0 {
        lemma_allocations_same(p, a, b, i - 1);
        lemma_needed_same(a, b, crate::piece::spec_kind_of(i - 1));
    }
}

/// The placements of the specs on the allocated position `a`.
pub open spec fn alloc_cands(a: PositionView, ss: Seq<KnownInvisibleSpec>) -> Seq<Seq<InvisiblePiece>> {
    placements(a, ss, 0, Seq::empty())
}

/// The world `w` is a legal placement on one of the allocated positions.
pub open spec fn drawn_any(w: &InvisibleWorld, allocs: Seq<PositionView>, ss: Seq<KnownInvisibleSpec>, rule: MateRule) -> bool {
    exists|i: int| 0 <= i < allocs.len() && #[trigger] drawn(w, allocs[i], alloc_cands(allocs[i], ss), rule)
}

/// The worlds `ws` are legal placements on the allocated positions, each
/// once; with `complete`, every legal placement on them shows.
pub open spec fn enumerated_over(
    ws: Seq<InvisibleWorld>,
    allocs: Seq<PositionView>,
    ss: Seq<KnownInvisibleSpec>,
    rule: MateRule,
    complete: bool,
) -> bool {
    &&& distinct_worlds(ws)
    &&& all_wf(ws)
    &&& forall|j: int| 0 <= j < ws.len() ==> #[trigger] drawn_any(&ws[j], allocs, ss, rule)
    &&& complete ==> forall|i: int| 0 <= i < allocs.len() ==> #[trigger] all_drawn(ws, allocs[i], alloc_cands(allocs[i], ss), rule)
}

/// A sorted ordering of the specs, each as often as given.
pub open spec fn sorts(ss: Seq<KnownInvisibleSpec>, specs: Seq<KnownInvisibleSpec>) -> bool {
    sorted_specs(ss) && forall|x: KnownInvisibleSpec| #[trigger] spec_occurrences(ss, x) == spec_occurrences(specs, x)
}

/// The worlds `out` of an enumerated problem: the legal placements of the
/// specs, in key order, on every allocation of `base`, each once, with the
/// pieces common to all of them made visible.
pub open spec fn enumeration(base: PositionView, specs: Seq<KnownInvisibleSpec>, rule: MateRule, out: Seq<InvisibleWorld>) -> bool {
    exists|ss: Seq<KnownInvisibleSpec>, ws: Seq<InvisibleWorld>|
        #![trigger sorts(ss, specs), revealed(ws, out)]
        sorts(ss, specs) && ws.len() > 0 && enumerated_over(
            ws,
            allocated_from(base, allocations_upto(base, specs, 14), 0),
            ss,
            rule,
            true,
        ) && revealed(ws, out)
}

/// More than `MAX_WORLDS` distinct legal placements exist.
pub open spec fn too_many(base: PositionView, specs: Seq<KnownInvisibleSpec>, rule: MateRule) -> bool {
    exists|ss: Seq<KnownInvisibleSpec>, ws: Seq<InvisibleWorld>|
        #![trigger sorts(ss, specs), enumerated_over(ws, allocated_from(base, allocations_upto(base, specs, 14), 0), ss, rule, false)]
        sorts(ss, specs) && ws.len() > MAX_WORLDS && enumerated_over(
            ws,
            allocated_from(base, allocations_upto(base, specs, 14), 0),
            ss,
            rule,
            false,
        )
}

/// No placement on any allocation is a legal start.
pub open spec fn no_legal_placement(base: PositionView, specs: Seq<KnownInvisibleSpec>, rule: MateRule) -> bool {
    exists|ss: Seq<KnownInvisibleSpec>|
        #![trigger sorts(ss, specs)]
        sorts(ss, specs) && forall|i: int, c: int|
            0 <= i < allocated_from(base, allocations_upto(base, specs, 14), 0).len() && 0 <= c < alloc_cands(
                allocated_from(base, allocations_upto(base, specs, 14), 0)[i],
                ss,
            ).len() ==> !acceptable(
                #[trigger] placed(
                    allocated_from(base, allocations_upto(base, specs, 14), 0)[i],
                    alloc_cands(allocated_from(base, allocations_upto(base, specs, 14), 0)[i], ss)[c],
                ),
                rule,
            )
}

/// A problem with kind-known invisible pieces.
#[derive(Debug)]
pub struct KnownInvisibleProblem {
    pub base_sfen: String,
    pub invisibles: Vec<KnownInvisibleSpec>,
    pub rule: MateRule,
}

/// What enumerating a problem gives: the SFEN error, a kind short of
/// pieces, too many worlds, no legal world, or the state over the worlds.
pub open spec fn known_enumerated(sfen: Seq<char>, specs: Seq<KnownInvisibleSpec>, rule: MateRule, r: Result<KnownInvisibleState, KnownInvisibleError>) -> bool {
    match sfen_position(vstd::utf8::encode_utf8(sfen)) {
        Err(_) => r matches Err(KnownInvisibleError::Sfen(t)) && t@ == sfen,
        Ok(base) => match short_kind_upto(base, specs, 14) {
            Some(k) => r == Err::<KnownInvisibleState, KnownInvisibleError>(KnownInvisibleError::NotEnough(k)),
            None => match r {
                Ok(s) => s.free_white_move == (base.turn == Color::White) && s.rule == rule && s.worlds@.len() > 0
                    && enumeration(base, specs, rule, s.worlds@),
                Err(e) => (e == KnownInvisibleError::TooManyWorlds && too_many(base, specs, rule)) || (e
                    == KnownInvisibleError::NoWorld && no_legal_placement(base, specs, rule)),
            },
        },
    }
}


proof fn lemma_all_drawn_prefix(
    before: Seq<InvisibleWorld>,
    now: Seq<InvisibleWorld>,
    p: PositionView,
    cands: Seq<Seq<InvisiblePiece>>,
    rule: MateRule,
)
    requires
        keeps_prefix(before, now),
        all_drawn(before, p, cands, rule),
    ensures
        all_drawn(now, p, cands, rule),
{
    assert forall|c: int| 0 <= c < cands.len() && acceptable(placed(p, cands[c]), rule) implies #[trigger] shown(now, p, cands[c]) by {
        assert(shown(before, p, cands[c]));
        let j = choose|j: int| 0 <= j < before.len() && #[trigger] is_placement(&before[j], p, cands[c]);
        assert(now[j] == before[j]);
        assert(is_placement(&now[j], p, cands[c]));
    }
}

impl KnownInvisibleProblem {
    /// The state over every legal placement of the invisible pieces: the
    /// SFEN read, the pieces taken from white's hand and the box in every
    /// way, each placement tried in turn, and the pieces common to every
    /// world made visible.
    pub fn enumerate(self) -> (r: Result<KnownInvisibleState, KnownInvisibleError>)
        requires
            sfen_position(vstd::utf8::encode_utf8(self.base_sfen@)) matches Ok(b) ==> inventory_ok(b, self.invisibles@),
        ensures
            known_enumerated(self.base_sfen@, self.invisibles@, self.rule, r),
            r matches Ok(s) ==> crate::known_search::state_wf(&s),
    {
        let base = match Position::from_sfen(self.base_sfen.as_str()) {
            Ok(p) => p,
            Err(_) => {
                return Err(KnownInvisibleError::Sfen(self.base_sfen));
            },
        };
        let ghost specs = self.invisibles@;
        let ss = sort_specs(&self.invisibles);
        proof {
            lemma_allocations_same(base@, ss@, specs, 14);
            assert forall|k: Kind| needed(ss@, k, ss@.len() as int) > 0 implies #[trigger] inventory(base@, k) <= k.spec_max_count() by {
                lemma_needed_same(ss@, specs, k);
            }
        }
        let allocs = match allocate_invisible_inventory(&base, &ss) {
            Ok(v) => v,
            Err(e) => {
                return Err(e);
            },
        };
        let ghost av = views(allocs@);
        let rule = self.rule;
        proof {
            assert(sorts(ss@, specs));
            lemma_few_pieces(base@, ss@);
        }
        let mut worlds: Vec<InvisibleWorld> = Vec::new();
        let mut i: usize = 0;
        while i < allocs.len()
            invariant
                i <= allocs@.len(),
                av == views(allocs@),
                ss@.len() <= 1000000,
                sorts(ss@, specs),
                specs == self.invisibles@,
                rule == self.rule,
                sfen_position(vstd::utf8::encode_utf8(self.base_sfen@)) == Ok::<PositionView, crate::sfen::SfenError>(base@),
                short_kind_upto(base@, specs, 14) is None,
                av == allocated_from(base@, allocations_upto(base@, specs, 14), 0),
                forall|j: int| 0 <= j < allocs@.len() ==> (#[trigger] allocs@[j]).wf() && hands_bounded(&allocs@[j]),
                all_wf(worlds@),
                distinct_worlds(worlds@),
                worlds@.len() <= MAX_WORLDS,
                forall|j: int| 0 <= j < worlds@.len() ==> #[trigger] drawn_any(&worlds@[j], av, ss@, rule),
                forall|q: int| 0 <= q < i ==> #[trigger] all_drawn(worlds@, av[q], alloc_cands(av[q], ss@), rule),
            decreases allocs@.len() - i,
        {
            let ghost before = worlds@;
            let res = enumerate_locations(&allocs[i], &ss, 0, Vec::new(), rule, &mut worlds);
            proof {
                assert(av[i as int] == allocs@[i as int]@);
                assert forall|j: int| 0 <= j < worlds@.len() implies #[trigger] drawn_any(&worlds@[j], av, ss@, rule) by {
                    if j < before.len() {
                        assert(worlds@[j] == before[j]);
                    } else {
                        assert(drawn(&worlds@[j], av[i as int], alloc_cands(av[i as int], ss@), rule));
                    }
                }
            }
            match res {
                Err(e) => {
                    proof {
                        assert(enumerated_over(worlds@, av, ss@, rule, false));
                        assert(sorts(ss@, specs));
                    }
                    return Err(e);
                },
                Ok(()) => {},
            }
            proof {
                assert forall|q: int| 0 <= q < i + 1 implies #[trigger] all_drawn(worlds@, av[q], alloc_cands(av[q], ss@), rule) by {
                    if q < i {
                        lemma_all_drawn_prefix(before, worlds@, av[q], alloc_cands(av[q], ss@), rule);
                    }
                }
            }
            i = i + 1;
        }
        proof {
            assert(sorts(ss@, specs));
        }
        if worlds.len() == 0 {
            proof {
                assert forall|q: int, c: int|
                    0 <= q < av.len() && 0 <= c < alloc_cands(av[q], ss@).len() implies !acceptable(
                    #[trigger] placed(av[q], alloc_cands(av[q], ss@)[c]),
                    rule,
                ) by {
                    assert(all_drawn(worlds@, av[q], alloc_cands(av[q], ss@), rule));
                    if acceptable(placed(av[q], alloc_cands(av[q], ss@)[c]), rule) {
                        assert(shown(worlds@, av[q], alloc_cands(av[q], ss@)[c]));
                    }
                }
            }
            return Err(KnownInvisibleError::NoWorld);
        }
        let ghost ws = worlds@;
        let free_white_move = base.turn.is_white();
        let s = KnownInvisibleState::from_worlds(worlds, free_white_move, rule);
        proof {
            assert(enumerated_over(ws, av, ss@, rule, true));
            assert(revealed(ws, s.worlds@));
        }
        Ok(s)
    }
}


/// A side as written in a kind-known problem document.
#[derive(Clone, Copy, Debug, PartialEq, Eq, Structural)]
pub enum DocumentColor {
    Black,
    White,
}

/// The side of a document color.
pub open spec fn document_side(c: DocumentColor) -> Color {
    match c {
        DocumentColor::Black => Color::Black,
        DocumentColor::White => Color::White,
    }
}

/// Kind-known invisible pieces as written in a document: a side, a kind
/// code and how many.
#[derive(Clone, Debug)]
pub struct KnownInvisibleDocumentSpec {
    pub color: DocumentColor,
    pub kind: String,
    pub count: usize,
}

/// A kind-known invisible problem as written in a document: the base SFEN,
/// the number of plies, the rule and the invisible pieces.
#[derive(Clone, Debug)]
pub struct KnownInvisibleDocument {
    pub base_sfen: String,
    pub plies: usize,
    pub rule: MateRule,
    pub invisibles: Vec<KnownInvisibleDocumentSpec>,
}

/// The specs of the first `n` document entries, each entry as often as its
/// count, entries with no pieces skipped; or the first kind code, of an
/// entry with pieces, that names no kind.
pub open spec fn expanded(ds: Seq<KnownInvisibleDocumentSpec>, n: int) -> Result<Seq<KnownInvisibleSpec>, Seq<char>>
    decreases n,
{
    if n <= 0 {
        Ok(Seq::empty())
    } else {
        match expanded(ds, n - 1) {
            Err(t) => Err(t),
            Ok(l) => {
                let d = ds[n - 1];
                if d.count == 0 {
                    Ok(l)
                } else {
                    match crate::document::kind_of_code(d.kind@) {
                        None => Err(d.kind@),
                        Some(k) => Ok(
                            l + Seq::new(d.count as nat, |j: int| KnownInvisibleSpec { color: document_side(d.color), kind: k }),
                        ),
                    }
                }
            },
        }
    }
}

/// What a document gives: the best-mate rule refused, the SFEN error, the
/// first unknown kind code, more than two pieces, or the problem over the
/// base position with the side to move set for the plies, and the plies.
pub open spec fn document_problem(
    sfen: Seq<char>,
    plies: usize,
    rule: MateRule,
    ds: Seq<KnownInvisibleDocumentSpec>,
    r: Result<(KnownInvisibleProblem, usize), KnownInvisibleError>,
) -> bool {
    if rule == MateRule::BestMate {
        r == Err::<(KnownInvisibleProblem, usize), KnownInvisibleError>(KnownInvisibleError::BestMateUnsupported)
    } else {
        match sfen_position(vstd::utf8::encode_utf8(sfen)) {
            Err(_) => r matches Err(KnownInvisibleError::Sfen(t)) && t@ == sfen,
            Ok(base) => match expanded(ds, ds.len() as int) {
                Err(t) => r matches Err(KnownInvisibleError::UnknownKind(u)) && u@ == t,
                Ok(l) => if l.len() > MAX_KNOWN_INVISIBLES {
                    r == Err::<(KnownInvisibleProblem, usize), KnownInvisibleError>(KnownInvisibleError::TooMany)
                } else {
                    r matches Ok((p, n)) && n == plies && p.rule == rule && p.invisibles@ == l
                        && p.base_sfen@ == crate::sfen::position_sfen(
                        PositionView { turn: rule.spec_initial_turn(plies as nat), ..base },
                    )
                },
            },
        }
    }
}

proof fn lemma_expanded_err_stays(ds: Seq<KnownInvisibleDocumentSpec>, a: int, b: int)
    requires
        0 <= a <= b,
        expanded(ds, a) is Err,
    ensures
        expanded(ds, b) == expanded(ds, a),
    decreases b - a,
{
    if b > a {
        lemma_expanded_err_stays(ds, a, b - 1);
    }
}

impl KnownInvisibleDocument {
    /// The problem of the document and its plies: the base SFEN with the
    /// side to move set for the plies, and each entry's pieces.
    pub fn into_problem(self) -> (r: Result<(KnownInvisibleProblem, usize), KnownInvisibleError>)
        ensures
            document_problem(self.base_sfen@, self.plies, self.rule, self.invisibles@, r),
    {
        if self.rule == MateRule::BestMate {
            return Err(KnownInvisibleError::BestMateUnsupported);
        }
        let mut base = match Position::from_sfen(self.base_sfen.as_str()) {
            Ok(p) => p,
            Err(_) => {
                return Err(KnownInvisibleError::Sfen(self.base_sfen));
            },
        };
        let ghost b0 = base@;
        base.set_turn(self.rule.initial_turn(self.plies));
        proof {
            assert(base@ == PositionView { turn: self.rule.spec_initial_turn(self.plies as nat), ..b0 });
        }
        let ghost ds = self.invisibles@;
        let mut invisibles: Vec<KnownInvisibleSpec> = Vec::new();
        let mut too_many = false;
        let mut bad: Option<usize> = None;
        let mut i: usize = 0;
        while i < self.invisibles.len()
            invariant_except_break
                bad is None,
            invariant
                ds == self.invisibles@,
                i <= ds.len(),
                expanded(ds, i as int) matches Ok(l) && (if too_many {
                    l.len() > MAX_KNOWN_INVISIBLES
                } else {
                    invisibles@ == l
                }),
                invisibles@.len() <= MAX_KNOWN_INVISIBLES,
            ensures
                match bad {
                    Some(j) => j < ds.len() && expanded(ds, j + 1) == Err::<Seq<KnownInvisibleSpec>, Seq<char>>(ds[j as int].kind@),
                    None => i == ds.len(),
                },
            decreases ds.len() - i,
        {
            let d = &self.invisibles[i];
            if d.count > 0 {
                match crate::document::parse_kind(&d.kind) {
                    None => {
                        bad = Some(i);
                        break;
                    },
                    Some(kind) => {
                        let color = match d.color {
                            DocumentColor::Black => Color::Black,
                            DocumentColor::White => Color::White,
                        };
                        let spec = KnownInvisibleSpec { color, kind };
                        proof {
                            assert(spec == KnownInvisibleSpec { color: document_side(ds[i as int].color), kind: kind });
                        }
                        if !too_many {
                            if d.count > MAX_KNOWN_INVISIBLES - invisibles.len() {
                                too_many = true;
                            } else {
                                let ghost before = invisibles@;
                                let mut c: usize = 0;
                                while c < d.count
                                    invariant
                                        c <= d.count,
                                        before.len() + d.count <= MAX_KNOWN_INVISIBLES,
                                        invisibles@ == before + Seq::new(c as nat, |j: int| spec),
                                    decreases d.count - c,
                                {
                                    invisibles.push(spec);
                                    proof {
                                        assert(invisibles@ =~= before + Seq::new((c + 1) as nat, |j: int| spec));
                                    }
                                    c = c + 1;
                                }
                            }
                        }
                    },
                }
            }
            i = i + 1;
        }
        if let Some(j) = bad {
            proof {
                lemma_expanded_err_stays(ds, j + 1, ds.len() as int);
            }
            return Err(KnownInvisibleError::UnknownKind(self.invisibles[j].kind.clone()));
        }
        if too_many {
            return Err(KnownInvisibleError::TooMany);
        }
        let text = base.sfen();
        Ok((KnownInvisibleProblem { base_sfen: text, invisibles, rule: self.rule }, self.plies))
    }
}

} // verus!
