use vstd::prelude::*;

use crate::help_selfmate::{fill, lemma_fill_take, lemma_fill_twice, lines_view};
use crate::breadth::{
    all_wf, copy_positions, expand, first_positions, lemma_search_step, lemma_std_mate_found, lemma_std_search_complete,
    lemma_reached_count, reached_from, reached_set, reached_within, search_state,
};
use crate::moves::{advance, apply, generated, generated_seq, legal, moved};
use crate::piece::Color;
use crate::position::{Cell, Movement, Position, PositionView};
use crate::problem::illegal_initial;
use crate::rules::in_check;

verus! {

/// White to move is mated: in check, with no legal move, and not by a pawn
/// drop (a pawn-drop mate is illegal).
pub open spec fn white_mated(p: PositionView) -> bool {
    p.turn == Color::White && in_check(p, Color::White) && !p.pawn_drop && forall|m: Movement| !legal(p, m)
}

/// The moves searched from `p`: black's checks, or white's legal moves.
pub open spec fn std_searched(p: PositionView) -> Seq<Movement> {
    generated_seq(p, p.turn == Color::Black)
}

/// The lines of exactly `n` more moves from `p`, each after `prefix`, in
/// which black checks at every move and that end with white mated, in the
/// order of the searched moves.
pub open spec fn mate_lines(p: PositionView, n: nat, prefix: Seq<Movement>) -> Seq<Seq<Movement>>
    decreases n, 1nat, 0nat,
{
    if n == 0 {
        if white_mated(p) {
            seq![prefix]
        } else {
            Seq::empty()
        }
    } else {
        mate_lines_from(p, n, prefix, std_searched(p), 0)
    }
}

/// The lines of `mate_lines` that start with the moves `ms[k..]`.
pub open spec fn mate_lines_from(p: PositionView, n: nat, prefix: Seq<Movement>, ms: Seq<Movement>, k: int) -> Seq<
    Seq<Movement>,
>
    decreases n, 0nat, (if k < ms.len() { ms.len() - k } else { 0 }) as nat,
{
    if k < 0 || k >= ms.len() || n == 0 {
        Seq::empty()
    } else {
        mate_lines(apply(p, ms[k]), (n - 1) as nat, prefix.push(ms[k])) + mate_lines_from(p, n, prefix, ms, k + 1)
    }
}

/// The lines of `n` moves from each start in turn.
pub open spec fn starts_lines(ps: Seq<PositionView>, n: nat) -> Seq<Seq<Movement>>
    decreases ps.len(),
{
    if ps.len() == 0 {
        Seq::empty()
    } else {
        starts_lines(ps.drop_last(), n) + mate_lines(ps.last(), n, Seq::empty())
    }
}

/// A mating line ends on white's turn: its length is even exactly when
/// white moves first.
pub proof fn lemma_mate_parity(p: PositionView, n: nat, prefix: Seq<Movement>)
    ensures
        mate_lines(p, n, prefix).len() > 0 ==> (n % 2 == 0 <==> p.turn == Color::White),
    decreases n, 1nat, 0nat,
{
    if n > 0 {
        lemma_mate_from_parity(p, n, prefix, std_searched(p), 0);
    }
}

proof fn lemma_mate_from_parity(p: PositionView, n: nat, prefix: Seq<Movement>, ms: Seq<Movement>, k: int)
    ensures
        mate_lines_from(p, n, prefix, ms, k).len() > 0 ==> (n % 2 == 0 <==> p.turn == Color::White),
    decreases n, 0nat, (if k < ms.len() { ms.len() - k } else { 0 }) as nat,
{
    if 0 <= k < ms.len() && n > 0 {
        lemma_mate_from_parity(p, n, prefix, ms, k + 1);
        let q = apply(p, ms[k]);
        assert(q.turn == p.turn.spec_opposite());
        lemma_mate_parity(q, (n - 1) as nat, prefix.push(ms[k]));
    }
}

proof fn lemma_starts_parity(ps: Seq<PositionView>, n: nat, turn: Color)
    requires
        forall|i: int| 0 <= i < ps.len() ==> (#[trigger] ps[i]).turn == turn,
        n % 2 == 0 <==> turn == Color::Black,
    ensures
        starts_lines(ps, n).len() == 0,
    decreases ps.len(),
{
    if ps.len() > 0 {
        assert forall|i: int| 0 <= i < ps.drop_last().len() implies (#[trigger] ps.drop_last()[i]).turn == turn by {
            assert(ps.drop_last()[i] == ps[i]);
        }
        lemma_starts_parity(ps.drop_last(), n, turn);
        assert(ps[ps.len() - 1].turn == turn);
        lemma_mate_parity(ps.last(), n, Seq::empty());
    }
}

proof fn lemma_searched_legal(p: PositionView, ms: Seq<Movement>, k: int)
    requires
        ms == std_searched(p),
        0 <= k < ms.len(),
        forall|m: Movement| ms.contains(m) <==> generated(p, p.turn == Color::Black, m),
    ensures
        legal(p, ms[k]),
{
    assert(ms.contains(ms[k]));
}

/// Appends to `lines` the lines of `mate_lines` from `p` after `path`,
/// while fewer than `upto` are found.
fn collect_mates(p: &Position, remaining: usize, upto: usize, path: &mut Vec<Movement>, lines: &mut Vec<Vec<Movement>>)
    requires
        p.wf(),
    ensures
        final(path)@ == old(path)@,
        lines_view(final(lines)@) == fill(lines_view(old(lines)@), mate_lines(p@, remaining as nat, old(path)@), upto as nat),
    decreases remaining,
{
    let ghost start = lines_view(lines@);
    let ghost p0 = path@;
    if lines.len() >= upto {
        return ;
    }
    let (moves, mated) = advance(p);
    if remaining == 0 {
        if mated {
            let line = path.clone();
            proof {
                assert(line@ =~= p0);
            }
            lines.push(line);
            proof {
                let here = seq![p0];
                assert(lines_view(lines@) =~= start.push(p0));
                assert(here.drop_first() =~= Seq::<Seq<Movement>>::empty());
                assert(fill(start.push(p0), here.drop_first(), upto as nat) == start.push(p0));
                assert(fill(start, here, upto as nat) == start.push(p0));
            }
        }
        return ;
    }
    let ghost ms = moves@;
    let mut k: usize = 0;
    while k < moves.len()
        invariant
            p.wf(),
            remaining > 0,
            ms == moves@,
            ms == std_searched(p@),
            forall|m: Movement| ms.contains(m) <==> generated(p@, p@.turn == Color::Black, m),
            k <= ms.len(),
            path@ == p0,
            p0 == old(path)@,
            start == lines_view(old(lines)@),
            fill(lines_view(lines@), mate_lines_from(p@, remaining as nat, p0, ms, k as int), upto as nat) == fill(
                start,
                mate_lines(p@, remaining as nat, p0),
                upto as nat,
            ),
        decreases ms.len() - k,
    {
        if lines.len() >= upto {
            return ;
        }
        let m = moves[k];
        proof {
            lemma_searched_legal(p@, ms, k as int);
        }
        let next = moved(p, m);
        let ghost before = lines_view(lines@);
        let ghost here = mate_lines(apply(p@, m), (remaining - 1) as nat, p0.push(m));
        let ghost rest = mate_lines_from(p@, remaining as nat, p0, ms, k + 1);
        path.push(m);
        collect_mates(&next, remaining - 1, upto, path, lines);
        let _ = path.pop();
        proof {
            assert(path@ =~= p0);
            lemma_fill_twice(before, here, rest, upto as nat);
            assert(mate_lines_from(p@, remaining as nat, p0, ms, k as int) == here + rest);
        }
        k = k + 1;
    }
}

/// Why a set of starting positions was refused.
#[derive(Clone, Copy, Debug, PartialEq, Eq, Structural)]
pub enum SolveError {
    NoInitialPositions,
    IllegalInitialPosition,
    MultipleTurns,
    MultipleStoneFormations,
}

/// The message of an error.
pub open spec fn solve_error_text(e: SolveError) -> Seq<char> {
    match e {
        SolveError::NoInitialPositions => "No initial positions"@,
        SolveError::IllegalInitialPosition => "Illegal initial position"@,
        SolveError::MultipleTurns => "Multiple turns"@,
        SolveError::MultipleStoneFormations => "Multiple stone formations"@,
    }
}

impl SolveError {
    /// The message for this error.
    pub fn to_string(&self) -> (r: String)
        ensures
            r@ == solve_error_text(*self),
    {
        let t = match *self {
            SolveError::NoInitialPositions => "No initial positions",
            SolveError::IllegalInitialPosition => "Illegal initial position",
            SolveError::MultipleTurns => "Multiple turns",
            SolveError::MultipleStoneFormations => "Multiple stone formations",
        };
        crate::text::text(t)
    }
}

/// Two positions have stones on the same squares.
pub open spec fn same_stones(a: PositionView, b: PositionView) -> bool {
    forall|i: int| 0 <= i < 81 ==> (#[trigger] a.cell(i) == Cell::Stone) == (b.cell(i) == Cell::Stone)
}

/// Why the starting positions `ps` are refused, if they are: none given,
/// one not legal as a start, sides to move that differ, or stones on
/// different squares.
pub open spec fn starts_error(ps: Seq<PositionView>) -> Option<SolveError> {
    if ps.len() == 0 {
        Some(SolveError::NoInitialPositions)
    } else if exists|i: int| 0 <= i < ps.len() && illegal_initial(#[trigger] ps[i]) {
        Some(SolveError::IllegalInitialPosition)
    } else if exists|i: int| 0 <= i < ps.len() && (#[trigger] ps[i]).turn != ps[0].turn {
        Some(SolveError::MultipleTurns)
    } else if exists|i: int| 0 <= i < ps.len() && !same_stones(#[trigger] ps[i], ps[0]) {
        Some(SolveError::MultipleStoneFormations)
    } else {
        None
    }
}

/// The views of a list of positions.
pub open spec fn positions_view(v: Seq<Position>) -> Seq<PositionView> {
    Seq::new(v.len(), |i: int| v[i]@)
}

/// What a finished search answers for the starts `ps`: when a mate was
/// found, `mate_in` is the least length of a mating line from any start
/// and `lines` the first `upto` such lines, start by start; otherwise no
/// line of at most `u16::MAX` moves mates.
pub open spec fn std_solved(ps: Seq<PositionView>, upto: nat, found: bool, mate_in: nat, lines: Seq<Seq<Movement>>) -> bool {
    if found {
        &&& starts_lines(ps, mate_in).len() > 0
        &&& forall|n: nat| n < mate_in ==> #[trigger] starts_lines(ps, n).len() == 0
        &&& lines == fill(Seq::empty(), starts_lines(ps, mate_in), upto)
    } else {
        &&& lines.len() == 0
        &&& forall|n: nat| n <= u16::MAX ==> #[trigger] starts_lines(ps, n).len() == 0
    }
}

/// The shortest mating lines found by a search.
pub struct Reconstructor {
    lines: Vec<Vec<Movement>>,
    found: bool,
    mate_in: u16,
}

impl Reconstructor {
    pub closed spec fn found_mate(&self) -> bool {
        self.found
    }

    pub closed spec fn depth(&self) -> nat {
        self.mate_in as nat
    }

    pub closed spec fn lines(&self) -> Seq<Seq<Movement>> {
        lines_view(self.lines@)
    }

    /// This is the answer of a search from the starts `ps` keeping `upto`
    /// lines.
    pub open spec fn answers(&self, ps: Seq<PositionView>, upto: nat) -> bool {
        std_solved(ps, upto, self.found_mate(), self.depth(), self.lines())
    }

    /// The answer when no line mates.
    pub fn no_solution() -> (r: Self)
        ensures
            !r.found_mate(),
            r.lines().len() == 0,
    {
        Reconstructor { lines: Vec::new(), found: false, mate_in: 0 }
    }

    /// The number of moves of the lines, when a mate was found.
    pub fn mate_in(&self) -> (r: Option<u16>)
        ensures
            r == (if self.found_mate() {
                Some(self.depth() as u16)
            } else {
                None::<u16>
            }),
    {
        if self.found {
            Some(self.mate_in)
        } else {
            None
        }
    }

    /// The lines found.
    pub fn solutions(&self) -> (r: Vec<Vec<Movement>>)
        ensures
            lines_view(r@) == self.lines(),
    {
        let mut r: Vec<Vec<Movement>> = Vec::new();
        let mut i: usize = 0;
        while i < self.lines.len()
            invariant
                i <= self.lines@.len(),
                lines_view(r@) == lines_view(self.lines@).take(i as int),
            decreases self.lines@.len() - i,
        {
            let line = self.lines[i].clone();
            proof {
                assert(line@ =~= self.lines@[i as int]@);
            }
            let ghost before = r@;
            r.push(line);
            proof {
                assert(lines_view(r@) =~= lines_view(before).push(line@));
                assert(lines_view(r@) =~= lines_view(self.lines@).take(i + 1));
            }
            i = i + 1;
        }
        proof {
            assert(lines_view(self.lines@).take(i as int) =~= lines_view(self.lines@));
        }
        r
    }
}

/// What a round of the search reports.
pub enum SolverStatus {
    /// No line of the searched length mates; the next round searches lines
    /// two moves longer, this many moves long.
    Intermediate(u32),
    /// The shortest mating lines were found.
    Mate(Reconstructor),
    /// No line mates.
    NoSolution,
}

proof fn lemma_starts_take(ps: Seq<PositionView>, i: int, n: nat)
    requires
        0 <= i < ps.len(),
    ensures
        starts_lines(ps.take(i + 1), n) == starts_lines(ps.take(i), n) + mate_lines(ps[i], n, Seq::empty()),
{
    assert(ps.take(i + 1).drop_last() =~= ps.take(i));
    assert(ps.take(i + 1).last() == ps[i]);
}

/// The shortest-line helpmate search over one or more starts with the same
/// side to move, breadth first, one length per round. The positions with
/// white to move are recorded once each; a round looks for white mated
/// among those first reached in the round before and expands them, and the
/// search ends without a solution once a round adds none.
pub struct LowMemStandardSolver {
    initials: Vec<Position>,
    solutions_upto: usize,
    step: u16,
    explored: Vec<Position>,
    fresh: usize,
}

impl LowMemStandardSolver {
    /// The starting positions.
    pub closed spec fn starts(&self) -> Seq<PositionView> {
        positions_view(self.initials@)
    }

    /// The number of lines kept.
    pub closed spec fn upto(&self) -> nat {
        self.solutions_upto as nat
    }

    /// The length of the lines the next round searches.
    pub closed spec fn depth(&self) -> nat {
        self.step as nat
    }

    /// The search is under way: the starts are acceptable and no line
    /// shorter than `depth` mates.
    pub closed spec fn wf(&self) -> bool {
        &&& self.initials@.len() > 0
        &&& forall|i: int| 0 <= i < self.initials@.len() ==> (#[trigger] self.initials@[i]).wf()
        &&& starts_error(self.starts()) is None
        &&& (self.step % 2 == 1 <==> self.starts()[0].turn == Color::Black)
        &&& forall|n: nat| n < self.step ==> #[trigger] starts_lines(self.starts(), n).len() == 0
        &&& all_wf(self.explored@)
        &&& search_state(false, self.starts(), self.step as nat, positions_view(self.explored@), self.fresh as int)
    }

    /// The positions with white to move recorded so far, in the order found.
    pub closed spec fn explored(&self) -> Seq<PositionView> {
        positions_view(self.explored@)
    }

    /// The recorded positions the next round expands: those first reached
    /// in the last round.
    pub closed spec fn frontier(&self) -> Seq<PositionView> {
        positions_view(self.explored@).subrange(self.fresh as int, self.explored@.len() as int)
    }

    /// What holds between any two rounds: the depth is odd exactly from
    /// black starts (so after `k` rounds that went on it is the starting
    /// depth plus `2k`), no start has a mating line shorter than `depth`, and
    /// the recorded positions are, once each, those with white to move
    /// reached by paths of at most `depth` moves, the frontier being their
    /// last part.
    pub proof fn lemma_round_state(&self)
        requires
            self.wf(),
        ensures
            starts_error(self.starts()) is None,
            self.depth() % 2 == (if self.starts()[0].turn == Color::Black {
                1nat
            } else {
                0nat
            }),
            forall|n: nat| n < self.depth() ==> #[trigger] starts_lines(self.starts(), n).len() == 0,
            self.explored().no_duplicates(),
            self.explored().to_set() == reached_set(false, self.starts(), self.depth()),
            self.explored().len() == reached_set(false, self.starts(), self.depth()).len(),
            self.frontier().len() <= self.explored().len(),
            self.frontier() == self.explored().skip(self.explored().len() - self.frontier().len()),
    {
        lemma_reached_count(false, self.starts(), self.step as nat, positions_view(self.explored@));
        assert(self.frontier() =~= self.explored().skip(self.explored().len() - self.frontier().len()));
    }

    /// When a round finds no position to expand, no start has a mating line
    /// of any length.
    pub proof fn lemma_exhausted(&self)
        requires
            self.wf(),
            self.frontier().len() == 0,
        ensures
            forall|n: nat| #[trigger] starts_lines(self.starts(), n).len() == 0,
    {
        let ps = self.starts();
        assert forall|s: int| 0 <= s < ps.len() implies (#[trigger] ps[s]).turn == Color::Black ==> self.step >= 1 by {
            assert(ps[s].turn == ps[0].turn);
        }
        lemma_std_search_complete(ps, self.step as nat, positions_view(self.explored@));
    }

    /// Starts a search from one position, keeping up to `solutions_upto`
    /// lines. The search reports no progress, so `silent` changes nothing.
    pub fn new(position: Position, solutions_upto: usize, silent: bool) -> (r: Result<Self, SolveError>)
        requires
            position.wf(),
        ensures
            match r {
                Ok(s) => starts_error(seq![position@]) is None && s.wf() && s.starts() == seq![position@] && s.upto()
                    == solutions_upto && forall|n: nat| n < s.depth() ==> #[trigger] starts_lines(seq![position@], n).len()
                    == 0,
                Err(e) => starts_error(seq![position@]) == Some(e),
            },
    {
        let ghost v = position@;
        let positions = vec![position];
        proof {
            assert(positions_view(positions@) =~= seq![v]);
        }
        Self::with_multiple(positions, solutions_upto, silent)
    }

    /// Starts a search from several positions with the same side to move and
    /// the same stones.
    pub fn with_multiple(positions: Vec<Position>, solutions_upto: usize, silent: bool) -> (r: Result<Self, SolveError>)
        requires
            forall|i: int| 0 <= i < positions@.len() ==> (#[trigger] positions@[i]).wf(),
        ensures
            match r {
                Ok(s) => starts_error(positions_view(positions@)) is None && s.wf() && s.starts() == positions_view(
                    positions@,
                ) && s.upto() == solutions_upto && s.depth() == (if positions@[0]@.turn == Color::Black {
                    1nat
                } else {
                    0nat
                }) && forall|n: nat| n < s.depth() ==> #[trigger] starts_lines(positions_view(positions@), n).len() == 0,
                Err(e) => starts_error(positions_view(positions@)) == Some(e),
            },
    {
        let ghost ps = positions_view(positions@);
        if positions.len() == 0 {
            return Err(SolveError::NoInitialPositions);
        }
        let mut i: usize = 0;
        while i < positions.len()
            invariant
                ps == positions_view(positions@),
                forall|j: int| 0 <= j < positions@.len() ==> (#[trigger] positions@[j]).wf(),
                i <= positions@.len(),
                forall|j: int| 0 <= j < i ==> !illegal_initial(#[trigger] ps[j]),
            decreases positions@.len() - i,
        {
            if positions[i].is_illegal_initial_position() {
                assert(illegal_initial(ps[i as int]));
                return Err(SolveError::IllegalInitialPosition);
            }
            i = i + 1;
        }
        let turn = positions[0].turn;
        let mut i: usize = 0;
        while i < positions.len()
            invariant
                ps == positions_view(positions@),
                positions@.len() > 0,
                turn == ps[0].turn,
                i <= positions@.len(),
                forall|j: int| 0 <= j < positions@.len() ==> !illegal_initial(#[trigger] ps[j]),
                forall|j: int| 0 <= j < i ==> (#[trigger] ps[j]).turn == turn,
            decreases positions@.len() - i,
        {
            if positions[i].turn != turn {
                assert(ps[i as int].turn != ps[0].turn);
                return Err(SolveError::MultipleTurns);
            }
            i = i + 1;
        }
        let mut i: usize = 0;
        while i < positions.len()
            invariant
                ps == positions_view(positions@),
                positions@.len() > 0,
                forall|j: int| 0 <= j < positions@.len() ==> (#[trigger] positions@[j]).wf(),
                i <= positions@.len(),
                turn == ps[0].turn,
                forall|j: int| 0 <= j < positions@.len() ==> !illegal_initial(#[trigger] ps[j]),
                forall|j: int| 0 <= j < positions@.len() ==> (#[trigger] ps[j]).turn == turn,
                forall|j: int| 0 <= j < i ==> same_stones(#[trigger] ps[j], ps[0]),
            decreases positions@.len() - i,
        {
            let mut sq: usize = 0;
            while sq < 81
                invariant
                    ps == positions_view(positions@),
                    positions@.len() > 0,
                    i < positions@.len(),
                    turn == ps[0].turn,
                    forall|j: int| 0 <= j < positions@.len() ==> !illegal_initial(#[trigger] ps[j]),
                    forall|j: int| 0 <= j < positions@.len() ==> (#[trigger] ps[j]).turn == turn,
                    positions@[i as int].wf(),
                    positions@[0].wf(),
                    sq <= 81,
                    forall|t: int| 0 <= t < sq ==> (#[trigger] ps[i as int].cell(t) == Cell::Stone) == (ps[0].cell(t) == Cell::Stone),
                decreases 81 - sq,
            {
                proof {
                    assert(ps[i as int].cell(sq as int) == positions@[i as int].board@[sq as int]);
                    assert(ps[0].cell(sq as int) == positions@[0].board@[sq as int]);
                }
                if (positions[i].board[sq] == Cell::Stone) != (positions[0].board[sq] == Cell::Stone) {
                    assert(!same_stones(ps[i as int], ps[0]));
                    return Err(SolveError::MultipleStoneFormations);
                }
                sq = sq + 1;
            }
            i = i + 1;
        }
        let step: u16 = if turn == Color::Black {
            1
        } else {
            0
        };
        proof {
            assert forall|j: int| 0 <= j < positions@.len() implies (#[trigger] positions@[j]).turn == positions@[0].turn by {
                assert(ps[j].turn == turn);
                assert(ps[0].turn == turn);
            }
        }
        let explored = first_positions(false, &positions);
        let s = LowMemStandardSolver { initials: positions, solutions_upto, step, explored, fresh: 0 };
        proof {
            assert forall|n: nat| n < step implies #[trigger] starts_lines(ps, n).len() == 0 by {
                lemma_starts_parity(ps, n, turn);
            }
        }
        Ok(s)
    }

    /// Expands the frontier: reports the shortest lines when white is mated
    /// at a frontier position, no solution when the frontier is empty (or
    /// the length would pass `u16::MAX`), and otherwise records the new
    /// positions as the next frontier.
    pub fn advance(&mut self) -> (r: SolverStatus)
        requires
            old(self).wf(),
        ensures
            final(self).wf(),
            final(self).starts() == old(self).starts(),
            final(self).upto() == old(self).upto(),
            match r {
                SolverStatus::Intermediate(s) => final(self).depth() == old(self).depth() + 2 && s == final(self).depth()
                    && final(self).explored().take(old(self).explored().len() as int) == old(self).explored() && final(self).frontier() == final(self).explored().skip(old(self).explored().len() as int),
                SolverStatus::Mate(rec) => rec.found_mate() && rec.depth() == old(self).depth() && rec.answers(
                    old(self).starts(),
                    old(self).upto(),
                ),
                SolverStatus::NoSolution => forall|n: nat|
                    n <= u16::MAX ==> #[trigger] starts_lines(old(self).starts(), n).len() == 0,
            },
            !(r is Intermediate) ==> final(self).depth() == old(self).depth() && final(self).explored() == old(self).explored() && final(self).frontier() == old(self).frontier(),
            starts_error(final(self).starts()) is None,
            forall|n: nat| n < final(self).depth() ==> #[trigger] starts_lines(final(self).starts(), n).len() == 0,
            (r is Mate) <==> starts_lines(old(self).starts(), old(self).depth()).len() > 0,
            (r is NoSolution) <==> (old(self).frontier().len() == 0 || (starts_lines(
                old(self).starts(),
                old(self).depth(),
            ).len() == 0 && old(self).depth() >= u16::MAX - 1)),
            r is NoSolution && old(self).frontier().len() == 0 ==> forall|n: nat| #[trigger]
                starts_lines(old(self).starts(), n).len() == 0,
    {
        let ghost ps = self.starts();
        let ghost step0 = self.step as nat;
        let ghost v0 = self.explored@;
        proof {
            assert(self.frontier().len() == v0.len() - self.fresh);
            assert forall|s: int| 0 <= s < ps.len() implies (#[trigger] ps[s]).turn == Color::Black ==> step0 >= 1 by {
                assert(ps[s].turn == ps[0].turn);
            }
            assert forall|s: int| 0 <= s < ps.len() implies (step0 % 2 == 1 <==> (#[trigger] ps[s]).turn == Color::Black) by {
                assert(ps[s].turn == ps[0].turn);
            }
        }
        if self.fresh >= self.explored.len() {
            proof {
                lemma_std_search_complete(ps, step0, positions_view(v0));
            }
            return SolverStatus::NoSolution;
        }
        let copied = copy_positions(&self.explored);
        proof {
            assert forall|i: int| 0 <= i < copied@.len() implies (#[trigger] copied@[i])@.turn == Color::White by {
                assert(positions_view(v0)[i] == copied@[i]@);
                assert(reached_within(false, ps, step0, positions_view(v0)[i]));
                let s = choose|s: int| 0 <= s < ps.len() && #[trigger] reached_from(false, ps[s], step0, positions_view(v0)[i]);
            }
        }
        let (next, mate) = expand(false, copied, self.fresh);
        proof {
            lemma_std_mate_found(ps, step0, copied@, self.fresh as int);
            lemma_search_step(false, ps, step0, copied@, self.fresh as int, next@);
        }
        if mate {
            let cap: usize = if self.solutions_upto == 0 {
                1
            } else {
                self.solutions_upto
            };
            let mut path: Vec<Movement> = Vec::new();
            let mut lines: Vec<Vec<Movement>> = Vec::new();
            let mut i: usize = 0;
            proof {
                assert(ps.take(0) =~= Seq::<PositionView>::empty());
                assert(lines_view(lines@) =~= Seq::<Seq<Movement>>::empty());
            }
            while i < self.initials.len()
                invariant
                    ps == positions_view(self.initials@),
                    forall|j: int| 0 <= j < self.initials@.len() ==> (#[trigger] self.initials@[j]).wf(),
                    i <= self.initials@.len(),
                    path@ == Seq::<Movement>::empty(),
                    lines_view(lines@) == fill(Seq::empty(), starts_lines(ps.take(i as int), self.step as nat), cap as nat),
                decreases self.initials@.len() - i,
            {
                collect_mates(&self.initials[i], self.step as usize, cap, &mut path, &mut lines);
                proof {
                    lemma_starts_take(ps, i as int, self.step as nat);
                    lemma_fill_twice(
                        Seq::empty(),
                        starts_lines(ps.take(i as int), self.step as nat),
                        mate_lines(ps[i as int], self.step as nat, Seq::empty()),
                        cap as nat,
                    );
                }
                i = i + 1;
            }
            let ghost all = starts_lines(ps, step0);
            proof {
                assert(ps.take(self.initials@.len() as int) =~= ps);
                lemma_fill_take(Seq::empty(), all, cap as nat);
                lemma_fill_take(Seq::empty(), all, self.solutions_upto as nat);
                assert(lines_view(lines@).len() == lines@.len());
            }
            let kept = if self.solutions_upto == 0 {
                Vec::new()
            } else {
                lines
            };
            proof {
                if self.solutions_upto == 0 {
                    assert(lines_view(kept@) =~= Seq::<Seq<Movement>>::empty());
                    assert(all.take(0) =~= Seq::<Seq<Movement>>::empty());
                    assert(Seq::<Seq<Movement>>::empty() + all.take(0) =~= Seq::<Seq<Movement>>::empty());
                }
            }
            return SolverStatus::Mate(Reconstructor { lines: kept, found: true, mate_in: self.step });
        }
        if self.step >= u16::MAX - 1 {
            proof {
                assert forall|n: nat| n <= u16::MAX implies #[trigger] starts_lines(ps, n).len() == 0 by {
                    if n > step0 {
                        lemma_starts_parity(ps, n, ps[0].turn);
                    }
                }
            }
            return SolverStatus::NoSolution;
        }
        let old_len = self.explored.len();
        self.explored = next;
        self.fresh = old_len;
        self.step = self.step + 2;
        proof {
            assert forall|n: nat| n < self.step implies #[trigger] starts_lines(ps, n).len() == 0 by {
                if n == step0 + 1 {
                    lemma_starts_parity(ps, n, ps[0].turn);
                }
            }
            assert(positions_view(next@).take(old_len as int) =~= positions_view(v0));
            assert(self.frontier() =~= self.explored().skip(old_len as int));
        }
        SolverStatus::Intermediate(self.step as u32)
    }
}

/// The length of the lines the `j`-th round of the search looks for from
/// starts with white to move (none, two, four moves) or black to move (one,
/// three, five moves).
pub open spec fn std_round_length(turn: Color, j: nat) -> nat {
    (if turn == Color::Black {
        1nat
    } else {
        0nat
    }) + 2 * j
}

/// Over successive rounds: when the rounds before the `k`-th found no
/// mating line of their length, no start has a mating line shorter than the
/// `k`-th round's length, so the first round that finds lines finds the
/// shortest ones.
pub proof fn lemma_std_rounds_shortest(ps: Seq<PositionView>, turn: Color, k: nat)
    requires
        forall|i: int| 0 <= i < ps.len() ==> (#[trigger] ps[i]).turn == turn,
        forall|j: nat| j < k ==> #[trigger] starts_lines(ps, std_round_length(turn, j)).len() == 0,
    ensures
        forall|n: nat| n < std_round_length(turn, k) ==> #[trigger] starts_lines(ps, n).len() == 0,
{
    assert forall|n: nat| n < std_round_length(turn, k) implies #[trigger] starts_lines(ps, n).len() == 0 by {
        let s0: nat = if turn == Color::Black { 1nat } else { 0nat };
        if n >= s0 && (n - s0) % 2 == 0 {
            let j: nat = ((n - s0) / 2) as nat;
            assert(std_round_length(turn, j) == n);
        } else {
            lemma_starts_parity(ps, n, turn);
        }
    }
}

/// Searches one position for its shortest helpmates, keeping up to
/// `solutions_upto` lines.
pub fn low_mem_standard_solve(position: Position, solutions_upto: usize, silent: bool) -> (r: Result<
    Reconstructor,
    SolveError,
>)
    requires
        position.wf(),
    ensures
        match r {
            Ok(rec) => rec.answers(seq![position@], solutions_upto as nat),
            Err(e) => starts_error(seq![position@]) == Some(e),
        },
{
    let ghost v = position@;
    let positions = vec![position];
    proof {
        assert(positions_view(positions@) =~= seq![v]);
    }
    low_mem_standard_solve_mult(positions, solutions_upto, silent)
}

/// Searches several positions with the same side to move for their shortest
/// helpmates, keeping up to `solutions_upto` lines.
pub fn low_mem_standard_solve_mult(positions: Vec<Position>, solutions_upto: usize, silent: bool) -> (r: Result<
    Reconstructor,
    SolveError,
>)
    requires
        forall|i: int| 0 <= i < positions@.len() ==> (#[trigger] positions@[i]).wf(),
    ensures
        match r {
            Ok(rec) => rec.answers(positions_view(positions@), solutions_upto as nat),
            Err(e) => starts_error(positions_view(positions@)) == Some(e),
        },
{
    let ghost ps = positions_view(positions@);
    let mut solver = match LowMemStandardSolver::with_multiple(positions, solutions_upto, silent) {
        Ok(s) => s,
        Err(e) => {
            return Err(e);
        },
    };
    loop
        invariant
            solver.wf(),
            solver.starts() == ps,
            ps == positions_view(positions@),
            solver.upto() == solutions_upto,
        decreases u16::MAX - solver.depth(),
    {
        match solver.advance() {
            SolverStatus::Intermediate(_) => {},
            SolverStatus::Mate(rec) => {
                return Ok(rec);
            },
            SolverStatus::NoSolution => {
                return Ok(Reconstructor::no_solution());
            },
        }
    }
}

} // verus!
