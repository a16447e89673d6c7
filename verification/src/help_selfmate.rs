use vstd::prelude::*;

use vstd::string::StringExecFns;

use crate::census::count_kind;
use crate::moves::{advance, apply, generated, generated_seq, is_legal_mate, is_mate, legal, moved};
use crate::piece::{Color, Kind};
use crate::position::{Movement, Position, PositionView};
use crate::problem::{illegal_initial, kings};
use crate::rules::{in_check, in_check_exec};
use crate::breadth::{
    all_wf, copy_positions, expand, first_positions, lemma_mate_found, lemma_reached_count, lemma_search_complete,
    lemma_search_step, reached_set, reached_within, search_state,
};
use crate::low_mem::positions_view;

verus! {

/// The end of a help selfmate: black to move, mated, and not by a pawn drop
/// (a pawn-drop mate is illegal).
pub open spec fn help_selfmate_end(p: PositionView) -> bool {
    p.turn == Color::Black && !p.pawn_drop && is_mate(p)
}

/// Whether `p` ends a help selfmate.
pub fn is_help_selfmate(p: &Position) -> (r: bool)
    requires
        p.wf(),
    ensures
        r == help_selfmate_end(p@),
{
    p.turn.is_black() && !p.pawn_drop && is_legal_mate(p)
}

/// Why a position cannot start a help selfmate search.
#[derive(Clone, Copy, Debug, PartialEq, Eq, Structural)]
pub enum HelpSelfmateError {
    /// The board does not hold exactly one black king.
    BlackKingCount,
    /// The board does not hold exactly one white king.
    WhiteKingCount,
    /// Two pawns of a side share a file, or a piece can never move again.
    IllegalInitialPosition,
    /// The side not to move is in check.
    NonMovingSideChecked,
    /// White is to move without being in check.
    WhiteNotChecked,
}

/// The message of an error.
pub open spec fn help_selfmate_error_text(e: HelpSelfmateError) -> Seq<char> {
    match e {
        HelpSelfmateError::BlackKingCount => "Help-selfmate requires exactly one black king"@,
        HelpSelfmateError::WhiteKingCount => "Help-selfmate requires exactly one white king"@,
        HelpSelfmateError::IllegalInitialPosition => "Illegal initial position"@,
        HelpSelfmateError::NonMovingSideChecked => "The non-moving side is already checked"@,
        HelpSelfmateError::WhiteNotChecked => "White-to-move initial position is not checked"@,
    }
}

impl HelpSelfmateError {
    /// The message for this error.
    pub fn to_string(&self) -> (r: String)
        ensures
            r@ == help_selfmate_error_text(*self),
    {
        let mut s = String::new();
        match *self {
            HelpSelfmateError::BlackKingCount => s.append("Help-selfmate requires exactly one black king"),
            HelpSelfmateError::WhiteKingCount => s.append("Help-selfmate requires exactly one white king"),
            HelpSelfmateError::IllegalInitialPosition => s.append("Illegal initial position"),
            HelpSelfmateError::NonMovingSideChecked => s.append("The non-moving side is already checked"),
            HelpSelfmateError::WhiteNotChecked => s.append("White-to-move initial position is not checked"),
        }
        proof {
            assert(s@ =~= help_selfmate_error_text(*self));
        }
        s
    }
}

/// The first reason why `p` cannot start a help selfmate, if any: one king
/// of each side, a legal layout, and the side not to move not in check.
pub open spec fn start_error(p: PositionView) -> Option<HelpSelfmateError> {
    if kings(p, Color::Black) != 1 {
        Some(HelpSelfmateError::BlackKingCount)
    } else if kings(p, Color::White) != 1 {
        Some(HelpSelfmateError::WhiteKingCount)
    } else if illegal_initial(p) {
        Some(HelpSelfmateError::IllegalInitialPosition)
    } else if in_check(p, p.turn.spec_opposite()) {
        Some(HelpSelfmateError::NonMovingSideChecked)
    } else {
        None
    }
}

/// A white start must be a position where white is in check.
pub open spec fn unchecked_white_start(p: PositionView) -> bool {
    p.turn == Color::White && !in_check(p, Color::White)
}

fn validate_initial_position(p: &Position) -> (r: Result<(), HelpSelfmateError>)
    requires
        p.wf(),
    ensures
        match r {
            Ok(()) => start_error(p@) is None,
            Err(e) => start_error(p@) == Some(e),
        },
{
    if count_kind(p, Color::Black, Kind::King) != 1 {
        return Err(HelpSelfmateError::BlackKingCount);
    }
    if count_kind(p, Color::White, Kind::King) != 1 {
        return Err(HelpSelfmateError::WhiteKingCount);
    }
    if p.is_illegal_initial_position() {
        return Err(HelpSelfmateError::IllegalInitialPosition);
    }
    if in_check_exec(p, p.turn.opposite()) {
        return Err(HelpSelfmateError::NonMovingSideChecked);
    }
    Ok(())
}

/// The moves searched from `p`: black's checks, or white's legal moves.
pub open spec fn searched(p: PositionView) -> Seq<Movement> {
    generated_seq(p, p.turn == Color::Black)
}

/// The lines of exactly `n` more moves from `p`, each after `prefix`, that
/// end in a help selfmate and pass through none earlier, in the order of
/// the searched moves.
pub open spec fn hsm_lines(p: PositionView, n: nat, prefix: Seq<Movement>) -> Seq<Seq<Movement>>
    decreases n, 1nat, 0nat,
{
    if n == 0 {
        Seq::empty()
    } else {
        hsm_lines_from(p, n, prefix, searched(p), 0)
    }
}

/// The lines of `hsm_lines` that start with the moves `ms[k..]`.
pub open spec fn hsm_lines_from(p: PositionView, n: nat, prefix: Seq<Movement>, ms: Seq<Movement>, k: int) -> Seq<
    Seq<Movement>,
>
    decreases n, 0nat, (if k < ms.len() { ms.len() - k } else { 0 }) as nat,
{
    if k < 0 || k >= ms.len() || n == 0 {
        Seq::empty()
    } else {
        hsm_branch(p, n, prefix, ms[k]) + hsm_lines_from(p, n, prefix, ms, k + 1)
    }
}

/// The lines of `hsm_lines` that start with the move `m`.
pub open spec fn hsm_branch(p: PositionView, n: nat, prefix: Seq<Movement>, m: Movement) -> Seq<Seq<Movement>>
    decreases n, 0nat, 0nat,
{
    let q = apply(p, m);
    if n == 0 {
        Seq::empty()
    } else if help_selfmate_end(q) {
        if n == 1 {
            seq![prefix.push(m)]
        } else {
            Seq::empty()
        }
    } else {
        hsm_lines(q, (n - 1) as nat, prefix.push(m))
    }
}

/// The solutions `s` with those of `ps` added in order while fewer than `m`.
pub open spec fn fill(s: Seq<Seq<Movement>>, ps: Seq<Seq<Movement>>, m: nat) -> Seq<Seq<Movement>>
    decreases ps.len(),
{
    if ps.len() == 0 || s.len() >= m {
        s
    } else {
        fill(s.push(ps[0]), ps.drop_first(), m)
    }
}

/// Filling twice is filling with both lists.
pub proof fn lemma_fill_twice(s: Seq<Seq<Movement>>, p: Seq<Seq<Movement>>, q: Seq<Seq<Movement>>, m: nat)
    ensures
        fill(fill(s, p, m), q, m) == fill(s, p + q, m),
    decreases p.len(),
{
    if p.len() == 0 {
        assert(p + q =~= q);
    } else if s.len() >= m {
    } else {
        assert((p + q).drop_first() =~= p.drop_first() + q);
        assert((p + q)[0] == p[0]);
        lemma_fill_twice(s.push(p[0]), p.drop_first(), q, m);
    }
}

/// Filling keeps `s` and adds the first lines of `ps` up to `m` in all.
pub proof fn lemma_fill_take(s: Seq<Seq<Movement>>, ps: Seq<Seq<Movement>>, m: nat)
    requires
        s.len() <= m,
    ensures
        fill(s, ps, m) == s + ps.take(if ps.len() <= m - s.len() { ps.len() as int } else { m - s.len() }),
    decreases ps.len(),
{
    if ps.len() == 0 {
        assert(ps.take(0) =~= Seq::<Seq<Movement>>::empty());
        assert(s + ps.take(0) =~= s);
    } else if s.len() >= m {
        assert(ps.take(0) =~= Seq::<Seq<Movement>>::empty());
        assert(s + ps.take(0) =~= s);
    } else {
        lemma_fill_take(s.push(ps[0]), ps.drop_first(), m);
        let t = if ps.len() <= m - s.len() { ps.len() as int } else { m - s.len() };
        assert(s.push(ps[0]) + ps.drop_first().take(t - 1) =~= s + ps.take(t));
    }
}

/// The views of a list of lines.
pub open spec fn lines_view(v: Seq<Vec<Movement>>) -> Seq<Seq<Movement>> {
    Seq::new(v.len(), |i: int| v[i]@)
}

/// A searched move can be played.
proof fn lemma_searched_playable(p: PositionView, ms: Seq<Movement>, k: int)
    requires
        ms == searched(p),
        0 <= k < ms.len(),
        forall|m: Movement| ms.contains(m) <==> generated(p, p.turn == Color::Black, m),
    ensures
        legal(p, ms[k]),
{
    assert(ms.contains(ms[k]));
}

/// Appends to `solutions` the lines of `hsm_lines` from `p` after `path`,
/// while fewer than `upto` are found.
fn bounded_search(
    p: &Position,
    remaining: usize,
    upto: usize,
    path: &mut Vec<Movement>,
    solutions: &mut Vec<Vec<Movement>>,
)
    requires
        p.wf(),
    ensures
        final(path)@ == old(path)@,
        lines_view(final(solutions)@) == fill(lines_view(old(solutions)@), hsm_lines(p@, remaining as nat, old(path)@), upto as nat),
    decreases remaining,
{
    let ghost all = hsm_lines(p@, remaining as nat, path@);
    if remaining == 0 || solutions.len() >= upto {
        return ;
    }
    let (moves, stuck) = advance(p);
    let ghost ms = moves@;
    if stuck {
        proof {
            if ms.len() > 0 {
                assert(ms.contains(ms[0]));
            }
        }
        return ;
    }
    let ghost start = lines_view(solutions@);
    let ghost p0 = path@;
    let mut k: usize = 0;
    while k < moves.len()
        invariant
            p.wf(),
            remaining > 0,
            ms == moves@,
            ms == searched(p@),
            forall|m: Movement| ms.contains(m) <==> generated(p@, p@.turn == Color::Black, m),
            k <= ms.len(),
            path@ == p0,
            p0 == old(path)@,
            start == lines_view(old(solutions)@),
            all == hsm_lines(p@, remaining as nat, p0),
            fill(lines_view(solutions@), hsm_lines_from(p@, remaining as nat, p0, ms, k as int), upto as nat) == fill(
                start,
                all,
                upto as nat,
            ),
        decreases ms.len() - k,
    {
        if solutions.len() >= upto {
            return ;
        }
        let m = moves[k];
        proof {
            lemma_searched_playable(p@, ms, k as int);
        }
        let next = moved(p, m);
        let ghost before = lines_view(solutions@);
        let ghost rest = hsm_lines_from(p@, remaining as nat, p0, ms, k + 1);
        let ghost here = hsm_branch(p@, remaining as nat, p0, m);
        path.push(m);
        if is_help_selfmate(&next) {
            if remaining == 1 {
                let line = path.clone();
                proof {
                    assert(line@ =~= p0.push(m));
                }
                solutions.push(line);
                proof {
                    assert(lines_view(solutions@) =~= before.push(p0.push(m)));
                    assert(here == seq![p0.push(m)]);
                    assert(here.drop_first() =~= Seq::<Seq<Movement>>::empty());
                    assert(fill(before.push(p0.push(m)), here.drop_first(), upto as nat) == before.push(p0.push(m)));
                    assert(fill(before, here, upto as nat) == before.push(p0.push(m)));
                    lemma_fill_twice(before, here, rest, upto as nat);
                }
            } else {
                proof {
                    assert(here =~= Seq::<Seq<Movement>>::empty());
                    assert(here + rest =~= rest);
                    assert(lines_view(solutions@) == before);
                }
            }
        } else if remaining > 1 {
            bounded_search(&next, remaining - 1, upto, path, solutions);
            proof {
                lemma_fill_twice(before, here, rest, upto as nat);
            }
        } else {
            proof {
                assert(here =~= Seq::<Seq<Movement>>::empty());
                assert(here + rest =~= rest);
            }
        }
        let _ = path.pop();
        proof {
            assert(path@ =~= p0);
            assert(hsm_lines_from(p@, remaining as nat, p0, ms, k as int) == here + rest);
            assert(fill(lines_view(solutions@), rest, upto as nat) == fill(before, here + rest, upto as nat));
            assert(lines_view(solutions@) == fill(before, here, upto as nat));
        }
        k = k + 1;
    }
}

/// The lines of at most `n` moves from `p`, shortest first.
pub open spec fn lines_within(p: PositionView, n: nat) -> Seq<Seq<Movement>>
    decreases n,
{
    if n == 0 {
        Seq::empty()
    } else {
        lines_within(p, (n - 1) as nat) + hsm_lines(p, n, Seq::empty())
    }
}

/// Why `help_selfmate_solutions_within` refuses `p`, if it does.
pub open spec fn within_error(p: PositionView, max_plies: nat, upto: nat) -> Option<HelpSelfmateError> {
    if start_error(p) is Some {
        start_error(p)
    } else if max_plies == 0 || upto == 0 {
        None
    } else if unchecked_white_start(p) {
        Some(HelpSelfmateError::WhiteNotChecked)
    } else {
        None
    }
}

proof fn lemma_fill_rest(p: PositionView, n: nat, m: nat, cap: nat)
    requires
        n <= m,
        fill(Seq::empty(), lines_within(p, n), cap).len() >= cap,
    ensures
        fill(Seq::empty(), lines_within(p, m), cap) == fill(Seq::empty(), lines_within(p, n), cap),
    decreases m - n,
{
    if m > n {
        lemma_fill_rest(p, n, (m - 1) as nat, cap);
        lemma_fill_twice(Seq::empty(), lines_within(p, (m - 1) as nat), hsm_lines(p, m, Seq::empty()), cap);
    }
}

/// Every help selfmate line of at most `max_plies` moves, shortest first and
/// in the order of the searched moves, up to `solutions_upto` of them.
pub fn help_selfmate_solutions_within(position: Position, max_plies: usize, solutions_upto: usize) -> (r: Result<
    Vec<Vec<Movement>>,
    HelpSelfmateError,
>)
    requires
        position.wf(),
    ensures
        match r {
            Ok(v) => within_error(position@, max_plies as nat, solutions_upto as nat) is None && lines_view(v@) == fill(
                Seq::empty(),
                lines_within(position@, max_plies as nat),
                solutions_upto as nat,
            ),
            Err(e) => within_error(position@, max_plies as nat, solutions_upto as nat) == Some(e),
        },
{
    let ghost p = position@;
    match validate_initial_position(&position) {
        Err(e) => {
            return Err(e);
        },
        Ok(()) => {},
    }
    let mut solutions: Vec<Vec<Movement>> = Vec::new();
    if max_plies == 0 || solutions_upto == 0 {
        proof {
            assert(lines_view(solutions@) =~= Seq::<Seq<Movement>>::empty());
            if max_plies == 0 {
                assert(lines_within(p, 0) =~= Seq::<Seq<Movement>>::empty());
            }
            assert(fill(Seq::empty(), lines_within(p, max_plies as nat), solutions_upto as nat) =~= Seq::<
                Seq<Movement>,
            >::empty());
        }
        return Ok(solutions);
    }
    if position.turn.is_white() && !in_check_exec(&position, Color::White) {
        return Err(HelpSelfmateError::WhiteNotChecked);
    }
    let mut path: Vec<Movement> = Vec::new();
    let mut target: usize = 0;
    proof {
        assert(lines_view(solutions@) =~= fill(Seq::empty(), lines_within(p, 0), solutions_upto as nat));
    }
    while target < max_plies
        invariant
            position.wf(),
            p == position@,
            within_error(p, max_plies as nat, solutions_upto as nat) is None,
            target <= max_plies,
            path@ == Seq::<Movement>::empty(),
            lines_view(solutions@) == fill(Seq::empty(), lines_within(p, target as nat), solutions_upto as nat),
        decreases max_plies - target,
    {
        if solutions.len() >= solutions_upto {
            proof {
                assert(lines_view(solutions@).len() == solutions@.len());
                lemma_fill_rest(p, target as nat, max_plies as nat, solutions_upto as nat);
            }
            return Ok(solutions);
        }
        target = target + 1;
        bounded_search(&position, target, solutions_upto, &mut path, &mut solutions);
        proof {
            lemma_fill_twice(
                Seq::empty(),
                lines_within(p, (target - 1) as nat),
                hsm_lines(p, target as nat, Seq::empty()),
                solutions_upto as nat,
            );
        }
    }
    Ok(solutions)
}

/// A line that ends in a help selfmate ends after a white move: its length
/// is odd exactly when white moves first.
pub proof fn lemma_lines_parity(p: PositionView, n: nat, prefix: Seq<Movement>)
    ensures
        hsm_lines(p, n, prefix).len() > 0 ==> (n % 2 == 1 <==> p.turn == Color::White),
    decreases n, 1nat, 0nat,
{
    if n > 0 {
        lemma_lines_from_parity(p, n, prefix, searched(p), 0);
    }
}

proof fn lemma_lines_from_parity(p: PositionView, n: nat, prefix: Seq<Movement>, ms: Seq<Movement>, k: int)
    ensures
        hsm_lines_from(p, n, prefix, ms, k).len() > 0 ==> (n % 2 == 1 <==> p.turn == Color::White),
    decreases n, 0nat, (if k < ms.len() { ms.len() - k } else { 0 }) as nat,
{
    if 0 <= k < ms.len() && n > 0 {
        lemma_lines_from_parity(p, n, prefix, ms, k + 1);
        let q = apply(p, ms[k]);
        assert(q.turn == p.turn.spec_opposite());
        let here = hsm_branch(p, n, prefix, ms[k]);
        let rest = hsm_lines_from(p, n, prefix, ms, k + 1);
        assert(hsm_lines_from(p, n, prefix, ms, k) == here + rest);
        if !help_selfmate_end(q) {
            lemma_lines_parity(q, (n - 1) as nat, prefix.push(ms[k]));
            assert(here == hsm_lines(q, (n - 1) as nat, prefix.push(ms[k])));
        }
        if here.len() > 0 {
            assert(n % 2 == 1 <==> p.turn == Color::White);
        }
    }
}

/// Why a shortest-line search refuses `p`, if it does.
pub open spec fn solver_error(p: PositionView) -> Option<HelpSelfmateError> {
    if start_error(p) is Some {
        start_error(p)
    } else if unchecked_white_start(p) {
        Some(HelpSelfmateError::WhiteNotChecked)
    } else {
        None
    }
}

/// What a finished shortest-line search answers for `p`: when a mate was
/// found, `mate_in` is the least length of a line ending in a help selfmate
/// and `lines` are the first `upto` lines of that length; otherwise no line
/// of at most `u16::MAX` moves ends in one.
pub open spec fn solved(p: PositionView, upto: nat, found: bool, mate_in: nat, lines: Seq<Seq<Movement>>) -> bool {
    if found {
        &&& mate_in >= 1
        &&& hsm_lines(p, mate_in, Seq::empty()).len() > 0
        &&& forall|n: nat| 1 <= n < mate_in ==> #[trigger] hsm_lines(p, n, Seq::empty()).len() == 0
        &&& lines == fill(Seq::empty(), hsm_lines(p, mate_in, Seq::empty()), upto)
    } else {
        &&& lines.len() == 0
        &&& forall|n: nat| 1 <= n <= u16::MAX ==> #[trigger] hsm_lines(p, n, Seq::empty()).len() == 0
    }
}

/// The shortest help selfmate lines found by a search.
pub struct HelpSelfmateReconstructor {
    lines: Vec<Vec<Movement>>,
    found: bool,
    mate_in: u16,
    visited: usize,
}

impl HelpSelfmateReconstructor {
    /// Whether a mate was found.
    pub closed spec fn found_mate(&self) -> bool {
        self.found
    }

    /// The length of the lines found.
    pub closed spec fn depth(&self) -> nat {
        self.mate_in as nat
    }

    /// The lines kept.
    pub closed spec fn lines(&self) -> Seq<Seq<Movement>> {
        lines_view(self.lines@)
    }

    /// The number of positions with white to move that the search recorded.
    pub closed spec fn played(&self) -> nat {
        self.visited as nat
    }

    /// This is the answer of a search from `p` keeping `upto` lines: the
    /// lines, and the positions with white to move recorded by the search,
    /// which are those reached by clear paths of at most `depth + 1` moves,
    /// none when there is no mate.
    pub open spec fn answers(&self, p: PositionView, upto: nat) -> bool {
        &&& solved(p, upto, self.found_mate(), self.depth(), self.lines())
        &&& self.played() == if self.found_mate() {
            reached_set(true, seq![p], self.depth() + 1).len()
        } else {
            0
        }
    }

    fn no_solution() -> (r: Self)
        ensures
            !r.found_mate(),
            r.lines().len() == 0,
            r.played() == 0,
    {
        HelpSelfmateReconstructor { lines: Vec::new(), found: false, mate_in: 0, visited: 0 }
    }

    /// The number of moves of the lines, when a mate was found.
    pub fn mate_in(&self) -> (r: Option<u16>)
        ensures
            r == (if self.found_mate() {
                Some(self.depth() as u16)
            } else {
                None::<u16>
            }),
    {
        if self.found {
            Some(self.mate_in)
        } else {
            None
        }
    }

    /// Whether no mate was found.
    pub fn is_empty(&self) -> (r: bool)
        ensures
            r == !self.found_mate(),
    {
        !self.found
    }

    /// The number of positions with white to move that the search recorded.
    pub fn cached_positions(&self) -> (r: usize)
        ensures
            r == self.played(),
    {
        self.visited
    }

    /// The lines found.
    pub fn solutions(&self) -> (r: Vec<Vec<Movement>>)
        ensures
            lines_view(r@) == self.lines(),
    {
        let mut r: Vec<Vec<Movement>> = Vec::new();
        let mut i: usize = 0;
        while i < self.lines.len()
            invariant
                i <= self.lines@.len(),
                lines_view(r@) == lines_view(self.lines@).take(i as int),
            decreases self.lines@.len() - i,
        {
            let line = self.lines[i].clone();
            proof {
                assert(line@ =~= self.lines@[i as int]@);
            }
            let ghost before = r@;
            r.push(line);
            proof {
                assert(lines_view(r@) =~= lines_view(before).push(line@));
                assert(lines_view(r@) =~= lines_view(self.lines@).take(i + 1));
            }
            i = i + 1;
        }
        proof {
            assert(lines_view(self.lines@).take(i as int) =~= lines_view(self.lines@));
        }
        r
    }
}

/// What a round of the shortest-line search reports.
pub enum HelpSelfmateSolverStatus {
    /// No line of the searched length mates; the next round searches lines
    /// two moves longer, this many moves in from the start.
    Intermediate(u32),
    /// The shortest lines were found.
    Mate(HelpSelfmateReconstructor),
    /// No line mates.
    NoSolution,
}

/// The shortest-line help selfmate search, breadth first, one length per
/// round: lines of one, three, five moves from a white start; of two, four,
/// six from a black start. The positions with white to move are recorded
/// once each; a round expands those first reached in the round before, and
/// the search ends without a solution once a round adds none.
pub struct HelpSelfmateSolver {
    initial: Position,
    solutions_upto: usize,
    step: u16,
    explored: Vec<Position>,
    fresh: usize,
}

impl HelpSelfmateSolver {
    /// The starting position.
    pub closed spec fn position(&self) -> PositionView {
        self.initial@
    }

    /// The number of lines kept.
    pub closed spec fn upto(&self) -> nat {
        self.solutions_upto as nat
    }

    /// Moves already searched past: the next round searches lines of one
    /// move more.
    pub closed spec fn depth(&self) -> nat {
        self.step as nat
    }

    /// The positions with white to move recorded so far, in the order found.
    pub closed spec fn explored(&self) -> Seq<PositionView> {
        positions_view(self.explored@)
    }

    /// The recorded positions the next round expands: those first reached
    /// in the last round.
    pub closed spec fn frontier(&self) -> Seq<PositionView> {
        positions_view(self.explored@).subrange(self.fresh as int, self.explored@.len() as int)
    }

    /// The search is under way: the start is acceptable, no line of at most
    /// `depth` moves ends in a help selfmate, and the recorded positions are
    /// exactly those reached within `depth` moves, all but the frontier
    /// expanded.
    pub closed spec fn wf(&self) -> bool {
        &&& self.initial.wf()
        &&& solver_error(self.initial@) is None
        &&& self.step <= u16::MAX - 1
        &&& (self.step % 2 == 1 <==> self.initial@.turn == Color::Black)
        &&& forall|n: nat| 1 <= n <= self.step ==> #[trigger] hsm_lines(self.initial@, n, Seq::empty()).len() == 0
        &&& all_wf(self.explored@)
        &&& search_state(true, seq![self.initial@], self.step as nat, positions_view(self.explored@), self.fresh as int)
    }

    /// What holds between any two rounds: the depth is odd exactly from a
    /// black start (so after `k` rounds that went on it is the starting depth
    /// plus `2k`), no help selfmate line of at most `depth` moves exists, and
    /// the recorded positions are, once each, those with white to move
    /// reached by clear paths of at most `depth` moves, the frontier being
    /// their last part.
    pub proof fn lemma_round_state(&self)
        requires
            self.wf(),
        ensures
            self.depth() % 2 == (if self.position().turn == Color::Black {
                1nat
            } else {
                0nat
            }),
            self.depth() < u16::MAX,
            forall|n: nat| 1 <= n <= self.depth() ==> #[trigger] hsm_lines(self.position(), n, Seq::empty()).len() == 0,
            self.explored().no_duplicates(),
            self.explored().to_set() == reached_set(true, seq![self.position()], self.depth()),
            self.explored().len() == reached_set(true, seq![self.position()], self.depth()).len(),
            self.frontier().len() <= self.explored().len(),
            self.frontier() == self.explored().skip(self.explored().len() - self.frontier().len()),
    {
        lemma_reached_count(true, seq![self.initial@], self.step as nat, positions_view(self.explored@));
        assert(self.frontier() =~= self.explored().skip(self.explored().len() - self.frontier().len()));
    }

    /// When a round finds no position to expand, no help selfmate line of
    /// any length exists.
    pub proof fn lemma_exhausted(&self)
        requires
            self.wf(),
            self.frontier().len() == 0,
        ensures
            forall|n: nat| #[trigger] hsm_lines(self.position(), n, Seq::empty()).len() == 0,
    {
        lemma_search_complete(self.initial@, self.step as nat, positions_view(self.explored@));
    }

    /// Starts a search from `position`, keeping up to `solutions_upto` lines.
    /// The search reports no progress, so `silent` changes nothing.
    pub fn new(position: Position, solutions_upto: usize, silent: bool) -> (r: Result<Self, HelpSelfmateError>)
        requires
            position.wf(),
        ensures
            match r {
                Ok(s) => solver_error(position@) is None && s.wf() && s.position() == position@ && s.upto()
                    == solutions_upto && s.depth() == (if position@.turn == Color::Black {
                    1nat
                } else {
                    0nat
                }) && s.frontier() == s.explored() && forall|n: nat|
                    1 <= n <= s.depth() ==> #[trigger] hsm_lines(position@, n, Seq::empty()).len() == 0,
                Err(e) => solver_error(position@) == Some(e),
            },
    {
        match validate_initial_position(&position) {
            Err(e) => {
                return Err(e);
            },
            Ok(()) => {},
        }
        let step: u16 = if position.turn.is_black() {
            1
        } else {
            if !in_check_exec(&position, Color::White) {
                return Err(HelpSelfmateError::WhiteNotChecked);
            }
            0
        };
        proof {
            assert forall|n: nat| 1 <= n <= step implies #[trigger] hsm_lines(position@, n, Seq::empty()).len() == 0 by {
                lemma_lines_parity(position@, n, Seq::empty());
            }
        }
        let first = position.copy();
        proof {
            assert(first@.board == position@.board);
            assert(first@.hands == position@.hands);
            assert(first@ == position@);
        }
        let starts = vec![first];
        proof {
            assert(positions_view(starts@) =~= seq![position@]);
        }
        let explored = first_positions(true, &starts);
        let s = HelpSelfmateSolver { initial: position, solutions_upto, step, explored, fresh: 0 };
        proof {
            assert(s.frontier() =~= s.explored());
        }
        Ok(s)
    }

    /// Expands the frontier: reports the shortest lines when a help selfmate
    /// follows a frontier position, no solution when the frontier is empty
    /// (or the length would pass `u16::MAX`), and otherwise records the new
    /// positions as the next frontier.
    pub fn advance(&mut self) -> (r: HelpSelfmateSolverStatus)
        requires
            old(self).wf(),
        ensures
            final(self).wf(),
            final(self).position() == old(self).position(),
            final(self).upto() == old(self).upto(),
            match r {
                HelpSelfmateSolverStatus::Intermediate(s) => final(self).depth() == old(self).depth() + 2 && s
                    == final(self).depth() && final(self).explored().take(old(self).explored().len() as int)
                    == old(self).explored() && final(self).frontier() == final(self).explored().skip(
                    old(self).explored().len() as int,
                ),
                HelpSelfmateSolverStatus::Mate(rec) => rec.found_mate() && rec.depth() == old(self).depth() + 1
                    && rec.answers(old(self).position(), old(self).upto()),
                HelpSelfmateSolverStatus::NoSolution => forall|n: nat|
                    1 <= n <= u16::MAX ==> #[trigger] hsm_lines(old(self).position(), n, Seq::empty()).len() == 0,
            },
            !(r is Intermediate) ==> final(self).depth() == old(self).depth() && final(self).explored()
                == old(self).explored() && final(self).frontier() == old(self).frontier(),
            forall|n: nat|
                1 <= n <= final(self).depth() ==> #[trigger] hsm_lines(final(self).position(), n, Seq::empty()).len() == 0,
            (r is Mate) <==> hsm_lines(old(self).position(), old(self).depth() + 1, Seq::empty()).len() > 0,
            (r is NoSolution) <==> (old(self).frontier().len() == 0 || (hsm_lines(
                old(self).position(),
                old(self).depth() + 1,
                Seq::empty(),
            ).len() == 0 && old(self).depth() >= u16::MAX - 2)),
            r is NoSolution && old(self).frontier().len() == 0 ==> forall|n: nat| #[trigger]
                hsm_lines(old(self).position(), n, Seq::empty()).len() == 0,
    {
        let ghost p = self.initial@;
        let ghost step0 = self.step as nat;
        let ghost v0 = self.explored@;
        proof {
            assert(self.frontier().len() == v0.len() - self.fresh);
        }
        if self.fresh >= self.explored.len() {
            proof {
                lemma_search_complete(p, step0, positions_view(v0));
            }
            return HelpSelfmateSolverStatus::NoSolution;
        }
        let copied = copy_positions(&self.explored);
        proof {
            assert(copied@.len() == v0.len()) by {
                assert(positions_view(copied@).len() == positions_view(v0).len());
            }
            assert forall|i: int| 0 <= i < copied@.len() implies copied@[i]@ == v0[i]@ by {
                assert(positions_view(copied@)[i] == positions_view(v0)[i]);
            }
        }
        proof {
            assert forall|i: int| 0 <= i < copied@.len() implies (#[trigger] copied@[i])@.turn == Color::White by {
                assert(positions_view(v0)[i] == copied@[i]@);
                assert(reached_within(true, seq![p], step0, positions_view(v0)[i]));
            }
        }
        let (next, mate) = expand(true, copied, self.fresh);
        proof {
            lemma_mate_found(p, step0, copied@, self.fresh as int);
            assert(seq![p][0] == p);
            lemma_search_step(true, seq![p], step0, copied@, self.fresh as int, next@);
        }
        if mate {
            let cap: usize = if self.solutions_upto == 0 {
                1
            } else {
                self.solutions_upto
            };
            let mut path: Vec<Movement> = Vec::new();
            let mut lines: Vec<Vec<Movement>> = Vec::new();
            let target = self.step as usize + 1;
            bounded_search(&self.initial, target, cap, &mut path, &mut lines);
            let ghost all = hsm_lines(p, target as nat, Seq::empty());
            proof {
                assert(lines_view(Seq::<Vec<Movement>>::empty()) =~= Seq::<Seq<Movement>>::empty());
                lemma_fill_take(Seq::empty(), all, cap as nat);
                lemma_fill_take(Seq::empty(), all, self.solutions_upto as nat);
                lemma_reached_count(true, seq![p], step0 + 2, positions_view(next@));
            }
            let kept = if self.solutions_upto == 0 {
                Vec::new()
            } else {
                lines
            };
            proof {
                if self.solutions_upto == 0 {
                    assert(lines_view(kept@) =~= Seq::<Seq<Movement>>::empty());
                    assert(all.take(0) =~= Seq::<Seq<Movement>>::empty());
                    assert(Seq::<Seq<Movement>>::empty() + all.take(0) =~= Seq::<Seq<Movement>>::empty());
                }
                assert(forall|n: nat| 1 <= n < target ==> #[trigger] hsm_lines(p, n, Seq::empty()).len() == 0);
            }
            let rec = HelpSelfmateReconstructor { lines: kept, found: true, mate_in: target as u16, visited: next.len() };
            return HelpSelfmateSolverStatus::Mate(rec);
        }
        if self.step >= u16::MAX - 2 {
            proof {
                assert forall|n: nat| 1 <= n <= u16::MAX implies #[trigger] hsm_lines(p, n, Seq::empty()).len() == 0 by {
                    if n > step0 + 1 {
                        lemma_lines_parity(p, n, Seq::empty());
                    }
                }
            }
            return HelpSelfmateSolverStatus::NoSolution;
        }
        let old_len = self.explored.len();
        self.explored = next;
        self.fresh = old_len;
        self.step = self.step + 2;
        proof {
            assert forall|n: nat| 1 <= n <= self.step implies #[trigger] hsm_lines(p, n, Seq::empty()).len() == 0 by {
                if n == step0 + 2 {
                    lemma_lines_parity(p, n, Seq::empty());
                }
            }
            assert(positions_view(next@).take(old_len as int) =~= positions_view(v0));
            assert(self.frontier() =~= self.explored().skip(old_len as int));
        }
        HelpSelfmateSolverStatus::Intermediate(self.step as u32)
    }
}

/// The length of the lines the `j`-th round of the shortest-line search
/// looks for from `p`: one, three, five moves from a white start; two, four,
/// six from a black start.
pub open spec fn round_length(p: PositionView, j: nat) -> nat {
    (if p.turn == Color::Black {
        2nat
    } else {
        1nat
    }) + 2 * j
}

/// Over successive rounds: when the rounds before the `k`-th found no line
/// of their length, no line shorter than the `k`-th round's length exists,
/// so the first round that finds lines finds the shortest ones.
pub proof fn lemma_rounds_shortest(p: PositionView, k: nat)
    requires
        forall|j: nat| j < k ==> #[trigger] hsm_lines(p, round_length(p, j), Seq::empty()).len() == 0,
    ensures
        forall|n: nat| 1 <= n < round_length(p, k) ==> #[trigger] hsm_lines(p, n, Seq::empty()).len() == 0,
{
    assert forall|n: nat| 1 <= n < round_length(p, k) implies #[trigger] hsm_lines(p, n, Seq::empty()).len() == 0 by {
        lemma_lines_parity(p, n, Seq::empty());
        let s0: nat = if p.turn == Color::Black { 2nat } else { 1nat };
        if n >= s0 && (n - s0) % 2 == 0 {
            let j: nat = ((n - s0) / 2) as nat;
            assert(round_length(p, j) == n);
        }
    }
}

/// Searches `position` for its shortest help selfmates, keeping up to
/// `solutions_upto` lines. The start must hold one king of each side, the
/// side not to move must not be in check, and a white start must be in
/// check.
pub fn help_selfmate_solve(position: Position, solutions_upto: usize, silent: bool) -> (r: Result<
    HelpSelfmateReconstructor,
    HelpSelfmateError,
>)
    requires
        position.wf(),
    ensures
        match r {
            Ok(rec) => solver_error(position@) is None && rec.answers(position@, solutions_upto as nat),
            Err(e) => solver_error(position@) == Some(e),
        },
{
    let ghost p = position@;
    let mut solver = match HelpSelfmateSolver::new(position, solutions_upto, silent) {
        Ok(s) => s,
        Err(e) => {
            return Err(e);
        },
    };
    loop
        invariant
            solver.wf(),
            solver.position() == p,
            p == position@,
            solver.upto() == solutions_upto,
            solver_error(p) is None,
        decreases u16::MAX - solver.depth(),
    {
        match solver.advance() {
            HelpSelfmateSolverStatus::Intermediate(_) => {},
            HelpSelfmateSolverStatus::Mate(rec) => {
                return Ok(rec);
            },
            HelpSelfmateSolverStatus::NoSolution => {
                let rec = HelpSelfmateReconstructor::no_solution();
                return Ok(rec);
            },
        }
    }
}

} // verus!
