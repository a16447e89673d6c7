use vstd::prelude::*;

use crate::census::{all_kinds_mask, count_all, count_pieces, count_selected, kinds_mask, kinds_mask_exec};
use crate::piece::{kind_of, spec_kind_of, Color, Kind};
use crate::position::{Cell, Position, PositionView};
use crate::sfen::{hands_bounded, lemma_hands_bounded, position_sfen};
use vstd::string::{StrSliceExecFns, StringExecFns, StringSliceAdditionalSpecFns};
use crate::square::Square;
use crate::rules::{attacked_by, attacked_by_exec, attacks, attacks_exec};

verus! {

/// Limits on the positions a backward smoke-mate search keeps.
#[derive(Clone, Copy, Debug, PartialEq, Eq, Structural)]
pub struct SearchConstraints {
    pub no_gold: bool,
    pub no_pawn: bool,
    pub only_pawn: bool,
    /// Allowed piece kinds, bit `i` for the kind of index `i`; none means all.
    /// The king is always allowed.
    pub allowed_kinds_mask: Option<u16>,
    pub natural_piece_limit: bool,
    pub max_file: Option<u8>,
    pub max_rank: Option<u8>,
    /// The least rank the defending king may stand on.
    pub white_king_min_rank: Option<u8>,
    /// The step from which `white_king_min_rank` applies.
    pub white_king_min_rank_after_step: u16,
    /// From this step on, black's moves may not touch ranks 1 to 3 nor
    /// promote.
    pub black_avoid_promotion_zone_from_step: Option<u16>,
    /// The least number of third-rank squares held by a wall.
    pub rank3_seal_min: Option<u8>,
    /// The step from which the wall is asked for.
    pub rank3_seal_from_step: u16,
    /// The number of pieces from which the wall is asked for.
    pub rank3_seal_from_pieces: Option<u32>,
    /// Each this many more pieces ask for one more wall square.
    pub rank3_seal_piece_step: u32,
    /// The least number of escape squares of the defending king.
    pub king_min_liberties: Option<u8>,
    pub king_min_liberties_from_step: u16,
    pub king_min_liberties_to_step: u16,
    pub allow_white_pieces: bool,
    pub slack: u16,
    pub max_promoted_pct: Option<u16>,
    pub max_promoted_pct_after_step: u16,
    pub min_pawn_pct: Option<u16>,
    pub min_pawn_pct_after_step: u16,
    /// Allowed squares of the mated king, bit `i` for square index `i`;
    /// zero means any.
    pub mate_squares: u128,
    /// Allows a four-piece mate on the centre square.
    pub miyako: bool,
    /// The mate keeps both kings on the board.
    pub double_king: bool,
    /// In black's home ranks a promoted lance, knight or silver is kept only
    /// when no promoted pawn could stand in for it.
    pub goldish_priority: bool,
    /// Pieces in play from which rooks and bishops (promoted too) may stand
    /// on the board.
    pub rook_bishop_allow_start: Option<u32>,
    pub rook_bishop_allow_step: u32,
    /// Pieces in play from which lances and knights (promoted too) may stand
    /// on the board.
    pub lance_knight_allow_start: Option<u32>,
    pub lance_knight_allow_step: u32,
    /// The eighty-piece set: sixteen each of lance, knight, silver and gold,
    /// eight each of bishop and rook, no pawn.
    pub quad_pieces: bool,
}

/// No constraint set.
pub open spec fn no_constraints() -> SearchConstraints {
    SearchConstraints {
        no_gold: false,
        no_pawn: false,
        only_pawn: false,
        allowed_kinds_mask: None,
        natural_piece_limit: false,
        max_file: None,
        max_rank: None,
        white_king_min_rank: None,
        white_king_min_rank_after_step: 0,
        black_avoid_promotion_zone_from_step: None,
        rank3_seal_min: None,
        rank3_seal_from_step: 0,
        rank3_seal_from_pieces: None,
        rank3_seal_piece_step: 0,
        king_min_liberties: None,
        king_min_liberties_from_step: 0,
        king_min_liberties_to_step: 0,
        allow_white_pieces: false,
        slack: 0,
        max_promoted_pct: None,
        max_promoted_pct_after_step: 0,
        min_pawn_pct: None,
        min_pawn_pct_after_step: 0,
        mate_squares: 0,
        miyako: false,
        double_king: false,
        goldish_priority: false,
        rook_bishop_allow_start: None,
        rook_bishop_allow_step: 0,
        lance_knight_allow_start: None,
        lance_knight_allow_step: 0,
        quad_pieces: false,
    }
}

impl Default for SearchConstraints {
    fn default() -> (r: SearchConstraints)
        ensures
            r == no_constraints(),
    {
        SearchConstraints {
            no_gold: false,
            no_pawn: false,
            only_pawn: false,
            allowed_kinds_mask: None,
            natural_piece_limit: false,
            max_file: None,
            max_rank: None,
            white_king_min_rank: None,
            white_king_min_rank_after_step: 0,
            black_avoid_promotion_zone_from_step: None,
            rank3_seal_min: None,
            rank3_seal_from_step: 0,
            rank3_seal_from_pieces: None,
            rank3_seal_piece_step: 0,
            king_min_liberties: None,
            king_min_liberties_from_step: 0,
            king_min_liberties_to_step: 0,
            allow_white_pieces: false,
            slack: 0,
            max_promoted_pct: None,
            max_promoted_pct_after_step: 0,
            min_pawn_pct: None,
            min_pawn_pct_after_step: 0,
            mate_squares: 0,
            miyako: false,
            double_king: false,
            goldish_priority: false,
            rook_bishop_allow_start: None,
            rook_bishop_allow_step: 0,
            lance_knight_allow_start: None,
            lance_knight_allow_step: 0,
            quad_pieces: false,
        }
    }
}

impl SearchConstraints {
    /// The constraints passed `validate_search_constraints`.
    pub open spec fn valid(self) -> bool {
        &&& self.max_file matches Some(f) ==> 1 <= f <= 9
        &&& self.max_rank matches Some(r) ==> 1 <= r <= 9
        &&& self.max_promoted_pct matches Some(p) ==> p <= 100
        &&& self.min_pawn_pct matches Some(p) ==> p <= 100
        &&& self.white_king_min_rank matches Some(r) ==> 1 <= r <= 9
    }

    /// Number of pieces of `kind`, promoted ones included, in the set in use.
    pub open spec fn spec_max_count(self, kind: Kind) -> nat {
        if self.quad_pieces {
            match kind.spec_maybe_unpromote() {
                Kind::Lance | Kind::Knight | Kind::Silver | Kind::Gold => 16,
                Kind::Bishop | Kind::Rook => 8,
                _ => 0,
            }
        } else {
            kind.spec_max_count()
        }
    }

    /// Number of pieces of `kind`, promoted ones included, in the set in use.
    pub fn max_count(&self, kind: Kind) -> (r: u32)
        ensures
            r == self.spec_max_count(kind),
    {
        if self.quad_pieces {
            match kind.maybe_unpromote() {
                Kind::Lance | Kind::Knight | Kind::Silver | Kind::Gold => 16,
                Kind::Bishop | Kind::Rook => 8,
                _ => 0,
            }
        } else {
            kind.max_count()
        }
    }

    /// Whether mirroring a position left to right may change what the
    /// constraints accept.
    pub fn breaks_lr_symmetry(self) -> (r: bool)
        ensures
            r == (self.max_file is Some || self.mate_squares != 0),
    {
        self.max_file.is_some() || self.mate_squares != 0
    }
}

/// The least and most pieces in play `step` moves before the mate: half the
/// step plus three, `slack` fewer allowed, one more for a centre mate.
pub open spec fn pieces_range(step: u16, slack: u16, miyako: bool) -> (u32, u32) {
    let base = step / 2 + 3;
    let max = if miyako {
        base + 1
    } else {
        base
    };
    ((if base >= slack {
        base - slack
    } else {
        0
    }) as u32, max as u32)
}

/// The least and most pieces in play `step` moves before the mate.
pub fn expected_pieces_range(step: u16, slack: u16, miyako: bool) -> (r: (u32, u32))
    ensures
        r == pieces_range(step, slack, miyako),
{
    let base = step as u32 / 2 + 3;
    let max = if miyako {
        base + 1
    } else {
        base
    };
    (base.saturating_sub(slack as u32), max)
}

/// Number of board pieces of either color whose kind is in `ks`.
pub open spec fn board_kinds(p: PositionView, ks: Seq<Kind>) -> nat {
    count_selected(p.board, true, true, kinds_mask(ks))
}

/// Number of pieces on the board.
pub open spec fn board_pieces(p: PositionView) -> nat {
    count_selected(p.board, true, true, all_kinds_mask())
}

/// Number of pieces among the first `i` hand kinds that `c` holds.
pub open spec fn hand_sum(p: PositionView, c: Color, i: int) -> nat
    decreases i,
{
    if i <= 0 {
        0
    } else {
        hand_sum(p, c, i - 1) + p.hand(c, spec_kind_of(i - 1))
    }
}

/// The kinds other than the king.
pub open spec fn non_king_kinds() -> Seq<Kind> {
    seq![
        Kind::Pawn,
        Kind::Lance,
        Kind::Knight,
        Kind::Silver,
        Kind::Gold,
        Kind::Bishop,
        Kind::Rook,
        Kind::ProPawn,
        Kind::ProLance,
        Kind::ProKnight,
        Kind::ProSilver,
        Kind::ProBishop,
        Kind::ProRook,
    ]
}

/// The promoted kinds.
pub open spec fn promoted_kinds() -> Seq<Kind> {
    seq![Kind::ProPawn, Kind::ProLance, Kind::ProKnight, Kind::ProSilver, Kind::ProBishop, Kind::ProRook]
}

/// A kind together with its promoted form, if it has one.
pub open spec fn with_promoted(k: Kind) -> Seq<Kind> {
    match k.spec_promote() {
        Some(pk) => seq![k, pk],
        None => seq![k],
    }
}

fn count_listed(p: &Position, ks: &[Kind]) -> (r: u32)
    requires
        p.wf(),
    ensures
        r == board_kinds(p@, ks@),
        r <= 81,
{
    let mask = kinds_mask_exec(ks);
    count_pieces(p, true, true, &mask)
}

/// Number of pieces on the board.
pub fn board_piece_count(p: &Position) -> (r: u32)
    requires
        p.wf(),
    ensures
        r == board_pieces(p@),
        r <= 81,
{
    count_all(p)
}

/// Number of pieces on the board other than kings.
pub fn board_non_king_count(p: &Position) -> (r: u32)
    requires
        p.wf(),
    ensures
        r == board_kinds(p@, non_king_kinds()),
        r <= 81,
{
    let ks = [
        Kind::Pawn,
        Kind::Lance,
        Kind::Knight,
        Kind::Silver,
        Kind::Gold,
        Kind::Bishop,
        Kind::Rook,
        Kind::ProPawn,
        Kind::ProLance,
        Kind::ProKnight,
        Kind::ProSilver,
        Kind::ProBishop,
        Kind::ProRook,
    ];
    proof {
        assert(ks@ =~= non_king_kinds());
    }
    count_listed(p, &ks)
}

/// Number of golds on the board.
pub fn board_gold_count(p: &Position) -> (r: u32)
    requires
        p.wf(),
    ensures
        r == board_kinds(p@, seq![Kind::Gold]),
        r <= 81,
{
    let ks = [Kind::Gold];
    proof {
        assert(ks@ =~= seq![Kind::Gold]);
    }
    count_listed(p, &ks)
}

/// Number of pawns, promoted ones included, on the board.
pub fn board_pawn_count(p: &Position) -> (r: u32)
    requires
        p.wf(),
    ensures
        r == board_kinds(p@, seq![Kind::Pawn, Kind::ProPawn]),
        r <= 81,
{
    let ks = [Kind::Pawn, Kind::ProPawn];
    proof {
        assert(ks@ =~= seq![Kind::Pawn, Kind::ProPawn]);
    }
    count_listed(p, &ks)
}

/// Number of promoted pieces on the board.
pub fn board_promoted_count(p: &Position) -> (r: u32)
    requires
        p.wf(),
    ensures
        r == board_kinds(p@, promoted_kinds()),
        r <= 81,
{
    let ks = [Kind::ProPawn, Kind::ProLance, Kind::ProKnight, Kind::ProSilver, Kind::ProBishop, Kind::ProRook];
    proof {
        assert(ks@ =~= promoted_kinds());
    }
    count_listed(p, &ks)
}

/// Number of board pieces whose kind is in `family`.
pub fn family_board_count(p: &Position, family: &[Kind]) -> (r: u32)
    requires
        p.wf(),
    ensures
        r == board_kinds(p@, family@),
        r <= 81,
{
    count_listed(p, family)
}

/// Number of board pieces of `kind` or of its promoted form.
pub fn count_kind_on_board(p: &Position, kind: Kind) -> (r: u32)
    requires
        p.wf(),
    ensures
        r == board_kinds(p@, with_promoted(kind)),
        r <= 81,
{
    match kind.promote() {
        Some(pk) => {
            let ks = [kind, pk];
            proof {
                assert(ks@ =~= with_promoted(kind));
            }
            count_listed(p, &ks)
        },
        None => {
            let ks = [kind];
            proof {
                assert(ks@ =~= with_promoted(kind));
            }
            count_listed(p, &ks)
        },
    }
}

/// Number of pieces in black's hand.
pub fn black_hand_count(p: &Position) -> (r: u32)
    requires
        p.wf(),
        hands_bounded(p),
    ensures
        r == hand_sum(p@, Color::Black, 7),
        r <= 700000,
{
    let mut total: u32 = 0;
    let mut i: usize = 0;
    while i < 7
        invariant
            p.wf(),
            hands_bounded(p),
            i <= 7,
            total == hand_sum(p@, Color::Black, i as int),
            total <= 100000 * i,
        decreases 7 - i,
    {
        let k = kind_of(i);
        proof {
            lemma_hands_bounded(p, Color::Black, k);
        }
        total = total + p.hands.count(Color::Black, k) as u32;
        i = i + 1;
    }
    total
}

/// Pieces in play: those on the board and those in black's hand.
pub open spec fn in_play(p: PositionView) -> nat {
    board_pieces(p) + hand_sum(p, Color::Black, 7)
}

/// Pieces in play: those on the board and those in black's hand.
pub fn pieces_in_play(p: &Position) -> (r: u32)
    requires
        p.wf(),
        hands_bounded(p),
    ensures
        r == in_play(p@),
        r <= 700081,
{
    board_piece_count(p) + black_hand_count(p)
}

/// Pawns in play: on the board, promoted ones included, and in black's hand.
pub fn pawn_in_play_count(p: &Position) -> (r: u32)
    requires
        p.wf(),
        hands_bounded(p),
    ensures
        r == board_kinds(p@, seq![Kind::Pawn, Kind::ProPawn]) + p@.hand(Color::Black, Kind::Pawn),
        r <= 100081,
{
    proof {
        lemma_hands_bounded(p, Color::Black, Kind::Pawn);
    }
    board_pawn_count(p) + p.hands.count(Color::Black, Kind::Pawn) as u32
}

/// Whether a kind is allowed by a mask of kinds; the king always is.
pub open spec fn kind_allowed(kind: Kind, mask: Option<u16>) -> bool {
    match mask {
        None => true,
        Some(m) => kind == Kind::King || (m >> (kind.spec_index() as u16)) & 1u16 == 1u16,
    }
}

/// Whether a kind is allowed by a mask of kinds; the king always is.
pub fn kind_allowed_by_mask(kind: Kind, mask: Option<u16>) -> (r: bool)
    ensures
        r == kind_allowed(kind, mask),
{
    match mask {
        None => true,
        Some(m) => kind == Kind::King || (m >> (kind.index() as u16)) & 1u16 == 1u16,
    }
}

/// The square of index `i`.
pub open spec fn square_of(i: int) -> Square {
    Square { idx: i as u8 }
}

/// Whether a square lies within the files and ranks allowed.
pub open spec fn in_bounds(sq: Square, c: SearchConstraints) -> bool {
    &&& c.max_file matches Some(f) ==> sq.spec_col() < f
    &&& c.max_rank matches Some(r) ==> sq.spec_row() >= 9 - r
}

/// Whether a square lies within the allowed files.
pub fn square_satisfies_file_constraint(sq: Square, max_file: Option<u8>) -> (r: bool)
    requires
        sq.wf(),
    ensures
        r == (max_file matches Some(f) ==> sq.spec_col() < f),
{
    match max_file {
        None => true,
        Some(f) => sq.col() < f as usize,
    }
}

/// Whether a square lies within the allowed ranks, counted from rank 9.
pub fn square_satisfies_rank_constraint(sq: Square, max_rank: Option<u8>) -> (r: bool)
    requires
        sq.wf(),
        max_rank matches Some(m) ==> m <= 9,
    ensures
        r == (max_rank matches Some(m) ==> sq.spec_row() >= 9 - m),
{
    match max_rank {
        None => true,
        Some(m) => sq.row() >= 9 - m as usize,
    }
}

/// Whether a square lies within the files and ranks allowed.
pub fn square_in_bounds(sq: Square, c: SearchConstraints) -> (r: bool)
    requires
        sq.wf(),
        c.valid(),
    ensures
        r == in_bounds(sq, c),
{
    square_satisfies_file_constraint(sq, c.max_file) && square_satisfies_rank_constraint(sq, c.max_rank)
}

/// The kinds that may not stand on the board of an all-pawn problem.
pub open spec fn not_pawnlike() -> Seq<Kind> {
    seq![
        Kind::Lance,
        Kind::Knight,
        Kind::Silver,
        Kind::Gold,
        Kind::Bishop,
        Kind::Rook,
        Kind::ProLance,
        Kind::ProKnight,
        Kind::ProSilver,
        Kind::ProBishop,
        Kind::ProRook,
    ]
}

/// Whether the board holds only kings and pawns, promoted ones included.
pub fn board_only_pawn(p: &Position) -> (r: bool)
    requires
        p.wf(),
    ensures
        r == (board_kinds(p@, not_pawnlike()) == 0),
{
    let ks = [
        Kind::Lance,
        Kind::Knight,
        Kind::Silver,
        Kind::Gold,
        Kind::Bishop,
        Kind::Rook,
        Kind::ProLance,
        Kind::ProKnight,
        Kind::ProSilver,
        Kind::ProBishop,
        Kind::ProRook,
    ];
    proof {
        assert(ks@ =~= not_pawnlike());
    }
    count_listed(p, &ks) == 0
}

/// The pieces of a kind in play: on the board, promoted ones included, and
/// in black's hand.
pub open spec fn natural_count(p: PositionView, k: Kind) -> nat {
    board_kinds(p, with_promoted(k)) + p.hand(Color::Black, k)
}

/// At most the pieces of a natural problem: nine pawns, two each of lance,
/// knight, silver and gold, one bishop and one rook.
pub open spec fn natural_ok(p: PositionView) -> bool {
    &&& natural_count(p, Kind::Pawn) <= 9
    &&& natural_count(p, Kind::Lance) <= 2
    &&& natural_count(p, Kind::Knight) <= 2
    &&& natural_count(p, Kind::Silver) <= 2
    &&& natural_count(p, Kind::Gold) <= 2
    &&& natural_count(p, Kind::Bishop) <= 1
    &&& natural_count(p, Kind::Rook) <= 1
}

fn natural_count_exec(p: &Position, k: Kind) -> (r: u32)
    requires
        p.wf(),
        hands_bounded(p),
    ensures
        r == natural_count(p@, k),
{
    proof {
        lemma_hands_bounded(p, Color::Black, k);
    }
    count_kind_on_board(p, k) + p.hands.count(Color::Black, k) as u32
}

/// Whether the pieces in play fit a natural problem.
pub fn satisfies_natural_piece_limit(p: &Position) -> (r: bool)
    requires
        p.wf(),
        hands_bounded(p),
    ensures
        r == natural_ok(p@),
{
    natural_count_exec(p, Kind::Pawn) <= 9 && natural_count_exec(p, Kind::Lance) <= 2 && natural_count_exec(
        p,
        Kind::Knight,
    ) <= 2 && natural_count_exec(p, Kind::Silver) <= 2 && natural_count_exec(p, Kind::Gold) <= 2
        && natural_count_exec(p, Kind::Bishop) <= 1 && natural_count_exec(p, Kind::Rook) <= 1
}

/// A promoted pawn can stand on the board under the constraints.
pub open spec fn propawn_alt(c: SearchConstraints) -> bool {
    !c.no_pawn && kind_allowed(Kind::Pawn, c.allowed_kinds_mask)
}

/// A black promoted lance, knight or silver in black's home ranks.
pub open spec fn costly_goldish_at_home(p: PositionView, i: int) -> bool {
    &&& p.cell(i) matches Cell::Piece(Color::Black, k)
    &&& (k == Kind::ProLance || k == Kind::ProKnight || k == Kind::ProSilver)
    &&& i % 9 >= 6
}

/// When a promoted pawn could stand in for it (white holds a pawn), no
/// black promoted lance, knight or silver stands in black's home ranks.
pub open spec fn goldish_ok(p: PositionView, c: SearchConstraints) -> bool {
    !propawn_alt(c) || p.hand(Color::White, Kind::Pawn) == 0 || forall|i: int|
        0 <= i < 81 ==> !#[trigger] costly_goldish_at_home(p, i)
}

fn satisfies_goldish_priority(p: &Position, c: SearchConstraints) -> (r: bool)
    requires
        p.wf(),
    ensures
        r == goldish_ok(p@, c),
{
    if !(!c.no_pawn && kind_allowed_by_mask(Kind::Pawn, c.allowed_kinds_mask)) {
        return true;
    }
    if p.hands.count(Color::White, Kind::Pawn) == 0 {
        return true;
    }
    assert(p@.hand(Color::White, Kind::Pawn) != 0);
    assert(propawn_alt(c));
    let mut i: usize = 0;
    while i < 81
        invariant
            p.wf(),
            i <= 81,
            propawn_alt(c),
            p@.hand(Color::White, Kind::Pawn) != 0,
            forall|j: int| 0 <= j < i ==> !#[trigger] costly_goldish_at_home(p@, j),
        decreases 81 - i,
    {
        match p.board[i] {
            Cell::Piece(Color::Black, k) => {
                if (k == Kind::ProLance || k == Kind::ProKnight || k == Kind::ProSilver) && i % 9 >= 6 {
                    assert(costly_goldish_at_home(p@, i as int));
                    assert(!goldish_ok(p@, c));
                    return false;
                }
            },
            _ => {},
        }
        i = i + 1;
    }
    true
}

/// A piece on square `i` that the constraints allow there.
pub open spec fn piece_ok(p: PositionView, c: SearchConstraints, i: int) -> bool {
    match p.cell(i) {
        Cell::Piece(_, k) => kind_allowed(k, c.allowed_kinds_mask) && in_bounds(square_of(i), c),
        _ => true,
    }
}

/// The board obeys the kind and area constraints: no gold, no pawn or
/// only pawns as asked, only allowed kinds, only allowed squares, and the
/// promoted-piece order in black's home ranks.
pub open spec fn search_ok(p: PositionView, c: SearchConstraints) -> bool {
    &&& c.no_gold ==> board_kinds(p, seq![Kind::Gold]) == 0
    &&& c.no_pawn ==> board_kinds(p, seq![Kind::Pawn, Kind::ProPawn]) == 0
    &&& c.only_pawn ==> board_kinds(p, not_pawnlike()) == 0
    &&& forall|i: int| 0 <= i < 81 ==> #[trigger] piece_ok(p, c, i)
    &&& c.goldish_priority ==> goldish_ok(p, c)
}

/// Whether the board obeys the kind and area constraints.
pub fn satisfies_search_constraints(p: &Position, c: SearchConstraints) -> (r: bool)
    requires
        p.wf(),
        c.valid(),
    ensures
        r == search_ok(p@, c),
{
    if c.no_gold && board_gold_count(p) != 0 {
        return false;
    }
    if c.no_pawn && board_pawn_count(p) != 0 {
        return false;
    }
    if c.only_pawn && !board_only_pawn(p) {
        return false;
    }
    let mut i: usize = 0;
    while i < 81
        invariant
            p.wf(),
            c.valid(),
            i <= 81,
            forall|j: int| 0 <= j < i ==> #[trigger] piece_ok(p@, c, j),
        decreases 81 - i,
    {
        match p.board[i] {
            Cell::Piece(_, k) => {
                if !kind_allowed_by_mask(k, c.allowed_kinds_mask) || !square_in_bounds(Square::from_index(i), c) {
                    assert(!piece_ok(p@, c, i as int));
                    return false;
                }
            },
            _ => {},
        }
        i = i + 1;
    }
    if c.goldish_priority && !satisfies_goldish_priority(p, c) {
        return false;
    }
    true
}

/// The share of promoted pieces among the non-king board pieces is at most
/// the limit, from the step the limit applies.
pub open spec fn promoted_pct_ok(p: PositionView, step: u16, c: SearchConstraints) -> bool {
    match c.max_promoted_pct {
        None => true,
        Some(m) => step < c.max_promoted_pct_after_step || board_kinds(p, non_king_kinds()) == 0
            || board_kinds(p, promoted_kinds()) * 100 <= m * board_kinds(p, non_king_kinds()),
    }
}

/// Whether the share of promoted pieces is within the limit.
pub fn satisfies_promoted_pct(p: &Position, step: u16, c: SearchConstraints) -> (r: bool)
    requires
        p.wf(),
        c.valid(),
    ensures
        r == promoted_pct_ok(p@, step, c),
{
    let max_pct = match c.max_promoted_pct {
        None => {
            return true;
        },
        Some(m) => m,
    };
    if step < c.max_promoted_pct_after_step {
        return true;
    }
    let total = board_non_king_count(p);
    if total == 0 {
        return true;
    }
    let promoted = board_promoted_count(p);
    assert(max_pct <= 100);
    assert(total <= 81);
    assert(max_pct * total <= 8100) by (nonlinear_arith)
        requires
            max_pct <= 100,
            total <= 81,
    ;
    let limit: u32 = max_pct as u32 * total;
    promoted * 100 <= limit
}

/// The share of pawns among the non-king pieces in play is at least the
/// limit, from the step the limit applies.
pub open spec fn pawn_pct_ok(p: PositionView, step: u16, c: SearchConstraints) -> bool {
    let total = board_kinds(p, non_king_kinds()) + hand_sum(p, Color::Black, 7);
    let pawns = board_kinds(p, seq![Kind::Pawn, Kind::ProPawn]) + p.hand(Color::Black, Kind::Pawn);
    match c.min_pawn_pct {
        None => true,
        Some(m) => step < c.min_pawn_pct_after_step || total == 0 || pawns * 100 >= m * total,
    }
}

/// Whether the share of pawns is within the limit.
pub fn satisfies_pawn_pct(p: &Position, step: u16, c: SearchConstraints) -> (r: bool)
    requires
        p.wf(),
        hands_bounded(p),
        c.valid(),
    ensures
        r == pawn_pct_ok(p@, step, c),
{
    let min_pct = match c.min_pawn_pct {
        None => {
            return true;
        },
        Some(m) => m,
    };
    if step < c.min_pawn_pct_after_step {
        return true;
    }
    let total = board_non_king_count(p) + black_hand_count(p);
    if total == 0 {
        return true;
    }
    let pawns = pawn_in_play_count(p);
    assert(min_pct <= 100);
    assert(total <= 700081);
    assert(min_pct * total <= 70008100) by (nonlinear_arith)
        requires
            min_pct <= 100,
            total <= 700081,
    ;
    let limit: u32 = min_pct as u32 * total;
    pawns * 100 >= limit
}

/// From the step it applies, the white king stands on a rank no lower than
/// the least rank allowed.
pub open spec fn white_king_rank_ok(p: PositionView, step: u16, c: SearchConstraints) -> bool {
    match c.white_king_min_rank {
        None => true,
        Some(m) => step < c.white_king_min_rank_after_step || forall|i: int|
            0 <= i < 81 && #[trigger] p.cell(i) == Cell::Piece(Color::White, Kind::King) ==> i % 9 + 1 >= m,
    }
}

/// Whether the white king keeps out of the ranks below the least allowed.
pub fn satisfies_white_king_min_rank(p: &Position, step: u16, c: SearchConstraints) -> (r: bool)
    requires
        p.wf(),
    ensures
        r == white_king_rank_ok(p@, step, c),
{
    let min_rank = match c.white_king_min_rank {
        None => {
            return true;
        },
        Some(m) => m,
    };
    if step < c.white_king_min_rank_after_step {
        return true;
    }
    let mut i: usize = 0;
    while i < 81
        invariant
            p.wf(),
            i <= 81,
            c.white_king_min_rank == Some(min_rank),
            step >= c.white_king_min_rank_after_step,
            forall|j: int|
                0 <= j < i && #[trigger] p@.cell(j) == Cell::Piece(Color::White, Kind::King) ==> j % 9 + 1 >= min_rank,
        decreases 81 - i,
    {
        if p.board[i] == Cell::Piece(Color::White, Kind::King) && i % 9 + 1 < min_rank as usize {
            assert(p@.cell(i as int) == Cell::Piece(Color::White, Kind::King));
            return false;
        }
        i = i + 1;
    }
    true
}

/// The wall squares asked for with `pieces` in play: none below the start
/// count, then one more for each step of pieces, at most the minimum set.
pub open spec fn wall_need(pieces: u32, c: SearchConstraints) -> u8 {
    match (c.rank3_seal_min, c.rank3_seal_from_pieces) {
        (Some(min), Some(start)) => if pieces < start {
            0
        } else {
            let step = if c.rank3_seal_piece_step >= 1 {
                c.rank3_seal_piece_step
            } else {
                1
            };
            let want: int = (pieces - start) as int / step as int + 1;
            let w = want as u8;
            if w <= min {
                w
            } else {
                min
            }
        },
        _ => 0,
    }
}

/// The wall squares asked for with `pieces` in play.
pub fn required_wall(pieces: u32, c: SearchConstraints) -> (r: u8)
    ensures
        r == wall_need(pieces, c),
{
    let (min, start) = match (c.rank3_seal_min, c.rank3_seal_from_pieces) {
        (Some(min), Some(start)) => (min, start),
        _ => {
            return 0;
        },
    };
    if pieces < start {
        return 0;
    }
    let step = if c.rank3_seal_piece_step >= 1 {
        c.rank3_seal_piece_step
    } else {
        1
    };
    let want: u64 = ((pieces - start) / step) as u64 + 1;
    let w = want as u8;
    if w <= min {
        w
    } else {
        min
    }
}

/// Board pieces of a family within what the pieces in play allow: none
/// below `start`, then one more for each `step` pieces.
pub open spec fn allowance_ok(p: PositionView, start: Option<u32>, step: u32, family: Seq<Kind>) -> bool {
    match start {
        None => true,
        Some(s) => {
            let st = if step >= 1 {
                step
            } else {
                1
            };
            let total = in_play(p);
            board_kinds(p, family) <= if total >= s {
                (total - s) as int / st as int + 1
            } else {
                0
            }
        },
    }
}

fn satisfies_family_allowance(p: &Position, start: Option<u32>, step: u32, family: &[Kind]) -> (r: bool)
    requires
        p.wf(),
        hands_bounded(p),
    ensures
        r == allowance_ok(p@, start, step, family@),
{
    let s = match start {
        None => {
            return true;
        },
        Some(s) => s,
    };
    let st = if step >= 1 {
        step
    } else {
        1
    };
    let total = pieces_in_play(p);
    let allowed: u32 = if total >= s {
        (total - s) / st + 1
    } else {
        0
    };
    family_board_count(p, family) <= allowed
}

/// The rook and bishop family, promoted ones included.
pub open spec fn rook_bishop_kinds() -> Seq<Kind> {
    seq![Kind::Bishop, Kind::ProBishop, Kind::Rook, Kind::ProRook]
}

/// The lance and knight family, promoted ones included.
pub open spec fn lance_knight_kinds() -> Seq<Kind> {
    seq![Kind::Lance, Kind::ProLance, Kind::Knight, Kind::ProKnight]
}

/// The rook and bishop family, promoted ones included.
pub fn rook_bishop_family() -> (r: [Kind; 4])
    ensures
        r@ == rook_bishop_kinds(),
{
    let r = [Kind::Bishop, Kind::ProBishop, Kind::Rook, Kind::ProRook];
    proof {
        assert(r@ =~= rook_bishop_kinds());
    }
    r
}

/// The lance and knight family, promoted ones included.
pub fn lance_knight_family() -> (r: [Kind; 4])
    ensures
        r@ == lance_knight_kinds(),
{
    let r = [Kind::Lance, Kind::ProLance, Kind::Knight, Kind::ProKnight];
    proof {
        assert(r@ =~= lance_knight_kinds());
    }
    r
}

/// Both family allowances hold.
pub open spec fn allowances_ok(p: PositionView, c: SearchConstraints) -> bool {
    &&& allowance_ok(p, c.rook_bishop_allow_start, c.rook_bishop_allow_step, rook_bishop_kinds())
    &&& allowance_ok(p, c.lance_knight_allow_start, c.lance_knight_allow_step, lance_knight_kinds())
}

/// Whether both family allowances hold.
pub fn satisfies_piece_allowances(p: &Position, c: SearchConstraints) -> (r: bool)
    requires
        p.wf(),
        hands_bounded(p),
    ensures
        r == allowances_ok(p@, c),
{
    let rb = rook_bishop_family();
    let lk = lance_knight_family();
    satisfies_family_allowance(p, c.rook_bishop_allow_start, c.rook_bishop_allow_step, &rb)
        && satisfies_family_allowance(p, c.lance_knight_allow_start, c.lance_knight_allow_step, &lk)
}

/// Whether the rook and bishop allowance holds.
pub fn satisfies_rook_bishop_allowance(p: &Position, c: SearchConstraints) -> (r: bool)
    requires
        p.wf(),
        hands_bounded(p),
    ensures
        r == allowance_ok(p@, c.rook_bishop_allow_start, c.rook_bishop_allow_step, rook_bishop_kinds()),
{
    let rb = rook_bishop_family();
    satisfies_family_allowance(p, c.rook_bishop_allow_start, c.rook_bishop_allow_step, &rb)
}

/// A move taken back: a board move, with the piece it captured if any, or a
/// drop, with whether it was a pawn drop.
#[derive(Clone, Copy, Debug, PartialEq, Eq, Structural)]
pub enum UndoMove {
    UnMove { source: Square, dest: Square, promote: bool, capture: Option<Kind>, pawn_drop: bool },
    UnDrop(Square, bool),
}

/// An undo that fits the position it is taken back from: its squares are on
/// the board, a dropped or promoted piece stands on its square, and a
/// capture by black left a piece in black's hand.
pub open spec fn undo_fits(p: PositionView, u: UndoMove) -> bool {
    match u {
        UndoMove::UnDrop(sq, _) => sq.wf() && p.cell(sq.spec_index()) is Piece,
        UndoMove::UnMove { source, dest, promote, capture, .. } => {
            &&& source.wf()
            &&& dest.wf()
            &&& promote ==> (p.cell(dest.spec_index()) matches Cell::Piece(_, k) ==> k.spec_unpromote() is Some)
            &&& (capture is Some && p.turn == Color::White) ==> hand_sum(p, Color::Black, 7) >= 1
        },
    }
}

/// The kind tests that an undo is checked against.
#[derive(Clone, Copy, Debug, PartialEq, Eq, Structural)]
pub enum KindTest {
    Gold,
    Pawn,
    NonPawn,
    Forbidden(Option<u16>),
}

pub open spec fn passes(t: KindTest, k: Kind) -> bool {
    match t {
        KindTest::Gold => k == Kind::Gold,
        KindTest::Pawn => k == Kind::Pawn || k == Kind::ProPawn,
        KindTest::NonPawn => k != Kind::Pawn && k != Kind::ProPawn && k != Kind::King,
        KindTest::Forbidden(mask) => !kind_allowed(k, mask),
    }
}

fn passes_exec(t: KindTest, k: Kind) -> (r: bool)
    ensures
        r == passes(t, k),
{
    match t {
        KindTest::Gold => k == Kind::Gold,
        KindTest::Pawn => k == Kind::Pawn || k == Kind::ProPawn,
        KindTest::NonPawn => k != Kind::Pawn && k != Kind::ProPawn && k != Kind::King,
        KindTest::Forbidden(mask) => !kind_allowed_by_mask(k, mask),
    }
}

/// The undo puts back a piece of a kind that passes `t`: the dropped piece,
/// the captured piece, or the moved piece as it was before promoting.
pub open spec fn creates(p: PositionView, u: UndoMove, t: KindTest) -> bool {
    match u {
        UndoMove::UnDrop(sq, _) => p.cell(sq.spec_index()) matches Cell::Piece(_, k) && passes(t, k),
        UndoMove::UnMove { dest, promote, capture, .. } => {
            ||| capture matches Some(k) && passes(t, k)
            ||| p.cell(dest.spec_index()) matches Cell::Piece(_, k) && passes(
                t,
                if promote {
                    k.spec_unpromote().unwrap()
                } else {
                    k
                },
            )
        },
    }
}

fn undo_creates_matching(p: &Position, u: &UndoMove, t: KindTest) -> (r: bool)
    requires
        p.wf(),
        undo_fits(p@, *u),
    ensures
        r == creates(p@, *u, t),
{
    match *u {
        UndoMove::UnDrop(sq, _) => match p.get(sq) {
            Some((_, k)) => passes_exec(t, k),
            None => false,
        },
        UndoMove::UnMove { dest, promote, capture, .. } => {
            match capture {
                Some(k) => {
                    if passes_exec(t, k) {
                        return true;
                    }
                },
                None => {},
            }
            match p.get(dest) {
                Some((_, k)) => {
                    let previous = if promote {
                        k.unpromote().unwrap()
                    } else {
                        k
                    };
                    passes_exec(t, previous)
                },
                None => false,
            }
        },
    }
}

/// The undo puts back a gold.
pub open spec fn creates_gold(p: PositionView, u: UndoMove) -> bool {
    creates(p, u, KindTest::Gold)
}

/// The undo puts back a pawn or promoted pawn.
pub open spec fn creates_pawn(p: PositionView, u: UndoMove) -> bool {
    creates(p, u, KindTest::Pawn)
}

/// The undo puts back a piece other than a pawn, promoted pawn or king.
pub open spec fn creates_non_pawn(p: PositionView, u: UndoMove) -> bool {
    creates(p, u, KindTest::NonPawn)
}

/// The undo puts back a kind the mask forbids.
pub open spec fn creates_forbidden(p: PositionView, u: UndoMove, mask: Option<u16>) -> bool {
    creates(p, u, KindTest::Forbidden(mask))
}

/// Whether the undo puts back a gold.
pub fn undo_creates_gold(p: &Position, u: &UndoMove) -> (r: bool)
    requires
        p.wf(),
        undo_fits(p@, *u),
    ensures
        r == creates_gold(p@, *u),
{
    undo_creates_matching(p, u, KindTest::Gold)
}

/// Whether the undo puts back a kind the mask forbids.
pub fn undo_creates_forbidden_kind(p: &Position, u: &UndoMove, mask: Option<u16>) -> (r: bool)
    requires
        p.wf(),
        undo_fits(p@, *u),
    ensures
        r == creates_forbidden(p@, *u, mask),
{
    undo_creates_matching(p, u, KindTest::Forbidden(mask))
}

/// Whether the undo puts back a piece other than a pawn or king.
pub fn undo_creates_non_pawn(p: &Position, u: &UndoMove) -> (r: bool)
    requires
        p.wf(),
        undo_fits(p@, *u),
    ensures
        r == creates_non_pawn(p@, *u),
{
    undo_creates_matching(p, u, KindTest::NonPawn)
}

/// Whether the undo puts back a pawn or promoted pawn.
pub fn undo_creates_pawn(p: &Position, u: &UndoMove) -> (r: bool)
    requires
        p.wf(),
        undo_fits(p@, *u),
    ensures
        r == creates_pawn(p@, *u),
{
    undo_creates_matching(p, u, KindTest::Pawn)
}

/// Whether the undo moves a piece back to a square outside the bounds.
pub fn undo_creates_out_of_bounds_piece(u: &UndoMove, c: SearchConstraints) -> (r: bool)
    requires
        c.valid(),
        *u matches UndoMove::UnMove { source, .. } ==> source.wf(),
    ensures
        r == (*u matches UndoMove::UnMove { source, .. } && !in_bounds(source, c)),
{
    match *u {
        UndoMove::UnDrop(_, _) => false,
        UndoMove::UnMove { source, .. } => !square_in_bounds(source, c),
    }
}

/// The undo takes back a capture by black, putting a white piece back.
pub open spec fn spawns_white(p: PositionView, u: UndoMove) -> bool {
    u matches UndoMove::UnMove { capture: Some(_), .. } && p.turn == Color::White
}

/// Whether the undo puts a captured white piece back on the board.
pub fn undo_spawns_white_piece(p: &Position, u: &UndoMove) -> (r: bool)
    ensures
        r == spawns_white(p@, *u),
{
    match *u {
        UndoMove::UnMove { capture: Some(_), .. } => p.turn == Color::White,
        _ => false,
    }
}

/// Board pieces after the undo: one fewer for a drop, one more for a
/// capture.
pub open spec fn board_after_undo(p: PositionView, u: UndoMove) -> int {
    match u {
        UndoMove::UnDrop(_, _) => board_pieces(p) - 1,
        UndoMove::UnMove { capture: Some(_), .. } => board_pieces(p) + 1int,
        UndoMove::UnMove { capture: None, .. } => board_pieces(p) as int,
    }
}

/// Pieces in play after the undo: the board after it, and black's hand,
/// which regains a dropped piece and loses a captured one when black made
/// the move.
pub open spec fn in_play_after_undo(p: PositionView, u: UndoMove) -> int {
    let hand = hand_sum(p, Color::Black, 7) as int;
    board_after_undo(p, u) + if p.turn == Color::White {
        match u {
            UndoMove::UnDrop(_, _) => hand + 1,
            UndoMove::UnMove { capture: Some(_), .. } => hand - 1,
            UndoMove::UnMove { capture: None, .. } => hand,
        }
    } else {
        hand
    }
}

proof fn lemma_piece_counted(p: PositionView, i: int)
    requires
        p.wf(),
        0 <= i < 81,
        p.cell(i) is Piece,
    ensures
        board_pieces(p) >= 1,
{
    crate::census::lemma_count_bound(p.board.take(i), true, true, all_kinds_mask());
    lemma_count_prefix_le(p.board, i + 1);
    crate::census::lemma_count_step(p.board, i, true, true, all_kinds_mask());
}

proof fn lemma_count_prefix_le(s: Seq<Cell>, n: int)
    requires
        0 <= n <= s.len(),
    ensures
        count_selected(s.take(n), true, true, all_kinds_mask()) <= count_selected(s, true, true, all_kinds_mask()),
    decreases s.len() - n,
{
    if n < s.len() {
        lemma_count_prefix_le(s, n + 1);
        crate::census::lemma_count_step(s, n, true, true, all_kinds_mask());
    } else {
        assert(s.take(n) =~= s);
    }
}

/// Board pieces after the undo.
pub fn board_piece_count_after_undo(p: &Position, u: &UndoMove) -> (r: u32)
    requires
        p.wf(),
        undo_fits(p@, *u),
    ensures
        r == board_after_undo(p@, *u),
        r <= 82,
{
    let count = board_piece_count(p);
    match *u {
        UndoMove::UnDrop(sq, _) => {
            proof {
                lemma_piece_counted(p@, sq.spec_index());
            }
            count - 1
        },
        UndoMove::UnMove { capture: Some(_), .. } => count + 1,
        UndoMove::UnMove { capture: None, .. } => count,
    }
}

/// Pieces in play after the undo.
pub fn pieces_in_play_after_undo(p: &Position, u: &UndoMove) -> (r: u32)
    requires
        p.wf(),
        hands_bounded(p),
        undo_fits(p@, *u),
    ensures
        r == in_play_after_undo(p@, *u),
{
    let board = board_piece_count_after_undo(p, u);
    let hand = if p.turn.opposite() == Color::Black {
        let current = black_hand_count(p);
        match *u {
            UndoMove::UnDrop(_, _) => current + 1,
            UndoMove::UnMove { capture: Some(_), .. } => current - 1,
            UndoMove::UnMove { capture: None, .. } => current,
        }
    } else {
        black_hand_count(p)
    };
    board + hand
}

/// Black's hand holds exactly one piece, of the kind `expected`.
pub open spec fn hand_exactly(p: PositionView, expected: Kind) -> bool {
    forall|i: int| 0 <= i < 7 ==> p.hand(Color::Black, #[trigger] spec_kind_of(i)) == if spec_kind_of(i) == expected {
        1nat
    } else {
        0nat
    }
}

/// Whether black's hand holds exactly one piece, of the kind `expected`.
pub fn black_hand_is_exactly(p: &Position, expected: Kind) -> (r: bool)
    requires
        p.wf(),
    ensures
        r == hand_exactly(p@, expected),
{
    let mut i: usize = 0;
    while i < 7
        invariant
            p.wf(),
            i <= 7,
            forall|j: int| 0 <= j < i ==> p@.hand(Color::Black, #[trigger] spec_kind_of(j)) == if spec_kind_of(j)
                == expected {
                1nat
            } else {
                0nat
            },
        decreases 7 - i,
    {
        let kind = kind_of(i);
        let count = p.hands.count(Color::Black, kind);
        if kind == expected {
            if count != 1 {
                return false;
            }
        } else if count != 0 {
            return false;
        }
        i = i + 1;
    }
    true
}

/// Black's hand is empty.
pub open spec fn black_hand_empty(p: PositionView) -> bool {
    forall|k: Kind| p.hand(Color::Black, k) == 0
}

/// Black's hand is empty after the undo: a drop by white leaves it as it
/// is, a drop by black refills it; a capture by black leaves exactly the
/// captured piece in it now.
pub open spec fn hand_empty_after_undo(p: PositionView, u: UndoMove) -> bool {
    let prev_black = p.turn == Color::White;
    match u {
        UndoMove::UnDrop(_, _) => !prev_black && black_hand_empty(p),
        UndoMove::UnMove { capture: Some(k), .. } => if prev_black {
            hand_exactly(p, k.spec_maybe_unpromote())
        } else {
            black_hand_empty(p)
        },
        UndoMove::UnMove { .. } => black_hand_empty(p),
    }
}

fn black_hand_is_empty(p: &Position) -> (r: bool)
    requires
        p.wf(),
    ensures
        r == black_hand_empty(p@),
{
    let r = p.hands.is_empty(Color::Black);
    proof {
        assert forall|k: Kind| p@.hand(Color::Black, k) == p.hands.spec_count(Color::Black, k) by {}
    }
    r
}

/// Whether black's hand is empty after the undo.
pub fn black_hand_empty_after_undo(p: &Position, u: &UndoMove) -> (r: bool)
    requires
        p.wf(),
    ensures
        r == hand_empty_after_undo(p@, *u),
{
    let prev_black = p.turn.opposite() == Color::Black;
    match *u {
        UndoMove::UnDrop(_, _) => !prev_black && black_hand_is_empty(p),
        UndoMove::UnMove { capture: Some(k), .. } => if prev_black {
            black_hand_is_exactly(p, k.maybe_unpromote())
        } else {
            black_hand_is_empty(p)
        },
        UndoMove::UnMove { .. } => black_hand_is_empty(p),
    }
}

/// From the step it applies, a black move taken back touched neither ranks
/// 1 to 3 nor promoted.
pub open spec fn promotion_zone_ok(p: PositionView, u: UndoMove, next_step: u16, c: SearchConstraints) -> bool {
    match c.black_avoid_promotion_zone_from_step {
        None => true,
        Some(from) => next_step < from || p.turn != Color::White || match u {
            UndoMove::UnDrop(sq, _) => sq.spec_row() >= 3,
            UndoMove::UnMove { source, dest, promote, .. } => !(promote || source.spec_row() < 3
                || dest.spec_row() < 3),
        },
    }
}

/// Whether a black move taken back keeps out of the promotion zone.
pub fn satisfies_black_promotion_zone(p: &Position, u: &UndoMove, next_step: u16, c: SearchConstraints) -> (r: bool)
    requires
        undo_fits(p@, *u),
    ensures
        r == promotion_zone_ok(p@, *u, next_step, c),
{
    let from = match c.black_avoid_promotion_zone_from_step {
        None => {
            return true;
        },
        Some(f) => f,
    };
    if next_step < from {
        return true;
    }
    if p.turn != Color::White {
        return true;
    }
    match *u {
        UndoMove::UnDrop(sq, _) => !(sq.row() < 3),
        UndoMove::UnMove { source, dest, promote, .. } => !(promote || source.row() < 3 || dest.row() < 3),
    }
}

/// Below `start` pieces in play after the undo, no piece of the family may
/// come back to the board by the undo of its capture.
pub open spec fn family_undo_ok(u: UndoMove, after: u32, start: Option<u32>, family: Seq<Kind>) -> bool {
    match start {
        None => true,
        Some(s) => after >= s || !(u matches UndoMove::UnMove { capture: Some(k), .. } && family.contains(k)),
    }
}

fn family_undo_allowed(u: &UndoMove, after: u32, start: Option<u32>, family: &[Kind]) -> (r: bool)
    ensures
        r == family_undo_ok(*u, after, start, family@),
{
    let s = match start {
        None => {
            return true;
        },
        Some(s) => s,
    };
    if after >= s {
        return true;
    }
    match *u {
        UndoMove::UnMove { capture: Some(k), .. } => {
            let mut i: usize = 0;
            while i < family.len()
                invariant
                    i <= family@.len(),
                    start == Some(s),
                    after < s,
                    *u matches UndoMove::UnMove { capture: Some(kk), .. } && kk == k,
                    forall|j: int| 0 <= j < i ==> family@[j] != k,
                decreases family@.len() - i,
            {
                if family[i] == k {
                    assert(family@[i as int] == k);
                    assert(family@.contains(k));
                    return false;
                }
                i = i + 1;
            }
            true
        },
        _ => true,
    }
}

/// The first square from index `i` on that holds the white king.
pub open spec fn white_king_from(p: PositionView, i: int) -> Option<int>
    decreases 81 - i,
{
    if i < 0 || i >= 81 {
        None
    } else if p.cell(i) == Cell::Piece(Color::White, Kind::King) {
        Some(i)
    } else {
        white_king_from(p, i + 1)
    }
}

fn find_white_king(p: &Position) -> (r: Option<usize>)
    requires
        p.wf(),
    ensures
        match r {
            Some(i) => white_king_from(p@, 0) == Some(i as int) && i < 81,
            None => white_king_from(p@, 0) is None,
        },
{
    let mut i: usize = 0;
    while i < 81
        invariant
            p.wf(),
            i <= 81,
            white_king_from(p@, 0) == white_king_from(p@, i as int),
        decreases 81 - i,
    {
        if p.board[i] == Cell::Piece(Color::White, Kind::King) {
            return Some(i);
        }
        i = i + 1;
    }
    None
}

/// A black piece of `k` on `s` reaches rank 4 or beyond, where the king lives.
pub open spec fn reaches_zone(p: PositionView, k: Kind, s: int) -> bool {
    exists|t: int| 0 <= t < 81 && t % 9 >= 3 && #[trigger] attacks(p, Color::Black, k, s, t)
}

/// A square `d` a black piece of `k` on `s` could move to, from which it, or
/// its promoted form, would reach the king's ranks.
pub open spec fn step_to_zone(p: PositionView, k: Kind, s: int, d: int) -> bool {
    &&& attacks(p, Color::Black, k, s, d)
    &&& !(p.cell(d) matches Cell::Piece(Color::Black, _))
    &&& (reaches_zone(p, k, d) || (k.spec_promote() matches Some(pk) && reaches_zone(p, pk, d)))
}

/// A black piece that reaches the king's ranks now or after one move.
pub open spec fn striker(p: PositionView, s: int) -> bool {
    p.cell(s) matches Cell::Piece(Color::Black, k) && (reaches_zone(p, k, s) || exists|d: int|
        0 <= d < 81 && #[trigger] step_to_zone(p, k, s, d))
}

/// A black piece held within ranks 1 to 3: neither now nor after one move
/// does it reach the king's ranks.
pub open spec fn wall_piece(p: PositionView, s: int) -> bool {
    p.cell(s) matches Cell::Piece(Color::Black, _) && !striker(p, s)
}

/// The third-rank square of column `c` is covered by a wall piece.
pub open spec fn covered(p: PositionView, c: int) -> bool {
    exists|s: int|
        0 <= s < 81 && #[trigger] wall_piece(p, s) && (p.cell(s) matches Cell::Piece(_, k) && attacks(
            p,
            Color::Black,
            k,
            s,
            c * 9 + 2,
        ))
}

/// The third-rank square of column `c` holds a white piece or a black
/// striker, so it is no wall.
pub open spec fn breached(p: PositionView, c: int) -> bool {
    striker(p, c * 9 + 2) || p.cell(c * 9 + 2) matches Cell::Piece(Color::White, _)
}

/// Column `c`, within two files of the king's column `kc`, is sealed.
pub open spec fn sealed(p: PositionView, kc: int, c: int) -> bool {
    -2 <= c - kc <= 2 && covered(p, c) && !breached(p, c)
}

/// Number of sealed columns among the first `n`.
pub open spec fn sealed_upto(p: PositionView, kc: int, n: int) -> nat
    decreases n,
{
    if n <= 0 {
        0
    } else {
        sealed_upto(p, kc, n - 1) + if sealed(p, kc, n - 1) {
            1nat
        } else {
            0nat
        }
    }
}

/// Number of third-rank squares near the white king held by a wall: covered
/// by a black piece that cannot reach the king's ranks, and not holding a
/// white piece or a black piece that can.
pub open spec fn seal_count(p: PositionView) -> nat {
    match white_king_from(p, 0) {
        None => 0,
        Some(ki) => sealed_upto(p, ki / 9, 9),
    }
}

fn reaches_zone_exec(p: &Position, k: Kind, s: usize) -> (r: bool)
    requires
        p.wf(),
        s < 81,
    ensures
        r == reaches_zone(p@, k, s as int),
{
    let from = Square::from_index(s);
    let mut t: usize = 0;
    while t < 81
        invariant
            p.wf(),
            s < 81,
            from.spec_index() == s,
            t <= 81,
            forall|u: int| 0 <= u < t && u % 9 >= 3 ==> !#[trigger] attacks(p@, Color::Black, k, s as int, u),
        decreases 81 - t,
    {
        if t % 9 >= 3 && attacks_exec(p, Color::Black, k, from, Square::from_index(t)) {
            return true;
        }
        t = t + 1;
    }
    false
}

fn striker_exec(p: &Position, s: usize) -> (r: bool)
    requires
        p.wf(),
        s < 81,
    ensures
        r == striker(p@, s as int),
{
    let k = match p.board[s] {
        Cell::Piece(Color::Black, k) => k,
        _ => {
            return false;
        },
    };
    if reaches_zone_exec(p, k, s) {
        return true;
    }
    let from = Square::from_index(s);
    let mut d: usize = 0;
    while d < 81
        invariant
            p.wf(),
            s < 81,
            from.spec_index() == s,
            p@.cell(s as int) == Cell::Piece(Color::Black, k),
            d <= 81,
            forall|e: int| 0 <= e < d ==> !#[trigger] step_to_zone(p@, k, s as int, e),
        decreases 81 - d,
    {
        let own = match p.board[d] {
            Cell::Piece(Color::Black, _) => true,
            _ => false,
        };
        if !own && attacks_exec(p, Color::Black, k, from, Square::from_index(d)) {
            let direct = reaches_zone_exec(p, k, d);
            let promoted = match k.promote() {
                Some(pk) => reaches_zone_exec(p, pk, d),
                None => false,
            };
            if direct || promoted {
                assert(step_to_zone(p@, k, s as int, d as int));
                return true;
            }
        }
        d = d + 1;
    }
    false
}

/// Number of third-rank squares near the white king held by a wall.
pub fn rank3_clean_seal_count(p: &Position) -> (r: u8)
    requires
        p.wf(),
    ensures
        r == seal_count(p@),
{
    let king = match find_white_king(p) {
        None => {
            return 0;
        },
        Some(i) => i,
    };
    let mut strikers: Vec<bool> = Vec::new();
    let mut s: usize = 0;
    while s < 81
        invariant
            p.wf(),
            s <= 81,
            strikers@.len() == s,
            forall|j: int| 0 <= j < s ==> strikers@[j] == striker(p@, j),
        decreases 81 - s,
    {
        strikers.push(striker_exec(p, s));
        s = s + 1;
    }
    let kc = king / 9;
    let mut count: u8 = 0;
    let mut c: usize = 0;
    while c < 9
        invariant
            p.wf(),
            c <= 9,
            kc < 9,
            white_king_from(p@, 0) == Some(king as int),
            kc == king / 9,
            strikers@.len() == 81,
            forall|j: int| 0 <= j < 81 ==> strikers@[j] == striker(p@, j),
            count == sealed_upto(p@, kc as int, c as int),
            count <= c,
        decreases 9 - c,
    {
        let near = c + 2 >= kc && c <= kc + 2;
        let sq = c * 9 + 2;
        let breached = strikers[sq] || match p.board[sq] {
            Cell::Piece(Color::White, _) => true,
            _ => false,
        };
        let mut cover = false;
        if near && !breached {
            let target = Square::from_index(sq);
            let mut s: usize = 0;
            while s < 81
                invariant
                    p.wf(),
                    s <= 81,
                    c < 9,
                    sq == c * 9 + 2,
                    target.spec_index() == sq,
                    strikers@.len() == 81,
                    forall|j: int| 0 <= j < 81 ==> strikers@[j] == striker(p@, j),
                    !cover ==> forall|j: int| 0 <= j < s ==> !(#[trigger] wall_piece(p@, j) && (p@.cell(j) matches Cell::Piece(_, k) && attacks(
                        p@,
                        Color::Black,
                        k,
                        j,
                        c * 9 + 2,
                    ))),
                    cover ==> covered(p@, c as int),
                decreases 81 - s,
            {
                match p.board[s] {
                    Cell::Piece(Color::Black, k) => {
                        if !strikers[s] && attacks_exec(p, Color::Black, k, Square::from_index(s), target) {
                            assert(wall_piece(p@, s as int));
                            cover = true;
                        }
                    },
                    _ => {},
                }
                s = s + 1;
            }
        }
        if near && !breached && cover {
            count = count + 1;
        }
        c = c + 1;
    }
    count
}

/// Square `d` is next to square `ki`.
pub open spec fn adjacent(ki: int, d: int) -> bool {
    &&& 0 <= d < 81
    &&& d != ki
    &&& -1 <= d / 9 - ki / 9 <= 1
    &&& -1 <= d % 9 - ki % 9 <= 1
}

/// A square next to the king at `ki`, holding no white piece and not
/// attacked by black: an escape square.
pub open spec fn liberty(p: PositionView, ki: int, d: int) -> bool {
    adjacent(ki, d) && !(p.cell(d) matches Cell::Piece(Color::White, _)) && !attacked_by(p, Color::Black, d)
}

/// Number of escape squares among the first `n` squares.
pub open spec fn liberties_upto(p: PositionView, ki: int, n: int) -> nat
    decreases n,
{
    if n <= 0 {
        0
    } else {
        liberties_upto(p, ki, n - 1) + if liberty(p, ki, n - 1) {
            1nat
        } else {
            0nat
        }
    }
}

/// Number of escape squares of the white king.
pub open spec fn liberties(p: PositionView) -> nat {
    match white_king_from(p, 0) {
        None => 0,
        Some(ki) => liberties_upto(p, ki, 81),
    }
}

/// Number of squares among the first `n` that are next to `ki` and satisfy
/// `f`.
pub open spec fn neighbours_where(ki: int, n: int, f: spec_fn(int) -> bool) -> nat
    decreases n,
{
    if n <= 0 {
        0
    } else {
        neighbours_where(ki, n - 1, f) + if adjacent(ki, n - 1) && f(n - 1) {
            1nat
        } else {
            0nat
        }
    }
}

/// The squares that hold no white piece.
pub open spec fn not_white(p: PositionView) -> spec_fn(int) -> bool {
    |d: int| !(p.cell(d) matches Cell::Piece(Color::White, _))
}

/// The squares that black does not attack.
pub open spec fn unattacked(p: PositionView) -> spec_fn(int) -> bool {
    |d: int| !attacked_by(p, Color::Black, d)
}

proof fn lemma_liberties_upto_count(p: PositionView, ki: int, n: int)
    ensures
        liberties_upto(p, ki, n) == neighbours_where(ki, n, |d: int| not_white(p)(d) && unattacked(p)(d)),
        liberties_upto(p, ki, n) <= neighbours_where(ki, n, not_white(p)),
        liberties_upto(p, ki, n) <= neighbours_where(ki, n, unattacked(p)),
    decreases n,
{
    if n > 0 {
        lemma_liberties_upto_count(p, ki, n - 1);
    }
}

/// The white king's escape squares are exactly its neighbouring squares
/// that hold no white piece and that black does not attack: a square held
/// by a white piece, or attacked by black, never counts.
pub proof fn lemma_liberties_count(p: PositionView)
    ensures
        white_king_from(p, 0) is None ==> liberties(p) == 0,
        white_king_from(p, 0) matches Some(ki) ==> {
            &&& liberties(p) == neighbours_where(ki, 81, |d: int| not_white(p)(d) && unattacked(p)(d))
            &&& liberties(p) <= neighbours_where(ki, 81, not_white(p))
            &&& liberties(p) <= neighbours_where(ki, 81, unattacked(p))
        },
{
    if let Some(ki) = white_king_from(p, 0) {
        lemma_liberties_upto_count(p, ki, 81);
    }
}

/// Number of escape squares of the white king.
pub fn king_liberties(p: &Position) -> (r: u8)
    requires
        p.wf(),
    ensures
        r == liberties(p@),
{
    let king = match find_white_king(p) {
        None => {
            return 0;
        },
        Some(i) => i,
    };
    let mut count: u8 = 0;
    let mut d: usize = 0;
    while d < 81
        invariant
            p.wf(),
            d <= 81,
            king < 81,
            white_king_from(p@, 0) == Some(king as int),
            count == liberties_upto(p@, king as int, d as int),
            count <= d,
        decreases 81 - d,
    {
        let dc = d / 9;
        let dr = d % 9;
        let kc = king / 9;
        let kr = king % 9;
        let near = d != king && dc + 1 >= kc && dc <= kc + 1 && dr + 1 >= kr && dr <= kr + 1;
        if near {
            let white = match p.board[d] {
                Cell::Piece(Color::White, _) => true,
                _ => false,
            };
            if !white && !attacked_by_exec(p, Color::Black, Square::from_index(d)) {
                count = count + 1;
            }
        }
        d = d + 1;
    }
    count
}

/// From the step it applies, the wall holds at least as many squares as the
/// pieces in play ask for.
pub open spec fn rank3_seal_ok(p: PositionView, step: u16, c: SearchConstraints) -> bool {
    c.rank3_seal_min is None || step < c.rank3_seal_from_step || wall_need(in_play(p) as u32, c) == 0
        || seal_count(p) >= wall_need(in_play(p) as u32, c)
}

/// Whether the wall holds enough third-rank squares.
pub fn satisfies_rank3_seal(p: &Position, step: u16, c: SearchConstraints) -> (r: bool)
    requires
        p.wf(),
        hands_bounded(p),
    ensures
        r == rank3_seal_ok(p@, step, c),
{
    if c.rank3_seal_min.is_none() {
        return true;
    }
    if step < c.rank3_seal_from_step {
        return true;
    }
    let want = required_wall(pieces_in_play(p), c);
    if want == 0 {
        return true;
    }
    rank3_clean_seal_count(p) >= want
}

/// Between the steps it applies, the white king keeps at least the least
/// number of escape squares.
pub open spec fn liberties_ok(p: PositionView, step: u16, c: SearchConstraints) -> bool {
    match c.king_min_liberties {
        None => true,
        Some(m) => step < c.king_min_liberties_from_step || (c.king_min_liberties_to_step != 0 && step
            > c.king_min_liberties_to_step) || liberties(p) >= m,
    }
}

/// Whether the white king keeps enough escape squares.
pub fn satisfies_king_min_liberties(p: &Position, step: u16, c: SearchConstraints) -> (r: bool)
    requires
        p.wf(),
    ensures
        r == liberties_ok(p@, step, c),
{
    let min = match c.king_min_liberties {
        None => {
            return true;
        },
        Some(m) => m,
    };
    if step < c.king_min_liberties_from_step {
        return true;
    }
    if c.king_min_liberties_to_step != 0 && step > c.king_min_liberties_to_step {
        return true;
    }
    king_liberties(p) >= min
}

/// Whether `n` lies in the range of pieces expected `step` moves before the
/// mate.
pub open spec fn in_range(n: nat, step: u16, c: SearchConstraints) -> bool {
    pieces_range(step, c.slack, c.miyako).0 <= n <= pieces_range(step, c.slack, c.miyako).1
}

/// A position that may stand `step` moves before a smoke mate: an odd step,
/// black to move with an empty hand, the expected number of board pieces,
/// and every constraint on kinds, counts and squares.
pub open spec fn ideal_ok(p: PositionView, step: u16, c: SearchConstraints) -> bool {
    &&& step != 0 && step % 2 == 1
    &&& p.turn == Color::Black
    &&& black_hand_empty(p)
    &&& in_range(board_pieces(p), step, c)
    &&& c.natural_piece_limit ==> natural_ok(p)
    &&& allowances_ok(p, c)
    &&& search_ok(p, c)
}

/// Whether a position may stand `step` moves before a smoke mate.
pub fn satisfies_ideal_smoke_constraints(p: &Position, step: u16, c: SearchConstraints) -> (r: bool)
    requires
        p.wf(),
        hands_bounded(p),
        c.valid(),
    ensures
        r == ideal_ok(p@, step, c),
{
    if step == 0 || step % 2 == 0 {
        return false;
    }
    if p.turn != Color::Black {
        return false;
    }
    if !black_hand_is_empty(p) {
        return false;
    }
    let board = board_piece_count(p);
    let (min, max) = expected_pieces_range(step, c.slack, c.miyako);
    if board < min || board > max {
        return false;
    }
    if c.natural_piece_limit && !satisfies_natural_piece_limit(p) {
        return false;
    }
    if !satisfies_piece_allowances(p, c) {
        return false;
    }
    satisfies_search_constraints(p, c)
}

/// A position the backward search may keep `step` moves before the mate:
/// at step zero only the kind and area constraints; otherwise also an empty
/// black hand unless white pieces are allowed, the expected pieces in play,
/// the shares of promoted pieces and pawns, the king's rank, the wall, the
/// king's escape squares, the natural set and the family allowances.
pub open spec fn generation_ok(p: PositionView, step: u16, c: SearchConstraints) -> bool {
    if step == 0 {
        search_ok(p, c)
    } else {
        &&& c.allow_white_pieces || black_hand_empty(p)
        &&& in_range(in_play(p), step, c)
        &&& promoted_pct_ok(p, step, c)
        &&& pawn_pct_ok(p, step, c)
        &&& white_king_rank_ok(p, step, c)
        &&& rank3_seal_ok(p, step, c)
        &&& liberties_ok(p, step, c)
        &&& c.natural_piece_limit ==> natural_ok(p)
        &&& allowances_ok(p, c)
        &&& search_ok(p, c)
    }
}

/// Whether the backward search may keep a position `step` moves before the
/// mate.
pub fn satisfies_ideal_smoke_generation_constraints(p: &Position, step: u16, c: SearchConstraints) -> (r: bool)
    requires
        p.wf(),
        hands_bounded(p),
        c.valid(),
    ensures
        r == generation_ok(p@, step, c),
{
    if step == 0 {
        return satisfies_search_constraints(p, c);
    }
    if !c.allow_white_pieces && !black_hand_is_empty(p) {
        return false;
    }
    let pip = pieces_in_play(p);
    let (min, max) = expected_pieces_range(step, c.slack, c.miyako);
    if pip < min || pip > max {
        return false;
    }
    if !satisfies_promoted_pct(p, step, c) {
        return false;
    }
    if !satisfies_pawn_pct(p, step, c) {
        return false;
    }
    if !satisfies_white_king_min_rank(p, step, c) {
        return false;
    }
    if !satisfies_rank3_seal(p, step, c) {
        return false;
    }
    if !satisfies_king_min_liberties(p, step, c) {
        return false;
    }
    if c.natural_piece_limit && !satisfies_natural_piece_limit(p) {
        return false;
    }
    if !satisfies_piece_allowances(p, c) {
        return false;
    }
    satisfies_search_constraints(p, c)
}

/// An undo the backward search may take from `p` to reach step
/// `next_step`, judged before the earlier position is built: it brings back
/// no white piece unless allowed, no forbidden kind, no piece out of bounds;
/// the pieces in play after it fit the step and the family allowances; the
/// promoted share, black's promotion zone and black's hand are as asked.
pub open spec fn undo_candidate_ok(p: PositionView, u: UndoMove, next_step: u16, c: SearchConstraints) -> bool {
    let pip = in_play_after_undo(p, u);
    if next_step == 0 {
        true
    } else {
        &&& c.allow_white_pieces || !spawns_white(p, u)
        &&& c.no_gold ==> !creates_gold(p, u)
        &&& c.no_pawn ==> !creates_pawn(p, u)
        &&& c.only_pawn ==> !creates_non_pawn(p, u)
        &&& c.allowed_kinds_mask is Some ==> !creates_forbidden(p, u, c.allowed_kinds_mask)
        &&& !(u matches UndoMove::UnMove { source, .. } && !in_bounds(source, c))
        &&& pieces_range(next_step, c.slack, c.miyako).0 <= pip <= pieces_range(next_step, c.slack, c.miyako).1
        &&& family_undo_ok(u, pip as u32, c.rook_bishop_allow_start, rook_bishop_kinds())
        &&& family_undo_ok(u, pip as u32, c.lance_knight_allow_start, lance_knight_kinds())
        &&& promoted_pct_ok(p, next_step, c)
        &&& promotion_zone_ok(p, u, next_step, c)
        &&& c.allow_white_pieces || hand_empty_after_undo(p, u)
    }
}

/// Whether the backward search may take the undo `u` from `p`.
pub fn satisfies_ideal_smoke_undo_candidate(p: &Position, u: &UndoMove, next_step: u16, c: SearchConstraints) -> (r: bool)
    requires
        p.wf(),
        hands_bounded(p),
        undo_fits(p@, *u),
        c.valid(),
    ensures
        r == undo_candidate_ok(p@, *u, next_step, c),
{
    if next_step == 0 {
        return true;
    }
    if !c.allow_white_pieces && undo_spawns_white_piece(p, u) {
        return false;
    }
    if c.no_gold && undo_creates_gold(p, u) {
        return false;
    }
    if c.no_pawn && undo_creates_pawn(p, u) {
        return false;
    }
    if c.only_pawn && undo_creates_non_pawn(p, u) {
        return false;
    }
    if c.allowed_kinds_mask.is_some() && undo_creates_forbidden_kind(p, u, c.allowed_kinds_mask) {
        return false;
    }
    if undo_creates_out_of_bounds_piece(u, c) {
        return false;
    }
    let pip = pieces_in_play_after_undo(p, u);
    let (min, max) = expected_pieces_range(next_step, c.slack, c.miyako);
    if pip < min || pip > max {
        return false;
    }
    let rb = rook_bishop_family();
    if !family_undo_allowed(u, pip, c.rook_bishop_allow_start, &rb) {
        return false;
    }
    let lk = lance_knight_family();
    if !family_undo_allowed(u, pip, c.lance_knight_allow_start, &lk) {
        return false;
    }
    if !satisfies_promoted_pct(p, next_step, c) {
        return false;
    }
    if !satisfies_black_promotion_zone(p, u, next_step, c) {
        return false;
    }
    c.allow_white_pieces || black_hand_empty_after_undo(p, u)
}

/// The pieces of a hand kind the constraints let onto the board: none for
/// an excluded kind, else its count in the set, clamped to the natural set
/// when asked.
pub open spec fn kind_cap(c: SearchConstraints, k: Kind) -> nat {
    if (c.only_pawn && k != Kind::Pawn) || (c.no_pawn && k == Kind::Pawn) || (c.no_gold && k == Kind::Gold)
        || !kind_allowed(k, c.allowed_kinds_mask) {
        0
    } else {
        let cap = c.spec_max_count(k);
        if c.natural_piece_limit {
            let limit: nat = match k {
                Kind::Pawn => 9,
                Kind::Lance | Kind::Knight | Kind::Silver | Kind::Gold => 2,
                Kind::Bishop | Kind::Rook => 1,
                _ => cap,
            };
            if cap <= limit {
                cap
            } else {
                limit
            }
        } else {
            cap
        }
    }
}

/// The caps of the first `i` hand kinds.
pub open spec fn caps_upto(c: SearchConstraints, i: int) -> nat
    decreases i,
{
    if i <= 0 {
        0
    } else {
        caps_upto(c, i - 1) + kind_cap(c, spec_kind_of(i - 1))
    }
}

/// The most pieces a board can hold under the constraints: the kings and the
/// caps of all hand kinds, at most the squares of the allowed area.
pub open spec fn theoretical_max(c: SearchConstraints) -> nat {
    let total = (if c.double_king {
        2nat
    } else {
        1nat
    }) + caps_upto(c, 7);
    let mf: nat = match c.max_file {
        Some(f) => f as nat,
        None => 9,
    };
    let mr: nat = match c.max_rank {
        Some(r) => r as nat,
        None => 9,
    };
    if total <= mf * mr {
        total
    } else {
        mf * mr
    }
}

fn kind_cap_exec(c: SearchConstraints, k: Kind) -> (r: u32)
    ensures
        r == kind_cap(c, k),
        r <= 18,
{
    if (c.only_pawn && k != Kind::Pawn) || (c.no_pawn && k == Kind::Pawn) || (c.no_gold && k == Kind::Gold)
        || !kind_allowed_by_mask(k, c.allowed_kinds_mask) {
        return 0;
    }
    let cap = c.max_count(k);
    if c.natural_piece_limit {
        let limit: u32 = match k {
            Kind::Pawn => 9,
            Kind::Lance | Kind::Knight | Kind::Silver | Kind::Gold => 2,
            Kind::Bishop | Kind::Rook => 1,
            _ => cap,
        };
        if cap <= limit {
            cap
        } else {
            limit
        }
    } else {
        cap
    }
}

/// The most pieces a board can hold under the constraints.
pub fn theoretical_max_piece_count(c: SearchConstraints) -> (r: u32)
    ensures
        r == theoretical_max(c),
{
    let mut total: u32 = if c.double_king {
        2
    } else {
        1
    };
    let mut i: usize = 0;
    while i < 7
        invariant
            i <= 7,
            total == (if c.double_king {
                2nat
            } else {
                1nat
            }) + caps_upto(c, i as int),
            total <= 2 + 18 * i,
        decreases 7 - i,
    {
        total = total + kind_cap_exec(c, kind_of(i));
        i = i + 1;
    }
    let mf: u32 = match c.max_file {
        Some(f) => f as u32,
        None => 9,
    };
    let mr: u32 = match c.max_rank {
        Some(r) => r as u32,
        None => 9,
    };
    assert(mf * mr <= 65025) by (nonlinear_arith)
        requires
            mf <= 255,
            mr <= 255,
    ;
    let area = mf * mr;
    if total <= area {
        total
    } else {
        area
    }
}

/// Why search constraints or their options were refused.
#[derive(Debug)]
pub enum ConstraintError {
    MaxFile,
    MaxRank,
    MaxPromotedPct,
    MinPawnPct,
    WhiteKingMinRank,
    /// A mate square not written as two characters.
    MateSquareLength(String),
    /// A mate square whose digits are not 1 to 9.
    MateSquareDigits(String),
    /// A kind name that is not known.
    UnknownKind(String),
}

/// The message of an error.
pub open spec fn constraint_error_text(e: ConstraintError) -> Seq<char> {
    match e {
        ConstraintError::MaxFile => "max-file must be between 1 and 9"@,
        ConstraintError::MaxRank => "max-rank must be between 1 and 9"@,
        ConstraintError::MaxPromotedPct => "max-promoted-pct must be between 0 and 100"@,
        ConstraintError::MinPawnPct => "min-pawn-pct must be between 0 and 100"@,
        ConstraintError::WhiteKingMinRank => "white-king-min-rank must be between 1 and 9"@,
        ConstraintError::MateSquareLength(s) => "--mate-square requires 2-digit shogi notation (e.g. 11, 55), got: "@ + s@,
        ConstraintError::MateSquareDigits(s) => "--mate-square digits must be 1-9, got: "@ + s@,
        ConstraintError::UnknownKind(s) => "unknown kind: "@ + s@,
    }
}

impl ConstraintError {
    /// The message for this error.
    pub fn to_string(&self) -> (r: String)
        ensures
            r@ == constraint_error_text(*self),
    {
        let mut s = String::new();
        match self {
            ConstraintError::MaxFile => s.append("max-file must be between 1 and 9"),
            ConstraintError::MaxRank => s.append("max-rank must be between 1 and 9"),
            ConstraintError::MaxPromotedPct => s.append("max-promoted-pct must be between 0 and 100"),
            ConstraintError::MinPawnPct => s.append("min-pawn-pct must be between 0 and 100"),
            ConstraintError::WhiteKingMinRank => s.append("white-king-min-rank must be between 1 and 9"),
            ConstraintError::MateSquareLength(t) => {
                s.append("--mate-square requires 2-digit shogi notation (e.g. 11, 55), got: ");
                s.append(t.as_str());
            },
            ConstraintError::MateSquareDigits(t) => {
                s.append("--mate-square digits must be 1-9, got: ");
                s.append(t.as_str());
            },
            ConstraintError::UnknownKind(t) => {
                s.append("unknown kind: ");
                s.append(t.as_str());
            },
        }
        proof {
            assert(s@ =~= constraint_error_text(*self));
        }
        s
    }
}

/// The first constraint out of its range, if any.
pub open spec fn validation_error(c: SearchConstraints) -> Option<ConstraintError> {
    if c.max_file matches Some(f) && !(1 <= f <= 9) {
        Some(ConstraintError::MaxFile)
    } else if c.max_rank matches Some(r) && !(1 <= r <= 9) {
        Some(ConstraintError::MaxRank)
    } else if c.max_promoted_pct matches Some(p) && p > 100 {
        Some(ConstraintError::MaxPromotedPct)
    } else if c.min_pawn_pct matches Some(p) && p > 100 {
        Some(ConstraintError::MinPawnPct)
    } else if c.white_king_min_rank matches Some(r) && !(1 <= r <= 9) {
        Some(ConstraintError::WhiteKingMinRank)
    } else {
        None
    }
}

/// Checks that files, ranks and percentages lie in their ranges.
pub fn validate_search_constraints(c: SearchConstraints) -> (r: Result<(), ConstraintError>)
    ensures
        r is Ok <==> c.valid(),
        match r {
            Ok(()) => validation_error(c) is None,
            Err(e) => validation_error(c) == Some(e),
        },
{
    if let Some(f) = c.max_file {
        if !(1 <= f && f <= 9) {
            return Err(ConstraintError::MaxFile);
        }
    }
    if let Some(r) = c.max_rank {
        if !(1 <= r && r <= 9) {
            return Err(ConstraintError::MaxRank);
        }
    }
    if let Some(p) = c.max_promoted_pct {
        if p > 100 {
            return Err(ConstraintError::MaxPromotedPct);
        }
    }
    if let Some(p) = c.min_pawn_pct {
        if p > 100 {
            return Err(ConstraintError::MinPawnPct);
        }
    }
    if let Some(r) = c.white_king_min_rank {
        if !(1 <= r && r <= 9) {
            return Err(ConstraintError::WhiteKingMinRank);
        }
    }
    Ok(())
}

/// A mate square written as a file digit and a rank digit, 1 to 9 each.
pub open spec fn mate_square_ok(b: Seq<u8>) -> bool {
    b.len() == 2 && 49 <= b[0] <= 57 && 49 <= b[1] <= 57
}

/// The square index of a mate square written as two digits.
pub open spec fn mate_square_index(b: Seq<u8>) -> u128 {
    ((57 - b[0]) * 9 + (b[1] - 49)) as u128
}

/// The mask of the first `n` mate squares.
pub open spec fn mate_mask(ss: Seq<&str>, n: int) -> u128
    decreases n,
{
    if n <= 0 {
        0
    } else {
        mate_mask(ss, n - 1) | (1u128 << mate_square_index(ss[n - 1].spec_bytes()))
    }
}

/// Reads mate squares such as `11` or `55` into a mask of square indices.
pub fn parse_mate_squares(specs: &[&str]) -> (r: Result<u128, ConstraintError>)
    ensures
        match r {
            Ok(m) => (forall|i: int| 0 <= i < specs@.len() ==> mate_square_ok(#[trigger] specs@[i].spec_bytes()))
                && m == mate_mask(specs@, specs@.len() as int),
            Err(e) => exists|i: int|
                0 <= i < specs@.len() && !mate_square_ok(#[trigger] specs@[i].spec_bytes()) && (forall|j: int|
                    0 <= j < i ==> mate_square_ok(specs@[j].spec_bytes())) && (if specs@[i].spec_bytes().len()
                    != 2 {
                    e matches ConstraintError::MateSquareLength(t) && t@ == specs@[i]@
                } else {
                    e matches ConstraintError::MateSquareDigits(t) && t@ == specs@[i]@
                }),
        },
{
    let mut mask: u128 = 0;
    let mut i: usize = 0;
    while i < specs.len()
        invariant
            i <= specs@.len(),
            forall|j: int| 0 <= j < i ==> mate_square_ok(#[trigger] specs@[j].spec_bytes()),
            mask == mate_mask(specs@, i as int),
        decreases specs@.len() - i,
    {
        let b = specs[i].as_bytes();
        if b.len() != 2 {
            let mut t = String::new();
            t.append(specs[i]);
            proof {
                assert(t@ =~= specs@[i as int]@);
            }
            return Err(ConstraintError::MateSquareLength(t));
        }
        if !(49 <= b[0] && b[0] <= 57 && 49 <= b[1] && b[1] <= 57) {
            let mut t = String::new();
            t.append(specs[i]);
            proof {
                assert(t@ =~= specs@[i as int]@);
            }
            return Err(ConstraintError::MateSquareDigits(t));
        }
        let index: u128 = ((57 - b[0]) as u128) * 9 + (b[1] - 49) as u128;
        mask = mask | (1u128 << index);
        i = i + 1;
    }
    Ok(mask)
}

/// Whether the white king stands on an allowed mate square; any square is
/// allowed when no square is given.
pub open spec fn mate_square_allowed(p: PositionView, mate_squares: u128) -> bool {
    mate_squares == 0 || match white_king_from(p, 0) {
        None => false,
        Some(ki) => (mate_squares >> (ki as u128)) & 1u128 != 0,
    }
}

/// Whether the white king stands on an allowed mate square.
pub fn satisfies_mate_square(p: &Position, mate_squares: u128) -> (r: bool)
    requires
        p.wf(),
    ensures
        r == mate_square_allowed(p@, mate_squares),
{
    if mate_squares == 0 {
        return true;
    }
    match find_white_king(p) {
        None => false,
        Some(ki) => (mate_squares >> (ki as u128)) & 1u128 != 0,
    }
}

/// A character of a name matches a lowercase word character, letter case
/// aside.
pub open spec fn char_matches(ch: char, w: char) -> bool {
    if 'A' <= ch <= 'Z' {
        ch as u32 + 32 == w as u32
    } else {
        ch == w
    }
}

/// A name spells the lowercase word `w`, letter case aside.
pub open spec fn spells(n: Seq<char>, w: Seq<char>) -> bool {
    n.len() == w.len() && forall|i: int| 0 <= i < n.len() ==> char_matches(#[trigger] n[i], w[i])
}

/// The kind a name stands for: its English name or SFEN letter, letter case
/// aside.
pub open spec fn named_kind(n: Seq<char>) -> Option<Kind> {
    if spells(n, "pawn"@) || spells(n, "p"@) {
        Some(Kind::Pawn)
    } else if spells(n, "lance"@) || spells(n, "l"@) {
        Some(Kind::Lance)
    } else if spells(n, "knight"@) || spells(n, "n"@) {
        Some(Kind::Knight)
    } else if spells(n, "silver"@) || spells(n, "s"@) {
        Some(Kind::Silver)
    } else if spells(n, "gold"@) || spells(n, "g"@) {
        Some(Kind::Gold)
    } else if spells(n, "bishop"@) || spells(n, "b"@) {
        Some(Kind::Bishop)
    } else if spells(n, "rook"@) || spells(n, "r"@) {
        Some(Kind::Rook)
    } else {
        None
    }
}

/// The mask bits of a kind and of its promoted form.
pub open spec fn kind_bits(k: Kind) -> u16 {
    (1u16 << (k.spec_index() as u16)) | match k.spec_promote() {
        Some(pk) => 1u16 << (pk.spec_index() as u16),
        None => 0u16,
    }
}

/// The mask of the kinds named by the first `n` names.
pub open spec fn names_mask(ns: Seq<&str>, n: int) -> u16
    decreases n,
{
    if n <= 0 {
        0
    } else {
        names_mask(ns, n - 1) | match named_kind(ns[n - 1]@) {
            Some(k) => kind_bits(k),
            None => 0u16,
        }
    }
}

fn spells_exec(n: &str, w: &str) -> (r: bool)
    ensures
        r == spells(n@, w@),
{
    let len = n.unicode_len();
    if len != w.unicode_len() {
        return false;
    }
    let mut i: usize = 0;
    while i < len
        invariant
            len == n@.len(),
            len == w@.len(),
            i <= len,
            forall|j: int| 0 <= j < i ==> char_matches(#[trigger] n@[j], w@[j]),
        decreases len - i,
    {
        let ch = n.get_char(i);
        let wc = w.get_char(i);
        let ok = if 'A' <= ch && ch <= 'Z' {
            ch as u32 + 32 == wc as u32
        } else {
            ch == wc
        };
        if !ok {
            assert(!char_matches(n@[i as int], w@[i as int]));
            return false;
        }
        i = i + 1;
    }
    true
}

fn named_kind_exec(n: &str) -> (r: Option<Kind>)
    ensures
        r == named_kind(n@),
{
    if spells_exec(n, "pawn") || spells_exec(n, "p") {
        Some(Kind::Pawn)
    } else if spells_exec(n, "lance") || spells_exec(n, "l") {
        Some(Kind::Lance)
    } else if spells_exec(n, "knight") || spells_exec(n, "n") {
        Some(Kind::Knight)
    } else if spells_exec(n, "silver") || spells_exec(n, "s") {
        Some(Kind::Silver)
    } else if spells_exec(n, "gold") || spells_exec(n, "g") {
        Some(Kind::Gold)
    } else if spells_exec(n, "bishop") || spells_exec(n, "b") {
        Some(Kind::Bishop)
    } else if spells_exec(n, "rook") || spells_exec(n, "r") {
        Some(Kind::Rook)
    } else {
        None
    }
}

/// Reads kind names (`pawn` or `p` through `rook` or `r`, letter case
/// aside) into a mask of allowed kinds, each with its promoted form.
pub fn parse_allowed_kinds(names: &[&str]) -> (r: Result<u16, ConstraintError>)
    ensures
        match r {
            Ok(m) => (forall|i: int| 0 <= i < names@.len() ==> #[trigger] named_kind(names@[i]@) is Some) && m
                == names_mask(names@, names@.len() as int),
            Err(e) => exists|i: int|
                0 <= i < names@.len() && #[trigger] named_kind(names@[i]@) is None && (forall|j: int|
                    0 <= j < i ==> named_kind(names@[j]@) is Some) && (e matches ConstraintError::UnknownKind(t)
                    && t@ == names@[i]@),
        },
{
    let mut mask: u16 = 0;
    let mut i: usize = 0;
    while i < names.len()
        invariant
            i <= names@.len(),
            forall|j: int| 0 <= j < i ==> #[trigger] named_kind(names@[j]@) is Some,
            mask == names_mask(names@, i as int),
        decreases names@.len() - i,
    {
        let kind = match named_kind_exec(names[i]) {
            Some(k) => k,
            None => {
                let mut t = String::new();
                t.append(names[i]);
                proof {
                    assert(t@ =~= names@[i as int]@);
                }
                return Err(ConstraintError::UnknownKind(t));
            },
        };
        let promoted_bit: u16 = match kind.promote() {
            Some(pk) => 1u16 << (pk.index() as u16),
            None => 0u16,
        };
        mask = mask | ((1u16 << (kind.index() as u16)) | promoted_bit);
        i = i + 1;
    }
    Ok(mask)
}

/// The position mirrored left to right: pieces move to the mirror file,
/// stones are left out, hands, side to move and the pawn-drop flag stay.
pub open spec fn mirrored(p: PositionView) -> PositionView {
    PositionView {
        board: Seq::new(
            81,
            |i: int|
                match p.cell((8 - i / 9) * 9 + i % 9) {
                    Cell::Piece(c, k) => Cell::Piece(c, k),
                    _ => Cell::Empty,
                },
        ),
        hands: p.hands,
        turn: p.turn,
        pawn_drop: p.pawn_drop,
    }
}

/// The position mirrored left to right.
pub fn reflect_left_right(p: &Position) -> (r: Position)
    requires
        p.wf(),
    ensures
        r.wf(),
        r@ == mirrored(p@),
{
    let mut board: Vec<Cell> = Vec::new();
    let mut i: usize = 0;
    while i < 81
        invariant
            p.wf(),
            i <= 81,
            board@.len() == i,
            forall|j: int| 0 <= j < i ==> board@[j] == mirrored(p@).board[j],
        decreases 81 - i,
    {
        let src = (8 - i / 9) * 9 + i % 9;
        let cell = match p.board[src] {
            Cell::Piece(c, k) => Cell::Piece(c, k),
            _ => Cell::Empty,
        };
        board.push(cell);
        i = i + 1;
    }
    let r = Position { board, hands: p.hands.copy(), turn: p.turn, pawn_drop: p.pawn_drop };
    proof {
        assert(r@.board =~= mirrored(p@).board);
    }
    r
}

/// White's hand holds every piece of the set not on the board nor in
/// black's hand; the board and black's hand stay.
pub open spec fn complemented(p: PositionView, q: PositionView, c: SearchConstraints) -> bool {
    &&& q.board == p.board
    &&& q.turn == p.turn
    &&& q.pawn_drop == p.pawn_drop
    &&& forall|k: Kind| q.hand(Color::Black, k) == p.hand(Color::Black, k)
    &&& forall|k: Kind|
        k.spec_is_hand_piece() ==> #[trigger] q.hand(Color::White, k) == c.spec_max_count(k) - board_kinds(p, with_promoted(k))
            - p.hand(Color::Black, k)
}

/// No hand kind is used more often than the set holds.
pub open spec fn within_set(p: PositionView, c: SearchConstraints) -> bool {
    forall|k: Kind|
        k.spec_is_hand_piece() ==> board_kinds(p, with_promoted(k)) + p.hand(Color::Black, k) + #[trigger] p.hand(
            Color::White,
            k,
        ) <= c.spec_max_count(k)
}

/// The position with every piece of the set that is neither on the board
/// nor in black's hand given to white's hand.
pub fn with_white_complement(p: &Position, c: SearchConstraints) -> (r: Position)
    requires
        p.wf(),
        within_set(p@, c),
    ensures
        r.wf(),
        complemented(p@, r@, c),
{
    let mut q = p.copy();
    let mut i: usize = 0;
    while i < 7
        invariant
            p.wf(),
            q.wf(),
            within_set(p@, c),
            i <= 7,
            q@.board == p@.board,
            q@.turn == p@.turn,
            q@.pawn_drop == p@.pawn_drop,
            forall|k: Kind| #[trigger] q.hand(Color::Black, k) == p.hand(Color::Black, k),
            forall|k: Kind| k.spec_index() >= i ==> #[trigger] q.hand(Color::White, k) == p.hand(Color::White, k),
            forall|k: Kind|
                k.spec_is_hand_piece() && k.spec_index() < i ==> #[trigger] q.hand(Color::White, k) == c.spec_max_count(k)
                    - board_kinds(p@, with_promoted(k)) - p.hand(Color::Black, k),
        decreases 7 - i,
    {
        let kind = kind_of(i);
        let board_used = count_kind_on_board(&q, kind);
        let black_hands = q.hands.count(Color::Black, kind) as u32;
        let white_hands = q.hands.count(Color::White, kind) as u32;
        let max = c.max_count(kind);
        proof {
            assert(q.hand(Color::Black, kind) == p.hand(Color::Black, kind));
            assert(q.hand(Color::White, kind) == p.hand(Color::White, kind));
            assert(p@.hand(Color::White, kind) == p.hand(Color::White, kind));
            assert(p@.hand(Color::Black, kind) == p.hand(Color::Black, kind));
            assert(kind.spec_is_hand_piece());
        }
        assert(board_used + black_hands + white_hands <= max);
        let total_used = board_used + black_hands + white_hands;
        let missing = max - total_used;
        q.add_to_hand(Color::White, kind, missing as usize);
        i = i + 1;
    }
    proof {
        assert forall|k: Kind| #[trigger] q@.hand(Color::Black, k) == p@.hand(Color::Black, k) by {
            assert(q.hand(Color::Black, k) == p.hand(Color::Black, k));
        }
        assert forall|k: Kind| k.spec_is_hand_piece() implies #[trigger] q@.hand(Color::White, k) == c.spec_max_count(k)
            - board_kinds(p@, with_promoted(k)) - p@.hand(Color::Black, k) by {
            assert(k.spec_index() < 7);
            assert(q.hand(Color::White, k) == q@.hand(Color::White, k));
            assert(p.hand(Color::Black, k) == p@.hand(Color::Black, k));
        }
    }
    q
}

/// Whether `a` comes no later than `b` in character order.
pub open spec fn text_le(a: Seq<char>, b: Seq<char>) -> bool
    decreases a.len(),
{
    if a.len() == 0 {
        true
    } else if b.len() == 0 {
        false
    } else if a[0] != b[0] {
        (a[0] as u32) < (b[0] as u32)
    } else {
        text_le(a.drop_first(), b.drop_first())
    }
}

fn text_le_exec(a: &str, b: &str) -> (r: bool)
    ensures
        r == text_le(a@, b@),
{
    let la = a.unicode_len();
    let lb = b.unicode_len();
    let mut i: usize = 0;
    proof {
        assert(a@.skip(0) =~= a@);
        assert(b@.skip(0) =~= b@);
    }
    while i < la
        invariant
            la == a@.len(),
            lb == b@.len(),
            i <= la,
            i <= lb,
            text_le(a@, b@) == text_le(a@.skip(i as int), b@.skip(i as int)),
        decreases la - i,
    {
        if i >= lb {
            return false;
        }
        let ca = a.get_char(i);
        let cb = b.get_char(i);
        proof {
            assert(a@.skip(i as int)[0] == ca);
            assert(b@.skip(i as int)[0] == cb);
            assert(a@.skip(i as int).drop_first() =~= a@.skip(i + 1));
            assert(b@.skip(i as int).drop_first() =~= b@.skip(i + 1));
        }
        if ca != cb {
            return (ca as u32) < (cb as u32);
        }
        i = i + 1;
    }
    proof {
        assert(a@.skip(i as int).len() == 0);
    }
    true
}

/// The SFEN of a position or of its mirror image, whichever comes first.
pub fn canonical_lr_sfen(p: &Position) -> (r: String)
    requires
        p.wf(),
    ensures
        r@ == if text_le(position_sfen(p@), position_sfen(mirrored(p@))) {
            position_sfen(p@)
        } else {
            position_sfen(mirrored(p@))
        },
{
    let sfen = p.sfen();
    let reflected = reflect_left_right(p).sfen();
    if text_le_exec(sfen.as_str(), reflected.as_str()) {
        sfen
    } else {
        reflected
    }
}

/// The key of a position for the search: its SFEN, or the first of it and
/// its mirror image when the constraints are symmetric.
pub fn canonical_sfen(p: &Position, c: SearchConstraints) -> (r: String)
    requires
        p.wf(),
    ensures
        r@ == if c.max_file is Some || c.mate_squares != 0 {
            position_sfen(p@)
        } else if text_le(position_sfen(p@), position_sfen(mirrored(p@))) {
            position_sfen(p@)
        } else {
            position_sfen(mirrored(p@))
        },
{
    if c.breaks_lr_symmetry() {
        p.sfen()
    } else {
        canonical_lr_sfen(p)
    }
}

} // verus!
