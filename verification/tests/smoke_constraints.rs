use hiddenmate::piece::{Color, Kind};
use hiddenmate::position::{Cell, Position};
use hiddenmate::rules::in_check_exec;
use hiddenmate::smoke::{
    board_piece_count, count_kind_on_board, family_board_count, king_liberties, parse_allowed_kinds,
    rank3_clean_seal_count, reflect_left_right, required_wall, rook_bishop_family,
    satisfies_black_promotion_zone, satisfies_ideal_smoke_constraints,
    satisfies_ideal_smoke_generation_constraints, satisfies_ideal_smoke_undo_candidate,
    satisfies_king_min_liberties, satisfies_piece_allowances, satisfies_rank3_seal,
    satisfies_rook_bishop_allowance, satisfies_search_constraints, satisfies_white_king_min_rank,
    theoretical_max_piece_count, undo_creates_gold, undo_spawns_white_piece, with_white_complement,
    SearchConstraints, UndoMove,
};
use hiddenmate::square::Square;

fn square(file: usize, rank: usize) -> Square {
    Square::new(file - 1, rank - 1)
}

fn white_hands_are_complement(position: &Position, constraints: SearchConstraints) -> bool {
    hiddenmate::piece::all_kinds()[..7].iter().copied().all(|kind| {
        let board_used = count_kind_on_board(position, kind);
        let black_hands = position.hands().count(Color::Black, kind) as u32;
        let white_hands = position.hands().count(Color::White, kind) as u32;
        let max = constraints.max_count(kind);
        board_used + black_hands + white_hands == max
            && white_hands == max - board_used - black_hands
    })
}

#[test]
fn reflect_left_right_is_involution() {
    let mut position = Position::default();
    position.set_turn(Color::White);
    position.set(square(1, 9), Color::White, Kind::King);
    position.set(square(3, 8), Color::Black, Kind::ProRook);
    position.set(square(7, 2), Color::Black, Kind::Silver);

    assert_eq!(
        reflect_left_right(&reflect_left_right(&position)).sfen(),
        position.sfen()
    );
}

#[test]
fn with_white_complement_fills_remaining_pieces_to_white_hand() {
    let position = Position::from_sfen("+R1k6/4R4/9/9/9/9/9/9/9 w - 1").unwrap();
    let constraints = SearchConstraints::default();
    let position = with_white_complement(&position, constraints);
    assert!(position.hands().is_empty(Color::Black));
    assert!(white_hands_are_complement(&position, constraints));
    assert_eq!(count_kind_on_board(&position, Kind::Rook), 2);
    assert_eq!(position.hands().count(Color::White, Kind::Rook), 0);
    assert_eq!(position.hands().count(Color::White, Kind::Pawn), 18);
}

#[test]
fn smoke_constraint_rejects_even_step() {
    let position = Position::from_sfen("+R1k6/4R4/9/9/9/9/9/9/9 b - 1").unwrap();
    assert_eq!(board_piece_count(&position), 3);
    assert!(!satisfies_ideal_smoke_constraints(&position, 2, SearchConstraints::default()));
}

#[test]
fn smoke_undo_prefilter_rejects_white_piece_spawn() {
    let position = Position::from_sfen("+B8/9/9/9/9/9/9/7+B1/7k1 w 2r4g4s4n4l18p 1").unwrap();
    let undo_move = UndoMove::UnMove {
        source: square(1, 1),
        dest: square(1, 9),
        promote: false,
        capture: Some(Kind::Pawn),
        pawn_drop: false,
    };
    assert!(undo_spawns_white_piece(&position, &undo_move));
    assert!(!satisfies_ideal_smoke_undo_candidate(
        &position,
        &undo_move,
        3,
        SearchConstraints::default()
    ));
}

#[test]
fn no_gold_rejects_gold_but_allows_promoted_goldish() {
    let constraints = SearchConstraints { no_gold: true, ..Default::default() };
    let gold = Position::from_sfen("9/9/9/9/9/9/9/9/G6k1 b - 1").unwrap();
    let pro_pawn = Position::from_sfen("9/9/9/9/9/9/9/9/+P6k1 b - 1").unwrap();

    assert!(!satisfies_search_constraints(&gold, constraints));
    assert!(satisfies_search_constraints(&pro_pawn, constraints));
}

#[test]
fn no_gold_undo_prefilter_rejects_gold_creation() {
    let constraints = SearchConstraints { no_gold: true, ..Default::default() };
    let position = Position::from_sfen("+B8/9/9/9/9/9/9/7+B1/7k1 w 2r4g4s4n4l18p 1").unwrap();
    let undo_move = UndoMove::UnMove {
        source: square(1, 1),
        dest: square(1, 9),
        promote: false,
        capture: Some(Kind::Gold),
        pawn_drop: false,
    };

    assert!(undo_creates_gold(&position, &undo_move));
    assert!(!satisfies_ideal_smoke_undo_candidate(&position, &undo_move, 3, constraints));
}

#[test]
fn max_file_constraint_restricts_board_squares() {
    let constraints = SearchConstraints { max_file: Some(4), ..Default::default() };
    let mut inside = Position::default();
    inside.set(square(1, 1), Color::Black, Kind::Bishop);
    inside.set(square(4, 1), Color::Black, Kind::Bishop);
    inside.set(square(1, 9), Color::White, Kind::King);
    let mut outside = inside.copy();
    outside.set(square(5, 1), Color::Black, Kind::Bishop);

    assert!(satisfies_search_constraints(&inside, constraints));
    assert!(!satisfies_search_constraints(&outside, constraints));
}

#[test]
fn max_rank_constraint_restricts_board_squares() {
    // max_rank 7 keeps ranks 3 to 9; rank 1 is outside.
    let constraints = SearchConstraints { max_rank: Some(7), ..Default::default() };
    let mut inside = Position::default();
    inside.set(square(1, 3), Color::Black, Kind::Bishop);
    inside.set(square(1, 9), Color::White, Kind::King);
    let mut outside = inside.copy();
    outside.set(square(1, 1), Color::Black, Kind::Bishop);

    assert!(satisfies_search_constraints(&inside, constraints));
    assert!(!satisfies_search_constraints(&outside, constraints));
}

#[test]
fn white_king_min_rank_keeps_king_out_of_promotion_zone() {
    let constraints = SearchConstraints {
        white_king_min_rank: Some(4),
        white_king_min_rank_after_step: 10,
        ..Default::default()
    };
    let mut inside = Position::default();
    inside.set(square(1, 4), Color::White, Kind::King);
    let mut outside = Position::default();
    outside.set(square(1, 3), Color::White, Kind::King);

    assert!(satisfies_white_king_min_rank(&inside, 20, constraints));
    assert!(!satisfies_white_king_min_rank(&outside, 20, constraints));
    // Not asked for close to the mate.
    assert!(satisfies_white_king_min_rank(&outside, 9, constraints));
    // Always met when not set.
    assert!(satisfies_white_king_min_rank(&outside, 20, SearchConstraints::default()));
}

#[test]
fn black_avoid_promotion_zone_rejects_moves_touching_ranks_1_to_3() {
    let constraints = SearchConstraints {
        black_avoid_promotion_zone_from_step: Some(6),
        ..Default::default()
    };
    // Black made the last move: white is to move now.
    let mut black_moved = Position::default();
    black_moved.set_turn(Color::White);
    let safe = UndoMove::UnMove {
        source: square(5, 4),
        dest: square(5, 5),
        promote: false,
        capture: None,
        pawn_drop: false,
    };
    let into_zone = UndoMove::UnMove {
        source: square(5, 4),
        dest: square(5, 3),
        promote: false,
        capture: None,
        pawn_drop: false,
    };
    let promoting = UndoMove::UnMove {
        source: square(5, 3),
        dest: square(5, 4),
        promote: true,
        capture: None,
        pawn_drop: false,
    };
    let drop_in_zone = UndoMove::UnDrop(square(5, 2), false);

    assert!(satisfies_black_promotion_zone(&black_moved, &safe, 20, constraints));
    assert!(!satisfies_black_promotion_zone(&black_moved, &into_zone, 20, constraints));
    assert!(!satisfies_black_promotion_zone(&black_moved, &promoting, 20, constraints));
    assert!(!satisfies_black_promotion_zone(&black_moved, &drop_in_zone, 20, constraints));
    assert!(satisfies_black_promotion_zone(&black_moved, &into_zone, 5, constraints));
    let mut white_moved = Position::default();
    white_moved.set_turn(Color::Black);
    assert!(satisfies_black_promotion_zone(&white_moved, &into_zone, 20, constraints));
    assert!(satisfies_black_promotion_zone(
        &black_moved,
        &into_zone,
        20,
        SearchConstraints::default()
    ));
}

#[test]
fn rank3_seal_requires_pieces_that_cannot_touch_the_king_zone() {
    // King on 3-4 and a black gold on 3-2: the gold can step to 3-3 and hit
    // 3-4, so it is no wall.
    let mut p = Position::default();
    p.set(square(3, 4), Color::White, Kind::King);
    p.set(square(3, 2), Color::Black, Kind::Gold);
    assert_eq!(rank3_clean_seal_count(&p), 0);

    // A pawn on 3-3 keeps the gold from moving there: 3-3 is walled.
    p.set(square(3, 3), Color::Black, Kind::Pawn);
    assert_eq!(rank3_clean_seal_count(&p), 1);

    // A guarded square holding a piece that reaches the king's ranks is no
    // wall.
    let mut q = Position::default();
    q.set(square(1, 9), Color::White, Kind::King);
    q.set(square(1, 4), Color::Black, Kind::Pawn);
    q.set(square(1, 3), Color::Black, Kind::Rook);
    assert_eq!(rank3_clean_seal_count(&q), 0);

    let c = SearchConstraints {
        rank3_seal_min: Some(3),
        rank3_seal_from_step: 10,
        rank3_seal_from_pieces: Some(20),
        rank3_seal_piece_step: 8,
        ..Default::default()
    };
    assert_eq!(required_wall(19, c), 0);
    assert_eq!(required_wall(20, c), 1);
    assert_eq!(required_wall(28, c), 2);
    assert_eq!(required_wall(36, c), 3);
    assert_eq!(required_wall(44, c), 3);

    assert!(satisfies_rank3_seal(&p, 9, c));
    assert!(satisfies_rank3_seal(&p, 40, SearchConstraints::default()));
}

#[test]
fn king_min_liberties_measures_escape_squares() {
    let mut p = Position::default();
    p.set(square(5, 5), Color::White, Kind::King);
    assert_eq!(king_liberties(&p), 8);
    p.set(square(5, 4), Color::Black, Kind::Gold);
    let after = king_liberties(&p);
    assert!(after < 8, "a gold next to the king takes escape squares (got {after})");

    let c = SearchConstraints {
        king_min_liberties: Some(3),
        king_min_liberties_from_step: 20,
        king_min_liberties_to_step: 65,
        ..Default::default()
    };
    assert!(satisfies_king_min_liberties(&p, 10, c));
    assert!(satisfies_king_min_liberties(&p, 80, c));
    assert!(satisfies_king_min_liberties(&p, 40, SearchConstraints::default()));
}

#[test]
fn theoretical_max_piece_count_baseline_and_exclusions() {
    let base = SearchConstraints::default();
    assert_eq!(theoretical_max_piece_count(base), 39);

    let no_pawn = SearchConstraints { no_pawn: true, ..Default::default() };
    assert_eq!(theoretical_max_piece_count(no_pawn), 21);

    let no_gold = SearchConstraints { no_gold: true, ..Default::default() };
    assert_eq!(theoretical_max_piece_count(no_gold), 35);

    let only_pawn = SearchConstraints { only_pawn: true, ..Default::default() };
    assert_eq!(theoretical_max_piece_count(only_pawn), 19);

    let natural = SearchConstraints { natural_piece_limit: true, ..Default::default() };
    assert_eq!(theoretical_max_piece_count(natural), 20);

    let no_pawn_natural = SearchConstraints {
        no_pawn: true,
        natural_piece_limit: true,
        ..Default::default()
    };
    assert_eq!(theoretical_max_piece_count(no_pawn_natural), 11);

    let pawn_only_mask = parse_allowed_kinds(&["pawn"]).unwrap();
    let allowed_pawn = SearchConstraints {
        allowed_kinds_mask: Some(pawn_only_mask),
        ..Default::default()
    };
    assert_eq!(theoretical_max_piece_count(allowed_pawn), 19);

    let quad = SearchConstraints { quad_pieces: true, ..Default::default() };
    assert_eq!(theoretical_max_piece_count(quad), 81);
}

#[test]
fn quad_pieces_max_count_and_white_complement() {
    let quad = SearchConstraints { quad_pieces: true, ..Default::default() };
    assert_eq!(quad.max_count(Kind::Lance), 16);
    assert_eq!(quad.max_count(Kind::Gold), 16);
    assert_eq!(quad.max_count(Kind::ProLance), 16);
    assert_eq!(quad.max_count(Kind::Bishop), 8);
    assert_eq!(quad.max_count(Kind::Rook), 8);
    assert_eq!(quad.max_count(Kind::Pawn), 0);

    let position = Position::from_sfen("8k/9/9/9/9/9/9/9/L8 w - 1").unwrap();
    let position = with_white_complement(&position, quad);
    assert!(white_hands_are_complement(&position, quad));
    assert_eq!(position.hands().count(Color::White, Kind::Lance), 15);
    assert_eq!(position.hands().count(Color::White, Kind::Gold), 16);
    assert_eq!(position.hands().count(Color::White, Kind::Bishop), 8);
    assert_eq!(position.hands().count(Color::White, Kind::Pawn), 0);
}

fn gp_constraints() -> SearchConstraints {
    SearchConstraints { goldish_priority: true, ..Default::default() }
}

fn home_piece(kind: Kind, white_hand: Option<(Kind, usize)>) -> Position {
    let mut position = Position::default();
    position.set(square(1, 7), Color::Black, kind);
    position.set(square(1, 9), Color::White, Kind::King);
    if let Some((hand_kind, count)) = white_hand {
        position.add_to_hand(Color::White, hand_kind, count);
    }
    position
}

#[test]
fn goldish_priority_pro_lance_rejected_when_white_has_pawn() {
    let position = home_piece(Kind::ProLance, Some((Kind::Pawn, 1)));
    assert!(!satisfies_search_constraints(&position, gp_constraints()));
}

#[test]
fn goldish_priority_pro_lance_allowed_when_white_has_no_pawn() {
    let position = home_piece(Kind::ProLance, None);
    assert!(satisfies_search_constraints(&position, gp_constraints()));
}

#[test]
fn goldish_priority_pro_lance_outside_home_not_restricted() {
    let mut position = Position::default();
    position.set(square(1, 3), Color::Black, Kind::ProLance);
    position.set(square(1, 9), Color::White, Kind::King);
    position.add_to_hand(Color::White, Kind::Pawn, 1);

    assert!(satisfies_search_constraints(&position, gp_constraints()));
}

#[test]
fn goldish_priority_pro_knight_allowed_when_white_has_no_pawn() {
    let position = home_piece(Kind::ProKnight, Some((Kind::Lance, 1)));
    assert!(satisfies_search_constraints(&position, gp_constraints()));
}

#[test]
fn goldish_priority_pro_knight_rejected_when_white_has_pawn() {
    let position = home_piece(Kind::ProKnight, Some((Kind::Pawn, 1)));
    assert!(!satisfies_search_constraints(&position, gp_constraints()));
}

#[test]
fn goldish_priority_pro_silver_allowed_when_white_has_no_pawn() {
    let position = home_piece(Kind::ProSilver, Some((Kind::Knight, 1)));
    assert!(satisfies_search_constraints(&position, gp_constraints()));
}

#[test]
fn goldish_priority_pro_silver_rejected_when_white_has_pawn() {
    let position = home_piece(Kind::ProSilver, Some((Kind::Pawn, 1)));
    assert!(!satisfies_search_constraints(&position, gp_constraints()));
}

#[test]
fn goldish_priority_disabled_by_default() {
    let position = home_piece(Kind::ProLance, Some((Kind::Pawn, 18)));
    assert!(satisfies_search_constraints(&position, SearchConstraints::default()));
}

#[test]
fn goldish_priority_pro_lance_allowed_when_pawn_forbidden_by_no_pawn() {
    let position = home_piece(Kind::ProLance, Some((Kind::Pawn, 1)));
    let c = SearchConstraints { no_pawn: true, ..gp_constraints() };
    assert!(satisfies_search_constraints(&position, c));
}

#[test]
fn goldish_priority_pro_lance_allowed_when_pawn_not_in_allowed_kinds() {
    let position = home_piece(Kind::ProLance, Some((Kind::Pawn, 1)));
    let mask = parse_allowed_kinds(&["lance"]).unwrap();
    let c = SearchConstraints { allowed_kinds_mask: Some(mask), ..gp_constraints() };
    assert!(satisfies_search_constraints(&position, c));
}

#[test]
fn goldish_priority_pro_knight_allowed_when_pawn_forbidden_by_no_pawn_and_lance_present() {
    let position = home_piece(Kind::ProKnight, Some((Kind::Lance, 1)));
    let c = SearchConstraints { no_pawn: true, ..gp_constraints() };
    assert!(satisfies_search_constraints(&position, c));
}

fn rb_constraints(start: u32, step: u32) -> SearchConstraints {
    SearchConstraints {
        rook_bishop_allow_start: Some(start),
        rook_bishop_allow_step: step,
        ..SearchConstraints::default()
    }
}

fn position_with_total_and_family(total: u32, count: u32, kinds: [Kind; 4]) -> Position {
    assert!(count <= 4);
    assert!(total >= 2 + count);
    let mut p = Position::default();
    p.set(square(1, 9), Color::White, Kind::King);
    p.set(square(1, 1), Color::Black, Kind::King);
    let squares = [square(2, 2), square(3, 3), square(4, 4), square(5, 5)];
    for i in 0..count as usize {
        p.set(squares[i], Color::Black, kinds[i]);
    }
    let remaining = (total - 2 - count) as usize;
    let mut filled = 0usize;
    'outer: for col in 0..9usize {
        for row in 2..8usize {
            if filled == remaining {
                break 'outer;
            }
            let sq = Square::new(col, row);
            if p.get(sq).is_none() {
                p.set(sq, Color::White, Kind::Pawn);
                filled += 1;
            }
        }
    }
    assert_eq!(board_piece_count(&p), total, "test helper miscounts");
    p
}

fn position_with_total_and_rook_bishop(total: u32, rb: u32) -> Position {
    position_with_total_and_family(total, rb, [Kind::Rook, Kind::Bishop, Kind::ProRook, Kind::ProBishop])
}

fn position_with_total_and_lance_knight(total: u32, lk: u32) -> Position {
    position_with_total_and_family(total, lk, [Kind::Lance, Kind::ProLance, Kind::Knight, Kind::ProKnight])
}

fn lk_constraints(start: u32, step: u32) -> SearchConstraints {
    SearchConstraints {
        lance_knight_allow_start: Some(start),
        lance_knight_allow_step: step,
        ..SearchConstraints::default()
    }
}

#[test]
fn rook_bishop_allowance_disabled_by_default() {
    let p = position_with_total_and_rook_bishop(10, 4);
    assert!(satisfies_rook_bishop_allowance(&p, SearchConstraints::default()));
}

#[test]
fn rook_bishop_allowance_blocks_below_start() {
    let p_no_rb = position_with_total_and_rook_bishop(19, 0);
    assert!(satisfies_rook_bishop_allowance(&p_no_rb, rb_constraints(20, 5)));

    let p_with_rb = position_with_total_and_rook_bishop(19, 1);
    assert!(!satisfies_rook_bishop_allowance(&p_with_rb, rb_constraints(20, 5)));
}

#[test]
fn rook_bishop_allowance_step_progression() {
    let c = rb_constraints(20, 5);
    assert!(satisfies_rook_bishop_allowance(&position_with_total_and_rook_bishop(20, 1), c));
    assert!(!satisfies_rook_bishop_allowance(&position_with_total_and_rook_bishop(20, 2), c));
    assert!(satisfies_rook_bishop_allowance(&position_with_total_and_rook_bishop(24, 1), c));
    assert!(!satisfies_rook_bishop_allowance(&position_with_total_and_rook_bishop(24, 2), c));
    assert!(satisfies_rook_bishop_allowance(&position_with_total_and_rook_bishop(25, 2), c));
    assert!(!satisfies_rook_bishop_allowance(&position_with_total_and_rook_bishop(25, 3), c));
    assert!(satisfies_rook_bishop_allowance(&position_with_total_and_rook_bishop(30, 3), c));
    assert!(!satisfies_rook_bishop_allowance(&position_with_total_and_rook_bishop(30, 4), c));
}

#[test]
fn rook_bishop_allowance_counts_promoted_and_both_colors() {
    let mut p = Position::default();
    p.set(square(1, 9), Color::White, Kind::King);
    p.set(square(1, 1), Color::Black, Kind::King);
    p.set(square(2, 2), Color::Black, Kind::Rook);
    p.set(square(3, 3), Color::White, Kind::Bishop);
    p.set(square(4, 4), Color::Black, Kind::ProRook);
    p.set(square(5, 5), Color::White, Kind::ProBishop);
    assert_eq!(family_board_count(&p, &rook_bishop_family()), 4);
}

#[test]
fn lance_knight_allowance_disabled_by_default() {
    let p = position_with_total_and_lance_knight(10, 4);
    assert!(satisfies_piece_allowances(&p, SearchConstraints::default()));
}

#[test]
fn lance_knight_allowance_blocks_below_start() {
    let p_none = position_with_total_and_lance_knight(19, 0);
    assert!(satisfies_piece_allowances(&p_none, lk_constraints(20, 5)));
    let p_one = position_with_total_and_lance_knight(19, 1);
    assert!(!satisfies_piece_allowances(&p_one, lk_constraints(20, 5)));
}

#[test]
fn lance_knight_allowance_step_progression_counts_promoted() {
    let c = lk_constraints(20, 5);
    assert!(satisfies_piece_allowances(&position_with_total_and_lance_knight(20, 1), c));
    assert!(!satisfies_piece_allowances(&position_with_total_and_lance_knight(20, 2), c));
    assert!(satisfies_piece_allowances(&position_with_total_and_lance_knight(25, 2), c));
    assert!(!satisfies_piece_allowances(&position_with_total_and_lance_knight(25, 3), c));
}

#[test]
fn generation_rejects_family_below_threshold_else_accepts() {
    let mut p = Position::default();
    p.set(square(1, 9), Color::White, Kind::King);
    p.set(square(1, 1), Color::Black, Kind::King);
    p.set(square(2, 2), Color::Black, Kind::Rook);
    p.set(square(3, 3), Color::Black, Kind::Knight);
    p.set(square(4, 4), Color::Black, Kind::Silver);
    p.set(square(5, 5), Color::Black, Kind::Silver);
    p.set(square(6, 6), Color::Black, Kind::Silver);
    p.set(square(7, 7), Color::Black, Kind::Silver);
    assert_eq!(board_piece_count(&p), 8);
    let step = 11;

    assert!(satisfies_ideal_smoke_generation_constraints(&p, step, SearchConstraints::default()));

    let rb = SearchConstraints {
        rook_bishop_allow_start: Some(20),
        rook_bishop_allow_step: 5,
        ..SearchConstraints::default()
    };
    assert!(!satisfies_ideal_smoke_generation_constraints(&p, step, rb));
    assert!(!satisfies_ideal_smoke_generation_constraints(&p, step, lk_constraints(20, 5)));
}

#[test]
fn piece_allowances_families_are_independent() {
    let rb_only = SearchConstraints {
        rook_bishop_allow_start: Some(20),
        rook_bishop_allow_step: 5,
        ..SearchConstraints::default()
    };
    assert!(satisfies_piece_allowances(&position_with_total_and_lance_knight(10, 4), rb_only));
}

/// The moves that take back the last black move of a position where black
/// holds nothing: each black piece returns along its movement to an empty
/// square, promoted pieces possibly as the piece they promoted from, and
/// the earlier position leaves white's king out of check. With black's hand
/// empty no black move captured anything, and a promoted piece cannot have
/// been dropped, so for a position whose black pieces are promoted bishops
/// these are all the moves that black can have made.
fn black_unmoves(position: &Position) -> Vec<(UndoMove, Position)> {
    let mut result = vec![];
    for index in 0..81 {
        let dest = Square::from_index(index);
        let Some((Color::Black, kind)) = position.get(dest) else { continue };
        let (dc, dr) = (dest.col() as i32, dest.row() as i32);
        let mut origins: Vec<(Square, bool)> = vec![];
        let slides: &[(i32, i32)] = match kind {
            Kind::ProBishop => &[(1, 1), (1, -1), (-1, 1), (-1, -1)],
            _ => &[],
        };
        for &(fc, fr) in slides {
            let (mut c, mut r) = (dc + fc, dr + fr);
            while (0..9).contains(&c) && (0..9).contains(&r) {
                let source = Square::new(c as usize, r as usize);
                if position.get(source).is_some() {
                    break;
                }
                origins.push((source, false));
                if r < 3 || dr < 3 {
                    origins.push((source, true));
                }
                c += fc;
                r += fr;
            }
        }
        if kind == Kind::ProBishop {
            for (fc, fr) in [(0, 1), (0, -1), (1, 0), (-1, 0)] {
                let (c, r) = (dc + fc, dr + fr);
                if (0..9).contains(&c) && (0..9).contains(&r) {
                    let source = Square::new(c as usize, r as usize);
                    if position.get(source).is_none() {
                        origins.push((source, false));
                    }
                }
            }
        }
        for (source, promote) in origins {
            let mut previous = position.copy();
            previous.set_cell(dest, Cell::Empty);
            previous.set(source, Color::Black, if promote { Kind::Bishop } else { kind });
            previous.set_turn(Color::Black);
            if in_check_exec(&previous, Color::White) {
                continue;
            }
            result.push((UndoMove::UnMove { source, dest, promote, capture: None, pawn_drop: false }, previous));
        }
    }
    result
}

#[test]
fn smoke_undo_prefilter_matches_full_generation_constraint() {
    let position = Position::from_sfen("+B8/9/9/9/9/9/9/7+B1/7k1 w 2r4g4s4n4l18p 1").unwrap();
    let undo_moves = black_unmoves(&position);
    assert!(!undo_moves.is_empty());
    for (undo_move, previous_position) in undo_moves {
        assert_eq!(
            satisfies_ideal_smoke_undo_candidate(&position, &undo_move, 1, SearchConstraints::default()),
            satisfies_ideal_smoke_generation_constraints(&previous_position, 1, SearchConstraints::default()),
            "{undo_move:?}"
        );
    }
}
