use hiddenmate::help_selfmate::{
    HelpSelfmateSolver, HelpSelfmateSolverStatus,
    help_selfmate_solutions_within, help_selfmate_solve, is_help_selfmate, HelpSelfmateError,
};
use hiddenmate::low_mem::{low_mem_standard_solve, LowMemStandardSolver, SolveError, SolverStatus};
use hiddenmate::moves::{is_legal_mate, legal_movements};
use hiddenmate::piece::{Color, Kind};
use hiddenmate::position::{Movement, Position};
use hiddenmate::sfen::encode_move;
use hiddenmate::square::Square;

fn encode_all(solutions: &[Vec<Movement>]) -> Vec<Vec<String>> {
    solutions
        .iter()
        .map(|solution| solution.iter().map(|m| encode_move(*m)).collect())
        .collect()
}

#[test]
fn generates_white_waiting_moves_without_initial_check() {
    let position = Position::from_sfen("9/9/kS7/N8/1L7/9/9/9/9 w p 1").unwrap();

    let movements = legal_movements(&position);

    assert!(movements
        .iter()
        .any(|movement| matches!(movement, Movement::Drop(_, Kind::Pawn))));
}

#[test]
fn detects_mate_for_either_color() {
    let black_mated = Position::from_sfen("7rK/7g1/9/9/9/9/9/9/4k4 b - 1").unwrap();
    assert!(is_legal_mate(&black_mated));

    let white_mated = Position::from_sfen("4K4/9/9/9/9/9/9/7G1/7Rk w - 1").unwrap();
    assert!(is_legal_mate(&white_mated));
}

#[test]
fn recognizes_black_king_mate_only() {
    let mut mate = Position::from_sfen("7rK/7g1/9/9/9/9/9/9/4k4 b - 1").unwrap();
    assert!(is_help_selfmate(&mate));

    mate.set_pawn_drop(true);
    assert!(!is_help_selfmate(&mate), "a pawn-drop mate by white is no solution");
    mate.set_pawn_drop(false);
    mate.set_turn(Color::White);
    assert!(!is_help_selfmate(&mate));
}

#[test]
fn solves_white_to_move_help_selfmate() {
    // White mates the black king by taking the bishop on 2a with the rook
    // from 3a or the gold from 2b.
    let position = Position::from_sfen("6rBK/7g1/5k3/9/9/9/9/9/9 w - 1").unwrap();
    let solutions = help_selfmate_solve(position, 10, true).unwrap().solutions();
    let encoded = encode_all(&solutions);

    assert!(encoded.iter().any(|solution| solution == &["3a2a"]), "{encoded:?}");
    assert!(encoded.iter().any(|solution| solution == &["2b2a"]), "{encoded:?}");
}

#[test]
fn solves_two_move_help_selfmate_from_black_turn() {
    let position = Position::from_sfen("6r1K/7gB/5k3/9/9/9/9/9/9 b - 1").unwrap();
    let reconstructor = help_selfmate_solve(position, 10, true).unwrap();
    assert_eq!(reconstructor.mate_in(), Some(2));

    let encoded = encode_all(&reconstructor.solutions());
    assert_eq!(encoded.len(), 4, "the same line is not returned twice: {encoded:?}");
    assert!(encoded.iter().any(|solution| solution == &["1b2a", "3a2a"]), "{encoded:?}");
}

#[test]
fn bounded_search_includes_shorter_and_longer_solutions() {
    let position = Position::from_sfen("9/9/9/9/7l1/9/8k/9/7SK b G2r2b3g3s4n3l18p 1").unwrap();
    let solutions = help_selfmate_solutions_within(position, 4, 100).unwrap();

    assert_eq!(solutions.iter().map(Vec::len).collect::<Vec<_>>(), vec![2, 4, 4, 4]);
}

#[test]
fn requires_both_kings() {
    let position = Position::from_sfen("8k/9/9/9/9/9/9/9/9 b - 1").unwrap();
    assert!(help_selfmate_solve(position, 1, true).is_err());
}

#[test]
fn refusals_name_their_reason() {
    let no_black_king = Position::from_sfen("8k/9/9/9/9/9/9/9/9 b - 1").unwrap();
    let err = help_selfmate_solve(no_black_king, 1, true).err().unwrap();
    assert_eq!(err, HelpSelfmateError::BlackKingCount);
    assert_eq!(err.to_string(), "Help-selfmate requires exactly one black king");

    // White to move but not in check.
    let unchecked = Position::from_sfen("8K/9/5k3/9/9/9/9/9/9 w - 1").unwrap();
    assert_eq!(
        help_selfmate_solve(unchecked, 1, true).err(),
        Some(HelpSelfmateError::WhiteNotChecked)
    );
}

#[test]
fn bounded_search_with_no_room_returns_nothing() {
    let position = Position::from_sfen("6rBK/7g1/5k3/9/9/9/9/9/9 w - 1").unwrap();
    assert!(help_selfmate_solutions_within(position.copy(), 0, 10).unwrap().is_empty());
    assert!(help_selfmate_solutions_within(position.copy(), 3, 0).unwrap().is_empty());
    let one = help_selfmate_solutions_within(position, 1, 1).unwrap();
    assert_eq!(one.len(), 1);
    assert_eq!(one[0].len(), 1);
}

#[test]
fn encodes_moves_in_usi() {
    let board = Movement::Move { source: Square::new(6, 6), dest: Square::new(6, 5), promote: false };
    assert_eq!(encode_move(board), "7g7f");
    let promote = Movement::Move { source: Square::new(7, 7), dest: Square::new(1, 1), promote: true };
    assert_eq!(encode_move(promote), "8h2b+");
    assert_eq!(encode_move(Movement::Drop(Square::new(4, 4), Kind::Pawn)), "P*5e");
}

#[test]
fn solves_two_ply_problem_from_white_turn() {
    let position = Position::from_sfen("4pp1p1/4P2PP/9/9/9/3OOOOOO/3O5/3O2k+p1/3O1PP2 w R 1").unwrap();

    let solutions = low_mem_standard_solve(position, 10, true).unwrap().solutions();

    assert!(solutions.iter().any(|solution| solution.len() == 2));
}

#[test]
fn helpmate_search_reports_the_shortest_length() {
    // Black drops the gold next to the cornered king: mate in one.
    let position = Position::from_sfen("8k/9/8P/9/9/9/9/9/K8 b G 1").unwrap();
    let reconstructor = low_mem_standard_solve(position, 10, true).unwrap();
    assert_eq!(reconstructor.mate_in(), Some(1));
    let encoded = encode_all(&reconstructor.solutions());
    assert_eq!(encoded, vec![vec!["G*1b".to_string()]]);
}

#[test]
fn helpmate_search_rounds_advance_two_moves_at_a_time() {
    let position = Position::from_sfen("4pp1p1/4P2PP/9/9/9/3OOOOOO/3O5/3O2k+p1/3O1PP2 w R 1").unwrap();
    let mut solver = LowMemStandardSolver::new(position, 10, true).unwrap();
    assert!(matches!(solver.advance(), SolverStatus::Intermediate(2)));
    match solver.advance() {
        SolverStatus::Mate(reconstructor) => assert_eq!(reconstructor.mate_in(), Some(2)),
        _ => panic!("expected a mate in two"),
    }
}

#[test]
fn helpmate_search_without_a_line_stays_without_one() {
    // Black cannot give check at all: no line exists, and asking again
    // gives the same answer.
    let position = Position::from_sfen("8k/9/9/9/9/9/9/9/K8 b - 1").unwrap();
    let mut solver = LowMemStandardSolver::new(position, 10, true).unwrap();
    assert!(matches!(solver.advance(), SolverStatus::NoSolution));
    assert!(matches!(solver.advance(), SolverStatus::NoSolution));
}

#[test]
fn helpmate_search_refuses_mixed_starts() {
    let black = Position::from_sfen("8k/9/8P/9/9/9/9/9/K8 b G 1").unwrap();
    let white = Position::from_sfen("8k/9/8P/9/9/9/9/9/K8 w G 1").unwrap();
    assert_eq!(
        LowMemStandardSolver::with_multiple(vec![black, white], 1, true).err(),
        Some(SolveError::MultipleTurns)
    );
    assert_eq!(
        LowMemStandardSolver::with_multiple(Vec::new(), 1, true).err(),
        Some(SolveError::NoInitialPositions)
    );
    assert_eq!(SolveError::MultipleTurns.to_string(), "Multiple turns");
}

#[test]
fn white_check_is_read_from_sfen() {
    assert!(hiddenmate::sfen::is_white_in_check("4k4/4R4/9/9/9/9/9/9/4K4 w - 1"));
    assert!(hiddenmate::sfen::is_white_in_check("4k4/9/4R4/9/9/9/9/9/4K4 b - 1"));
    assert!(!hiddenmate::sfen::is_white_in_check("4k4/4p4/4R4/9/9/9/9/9/4K4 b - 1"));
    assert!(!hiddenmate::sfen::is_white_in_check("4k4/9/9/9/9/9/9/9/4K4 b - 1"));
    assert!(!hiddenmate::sfen::is_white_in_check("not a position"));
}

#[test]
fn help_selfmate_search_reports_the_positions_it_recorded() {
    let position = Position::from_sfen("6r1K/7gB/5k3/9/9/9/9/9/9 b - 1").unwrap();
    let reconstructor = help_selfmate_solve(position, 10, true).unwrap();
    assert!(reconstructor.cached_positions() > 0);
    let none = help_selfmate_solve(Position::from_sfen("8K/9/9/9/9/9/9/9/k8 b - 1").unwrap(), 10, true).unwrap();
    if none.mate_in().is_none() {
        assert_eq!(none.cached_positions(), 0);
    }
}

/// A walled three-by-three corner: the white king alone at 1a, a black rook
/// at 3c, the black king shut in at 9i. No line mates either king, and the
/// positions repeat.
const WALLED_CORNER: &str = "OOOOOO2k/OOOOOO3/OOOOOOR2/OOOOOOOOO/OOOOOOOOO/OOOOOOOOO/OOOOOOOOO/OOOOOOOOO/KOOOOOOOO b - 1";

#[test]
fn helpmate_search_gives_up_once_no_new_position_appears() {
    let position = Position::from_sfen(WALLED_CORNER).unwrap();
    let mut solver = LowMemStandardSolver::new(position, 10, true).unwrap();
    let mut rounds = 0;
    loop {
        match solver.advance() {
            SolverStatus::Intermediate(_) => {
                rounds += 1;
                assert!(rounds < 100, "the search should run out of new positions");
            },
            SolverStatus::NoSolution => break,
            SolverStatus::Mate(_) => panic!("no line mates here"),
        }
    }
    assert!(matches!(solver.advance(), SolverStatus::NoSolution));
    let reconstructor = low_mem_standard_solve(Position::from_sfen(WALLED_CORNER).unwrap(), 10, true).unwrap();
    assert_eq!(reconstructor.mate_in(), None);
}

#[test]
fn help_selfmate_search_gives_up_once_no_new_position_appears() {
    let position = Position::from_sfen(WALLED_CORNER).unwrap();
    let mut solver = HelpSelfmateSolver::new(position, 10, true).unwrap();
    let mut rounds = 0;
    loop {
        match solver.advance() {
            HelpSelfmateSolverStatus::Intermediate(_) => {
                rounds += 1;
                assert!(rounds < 100, "the search should run out of new positions");
            },
            HelpSelfmateSolverStatus::NoSolution => break,
            HelpSelfmateSolverStatus::Mate(_) => panic!("no line mates here"),
        }
    }
    assert!(matches!(solver.advance(), HelpSelfmateSolverStatus::NoSolution));
    let reconstructor = help_selfmate_solve(Position::from_sfen(WALLED_CORNER).unwrap(), 10, true).unwrap();
    assert_eq!(reconstructor.mate_in(), None);
    assert_eq!(reconstructor.cached_positions(), 0);
}

