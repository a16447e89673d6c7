use hiddenmate::best_mate::solve_by_rule;
use hiddenmate::document::{DocumentColor, ProblemDocument, VariableDocument};
use hiddenmate::known_invisible::{
    DocumentColor as KnownColor, KnownInvisibleDocument, KnownInvisibleDocumentSpec,
};
use hiddenmate::known_search::solve_known_invisible_exact;
use hiddenmate::observed::{kind_code, VariableId};
use hiddenmate::piece::{all_kinds, Color, Kind};
use hiddenmate::rule::MateRule;
use hiddenmate::solver::{collect_solution_candidates, format_solution_japanese, Solution};
use hiddenmate::square::Square;
use hiddenmate::state::HiddenState;
use hiddenmate::world::VariableLocation;

fn variable(
    id: u16,
    color: DocumentColor,
    square: Option<&str>,
    in_hand: bool,
    candidates: Option<Vec<&str>>,
) -> VariableDocument {
    VariableDocument {
        id,
        color,
        square: square.map(|s| s.to_string()),
        in_hand,
        candidates: candidates.map(|v| v.into_iter().map(|s| s.to_string()).collect()),
    }
}

fn document(base_sfen: &str, plies: usize, rule: Option<MateRule>, variables: Vec<VariableDocument>) -> ProblemDocument {
    ProblemDocument { base_sfen: base_sfen.to_string(), plies, rule, hand_variable_mode: None, variables }
}

/// Enumerates a document's worlds and solves it as the web front end does:
/// the state, the lines, and for a best mate its length and whether the
/// variations were cut.
fn solve_document(document: ProblemDocument, max_solutions: usize) -> (HiddenState, Vec<Solution>, Option<usize>, bool) {
    let plies = document.plies;
    let (problem, mode) = document.into_problem_with_hand_variable_mode().unwrap();
    let state = problem.enumerate_with_hand_variable_mode(mode).unwrap();
    let (solutions, mate_in, truncated) = solve_by_rule(&state, plies, max_solutions);
    (state, solutions, mate_in, truncated)
}

fn kind_codes(kinds: &[Kind]) -> Vec<&'static str> {
    kinds.iter().map(|k| kind_code(*k)).collect()
}

#[test]
fn parses_problem_document() {
    let document = document(
        "9/9/k8/9/9/9/9/9/9 b - 1",
        1,
        None,
        vec![variable(7, DocumentColor::Black, Some("64"), false, Some(vec!["R", "+R"]))],
    );
    assert_eq!(document.plies, 1);

    let (problem, _) = document.into_problem().unwrap();
    assert_eq!(problem.variables[0].id, VariableId(7));
    assert_eq!(problem.variables[0].location, VariableLocation::Board(Square::new(5, 3)));
    assert_eq!(problem.variables[0].candidates, vec![Kind::Rook, Kind::ProRook]);
}

#[test]
fn defaults_to_all_kinds_and_parses_hand_location() {
    let document =
        document("9/9/k8/9/9/9/9/9/9 b - 1", 1, None, vec![variable(2, DocumentColor::White, None, true, None)]);
    let (problem, _) = document.into_problem().unwrap();
    assert_eq!(problem.variables[0].candidates, all_kinds());
    assert_eq!(problem.variables[0].location, VariableLocation::Hand(Color::White));
}

#[test]
fn solves_variable_problem_for_web() {
    let document = document(
        "9/9/kS7/N8/1L7/9/9/9/8K b 2r2b4g3s3n3l18p 1",
        1,
        None,
        vec![variable(1, DocumentColor::Black, Some("64"), false, Some(vec!["R", "+R"]))],
    );
    let (state, solutions, _, _) = solve_document(document, 100);
    assert_eq!(state.world_count(), 2);
    let candidates = state.all_candidates();
    assert_eq!(kind_codes(&candidates[0].1), vec!["R", "+R"]);
    let texts = format_solution_japanese(&state, &solutions[0]);
    assert_eq!(texts[0], "84▲(64)");
    let along = collect_solution_candidates(&state, &solutions).unwrap();
    assert_eq!(along[0].len(), texts.len());
    assert_eq!(along[0][0][0].0, VariableId(1));
}

#[test]
fn even_plies_does_not_return_one_ply_solutions() {
    let document = document(
        "9/9/kS7/N8/1L7/9/9/9/9 b 2r2b4g3s3n3l18p 1",
        2,
        None,
        vec![variable(1, DocumentColor::Black, Some("64"), false, None)],
    );
    let (_, solutions, _, _) = solve_document(document, 100);
    assert!(solutions.len() > 1);
    assert!(solutions.iter().all(|solution| solution.len() == 2));
}

#[test]
fn solves_help_selfmate_rule_for_web() {
    let document = document("9/9/9/9/7l1/9/8k/9/7SK b G 1", 4, Some(MateRule::HelpSelfmate), Vec::new());
    let (_, solutions, _, _) = solve_document(document, 100);
    let lengths: Vec<usize> = solutions.iter().map(|solution| solution.len()).collect();
    assert_eq!(lengths, vec![2, 4, 4, 4]);
}

#[test]
fn solves_best_mate_rule_for_web() {
    let document = document("9/9/kS7/N8/1L7/9/9/9/9 b R 1", 1, Some(MateRule::BestMate), Vec::new());
    let (_, solutions, best_mate_in, truncated) = solve_document(document, 100);
    assert_eq!(best_mate_in, Some(1));
    assert!(!truncated);
    assert!(!solutions.is_empty());
    assert!(solutions.iter().all(|line| line.len() == 1));
}

#[test]
fn best_mate_beyond_the_ply_limit_gives_no_lines() {
    let document = document("9/9/kS7/N8/1L7/9/9/9/9 b R 1", 0, Some(MateRule::BestMate), Vec::new());
    let (_, solutions, best_mate_in, truncated) = solve_document(document, 100);
    assert_eq!(best_mate_in, None);
    assert!(!truncated);
    assert!(solutions.is_empty());
}

#[test]
fn white_start_help_selfmate_keeps_unchecked_variable_worlds() {
    let document = document(
        "9/9/9/9/9/9/8k/9/9 b - 1",
        3,
        Some(MateRule::HelpSelfmate),
        vec![variable(1, DocumentColor::Black, Some("29"), false, None), variable(2, DocumentColor::Black, Some("19"), false, None)],
    );
    let (state, _, _, _) = solve_document(document, 0);
    assert_eq!(state.world_count(), 26);
    let candidates = state.all_candidates();
    assert_eq!(candidates[0].1.len(), 14);
    assert_eq!(candidates[1].1.len(), 14);
    assert!(kind_codes(&candidates[0].1).contains(&"P"));
    assert!(kind_codes(&candidates[1].1).contains(&"K"));
}

#[test]
fn validates_known_invisible_problem_for_web() {
    let document = KnownInvisibleDocument {
        base_sfen: "9/9/k8/9/9/9/9/9/9 b 2r2b4g4s4n4l18p 1".to_string(),
        plies: 1,
        rule: MateRule::Helpmate,
        invisibles: vec![KnownInvisibleDocumentSpec { color: KnownColor::Black, kind: "K".to_string(), count: 1 }],
    };
    let (problem, plies) = document.into_problem().unwrap();
    let state = problem.enumerate().unwrap();
    assert!(state.world_count() > 1);
    let solutions = solve_known_invisible_exact(&state, plies, 0).unwrap();
    assert!(solutions.is_empty());
}
