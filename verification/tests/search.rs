use hiddenmate::best_mate::{combine_child_distances, solve_best_mate};
use hiddenmate::observed::VariableId;
use hiddenmate::piece::{all_kinds, Color};
use hiddenmate::problem::{VariableProblem, VariableSpec};
use hiddenmate::replay::solve_replay_exact;
use hiddenmate::rule::{HandVariableMode, MateRule};
use hiddenmate::solver::solve_exact;
use hiddenmate::world::VariableLocation;
use hiddenmate::world_id_set::WorldIdSet;

#[test]
fn finds_one_ply_best_mate() {
    let state = VariableProblem {
        base_sfen: "9/9/kS7/N8/1L7/9/9/9/9 b R 1".to_string(),
        variables: vec![],
        rule: MateRule::BestMate,
    }
    .enumerate_with_hand_variable_mode(HandVariableMode::Distinguishable)
    .unwrap();

    let result = solve_best_mate(&state, 1, 10).unwrap().unwrap();
    assert_eq!(result.mate_in, 1);
    assert!(!result.variations.is_empty());
    assert!(result.variations.iter().all(|line| line.len() == 1));
    assert!(!result.variations_truncated);
}

#[test]
fn zero_variation_limit_does_not_skip_the_proof() {
    let state = VariableProblem {
        base_sfen: "9/9/kS7/N8/1L7/9/9/9/9 b R 1".to_string(),
        variables: vec![],
        rule: MateRule::BestMate,
    }
    .enumerate()
    .unwrap();

    let result = solve_best_mate(&state, 1, 0).unwrap().unwrap();
    assert_eq!(result.mate_in, 1);
    assert!(result.variations.is_empty());
    assert!(result.variations_truncated);
}

#[test]
fn attacker_chooses_shortest_forced_child() {
    assert_eq!(combine_child_distances(Color::Black, vec![Some(4), None, Some(2)]), Some(3));
}

#[test]
fn defender_refutes_with_one_escape_and_otherwise_chooses_longest() {
    assert_eq!(combine_child_distances(Color::White, vec![Some(2), None, Some(4)]), None);
    assert_eq!(combine_child_distances(Color::White, vec![Some(2), Some(4)]), Some(5));
}

#[test]
fn stores_ids_across_word_boundaries() {
    let mut set = WorldIdSet::with_capacity(130);
    for id in [0, 63, 64, 129] {
        set.insert(id);
    }

    assert_eq!(set.len(), 4);
    for id in [0, 63, 64, 129] {
        assert!(set.contains(id));
    }
    assert!(!set.contains(65));
}

#[test]
fn replay_backend_matches_explicit_backend() {
    let problem = VariableProblem {
        base_sfen: "9/9/kS7/9/1L7/9/9/9/9 b 2r2b4g3s4n3l18p 1".to_string(),
        rule: MateRule::Helpmate,
        variables: vec![
            VariableSpec {
                id: VariableId(1),
                color: Color::Black,
                location: VariableLocation::Hand(Color::Black),
                candidates: all_kinds()[..7].to_vec(),
            },
            VariableSpec {
                id: VariableId(2),
                color: Color::Black,
                location: VariableLocation::Hand(Color::Black),
                candidates: all_kinds()[..7].to_vec(),
            },
        ],
    };
    for mode in [HandVariableMode::Indistinguishable, HandVariableMode::Distinguishable] {
        let explicit = problem.clone().enumerate_explicit_with_hand_variable_mode(mode).unwrap();
        let (replay, enumeration) =
            problem.clone().enumerate_replay_profiled_with_hand_variable_mode(mode).unwrap();

        assert_eq!(replay.world_count(), explicit.world_count());
        assert_eq!(enumeration.world_count, explicit.world_count());
        assert_eq!(replay.turn(), explicit.turn());
        assert_eq!(replay.hand_variable_mode(), explicit.hand_variable_mode());
        assert_eq!(replay.observed_moves().unwrap(), explicit.observed_moves());
        for id in [VariableId(1), VariableId(2)] {
            assert_eq!(replay.candidates(id).unwrap(), explicit.candidates(id));
        }
        assert_eq!(solve_replay_exact(&replay, 1, 100).unwrap(), solve_exact(&explicit, 1, 100));

        for observed in explicit.observed_moves() {
            let expected = explicit.apply(observed).unwrap();
            let actual = replay.apply(observed).unwrap().unwrap();
            assert_eq!(actual.world_count(), expected.world_count(), "{observed:?}");
            assert_eq!(actual.turn(), expected.turn(), "{observed:?}");
            assert_eq!(actual.is_proven_mate().unwrap(), expected.is_proven_mate());
            for id in [VariableId(1), VariableId(2)] {
                assert_eq!(actual.candidates(id).unwrap(), expected.candidates(id));
            }
        }
    }
}

#[test]
fn replay_backend_matches_free_white_help_selfmate() {
    let problem = VariableProblem {
        base_sfen: "9/9/9/9/7l1/9/8k/9/7SK w G 1".to_string(),
        variables: vec![],
        rule: MateRule::HelpSelfmate,
    };
    let explicit = problem.clone().enumerate_explicit().unwrap();
    let replay = problem.enumerate_replay().unwrap();

    assert_eq!(replay.observed_moves().unwrap(), explicit.observed_moves());
    assert_eq!(solve_replay_exact(&replay, 4, 100).unwrap(), solve_exact(&explicit, 4, 100));
}

#[test]
fn replay_refuses_a_move_no_world_allows() {
    let replay = VariableProblem {
        base_sfen: "9/9/9/9/7l1/9/8k/9/7SK w G 1".to_string(),
        variables: vec![],
        rule: MateRule::HelpSelfmate,
    }
    .enumerate_replay()
    .unwrap();
    let impossible = hiddenmate::observed::ObservedMove::Move {
        identity: hiddenmate::observed::MoveIdentity::Known,
        source: hiddenmate::square::Square::new(0, 0),
        destination: hiddenmate::square::Square::new(0, 1),
        promote: false,
    };
    assert!(replay.apply(impossible).unwrap().is_none());
}
