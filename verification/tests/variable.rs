use hiddenmate::document::DocumentError;
use hiddenmate::observed::{DropIdentity, MoveIdentity, ObservedMove, VariableId};
use hiddenmate::piece::{all_kinds, Color, Kind};
use hiddenmate::problem::{VariableProblem, VariableSpec};
use hiddenmate::rule::{HandVariableMode, MateRule};
use hiddenmate::solver::{collect_solution_candidates, format_solution_japanese, solve_exact};
use hiddenmate::square::Square;
use hiddenmate::world::VariableLocation;

fn square(file: usize, rank: usize) -> Square {
    Square::new(file - 1, rank - 1)
}

fn hand_kinds() -> Vec<Kind> {
    all_kinds()[..7].to_vec()
}

#[test]
fn solution_count_ignores_variable_ids_in_both_hand_modes() {
    let problem = VariableProblem {
        base_sfen: "9/9/kS7/9/1L7/9/9/9/9 b 2r2b4g3s4n3l18p 1".to_string(),
        rule: MateRule::Helpmate,
        variables: vec![
            VariableSpec {
                id: VariableId(1),
                color: Color::Black,
                location: VariableLocation::Hand(Color::Black),
                candidates: hand_kinds(),
            },
            VariableSpec {
                id: VariableId(2),
                color: Color::Black,
                location: VariableLocation::Hand(Color::Black),
                candidates: hand_kinds(),
            },
        ],
    };

    for state in [
        problem
            .clone()
            .enumerate_with_hand_variable_mode(HandVariableMode::Distinguishable)
            .unwrap(),
        problem
            .enumerate_with_hand_variable_mode(HandVariableMode::Indistinguishable)
            .unwrap(),
    ] {
        let solutions = solve_exact(&state, 1, 100);
        assert_eq!(solutions.len(), 3);
        assert_eq!(
            solutions
                .iter()
                .map(|solution| format_solution_japanese(&state, solution))
                .collect::<Vec<_>>(),
            vec![vec!["82▲打"], vec!["92▲打"], vec!["94▲打"]]
        );
    }
}

#[test]
fn indistinguishable_hand_variables_branch_then_resolve_which_one_remains() {
    let problem = VariableProblem {
        base_sfen: "9/9/9/4k4/9/9/9/9/9 b - 1".to_string(),
        rule: MateRule::Helpmate,
        variables: vec![
            VariableSpec {
                id: VariableId(1),
                color: Color::Black,
                location: VariableLocation::Hand(Color::Black),
                candidates: vec![Kind::Gold, Kind::Silver],
            },
            VariableSpec {
                id: VariableId(2),
                color: Color::Black,
                location: VariableLocation::Hand(Color::Black),
                candidates: vec![Kind::Rook, Kind::Lance],
            },
        ],
    };

    assert_eq!(
        problem.clone().enumerate().unwrap().hand_variable_mode(),
        HandVariableMode::Indistinguishable
    );

    let distinguishable = problem
        .clone()
        .enumerate_with_hand_variable_mode(HandVariableMode::Distinguishable)
        .unwrap();
    let distinguishable_drops = distinguishable
        .observed_moves()
        .into_iter()
        .filter(|observed| {
            matches!(observed, ObservedMove::Drop { destination, .. } if *destination == square(5, 5))
        })
        .collect::<Vec<_>>();
    assert_eq!(distinguishable_drops.len(), 2);
    assert!(distinguishable_drops.iter().any(|observed| matches!(
        observed,
        ObservedMove::Drop {
            identity: DropIdentity::Variable(VariableId(1)),
            ..
        }
    )));
    assert!(distinguishable_drops.iter().any(|observed| matches!(
        observed,
        ObservedMove::Drop {
            identity: DropIdentity::Variable(VariableId(2)),
            ..
        }
    )));

    let state = problem
        .enumerate_with_hand_variable_mode(HandVariableMode::Indistinguishable)
        .unwrap();
    let anonymous_drop = ObservedMove::Drop {
        identity: DropIdentity::AnonymousVariable,
        destination: square(5, 5),
    };
    assert!(state.observed_moves().contains(&anonymous_drop));

    let after_drop = state.apply(anonymous_drop).unwrap();
    assert_eq!(after_drop.world_count(), 8);
    assert!(after_drop.worlds().iter().any(|world| {
        world.variable(VariableId(1)).unwrap().location == VariableLocation::Board(square(5, 5))
    }));
    assert!(after_drop.worlds().iter().any(|world| {
        world.variable(VariableId(2)).unwrap().location == VariableLocation::Board(square(5, 5))
    }));

    let king_move = ObservedMove::Move {
        identity: MoveIdentity::Known,
        source: square(5, 4),
        destination: square(4, 3),
        promote: false,
    };
    let after_king_move = after_drop.apply(king_move).unwrap();
    let anonymous_move = ObservedMove::Move {
        identity: MoveIdentity::AnonymousVariable,
        source: square(5, 5),
        destination: square(4, 4),
        promote: false,
    };
    let inferred = after_king_move.apply(anonymous_move).unwrap();

    assert_eq!(inferred.world_count(), 4);
    assert_eq!(inferred.candidates(VariableId(2)), vec![Kind::Lance, Kind::Rook]);
    assert!(inferred.worlds().iter().all(|world| {
        world.variable(VariableId(2)).unwrap().location == VariableLocation::Hand(Color::Black)
    }));
    assert_eq!(
        format_solution_japanese(&state, &vec![anonymous_drop, king_move, anonymous_move]),
        vec!["55▲打", "43玉(54)", "44▲(55)"]
    );
}

#[test]
fn rejects_more_than_six_variables() {
    let variables = (1..=7)
        .map(|id| VariableSpec {
            id: VariableId(id),
            color: Color::Black,
            location: VariableLocation::Hand(Color::Black),
            candidates: vec![Kind::Pawn],
        })
        .collect();

    let error = VariableProblem {
        base_sfen: "9/9/k8/9/9/9/9/9/9 b - 1".to_string(),
        rule: MateRule::Helpmate,
        variables,
    }
    .enumerate_with_hand_variable_mode(HandVariableMode::Distinguishable)
    .unwrap_err();

    assert!(error.to_string().contains("覆面駒は6枚まで指定できます"));
}

#[test]
fn enumerates_candidate_worlds_from_piece_box() {
    let state = VariableProblem {
        base_sfen: "9/9/k8/9/9/9/9/9/9 b - 1".to_string(),
        rule: MateRule::Helpmate,
        variables: vec![VariableSpec {
            id: VariableId(1),
            color: Color::Black,
            location: VariableLocation::Board(square(6, 4)),
            candidates: vec![Kind::Rook, Kind::ProRook],
        }],
    }
    .enumerate_with_hand_variable_mode(HandVariableMode::Distinguishable)
    .unwrap();

    assert_eq!(state.world_count(), 2);
    assert_eq!(state.candidates(VariableId(1)), vec![Kind::Rook, Kind::ProRook]);
    for world in state.worlds() {
        assert_eq!(world.position().hands().count(Color::White, Kind::Rook), 0);
        assert_eq!(world.position().hands().count(Color::White, Kind::Pawn), 0);
    }
}

#[test]
fn default_and_explicit_backends_match_worlds_moves_and_solutions() {
    let problem = VariableProblem {
        base_sfen: "9/9/kS7/N8/1L7/9/9/9/9 b - 1".to_string(),
        rule: MateRule::Helpmate,
        variables: vec![VariableSpec {
            id: VariableId(1),
            color: Color::Black,
            location: VariableLocation::Board(square(6, 4)),
            candidates: vec![Kind::Rook, Kind::ProRook, Kind::Rook],
        }],
    };

    let default = problem.clone().enumerate().unwrap();
    let explicit = problem.enumerate_explicit().unwrap();

    assert_eq!(default.world_count(), explicit.world_count());
    assert_eq!(default.all_candidates(), explicit.all_candidates());
    assert_eq!(default.observed_moves(), explicit.observed_moves());
    assert_eq!(solve_exact(&default, 3, 100), solve_exact(&explicit, 3, 100));
}

#[test]
fn variable_can_come_from_white_hand_or_piece_box() {
    let state = VariableProblem {
        base_sfen: "9/9/k8/9/9/9/9/9/9 b r 1".to_string(),
        rule: MateRule::Helpmate,
        variables: vec![VariableSpec {
            id: VariableId(1),
            color: Color::Black,
            location: VariableLocation::Board(square(6, 4)),
            candidates: vec![Kind::Rook],
        }],
    }
    .enumerate_with_hand_variable_mode(HandVariableMode::Distinguishable)
    .unwrap();

    assert_eq!(state.world_count(), 2);
    let remaining_rooks = state
        .worlds()
        .iter()
        .map(|world| world.position().hands().count(Color::White, Kind::Rook))
        .collect::<std::collections::BTreeSet<_>>();
    assert_eq!(remaining_rooks, [0, 1].into_iter().collect());
}

#[test]
fn checking_obligation_resolves_rook_to_promoted_rook() {
    let state = VariableProblem {
        base_sfen: "9/9/k8/9/9/9/9/9/9 b - 1".to_string(),
        rule: MateRule::Helpmate,
        variables: vec![VariableSpec {
            id: VariableId(7),
            color: Color::Black,
            location: VariableLocation::Board(square(6, 4)),
            candidates: vec![Kind::Rook, Kind::ProRook],
        }],
    }
    .enumerate_with_hand_variable_mode(HandVariableMode::Distinguishable)
    .unwrap();

    let observed = ObservedMove::Move {
        identity: MoveIdentity::Variable(VariableId(7)),
        source: square(6, 4),
        destination: square(8, 4),
        promote: false,
    };
    assert!(state.observed_moves().contains(&observed));

    let next = state.apply(observed).unwrap();
    assert_eq!(next.world_count(), 1);
    assert_eq!(next.resolved_kind(VariableId(7)), Some(Kind::ProRook));
}

#[test]
fn allows_initial_check_against_attacker_king() {
    let state = VariableProblem {
        base_sfen: "8k/7g1/8K/9/9/9/9/9/9 b - 1".to_string(),
        rule: MateRule::Helpmate,
        variables: vec![],
    }
    .enumerate_with_hand_variable_mode(HandVariableMode::Distinguishable)
    .unwrap();

    assert_eq!(state.world_count(), 1);
}

#[test]
fn resolved_variable_is_ordinary_before_its_next_move() {
    let state = VariableProblem {
        base_sfen: "9/9/kS7/N8/1L7/9/9/9/9 b - 1".to_string(),
        rule: MateRule::Helpmate,
        variables: vec![VariableSpec {
            id: VariableId(1),
            color: Color::Black,
            location: VariableLocation::Board(square(6, 4)),
            candidates: vec![Kind::ProRook],
        }],
    }
    .enumerate_with_hand_variable_mode(HandVariableMode::Distinguishable)
    .unwrap();

    assert_eq!(state.resolved_kind(VariableId(1)), Some(Kind::ProRook));
    let solutions = solve_exact(&state, 1, 10);
    assert_eq!(solutions.len(), 1);
    assert!(matches!(
        solutions[0][0],
        ObservedMove::Move {
            identity: MoveIdentity::Known,
            ..
        }
    ));
    assert_eq!(format_solution_japanese(&state, &solutions[0]), vec!["84龍(64)"]);
}

#[test]
fn solves_one_ply_variable_helpmate() {
    let state = VariableProblem {
        base_sfen: "9/9/kS7/N8/1L7/9/9/9/9 b - 1".to_string(),
        rule: MateRule::Helpmate,
        variables: vec![VariableSpec {
            id: VariableId(1),
            color: Color::Black,
            location: VariableLocation::Board(square(6, 4)),
            candidates: vec![Kind::Rook, Kind::ProRook],
        }],
    }
    .enumerate_with_hand_variable_mode(HandVariableMode::Distinguishable)
    .unwrap();

    let solutions = solve_exact(&state, 1, 10);
    assert_eq!(solutions.len(), 1);
    assert_eq!(solutions[0].len(), 1);
    assert_eq!(solutions[0][0].to_string(), "V1:64-84");
    assert_eq!(format_solution_japanese(&state, &solutions[0]), vec!["84▲(64)"]);

    let final_state = state.apply(solutions[0][0]).unwrap();
    assert!(final_state.is_proven_mate());
    assert_eq!(final_state.resolved_kind(VariableId(1)), Some(Kind::ProRook));

    assert!(solve_exact(&state, 3, 10).iter().any(|solution| solution.len() == 1));
}

#[test]
fn rejects_duplicate_variable_ids() {
    let error = VariableProblem {
        base_sfen: "9/9/k8/9/9/9/9/9/9 b - 1".to_string(),
        rule: MateRule::Helpmate,
        variables: vec![
            VariableSpec {
                id: VariableId(1),
                color: Color::Black,
                location: VariableLocation::Board(square(6, 4)),
                candidates: vec![Kind::Rook],
            },
            VariableSpec {
                id: VariableId(1),
                color: Color::Black,
                location: VariableLocation::Board(square(7, 4)),
                candidates: vec![Kind::Bishop],
            },
        ],
    }
    .enumerate()
    .unwrap_err();

    assert!(error.to_string().contains("重複"));
}

#[test]
fn enumerates_variable_in_hand_and_can_observe_its_drop() {
    let state = VariableProblem {
        base_sfen: "9/9/k8/9/9/9/9/9/9 b - 1".to_string(),
        rule: MateRule::Helpmate,
        variables: vec![VariableSpec {
            id: VariableId(4),
            color: Color::Black,
            location: VariableLocation::Hand(Color::Black),
            candidates: all_kinds(),
        }],
    }
    .enumerate_with_hand_variable_mode(HandVariableMode::Distinguishable)
    .unwrap();

    assert_eq!(state.world_count(), 7);
    assert!(state.worlds().iter().all(|world| {
        world.variable(VariableId(4)).unwrap().location == VariableLocation::Hand(Color::Black)
    }));
    assert!(state.observed_moves().iter().any(|observed| matches!(
        observed,
        ObservedMove::Drop {
            identity: DropIdentity::Variable(VariableId(4)),
            ..
        }
    )));
}

#[test]
fn pawn_drop_mate_world_is_removed_from_a_variable_drop() {
    let state = VariableProblem {
        base_sfen: "9/9/kS7/9/1L7/9/9/9/9 b 2r2b4g3s4n3l18p 1".to_string(),
        rule: MateRule::Helpmate,
        variables: vec![VariableSpec {
            id: VariableId(1),
            color: Color::Black,
            location: VariableLocation::Hand(Color::Black),
            candidates: all_kinds(),
        }],
    }
    .enumerate_with_hand_variable_mode(HandVariableMode::Distinguishable)
    .unwrap();
    let drop_94 = ObservedMove::Drop {
        identity: DropIdentity::Variable(VariableId(1)),
        destination: square(9, 4),
    };

    let next = state.apply(drop_94).unwrap();
    assert_eq!(
        next.candidates(VariableId(1)),
        vec![Kind::Lance, Kind::Silver, Kind::Gold, Kind::Rook]
    );
    assert!(next.is_proven_mate());

    let solutions = solve_exact(&state, 1, 10);
    let formatted = solutions
        .iter()
        .map(|solution| format_solution_japanese(&state, solution).join(" "))
        .collect::<Vec<_>>();
    assert_eq!(formatted, vec!["82▲打", "92▲打", "94▲打"]);
}

#[test]
fn defender_pawn_block_is_not_filtered_as_pawn_drop_mate() {
    let state = VariableProblem {
        base_sfen: "4K4/9/9/9/4R3k/9/9/9/4r4 w p 1".to_string(),
        rule: MateRule::Helpmate,
        variables: vec![],
    }
    .enumerate()
    .unwrap();
    let pawn_block = ObservedMove::Drop {
        identity: DropIdentity::Known(Kind::Pawn),
        destination: square(3, 5),
    };

    assert!(state.observed_moves().contains(&pawn_block));
}

#[test]
fn includes_valid_three_ply_line_even_when_shorter_mates_exist() {
    let state = VariableProblem {
        base_sfen: "9/9/kS7/N8/9/1L7/9/9/9 b p 1".to_string(),
        rule: MateRule::Helpmate,
        variables: vec![VariableSpec {
            id: VariableId(1),
            color: Color::Black,
            location: VariableLocation::Board(square(4, 2)),
            candidates: all_kinds(),
        }],
    }
    .enumerate_with_hand_variable_mode(HandVariableMode::Distinguishable)
    .unwrap();

    let first = ObservedMove::Move {
        identity: MoveIdentity::Variable(VariableId(1)),
        source: square(4, 2),
        destination: square(7, 5),
        promote: true,
    };
    assert!(state.observed_moves().contains(&first));
    let after_first = state.apply(first).unwrap();
    assert_eq!(after_first.resolved_kind(VariableId(1)), Some(Kind::ProBishop));
    let second = ObservedMove::Drop {
        identity: DropIdentity::Known(Kind::Pawn),
        destination: square(8, 4),
    };
    assert!(after_first.observed_moves().contains(&second));
    let after_second = after_first.apply(second).unwrap();
    let third = ObservedMove::Move {
        identity: MoveIdentity::Known,
        source: square(7, 5),
        destination: square(8, 4),
        promote: false,
    };
    assert!(after_second.observed_moves().contains(&third));
    assert!(after_second.apply(third).unwrap().is_proven_mate());

    let shorter = solve_exact(&state, 1, 100)
        .iter()
        .map(|solution| format_solution_japanese(&state, solution).join(" "))
        .collect::<Vec<_>>();

    assert_eq!(shorter, vec!["82▲(42)", "82▲成(42)", "92▲(42)", "92▲成(42)"]);
    let up_to_three = solve_exact(&state, 3, 100)
        .iter()
        .map(|solution| format_solution_japanese(&state, solution).join(" "))
        .collect::<Vec<_>>();
    assert!(up_to_three.iter().any(|solution| solution == "75▲成(42) 84歩打 同馬(75)"));
}

#[test]
fn solves_known_help_selfmate_up_to_four_plies() {
    let state = VariableProblem {
        base_sfen: "9/9/9/9/7l1/9/8k/9/7SK b G 1".to_string(),
        variables: vec![],
        rule: MateRule::HelpSelfmate,
    }
    .enumerate()
    .unwrap();

    let solutions = solve_exact(&state, 4, 100);

    assert_eq!(solutions.iter().map(Vec::len).collect::<Vec<_>>(), vec![2, 4, 4, 4]);
}

#[test]
fn help_selfmate_requires_exactly_one_attacker_king_in_every_world() {
    let error = VariableProblem {
        base_sfen: "9/9/9/9/7l1/9/8k/9/8S b G 1".to_string(),
        variables: vec![],
        rule: MateRule::HelpSelfmate,
    }
    .enumerate()
    .unwrap_err();

    assert!(error.to_string().contains("割当がありません"));
}

#[test]
fn white_start_help_selfmate_allows_a_free_defender_move() {
    let state = VariableProblem {
        base_sfen: "9/9/9/9/9/9/8k/9/9 w - 1".to_string(),
        variables: vec![
            VariableSpec {
                id: VariableId(1),
                color: Color::Black,
                location: VariableLocation::Board(square(2, 9)),
                candidates: all_kinds(),
            },
            VariableSpec {
                id: VariableId(2),
                color: Color::Black,
                location: VariableLocation::Board(square(1, 9)),
                candidates: all_kinds(),
            },
        ],
        rule: MateRule::HelpSelfmate,
    }
    .enumerate()
    .unwrap();

    assert_eq!(state.world_count(), 26);
    assert_eq!(state.candidates(VariableId(1)), all_kinds());
    assert_eq!(state.candidates(VariableId(2)), all_kinds());
    assert!(state.worlds().iter().any(|world| {
        world.variable(VariableId(1)).unwrap().kind == Kind::Pawn
            && world.variable(VariableId(2)).unwrap().kind == Kind::King
    }));
}

#[test]
fn japanese_notation_uses_same_and_nonpromotion() {
    let state = VariableProblem {
        base_sfen: "9/9/9/9/9/9/8k/9/9 w r 1".to_string(),
        variables: vec![
            VariableSpec {
                id: VariableId(1),
                color: Color::Black,
                location: VariableLocation::Board(square(4, 9)),
                candidates: all_kinds(),
            },
            VariableSpec {
                id: VariableId(2),
                color: Color::Black,
                location: VariableLocation::Board(square(1, 9)),
                candidates: all_kinds(),
            },
        ],
        rule: MateRule::HelpSelfmate,
    }
    .enumerate_with_hand_variable_mode(HandVariableMode::Distinguishable)
    .unwrap();
    let solution = vec![
        ObservedMove::Drop {
            identity: DropIdentity::Known(Kind::Rook),
            destination: square(3, 1),
        },
        ObservedMove::Move {
            identity: MoveIdentity::Variable(VariableId(1)),
            source: square(4, 9),
            destination: square(3, 9),
            promote: false,
        },
        ObservedMove::Move {
            identity: MoveIdentity::Known,
            source: square(3, 1),
            destination: square(3, 9),
            promote: false,
        },
    ];

    assert_eq!(
        format_solution_japanese(&state, &solution),
        vec!["31飛打", "39▲(49)", "同飛生(31)"]
    );
}

#[test]
fn profiled_enumeration_and_solve_report_candidate_counts() {
    let problem = VariableProblem {
        base_sfen: "9/9/kS7/N8/1L7/9/9/9/9 b - 1".to_string(),
        rule: MateRule::Helpmate,
        variables: vec![VariableSpec {
            id: VariableId(1),
            color: Color::Black,
            location: VariableLocation::Board(square(6, 4)),
            candidates: vec![Kind::Rook, Kind::ProRook],
        }],
    };

    let (state, enumeration) = problem.enumerate_profiled().unwrap();
    let (solutions, solve_metrics) = hiddenmate::solver::solve_exact_profiled(&state, 1, 10);

    assert_eq!(enumeration.world_count, state.world_count());
    assert_eq!(solutions, solve_exact(&state, 1, 10));
    assert_eq!(solve_metrics.initial_world_count, state.world_count());
    assert!(solve_metrics.visited_state_count > 0);
    assert!(solve_metrics.generated_transition_count > 0);
    assert!(solve_metrics.peak_world_count >= state.world_count());
}

#[test]
fn unreadable_sfen_names_itself_in_the_message() {
    let error = VariableProblem { base_sfen: "nonsense".to_string(), variables: vec![], rule: MateRule::Helpmate }
        .enumerate()
        .unwrap_err();
    assert_eq!(error.to_string(), "SFENを解釈できません: nonsense");
}

#[test]
fn document_errors_read_as_messages() {
    assert_eq!(
        DocumentError::BadSquare("0a".to_string()).to_string(),
        "マス `0a` は11から99までの2桁で指定してください"
    );
    assert_eq!(DocumentError::UnknownKind("Z".to_string()).to_string(), "未知の駒種 `Z` です");
    assert_eq!(DocumentError::BothPlaces(3).to_string(), "覆面駒V3にsquareとinHandの両方が指定されています");
    assert_eq!(DocumentError::NoPlace(12).to_string(), "覆面駒V12の配置場所が指定されていません");
}

#[test]
fn candidates_follow_each_move_of_each_solution() {
    let state = VariableProblem {
        base_sfen: "9/9/9/4k4/9/9/9/9/9 b - 1".to_string(),
        rule: MateRule::Helpmate,
        variables: vec![
            VariableSpec {
                id: VariableId(1),
                color: Color::Black,
                location: VariableLocation::Hand(Color::Black),
                candidates: vec![Kind::Gold, Kind::Silver],
            },
            VariableSpec {
                id: VariableId(2),
                color: Color::Black,
                location: VariableLocation::Hand(Color::Black),
                candidates: vec![Kind::Rook, Kind::Lance],
            },
        ],
    }
    .enumerate_with_hand_variable_mode(HandVariableMode::Indistinguishable)
    .unwrap();
    let anonymous_drop = ObservedMove::Drop { identity: DropIdentity::AnonymousVariable, destination: square(5, 5) };
    let king_move = ObservedMove::Move {
        identity: MoveIdentity::Known,
        source: square(5, 4),
        destination: square(4, 3),
        promote: false,
    };
    let anonymous_move = ObservedMove::Move {
        identity: MoveIdentity::AnonymousVariable,
        source: square(5, 5),
        destination: square(4, 4),
        promote: false,
    };
    let solutions = vec![vec![anonymous_drop, king_move, anonymous_move], vec![anonymous_drop]];
    let listed = collect_solution_candidates(&state, &solutions).unwrap();
    assert_eq!(listed.len(), 2);
    assert_eq!(listed[0].len(), 3);
    assert_eq!(listed[1].len(), 1);
    assert_eq!(listed[0][0], listed[1][0]);
    let last = &listed[0][2];
    assert!(last.iter().any(|(id, kinds)| *id == VariableId(2) && kinds == &vec![Kind::Lance, Kind::Rook]));

    let impossible = ObservedMove::Move {
        identity: MoveIdentity::Known,
        source: square(1, 1),
        destination: square(1, 2),
        promote: false,
    };
    let failing = vec![vec![anonymous_drop], vec![anonymous_drop, king_move, impossible]];
    assert_eq!(collect_solution_candidates(&state, &failing).unwrap_err(), (1, 2));
}

#[test]
fn every_observed_move_can_be_applied_and_passes_the_turn() {
    let problem = VariableProblem {
        base_sfen: "9/9/kS7/9/1L7/9/9/9/9 b 2r2b4g3s4n3l18p 1".to_string(),
        rule: MateRule::Helpmate,
        variables: vec![VariableSpec {
            id: VariableId(1),
            color: Color::Black,
            location: VariableLocation::Hand(Color::Black),
            candidates: hand_kinds(),
        }],
    };
    let state = problem.enumerate().unwrap();
    let moves = state.observed_moves();
    assert!(!moves.is_empty());
    for o in moves.iter() {
        let next = state.apply(*o).unwrap();
        assert!(next.world_count() >= 1);
        assert_eq!(next.turn(), Color::White);
    }
    let absent = ObservedMove::Drop { identity: DropIdentity::Known(Kind::Pawn), destination: square(1, 1) };
    assert!(!moves.contains(&absent));
    assert!(state.apply(absent).is_none());
}
