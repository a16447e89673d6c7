use hiddenmate::known_invisible::{
    DocumentColor, InvisibleLocation, InvisiblePiece, InvisibleWorld, KnownInvisibleDocument, KnownInvisibleDocumentSpec,
    KnownInvisibleError, KnownInvisibleObservedMove, KnownInvisibleProblem, KnownInvisibleSpec, KnownInvisibleState,
};
use hiddenmate::known_search::{
    format_known_invisible_solution_japanese, known_solution_formattable, solve_known_invisible_exact, successors,
};
use hiddenmate::observed::{DropIdentity, MoveIdentity, ObservedMove};
use hiddenmate::piece::{Color, Kind};
use hiddenmate::position::{Movement, Position};
use hiddenmate::rule::MateRule;
use hiddenmate::square::Square;

fn sq(file: usize, rank: usize) -> Square {
    Square::new(file - 1, rank - 1)
}

#[test]
fn invisible_non_capture_is_x_and_capture_has_square() {
    let world = InvisibleWorld::new(
        Position::from_sfen("8k/9/9/9/4R4/4p4/9/9/8K b - 1").unwrap(),
        vec![InvisiblePiece {
            color: Color::Black,
            kind: Kind::Rook,
            location: InvisibleLocation::Board(sq(5, 5)),
        }],
    );
    let quiet = Movement::Move { source: sq(5, 5), dest: sq(5, 4), promote: false };
    assert_eq!(world.transition_variants(quiet)[0].0, KnownInvisibleObservedMove::Invisible);
    let capture = Movement::Move { source: sq(5, 5), dest: sq(5, 6), promote: false };
    assert_eq!(
        world.transition_variants(capture)[0].0,
        KnownInvisibleObservedMove::InvisibleCapture(sq(5, 6))
    );
}

#[test]
fn captured_invisible_demotes_changes_owner_and_stays_invisible() {
    let world = InvisibleWorld::new(
        Position::from_sfen("8k/9/9/9/4+rS3/9/9/9/8K b - 1").unwrap(),
        vec![InvisiblePiece {
            color: Color::White,
            kind: Kind::ProRook,
            location: InvisibleLocation::Board(sq(5, 5)),
        }],
    );
    let movement = Movement::Move { source: sq(4, 5), dest: sq(5, 5), promote: false };
    let variants = world.transition_variants(movement);
    let (_, next) = &variants[0];
    assert_eq!(
        next.invisibles,
        vec![InvisiblePiece {
            color: Color::Black,
            kind: Kind::Rook,
            location: InvisibleLocation::Hand(Color::Black),
        }]
    );
}

#[test]
fn reveals_only_location_common_to_every_world() {
    let base = Position::from_sfen("8k/9/9/9/4R4/9/9/9/8K b - 1").unwrap();
    let fixed = InvisiblePiece {
        color: Color::Black,
        kind: Kind::Rook,
        location: InvisibleLocation::Board(sq(5, 5)),
    };
    let varying = |square| InvisiblePiece {
        color: Color::White,
        kind: Kind::Silver,
        location: InvisibleLocation::Board(square),
    };
    let mut first = base.copy();
    first.set(sq(4, 4), Color::White, Kind::Silver);
    let mut second = base;
    second.set(sq(4, 3), Color::White, Kind::Silver);
    let state = KnownInvisibleState::from_worlds(
        vec![
            InvisibleWorld::new(first, vec![fixed, varying(sq(4, 4))]),
            InvisibleWorld::new(second, vec![fixed, varying(sq(4, 3))]),
        ],
        false,
        MateRule::Helpmate,
    );
    assert!(state.worlds.iter().all(|world| world.invisibles.len() == 1));
    assert!(state.worlds.iter().all(|world| !world.invisibles.contains(&fixed)));
}

fn document(base_sfen: &str, rule: MateRule, specs: Vec<(DocumentColor, &str, usize)>) -> KnownInvisibleDocument {
    KnownInvisibleDocument {
        base_sfen: base_sfen.to_string(),
        plies: 1,
        rule,
        invisibles: specs
            .into_iter()
            .map(|(color, kind, count)| KnownInvisibleDocumentSpec { color, kind: kind.to_string(), count })
            .collect(),
    }
}

#[test]
fn rejects_more_than_two() {
    let document = document("9/9/k8/9/9/9/9/9/9 b - 1", MateRule::Helpmate, vec![(DocumentColor::Black, "R", 3)]);
    assert!(document.into_problem().unwrap_err().to_string().contains("合計2枚"));
}

#[test]
fn one_known_kind_enumerates_locations() {
    let (problem, _) = document(
        "9/9/k8/9/9/9/9/9/9 b 2r2b4g4s4n4l18p 1",
        MateRule::Helpmate,
        vec![(DocumentColor::Black, "K", 1)],
    )
    .into_problem()
    .unwrap();
    let state = problem.enumerate().unwrap();
    assert!(state.world_count() > 1);
}

#[test]
fn invisible_is_allocated_from_full_white_hand() {
    let (problem, _) = document(
        "4k4/9/9/9/9/9/9/9/4K4 b 2r2b4g4s4n4l18p 1",
        MateRule::Helpmate,
        vec![(DocumentColor::Black, "L", 1)],
    )
    .into_problem()
    .unwrap();
    let state = problem.enumerate().unwrap();
    assert!(state.world_count() > 1);
    assert!(state.worlds.iter().all(|world| world.position.hands.count(Color::White, Kind::Lance) == 3));
}

#[test]
fn document_sets_turn_and_expands_counts() {
    let (problem, plies) = document(
        "4k4/9/9/9/9/9/9/9/4K4 b - 1",
        MateRule::Helpmate,
        vec![(DocumentColor::White, "s", 2), (DocumentColor::Black, "Q", 0)],
    )
    .into_problem()
    .unwrap();
    assert_eq!(plies, 1);
    assert_eq!(problem.base_sfen, "4k4/9/9/9/9/9/9/9/4K4 b - 1");
    assert_eq!(
        problem.invisibles,
        vec![
            KnownInvisibleSpec { color: Color::White, kind: Kind::Silver },
            KnownInvisibleSpec { color: Color::White, kind: Kind::Silver }
        ]
    );
    let mut even = document("4k4/9/9/9/9/9/9/9/4K4 b - 1", MateRule::Helpmate, vec![]);
    even.plies = 2;
    let (problem, _) = even.into_problem().unwrap();
    assert_eq!(problem.base_sfen, "4k4/9/9/9/9/9/9/9/4K4 w - 1");
}

#[test]
fn document_errors_have_their_messages() {
    let best = document("4k4/9/9/9/9/9/9/9/4K4 b - 1", MateRule::BestMate, vec![]);
    assert_eq!(best.into_problem().unwrap_err(), KnownInvisibleError::BestMateUnsupported);
    let bad_sfen = document("nonsense", MateRule::Helpmate, vec![]);
    let error = bad_sfen.into_problem().unwrap_err();
    assert_eq!(error.to_string(), "SFENを解釈できません: nonsense");
    let unknown = document("4k4/9/9/9/9/9/9/9/4K4 b - 1", MateRule::Helpmate, vec![(DocumentColor::Black, "Q", 1)]);
    let error = unknown.into_problem().unwrap_err();
    assert_eq!(error, KnownInvisibleError::UnknownKind("Q".to_string()));
    assert_eq!(error.to_string(), "未知の駒種 `Q` です");
}

#[test]
fn enumeration_reports_short_kind_and_no_world() {
    let short = KnownInvisibleProblem {
        base_sfen: "4k4/9/9/9/9/9/9/9/4K4 b 2R 1".to_string(),
        invisibles: vec![KnownInvisibleSpec { color: Color::Black, kind: Kind::ProRook }],
        rule: MateRule::Helpmate,
    };
    let error = short.enumerate().unwrap_err();
    assert_eq!(error, KnownInvisibleError::NotEnough(Kind::Rook));
    assert_eq!(error.to_string(), "透明駒に割り当てるRookが受方持駒または駒箱に足りません");
    let none = KnownInvisibleProblem {
        base_sfen: "9/9/k8/9/9/9/9/9/9 b - 1".to_string(),
        invisibles: vec![KnownInvisibleSpec { color: Color::White, kind: Kind::King }],
        rule: MateRule::Helpmate,
    };
    assert_eq!(none.enumerate().unwrap_err(), KnownInvisibleError::NoWorld);
}

#[test]
fn solves_known_help_selfmate_without_invisibles() {
    let state = KnownInvisibleProblem {
        base_sfen: "9/9/9/9/7l1/9/8k/9/7SK b G 1".to_string(),
        invisibles: vec![],
        rule: MateRule::HelpSelfmate,
    }
    .enumerate()
    .unwrap();
    assert_eq!(state.world_count(), 1);
    let solutions = solve_known_invisible_exact(&state, 4, 100).unwrap();
    assert_eq!(solutions.iter().map(Vec::len).collect::<Vec<_>>(), vec![2, 4, 4, 4]);
    for solution in &solutions {
        assert!(known_solution_formattable(&state, solution));
        let lines = format_known_invisible_solution_japanese(&state, solution).unwrap();
        assert_eq!(lines.len(), solution.len());
    }
    let capped = solve_known_invisible_exact(&state, 4, 2).unwrap();
    assert_eq!(capped, solutions[..2].to_vec());
}

#[test]
fn formats_known_move_and_drop() {
    let position = Position::from_sfen("9/1S7/9/9/9/9/9/9/k8 b P 1").unwrap();
    let state = KnownInvisibleState::from_worlds(vec![InvisibleWorld::new(position, vec![])], true, MateRule::Helpmate);
    let silver = KnownInvisibleObservedMove::Known(ObservedMove::Move {
        identity: MoveIdentity::Known,
        source: sq(8, 2),
        destination: sq(7, 3),
        promote: false,
    });
    let pawn = KnownInvisibleObservedMove::Known(ObservedMove::Drop {
        identity: DropIdentity::Known(Kind::Pawn),
        destination: sq(9, 2),
    });
    assert_eq!(format_known_invisible_solution_japanese(&state, &vec![silver]).unwrap(), vec!["73銀生(82)"]);
    assert_eq!(format_known_invisible_solution_japanese(&state, &vec![pawn]).unwrap(), vec!["92歩打"]);
    let hidden = KnownInvisibleObservedMove::Invisible;
    assert!(known_solution_formattable(&state, &vec![hidden]));
    assert_eq!(
        format_known_invisible_solution_japanese(&state, &vec![hidden]).unwrap_err(),
        KnownInvisibleError::Unreplayable
    );
    assert_eq!(KnownInvisibleError::Unreplayable.to_string(), "解手順を候補世界へ適用できません");
}

#[test]
fn hidden_moves_read_as_x_and_captures_name_the_square() {
    let rook_at = |file, rank| InvisiblePiece {
        color: Color::Black,
        kind: Kind::Rook,
        location: InvisibleLocation::Board(sq(file, rank)),
    };
    let first = InvisibleWorld::new(Position::from_sfen("8k/9/9/9/4R4/4p4/9/9/8K b - 1").unwrap(), vec![rook_at(5, 5)]);
    let second = InvisibleWorld::new(Position::from_sfen("8k/9/9/4R4/9/4p4/9/9/8K b - 1").unwrap(), vec![rook_at(5, 4)]);
    let state = KnownInvisibleState::from_worlds(vec![first, second], true, MateRule::Helpmate);
    assert_eq!(state.world_count(), 2);
    let capture = KnownInvisibleObservedMove::InvisibleCapture(sq(5, 6));
    assert_eq!(format_known_invisible_solution_japanese(&state, &vec![capture]).unwrap(), vec!["56X"]);
    let quiet = KnownInvisibleObservedMove::Invisible;
    assert_eq!(format_known_invisible_solution_japanese(&state, &vec![quiet]).unwrap(), vec!["X"]);
}

#[test]
fn successors_come_grouped_in_move_order_each_world_once() {
    let rook_at = |file, rank| InvisiblePiece {
        color: Color::Black,
        kind: Kind::Rook,
        location: InvisibleLocation::Board(sq(file, rank)),
    };
    let first = InvisibleWorld::new(Position::from_sfen("8k/9/9/9/4R4/4p4/9/9/8K b - 1").unwrap(), vec![rook_at(5, 5)]);
    let second = InvisibleWorld::new(Position::from_sfen("8k/9/9/4R4/9/4p4/9/9/8K b - 1").unwrap(), vec![rook_at(5, 4)]);
    let state = KnownInvisibleState::from_worlds(vec![first, second], true, MateRule::Helpmate);
    let groups = successors(&state.worlds, true).unwrap();
    let rank = |o: &KnownInvisibleObservedMove| match o {
        KnownInvisibleObservedMove::Known(_) => 0,
        KnownInvisibleObservedMove::Invisible => 1,
        KnownInvisibleObservedMove::InvisibleCapture(_) => 2,
    };
    assert!(groups.windows(2).all(|pair| rank(&pair[0].0) <= rank(&pair[1].0) && pair[0].0 != pair[1].0));
    assert_eq!(groups.last().unwrap().0, KnownInvisibleObservedMove::InvisibleCapture(sq(5, 6)));
    let capture_worlds = &groups.last().unwrap().1;
    assert_eq!(capture_worlds.len(), 1);
    for (_, worlds) in &groups {
        assert!(!worlds.is_empty());
        for (a, first) in worlds.iter().enumerate() {
            for second in &worlds[a + 1..] {
                assert!(first.position.sfen() != second.position.sfen() || first.invisibles != second.invisibles);
            }
        }
    }
}
