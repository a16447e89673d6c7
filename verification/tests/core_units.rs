use hiddenmate::kind_set::KindSet;
use hiddenmate::observed::{DropIdentity, MoveIdentity, ObservedMove, VariableId};
use hiddenmate::piece::{Color, Kind};
use hiddenmate::position::{Movement, Position};
use hiddenmate::problem::{VariableProblem, VariableSpec};
use hiddenmate::rule::MateRule;
use hiddenmate::solver::format_observed_japanese;
use hiddenmate::square::Square;
use hiddenmate::state::HiddenState;
use hiddenmate::world::{ConcreteWorld, VariableLocation, VariablePiece};

fn square(file: usize, rank: usize) -> Square {
    Square::new(file - 1, rank - 1)
}

fn world(sfen: &str) -> ConcreteWorld {
    ConcreteWorld::new(Position::from_sfen(sfen).unwrap(), Vec::new())
}

#[test]
fn deduplicates_and_iterates_in_kind_order() {
    let set = KindSet::from_iter(&[Kind::Rook, Kind::Pawn, Kind::Rook]);

    assert_eq!(set.len(), 2);
    assert_eq!(set.iter(), vec![Kind::Pawn, Kind::Rook]);
}

#[test]
fn help_selfmate_requires_mate_in_every_remaining_world() {
    let mated = || world("7rK/7g1/9/9/9/9/9/9/4k4 b - 1");
    let not_mated = world("7rK/9/9/9/9/9/9/9/4k4 b - 1");

    assert!(HiddenState::new(vec![mated(), mated()], MateRule::HelpSelfmate).is_proven_mate());
    assert!(!HiddenState::new(vec![mated(), not_mated], MateRule::HelpSelfmate).is_proven_mate());
}

#[test]
fn black_can_move_when_reverse_check_exists_in_only_some_worlds() {
    let variable = |kind| VariablePiece {
        id: VariableId(1),
        color: Color::White,
        kind,
        location: VariableLocation::Board(square(8, 8)),
    };
    let checked = ConcreteWorld::new(
        Position::from_sfen("8k/9/9/9/9/9/9/1g7/K7R b - 1").unwrap(),
        vec![variable(Kind::Gold)],
    );
    let unchecked = ConcreteWorld::new(
        Position::from_sfen("8k/9/9/9/9/9/9/1n7/K7R b - 1").unwrap(),
        vec![variable(Kind::Knight)],
    );
    let state = HiddenState::new(vec![checked, unchecked], MateRule::HelpSelfmate);
    let checking_move = ObservedMove::Move {
        identity: MoveIdentity::Known,
        source: square(1, 9),
        destination: square(1, 2),
        promote: false,
    };

    assert!(state.observed_moves().contains(&checking_move));
    assert_eq!(state.apply(checking_move).unwrap().world_count(), 1);
}

#[test]
fn captured_variable_demotes_changes_owner_and_can_be_dropped() {
    let mut position = Position::default();
    position.set(square(5, 4), Color::Black, Kind::Rook);
    position.set(square(5, 5), Color::White, Kind::ProSilver);
    position.set_turn(Color::Black);
    let world = ConcreteWorld::new(
        position,
        vec![VariablePiece {
            id: VariableId(3),
            color: Color::White,
            kind: Kind::ProSilver,
            location: VariableLocation::Board(square(5, 5)),
        }],
    );

    let capture = ObservedMove::Move {
        identity: MoveIdentity::Known,
        source: square(5, 4),
        destination: square(5, 5),
        promote: false,
    };
    let captured = world.apply(
        capture,
        Movement::Move {
            source: square(5, 4),
            dest: square(5, 5),
            promote: false,
        },
        None,
    );
    let piece = captured.variable(VariableId(3)).unwrap();
    assert_eq!(piece.color, Color::Black);
    assert_eq!(piece.kind, Kind::Silver);
    assert_eq!(piece.location, VariableLocation::Hand(Color::Black));

    let mut black_to_move = captured;
    black_to_move.position.set_turn(Color::Black);
    let dropped = black_to_move.apply(
        ObservedMove::Drop {
            identity: DropIdentity::Variable(VariableId(3)),
            destination: square(4, 4),
        },
        Movement::Drop(square(4, 4), Kind::Silver),
        Some(VariableId(3)),
    );
    assert_eq!(
        dropped.variable(VariableId(3)).unwrap().location,
        VariableLocation::Board(square(4, 4))
    );
}

fn state_with_variable(color: Color) -> HiddenState {
    VariableProblem {
        base_sfen: "9/9/kS7/N8/1L7/9/9/9/9 b - 1".to_string(),
        variables: vec![VariableSpec {
            id: VariableId(1),
            color,
            location: VariableLocation::Board(square(6, 4)),
            candidates: vec![Kind::Rook, Kind::ProRook],
        }],
        rule: MateRule::Helpmate,
    }
    .enumerate()
    .unwrap()
}

#[test]
fn formats_known_move_and_drop_in_japanese() {
    let state = VariableProblem {
        base_sfen: "9/1S7/9/9/9/9/9/9/k8 b - 1".to_string(),
        variables: vec![VariableSpec {
            id: VariableId(1),
            color: Color::Black,
            location: VariableLocation::Board(square(6, 4)),
            candidates: vec![Kind::Rook],
        }],
        rule: MateRule::Helpmate,
    }
    .enumerate()
    .unwrap();
    assert_eq!(
        format_observed_japanese(
            &state,
            ObservedMove::Move {
                identity: MoveIdentity::Known,
                source: square(8, 2),
                destination: square(8, 3),
                promote: false,
            }
        ),
        "83銀(82)"
    );
    assert_eq!(
        format_observed_japanese(
            &state,
            ObservedMove::Drop {
                identity: DropIdentity::Known(Kind::Pawn),
                destination: square(9, 2),
            }
        ),
        "92歩打"
    );
}

#[test]
fn formats_variable_with_owner_symbol() {
    let black = state_with_variable(Color::Black);
    let white = state_with_variable(Color::White);
    let observed = ObservedMove::Move {
        identity: MoveIdentity::Variable(VariableId(1)),
        source: square(6, 4),
        destination: square(8, 4),
        promote: false,
    };
    assert_eq!(format_observed_japanese(&black, observed), "84▲(64)");
    assert_eq!(format_observed_japanese(&white, observed), "84△(64)");
}
