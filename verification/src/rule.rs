use vstd::prelude::*;

use crate::piece::Color;

verus! {

/// The cooperative mate rules that can be examined.
#[derive(Clone, Copy, Debug, PartialEq, Eq, Structural)]
pub enum MateRule {
    /// Black (the attacker) mates the white king.
    Helpmate,
    /// White (the defender) mates the black king.
    HelpSelfmate,
    /// Black mates by force in the fewest moves, white resisting longest.
    BestMate,
}

/// Whether several variable pieces in one hand can be told apart when one
/// of them is dropped.
#[derive(Clone, Copy, Debug, PartialEq, Eq, Structural)]
pub enum HandVariableMode {
    /// The dropped piece is named, as V1 or V2.
    Distinguishable,
    /// Only the drop of some variable piece is seen; which one is inferred
    /// from later moves.
    Indistinguishable,
}

impl MateRule {
    /// The side whose turn it is when the rule's target king is mated.
    pub open spec fn spec_terminal_turn(self) -> Color {
        match self {
            MateRule::HelpSelfmate => Color::Black,
            _ => Color::White,
        }
    }

    #[verifier::when_used_as_spec(spec_terminal_turn)]
    pub fn terminal_turn(self) -> (c: Color)
        ensures
            c == self.spec_terminal_turn(),
    {
        match self {
            MateRule::HelpSelfmate => Color::Black,
            _ => Color::White,
        }
    }

    /// The side to move first so that the last of `plies` moves ends on the
    /// terminal turn.
    pub open spec fn spec_initial_turn(self, plies: nat) -> Color {
        if plies % 2 == 0 {
            self.spec_terminal_turn()
        } else {
            self.spec_terminal_turn().spec_opposite()
        }
    }

    pub fn initial_turn(self, plies: usize) -> (c: Color)
        ensures
            c == self.spec_initial_turn(plies as nat),
    {
        if plies % 2 == 0 {
            self.terminal_turn()
        } else {
            self.terminal_turn().opposite()
        }
    }

    /// The rule used when none is given.
    pub fn default() -> (r: MateRule)
        ensures
            r == MateRule::Helpmate,
    {
        MateRule::Helpmate
    }
}

impl HandVariableMode {
    /// The mode used when none is given.
    pub fn default() -> (r: HandVariableMode)
        ensures
            r == HandVariableMode::Indistinguishable,
    {
        HandVariableMode::Indistinguishable
    }
}

} // verus!
