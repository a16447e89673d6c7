use vstd::prelude::*;
use vstd::string::StringExecFns;

use crate::piece::Kind;
use crate::square::Square;
use crate::text::{decimal, push_decimal};

verus! {

/// Stable identifier of a variable (masked) piece, kept through the moves.
#[derive(Clone, Copy, Debug, PartialEq, Eq, Structural, PartialOrd, Ord, Hash)]
pub struct VariableId(pub u16);

/// What a board move shows of the piece that moved.
#[derive(Clone, Copy, Debug, PartialEq, Eq, Structural, PartialOrd, Ord, Hash)]
pub enum MoveIdentity {
    Known,
    Variable(VariableId),
    /// A variable piece dropped without showing which one it was.
    AnonymousVariable,
}

/// What a drop shows of the dropped piece.
#[derive(Clone, Copy, Debug, PartialEq, Eq, Structural, PartialOrd, Ord, Hash)]
pub enum DropIdentity {
    Known(Kind),
    Variable(VariableId),
    /// A variable piece chosen from a hand without showing which one.
    AnonymousVariable,
}

/// A move as it can be observed in the record: the kind of a variable piece
/// is not part of it, a promotion is.
#[derive(Clone, Copy, Debug, PartialEq, Eq, Structural, PartialOrd, Ord, Hash)]
pub enum ObservedMove {
    Move { identity: MoveIdentity, source: Square, destination: Square, promote: bool },
    Drop { identity: DropIdentity, destination: Square },
}

pub open spec fn move_identity_code(i: MoveIdentity) -> nat {
    match i {
        MoveIdentity::Known => 0,
        MoveIdentity::Variable(VariableId(id)) => (1 + id) as nat,
        MoveIdentity::AnonymousVariable => 65537,
    }
}

pub open spec fn drop_identity_code(i: DropIdentity) -> nat {
    match i {
        DropIdentity::Known(k) => k.spec_index(),
        DropIdentity::Variable(VariableId(id)) => (14 + id) as nat,
        DropIdentity::AnonymousVariable => 65550,
    }
}

/// Number of keys taken by board moves; drop keys come after.
pub open spec fn move_key_span() -> nat {
    65538 * 13122
}

/// The rank of an observed move in the order of the record: board moves
/// first, then by identity, source, destination and promotion; drops by
/// identity then destination.
pub open spec fn observed_key(o: ObservedMove) -> nat {
    match o {
        ObservedMove::Move { identity, source, destination, promote } => ((move_identity_code(
            identity,
        ) * 81 + source.idx as nat) * 81 + destination.idx as nat) * 2 + if promote {
            1nat
        } else {
            0nat
        },
        ObservedMove::Drop { identity, destination } => move_key_span() + drop_identity_code(
            identity,
        ) * 81 + destination.idx as nat,
    }
}

/// An observed move is well formed when its squares are on the board.
pub open spec fn observed_wf(o: ObservedMove) -> bool {
    match o {
        ObservedMove::Move { source, destination, .. } => source.wf() && destination.wf(),
        ObservedMove::Drop { destination, .. } => destination.wf(),
    }
}

/// Different well-formed observed moves have different keys.
pub proof fn lemma_observed_key_injective(a: ObservedMove, b: ObservedMove)
    requires
        observed_wf(a),
        observed_wf(b),
        observed_key(a) == observed_key(b),
    ensures
        a == b,
{
    match a {
        ObservedMove::Move { identity: ia, source: sa, destination: da, promote: pa } => {
            match b {
                ObservedMove::Move { identity: ib, source: sb, destination: db, promote: pb } => {
                    assert(move_identity_code(ia) == move_identity_code(ib));
                    assert(ia == ib) by {
                        match ia {
                            MoveIdentity::Variable(VariableId(x)) => {
                                match ib {
                                    MoveIdentity::Variable(VariableId(y)) => {},
                                    _ => {},
                                }
                            },
                            _ => {},
                        }
                    }
                },
                ObservedMove::Drop { .. } => {},
            }
        },
        ObservedMove::Drop { identity: ia, destination: da } => {
            match b {
                ObservedMove::Move { .. } => {},
                ObservedMove::Drop { identity: ib, destination: db } => {
                    assert(drop_identity_code(ia) == drop_identity_code(ib));
                    assert(ia == ib) by {
                        match ia {
                            DropIdentity::Known(ka) => {
                                match ib {
                                    DropIdentity::Known(kb) => {
                                        crate::piece::lemma_index_injective(ka, kb);
                                    },
                                    _ => {},
                                }
                            },
                            DropIdentity::Variable(VariableId(x)) => {
                                match ib {
                                    DropIdentity::Variable(VariableId(y)) => {},
                                    _ => {},
                                }
                            },
                            _ => {},
                        }
                    }
                },
            }
        },
    }
}

impl ObservedMove {
    /// The key that orders observed moves.
    pub fn key(&self) -> (r: u64)
        ensures
            r == observed_key(*self),
    {
        match *self {
            ObservedMove::Move { identity, source, destination, promote } => {
                let code: u64 = match identity {
                    MoveIdentity::Known => 0,
                    MoveIdentity::Variable(VariableId(id)) => 1 + id as u64,
                    MoveIdentity::AnonymousVariable => 65537,
                };
                ((code * 81 + source.idx as u64) * 81 + destination.idx as u64) * 2 + if promote {
                    1
                } else {
                    0
                }
            },
            ObservedMove::Drop { identity, destination } => {
                let code: u64 = match identity {
                    DropIdentity::Known(k) => k.index() as u64,
                    DropIdentity::Variable(VariableId(id)) => 14 + id as u64,
                    DropIdentity::AnonymousVariable => 65550,
                };
                65538 * 13122 + code * 81 + destination.idx as u64
            },
        }
    }

    /// The destination square.
    pub open spec fn spec_destination(self) -> Square {
        match self {
            ObservedMove::Move { destination, .. } => destination,
            ObservedMove::Drop { destination, .. } => destination,
        }
    }

    pub fn destination(&self) -> (r: Square)
        ensures
            r == self.spec_destination(),
    {
        match *self {
            ObservedMove::Move { destination, .. } => destination,
            ObservedMove::Drop { destination, .. } => destination,
        }
    }

    /// Record notation: `V1:64-84`, `64-84+`, `V2*55`, `P*55`; variables
    /// dropped anonymously show as `V`.
    pub fn to_string(&self) -> (r: String)
        requires
            observed_wf(*self),
        ensures
            r@ == observed_text(*self),
    {
        let mut s = String::new();
        match *self {
            ObservedMove::Move { identity, source, destination, promote } => {
                match identity {
                    MoveIdentity::Known => {},
                    MoveIdentity::Variable(VariableId(id)) => {
                        s.append("V");
                        push_decimal(&mut s, id as u64);
                        s.append(":");
                    },
                    MoveIdentity::AnonymousVariable => {
                        s.append("V:");
                    },
                }
                push_square(&mut s, source);
                s.append("-");
                push_square(&mut s, destination);
                if promote {
                    s.append("+");
                }
            },
            ObservedMove::Drop { identity, destination } => {
                match identity {
                    DropIdentity::Known(k) => {
                        s.append(kind_code(k));
                    },
                    DropIdentity::Variable(VariableId(id)) => {
                        s.append("V");
                        push_decimal(&mut s, id as u64);
                    },
                    DropIdentity::AnonymousVariable => {
                        s.append("V");
                    },
                }
                s.append("*");
                push_square(&mut s, destination);
            },
        }
        proof {
            assert(s@ =~= observed_text(*self));
        }
        s
    }
}

/// File digit then rank digit, as in `84`.
pub open spec fn square_text(sq: Square) -> Seq<char> {
    decimal((sq.spec_col() + 1) as nat) + decimal((sq.spec_row() + 1) as nat)
}

/// Appends the file and rank digits of a square.
pub fn push_square(s: &mut String, sq: Square)
    requires
        sq.wf(),
    ensures
        final(s)@ == old(s)@ + square_text(sq),
{
    push_decimal(s, (sq.col() + 1) as u64);
    push_decimal(s, (sq.row() + 1) as u64);
    proof {
        assert(final(s)@ =~= old(s)@ + square_text(sq));
    }
}

/// The letter code of a kind: `P L N S G B R K +P +L +N +S +B +R`.
pub open spec fn kind_code_text(k: Kind) -> Seq<char> {
    match k {
        Kind::Pawn => "P"@,
        Kind::Lance => "L"@,
        Kind::Knight => "N"@,
        Kind::Silver => "S"@,
        Kind::Gold => "G"@,
        Kind::Bishop => "B"@,
        Kind::Rook => "R"@,
        Kind::King => "K"@,
        Kind::ProPawn => "+P"@,
        Kind::ProLance => "+L"@,
        Kind::ProKnight => "+N"@,
        Kind::ProSilver => "+S"@,
        Kind::ProBishop => "+B"@,
        Kind::ProRook => "+R"@,
    }
}

pub fn kind_code(k: Kind) -> (r: &'static str)
    ensures
        r@ == kind_code_text(k),
{
    match k {
        Kind::Pawn => "P",
        Kind::Lance => "L",
        Kind::Knight => "N",
        Kind::Silver => "S",
        Kind::Gold => "G",
        Kind::Bishop => "B",
        Kind::Rook => "R",
        Kind::King => "K",
        Kind::ProPawn => "+P",
        Kind::ProLance => "+L",
        Kind::ProKnight => "+N",
        Kind::ProSilver => "+S",
        Kind::ProBishop => "+B",
        Kind::ProRook => "+R",
    }
}

/// The record notation of an observed move.
pub open spec fn observed_text(o: ObservedMove) -> Seq<char> {
    match o {
        ObservedMove::Move { identity, source, destination, promote } => {
            let label = match identity {
                MoveIdentity::Known => Seq::empty(),
                MoveIdentity::Variable(VariableId(id)) => "V"@ + decimal(id as nat) + ":"@,
                MoveIdentity::AnonymousVariable => "V:"@,
            };
            label + square_text(source) + "-"@ + square_text(destination) + if promote {
                "+"@
            } else {
                Seq::empty()
            }
        },
        ObservedMove::Drop { identity, destination } => {
            let label = match identity {
                DropIdentity::Known(k) => kind_code_text(k),
                DropIdentity::Variable(VariableId(id)) => "V"@ + decimal(id as nat),
                DropIdentity::AnonymousVariable => "V"@,
            };
            label + "*"@ + square_text(destination)
        },
    }
}

} // verus!
