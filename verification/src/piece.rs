use vstd::prelude::*;

verus! {

/// Side of a piece: black is the attacker (moves up the board), white the
/// defender.
#[derive(Clone, Copy, Debug, PartialEq, Eq, Structural, PartialOrd, Ord, Hash)]
pub enum Color {
    Black,
    White,
}

pub const BLACK: Color = Color::Black;

pub const WHITE: Color = Color::White;

impl Color {
    pub open spec fn spec_opposite(self) -> Color {
        match self {
            Color::Black => Color::White,
            Color::White => Color::Black,
        }
    }

    #[verifier::when_used_as_spec(spec_opposite)]
    pub fn opposite(self) -> (r: Color)
        ensures
            r == self.spec_opposite(),
    {
        match self {
            Color::Black => Color::White,
            Color::White => Color::Black,
        }
    }

    pub open spec fn spec_is_black(self) -> bool {
        self == Color::Black
    }

    #[verifier::when_used_as_spec(spec_is_black)]
    pub fn is_black(self) -> (r: bool)
        ensures
            r == (self == Color::Black),
    {
        match self {
            Color::Black => true,
            Color::White => false,
        }
    }

    pub open spec fn spec_is_white(self) -> bool {
        self == Color::White
    }

    #[verifier::when_used_as_spec(spec_is_white)]
    pub fn is_white(self) -> (r: bool)
        ensures
            r == (self == Color::White),
    {
        match self {
            Color::Black => false,
            Color::White => true,
        }
    }

    /// 0 for black, 1 for white.
    pub open spec fn spec_index(self) -> nat {
        match self {
            Color::Black => 0,
            Color::White => 1,
        }
    }

    pub fn index(self) -> (r: usize)
        ensures
            r == self.spec_index(),
    {
        match self {
            Color::Black => 0,
            Color::White => 1,
        }
    }
}

/// The fourteen piece kinds of shogi, unpromoted first.
#[derive(Clone, Copy, Debug, PartialEq, Eq, Structural, PartialOrd, Ord, Hash)]
pub enum Kind {
    Pawn,
    Lance,
    Knight,
    Silver,
    Gold,
    Bishop,
    Rook,
    King,
    ProPawn,
    ProLance,
    ProKnight,
    ProSilver,
    ProBishop,
    ProRook,
}

/// Number of kinds that can be held in hand (pawn through rook).
pub const NUM_HAND_KIND: usize = 7;

/// Number of piece kinds.
pub const NUM_KIND: usize = 14;

/// The kind with a given index, the inverse of `Kind::index`.
pub open spec fn spec_kind_of(i: int) -> Kind {
    if i == 0 {
        Kind::Pawn
    } else if i == 1 {
        Kind::Lance
    } else if i == 2 {
        Kind::Knight
    } else if i == 3 {
        Kind::Silver
    } else if i == 4 {
        Kind::Gold
    } else if i == 5 {
        Kind::Bishop
    } else if i == 6 {
        Kind::Rook
    } else if i == 7 {
        Kind::King
    } else if i == 8 {
        Kind::ProPawn
    } else if i == 9 {
        Kind::ProLance
    } else if i == 10 {
        Kind::ProKnight
    } else if i == 11 {
        Kind::ProSilver
    } else if i == 12 {
        Kind::ProBishop
    } else {
        Kind::ProRook
    }
}

/// The kind with index `i`, for `i < 14`.
pub fn kind_of(i: usize) -> (k: Kind)
    requires
        i < NUM_KIND,
    ensures
        k == spec_kind_of(i as int),
        k.spec_index() == i,
{
    if i == 0 {
        Kind::Pawn
    } else if i == 1 {
        Kind::Lance
    } else if i == 2 {
        Kind::Knight
    } else if i == 3 {
        Kind::Silver
    } else if i == 4 {
        Kind::Gold
    } else if i == 5 {
        Kind::Bishop
    } else if i == 6 {
        Kind::Rook
    } else if i == 7 {
        Kind::King
    } else if i == 8 {
        Kind::ProPawn
    } else if i == 9 {
        Kind::ProLance
    } else if i == 10 {
        Kind::ProKnight
    } else if i == 11 {
        Kind::ProSilver
    } else if i == 12 {
        Kind::ProBishop
    } else {
        Kind::ProRook
    }
}

/// All kinds in index order.
pub fn all_kinds() -> (r: Vec<Kind>)
    ensures
        r@.len() == NUM_KIND,
        forall|i: int| 0 <= i < NUM_KIND ==> #[trigger] r@[i] == spec_kind_of(i),
{
    let mut r: Vec<Kind> = Vec::new();
    let mut i: usize = 0;
    while i < NUM_KIND
        invariant
            i <= NUM_KIND,
            r@.len() == i,
            forall|j: int| 0 <= j < i ==> #[trigger] r@[j] == spec_kind_of(j),
        decreases NUM_KIND - i,
    {
        r.push(kind_of(i));
        i = i + 1;
    }
    r
}

impl Kind {
    pub open spec fn spec_index(self) -> nat {
        match self {
            Kind::Pawn => 0,
            Kind::Lance => 1,
            Kind::Knight => 2,
            Kind::Silver => 3,
            Kind::Gold => 4,
            Kind::Bishop => 5,
            Kind::Rook => 6,
            Kind::King => 7,
            Kind::ProPawn => 8,
            Kind::ProLance => 9,
            Kind::ProKnight => 10,
            Kind::ProSilver => 11,
            Kind::ProBishop => 12,
            Kind::ProRook => 13,
        }
    }

    pub fn index(self) -> (r: usize)
        ensures
            r == self.spec_index(),
            r < NUM_KIND,
            spec_kind_of(r as int) == self,
    {
        match self {
            Kind::Pawn => 0,
            Kind::Lance => 1,
            Kind::Knight => 2,
            Kind::Silver => 3,
            Kind::Gold => 4,
            Kind::Bishop => 5,
            Kind::Rook => 6,
            Kind::King => 7,
            Kind::ProPawn => 8,
            Kind::ProLance => 9,
            Kind::ProKnight => 10,
            Kind::ProSilver => 11,
            Kind::ProBishop => 12,
            Kind::ProRook => 13,
        }
    }

    /// The promoted form of a promotable kind.
    pub open spec fn spec_promote(self) -> Option<Kind> {
        match self {
            Kind::Pawn => Some(Kind::ProPawn),
            Kind::Lance => Some(Kind::ProLance),
            Kind::Knight => Some(Kind::ProKnight),
            Kind::Silver => Some(Kind::ProSilver),
            Kind::Bishop => Some(Kind::ProBishop),
            Kind::Rook => Some(Kind::ProRook),
            _ => None,
        }
    }

    #[verifier::when_used_as_spec(spec_promote)]
    pub fn promote(self) -> (r: Option<Kind>)
        ensures
            r == self.spec_promote(),
    {
        match self {
            Kind::Pawn => Some(Kind::ProPawn),
            Kind::Lance => Some(Kind::ProLance),
            Kind::Knight => Some(Kind::ProKnight),
            Kind::Silver => Some(Kind::ProSilver),
            Kind::Bishop => Some(Kind::ProBishop),
            Kind::Rook => Some(Kind::ProRook),
            _ => None,
        }
    }

    /// The unpromoted form of a promoted kind.
    pub open spec fn spec_unpromote(self) -> Option<Kind> {
        match self {
            Kind::ProPawn => Some(Kind::Pawn),
            Kind::ProLance => Some(Kind::Lance),
            Kind::ProKnight => Some(Kind::Knight),
            Kind::ProSilver => Some(Kind::Silver),
            Kind::ProBishop => Some(Kind::Bishop),
            Kind::ProRook => Some(Kind::Rook),
            _ => None,
        }
    }

    #[verifier::when_used_as_spec(spec_unpromote)]
    pub fn unpromote(self) -> (r: Option<Kind>)
        ensures
            r == self.spec_unpromote(),
    {
        match self {
            Kind::ProPawn => Some(Kind::Pawn),
            Kind::ProLance => Some(Kind::Lance),
            Kind::ProKnight => Some(Kind::Knight),
            Kind::ProSilver => Some(Kind::Silver),
            Kind::ProBishop => Some(Kind::Bishop),
            Kind::ProRook => Some(Kind::Rook),
            _ => None,
        }
    }

    /// The kind itself when unpromoted, its unpromoted form otherwise.
    pub open spec fn spec_maybe_unpromote(self) -> Kind {
        match self.spec_unpromote() {
            Some(k) => k,
            None => self,
        }
    }

    #[verifier::when_used_as_spec(spec_maybe_unpromote)]
    pub fn maybe_unpromote(self) -> (r: Kind)
        ensures
            r == self.spec_maybe_unpromote(),
            r.spec_index() < 8,
    {
        match self.unpromote() {
            Some(k) => k,
            None => self,
        }
    }

    pub open spec fn spec_can_promote(self) -> bool {
        self.spec_promote() is Some
    }

    #[verifier::when_used_as_spec(spec_can_promote)]
    pub fn can_promote(self) -> (r: bool)
        ensures
            r == self.spec_can_promote(),
    {
        self.promote().is_some()
    }

    /// Whether a piece of this kind can be held in hand.
    pub open spec fn spec_is_hand_piece(self) -> bool {
        self.spec_index() < NUM_HAND_KIND
    }

    #[verifier::when_used_as_spec(spec_is_hand_piece)]
    pub fn is_hand_piece(self) -> (r: bool)
        ensures
            r == self.spec_is_hand_piece(),
    {
        self.index() < NUM_HAND_KIND
    }

    /// Number of pieces of this kind (counted with its promoted form) in a
    /// standard shogi set.
    pub open spec fn spec_max_count(self) -> nat {
        match self.spec_maybe_unpromote() {
            Kind::Pawn => 18,
            Kind::Lance => 4,
            Kind::Knight => 4,
            Kind::Silver => 4,
            Kind::Gold => 4,
            Kind::Bishop => 2,
            Kind::Rook => 2,
            _ => 2,
        }
    }

    pub fn max_count(self) -> (r: u32)
        ensures
            r == self.spec_max_count(),
    {
        match self.maybe_unpromote() {
            Kind::Pawn => 18,
            Kind::Lance => 4,
            Kind::Knight => 4,
            Kind::Silver => 4,
            Kind::Gold => 4,
            Kind::Bishop => 2,
            Kind::Rook => 2,
            _ => 2,
        }
    }
}

/// Kinds with the same index are the same kind.
pub proof fn lemma_index_injective(a: Kind, b: Kind)
    requires
        a.spec_index() == b.spec_index(),
    ensures
        a == b,
{
}

/// Promoting then unpromoting gives back the kind, and the other way round.
pub proof fn lemma_promote_unpromote(k: Kind)
    ensures
        k.spec_promote() matches Some(p) ==> p.spec_unpromote() == Some(k),
        k.spec_unpromote() matches Some(u) ==> u.spec_promote() == Some(k),
        k.spec_maybe_unpromote().spec_is_hand_piece() || k.spec_maybe_unpromote() == Kind::King,
{
}

} // verus!
