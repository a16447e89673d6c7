use vstd::prelude::*;
use vstd::string::{StrSliceExecFns, StringExecFns};

use crate::observed::VariableId;
use crate::piece::{all_kinds, spec_kind_of, Color, Kind};
use crate::problem::{VariableProblem, VariableSpec};
use crate::rule::{HandVariableMode, MateRule};
use crate::square::Square;
use crate::text::{decimal, push_decimal};
use crate::world::VariableLocation;

verus! {

/// A side as written in a problem document.
#[derive(Clone, Copy, Debug, PartialEq, Eq, Structural)]
pub enum DocumentColor {
    Black,
    White,
}

/// A variable piece as written in a problem document: on a square written
/// as two digits, or in hand; its candidates as kind codes, all kinds when
/// absent.
#[derive(Clone, Debug)]
pub struct VariableDocument {
    pub id: u16,
    pub color: DocumentColor,
    pub square: Option<String>,
    pub in_hand: bool,
    pub candidates: Option<Vec<String>>,
}

/// A problem document: the base SFEN, the number of plies, the rule and hand
/// mode when given, and the variable pieces.
#[derive(Clone, Debug)]
pub struct ProblemDocument {
    pub base_sfen: String,
    pub plies: usize,
    pub rule: Option<MateRule>,
    pub hand_variable_mode: Option<HandVariableMode>,
    pub variables: Vec<VariableDocument>,
}

/// What is wrong with a problem document.
#[derive(Clone, Debug, PartialEq, Eq)]
pub enum DocumentError {
    /// A square that is not two digits from 1 to 9.
    BadSquare(String),
    /// A kind code that names no kind.
    UnknownKind(String),
    /// A variable piece both on a square and in hand.
    BothPlaces(u16),
    /// A variable piece neither on a square nor in hand.
    NoPlace(u16),
}

/// The message of a document error.
pub open spec fn document_error_text(e: DocumentError) -> Seq<char> {
    match e {
        DocumentError::BadSquare(v) => "マス `"@ + v@ + "` は11から99までの2桁で指定してください"@,
        DocumentError::UnknownKind(v) => "未知の駒種 `"@ + v@ + "` です"@,
        DocumentError::BothPlaces(id) => "覆面駒V"@ + decimal(id as nat) + "にsquareとinHandの両方が指定されています"@,
        DocumentError::NoPlace(id) => "覆面駒V"@ + decimal(id as nat) + "の配置場所が指定されていません"@,
    }
}

impl DocumentError {
    /// The message of this error.
    pub fn to_string(&self) -> (r: String)
        ensures
            r@ == document_error_text(*self),
    {
        let mut s = String::new();
        match self {
            DocumentError::BadSquare(v) => {
                s.append("マス `");
                s.append(v.as_str());
                s.append("` は11から99までの2桁で指定してください");
            },
            DocumentError::UnknownKind(v) => {
                s.append("未知の駒種 `");
                s.append(v.as_str());
                s.append("` です");
            },
            DocumentError::BothPlaces(id) => {
                s.append("覆面駒V");
                push_decimal(&mut s, *id as u64);
                s.append("にsquareとinHandの両方が指定されています");
            },
            DocumentError::NoPlace(id) => {
                s.append("覆面駒V");
                push_decimal(&mut s, *id as u64);
                s.append("の配置場所が指定されていません");
            },
        }
        s
    }
}

/// A digit from 1 to 9, as its value less one.
pub open spec fn digit_index(c: char) -> Option<int> {
    if '1' <= c <= '9' {
        Some(c as int - '1' as int)
    } else {
        None
    }
}

/// The square written as file then rank, as `64`.
pub open spec fn square_of_text(t: Seq<char>) -> Option<(int, int)> {
    if t.len() != 2 {
        None
    } else {
        match (digit_index(t[0]), digit_index(t[1])) {
            (Some(f), Some(r)) => Some((f, r)),
            _ => None,
        }
    }
}

/// Reads a square written as file then rank, `11` to `99`.
pub fn parse_square(value: &String) -> (r: Option<Square>)
    ensures
        match square_of_text(value@) {
            Some((f, rank)) => r matches Some(sq) && sq.wf() && sq.spec_col() == f && sq.spec_row() == rank,
            None => r is None,
        },
{
    let s = value.as_str();
    if s.unicode_len() != 2 {
        return None;
    }
    let a = s.get_char(0);
    let b = s.get_char(1);
    if !('1' <= a && a <= '9') || !('1' <= b && b <= '9') {
        return None;
    }
    Some(Square::new((a as u32 - '1' as u32) as usize, (b as u32 - '1' as u32) as usize))
}

/// A character with a lowercase ASCII letter made uppercase.
pub open spec fn upper(c: char) -> char {
    if 'a' <= c <= 'z' {
        ((c as int) - 32) as char
    } else {
        c
    }
}

/// The kind of an uppercase letter of the codes `P L N S G B R K`.
pub open spec fn letter_kind(c: char) -> Option<Kind> {
    if c == 'P' {
        Some(Kind::Pawn)
    } else if c == 'L' {
        Some(Kind::Lance)
    } else if c == 'N' {
        Some(Kind::Knight)
    } else if c == 'S' {
        Some(Kind::Silver)
    } else if c == 'G' {
        Some(Kind::Gold)
    } else if c == 'B' {
        Some(Kind::Bishop)
    } else if c == 'R' {
        Some(Kind::Rook)
    } else if c == 'K' {
        Some(Kind::King)
    } else {
        None
    }
}

/// The kind of a code `P L N S G B R K +P +L +N +S +B +R`, letters in
/// either case.
pub open spec fn kind_of_code(t: Seq<char>) -> Option<Kind> {
    if t.len() == 1 {
        letter_kind(upper(t[0]))
    } else if t.len() == 2 && t[0] == '+' {
        match letter_kind(upper(t[1])) {
            Some(k) => if k.spec_can_promote() {
                k.spec_promote()
            } else {
                None
            },
            None => None,
        }
    } else {
        None
    }
}

fn upper_exec(c: char) -> (r: char)
    ensures
        r == upper(c),
{
    if 'a' <= c && c <= 'z' {
        ((c as u32) - 32) as u8 as char
    } else {
        c
    }
}

fn letter_kind_exec(c: char) -> (r: Option<Kind>)
    ensures
        r == letter_kind(c),
{
    if c == 'P' {
        Some(Kind::Pawn)
    } else if c == 'L' {
        Some(Kind::Lance)
    } else if c == 'N' {
        Some(Kind::Knight)
    } else if c == 'S' {
        Some(Kind::Silver)
    } else if c == 'G' {
        Some(Kind::Gold)
    } else if c == 'B' {
        Some(Kind::Bishop)
    } else if c == 'R' {
        Some(Kind::Rook)
    } else if c == 'K' {
        Some(Kind::King)
    } else {
        None
    }
}

/// Reads a kind code.
pub fn parse_kind(value: &String) -> (r: Option<Kind>)
    ensures
        r == kind_of_code(value@),
{
    let s = value.as_str();
    let n = s.unicode_len();
    if n == 1 {
        letter_kind_exec(upper_exec(s.get_char(0)))
    } else if n == 2 && s.get_char(0) == '+' {
        match letter_kind_exec(upper_exec(s.get_char(1))) {
            Some(k) => if k.can_promote() {
                k.promote()
            } else {
                None
            },
            None => None,
        }
    } else {
        None
    }
}

} // verus!

verus! {

/// The side of a document color.
pub open spec fn side(c: DocumentColor) -> Color {
    match c {
        DocumentColor::Black => Color::Black,
        DocumentColor::White => Color::White,
    }
}

/// The kinds of a list of codes, or the first code that names none.
pub open spec fn kinds_of_codes(codes: Seq<String>) -> Result<Seq<Kind>, Seq<char>>
    decreases codes.len(),
{
    if codes.len() == 0 {
        Ok(Seq::empty())
    } else {
        match kinds_of_codes(codes.drop_last()) {
            Err(e) => Err(e),
            Ok(ks) => match kind_of_code(codes.last()@) {
                Some(k) => Ok(ks.push(k)),
                None => Err(codes.last()@),
            },
        }
    }
}

/// All fourteen kinds in index order.
pub open spec fn every_kind() -> Seq<Kind> {
    Seq::new(14, |i: int| spec_kind_of(i))
}

/// The entry `d` reads as `r`: the kind codes read (all kinds when none are
/// given), then the place, on the square given or in the side's hand; or
/// the first bad kind code, the bad square, both places or none.
pub open spec fn reads_as(d: VariableDocument, r: Result<VariableSpec, DocumentError>) -> bool {
    match r {
        Ok(s) => {
            &&& s.id == VariableId(d.id)
            &&& s.color == side(d.color)
            &&& match d.candidates {
                Some(codes) => kinds_of_codes(codes@) == Ok::<Seq<Kind>, Seq<char>>(s.candidates@),
                None => s.candidates@ == every_kind(),
            }
            &&& match (d.square, d.in_hand) {
                (Some(t), false) => square_of_text(t@) matches Some((f, rank)) && (s.location matches VariableLocation::Board(sq)
                    && sq.wf() && sq.spec_col() == f && sq.spec_row() == rank),
                (None, true) => s.location == VariableLocation::Hand(side(d.color)),
                _ => false,
            }
        },
        Err(e) => match d.candidates {
            Some(codes) if kinds_of_codes(codes@) is Err => (e matches DocumentError::UnknownKind(t)
                && Err::<Seq<Kind>, Seq<char>>(t@) == kinds_of_codes(codes@)),
            _ => match (d.square, d.in_hand) {
                (Some(t), false) => square_of_text(t@) is None && (e matches DocumentError::BadSquare(u) && u@ == t@),
                (Some(_), true) => e == DocumentError::BothPlaces(d.id),
                (None, false) => e == DocumentError::NoPlace(d.id),
                (None, true) => false,
            },
        },
    }
}

/// The entry can be read: its kind codes name kinds, and it has exactly one
/// place, a valid square or the hand.
pub open spec fn readable(d: VariableDocument) -> bool {
    &&& match d.candidates {
        Some(codes) => kinds_of_codes(codes@) is Ok,
        None => true,
    }
    &&& match (d.square, d.in_hand) {
        (Some(t), false) => square_of_text(t@) is Some,
        (None, true) => true,
        _ => false,
    }
}

/// The index of the first entry, from `i` on, that cannot be read.
pub open spec fn first_unreadable(ds: Seq<VariableDocument>, i: int) -> Option<int>
    decreases ds.len() - i,
{
    if i < 0 || i >= ds.len() {
        None
    } else if !readable(ds[i]) {
        Some(i)
    } else {
        first_unreadable(ds, i + 1)
    }
}

impl VariableDocument {
    /// The variable piece this entry describes: the kind codes read (all
    /// kinds when none are given), then the place, on the square given or
    /// in the side's hand.
    pub fn into_spec(self) -> (r: Result<VariableSpec, DocumentError>)
        ensures
            reads_as(self, r),
            r is Ok <==> readable(self),
    {
        let candidates = match &self.candidates {
            Some(codes) => {
                let mut ks: Vec<Kind> = Vec::new();
                let mut i: usize = 0;
                while i < codes.len()
                    invariant
                        i <= codes@.len(),
                        self.candidates == Some(*codes),
                        kinds_of_codes(codes@.take(i as int)) == Ok::<Seq<Kind>, Seq<char>>(ks@),
                    decreases codes@.len() - i,
                {
                    proof {
                        assert(codes@.take(i + 1).drop_last() =~= codes@.take(i as int));
                        assert(codes@.take(i + 1).last() == codes@[i as int]);
                    }
                    match parse_kind(&codes[i]) {
                        Some(k) => {
                            ks.push(k);
                        },
                        None => {
                            proof {
                                lemma_codes_err(codes@, i as int + 1);
                            }
                            return Err(DocumentError::UnknownKind(codes[i].clone()));
                        },
                    }
                    i = i + 1;
                }
                proof {
                    assert(codes@.take(codes@.len() as int) =~= codes@);
                }
                ks
            },
            None => {
                let ks = all_kinds();
                proof {
                    assert(ks@ =~= every_kind());
                }
                ks
            },
        };
        let color = match self.color {
            DocumentColor::Black => Color::Black,
            DocumentColor::White => Color::White,
        };
        let location = match (&self.square, self.in_hand) {
            (Some(t), false) => match parse_square(t) {
                Some(sq) => VariableLocation::Board(sq),
                None => {
                    return Err(DocumentError::BadSquare(t.clone()));
                },
            },
            (None, true) => VariableLocation::Hand(color),
            (Some(_), true) => {
                return Err(DocumentError::BothPlaces(self.id));
            },
            (None, false) => {
                return Err(DocumentError::NoPlace(self.id));
            },
        };
        Ok(VariableSpec { id: VariableId(self.id), color, location, candidates })
    }
}

/// Once one code names no kind, the reading fails with the first such code.
proof fn lemma_codes_err(codes: Seq<String>, n: int)
    requires
        1 <= n <= codes.len(),
        kinds_of_codes(codes.take(n)) is Err,
    ensures
        kinds_of_codes(codes) == kinds_of_codes(codes.take(n)),
    decreases codes.len() - n,
{
    if n < codes.len() {
        assert(codes.take(n + 1).drop_last() =~= codes.take(n));
        lemma_codes_err(codes, n + 1);
    } else {
        assert(codes.take(n) =~= codes);
    }
}

/// Index of the first space of `s` at or after `i`.
pub open spec fn first_space(s: Seq<char>, i: int) -> Option<int>
    decreases s.len() - i,
{
    if i < 0 || i >= s.len() {
        None
    } else if s[i] == ' ' {
        Some(i)
    } else {
        first_space(s, i + 1)
    }
}

/// The SFEN text with the side to move, the field after the first space,
/// set to `turn`; unchanged when there is no such field.
pub open spec fn with_turn(s: Seq<char>, turn: Color) -> Seq<char> {
    match first_space(s, 0) {
        Some(k) => if k + 1 < s.len() {
            s.subrange(0, k + 1) + seq![if turn == Color::Black { 'b' } else { 'w' }] + s.subrange(k + 2, s.len() as int)
        } else {
            s
        },
        None => s,
    }
}

/// The SFEN text with the side to move set to `turn`.
pub fn sfen_with_turn(sfen: &String, turn: Color) -> (r: String)
    ensures
        r@ == with_turn(sfen@, turn),
{
    let s = sfen.as_str();
    let n = s.unicode_len();
    let mut k: usize = 0;
    while k < n && s.get_char(k) != ' '
        invariant
            k <= n,
            n == s@.len(),
            s@ == sfen@,
            first_space(sfen@, 0) == first_space(sfen@, k as int),
        decreases n - k,
    {
        k = k + 1;
    }
    if n - k <= 1 {
        return sfen.clone();
    }
    let mut r = String::new();
    r.append(s.substring_char(0, k + 1));
    if turn.is_black() {
        r.append("b");
    } else {
        r.append("w");
    }
    r.append(s.substring_char(k + 2, n));
    proof {
        reveal_strlit("b");
        reveal_strlit("w");
        assert(r@ =~= with_turn(sfen@, turn));
    }
    r
}

impl ProblemDocument {
    /// The problem and hand mode of the document: the rule defaults to the
    /// helpmate and the hand mode to indistinguishable pieces; the side to
    /// move is set so that the last of `plies` moves falls on the rule's
    /// terminal turn.
    pub fn into_problem_with_hand_variable_mode(self) -> (r: Result<(VariableProblem, HandVariableMode), DocumentError>)
        ensures
            match r {
                Ok((p, mode)) => {
                    let rule = match self.rule {
                        Some(x) => x,
                        None => MateRule::Helpmate,
                    };
                    &&& p.rule == rule
                    &&& mode == match self.hand_variable_mode {
                        Some(m) => m,
                        None => HandVariableMode::Indistinguishable,
                    }
                    &&& p.base_sfen@ == with_turn(self.base_sfen@, rule.spec_initial_turn(self.plies as nat))
                    &&& first_unreadable(self.variables@, 0) is None
                    &&& p.variables@.len() == self.variables@.len()
                    &&& forall|i: int| 0 <= i < p.variables@.len() ==> reads_as(
                        #[trigger] self.variables@[i],
                        Ok::<VariableSpec, DocumentError>(p.variables@[i]),
                    )
                },
                Err(e) => first_unreadable(self.variables@, 0) matches Some(i) && reads_as(
                    self.variables@[i],
                    Err::<VariableSpec, DocumentError>(e),
                ),
            },
    {
        let rule = match self.rule {
            Some(x) => x,
            None => MateRule::Helpmate,
        };
        let mode = match self.hand_variable_mode {
            Some(m) => m,
            None => HandVariableMode::Indistinguishable,
        };
        let base_sfen = sfen_with_turn(&self.base_sfen, rule.initial_turn(self.plies));
        let ghost ds = self.variables@;
        let ghost n = ds.len();
        let mut variables: Vec<VariableSpec> = Vec::new();
        let mut docs = self.variables;
        let mut rev: Vec<VariableDocument> = Vec::new();
        while docs.len() > 0
            invariant
                docs@.len() + rev@.len() == n,
                n == ds.len(),
                ds == self.variables@,
                forall|j: int| 0 <= j < docs@.len() ==> #[trigger] docs@[j] == ds[j],
                forall|j: int| 0 <= j < rev@.len() ==> #[trigger] rev@[j] == ds[n - 1 - j],
            decreases docs@.len(),
        {
            let ghost before = docs@;
            let d = docs.pop().unwrap();
            assert(d == ds[docs@.len() as int]);
            rev.push(d);
            proof {
                assert forall|j: int| 0 <= j < docs@.len() implies #[trigger] docs@[j] == ds[j] by {
                    assert(docs@[j] == before[j]);
                }
            }
        }
        while rev.len() > 0
            invariant
                variables@.len() + rev@.len() == n,
                n == ds.len(),
                ds == self.variables@,
                forall|j: int| 0 <= j < rev@.len() ==> #[trigger] rev@[j] == ds[n - 1 - j],
                first_unreadable(ds, 0) == first_unreadable(ds, variables@.len() as int),
                forall|i: int| 0 <= i < variables@.len() ==> reads_as(#[trigger] ds[i], Ok::<VariableSpec, DocumentError>(variables@[i])),
            decreases rev@.len(),
        {
            let ghost k = variables@.len() as int;
            let d = rev.pop().unwrap();
            assert(d == ds[k]);
            match d.into_spec() {
                Ok(s) => {
                    let ghost before = variables@;
                    variables.push(s);
                    proof {
                        assert forall|i: int| 0 <= i < variables@.len() implies reads_as(
                            #[trigger] ds[i],
                            Ok::<VariableSpec, DocumentError>(variables@[i]),
                        ) by {
                            if i < k {
                                assert(variables@[i] == before[i]);
                            }
                        }
                    }
                },
                Err(e) => {
                    return Err(e);
                },
            }
        }
        Ok((VariableProblem { base_sfen, variables, rule }, mode))
    }

    /// The problem of the document and its number of plies.
    pub fn into_problem(self) -> (r: Result<(VariableProblem, usize), DocumentError>)
        ensures
            match r {
                Ok((p, plies)) => {
                    let rule = match self.rule {
                        Some(x) => x,
                        None => MateRule::Helpmate,
                    };
                    &&& plies == self.plies
                    &&& p.rule == rule
                    &&& p.base_sfen@ == with_turn(self.base_sfen@, rule.spec_initial_turn(self.plies as nat))
                    &&& first_unreadable(self.variables@, 0) is None
                    &&& p.variables@.len() == self.variables@.len()
                    &&& forall|i: int| 0 <= i < p.variables@.len() ==> reads_as(
                        #[trigger] self.variables@[i],
                        Ok::<VariableSpec, DocumentError>(p.variables@[i]),
                    )
                },
                Err(e) => first_unreadable(self.variables@, 0) matches Some(i) && reads_as(
                    self.variables@[i],
                    Err::<VariableSpec, DocumentError>(e),
                ),
            },
    {
        let plies = self.plies;
        match self.into_problem_with_hand_variable_mode() {
            Ok((p, _)) => Ok((p, plies)),
            Err(e) => Err(e),
        }
    }
}

} // verus!
