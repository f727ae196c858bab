//! Sets of token kinds.
use crate::lexer::TokenKind;
use vstd::prelude::*;

verus! {

/// The place of a kind in a set; the end of input (`None`) has one too.
pub open spec fn slot(kind: Option<TokenKind>) -> u64 {
    match kind {
        None => 0,
        Some(TokenKind::Comment) => 1,
        Some(TokenKind::String) => 2,
        Some(TokenKind::Integer) => 3,
        Some(TokenKind::Float) => 4,
        Some(TokenKind::Ident) => 5,
        Some(TokenKind::Symbol) => 6,
        Some(TokenKind::Comma) => 7,
        Some(TokenKind::Semicol) => 8,
        Some(TokenKind::Colon) => 9,
        Some(TokenKind::Assign) => 10,
        Some(TokenKind::KwLet) => 11,
        Some(TokenKind::KwEnd) => 12,
        Some(TokenKind::KwDo) => 13,
        Some(TokenKind::KwClass) => 14,
        Some(TokenKind::KwResp) => 15,
        Some(TokenKind::Field) => 16,
        Some(TokenKind::Send) => 17,
        Some(TokenKind::Pipe) => 18,
        Some(TokenKind::Lambda) => 19,
        Some(TokenKind::ThinArrow) => 20,
        Some(TokenKind::Add) => 21,
        Some(TokenKind::Sub) => 22,
        Some(TokenKind::Mul) => 23,
        Some(TokenKind::Div) => 24,
        Some(TokenKind::Eq) => 25,
        Some(TokenKind::Neq) => 26,
        Some(TokenKind::Lt) => 27,
        Some(TokenKind::Gt) => 28,
        Some(TokenKind::Ge) => 29,
        Some(TokenKind::Le) => 30,
        Some(TokenKind::RBracket) => 31,
        Some(TokenKind::LBracket) => 32,
        Some(TokenKind::RParen) => 33,
        Some(TokenKind::LParen) => 34,
        Some(TokenKind::Whitespace) => 35,
        Some(TokenKind::Newline) => 36,
        Some(TokenKind::Error) => 37,
    }
}

fn slot_of(kind: Option<TokenKind>) -> (place: u64)
    ensures
        place == slot(kind),
        place < 64,
{
    match kind {
        None => 0,
        Some(TokenKind::Comment) => 1,
        Some(TokenKind::String) => 2,
        Some(TokenKind::Integer) => 3,
        Some(TokenKind::Float) => 4,
        Some(TokenKind::Ident) => 5,
        Some(TokenKind::Symbol) => 6,
        Some(TokenKind::Comma) => 7,
        Some(TokenKind::Semicol) => 8,
        Some(TokenKind::Colon) => 9,
        Some(TokenKind::Assign) => 10,
        Some(TokenKind::KwLet) => 11,
        Some(TokenKind::KwEnd) => 12,
        Some(TokenKind::KwDo) => 13,
        Some(TokenKind::KwClass) => 14,
        Some(TokenKind::KwResp) => 15,
        Some(TokenKind::Field) => 16,
        Some(TokenKind::Send) => 17,
        Some(TokenKind::Pipe) => 18,
        Some(TokenKind::Lambda) => 19,
        Some(TokenKind::ThinArrow) => 20,
        Some(TokenKind::Add) => 21,
        Some(TokenKind::Sub) => 22,
        Some(TokenKind::Mul) => 23,
        Some(TokenKind::Div) => 24,
        Some(TokenKind::Eq) => 25,
        Some(TokenKind::Neq) => 26,
        Some(TokenKind::Lt) => 27,
        Some(TokenKind::Gt) => 28,
        Some(TokenKind::Ge) => 29,
        Some(TokenKind::Le) => 30,
        Some(TokenKind::RBracket) => 31,
        Some(TokenKind::LBracket) => 32,
        Some(TokenKind::RParen) => 33,
        Some(TokenKind::LParen) => 34,
        Some(TokenKind::Whitespace) => 35,
        Some(TokenKind::Newline) => 36,
        Some(TokenKind::Error) => 37,
    }
}

/// The kind whose place is `place`.
fn kind_of(place: u64) -> (kind: Option<TokenKind>)
    requires
        place < 38,
    ensures
        slot(kind) == place,
{
    match place {
        0 => None,
        1 => Some(TokenKind::Comment),
        2 => Some(TokenKind::String),
        3 => Some(TokenKind::Integer),
        4 => Some(TokenKind::Float),
        5 => Some(TokenKind::Ident),
        6 => Some(TokenKind::Symbol),
        7 => Some(TokenKind::Comma),
        8 => Some(TokenKind::Semicol),
        9 => Some(TokenKind::Colon),
        10 => Some(TokenKind::Assign),
        11 => Some(TokenKind::KwLet),
        12 => Some(TokenKind::KwEnd),
        13 => Some(TokenKind::KwDo),
        14 => Some(TokenKind::KwClass),
        15 => Some(TokenKind::KwResp),
        16 => Some(TokenKind::Field),
        17 => Some(TokenKind::Send),
        18 => Some(TokenKind::Pipe),
        19 => Some(TokenKind::Lambda),
        20 => Some(TokenKind::ThinArrow),
        21 => Some(TokenKind::Add),
        22 => Some(TokenKind::Sub),
        23 => Some(TokenKind::Mul),
        24 => Some(TokenKind::Div),
        25 => Some(TokenKind::Eq),
        26 => Some(TokenKind::Neq),
        27 => Some(TokenKind::Lt),
        28 => Some(TokenKind::Gt),
        29 => Some(TokenKind::Ge),
        30 => Some(TokenKind::Le),
        31 => Some(TokenKind::RBracket),
        32 => Some(TokenKind::LBracket),
        33 => Some(TokenKind::RParen),
        34 => Some(TokenKind::LParen),
        35 => Some(TokenKind::Whitespace),
        36 => Some(TokenKind::Newline),
        _ => Some(TokenKind::Error),
    }
}

pub open spec fn bit_set(bits: u64, place: u64) -> bool {
    bits & (1u64 << place) != 0
}

/// A set of token kinds, in which `None` stands for the end of input.
#[derive(Debug, Clone, Copy, PartialEq, Eq)]
pub struct KindSet {
    bits: u64,
}

impl View for KindSet {
    type V = Set<Option<TokenKind>>;

    closed spec fn view(&self) -> Set<Option<TokenKind>> {
        Set::new(|kind: Option<TokenKind>| bit_set(self.bits, slot(kind)))
    }
}

impl KindSet {
    /// The set without members.
    pub fn empty() -> (set: KindSet)
        ensures
            set@ == Set::<Option<TokenKind>>::empty(),
    {
        let set = KindSet { bits: 0 };
        proof {
            assert forall|kind: Option<TokenKind>| !bit_set(0, slot(kind)) by {
                let place = slot(kind);
                assert(0u64 & (1u64 << place) == 0) by (bit_vector);
            }
            assert(set@ =~= Set::<Option<TokenKind>>::empty());
        }
        set
    }

    /// The set whose one member is `kind`.
    pub fn only(kind: Option<TokenKind>) -> (set: KindSet)
        ensures
            set@ == Set::<Option<TokenKind>>::empty().insert(kind),
    {
        let place = slot_of(kind);
        let set = KindSet { bits: 1u64 << place };
        proof {
            assert forall|other: Option<TokenKind>| bit_set(1u64 << place, slot(other)) <==> other
                == kind by {
                let there = slot(other);
                assert(place < 64 && there < 64 ==> (((1u64 << place) & (1u64 << there) != 0) <==> place
                    == there)) by (bit_vector);
            }
            assert(set@ =~= Set::<Option<TokenKind>>::empty().insert(kind));
        }
        set
    }

    /// The members of either set.
    pub fn union(self, other: KindSet) -> (set: KindSet)
        ensures
            set@ == self@.union(other@),
    {
        let set = KindSet { bits: self.bits | other.bits };
        proof {
            let a = self.bits;
            let b = other.bits;
            assert forall|kind: Option<TokenKind>|
                bit_set(a | b, slot(kind)) <==> bit_set(a, slot(kind)) || bit_set(
                    b,
                    slot(kind),
                ) by {
                let place = slot(kind);
                assert((((a | b) & (1u64 << place)) != 0) <==> ((a & (1u64 << place)) != 0 || (b & (
                1u64 << place)) != 0)) by (bit_vector);
            }
            assert(set@ =~= self@.union(other@));
        }
        set
    }

    /// Whether `kind` is a member.
    pub fn contains(&self, kind: Option<TokenKind>) -> (found: bool)
        ensures
            found == self@.contains(kind),
    {
        let place = slot_of(kind);
        self.bits & (1u64 << place) != 0
    }

    /// The members, each once, in the order of their places: the end of
    /// input first, then the kinds as [`TokenKind`] lists them.
    pub fn to_vec(&self) -> (members: Vec<Option<TokenKind>>)
        ensures
            forall|kind: Option<TokenKind>| members@.contains(kind) <==> self@.contains(kind),
            forall|i: int, j: int|
                0 <= i < j < members@.len() ==> slot(#[trigger] members@[i]) < slot(
                    #[trigger] members@[j],
                ),
    {
        let mut members: Vec<Option<TokenKind>> = Vec::new();
        let mut place: u64 = 0;
        while place < 38
            invariant
                place <= 38,
                forall|i: int| 0 <= i < members@.len() ==> slot(#[trigger] members@[i]) < place,
                forall|i: int|
                    0 <= i < members@.len() ==> bit_set(self.bits, slot(#[trigger] members@[i])),
                forall|kind: Option<TokenKind>|
                    slot(kind) < place && bit_set(self.bits, #[trigger] slot(kind))
                        ==> members@.contains(kind),
                forall|i: int, j: int|
                    0 <= i < j < members@.len() ==> slot(#[trigger] members@[i]) < slot(
                        #[trigger] members@[j],
                    ),
            decreases 38 - place,
        {
            if self.bits & (1u64 << place) != 0 {
                let kind = kind_of(place);
                let ghost before = members@;
                members.push(kind);
                assert(members@[before.len() as int] == kind);
                assert forall|other: Option<TokenKind>|
                    slot(other) < place + 1 && bit_set(
                        self.bits,
                        #[trigger] slot(other),
                    ) implies members@.contains(other) by {
                    if slot(other) < place {
                        let i = choose|i: int| 0 <= i < before.len() && before[i] == other;
                        assert(members@[i] == other);
                    } else {
                        assert(other == kind);
                    }
                }
            }
            place += 1;
        }
        assert forall|kind: Option<TokenKind>| members@.contains(kind) <==> self@.contains(
            kind,
        ) by {
            if members@.contains(kind) {
                let i = choose|i: int| 0 <= i < members@.len() && members@[i] == kind;
                assert(bit_set(self.bits, slot(members@[i])));
            }
        }
        members
    }
}

} // verus!
