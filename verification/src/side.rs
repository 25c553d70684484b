use vstd::prelude::*;

verus! {

/// Side of an order.
#[derive(Copy, Clone, Debug, PartialEq, Eq, Structural)]
pub enum Side {
    Buy,
    Sell,
}

/// The side that a character token denotes: `B` for buy, `S` for sell.
pub open spec fn side_of_char(c: char) -> Option<Side> {
    if c == 'B' {
        Some(Side::Buy)
    } else if c == 'S' {
        Some(Side::Sell)
    } else {
        None
    }
}

/// The opposite side.
pub open spec fn flip(s: Side) -> Side {
    match s {
        Side::Buy => Side::Sell,
        Side::Sell => Side::Buy,
    }
}

/// The character that renders a side.
pub open spec fn char_of_side(s: Side) -> char {
    match s {
        Side::Buy => 'B',
        Side::Sell => 'S',
    }
}

impl Side {
    /// Reads a side from its character token; any other character gives `None`.
    pub fn new(side: char) -> (r: Option<Side>)
        ensures
            r == side_of_char(side),
    {
        match side {
            'B' => Some(Side::Buy),
            'S' => Some(Side::Sell),
            _ => None,
        }
    }

    /// Reads a side from a character that is known to denote one.
    pub fn from(side: char) -> (r: Side)
        requires
            side_of_char(side).is_some(),
        ensures
            Some(r) == side_of_char(side),
    {
        match side {
            'B' => Side::Buy,
            _ => Side::Sell,
        }
    }

    /// The opposite side.
    pub fn opposite(self) -> (r: Side)
        ensures
            r == flip(self),
    {
        match self {
            Side::Buy => Side::Sell,
            Side::Sell => Side::Buy,
        }
    }

    /// The character that renders this side.
    pub fn to_char(self) -> (r: char)
        ensures
            r == char_of_side(self),
    {
        match self {
            Side::Buy => 'B',
            Side::Sell => 'S',
        }
    }

    /// The side rendered as text, `"B"` or `"S"`.
    pub fn to_string(self) -> (r: String)
        ensures
            r@ == seq![char_of_side(self)],
    {
        let r = match self {
            Side::Buy => "B".to_owned(),
            Side::Sell => "S".to_owned(),
        };
        proof {
            reveal_strlit("B");
            reveal_strlit("S");
            assert(r@ =~= seq![char_of_side(self)]);
        }
        r
    }
}

impl core::ops::Not for Side {
    type Output = Side;

    fn not(self) -> (r: Side) {
        self.opposite()
    }
}

impl vstd::std_specs::ops::NotSpecImpl for Side {
    open spec fn obeys_not_spec() -> bool {
        true
    }

    open spec fn not_req(self) -> bool {
        true
    }

    open spec fn not_spec(self) -> Side {
        flip(self)
    }
}

/// The complement is an involution that never fixes a side.
pub proof fn flip_involutive(s: Side)
    ensures
        flip(flip(s)) == s,
        flip(s) != s,
{
}

/// Rendering a side and reading it back gives the side again, and only the
/// two tokens read as a side.
pub proof fn char_round_trip(s: Side, c: char)
    ensures
        side_of_char(char_of_side(s)) == Some(s),
        side_of_char(c) == Some(s) ==> c == char_of_side(s),
{
}

} // verus!
