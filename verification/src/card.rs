//! Card identity: the bijection between a semantic card (suit and rank) or
//! zone sentinel and the small dense ordinal that every other component
//! stores and compares.

use vstd::prelude::*;

verus! {

// Numeric ranges allocated to each category of card.
pub const EVERY_BASE: u8 = 0;

pub const CARDS_BASE: u8 = EVERY_BASE;
pub const WANDS_BASE: u8 = CARDS_BASE;
pub const WANDS_COUNT: u8 = 12;
pub const WANDS_HIGH: u8 = WANDS_BASE + WANDS_COUNT - 1;
pub const STARS_BASE: u8 = WANDS_HIGH + 1;
pub const STARS_COUNT: u8 = 12;
pub const STARS_HIGH: u8 = STARS_BASE + STARS_COUNT - 1;
pub const SWRDS_BASE: u8 = STARS_HIGH + 1;
pub const SWRDS_COUNT: u8 = 12;
pub const SWRDS_HIGH: u8 = SWRDS_BASE + SWRDS_COUNT - 1;
pub const CUUPS_BASE: u8 = SWRDS_HIGH + 1;
pub const CUUPS_COUNT: u8 = 12;
pub const CUUPS_HIGH: u8 = CUUPS_BASE + CUUPS_COUNT - 1;
pub const MAGIC_BASE: u8 = CUUPS_HIGH + 1;
pub const MAGIC_COUNT: u8 = 22;
pub const MAGIC_HIGH: u8 = MAGIC_BASE + MAGIC_COUNT - 1;
pub const CARDS_HIGH: u8 = MAGIC_HIGH;
pub const CARDS_COUNT: u8 = CARDS_HIGH - CARDS_BASE + 1;

pub const OTHER_BASE: u8 = CARDS_HIGH + 1;
pub const TABLE_BYTE: u8 = OTHER_BASE;
pub const FREEC_BYTE: u8 = TABLE_BYTE + 1;
pub const FOUND_BYTE: u8 = FREEC_BYTE + 1;
pub const MAJHI_BYTE: u8 = FOUND_BYTE + 1;
pub const NOCRD_BYTE: u8 = MAJHI_BYTE + 1;
pub const OTHER_HIGH: u8 = NOCRD_BYTE;
pub const OTHER_COUNT: u8 = OTHER_HIGH - OTHER_BASE + 1;

pub const EVERY_HIGH: u8 = OTHER_HIGH;
pub const EVERY_COUNT: u8 = EVERY_HIGH - EVERY_BASE + 1;

/// Packed single-byte representation of a card, or of one of the zone
/// sentinels needed by the algorithms.
#[derive(Debug, Clone, Copy, Hash, PartialEq, Eq, Structural, PartialOrd, Ord)]
pub struct C(pub u8);

impl Default for C {
    /// The no-card sentinel.
    fn default() -> (r: Self)
        ensures
            r == C(NOCRD_BYTE),
    {
        C(NOCRD_BYTE)
    }
}

#[derive(Debug, Clone, Copy, Hash, PartialEq, Eq, Structural, PartialOrd, Ord)]
pub enum Suit {
    Wands,
    Stars,
    Swrds,
    Cuups,
    Magic,
}

/// Unpacked information for a card value or card state.
#[derive(Debug, Clone, Copy, Hash, PartialEq, Eq, Structural, PartialOrd, Ord)]
pub enum CardInfo {
    Card(Suit, u8),
    Tableau,
    Freecell,
    Foundation,
    DownFoundn,
    NoCard,
}

/// Position of a suit in suit-major ordering; also the index of its
/// ascending foundation.
pub open spec fn suit_index(s: Suit) -> int {
    match s {
        Suit::Wands => 0,
        Suit::Stars => 1,
        Suit::Swrds => 2,
        Suit::Cuups => 3,
        Suit::Magic => 4,
    }
}

/// First ordinal of a suit's rank range.
pub open spec fn suit_base(s: Suit) -> int {
    match s {
        Suit::Wands => WANDS_BASE as int,
        Suit::Stars => STARS_BASE as int,
        Suit::Swrds => SWRDS_BASE as int,
        Suit::Cuups => CUUPS_BASE as int,
        Suit::Magic => MAGIC_BASE as int,
    }
}

/// Lowest rank a suit contains (minor suits have no rank below 2).
pub open spec fn suit_min_rank(s: Suit) -> int {
    if s is Magic {
        0
    } else {
        2
    }
}

/// Highest rank a suit contains.
pub open spec fn suit_max_rank(s: Suit) -> int {
    if s is Magic {
        21
    } else {
        13
    }
}

/// Ordinals `0 ..= CARDS_HIGH` denote real cards; the rest are sentinels.
pub open spec fn is_card_ord(o: int) -> bool {
    0 <= o <= CARDS_HIGH as int
}

/// The ordinal a card of suit `s` and rank `r` packs to.
pub open spec fn pack_ord(s: Suit, r: int) -> int {
    suit_base(s) + (r - suit_min_rank(s))
}

/// The suit of a real-card ordinal.
pub open spec fn ord_suit(o: int) -> Suit {
    if o <= WANDS_HIGH as int {
        Suit::Wands
    } else if o <= STARS_HIGH as int {
        Suit::Stars
    } else if o <= SWRDS_HIGH as int {
        Suit::Swrds
    } else if o <= CUUPS_HIGH as int {
        Suit::Cuups
    } else {
        Suit::Magic
    }
}

/// The rank of a real-card ordinal.
pub open spec fn ord_rank(o: int) -> int {
    o - suit_base(ord_suit(o)) + suit_min_rank(ord_suit(o))
}

/// Total unpacking over the declared ordinal space.
pub open spec fn info_of(o: int) -> CardInfo {
    if is_card_ord(o) {
        CardInfo::Card(ord_suit(o), ord_rank(o) as u8)
    } else if o == TABLE_BYTE as int {
        CardInfo::Tableau
    } else if o == FREEC_BYTE as int {
        CardInfo::Freecell
    } else if o == FOUND_BYTE as int {
        CardInfo::Foundation
    } else if o == MAJHI_BYTE as int {
        CardInfo::DownFoundn
    } else {
        CardInfo::NoCard
    }
}

impl Suit {
    pub fn is_minor(&self) -> (r: bool)
        ensures
            r == !(*self is Magic),
    {
        match self {
            Suit::Wands => true,
            Suit::Stars => true,
            Suit::Swrds => true,
            Suit::Cuups => true,
            Suit::Magic => false,
        }
    }

    /// Executable counterpart of `suit_index`.
    pub fn index(&self) -> (i: usize)
        ensures
            i == suit_index(*self),
    {
        match self {
            Suit::Wands => 0,
            Suit::Stars => 1,
            Suit::Swrds => 2,
            Suit::Cuups => 3,
            Suit::Magic => 4,
        }
    }
}

impl CardInfo {
    /// A description is in the declared space when a card's rank lies in its
    /// suit's range; sentinel descriptions always are.
    pub open spec fn valid(self) -> bool {
        match self {
            CardInfo::Card(s, r) => suit_min_rank(s) <= r as int <= suit_max_rank(s),
            _ => true,
        }
    }

    /// The ordinal this description packs to.
    pub open spec fn pack_spec(self) -> int {
        match self {
            CardInfo::Card(s, r) => pack_ord(s, r as int),
            CardInfo::Tableau => TABLE_BYTE as int,
            CardInfo::Freecell => FREEC_BYTE as int,
            CardInfo::Foundation => FOUND_BYTE as int,
            CardInfo::DownFoundn => MAJHI_BYTE as int,
            CardInfo::NoCard => NOCRD_BYTE as int,
        }
    }

    pub fn is_card(&self) -> (r: bool)
        ensures
            r == (*self is Card),
    {
        match self {
            CardInfo::Card(_, _) => true,
            _ => false,
        }
    }

    pub fn card_suit(&self) -> (s: Suit)
        requires
            *self is Card,
        ensures
            s == self->Card_0,
    {
        match self {
            CardInfo::Card(suit, _) => *suit,
            _ => vstd::pervasive::unreached(),
        }
    }

    pub fn card_rank(&self) -> (r: u8)
        requires
            *self is Card,
        ensures
            r == self->Card_1,
    {
        match self {
            CardInfo::Card(_, rank) => *rank,
            _ => vstd::pervasive::unreached(),
        }
    }

    /// Packs a description into its ordinal; only descriptions in the
    /// declared space have one.
    pub fn pack(self) -> (c: C)
        requires
            self.valid(),
        ensures
            c.0 as int == self.pack_spec(),
            info_of(c.0 as int) == self,
    {
        let b: u8 = match self {
            CardInfo::Card(Suit::Wands, rank) => WANDS_BASE + (rank - 2),
            CardInfo::Card(Suit::Stars, rank) => STARS_BASE + (rank - 2),
            CardInfo::Card(Suit::Swrds, rank) => SWRDS_BASE + (rank - 2),
            CardInfo::Card(Suit::Cuups, rank) => CUUPS_BASE + (rank - 2),
            CardInfo::Card(Suit::Magic, rank) => MAGIC_BASE + rank,
            CardInfo::Tableau => TABLE_BYTE,
            CardInfo::Freecell => FREEC_BYTE,
            CardInfo::DownFoundn => MAJHI_BYTE,
            CardInfo::Foundation => FOUND_BYTE,
            CardInfo::NoCard => NOCRD_BYTE,
        };
        C(b)
    }
}

impl C {
    /// Unpacks an ordinal; only ordinals in the declared space unpack.
    pub fn info(self) -> (i: CardInfo)
        requires
            self.0 <= EVERY_HIGH,
        ensures
            i == info_of(self.0 as int),
            i.valid(),
    {
        if self.0 <= WANDS_HIGH {
            CardInfo::Card(Suit::Wands, self.0 + 2 - WANDS_BASE)
        } else if self.0 <= STARS_HIGH {
            CardInfo::Card(Suit::Stars, self.0 + 2 - STARS_BASE)
        } else if self.0 <= SWRDS_HIGH {
            CardInfo::Card(Suit::Swrds, self.0 + 2 - SWRDS_BASE)
        } else if self.0 <= CUUPS_HIGH {
            CardInfo::Card(Suit::Cuups, self.0 + 2 - CUUPS_BASE)
        } else if self.0 <= MAGIC_HIGH {
            CardInfo::Card(Suit::Magic, self.0 - MAGIC_BASE)
        } else if self.0 == TABLE_BYTE {
            CardInfo::Tableau
        } else if self.0 == FREEC_BYTE {
            CardInfo::Freecell
        } else if self.0 == MAJHI_BYTE {
            CardInfo::DownFoundn
        } else if self.0 == FOUND_BYTE {
            CardInfo::Foundation
        } else {
            CardInfo::NoCard
        }
    }
}

/// Unpack-then-pack is the identity over the declared ordinal space.
pub proof fn lemma_unpack_pack(o: int)
    requires
        0 <= o <= EVERY_HIGH as int,
    ensures
        info_of(o).valid(),
        info_of(o).pack_spec() == o,
{
}

/// Pack-then-unpack is the identity over the declared descriptions.
pub proof fn lemma_pack_unpack(ci: CardInfo)
    requires
        ci.valid(),
    ensures
        0 <= ci.pack_spec() <= EVERY_HIGH as int,
        info_of(ci.pack_spec()) == ci,
{
}

} // verus!
