//! The closed keyword vocabularies a tag can be labelled with: `Kind` (the
//! Type keyword) and `Rarity` (the Classification keyword). Modelled as enums
//! rather than strings so the color rules are exhaustive and typo-proof.
//!
//! Each variant's `as_str()` is the exact spelling gd-filter.json uses, and is
//! the single source of truth for the keyword's text.

use vstd::prelude::*;
use crate::text::{chars_of, chars_eq};

verus! {

/// A tag's Type keyword.
#[derive(Debug, Clone, Copy, PartialEq, Eq, Structural, Hash)]
pub enum Kind {
    RegularItem,
    MiItem,
    Affix,
}

/// The spelling of a Type keyword.
pub open spec fn kind_name(k: Kind) -> Seq<char> {
    match k {
        Kind::RegularItem => "Regular Item"@,
        Kind::MiItem => "MI Item"@,
        Kind::Affix => "Affix"@,
    }
}

impl Kind {
    pub fn as_str(self) -> (s: &'static str)
        ensures
            s@ == kind_name(self),
    {
        match self {
            Kind::RegularItem => "Regular Item",
            Kind::MiItem => "MI Item",
            Kind::Affix => "Affix",
        }
    }
}

/// A tag's rarity, the value of the Classification keyword for items and
/// affixes. Variants are declared low-to-high, so the derived `Ord` is the
/// rarity rank.
#[derive(Debug, Clone, Copy, PartialEq, Eq, Structural, PartialOrd, Ord, Hash)]
pub enum Rarity {
    Broken,
    Common,
    Magical,
    Rare,
    Epic,
    Legendary,
}

/// The rank of a rarity, low to high (the order of declaration).
pub open spec fn rarity_rank(r: Rarity) -> nat {
    match r {
        Rarity::Broken => 0,
        Rarity::Common => 1,
        Rarity::Magical => 2,
        Rarity::Rare => 3,
        Rarity::Epic => 4,
        Rarity::Legendary => 5,
    }
}

/// The rarity of a given rank.
pub open spec fn rarity_of_rank(n: nat) -> Rarity {
    if n == 0 {
        Rarity::Broken
    } else if n == 1 {
        Rarity::Common
    } else if n == 2 {
        Rarity::Magical
    } else if n == 3 {
        Rarity::Rare
    } else if n == 4 {
        Rarity::Epic
    } else {
        Rarity::Legendary
    }
}

/// The spelling of a Classification keyword.
pub open spec fn rarity_name(r: Rarity) -> Seq<char> {
    match r {
        Rarity::Broken => "Broken"@,
        Rarity::Common => "Common"@,
        Rarity::Magical => "Magical"@,
        Rarity::Rare => "Rare"@,
        Rarity::Epic => "Epic"@,
        Rarity::Legendary => "Legendary"@,
    }
}

/// The rarity a raw `itemClassification` value names, if it is one we model.
pub open spec fn rarity_from_name(s: Seq<char>) -> Option<Rarity> {
    if s == "Broken"@ {
        Some(Rarity::Broken)
    } else if s == "Common"@ {
        Some(Rarity::Common)
    } else if s == "Magical"@ {
        Some(Rarity::Magical)
    } else if s == "Rare"@ {
        Some(Rarity::Rare)
    } else if s == "Epic"@ {
        Some(Rarity::Epic)
    } else if s == "Legendary"@ {
        Some(Rarity::Legendary)
    } else {
        None
    }
}

impl Rarity {
    pub fn as_str(self) -> (s: &'static str)
        ensures
            s@ == rarity_name(self),
    {
        match self {
            Rarity::Broken => "Broken",
            Rarity::Common => "Common",
            Rarity::Magical => "Magical",
            Rarity::Rare => "Rare",
            Rarity::Epic => "Epic",
            Rarity::Legendary => "Legendary",
        }
    }

    /// The rank of this rarity, low to high.
    pub fn rank(self) -> (n: u8)
        ensures
            n == rarity_rank(self),
    {
        match self {
            Rarity::Broken => 0,
            Rarity::Common => 1,
            Rarity::Magical => 2,
            Rarity::Rare => 3,
            Rarity::Epic => 4,
            Rarity::Legendary => 5,
        }
    }

    /// Parses a raw `itemClassification` DB value; `None` for rarities we
    /// don't model (so the caller skips that record rather than mislabel it).
    pub fn from_db(s: &str) -> (r: Option<Self>)
        ensures
            r == rarity_from_name(s@),
    {
        let v = chars_of(s);
        if chars_eq(v.as_slice(), chars_of("Broken").as_slice()) {
            Some(Rarity::Broken)
        } else if chars_eq(v.as_slice(), chars_of("Common").as_slice()) {
            Some(Rarity::Common)
        } else if chars_eq(v.as_slice(), chars_of("Magical").as_slice()) {
            Some(Rarity::Magical)
        } else if chars_eq(v.as_slice(), chars_of("Rare").as_slice()) {
            Some(Rarity::Rare)
        } else if chars_eq(v.as_slice(), chars_of("Epic").as_slice()) {
            Some(Rarity::Epic)
        } else if chars_eq(v.as_slice(), chars_of("Legendary").as_slice()) {
            Some(Rarity::Legendary)
        } else {
            None
        }
    }
}

/// Parsing the spelling of any rarity gives that rarity back.
pub proof fn lemma_rarity_name_round_trip(r: Rarity)
    ensures
        rarity_from_name(rarity_name(r)) == Some(r),
{
    reveal_strlit("Broken");
    reveal_strlit("Common");
    reveal_strlit("Magical");
    reveal_strlit("Rare");
    reveal_strlit("Epic");
    reveal_strlit("Legendary");
    // The six spellings differ in their first letter.
    assert("Broken"@[0] == 'B');
    assert("Common"@[0] == 'C');
    assert("Magical"@[0] == 'M');
    assert("Rare"@[0] == 'R');
    assert("Epic"@[0] == 'E');
    assert("Legendary"@[0] == 'L');
}

/// A value parses to a rarity exactly when it is that rarity's spelling.
pub proof fn lemma_rarity_from_name_exact(s: Seq<char>, r: Rarity)
    ensures
        rarity_from_name(s) == Some(r) <==> s == rarity_name(r),
{
    lemma_rarity_name_round_trip(r);
}

/// Rank and rarity correspond one to one.
pub proof fn lemma_rarity_rank(r: Rarity)
    ensures
        rarity_rank(r) < 6,
        rarity_of_rank(rarity_rank(r)) == r,
{
}

} // verus!
