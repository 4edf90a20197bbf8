//! Where a drop number came from, and the wire spellings of the item slots
//! and the mod verdicts the offer view carries.

use vstd::prelude::*;

verus! {

/// Where a number came from.
#[derive(Debug, Clone, Copy, PartialEq, Eq)]
pub enum Basis {
    /// Read off a page that states the number: the game's data.
    Measured {
        /// Who stated it and when.
        source: &'static str,
    },
    /// Somebody's estimate. Never treat as fact.
    Guess {
        /// Who guessed it and when.
        source: &'static str,
    },
}

impl Basis {
    /// Who stated or guessed the number, and the date it was read.
    pub fn source(self) -> (r: &'static str)
        ensures
            r == match self {
                Basis::Measured { source } => source,
                Basis::Guess { source } => source,
            },
    {
        match self {
            Basis::Measured { source } => source,
            Basis::Guess { source } => source,
        }
    }

    /// Whether this number is somebody's estimate rather than the game's data.
    pub fn is_guess(self) -> (r: bool)
        ensures
            r == (self is Guess),
    {
        match self {
            Basis::Guess { .. } => true,
            Basis::Measured { .. } => false,
        }
    }
}

/// An item class an architect's mod family can roll on.
#[derive(Debug, Clone, Copy, PartialEq, Eq, Structural)]
pub enum Slot {
    Helmet,
    BodyArmour,
    Gloves,
    Boots,
    Amulet,
    Ring,
    Belt,
    Shield,
    Weapon,
}

/// The stable wire spelling of an item slot.
pub open spec fn slot_wire(s: Slot) -> Seq<char> {
    match s {
        Slot::Helmet => "helmet"@,
        Slot::BodyArmour => "body_armour"@,
        Slot::Gloves => "gloves"@,
        Slot::Boots => "boots"@,
        Slot::Amulet => "amulet"@,
        Slot::Ring => "ring"@,
        Slot::Belt => "belt"@,
        Slot::Shield => "shield"@,
        Slot::Weapon => "weapon"@,
    }
}

impl Slot {
    /// The stable wire spelling used by the temple offer view.
    pub fn as_str(self) -> (r: &'static str)
        ensures
            r@ == slot_wire(self),
    {
        match self {
            Slot::Helmet => "helmet",
            Slot::BodyArmour => "body_armour",
            Slot::Gloves => "gloves",
            Slot::Boots => "boots",
            Slot::Amulet => "amulet",
            Slot::Ring => "ring",
            Slot::Belt => "belt",
            Slot::Shield => "shield",
            Slot::Weapon => "weapon",
        }
    }
}

/// Whether a mod family is one to chase, one to ignore, or neither: a verdict
/// on the family, not on this read's prices.
#[derive(Debug, Clone, Copy, PartialEq, Eq, Structural)]
pub enum Worth {
    /// Worth chasing.
    Good,
    /// Junk.
    Junk,
    /// Nobody has graded this family.
    Neutral,
}

/// The stable wire spelling of a verdict.
pub open spec fn worth_wire(w: Worth) -> Seq<char> {
    match w {
        Worth::Good => "good"@,
        Worth::Junk => "junk"@,
        Worth::Neutral => "neutral"@,
    }
}

impl Worth {
    /// The stable wire spelling used by the temple offer view.
    pub fn as_str(self) -> (r: &'static str)
        ensures
            r@ == worth_wire(self),
    {
        match self {
            Worth::Good => "good",
            Worth::Junk => "junk",
            Worth::Neutral => "neutral",
        }
    }
}

/// Different slots have different wire spellings, and so do different
/// verdicts.
pub proof fn lemma_wire_names_distinct(a: Slot, b: Slot, v: Worth, w: Worth)
    ensures
        a != b ==> slot_wire(a) != slot_wire(b),
        v != w ==> worth_wire(v) != worth_wire(w),
{
    reveal_strlit("helmet");
    reveal_strlit("body_armour");
    reveal_strlit("gloves");
    reveal_strlit("boots");
    reveal_strlit("amulet");
    reveal_strlit("ring");
    reveal_strlit("belt");
    reveal_strlit("shield");
    reveal_strlit("weapon");
    reveal_strlit("good");
    reveal_strlit("junk");
    reveal_strlit("neutral");
    if a != b {
        assert(slot_wire(a).len() != slot_wire(b).len() || slot_wire(a)[0] != slot_wire(b)[0] || slot_wire(a)[1]
            != slot_wire(b)[1]);
    }
    if v != w {
        assert(worth_wire(v)[0] != worth_wire(w)[0]);
    }
}

/// A vial upgrade: `vial` used on `base` makes `upgraded`. Names only.
#[derive(Debug, Clone, PartialEq)]
pub struct Recipe {
    /// The vial that performs the upgrade.
    pub vial: String,
    /// The unique the vial is used on.
    pub base: String,
    /// What it becomes.
    pub upgraded: String,
}

} // verus!
