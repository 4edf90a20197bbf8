//! What one screen read hands the advisor, as plain values: the layout
//! reader's door sets and current room, the panel footer's budget, and the
//! room each plate resolved to.

use vstd::prelude::*;

use crate::doorset::DoorSet;
use crate::lattice::Slot;
use crate::strategy::{Line, OfferKind, Tier};

verus! {

/// The layout panel, as the reader resolved it.
#[derive(Debug, Clone, Copy)]
pub struct TempleLayout {
    /// The room the player is standing in, when the panel was read inside one.
    pub current: Option<Slot>,
    /// Corridors the reader judged open.
    pub doors: DoorSet,
    /// Corridors whose read may be wrong.
    pub uncertain: DoorSet,
}

/// How much of the board reading to trust.
#[derive(Debug, Clone, Copy, PartialEq, Eq, Structural)]
pub enum Confidence {
    /// Every corridor family landed on one side of the measured band.
    High,
    /// Some family sat in the dead band, or none found gold at all: show the
    /// doors, act on none of them.
    Low,
}

/// What one corridor family's clean gold fractions say about that family,
/// without the numbers the calibration produced.
#[derive(Debug, Clone, Copy, PartialEq, Eq, Structural)]
pub enum FamilyClass {
    /// Two clusters straddling a real gap: the gap is the open/closed boundary.
    Split,
    /// One cluster, entirely in the open band.
    AllOpen,
    /// One cluster, entirely in the low band: a bare family and an unlit panel
    /// read alike, so only the other family can tell them apart.
    AllLow,
    /// One cluster in or across the dead band between the two.
    Ambiguous,
}

impl FamilyClass {
    /// Whether this family by itself proves the panel is lit.
    pub open spec fn lit(self) -> bool {
        self is Split || self is AllOpen
    }

    /// Whether this family can be read, given what the other one showed.
    pub open spec fn readable_beside(self, other: FamilyClass) -> bool {
        match self {
            FamilyClass::Split | FamilyClass::AllOpen => true,
            FamilyClass::AllLow => other.lit(),
            FamilyClass::Ambiguous => false,
        }
    }

    /// Whether this family by itself proves the panel is lit: it found gold,
    /// and enough of it to place a boundary.
    pub fn is_lit(self) -> (r: bool)
        ensures
            r == self.lit(),
    {
        match self {
            FamilyClass::Split | FamilyClass::AllOpen => true,
            _ => false,
        }
    }
}

/// How much of a two-family reading to trust: a judgement over the panel.
/// A family that read all-low is readable only beside a lit one; an
/// ambiguous family is never readable.
pub open spec fn panel_confidence_spec(a: FamilyClass, b: FamilyClass) -> Confidence {
    if a.readable_beside(b) && b.readable_beside(a) {
        Confidence::High
    } else {
        Confidence::Low
    }
}

/// The board's confidence from its two corridor families.
pub fn panel_confidence(a: FamilyClass, b: FamilyClass) -> (r: Confidence)
    ensures
        r == panel_confidence_spec(a, b),
        r == Confidence::High <==> (!(a is Ambiguous) && !(b is Ambiguous) && !(a is AllLow
            && b is AllLow)),
{
    let readable_a = match a {
        FamilyClass::Split | FamilyClass::AllOpen => true,
        FamilyClass::AllLow => b.is_lit(),
        FamilyClass::Ambiguous => false,
    };
    let readable_b = match b {
        FamilyClass::Split | FamilyClass::AllOpen => true,
        FamilyClass::AllLow => a.is_lit(),
        FamilyClass::Ambiguous => false,
    };
    if readable_a && readable_b {
        Confidence::High
    } else {
        Confidence::Low
    }
}

/// The panel judgement does not depend on which family is read first.
pub proof fn lemma_panel_confidence_symmetric(a: FamilyClass, b: FamilyClass)
    ensures
        panel_confidence_spec(a, b) == panel_confidence_spec(b, a),
{
}

/// The side panel's footer.
#[derive(Debug, Clone, Copy, PartialEq, Eq, Structural)]
pub struct PanelReading {
    /// `N Incursions Remaining`, when legible.
    pub incursions_remaining: Option<u8>,
}

/// What one plate's name resolved to.
#[derive(Debug, Clone, Copy, PartialEq, Eq, Structural)]
pub enum RoomIdentity {
    /// A room of a line, at a tier.
    Room { line: Line, tier: Tier },
    /// The Entrance plate.
    Entrance,
    /// The Apex plate.
    Apex,
    /// A filler room, which belongs to no line.
    Filler,
}

/// One architect block as the panel prints it.
#[derive(Debug, Clone, PartialEq)]
pub struct ArchitectOffer {
    /// The architect's name.
    pub architect_name: String,
    /// Resident (`change`) or non-resident (`upgrade`).
    pub kind: OfferKind,
    /// The target room, as printed.
    pub printed_target: String,
    /// Where the block sits on screen, `[x, y, w, h]`, when known.
    pub rect: Option<[i32; 4]>,
}

} // verus!
