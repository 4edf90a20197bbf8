//! The room vocabulary the advisor reasons over: the 25 room lines, the four
//! tiers a room can stand at, and the two kinds of architect offer.

use vstd::prelude::*;

verus! {

/// A room line. The first four carry mechanics the rollout models; `Junk` is
/// what a hand-encoded board writes for a room nobody prices.
#[derive(Debug, Clone, Copy, PartialEq, Eq, Structural, PartialOrd, Ord, Hash)]
pub enum Line {
    Corruption,
    Gem,
    Upgrade,
    Explosive,
    ApexOfAscension,
    AtlasOfWorlds,
    ChamberOfIron,
    ConduitOfLightning,
    CourtOfSealedDeath,
    CrucibleOfFlame,
    DefenseResearchLab,
    Factory,
    GlitteringHalls,
    HallOfChampions,
    HallOfLegends,
    HallOfWar,
    HouseOfTheOthers,
    HybridisationChamber,
    MuseumOfArtefacts,
    SadistsDen,
    SanctumOfImmortality,
    StormOfCorruption,
    ThroneOfAtziri,
    ToxicGrove,
    WealthOfTheVaal,
    Junk,
}

/// The stable key of a line.
pub open spec fn line_key(l: Line) -> Seq<char> {
    match l {
        Line::Corruption => "corruption"@,
        Line::Gem => "gem"@,
        Line::Upgrade => "upgrade"@,
        Line::Explosive => "explosive"@,
        Line::ApexOfAscension => "apex_of_ascension"@,
        Line::AtlasOfWorlds => "atlas_of_worlds"@,
        Line::ChamberOfIron => "chamber_of_iron"@,
        Line::ConduitOfLightning => "conduit_of_lightning"@,
        Line::CourtOfSealedDeath => "court_of_sealed_death"@,
        Line::CrucibleOfFlame => "crucible_of_flame"@,
        Line::DefenseResearchLab => "defense_research_lab"@,
        Line::Factory => "factory"@,
        Line::GlitteringHalls => "glittering_halls"@,
        Line::HallOfChampions => "hall_of_champions"@,
        Line::HallOfLegends => "hall_of_legends"@,
        Line::HallOfWar => "hall_of_war"@,
        Line::HouseOfTheOthers => "house_of_the_others"@,
        Line::HybridisationChamber => "hybridisation_chamber"@,
        Line::MuseumOfArtefacts => "museum_of_artefacts"@,
        Line::SadistsDen => "sadists_den"@,
        Line::SanctumOfImmortality => "sanctum_of_immortality"@,
        Line::StormOfCorruption => "storm_of_corruption"@,
        Line::ThroneOfAtziri => "throne_of_atziri"@,
        Line::ToxicGrove => "toxic_grove"@,
        Line::WealthOfTheVaal => "wealth_of_the_vaal"@,
        Line::Junk => "junk"@,
    }
}

impl Line {
    /// The line's stable key, as the drops table and the logs spell it.
    pub fn key(self) -> (r: &'static str)
        ensures
            r@ == line_key(self),
    {
        match self {
            Line::Corruption => "corruption",
            Line::Gem => "gem",
            Line::Upgrade => "upgrade",
            Line::Explosive => "explosive",
            Line::ApexOfAscension => "apex_of_ascension",
            Line::AtlasOfWorlds => "atlas_of_worlds",
            Line::ChamberOfIron => "chamber_of_iron",
            Line::ConduitOfLightning => "conduit_of_lightning",
            Line::CourtOfSealedDeath => "court_of_sealed_death",
            Line::CrucibleOfFlame => "crucible_of_flame",
            Line::DefenseResearchLab => "defense_research_lab",
            Line::Factory => "factory",
            Line::GlitteringHalls => "glittering_halls",
            Line::HallOfChampions => "hall_of_champions",
            Line::HallOfLegends => "hall_of_legends",
            Line::HallOfWar => "hall_of_war",
            Line::HouseOfTheOthers => "house_of_the_others",
            Line::HybridisationChamber => "hybridisation_chamber",
            Line::MuseumOfArtefacts => "museum_of_artefacts",
            Line::SadistsDen => "sadists_den",
            Line::SanctumOfImmortality => "sanctum_of_immortality",
            Line::StormOfCorruption => "storm_of_corruption",
            Line::ThroneOfAtziri => "throne_of_atziri",
            Line::ToxicGrove => "toxic_grove",
            Line::WealthOfTheVaal => "wealth_of_the_vaal",
            Line::Junk => "junk",
        }
    }
}

/// A room's tier: `T0` is the Entrance, the Apex or a filler room.
#[derive(Debug, Clone, Copy, PartialEq, Eq, Structural, PartialOrd, Ord, Hash)]
pub enum Tier {
    T0,
    T1,
    T2,
    T3,
}

/// A tier's number, `0..=3`.
pub open spec fn tier_value(t: Tier) -> int {
    match t {
        Tier::T0 => 0,
        Tier::T1 => 1,
        Tier::T2 => 2,
        Tier::T3 => 3,
    }
}

/// The tier with number `n`, for `n` in `0..=3`.
pub open spec fn tier_of(n: int) -> Tier {
    if n <= 0 {
        Tier::T0
    } else if n == 1 {
        Tier::T1
    } else if n == 2 {
        Tier::T2
    } else {
        Tier::T3
    }
}

impl Tier {
    /// The tier numbered `n`, or `None` past tier 3.
    pub fn new(n: u8) -> (r: Option<Tier>)
        ensures
            n <= 3 ==> r == Some(tier_of(n as int)),
            n > 3 ==> r is None,
    {
        match n {
            0 => Some(Tier::T0),
            1 => Some(Tier::T1),
            2 => Some(Tier::T2),
            3 => Some(Tier::T3),
            _ => None,
        }
    }

    /// The tier's number.
    pub fn get(self) -> (r: u8)
        ensures
            r == tier_value(self),
            r <= 3,
    {
        match self {
            Tier::T0 => 0,
            Tier::T1 => 1,
            Tier::T2 => 2,
            Tier::T3 => 3,
        }
    }
}

/// The tier number and the tier are two names for one thing.
pub proof fn lemma_tier_roundtrip()
    ensures
        forall|t: Tier| tier_of(#[trigger] tier_value(t)) == t,
        forall|n: int| 0 <= n <= 3 ==> tier_value(#[trigger] tier_of(n)) == n,
{
}

/// Resident (`change`) or non-resident (`upgrade`) architect.
#[derive(Debug, Clone, Copy, PartialEq, Eq, Structural, Hash)]
pub enum OfferKind {
    /// Kill to change the room to another line.
    Change,
    /// Kill to upgrade the room's own line.
    Upgrade,
}

} // verus!
