use vstd::prelude::*;

use crate::entity::{Entity, EntityView};
use crate::errors::ParseError;
use crate::resources::ResourceCount;
use crate::text::{chars_of, folded, folded_chars, is_lower_word, is_word, owned};

verus! {

/// What a player can build on an empty tile of a plot they own.
#[derive(Debug, Clone, Copy, PartialEq, Eq, Hash, Structural)]
pub enum BuildingType {
    Woodcutter,
    Farm,
    Quarry,
    Stockpile,
    Lair,
    Barracks,
    Road,
    Tradepost,
    Scoutpost,
    Ram,
}

/// The lowercase name of a building type.
pub open spec fn building_name(b: BuildingType) -> Seq<char> {
    match b {
        BuildingType::Woodcutter => "woodcutter"@,
        BuildingType::Farm => "farm"@,
        BuildingType::Quarry => "quarry"@,
        BuildingType::Stockpile => "stockpile"@,
        BuildingType::Lair => "lair"@,
        BuildingType::Barracks => "barracks"@,
        BuildingType::Road => "road"@,
        BuildingType::Tradepost => "tradepost"@,
        BuildingType::Scoutpost => "scoutpost"@,
        BuildingType::Ram => "ram"@,
    }
}

/// The building type whose name is `w`, if any.
pub open spec fn building_named(w: Seq<char>) -> Option<BuildingType> {
    if w == "woodcutter"@ {
        Some(BuildingType::Woodcutter)
    } else if w == "farm"@ {
        Some(BuildingType::Farm)
    } else if w == "quarry"@ {
        Some(BuildingType::Quarry)
    } else if w == "stockpile"@ {
        Some(BuildingType::Stockpile)
    } else if w == "lair"@ {
        Some(BuildingType::Lair)
    } else if w == "barracks"@ {
        Some(BuildingType::Barracks)
    } else if w == "road"@ {
        Some(BuildingType::Road)
    } else if w == "tradepost"@ {
        Some(BuildingType::Tradepost)
    } else if w == "scoutpost"@ {
        Some(BuildingType::Scoutpost)
    } else if w == "ram"@ {
        Some(BuildingType::Ram)
    } else {
        None
    }
}

/// What decoding `s` as a building type gives, ignoring case.
pub open spec fn parse_building(s: Seq<char>) -> Result<BuildingType, Seq<char>> {
    match building_named(folded(s)) {
        Some(b) => Ok(b),
        None => Err("Invalid building '"@ + s + "'"@),
    }
}

/// A cost of the given numbers of food, wood, stone and iron.
pub open spec fn cost(food: nat, wood: nat, stone: nat, iron: nat) -> ResourceCount {
    ResourceCount { food: food as usize, wood: wood as usize, stone: stone as usize, iron: iron as usize }
}

/// What a building type costs.
pub open spec fn building_cost(b: BuildingType) -> ResourceCount {
    match b {
        BuildingType::Woodcutter => cost(0, 0, 0, 0),
        BuildingType::Farm => cost(0, 1, 0, 0),
        BuildingType::Quarry => cost(0, 4, 0, 0),
        BuildingType::Stockpile => cost(0, 0, 0, 0),
        BuildingType::Lair => cost(0, 3, 0, 0),
        BuildingType::Barracks => cost(0, 4, 3, 0),
        BuildingType::Road => cost(0, 1, 1, 0),
        BuildingType::Tradepost => cost(0, 2, 1, 0),
        BuildingType::Scoutpost => cost(0, 5, 1, 0),
        BuildingType::Ram => cost(1, 6, 0, 0),
    }
}

/// The entity a building type puts on its tile.
pub open spec fn building_result(b: BuildingType) -> EntityView {
    match b {
        BuildingType::Woodcutter => EntityView::Woodcutter,
        BuildingType::Farm => EntityView::Farm,
        BuildingType::Quarry => EntityView::Quarry,
        BuildingType::Stockpile => EntityView::Stockpile(None),
        BuildingType::Lair => EntityView::Lair,
        BuildingType::Barracks => EntityView::Barracks,
        BuildingType::Road => EntityView::Road,
        BuildingType::Tradepost => EntityView::Tradepost,
        BuildingType::Scoutpost => EntityView::Scoutpost,
        BuildingType::Ram => EntityView::Ram,
    }
}

/// Decoding the name of a building type gives that building type back.
pub proof fn lemma_building_round_trip(b: BuildingType)
    ensures
        parse_building(building_name(b)) == Ok::<BuildingType, Seq<char>>(b),
{
    reveal_strlit("woodcutter");
    reveal_strlit("farm");
    reveal_strlit("quarry");
    reveal_strlit("stockpile");
    reveal_strlit("lair");
    reveal_strlit("barracks");
    reveal_strlit("road");
    reveal_strlit("tradepost");
    reveal_strlit("scoutpost");
    reveal_strlit("ram");
    reveal_with_fuel(is_lower_word, 11);
    assert(is_lower_word(building_name(b)));
}

impl BuildingType {
    /// Every building type, in declaration order.
    pub fn all() -> (r: Vec<BuildingType>)
        ensures
            forall|b: BuildingType| r@.contains(b),
            r@.len() == 10,
    {
        let r = vec![
            BuildingType::Woodcutter,
            BuildingType::Farm,
            BuildingType::Quarry,
            BuildingType::Stockpile,
            BuildingType::Lair,
            BuildingType::Barracks,
            BuildingType::Road,
            BuildingType::Tradepost,
            BuildingType::Scoutpost,
            BuildingType::Ram,
        ];
        assert forall|b: BuildingType| r@.contains(b) by {
            match b {
                BuildingType::Woodcutter => assert(r@[0] == b),
                BuildingType::Farm => assert(r@[1] == b),
                BuildingType::Quarry => assert(r@[2] == b),
                BuildingType::Stockpile => assert(r@[3] == b),
                BuildingType::Lair => assert(r@[4] == b),
                BuildingType::Barracks => assert(r@[5] == b),
                BuildingType::Road => assert(r@[6] == b),
                BuildingType::Tradepost => assert(r@[7] == b),
                BuildingType::Scoutpost => assert(r@[8] == b),
                BuildingType::Ram => assert(r@[9] == b),
            }
        }
        r
    }

    /// What this building costs, and the entity it places.
    pub fn cost_result(&self) -> (r: (ResourceCount, Entity))
        ensures
            r.0 == building_cost(*self),
            r.1@ == building_result(*self),
    {
        match self {
            BuildingType::Woodcutter => (ResourceCount { food: 0, wood: 0, stone: 0, iron: 0 }, Entity::Woodcutter),
            BuildingType::Farm => (ResourceCount { food: 0, wood: 1, stone: 0, iron: 0 }, Entity::Farm),
            BuildingType::Quarry => (ResourceCount { food: 0, wood: 4, stone: 0, iron: 0 }, Entity::Quarry),
            BuildingType::Stockpile => (ResourceCount { food: 0, wood: 0, stone: 0, iron: 0 }, Entity::Stockpile(None)),
            BuildingType::Lair => (ResourceCount { food: 0, wood: 3, stone: 0, iron: 0 }, Entity::Lair),
            BuildingType::Barracks => (ResourceCount { food: 0, wood: 4, stone: 3, iron: 0 }, Entity::Barracks),
            BuildingType::Road => (ResourceCount { food: 0, wood: 1, stone: 1, iron: 0 }, Entity::Road),
            BuildingType::Tradepost => (ResourceCount { food: 0, wood: 2, stone: 1, iron: 0 }, Entity::Tradepost),
            BuildingType::Scoutpost => (ResourceCount { food: 0, wood: 5, stone: 1, iron: 0 }, Entity::Scoutpost),
            BuildingType::Ram => (ResourceCount { food: 1, wood: 6, stone: 0, iron: 0 }, Entity::Ram),
        }
    }

    /// The lowercase name.
    pub fn to_string(&self) -> (r: String)
        ensures
            r@ == building_name(*self),
    {
        match self {
            BuildingType::Woodcutter => owned("woodcutter"),
            BuildingType::Farm => owned("farm"),
            BuildingType::Quarry => owned("quarry"),
            BuildingType::Stockpile => owned("stockpile"),
            BuildingType::Lair => owned("lair"),
            BuildingType::Barracks => owned("barracks"),
            BuildingType::Road => owned("road"),
            BuildingType::Tradepost => owned("tradepost"),
            BuildingType::Scoutpost => owned("scoutpost"),
            BuildingType::Ram => owned("ram"),
        }
    }

    /// Decodes a building name, ignoring case.
    pub fn parse(s: &str) -> (r: Result<BuildingType, ParseError>)
        ensures
            match r {
                Ok(b) => parse_building(s@) == Ok::<BuildingType, Seq<char>>(b),
                Err(e) => parse_building(s@) == Err::<BuildingType, Seq<char>>(e.msg@),
            },
    {
        let v = chars_of(s);
        Self::parse_chars(v.as_slice())
    }

    /// Decodes a building name given as characters, ignoring case.
    pub fn parse_chars(v: &[char]) -> (r: Result<BuildingType, ParseError>)
        ensures
            match r {
                Ok(b) => parse_building(v@) == Ok::<BuildingType, Seq<char>>(b),
                Err(e) => parse_building(v@) == Err::<BuildingType, Seq<char>>(e.msg@),
            },
    {
        let w = folded_chars(v);
        match BuildingType::named(w.as_slice()) {
            Some(b) => Ok(b),
            None => Err(ParseError::quoted("Invalid building '", v, "'")),
        }
    }

    /// The building type whose lowercase name is `w`, if any.
    pub fn named(w: &[char]) -> (r: Option<BuildingType>)
        ensures
            r == building_named(w@),
    {
        if is_word(w, "woodcutter") {
            Some(BuildingType::Woodcutter)
        } else if is_word(w, "farm") {
            Some(BuildingType::Farm)
        } else if is_word(w, "quarry") {
            Some(BuildingType::Quarry)
        } else if is_word(w, "stockpile") {
            Some(BuildingType::Stockpile)
        } else if is_word(w, "lair") {
            Some(BuildingType::Lair)
        } else if is_word(w, "barracks") {
            Some(BuildingType::Barracks)
        } else if is_word(w, "road") {
            Some(BuildingType::Road)
        } else if is_word(w, "tradepost") {
            Some(BuildingType::Tradepost)
        } else if is_word(w, "scoutpost") {
            Some(BuildingType::Scoutpost)
        } else if is_word(w, "ram") {
            Some(BuildingType::Ram)
        } else {
            None
        }
    }
}

impl std::str::FromStr for BuildingType {
    type Err = ParseError;

    fn from_str(s: &str) -> Result<BuildingType, ParseError> {
        BuildingType::parse(s)
    }
}

} // verus!
