use vstd::prelude::*;

use crate::buildings::{building_name, lemma_building_round_trip, parse_building, BuildingType};
use crate::errors::ParseError;
use crate::resources::{lemma_resource_round_trip, parse_resource, resource_name, Resource};
use crate::text::{chars_of, folded, folded_chars, is_lower_word, is_word, lemma_first_of_at, lemma_lower_word, push_chars, push_str, split_once, split_once_chars, string_of};

verus! {

/// The name of a player.
#[derive(Debug, Clone, Hash)]
pub struct UserId(pub String);

impl View for UserId {
    type V = Seq<char>;

    open spec fn view(&self) -> Seq<char> {
        self.0@
    }
}

impl PartialEq for UserId {
    fn eq(&self, other: &UserId) -> (r: bool) {
        self.0 == other.0
    }
}

impl vstd::std_specs::cmp::PartialEqSpecImpl for UserId {
    open spec fn obeys_eq_spec() -> bool {
        true
    }

    open spec fn eq_spec(&self, other: &UserId) -> bool {
        self@ == other@
    }
}

impl Eq for UserId {

}

impl UserId {
    /// A player named by `name`.
    pub fn new(name: &str) -> (r: UserId)
        ensures
            r@ == name@,
    {
        UserId(crate::text::owned(name))
    }

    /// A copy of this name.
    pub fn duplicate(&self) -> (r: UserId)
        ensures
            r@ == self@,
    {
        UserId(self.0.clone())
    }

    /// Whether the two names are equal.
    pub fn same(&self, other: &UserId) -> (r: bool)
        ensures
            r == (self@ == other@),
    {
        self.0 == other.0
    }
}

/// What occupies a tile, with players named by their characters.
pub enum EntityView {
    Capital(Seq<char>),
    Keep(Seq<char>),
    Construction(BuildingType),
    Raider,
    Warrior,
    Ram,
    Farm,
    Woodcutter,
    Quarry,
    Lair,
    Barracks,
    Stockpile(Option<Resource>),
    Road,
    Tradepost,
    Scoutpost,
    Forest,
    Swamp,
    Rock,
}

/// What occupies a tile.
#[derive(Debug, Clone)]
pub enum Entity {
    Capital(UserId),
    Keep(UserId),
    Construction(BuildingType),
    // Units
    Raider,
    Warrior,
    Ram,
    // Production buildings
    Farm,
    Woodcutter,
    Quarry,
    // Unit training buildings
    Lair,
    Barracks,
    // Special buildings
    Stockpile(Option<Resource>),
    Road,
    Tradepost,
    Scoutpost,
    // Ambient
    Forest,
    Swamp,
    Rock,
}

impl View for Entity {
    type V = EntityView;

    open spec fn view(&self) -> EntityView {
        match self {
            Entity::Capital(u) => EntityView::Capital(u@),
            Entity::Keep(u) => EntityView::Keep(u@),
            Entity::Construction(b) => EntityView::Construction(*b),
            Entity::Raider => EntityView::Raider,
            Entity::Warrior => EntityView::Warrior,
            Entity::Ram => EntityView::Ram,
            Entity::Farm => EntityView::Farm,
            Entity::Woodcutter => EntityView::Woodcutter,
            Entity::Quarry => EntityView::Quarry,
            Entity::Lair => EntityView::Lair,
            Entity::Barracks => EntityView::Barracks,
            Entity::Stockpile(r) => EntityView::Stockpile(*r),
            Entity::Road => EntityView::Road,
            Entity::Tradepost => EntityView::Tradepost,
            Entity::Scoutpost => EntityView::Scoutpost,
            Entity::Forest => EntityView::Forest,
            Entity::Swamp => EntityView::Swamp,
            Entity::Rock => EntityView::Rock,
        }
    }
}

/// How an entity takes part in the rules.
#[derive(Debug, Clone, Copy, PartialEq, Eq, Structural, Default)]
pub struct EntityProperties {
    pub removable: bool,
    pub destructible: bool,
    pub stopping: bool,
    pub mortal: bool,
    pub movable: bool,
    pub strong: bool,
    pub defender: bool,
}

/// A property vector from its seven flags.
pub open spec fn props(
    removable: bool,
    destructible: bool,
    stopping: bool,
    mortal: bool,
    movable: bool,
    strong: bool,
    defender: bool,
) -> EntityProperties {
    EntityProperties { removable, destructible, stopping, mortal, movable, strong, defender }
}

/// The property vector of each kind of entity.
pub open spec fn entity_props(e: EntityView) -> EntityProperties {
    match e {
        EntityView::Capital(_) | EntityView::Keep(_) => props(
            false,
            true,
            true,
            false,
            false,
            true,
            false,
        ),
        EntityView::Raider | EntityView::Warrior => props(
            false,
            false,
            true,
            true,
            true,
            false,
            true,
        ),
        EntityView::Ram => props(true, true, true, true, false, false, false),
        EntityView::Farm | EntityView::Woodcutter | EntityView::Quarry | EntityView::Lair
        | EntityView::Barracks | EntityView::Scoutpost => props(
            true,
            true,
            true,
            false,
            false,
            false,
            false,
        ),
        EntityView::Stockpile(_) => props(true, false, false, false, false, false, false),
        EntityView::Road | EntityView::Tradepost | EntityView::Construction(_) => props(
            true,
            true,
            false,
            false,
            false,
            false,
            false,
        ),
        EntityView::Forest | EntityView::Swamp | EntityView::Rock => props(
            false,
            false,
            false,
            false,
            false,
            false,
            false,
        ),
    }
}

/// The text form of an entity.
pub open spec fn entity_text(e: EntityView) -> Seq<char> {
    match e {
        EntityView::Capital(u) => "capital:"@ + u,
        EntityView::Keep(u) => "keep:"@ + u,
        EntityView::Raider => "raider"@,
        EntityView::Warrior => "warrior"@,
        EntityView::Ram => "ram"@,
        EntityView::Farm => "farm"@,
        EntityView::Woodcutter => "woodcutter"@,
        EntityView::Quarry => "quarry"@,
        EntityView::Lair => "lair"@,
        EntityView::Barracks => "barracks"@,
        EntityView::Stockpile(Some(r)) => "stockpile:"@ + resource_name(r),
        EntityView::Stockpile(None) => "stockpile"@,
        EntityView::Construction(b) => "construction:"@ + building_name(b),
        EntityView::Road => "road"@,
        EntityView::Tradepost => "tradepost"@,
        EntityView::Scoutpost => "scoutpost"@,
        EntityView::Forest => "forest"@,
        EntityView::Swamp => "swamp"@,
        EntityView::Rock => "rock"@,
    }
}

/// The entity written by a name that takes no argument, if `w` is one.
pub open spec fn bare_entity_named(w: Seq<char>) -> Option<EntityView> {
    if w == "raider"@ {
        Some(EntityView::Raider)
    } else if w == "warrior"@ {
        Some(EntityView::Warrior)
    } else if w == "ram"@ {
        Some(EntityView::Ram)
    } else if w == "farm"@ {
        Some(EntityView::Farm)
    } else if w == "woodcutter"@ {
        Some(EntityView::Woodcutter)
    } else if w == "quarry"@ {
        Some(EntityView::Quarry)
    } else if w == "lair"@ {
        Some(EntityView::Lair)
    } else if w == "barracks"@ {
        Some(EntityView::Barracks)
    } else if w == "stockpile"@ {
        Some(EntityView::Stockpile(None))
    } else if w == "road"@ {
        Some(EntityView::Road)
    } else if w == "tradepost"@ {
        Some(EntityView::Tradepost)
    } else if w == "scoutpost"@ {
        Some(EntityView::Scoutpost)
    } else if w == "forest"@ {
        Some(EntityView::Forest)
    } else if w == "swamp"@ {
        Some(EntityView::Swamp)
    } else if w == "rock"@ {
        Some(EntityView::Rock)
    } else {
        None
    }
}

/// The message for text that names no entity.
pub open spec fn invalid_entity_msg(s: Seq<char>) -> Seq<char> {
    "Invalid entity '"@ + s + "'"@
}

/// What decoding `s` as an entity gives: the kind name (any case) and, after
/// the first `:`, its argument.
pub open spec fn parse_entity(s: Seq<char>) -> Result<EntityView, Seq<char>> {
    let (typ, arg) = split_once(s, ':');
    entity_from(folded(typ), arg, s)
}

/// What an entity decodes to, given its case-folded kind word `t`, the
/// argument after its first `:` if there is one, and the whole text `s`
/// (quoted in the error).
pub open spec fn entity_from(t: Seq<char>, arg: Option<Seq<char>>, s: Seq<char>) -> Result<
    EntityView,
    Seq<char>,
> {
    match arg {
        Some(a) => if t == "capital"@ {
            Ok(EntityView::Capital(a))
        } else if t == "keep"@ {
            Ok(EntityView::Keep(a))
        } else if t == "stockpile"@ {
            match parse_resource(a) {
                Ok(r) => Ok(EntityView::Stockpile(Some(r))),
                Err(e) => Err(e),
            }
        } else if t == "construction"@ {
            match parse_building(a) {
                Ok(b) => Ok(EntityView::Construction(b)),
                Err(e) => Err(e),
            }
        } else {
            Err(invalid_entity_msg(s))
        },
        None => match bare_entity_named(t) {
            Some(e) => Ok(e),
            None => Err(invalid_entity_msg(s)),
        },
    }
}

/// `s` is `word`, a colon, and `arg`, where `word` is a lowercase name.
proof fn lemma_split_named(s: Seq<char>, word: Seq<char>, arg: Seq<char>)
    requires
        s == word + seq![':'] + arg,
        is_lower_word(word),
    ensures
        split_once(s, ':') == (word, Some(arg)),
        folded(word) == word,
{
    lemma_lower_word(word);
    assert forall|j: int| 0 <= j < word.len() implies s[j] != ':' by {
        assert(s[j] == word[j]);
        assert('a' <= word[j]);
    }
    lemma_first_of_at(s, ':', word.len() as int);
    assert(s.subrange(0, word.len() as int) =~= word);
    assert(s.subrange(word.len() as int + 1, s.len() as int) =~= arg);
}

/// `s` is a lowercase name with no colon.
proof fn lemma_split_bare(s: Seq<char>)
    requires
        is_lower_word(s),
    ensures
        split_once(s, ':') == (s, None::<Seq<char>>),
        folded(s) == s,
{
    lemma_lower_word(s);
    assert forall|j: int| 0 <= j < s.len() implies s[j] != ':' by {
        assert('a' <= s[j]);
    }
    lemma_first_of_at(s, ':', s.len() as int);
}

/// Decoding the text of an entity gives that entity back.
pub proof fn lemma_entity_round_trip(e: EntityView)
    ensures
        parse_entity(entity_text(e)) == Ok::<EntityView, Seq<char>>(e),
{
    reveal_strlit("capital");
    reveal_strlit("keep");
    reveal_strlit("capital:");
    reveal_strlit("keep:");
    reveal_strlit("stockpile:");
    reveal_strlit("construction:");
    reveal_strlit("construction");
    reveal_strlit("raider");
    reveal_strlit("warrior");
    reveal_strlit("ram");
    reveal_strlit("farm");
    reveal_strlit("woodcutter");
    reveal_strlit("quarry");
    reveal_strlit("lair");
    reveal_strlit("barracks");
    reveal_strlit("stockpile");
    reveal_strlit("road");
    reveal_strlit("tradepost");
    reveal_strlit("scoutpost");
    reveal_strlit("forest");
    reveal_strlit("swamp");
    reveal_strlit("rock");
    reveal_with_fuel(is_lower_word, 14);
    let s = entity_text(e);
    match e {
        EntityView::Capital(u) => {
            assert("capital:"@ =~= "capital"@ + seq![':']);
            lemma_split_named(s, "capital"@, u);
        },
        EntityView::Keep(u) => {
            assert("keep:"@ =~= "keep"@ + seq![':']);
            lemma_split_named(s, "keep"@, u);
        },
        EntityView::Stockpile(Some(r)) => {
            assert("stockpile:"@ =~= "stockpile"@ + seq![':']);
            lemma_split_named(s, "stockpile"@, resource_name(r));
            lemma_resource_round_trip(r);
        },
        EntityView::Construction(b) => {
            assert("construction:"@ =~= "construction"@ + seq![':']);
            lemma_split_named(s, "construction"@, building_name(b));
            lemma_building_round_trip(b);
        },
        _ => {
            assert(is_lower_word(s));
            lemma_split_bare(s);
        },
    }
}

impl Entity {
    /// The property vector of this entity.
    pub fn properties(&self) -> (r: EntityProperties)
        ensures
            r == entity_props(self@),
    {
        let unit = EntityProperties {
            removable: false,
            destructible: false,
            stopping: true,
            mortal: true,
            movable: true,
            strong: false,
            defender: true,
        };
        let building = EntityProperties {
            removable: true,
            destructible: true,
            stopping: true,
            mortal: false,
            movable: false,
            strong: false,
            defender: false,
        };
        let small = EntityProperties {
            removable: true,
            destructible: true,
            stopping: false,
            mortal: false,
            movable: false,
            strong: false,
            defender: false,
        };
        let keep = EntityProperties {
            removable: false,
            destructible: true,
            stopping: true,
            mortal: false,
            movable: false,
            strong: true,
            defender: false,
        };
        let ambient = EntityProperties {
            removable: false,
            destructible: false,
            stopping: false,
            mortal: false,
            movable: false,
            strong: false,
            defender: false,
        };
        match self {
            Entity::Capital(_) => keep,
            Entity::Keep(_) => keep,
            Entity::Raider => unit,
            Entity::Warrior => unit,
            Entity::Ram => EntityProperties {
                removable: true,
                destructible: true,
                stopping: true,
                mortal: true,
                movable: false,
                strong: false,
                defender: false,
            },
            Entity::Farm => building,
            Entity::Woodcutter => building,
            Entity::Quarry => building,
            Entity::Lair => building,
            Entity::Barracks => building,
            Entity::Stockpile(_) => EntityProperties {
                removable: true,
                destructible: false,
                stopping: false,
                mortal: false,
                movable: false,
                strong: false,
                defender: false,
            },
            Entity::Construction(_) => small,
            Entity::Road => small,
            Entity::Tradepost => small,
            Entity::Scoutpost => building,
            Entity::Forest => ambient,
            Entity::Swamp => ambient,
            Entity::Rock => ambient,
        }
    }

    /// A copy of this entity.
    pub fn duplicate(&self) -> (r: Entity)
        ensures
            r@ == self@,
    {
        match self {
            Entity::Capital(u) => Entity::Capital(u.duplicate()),
            Entity::Keep(u) => Entity::Keep(u.duplicate()),
            Entity::Construction(b) => Entity::Construction(*b),
            Entity::Raider => Entity::Raider,
            Entity::Warrior => Entity::Warrior,
            Entity::Ram => Entity::Ram,
            Entity::Farm => Entity::Farm,
            Entity::Woodcutter => Entity::Woodcutter,
            Entity::Quarry => Entity::Quarry,
            Entity::Lair => Entity::Lair,
            Entity::Barracks => Entity::Barracks,
            Entity::Stockpile(r) => Entity::Stockpile(*r),
            Entity::Road => Entity::Road,
            Entity::Tradepost => Entity::Tradepost,
            Entity::Scoutpost => Entity::Scoutpost,
            Entity::Forest => Entity::Forest,
            Entity::Swamp => Entity::Swamp,
            Entity::Rock => Entity::Rock,
        }
    }

    /// Whether the two entities are the same.
    pub fn same(&self, other: &Entity) -> (r: bool)
        ensures
            r == (self@ == other@),
    {
        match self {
            Entity::Capital(u) => match other {
                Entity::Capital(v) => u.same(v),
                _ => false,
            },
            Entity::Keep(u) => match other {
                Entity::Keep(v) => u.same(v),
                _ => false,
            },
            Entity::Construction(b) => match other {
                Entity::Construction(c) => *b == *c,
                _ => false,
            },
            Entity::Stockpile(r) => match other {
                Entity::Stockpile(q) => *r == *q,
                _ => false,
            },
            Entity::Raider => matches!(other, Entity::Raider),
            Entity::Warrior => matches!(other, Entity::Warrior),
            Entity::Ram => matches!(other, Entity::Ram),
            Entity::Farm => matches!(other, Entity::Farm),
            Entity::Woodcutter => matches!(other, Entity::Woodcutter),
            Entity::Quarry => matches!(other, Entity::Quarry),
            Entity::Lair => matches!(other, Entity::Lair),
            Entity::Barracks => matches!(other, Entity::Barracks),
            Entity::Road => matches!(other, Entity::Road),
            Entity::Tradepost => matches!(other, Entity::Tradepost),
            Entity::Scoutpost => matches!(other, Entity::Scoutpost),
            Entity::Forest => matches!(other, Entity::Forest),
            Entity::Swamp => matches!(other, Entity::Swamp),
            Entity::Rock => matches!(other, Entity::Rock),
        }
    }

    /// Appends the text form.
    pub fn write_to(&self, out: &mut Vec<char>)
        ensures
            final(out)@ == old(out)@ + entity_text(self@),
    {
        match self {
            Entity::Capital(u) => {
                push_str(out, "capital:");
                let uc = chars_of(u.0.as_str());
                push_chars(out, uc.as_slice());
            },
            Entity::Keep(u) => {
                push_str(out, "keep:");
                let uc = chars_of(u.0.as_str());
                push_chars(out, uc.as_slice());
            },
            Entity::Raider => push_str(out, "raider"),
            Entity::Warrior => push_str(out, "warrior"),
            Entity::Ram => push_str(out, "ram"),
            Entity::Farm => push_str(out, "farm"),
            Entity::Woodcutter => push_str(out, "woodcutter"),
            Entity::Quarry => push_str(out, "quarry"),
            Entity::Lair => push_str(out, "lair"),
            Entity::Barracks => push_str(out, "barracks"),
            Entity::Stockpile(Some(r)) => {
                push_str(out, "stockpile:");
                let rs = r.to_string();
                let rc = chars_of(rs.as_str());
                push_chars(out, rc.as_slice());
            },
            Entity::Stockpile(None) => push_str(out, "stockpile"),
            Entity::Construction(b) => {
                push_str(out, "construction:");
                let bs = b.to_string();
                let bc = chars_of(bs.as_str());
                push_chars(out, bc.as_slice());
            },
            Entity::Road => push_str(out, "road"),
            Entity::Tradepost => push_str(out, "tradepost"),
            Entity::Scoutpost => push_str(out, "scoutpost"),
            Entity::Forest => push_str(out, "forest"),
            Entity::Swamp => push_str(out, "swamp"),
            Entity::Rock => push_str(out, "rock"),
        }
        assert(out@ =~= old(out)@ + entity_text(self@));
    }

    /// The text form.
    pub fn to_string(&self) -> (r: String)
        ensures
            r@ == entity_text(self@),
    {
        let mut out: Vec<char> = Vec::new();
        self.write_to(&mut out);
        assert(out@ =~= entity_text(self@));
        string_of(out.as_slice())
    }

    /// Decodes the text form of an entity.
    pub fn parse(s: &str) -> (r: Result<Entity, ParseError>)
        ensures
            match r {
                Ok(e) => parse_entity(s@) == Ok::<EntityView, Seq<char>>(e@),
                Err(err) => parse_entity(s@) == Err::<EntityView, Seq<char>>(err.msg@),
            },
    {
        let v = chars_of(s);
        Self::parse_chars(v.as_slice())
    }

    /// Decodes the text form of an entity given as characters.
    pub fn parse_chars(v: &[char]) -> (r: Result<Entity, ParseError>)
        ensures
            match r {
                Ok(e) => parse_entity(v@) == Ok::<EntityView, Seq<char>>(e@),
                Err(err) => parse_entity(v@) == Err::<EntityView, Seq<char>>(err.msg@),
            },
    {
        let (typ, arg) = split_once_chars(v, ':');
        let t = folded_chars(typ.as_slice());
        Entity::from_words(t.as_slice(), arg, v)
    }

    /// Decodes an entity from its case-folded kind word `t`, the argument
    /// after its first `:` if there is one, and the whole text `v` (quoted
    /// in the error).
    pub fn from_words(t: &[char], arg: Option<Vec<char>>, v: &[char]) -> (r: Result<Entity, ParseError>)
        ensures
            match r {
                Ok(e) => entity_from(t@, opt_chars(arg), v@) == Ok::<EntityView, Seq<char>>(e@),
                Err(err) => entity_from(t@, opt_chars(arg), v@) == Err::<EntityView, Seq<char>>(
                    err.msg@,
                ),
            },
    {
        match arg {
            Some(a) => {
                if is_word(t, "capital") {
                    Ok(Entity::Capital(UserId(string_of(a.as_slice()))))
                } else if is_word(t, "keep") {
                    Ok(Entity::Keep(UserId(string_of(a.as_slice()))))
                } else if is_word(t, "stockpile") {
                    match Resource::parse_chars(a.as_slice()) {
                        Ok(r) => Ok(Entity::Stockpile(Some(r))),
                        Err(e) => Err(e),
                    }
                } else if is_word(t, "construction") {
                    match BuildingType::parse_chars(a.as_slice()) {
                        Ok(b) => Ok(Entity::Construction(b)),
                        Err(e) => Err(e),
                    }
                } else {
                    Err(ParseError::quoted("Invalid entity '", v, "'"))
                }
            },
            None => match Entity::bare(t) {
                Some(e) => Ok(e),
                None => Err(ParseError::quoted("Invalid entity '", v, "'")),
            },
        }
    }
}

/// The characters of an optional argument.
pub open spec fn opt_chars(a: Option<Vec<char>>) -> Option<Seq<char>> {
    match a {
        Some(v) => Some(v@),
        None => None,
    }
}

impl Entity {
    /// The entity written by a name that takes no argument.
    pub fn bare(w: &[char]) -> (r: Option<Entity>)
        ensures
            match r {
                Some(e) => bare_entity_named(w@) == Some(e@),
                None => bare_entity_named(w@) is None,
            },
    {
        if is_word(w, "raider") {
            Some(Entity::Raider)
        } else if is_word(w, "warrior") {
            Some(Entity::Warrior)
        } else if is_word(w, "ram") {
            Some(Entity::Ram)
        } else if is_word(w, "farm") {
            Some(Entity::Farm)
        } else if is_word(w, "woodcutter") {
            Some(Entity::Woodcutter)
        } else if is_word(w, "quarry") {
            Some(Entity::Quarry)
        } else if is_word(w, "lair") {
            Some(Entity::Lair)
        } else if is_word(w, "barracks") {
            Some(Entity::Barracks)
        } else if is_word(w, "stockpile") {
            Some(Entity::Stockpile(None))
        } else if is_word(w, "road") {
            Some(Entity::Road)
        } else if is_word(w, "tradepost") {
            Some(Entity::Tradepost)
        } else if is_word(w, "scoutpost") {
            Some(Entity::Scoutpost)
        } else if is_word(w, "forest") {
            Some(Entity::Forest)
        } else if is_word(w, "swamp") {
            Some(Entity::Swamp)
        } else if is_word(w, "rock") {
            Some(Entity::Rock)
        } else {
            None
        }
    }
}

impl PartialEq for Entity {
    fn eq(&self, other: &Entity) -> (r: bool) {
        self.same(other)
    }
}

impl vstd::std_specs::cmp::PartialEqSpecImpl for Entity {
    open spec fn obeys_eq_spec() -> bool {
        true
    }

    open spec fn eq_spec(&self, other: &Entity) -> bool {
        self@ == other@
    }
}

impl Eq for Entity {

}

impl std::str::FromStr for Entity {
    type Err = ParseError;

    fn from_str(s: &str) -> Result<Entity, ParseError> {
        Entity::parse(s)
    }
}

} // verus!
