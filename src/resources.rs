use vstd::prelude::*;

use crate::errors::ParseError;
use crate::text::{chars_of, folded, folded_chars, is_word, owned};

verus! {

/// A kind of stockpiled good.
#[derive(Debug, Clone, Copy, PartialEq, Eq, Hash, Structural)]
pub enum Resource {
    Food,
    Wood,
    Stone,
    Iron,
}

/// The lowercase name of a resource.
pub open spec fn resource_name(r: Resource) -> Seq<char> {
    match r {
        Resource::Food => "food"@,
        Resource::Wood => "wood"@,
        Resource::Stone => "stone"@,
        Resource::Iron => "iron"@,
    }
}

/// The resource whose name is `w`, if any.
pub open spec fn resource_named(w: Seq<char>) -> Option<Resource> {
    if w == "food"@ {
        Some(Resource::Food)
    } else if w == "wood"@ {
        Some(Resource::Wood)
    } else if w == "stone"@ {
        Some(Resource::Stone)
    } else if w == "iron"@ {
        Some(Resource::Iron)
    } else {
        None
    }
}

/// What decoding `s` as a resource gives, ignoring case.
pub open spec fn parse_resource(s: Seq<char>) -> Result<Resource, Seq<char>> {
    match resource_named(folded(s)) {
        Some(r) => Ok(r),
        None => Err("Invalid resource '"@ + s + "'"@),
    }
}

/// Decoding the name of a resource gives that resource back.
pub proof fn lemma_resource_round_trip(r: Resource)
    ensures
        parse_resource(resource_name(r)) == Ok::<Resource, Seq<char>>(r),
{
    reveal_strlit("food");
    reveal_strlit("wood");
    reveal_strlit("stone");
    reveal_strlit("iron");
    reveal_with_fuel(crate::text::is_lower_word, 6);
    assert(crate::text::is_lower_word(resource_name(r)));
}

impl Resource {
    /// The lowercase name.
    pub fn to_string(&self) -> (r: String)
        ensures
            r@ == resource_name(*self),
    {
        match self {
            Resource::Food => owned("food"),
            Resource::Wood => owned("wood"),
            Resource::Stone => owned("stone"),
            Resource::Iron => owned("iron"),
        }
    }

    /// Decodes a resource name, ignoring case.
    pub fn parse(s: &str) -> (r: Result<Resource, ParseError>)
        ensures
            match r {
                Ok(x) => parse_resource(s@) == Ok::<Resource, Seq<char>>(x),
                Err(e) => parse_resource(s@) == Err::<Resource, Seq<char>>(e.msg@),
            },
    {
        let v = chars_of(s);
        Self::parse_chars(v.as_slice())
    }

    /// Decodes a resource name given as characters, ignoring case.
    pub fn parse_chars(v: &[char]) -> (r: Result<Resource, ParseError>)
        ensures
            match r {
                Ok(x) => parse_resource(v@) == Ok::<Resource, Seq<char>>(x),
                Err(e) => parse_resource(v@) == Err::<Resource, Seq<char>>(e.msg@),
            },
    {
        let w = folded_chars(v);
        match Resource::named(w.as_slice()) {
            Some(r) => Ok(r),
            None => Err(ParseError::quoted("Invalid resource '", v, "'")),
        }
    }

    /// The resource whose lowercase name is `w`, if any.
    pub fn named(w: &[char]) -> (r: Option<Resource>)
        ensures
            r == resource_named(w@),
    {
        if is_word(w, "food") {
            Some(Resource::Food)
        } else if is_word(w, "wood") {
            Some(Resource::Wood)
        } else if is_word(w, "stone") {
            Some(Resource::Stone)
        } else if is_word(w, "iron") {
            Some(Resource::Iron)
        } else {
            None
        }
    }
}

impl std::str::FromStr for Resource {
    type Err = ParseError;

    fn from_str(s: &str) -> Result<Resource, ParseError> {
        Resource::parse(s)
    }
}

/// How many times `r` occurs in `s`.
pub open spec fn count_of(s: Seq<Resource>, r: Resource) -> nat
    decreases s.len(),
{
    if s.len() == 0 {
        0
    } else {
        count_of(s.drop_last(), r) + if s.last() == r {
            1nat
        } else {
            0nat
        }
    }
}

/// A number of units of each resource.
#[derive(Debug, Clone, Copy, PartialEq, Eq, Structural)]
pub struct ResourceCount {
    pub food: usize,
    pub wood: usize,
    pub stone: usize,
    pub iron: usize,
}

impl ResourceCount {
    /// The number of units of `r`.
    pub open spec fn amount(self, r: Resource) -> nat {
        match r {
            Resource::Food => self.food as nat,
            Resource::Wood => self.wood as nat,
            Resource::Stone => self.stone as nat,
            Resource::Iron => self.iron as nat,
        }
    }

    /// The number of units over all resources.
    pub open spec fn total(self) -> nat {
        self.food as nat + self.wood as nat + self.stone as nat + self.iron as nat
    }

    /// Whether there are at least as many units of each resource as in `cost`.
    pub open spec fn covers(self, cost: ResourceCount) -> bool {
        forall|r: Resource| cost.amount(r) <= #[trigger] self.amount(r)
    }

    /// No units at all.
    pub fn new() -> (r: ResourceCount)
        ensures
            forall|x: Resource| r.amount(x) == 0,
    {
        ResourceCount { food: 0, wood: 0, stone: 0, iron: 0 }
    }

    /// The count of each resource in `r`.
    pub fn from_vec(r: &[Resource]) -> (c: ResourceCount)
        ensures
            forall|x: Resource| c.amount(x) == count_of(r@, x),
    {
        let mut count = ResourceCount::new();
        let mut i: usize = 0;
        while i < r.len()
            invariant
                i <= r@.len(),
                forall|x: Resource| count.amount(x) == count_of(r@.subrange(0, i as int), x),
                forall|x: Resource| count.amount(x) <= i,
            decreases r.len() - i,
        {
            proof {
                assert(r@.subrange(0, i + 1).drop_last() =~= r@.subrange(0, i as int));
            }
            count.add_resource(r[i]);
            i = i + 1;
        }
        assert(r@.subrange(0, r@.len() as int) =~= r@);
        count
    }

    /// One more unit of `res`.
    pub fn add_resource(&mut self, res: Resource)
        requires
            old(self).amount(res) < usize::MAX,
        ensures
            final(self).amount(res) == old(self).amount(res) + 1,
            forall|x: Resource| x != res ==> final(self).amount(x) == old(self).amount(x),
    {
        match res {
            Resource::Food => self.food = self.food + 1,
            Resource::Wood => self.wood = self.wood + 1,
            Resource::Stone => self.stone = self.stone + 1,
            Resource::Iron => self.iron = self.iron + 1,
        }
    }

    /// Whether every resource is held at least as often as `cost` asks.
    pub fn can_afford(&self, cost: &ResourceCount) -> (r: bool)
        ensures
            r == self.covers(*cost),
    {
        let r = cost.food <= self.food && cost.wood <= self.wood && cost.stone <= self.stone
            && cost.iron <= self.iron;
        proof {
            if !r {
                if cost.food > self.food {
                    assert(!(cost.amount(Resource::Food) <= self.amount(Resource::Food)));
                } else if cost.wood > self.wood {
                    assert(!(cost.amount(Resource::Wood) <= self.amount(Resource::Wood)));
                } else if cost.stone > self.stone {
                    assert(!(cost.amount(Resource::Stone) <= self.amount(Resource::Stone)));
                } else {
                    assert(!(cost.amount(Resource::Iron) <= self.amount(Resource::Iron)));
                }
            }
        }
        r
    }

    /// Every unit, one entry each: food first, then wood, stone and iron.
    pub fn to_vec(&self) -> (v: Vec<Resource>)
        ensures
            forall|x: Resource| count_of(v@, x) == self.amount(x),
            v@.len() == self.total(),
    {
        let mut v: Vec<Resource> = Vec::new();
        push_units(&mut v, Resource::Food, self.food);
        push_units(&mut v, Resource::Wood, self.wood);
        push_units(&mut v, Resource::Stone, self.stone);
        push_units(&mut v, Resource::Iron, self.iron);
        v
    }
}

impl Default for ResourceCount {
    fn default() -> (r: ResourceCount)
        ensures
            forall|x: Resource| r.amount(x) == 0,
    {
        ResourceCount::new()
    }
}

/// Appends `n` units of `r`.
fn push_units(v: &mut Vec<Resource>, r: Resource, n: usize)
    ensures
        final(v)@.len() == old(v)@.len() + n,
        count_of(final(v)@, r) == count_of(old(v)@, r) + n,
        forall|x: Resource| x != r ==> count_of(final(v)@, x) == count_of(old(v)@, x),
{
    let mut i: usize = 0;
    while i < n
        invariant
            i <= n,
            v@.len() == old(v)@.len() + i,
            count_of(v@, r) == count_of(old(v)@, r) + i,
            forall|x: Resource| x != r ==> count_of(v@, x) == count_of(old(v)@, x),
        decreases n - i,
    {
        let ghost before = v@;
        v.push(r);
        assert(v@.drop_last() =~= before);
        i = i + 1;
    }
}

} // verus!
