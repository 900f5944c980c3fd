use vstd::prelude::*;

use crate::errors::ParseError;
use crate::text::{
    chars_of, folded, folded_chars, int_text, is_number_char, is_word, lemma_int_round_trip,
    lemma_split_all_none, lemma_split_all_prefix, parse_i32, parse_int, push_chars, push_int,
    push_str, split_all, split_all_chars, string_of,
};

verus! {

/// A tile coordinate, or a two-dimensional size measured in tiles or plots.
#[derive(Debug, Clone, Copy, PartialEq, Eq, Hash, Structural)]
pub struct Pos {
    pub x: i32,
    pub y: i32,
}

/// A width and a height.
pub type Size = Pos;

/// The absolute value of `i`.
pub open spec fn abs(i: int) -> int {
    if i < 0 {
        -i
    } else {
        i
    }
}

/// The L1 (Manhattan) distance between two positions.
pub open spec fn dist(a: Pos, b: Pos) -> int {
    abs(b.x - a.x) + abs(b.y - a.y)
}

/// Distance does not depend on the direction it is measured in.
pub proof fn lemma_distance_symmetric(a: Pos, b: Pos)
    ensures
        dist(a, b) == dist(b, a),
{
}

impl Pos {
    /// The position `(x, y)`.
    pub fn new(x: i32, y: i32) -> (r: Pos)
        ensures
            r.x == x,
            r.y == y,
    {
        Pos { x, y }
    }

    /// The L1 distance to `other`.
    pub fn distance_to(self, other: Pos) -> (r: i32)
        requires
            dist(self, other) <= i32::MAX,
        ensures
            r == dist(self, other),
    {
        let dx: i64 = other.x as i64 - self.x as i64;
        let dy: i64 = other.y as i64 - self.y as i64;
        let ax: i64 = if dx < 0 {
            -dx
        } else {
            dx
        };
        let ay: i64 = if dy < 0 {
            -dy
        } else {
            dy
        };
        (ax + ay) as i32
    }

    /// Decodes `"<x>,<y>"`.
    pub fn parse(s: &str) -> (r: Result<Pos, ParseError>)
        ensures
            match r {
                Ok(p) => parse_pos(s@) == Ok::<Pos, Seq<char>>(p),
                Err(e) => parse_pos(s@) == Err::<Pos, Seq<char>>(e.msg@),
            },
    {
        let v = chars_of(s);
        Self::parse_chars(v.as_slice())
    }

    /// Decodes `"<x>,<y>"` given as characters.
    pub fn parse_chars(v: &[char]) -> (r: Result<Pos, ParseError>)
        ensures
            match r {
                Ok(p) => parse_pos(v@) == Ok::<Pos, Seq<char>>(p),
                Err(e) => parse_pos(v@) == Err::<Pos, Seq<char>>(e.msg@),
            },
    {
        let coords = split_all_chars(v, ',');
        if coords.len() != 2 {
            return Err(
                ParseError::quoted(
                    "Position must be 2 integers separated by a comma. Found '",
                    v,
                    "'",
                ),
            );
        }
        let x = match parse_i32(coords[0].as_slice()) {
            Ok(x) => x,
            Err(e) => {
                let ec = chars_of(e.as_str());
                let mut out: Vec<char> = Vec::new();
                push_str(&mut out, "Invalid Position '");
                push_chars(&mut out, v);
                push_str(&mut out, "': ");
                push_chars(&mut out, ec.as_slice());
                return Err(ParseError { msg: string_of(out.as_slice()) });
            },
        };
        let y = match parse_i32(coords[1].as_slice()) {
            Ok(y) => y,
            Err(e) => {
                let ec = chars_of(e.as_str());
                let mut out: Vec<char> = Vec::new();
                push_str(&mut out, "Invalid Position '");
                push_chars(&mut out, v);
                push_str(&mut out, "': ");
                push_chars(&mut out, ec.as_slice());
                return Err(ParseError { msg: string_of(out.as_slice()) });
            },
        };
        Ok(Pos::new(x, y))
    }

    /// Appends `"<x>,<y>"`.
    pub fn write_to(self, out: &mut Vec<char>)
        ensures
            final(out)@ == old(out)@ + pos_text(self),
    {
        push_int(out, self.x);
        out.push(',');
        push_int(out, self.y);
        assert(out@ =~= old(out)@ + pos_text(self));
    }

    /// The text `"<x>,<y>"`.
    pub fn to_string(self) -> (r: String)
        ensures
            r@ == pos_text(self),
    {
        let mut out: Vec<char> = Vec::new();
        self.write_to(&mut out);
        assert(out@ =~= pos_text(self));
        string_of(out.as_slice())
    }
}

impl std::str::FromStr for Pos {
    type Err = ParseError;

    fn from_str(s: &str) -> Result<Pos, ParseError> {
        Pos::parse(s)
    }
}

/// The text of a position.
pub open spec fn pos_text(p: Pos) -> Seq<char> {
    int_text(p.x as int) + seq![','] + int_text(p.y as int)
}

/// The characters a position's text is made of.
pub open spec fn is_pos_char(c: char) -> bool {
    is_number_char(c) || c == ','
}

/// Decoding the text of a position gives the position back; the text is
/// made of digits, minus signs and one comma.
pub proof fn lemma_pos_round_trip(p: Pos)
    ensures
        parse_pos(pos_text(p)) == Ok::<Pos, Seq<char>>(p),
        forall|i: int| 0 <= i < pos_text(p).len() ==> #[trigger] is_pos_char(pos_text(p)[i]),
        pos_text(p).len() >= 3,
{
    let tx = int_text(p.x as int);
    let ty = int_text(p.y as int);
    lemma_int_round_trip(p.x as int);
    lemma_int_round_trip(p.y as int);
    assert forall|i: int| 0 <= i < tx.len() implies tx[i] != ',' by {
        assert(is_number_char(tx[i]));
    }
    assert forall|i: int| 0 <= i < ty.len() implies ty[i] != ',' by {
        assert(is_number_char(ty[i]));
    }
    lemma_split_all_prefix(tx, ty, ',');
    lemma_split_all_none(ty, ',');
    assert(split_all(pos_text(p), ',') =~= seq![tx, ty]);
    assert forall|i: int| 0 <= i < pos_text(p).len() implies #[trigger] is_pos_char(pos_text(p)[i]) by {
        if i < tx.len() {
            assert(pos_text(p)[i] == tx[i]);
        } else if i > tx.len() {
            assert(pos_text(p)[i] == ty[i - tx.len() - 1]);
        }
    }
}

/// The error message of a malformed position `s` whose coordinate failed with `e`.
pub open spec fn invalid_pos_msg(s: Seq<char>, e: Seq<char>) -> Seq<char> {
    "Invalid Position '"@ + s + "': "@ + e
}

/// What decoding `s` as a position gives: the position, or the error message.
pub open spec fn parse_pos(s: Seq<char>) -> Result<Pos, Seq<char>> {
    let coords = split_all(s, ',');
    if coords.len() != 2 {
        Err("Position must be 2 integers separated by a comma. Found '"@ + s + "'"@)
    } else {
        match parse_int(coords[0]) {
            Err(e) => Err(invalid_pos_msg(s, e)),
            Ok(x) => match parse_int(coords[1]) {
                Err(e) => Err(invalid_pos_msg(s, e)),
                Ok(y) => Ok(Pos { x: x as i32, y: y as i32 }),
            },
        }
    }
}

/// One of the four axis-aligned directions.
#[derive(Debug, Clone, Copy, PartialEq, Eq, Hash, Structural)]
pub enum Direction {
    North,
    South,
    East,
    West,
}

/// The unit step of a direction; north is towards smaller `y`.
pub open spec fn step(d: Direction) -> (int, int) {
    match d {
        Direction::North => (0, -1),
        Direction::South => (0, 1),
        Direction::East => (1, 0),
        Direction::West => (-1, 0),
    }
}

/// The lowercase name of a direction.
pub open spec fn direction_name(d: Direction) -> Seq<char> {
    match d {
        Direction::North => "north"@,
        Direction::South => "south"@,
        Direction::East => "east"@,
        Direction::West => "west"@,
    }
}

/// The direction whose name is `w`, if any.
pub open spec fn direction_named(w: Seq<char>) -> Option<Direction> {
    if w == "north"@ {
        Some(Direction::North)
    } else if w == "south"@ {
        Some(Direction::South)
    } else if w == "east"@ {
        Some(Direction::East)
    } else if w == "west"@ {
        Some(Direction::West)
    } else {
        None
    }
}

/// What decoding `s` as a direction gives, ignoring case.
pub open spec fn parse_direction(s: Seq<char>) -> Result<Direction, Seq<char>> {
    match direction_named(folded(s)) {
        Some(d) => Ok(d),
        None => Err("Invalid direction '"@ + s + "'"@),
    }
}

impl Direction {
    /// The unit step towards this direction.
    pub fn to_pos(&self) -> (r: Pos)
        ensures
            r.x == step(*self).0,
            r.y == step(*self).1,
    {
        match self {
            Direction::North => Pos::new(0, -1),
            Direction::South => Pos::new(0, 1),
            Direction::East => Pos::new(1, 0),
            Direction::West => Pos::new(-1, 0),
        }
    }

    /// All four directions: north, south, east, west.
    pub fn directions() -> (r: Vec<Direction>)
        ensures
            r@ == seq![Direction::North, Direction::South, Direction::East, Direction::West],
    {
        vec![Direction::North, Direction::South, Direction::East, Direction::West]
    }

    /// The lowercase name.
    pub fn to_string(&self) -> (r: String)
        ensures
            r@ == direction_name(*self),
    {
        match self {
            Direction::North => crate::text::owned("north"),
            Direction::South => crate::text::owned("south"),
            Direction::East => crate::text::owned("east"),
            Direction::West => crate::text::owned("west"),
        }
    }

    /// Decodes a direction name, ignoring case.
    pub fn parse(s: &str) -> (r: Result<Direction, ParseError>)
        ensures
            match r {
                Ok(d) => parse_direction(s@) == Ok::<Direction, Seq<char>>(d),
                Err(e) => parse_direction(s@) == Err::<Direction, Seq<char>>(e.msg@),
            },
    {
        let v = chars_of(s);
        Self::parse_chars(v.as_slice())
    }

    /// Decodes a direction name given as characters, ignoring case.
    pub fn parse_chars(v: &[char]) -> (r: Result<Direction, ParseError>)
        ensures
            match r {
                Ok(d) => parse_direction(v@) == Ok::<Direction, Seq<char>>(d),
                Err(e) => parse_direction(v@) == Err::<Direction, Seq<char>>(e.msg@),
            },
    {
        let w = folded_chars(v);
        match Direction::named(w.as_slice()) {
            Some(d) => Ok(d),
            None => Err(ParseError::quoted("Invalid direction '", v, "'")),
        }
    }

    /// The direction whose lowercase name is `w`, if any.
    pub fn named(w: &[char]) -> (r: Option<Direction>)
        ensures
            r == direction_named(w@),
    {
        if is_word(w, "north") {
            Some(Direction::North)
        } else if is_word(w, "south") {
            Some(Direction::South)
        } else if is_word(w, "east") {
            Some(Direction::East)
        } else if is_word(w, "west") {
            Some(Direction::West)
        } else {
            None
        }
    }
}

impl std::str::FromStr for Direction {
    type Err = ParseError;

    fn from_str(s: &str) -> Result<Direction, ParseError> {
        Direction::parse(s)
    }
}

} // verus!
