use vstd::prelude::*;

use crate::buildings::{parse_building, BuildingType};
use crate::errors::ParseError;
use crate::locations::{parse_direction, parse_pos, Direction, Pos};
use crate::text::{chars_of, folded, folded_chars, halves, halves_chars, is_word};

verus! {

/// One order of a player, on the tile `pos`.
#[derive(Debug, PartialEq, Eq, Clone, Copy, Hash, Structural)]
pub struct Command {
    pub pos: Pos,
    pub action: Action,
}

/// What a command does on its tile.
#[derive(Debug, PartialEq, Eq, Clone, Copy, Hash, Structural)]
pub enum Action {
    Build(BuildingType),
    Move(Pos),
    Attack(Direction),
    Remove,
    Use,
    Claim,
}

/// What decoding `s` as an action gives: its kind word (any case) and,
/// after the first space, its argument.
pub open spec fn parse_action(s: Seq<char>) -> Result<Action, Seq<char>> {
    let (kind, arg) = halves(s, ' ');
    action_from(folded(kind), kind, arg)
}

/// What an action decodes to, given its kind word `kind`, that word
/// case-folded `k`, and its argument `arg`.
pub open spec fn action_from(k: Seq<char>, kind: Seq<char>, arg: Seq<char>) -> Result<Action, Seq<char>> {
    if k == "build"@ {
        match parse_building(arg) {
            Ok(b) => Ok(Action::Build(b)),
            Err(e) => Err(e),
        }
    } else if k == "move"@ {
        match parse_pos(arg) {
            Ok(p) => Ok(Action::Move(p)),
            Err(e) => Err(e),
        }
    } else if k == "attack"@ {
        match parse_direction(arg) {
            Ok(d) => Ok(Action::Attack(d)),
            Err(e) => Err(e),
        }
    } else if k == "remove"@ {
        Ok(Action::Remove)
    } else if k == "use"@ {
        Ok(Action::Use)
    } else if k == "claim"@ {
        Ok(Action::Claim)
    } else {
        Err("Invalid action '"@ + kind + "'"@)
    }
}

/// What decoding `s` as a command gives: a position, a space, an action.
pub open spec fn parse_command(s: Seq<char>) -> Result<Command, Seq<char>> {
    let (p, a) = halves(s, ' ');
    match parse_pos(p) {
        Err(e) => Err(e),
        Ok(pos) => match parse_action(a) {
            Err(e) => Err(e),
            Ok(action) => Ok(Command { pos, action }),
        },
    }
}

impl Action {
    /// Decodes an action.
    pub fn parse(s: &str) -> (r: Result<Action, ParseError>)
        ensures
            match r {
                Ok(a) => parse_action(s@) == Ok::<Action, Seq<char>>(a),
                Err(e) => parse_action(s@) == Err::<Action, Seq<char>>(e.msg@),
            },
    {
        let v = chars_of(s);
        Self::parse_chars(v.as_slice())
    }

    /// Decodes an action given as characters.
    pub fn parse_chars(v: &[char]) -> (r: Result<Action, ParseError>)
        ensures
            match r {
                Ok(a) => parse_action(v@) == Ok::<Action, Seq<char>>(a),
                Err(e) => parse_action(v@) == Err::<Action, Seq<char>>(e.msg@),
            },
    {
        let (kind, arg) = halves_chars(v, ' ');
        let k = folded_chars(kind.as_slice());
        Action::from_words(k.as_slice(), kind.as_slice(), arg.as_slice())
    }

    /// Decodes an action from its case-folded kind word `k`, the kind word
    /// as written `kind` (quoted in the error), and its argument `arg`.
    pub fn from_words(k: &[char], kind: &[char], arg: &[char]) -> (r: Result<Action, ParseError>)
        ensures
            match r {
                Ok(a) => action_from(k@, kind@, arg@) == Ok::<Action, Seq<char>>(a),
                Err(e) => action_from(k@, kind@, arg@) == Err::<Action, Seq<char>>(e.msg@),
            },
    {
        if is_word(k, "build") {
            match BuildingType::parse_chars(arg) {
                Ok(b) => Ok(Action::Build(b)),
                Err(e) => Err(e),
            }
        } else if is_word(k, "move") {
            match Pos::parse_chars(arg) {
                Ok(p) => Ok(Action::Move(p)),
                Err(e) => Err(e),
            }
        } else if is_word(k, "attack") {
            match Direction::parse_chars(arg) {
                Ok(d) => Ok(Action::Attack(d)),
                Err(e) => Err(e),
            }
        } else if is_word(k, "remove") {
            Ok(Action::Remove)
        } else if is_word(k, "use") {
            Ok(Action::Use)
        } else if is_word(k, "claim") {
            Ok(Action::Claim)
        } else {
            Err(ParseError::quoted("Invalid action '", kind, "'"))
        }
    }
}

impl Command {
    /// Decodes a command.
    pub fn parse(s: &str) -> (r: Result<Command, ParseError>)
        ensures
            match r {
                Ok(c) => parse_command(s@) == Ok::<Command, Seq<char>>(c),
                Err(e) => parse_command(s@) == Err::<Command, Seq<char>>(e.msg@),
            },
    {
        let v = chars_of(s);
        Self::parse_chars(v.as_slice())
    }

    /// Decodes a command given as characters.
    pub fn parse_chars(v: &[char]) -> (r: Result<Command, ParseError>)
        ensures
            match r {
                Ok(c) => parse_command(v@) == Ok::<Command, Seq<char>>(c),
                Err(e) => parse_command(v@) == Err::<Command, Seq<char>>(e.msg@),
            },
    {
        let (p, a) = halves_chars(v, ' ');
        let pos = match Pos::parse_chars(p.as_slice()) {
            Ok(pos) => pos,
            Err(e) => return Err(e),
        };
        let action = match Action::parse_chars(a.as_slice()) {
            Ok(action) => action,
            Err(e) => return Err(e),
        };
        Ok(Command { pos, action })
    }
}

impl std::str::FromStr for Action {
    type Err = ParseError;

    fn from_str(s: &str) -> Result<Action, ParseError> {
        Action::parse(s)
    }
}

impl std::str::FromStr for Command {
    type Err = ParseError;

    fn from_str(s: &str) -> Result<Command, ParseError> {
        Command::parse(s)
    }
}

} // verus!
