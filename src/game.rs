use vstd::prelude::*;

use crate::commands::Command;
use crate::entity::UserId;
use crate::errors::ParseError;
use crate::parser::{parse_input, parse_lines, result_view};
use crate::text::split_all;

verus! {

/// The commands among decoded lines, in order.
pub open spec fn ok_commands(rs: Seq<Result<Command, Seq<char>>>) -> Seq<Command>
    decreases rs.len(),
{
    if rs.len() == 0 {
        Seq::empty()
    } else {
        match rs.last() {
            Ok(c) => ok_commands(rs.drop_last()).push(c),
            Err(_) => ok_commands(rs.drop_last()),
        }
    }
}

/// The error messages among decoded lines, in order.
pub open spec fn error_messages(rs: Seq<Result<Command, Seq<char>>>) -> Seq<Seq<char>>
    decreases rs.len(),
{
    if rs.len() == 0 {
        Seq::empty()
    } else {
        match rs.last() {
            Ok(_) => error_messages(rs.drop_last()),
            Err(e) => error_messages(rs.drop_last()).push(e),
        }
    }
}

/// What a player's input text decodes to, line by line.
pub open spec fn decoded(text: Seq<char>) -> Seq<Result<Command, Seq<char>>> {
    parse_lines(split_all(text, '\n'))
}

/// Every player's failed lines, players in order, each with the player's name.
pub open spec fn all_errors(inputs: Seq<(Seq<char>, Seq<char>)>) -> Seq<(Seq<char>, Seq<char>)>
    decreases inputs.len(),
{
    if inputs.len() == 0 {
        Seq::empty()
    } else {
        let (u, text) = inputs.last();
        all_errors(inputs.drop_last()) + error_messages(decoded(text)).map_values(
            |m: Seq<char>| (u, m),
        )
    }
}

/// Decodes each player's input text: the commands of every player, in
/// order, and the errors of the lines that failed, to be reported to the
/// player who wrote them.
pub fn read_all_commands(inputs: &[(UserId, String)]) -> (r: (
    Vec<(UserId, Vec<Command>)>,
    Vec<(UserId, ParseError)>,
))
    ensures
        r.0@.len() == inputs@.len(),
        forall|i: int|
            0 <= i < inputs@.len() ==> (#[trigger] r.0@[i]).0@ == inputs@[i].0@ && r.0@[i].1@
                == ok_commands(decoded(inputs@[i].1@)),
        r.1@.map_values(|e: (UserId, ParseError)| (e.0@, e.1.msg@)) == all_errors(
            inputs@.map_values(|p: (UserId, String)| (p.0@, p.1@)),
        ),
{
    let ghost iv = inputs@.map_values(|p: (UserId, String)| (p.0@, p.1@));
    let mut commands: Vec<(UserId, Vec<Command>)> = Vec::new();
    let mut errors: Vec<(UserId, ParseError)> = Vec::new();
    let mut i: usize = 0;
    while i < inputs.len()
        invariant
            iv == inputs@.map_values(|p: (UserId, String)| (p.0@, p.1@)),
            i <= inputs@.len(),
            commands@.len() == i,
            forall|a: int|
                0 <= a < i ==> (#[trigger] commands@[a]).0@ == inputs@[a].0@ && commands@[a].1@
                    == ok_commands(decoded(inputs@[a].1@)),
            errors@.map_values(|e: (UserId, ParseError)| (e.0@, e.1.msg@)) == all_errors(
                iv.subrange(0, i as int),
            ),
        decreases inputs.len() - i,
    {
        let results = parse_input(inputs[i].1.as_str());
        let ghost rv = results@.map_values(|x: Result<Command, ParseError>| result_view(x));
        let ghost errors_before = errors@.map_values(|e: (UserId, ParseError)| (e.0@, e.1.msg@));
        let ghost u = inputs@[i as int].0@;
        let mut mine: Vec<Command> = Vec::new();
        let mut j: usize = 0;
        while j < results.len()
            invariant
                i < inputs@.len(),
                rv == results@.map_values(|x: Result<Command, ParseError>| result_view(x)),
                rv == decoded(inputs@[i as int].1@),
                u == inputs@[i as int].0@,
                j <= results@.len(),
                mine@ == ok_commands(rv.subrange(0, j as int)),
                errors@.map_values(|e: (UserId, ParseError)| (e.0@, e.1.msg@)) == errors_before
                    + error_messages(rv.subrange(0, j as int)).map_values(|m: Seq<char>| (u, m)),
            decreases results.len() - j,
        {
            proof {
                assert(rv.subrange(0, j + 1).drop_last() =~= rv.subrange(0, j as int));
                assert(rv.subrange(0, j + 1).last() == rv[j as int]);
            }
            match &results[j] {
                Ok(c) => {
                    mine.push(*c);
                },
                Err(e) => {
                    let ghost before = errors@;
                    errors.push((inputs[i].0.duplicate(), e.clone_error()));
                    proof {
                        let f = |e: (UserId, ParseError)| (e.0@, e.1.msg@);
                        let g = |m: Seq<char>| (u, m);
                        assert(errors@.map_values(f) =~= before.map_values(f).push((u, e.msg@)));
                        assert(error_messages(rv.subrange(0, j + 1)) == error_messages(
                            rv.subrange(0, j as int),
                        ).push(e.msg@));
                        assert(error_messages(rv.subrange(0, j + 1)).map_values(g) =~= error_messages(
                            rv.subrange(0, j as int),
                        ).map_values(g).push((u, e.msg@)));
                    }
                },
            }
            j = j + 1;
        }
        proof {
            assert(rv.subrange(0, rv.len() as int) =~= rv);
            assert(iv.subrange(0, i + 1).drop_last() =~= iv.subrange(0, i as int));
            assert(iv.subrange(0, i + 1).last() == (u, inputs@[i as int].1@));
        }
        commands.push((inputs[i].0.duplicate(), mine));
        i = i + 1;
    }
    proof {
        assert(iv.subrange(0, iv.len() as int) =~= iv);
    }
    (commands, errors)
}

} // verus!
