use vstd::prelude::*;

use crate::commands::{parse_command, Command};
use crate::errors::ParseError;
use crate::text::{chars_of, push_chars, push_str, split_all, split_all_chars, string_of, trim, trim_chars};

verus! {

/// A line is skipped when it is blank or, once trimmed, starts with `#`.
pub open spec fn skipped(line: Seq<char>) -> bool {
    trim(line).len() == 0 || trim(line)[0] == '#'
}

/// What decoding one kept line gives, with the line quoted in the error.
pub open spec fn parse_line(line: Seq<char>) -> Result<Command, Seq<char>> {
    let t = trim(line);
    match parse_command(t) {
        Ok(c) => Ok(c),
        Err(e) => Err("Failed to parse '"@ + t + "': "@ + e),
    }
}

/// The results of the kept lines among `lines`, in order.
pub open spec fn parse_lines(lines: Seq<Seq<char>>) -> Seq<Result<Command, Seq<char>>>
    decreases lines.len(),
{
    if lines.len() == 0 {
        Seq::empty()
    } else if skipped(lines.last()) {
        parse_lines(lines.drop_last())
    } else {
        parse_lines(lines.drop_last()).push(parse_line(lines.last()))
    }
}

/// A decoded command, or the message of its error.
pub open spec fn result_view(r: Result<Command, ParseError>) -> Result<Command, Seq<char>> {
    match r {
        Ok(c) => Ok(c),
        Err(e) => Err(e.msg@),
    }
}

/// Decodes a batch of commands, one per line; blank lines and lines starting
/// with `#` are skipped, and a line that fails does not stop the others.
pub fn parse_input(input: &str) -> (r: Vec<Result<Command, ParseError>>)
    ensures
        r@.map_values(|x: Result<Command, ParseError>| result_view(x)) == parse_lines(
            split_all(input@, '\n'),
        ),
{
    let v = chars_of(input);
    let lines = split_all_chars(v.as_slice(), '\n');
    let ghost all = split_all(input@, '\n');
    let mut out: Vec<Result<Command, ParseError>> = Vec::new();
    let mut i: usize = 0;
    while i < lines.len()
        invariant
            lines@.len() == all.len(),
            forall|k: int| 0 <= k < lines@.len() ==> #[trigger] lines@[k]@ == all[k],
            i <= lines@.len(),
            out@.map_values(|x: Result<Command, ParseError>| result_view(x)) == parse_lines(
                all.subrange(0, i as int),
            ),
        decreases lines.len() - i,
    {
        let t = trim_chars(lines[i].as_slice());
        proof {
            assert(all.subrange(0, i + 1).drop_last() =~= all.subrange(0, i as int));
            assert(all.subrange(0, i + 1).last() == lines@[i as int]@);
        }
        if t.len() == 0 || t[0] == '#' {
        } else {
            let res = match Command::parse_chars(t.as_slice()) {
                Ok(c) => Ok(c),
                Err(e) => {
                    let ec = chars_of(e.msg.as_str());
                    let mut m: Vec<char> = Vec::new();
                    push_str(&mut m, "Failed to parse '");
                    push_chars(&mut m, t.as_slice());
                    push_str(&mut m, "': ");
                    push_chars(&mut m, ec.as_slice());
                    Err(ParseError { msg: string_of(m.as_slice()) })
                },
            };
            let ghost before = out@;
            out.push(res);
            proof {
                assert(out@.map_values(|x: Result<Command, ParseError>| result_view(x)) =~= before.map_values(
                    |x: Result<Command, ParseError>| result_view(x),
                ).push(result_view(res)));
            }
        }
        i = i + 1;
    }
    proof {
        assert(all.subrange(0, all.len() as int) =~= all);
    }
    out
}

} // verus!
