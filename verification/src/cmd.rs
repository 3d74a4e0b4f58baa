//! Reading the command to run after a build: a program and its arguments,
//! separated by white space.
use vstd::prelude::*;
use crate::text::words;

verus! {

/// The program (the first word) and its arguments (the other words); `None`
/// when the command has no word at all.
pub open spec fn command_parts(command: Seq<char>) -> Option<(Seq<char>, Seq<Seq<char>>)> {
    let ws = words(command);
    if ws.len() == 0 {
        None
    } else {
        Some((ws[0], ws.skip(1)))
    }
}

pub fn parse_command(command_string: &str) -> (r: Option<(String, Vec<String>)>)
    ensures
        match r {
            Some((program, params)) => command_parts(command_string@) == Some(
                (program@, params.deep_view()),
            ),
            None => command_parts(command_string@) is None,
        },
{
    let ws = crate::text::split_whitespace(command_string);
    if ws.len() == 0 {
        return None;
    }
    let program = ws[0].clone();
    let mut params: Vec<String> = Vec::new();
    let mut i: usize = 1;
    while i < ws.len()
        invariant
            1 <= i <= ws@.len(),
            params.deep_view() == ws.deep_view().subrange(1, i as int),
        decreases ws@.len() - i,
    {
        let ghost before = params.deep_view();
        params.push(ws[i].clone());
        assert(params.deep_view() =~= before.push(ws.deep_view()[i as int]));
        i = i + 1;
        assert(ws.deep_view().subrange(1, i as int) =~= before.push(ws.deep_view()[i - 1]));
    }
    assert(ws.deep_view().subrange(1, i as int) =~= ws.deep_view().skip(1));
    Some((program, params))
}

} // verus!
