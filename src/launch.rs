use vstd::prelude::*;
use vstd::string::StringExecFns;

use crate::text::{chars_of, occurs_at, occurs_at_pos, occurs_within, occurs_within_range};

verus! {

/// The argument that may name a script: the first one, unless it is an option.
pub open spec fn script_candidate_spec(args: Seq<String>) -> Option<Seq<char>> {
    if args.len() > 0 && !(args[0]@.len() > 0 && args[0]@[0] == '-') {
        Some(args[0]@)
    } else {
        None
    }
}

/// The first argument, where it does not start with `-` and so may name a script to run.
pub fn script_candidate(args: &[String]) -> (r: Option<String>)
    ensures
        match r {
            Some(c) => script_candidate_spec(args@) == Some(c@),
            None => script_candidate_spec(args@) is None,
        },
{
    if args.len() == 0 {
        return None;
    }
    let first = chars_of(args[0].as_str());
    if first.len() > 0 && first[0] == '-' {
        return None;
    }
    Some(args[0].clone())
}

pub open spec fn ascii_lower(c: char) -> char {
    if 'A' <= c && c <= 'Z' {
        ((c as u32) + 32) as char
    } else {
        c
    }
}

/// `line` starts with `#!` and names `python` in any ASCII case.
pub open spec fn is_python_shebang_spec(line: Seq<char>) -> bool {
    occurs_at(line, "#!"@, 0) && occurs_within(
        line.map_values(|c: char| ascii_lower(c)),
        "python"@,
        0,
        line.len() as int,
    )
}

/// Whether the first line of a file is a shebang that runs Python.
pub fn is_python_shebang_line(line: &str) -> (r: bool)
    ensures
        r == is_python_shebang_spec(line@),
{
    let s = chars_of(line);
    let bang = chars_of("#!");
    if !occurs_at_pos(&s, &bang, 0) {
        return false;
    }
    let mut lower: Vec<char> = Vec::new();
    for k in 0..s.len()
        invariant
            s@ == line@,
            lower@ == s@.take(k as int).map_values(|c: char| ascii_lower(c)),
    {
        let c = s[k];
        let l = if 'A' <= c && c <= 'Z' {
            ((c as u8) + 32) as char
        } else {
            c
        };
        lower.push(l);
        assert(lower@ =~= s@.take(k + 1).map_values(|c: char| ascii_lower(c)));
    }
    assert(s@.take(s.len() as int) =~= s@);
    let python = chars_of("python");
    occurs_within_range(&lower, &python, 0, lower.len())
}

/// What to run: the script found for the first argument with the arguments after it, or
/// the interpreter with every argument.
pub open spec fn resolve_spec(python: Seq<char>, args: Seq<String>, script: Option<Seq<char>>) -> (
    Seq<char>,
    Seq<Seq<char>>,
) {
    match script {
        Some(p) => if args.len() > 0 {
            (p, views(args.skip(1)))
        } else {
            (python, views(args))
        },
        None => (python, views(args)),
    }
}

/// The text of each string.
pub open spec fn views(s: Seq<String>) -> Seq<Seq<char>> {
    s.map_values(|a: String| a@)
}

fn clone_from(args: &[String], from: usize) -> (r: Vec<String>)
    requires
        from <= args.len(),
    ensures
        views(r@) == views(args@.skip(from as int)),
{
    let mut out: Vec<String> = Vec::new();
    let mut k = from;
    while k < args.len()
        invariant
            from <= k <= args.len(),
            views(out@) == views(args@.subrange(from as int, k as int)),
        decreases args.len() - k,
    {
        let ghost prev = out@;
        let x = args[k].clone();
        assert(x@ == args@[k as int]@);
        out.push(x);
        assert(out@ == prev.push(x));
        assert(views(out@) =~= views(prev).push(x@));
        assert(args@.subrange(from as int, k + 1) =~= args@.subrange(from as int, k as int).push(
            args@[k as int],
        ));
        assert(views(out@) =~= views(args@.subrange(from as int, k + 1)));
        k = k + 1;
    }
    assert(args@.subrange(from as int, args.len() as int) =~= args@.skip(from as int));
    out
}

/// Picks the program to run and its arguments. `script` is the path at which the first
/// argument was found to be a Python script, if it was.
pub fn resolve_executable_script(python: &str, args: &[String], script: Option<String>) -> (r: (
    String,
    Vec<String>,
))
    ensures
        (r.0@, views(r.1@)) == resolve_spec(
            python@,
            args@,
            match script {
                Some(p) => Some(p@),
                None => None,
            },
        ),
{
    match script {
        Some(p) => if args.len() > 0 {
            return (p, clone_from(args, 1));
        },
        None => {},
    }
    assert(args@.skip(0) =~= args@);
    (String::from_str(python), clone_from(args, 0))
}

} // verus!
