//! Command-line arguments of the ebuild shell commands.
//!
//! Each command declares a small interface: at most one boolean short flag,
//! whether `-h` asks for help (`--help` always does), how many leading
//! positional arguments may begin with a hyphen, and how many positional
//! arguments it takes. `--` ends option processing; everything after it is
//! positional. A lone `-` is always a value.

use vstd::prelude::*;
use crate::chars::views;
use crate::shell::str_eq;
use crate::chars::chars_of;

verus! {

/// Why a command line was rejected.
#[derive(Clone, Copy, PartialEq, Eq, Structural, Debug)]
pub enum ArgError {
    /// Help was requested.
    Help,
    /// An option the command doesn't know, at this argument index.
    Unexpected(usize),
    /// A flag given a second time, at this argument index.
    Repeated(usize),
    /// Fewer positional arguments than the command requires.
    Missing,
    /// A positional argument beyond those the command takes, at this index.
    TooMany(usize),
    /// A value that doesn't parse, at this argument index.
    InvalidValue(usize),
}

/// The interface of a command.
#[derive(Clone, Copy, Debug)]
pub struct CliSpec {
    /// The command's boolean short flag, if it has one.
    pub flag: Option<char>,
    /// Whether `-h` asks for help.
    pub help_short: bool,
    /// How many leading positional arguments may begin with a hyphen.
    pub hyphen_first: usize,
    /// The least number of positional arguments.
    pub min_pos: usize,
    /// The greatest number of positional arguments.
    pub max_pos: usize,
}

/// What one argument is, given the state of the scan.
#[derive(Debug)]
pub enum Token {
    Escape,
    HelpRequest,
    Flag,
    Value,
    Unknown,
}

/// Classify an argument: after `--` everything is a value; otherwise `--`,
/// help requests and the flag are recognised, and any other argument of two
/// or more characters that begins with `-` is a value only where the next
/// positional slot accepts hyphen values.
pub open spec fn classify(spec: CliSpec, a: Seq<char>, escaped: bool, npos: nat) -> Token {
    if escaped {
        Token::Value
    } else if a == "--"@ {
        Token::Escape
    } else if a == "--help"@ {
        Token::HelpRequest
    } else if spec.help_short && a == "-h"@ {
        Token::HelpRequest
    } else if spec.flag matches Some(c) && a == seq!['-', c] {
        Token::Flag
    } else if a.len() >= 2 && a[0] == '-' {
        if npos < spec.hyphen_first {
            Token::Value
        } else {
            Token::Unknown
        }
    } else {
        Token::Value
    }
}

/// The outcome of scanning `args` from index `i`, given whether `--` was seen,
/// whether the flag was seen and the positional values so far.
pub open spec fn cli_run(
    spec: CliSpec,
    args: Seq<Seq<char>>,
    i: int,
    escaped: bool,
    flag: bool,
    pos: Seq<Seq<char>>,
) -> Result<(bool, Seq<Seq<char>>), ArgError>
    decreases args.len() - i,
{
    if i < 0 || i >= args.len() {
        if pos.len() < spec.min_pos {
            Err(ArgError::Missing)
        } else {
            Ok((flag, pos))
        }
    } else {
        match classify(spec, args[i], escaped, pos.len()) {
            Token::Escape => cli_run(spec, args, i + 1, true, flag, pos),
            Token::HelpRequest => Err(ArgError::Help),
            Token::Flag => if flag {
                Err(ArgError::Repeated(i as usize))
            } else {
                cli_run(spec, args, i + 1, escaped, true, pos)
            },
            Token::Unknown => Err(ArgError::Unexpected(i as usize)),
            Token::Value => if pos.len() >= spec.max_pos {
                Err(ArgError::TooMany(i as usize))
            } else {
                cli_run(spec, args, i + 1, escaped, flag, pos.push(args[i]))
            },
        }
    }
}

/// The outcome of parsing a whole command line.
pub open spec fn parse_spec(spec: CliSpec, args: Seq<Seq<char>>) -> Result<
    (bool, Seq<Seq<char>>),
    ArgError,
> {
    cli_run(spec, args, 0, false, false, Seq::empty())
}

/// A parsed command line: whether the flag was given, and the positional values.
#[derive(Debug)]
pub struct Parsed {
    pub flag: bool,
    pub values: Vec<String>,
}

fn classify_exec(spec: &CliSpec, a: &String, escaped: bool, npos: usize) -> (r: Token)
    ensures
        r == classify(*spec, a@, escaped, npos as nat),
{
    if escaped {
        return Token::Value;
    }
    if str_eq(a.as_str(), "--") {
        return Token::Escape;
    }
    if str_eq(a.as_str(), "--help") {
        return Token::HelpRequest;
    }
    if spec.help_short && str_eq(a.as_str(), "-h") {
        return Token::HelpRequest;
    }
    let cs = chars_of(a.as_str());
    if let Some(c) = spec.flag {
        if cs.len() == 2 && cs[0] == '-' && cs[1] == c {
            assert(cs@ =~= seq!['-', c]);
            proof {
                reveal_strlit("--");
                reveal_strlit("--help");
                reveal_strlit("-h");
            }
            return Token::Flag;
        }
        assert(a@ != seq!['-', c]);
    }
    if cs.len() >= 2 && cs[0] == '-' {
        if npos < spec.hyphen_first {
            Token::Value
        } else {
            Token::Unknown
        }
    } else {
        Token::Value
    }
}

/// Parse a command line against a command's interface.
pub fn parse_args(spec: &CliSpec, args: &Vec<String>) -> (r: Result<Parsed, ArgError>)
    ensures
        match r {
            Ok(p) => parse_spec(*spec, views(args@)) == Ok::<(bool, Seq<Seq<char>>), ArgError>(
                (p.flag, views(p.values@)),
            ),
            Err(e) => parse_spec(*spec, views(args@)) == Err::<(bool, Seq<Seq<char>>), ArgError>(
                e,
            ),
        },
{
    let ghost a = views(args@);
    let mut escaped = false;
    let mut flag = false;
    let mut values: Vec<String> = Vec::new();
    let mut i: usize = 0;
    assert(views(values@) =~= Seq::<Seq<char>>::empty());
    while i < args.len()
        invariant
            i <= args@.len(),
            a == views(args@),
            parse_spec(*spec, a) == cli_run(*spec, a, i as int, escaped, flag, views(values@)),
        decreases args@.len() - i,
    {
        let t = classify_exec(spec, &args[i], escaped, values.len());
        match t {
            Token::Escape => {
                escaped = true;
            },
            Token::HelpRequest => {
                return Err(ArgError::Help);
            },
            Token::Flag => {
                if flag {
                    return Err(ArgError::Repeated(i));
                }
                flag = true;
            },
            Token::Unknown => {
                return Err(ArgError::Unexpected(i));
            },
            Token::Value => {
                if values.len() >= spec.max_pos {
                    return Err(ArgError::TooMany(i));
                }
                let ghost before = views(values@);
                values.push(args[i].clone());
                assert(views(values@) =~= before.push(a[i as int]));
            },
        }
        i = i + 1;
    }
    if values.len() < spec.min_pos {
        return Err(ArgError::Missing);
    }
    Ok(Parsed { flag, values })
}

} // verus!
