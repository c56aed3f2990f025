//! The decisions the program takes before it touches the game: which
//! command runs, and how an injection proceeds.

use vstd::prelude::*;
use crate::parser::{Args, ArgsModel};
use crate::text::{
    eq_ignore_ascii_case, same_ignoring_ascii_case, strip_prefix_or_keep, strip_prefix_or_keep_str,
};

verus! {

/// Two commands that cannot run together.
#[derive(Clone, Copy, PartialEq, Eq, Structural, Debug)]
pub enum ModeConflict {
    /// `inject`/`x` with `auto`/`a`.
    InjectAuto,
    /// `inject`/`x` with `decompile`/`d`.
    InjectDecompile,
    /// `auto`/`a` with `decompile`/`d`.
    AutoDecompile,
}

/// What the program does with its options.
#[derive(Clone, Copy, PartialEq, Eq, Structural, Debug)]
pub enum Command {
    /// Print the help text.
    Help,
    /// Print the program's version.
    Version,
    /// Refuse two commands that cannot run together.
    Conflict(ModeConflict),
    /// Find the game and run the commands asked for.
    Run,
}

/// What the options `m` ask for: help first, then the version, then a
/// refusal of the first conflicting pair of commands, else the run.
pub open spec fn command_of(m: ArgsModel) -> Command {
    if m.help {
        Command::Help
    } else if m.version {
        Command::Version
    } else if m.inject && m.auto {
        Command::Conflict(ModeConflict::InjectAuto)
    } else if m.inject && m.decompile {
        Command::Conflict(ModeConflict::InjectDecompile)
    } else if m.auto && m.decompile {
        Command::Conflict(ModeConflict::AutoDecompile)
    } else {
        Command::Run
    }
}

/// What the program does with the options `args`.
pub fn decide_command(args: &Args) -> (r: Command)
    ensures
        r == command_of(args@),
{
    if args.help {
        Command::Help
    } else if args.version {
        Command::Version
    } else if args.inject && args.auto {
        Command::Conflict(ModeConflict::InjectAuto)
    } else if args.inject && args.decompile {
        Command::Conflict(ModeConflict::InjectDecompile)
    } else if args.auto && args.decompile {
        Command::Conflict(ModeConflict::AutoDecompile)
    } else {
        Command::Run
    }
}

/// How the command is chosen: help before everything, then the version;
/// otherwise the program runs exactly when at most one of the commands
/// inject, auto and decompile is asked for, and any two of them together are
/// refused, inject with auto first, then inject with decompile, then auto
/// with decompile.
pub proof fn lemma_command_choice(m: ArgsModel)
    ensures
        m.help ==> command_of(m) == Command::Help,
        !m.help && m.version ==> command_of(m) == Command::Version,
        !m.help && !m.version ==> (command_of(m) == Command::Run <==> (if m.inject {
            1int
        } else {
            0int
        }) + (if m.auto {
            1int
        } else {
            0int
        }) + (if m.decompile {
            1int
        } else {
            0int
        }) <= 1),
        !m.help && !m.version && m.inject && m.auto ==> command_of(m) == Command::Conflict(
            ModeConflict::InjectAuto,
        ),
        !m.help && !m.version && m.inject && m.decompile && !m.auto ==> command_of(m)
            == Command::Conflict(ModeConflict::InjectDecompile),
        !m.help && !m.version && m.auto && m.decompile && !m.inject ==> command_of(m)
            == Command::Conflict(ModeConflict::AutoDecompile),
{
}

/// `s` without a leading `suff` (the text the program strips is at the
/// front, whatever the name says), or `s` itself.
pub fn strip_suffix_if_exists<'a>(s: &'a str, suff: &'a str) -> (r: &'a str)
    ensures
        r@ == strip_prefix_or_keep(s@, suff@),
{
    strip_prefix_or_keep_str(s, suff)
}

/// How an injection proceeds.
pub struct InjectPlan {
    /// The file to inject.
    pub input: String,
    /// Where the file goes inside the game's archive.
    pub output: String,
    /// Where the compressed file is written first, when compressing.
    pub compression_output: Option<String>,
    /// The compressed file, to delete after the injection, when it is not
    /// the input itself (compared ignoring ASCII case).
    pub need_cleanup: Option<String>,
}

/// The file the compressed copy of code bound for `output` is written to:
/// `output` with a leading `.lua` and then a leading `.jkr` removed, and
/// `.jkr` appended.
pub open spec fn compressed_name(output: Seq<char>) -> Seq<char> {
    strip_prefix_or_keep(strip_prefix_or_keep(output, ".lua"@), ".jkr"@) + ".jkr"@
}

/// An option's value, or `default` when it is absent.
pub open spec fn or_default(o: Option<Seq<char>>, default: Seq<char>) -> Seq<char> {
    match o {
        Some(s) => s,
        None => default,
    }
}

/// Plans an injection: the input defaults to `Balatro.lua` and the place in
/// the archive to `DAT1.jkr`; with compression, the compressed copy is
/// written next to [`compressed_name`] and removed afterwards unless it is
/// the input itself.
pub fn plan_injection(input: Option<&str>, output: Option<&str>, compress: bool) -> (p: InjectPlan)
    ensures
        p.input@ == or_default(crate::parser::opt_chars(input), "Balatro.lua"@),
        p.output@ == or_default(crate::parser::opt_chars(output), "DAT1.jkr"@),
        compress ==> (p.compression_output matches Some(c) && c@ == compressed_name(p.output@)),
        !compress ==> p.compression_output is None,
        match p.compression_output {
            Some(c) => if same_ignoring_ascii_case(c@, p.input@) {
                p.need_cleanup is None
            } else {
                p.need_cleanup matches Some(d) && d@ == c@
            },
            None => p.need_cleanup is None,
        },
{
    let input: &str = match input {
        Some(i) => i,
        None => "Balatro.lua",
    };
    let output: &str = match output {
        Some(o) => o,
        None => "DAT1.jkr",
    };
    if compress {
        let mut c = String::from_str(strip_suffix_if_exists(strip_suffix_if_exists(output, ".lua"), ".jkr"));
        c.append(".jkr");
        let cleanup = if eq_ignore_ascii_case(c.as_str(), input) {
            None
        } else {
            Some(String::from_str(c.as_str()))
        };
        InjectPlan {
            input: String::from_str(input),
            output: String::from_str(output),
            compression_output: Some(c),
            need_cleanup: cleanup,
        }
    } else {
        InjectPlan {
            input: String::from_str(input),
            output: String::from_str(output),
            compression_output: None,
            need_cleanup: None,
        }
    }
}

/// Where the game's files are extracted: the output given, or `decompiled`.
pub fn decompile_dir(output: Option<&str>) -> (r: String)
    ensures
        r@ == or_default(crate::parser::opt_chars(output), "decompiled"@),
{
    match output {
        Some(o) => String::from_str(o),
        None => String::from_str("decompiled"),
    }
}

/// The compressed copy of game code is always a `.jkr` file.
pub proof fn lemma_compressed_name_is_jkr(output: Seq<char>)
    ensures
        compressed_name(output).len() >= ".jkr"@.len(),
        compressed_name(output).skip(compressed_name(output).len() - ".jkr"@.len()) == ".jkr"@,
{
    let stem = strip_prefix_or_keep(strip_prefix_or_keep(output, ".lua"@), ".jkr"@);
    assert((stem + ".jkr"@).skip(stem.len() as int) =~= ".jkr"@);
}

} // verus!
