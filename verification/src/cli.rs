//! The command line: `serve [-p|--port N]...` or `build [-s|--source DIR] [-o|--out DIR]...`.
use vstd::prelude::*;
use crate::server;
use crate::ssg;
use crate::text::{chars_of, str_eq, strings_model};

verus! {

/// Why a command line is refused.
#[derive(PartialEq, Eq, Structural)]
pub enum ArgError {
    /// The first argument is neither `serve` nor `build`.
    UnrecognizedArgument,
    /// An argument after `serve` is not an option of `serve`.
    UnrecognizedServeArgument,
    /// An argument after `build` is not an option of `build`.
    UnrecognizedBuildArgument,
    /// An option is the last argument, without its value.
    MissingValue,
    /// The value of `--port` is not a number from 0 to 65535.
    InvalidPort,
}

/// What the command line asks for.
pub enum Command {
    Serve(server::Settings),
    Build(ssg::Settings),
}

/// Model of a command.
pub enum CommandModel {
    Serve { port: u16 },
    Build { source_dir: Seq<char>, output_dir: Seq<char> },
}

impl View for Command {
    type V = CommandModel;

    open spec fn view(&self) -> CommandModel {
        match self {
            Command::Serve(s) => CommandModel::Serve { port: s.port },
            Command::Build(s) => CommandModel::Build { source_dir: s.source_dir@, output_dir: s.output_dir@ },
        }
    }
}

/// A decimal digit.
pub open spec fn is_digit(c: char) -> bool {
    '0' <= c && c <= '9'
}

/// The number written by a sequence of decimal digits.
pub open spec fn digits_value(d: Seq<char>) -> nat
    decreases d.len(),
{
    if d.len() == 0 {
        0
    } else {
        digits_value(d.drop_last()) * 10 + ((d.last() as u32) - ('0' as u32)) as nat
    }
}

/// The digits of a number: `s` without one leading `+`.
pub open spec fn unsigned_digits(s: Seq<char>) -> Seq<char> {
    if s.len() > 0 && s[0] == '+' {
        s.drop_first()
    } else {
        s
    }
}

/// Whether every character of `d` is a decimal digit.
pub open spec fn all_digits(d: Seq<char>) -> bool {
    forall|i: int| 0 <= i < d.len() ==> #[trigger] is_digit(d[i])
}

/// The `u16` written by `s`, as `u16::from_str`: an optional `+`, then at
/// least one decimal digit, for a value up to 65535.
pub open spec fn u16_from_str(s: Seq<char>) -> Option<u16> {
    let d = unsigned_digits(s);
    if d.len() > 0 && all_digits(d) && digits_value(d) <= 65535 {
        Some(digits_value(d) as u16)
    } else {
        None
    }
}

proof fn lemma_digits_value_grows(d: Seq<char>, i: int, j: int)
    requires
        0 <= i <= j <= d.len(),
        forall|k: int| 0 <= k < d.len() ==> #[trigger] is_digit(d[k]),
    ensures
        digits_value(d.take(i)) <= digits_value(d.take(j)),
    decreases j - i,
{
    if i < j {
        lemma_digits_value_grows(d, i, j - 1);
        assert(d.take(j).drop_last() =~= d.take(j - 1));
    }
}

/// The port written by `s` (see `u16_from_str`).
pub fn parse_port(s: &String) -> (r: Option<u16>)
    ensures
        r == u16_from_str(s@),
{
    let cs = chars_of(s.as_str());
    let start: usize = if cs.len() > 0 && cs[0] == '+' {
        1
    } else {
        0
    };
    let ghost d = cs@.skip(start as int);
    assert(d =~= unsigned_digits(s@));
    if start >= cs.len() {
        return None;
    }
    let mut value: u32 = 0;
    let mut i: usize = start;
    assert(d.take(0) =~= Seq::<char>::empty());
    while i < cs.len()
        invariant
            start <= i <= cs.len(),
            cs@ == s@,
            d == cs@.skip(start as int),
            d == unsigned_digits(s@),
            forall|k: int| 0 <= k < i - start ==> #[trigger] is_digit(d[k]),
            value == digits_value(d.take(i - start)),
            value <= 65535,
        decreases cs.len() - i,
    {
        let c = cs[i];
        if !('0' <= c && c <= '9') {
            assert(!is_digit(d[i - start]));
            return None;
        }
        let digit: u32 = (c as u32) - ('0' as u32);
        assert(d.take(i - start + 1).drop_last() =~= d.take(i - start));
        let next: u32 = value * 10 + digit;
        if next > 65535 {
            proof {
                if all_digits(d) {
                    lemma_digits_value_grows(d, i - start + 1, d.len() as int);
                    assert(d.take(d.len() as int) =~= d);
                    assert(digits_value(d) > 65535);
                }
            }
            return None;
        }
        value = next;
        i = i + 1;
    }
    assert(d.take(d.len() as int) =~= d);
    Some(value as u16)
}

/// The model of what a command line asks for (the program's arguments, without its name).
pub open spec fn parsed_command(args: Seq<Seq<char>>) -> Result<Option<CommandModel>, ArgError> {
    if args.len() == 0 {
        Ok(None)
    } else if args[0] == "serve"@ {
        match serve_options(args.skip(1), 8080) {
            Ok(port) => Ok(Some(CommandModel::Serve { port })),
            Err(e) => Err(e),
        }
    } else if args[0] == "build"@ {
        match build_options(args.skip(1), "./site"@, "./out"@) {
            Ok((source_dir, output_dir)) => Ok(Some(CommandModel::Build { source_dir, output_dir })),
            Err(e) => Err(e),
        }
    } else {
        Err(ArgError::UnrecognizedArgument)
    }
}

/// The port set by the options of `serve`, starting from `port`.
pub open spec fn serve_options(rest: Seq<Seq<char>>, port: u16) -> Result<u16, ArgError>
    decreases rest.len(),
{
    if rest.len() == 0 {
        Ok(port)
    } else if rest[0] == "-p"@ || rest[0] == "--port"@ {
        if rest.len() < 2 {
            Err(ArgError::MissingValue)
        } else {
            match u16_from_str(rest[1]) {
                Some(p) => serve_options(rest.skip(2), p),
                None => Err(ArgError::InvalidPort),
            }
        }
    } else {
        Err(ArgError::UnrecognizedServeArgument)
    }
}

/// The directories set by the options of `build`, starting from `source` and `output`.
pub open spec fn build_options(rest: Seq<Seq<char>>, source: Seq<char>, output: Seq<char>) -> Result<
    (Seq<char>, Seq<char>),
    ArgError,
>
    decreases rest.len(),
{
    if rest.len() == 0 {
        Ok((source, output))
    } else if rest[0] == "-s"@ || rest[0] == "--source"@ || rest[0] == "-o"@ || rest[0] == "--out"@ {
        if rest.len() < 2 {
            Err(ArgError::MissingValue)
        } else if rest[0] == "-s"@ || rest[0] == "--source"@ {
            build_options(rest.skip(2), rest[1], output)
        } else {
            build_options(rest.skip(2), source, rest[1])
        }
    } else {
        Err(ArgError::UnrecognizedBuildArgument)
    }
}

/// What the command line asks for: nothing when it is empty, else the
/// command its first argument names, with the options that follow.
pub fn parse_command(args: &Vec<String>) -> (r: Result<Option<Command>, ArgError>)
    ensures
        match (r, parsed_command(strings_model(args@))) {
            (Ok(Some(c)), Ok(Some(m))) => c@ == m,
            (Ok(None), Ok(None)) => true,
            (Err(e), Err(f)) => e == f,
            _ => false,
        },
{
    let ghost am = strings_model(args@);
    if args.len() == 0 {
        return Ok(None);
    }
    if str_eq(&args[0], "serve") {
        let mut settings = server::Settings::new();
        let mut i: usize = 1;
        assert(am.skip(1) =~= am.skip(i as int));
        while i < args.len()
            invariant
                1 <= i <= args.len(),
                am == strings_model(args@),
                am[0] == "serve"@,
                serve_options(am.skip(1), 8080) == serve_options(am.skip(i as int), settings.port),
            decreases args.len() - i,
        {
            let ghost rest = am.skip(i as int);
            assert(rest[0] == args@[i as int]@);
            if str_eq(&args[i], "-p") || str_eq(&args[i], "--port") {
                if i + 1 >= args.len() {
                    return Err(ArgError::MissingValue);
                }
                assert(rest[1] == args@[i + 1]@);
                match parse_port(&args[i + 1]) {
                    Some(p) => {
                        assert(rest.skip(2) =~= am.skip(i + 2));
                        settings.port = p;
                    },
                    None => {
                        return Err(ArgError::InvalidPort);
                    },
                }
                i = i + 2;
            } else {
                return Err(ArgError::UnrecognizedServeArgument);
            }
        }
        assert(am.skip(i as int) =~= Seq::<Seq<char>>::empty());
        return Ok(Some(Command::Serve(settings)));
    }
    if str_eq(&args[0], "build") {
        let mut settings = ssg::Settings::default();
        let mut i: usize = 1;
        assert(am.skip(1) =~= am.skip(i as int));
        while i < args.len()
            invariant
                1 <= i <= args.len(),
                am == strings_model(args@),
                am[0] == "build"@,
                am[0] != "serve"@,
                build_options(am.skip(1), "./site"@, "./out"@) == build_options(
                    am.skip(i as int),
                    settings.source_dir@,
                    settings.output_dir@,
                ),
            decreases args.len() - i,
        {
            let ghost rest = am.skip(i as int);
            assert(rest[0] == args@[i as int]@);
            let is_source = str_eq(&args[i], "-s") || str_eq(&args[i], "--source");
            let is_out = str_eq(&args[i], "-o") || str_eq(&args[i], "--out");
            if is_source || is_out {
                if i + 1 >= args.len() {
                    return Err(ArgError::MissingValue);
                }
                assert(rest[1] == args@[i + 1]@);
                assert(rest.skip(2) =~= am.skip(i + 2));
                if is_source {
                    settings.source_dir = args[i + 1].clone();
                } else {
                    settings.output_dir = args[i + 1].clone();
                }
                i = i + 2;
            } else {
                return Err(ArgError::UnrecognizedBuildArgument);
            }
        }
        assert(am.skip(i as int) =~= Seq::<Seq<char>>::empty());
        return Ok(Some(Command::Build(settings)));
    }
    Err(ArgError::UnrecognizedArgument)
}

// ---------------------------------------------------------------------------
// Laws
// ---------------------------------------------------------------------------

/// `-s` and `--source` set the source directory, and only it: the options
/// that follow are read with the source directory set to the value.
pub proof fn law_source_option_sets_only_the_source(opt: Seq<char>, v: Seq<char>, rest: Seq<Seq<char>>, source: Seq<char>, output: Seq<char>)
    requires
        opt == "-s"@ || opt == "--source"@,
    ensures
        build_options(seq![opt, v] + rest, source, output) == build_options(rest, v, output),
{
    let args = seq![opt, v] + rest;
    assert(args[0] == opt);
    assert(args[1] == v);
    assert(args.skip(2) =~= rest);
}

/// `-o` and `--out` set the output directory, and only it: the options that
/// follow are read with the output directory set to the value.
pub proof fn law_out_option_sets_only_the_output(opt: Seq<char>, v: Seq<char>, rest: Seq<Seq<char>>, source: Seq<char>, output: Seq<char>)
    requires
        opt == "-o"@ || opt == "--out"@,
    ensures
        build_options(seq![opt, v] + rest, source, output) == build_options(rest, source, v),
{
    reveal_strlit("-o");
    reveal_strlit("--out");
    reveal_strlit("-s");
    reveal_strlit("--source");
    let args = seq![opt, v] + rest;
    assert(args[0] == opt);
    assert(args[1] == v);
    assert(args.skip(2) =~= rest);
    assert(opt != "-s"@ && opt != "--source"@) by {
        if opt == "-o"@ {
            assert(opt.len() == 2 && opt[1] == 'o');
        } else {
            assert(opt.len() == 5);
        }
    }
}

/// The long and the short form of an option of `build` mean the same, whatever follows.
pub proof fn law_build_option_forms_agree(v: Seq<char>, rest: Seq<Seq<char>>)
    ensures
        parsed_command(seq!["build"@, "--source"@, v] + rest) == parsed_command(seq!["build"@, "-s"@, v] + rest),
        parsed_command(seq!["build"@, "--out"@, v] + rest) == parsed_command(seq!["build"@, "-o"@, v] + rest),
{
    reveal_strlit("build");
    reveal_strlit("serve");
    let forms = seq![seq!["build"@, "--source"@, v] + rest, seq!["build"@, "-s"@, v] + rest, seq![
        "build"@,
        "--out"@,
        v,
    ] + rest, seq!["build"@, "-o"@, v] + rest];
    assert forall|k: int| 0 <= k < 4 implies #[trigger] forms[k].skip(1) =~= seq![forms[k][1], v] + rest && forms[k][0] == "build"@ && forms[k][0] != "serve"@ && forms[k].len() > 0 by {
        assert(forms[k][0] == "build"@);
        assert("build"@[0] != "serve"@[0]);
    }
    assert(forms[0][1] == "--source"@);
    assert(forms[1][1] == "-s"@);
    assert(forms[2][1] == "--out"@);
    assert(forms[3][1] == "-o"@);
    law_source_option_sets_only_the_source("--source"@, v, rest, "./site"@, "./out"@);
    law_source_option_sets_only_the_source("-s"@, v, rest, "./site"@, "./out"@);
    law_out_option_sets_only_the_output("--out"@, v, rest, "./site"@, "./out"@);
    law_out_option_sets_only_the_output("-o"@, v, rest, "./site"@, "./out"@);
}

/// `build --source V` (or `-s V`) builds from `V` into the default output
/// directory; `build --out V` (or `-o V`) builds the default source into `V`.
pub proof fn law_build_directories(v: Seq<char>)
    ensures
        parsed_command(seq!["build"@, "--source"@, v]) == Ok::<Option<CommandModel>, ArgError>(
            Some(CommandModel::Build { source_dir: v, output_dir: "./out"@ }),
        ),
        parsed_command(seq!["build"@, "-s"@, v]) == Ok::<Option<CommandModel>, ArgError>(
            Some(CommandModel::Build { source_dir: v, output_dir: "./out"@ }),
        ),
        parsed_command(seq!["build"@, "--out"@, v]) == Ok::<Option<CommandModel>, ArgError>(
            Some(CommandModel::Build { source_dir: "./site"@, output_dir: v }),
        ),
        parsed_command(seq!["build"@, "-o"@, v]) == Ok::<Option<CommandModel>, ArgError>(
            Some(CommandModel::Build { source_dir: "./site"@, output_dir: v }),
        ),
{
    let e = Seq::<Seq<char>>::empty();
    law_build_option_forms_agree(v, e);
    assert(seq!["build"@, "--source"@, v] + e =~= seq!["build"@, "--source"@, v]);
    assert(seq!["build"@, "-s"@, v] + e =~= seq!["build"@, "-s"@, v]);
    assert(seq!["build"@, "--out"@, v] + e =~= seq!["build"@, "--out"@, v]);
    assert(seq!["build"@, "-o"@, v] + e =~= seq!["build"@, "-o"@, v]);
    reveal_strlit("build");
    reveal_strlit("serve");
    let a = seq!["build"@, "-s"@, v];
    assert(a[0] != "serve"@) by {
        assert(a[0][0] != "serve"@[0]);
    }
    assert(a.skip(1) =~= seq!["-s"@, v] + e);
    law_source_option_sets_only_the_source("-s"@, v, e, "./site"@, "./out"@);
    let b = seq!["build"@, "-o"@, v];
    assert(b[0] != "serve"@) by {
        assert(b[0][0] != "serve"@[0]);
    }
    assert(b.skip(1) =~= seq!["-o"@, v] + e);
    law_out_option_sets_only_the_output("-o"@, v, e, "./site"@, "./out"@);
}

} // verus!
