//! Command-line options: `-h`/`--help`, `-V`/`--version`; anything else is
//! an unknown option.

use vstd::prelude::*;
use crate::text::chars_of;

verus! {

/// The version that `--version` and `--help` print.
pub const VERSION: &'static str = "0.1.0";

/// What the command line asks for.
#[derive(Debug, PartialEq, Eq)]
pub enum CliRequest {
    /// Print the help and exit with 0.
    Help,
    /// Print the version and exit with 0.
    Version,
    /// Report this unknown option and the usage, and exit with 2.
    UnknownOption(String),
    /// No option: start the window.
    StartGui,
}

pub enum CliModel {
    Help,
    Version,
    UnknownOption(Seq<char>),
    StartGui,
}

pub open spec fn cli_view(r: CliRequest) -> CliModel {
    match r {
        CliRequest::Help => CliModel::Help,
        CliRequest::Version => CliModel::Version,
        CliRequest::UnknownOption(s) => CliModel::UnknownOption(s@),
        CliRequest::StartGui => CliModel::StartGui,
    }
}

pub open spec fn is_help_flag(a: Seq<char>) -> bool {
    a == seq!['-', 'h'] || a == seq!['-', '-', 'h', 'e', 'l', 'p']
}

pub open spec fn is_version_flag(a: Seq<char>) -> bool {
    a == seq!['-', 'V'] || a == seq!['-', '-', 'v', 'e', 'r', 's', 'i', 'o', 'n']
}

pub open spec fn is_known_flag(a: Seq<char>) -> bool {
    is_help_flag(a) || is_version_flag(a)
}

/// Index of the first argument that is no known option.
pub open spec fn first_unknown(args: Seq<Seq<char>>) -> Option<int>
    decreases args.len(),
{
    if args.len() == 0 {
        None
    } else if !is_known_flag(args[0]) {
        Some(0)
    } else {
        match first_unknown(args.drop_first()) {
            Some(i) => Some(i + 1),
            None => None,
        }
    }
}

/// The request of a command line: the first unknown option if there is one;
/// else help if asked; else the version if asked; else the window.
pub open spec fn cli_spec(args: Seq<Seq<char>>) -> CliModel {
    match first_unknown(args) {
        Some(i) => CliModel::UnknownOption(args[i]),
        None => if exists|i: int| 0 <= i < args.len() && is_help_flag(#[trigger] args[i]) {
            CliModel::Help
        } else if exists|i: int| 0 <= i < args.len() && is_version_flag(#[trigger] args[i]) {
            CliModel::Version
        } else {
            CliModel::StartGui
        },
    }
}

/// The exit code of a request; none when the window starts.
pub open spec fn exit_code_spec(r: CliModel) -> Option<i32> {
    match r {
        CliModel::Help => Some(0),
        CliModel::Version => Some(0),
        CliModel::UnknownOption(_) => Some(2),
        CliModel::StartGui => None,
    }
}

pub open spec fn arg_views(args: Seq<&str>) -> Seq<Seq<char>> {
    Seq::new(args.len(), |i: int| args[i]@)
}

fn eq_chars(a: &Vec<char>, b: &Vec<char>) -> (r: bool)
    ensures
        r == (a@ == b@),
{
    if a.len() != b.len() {
        return false;
    }
    for i in 0..a.len()
        invariant
            a@.len() == b@.len(),
            forall|j: int| 0 <= j < i ==> a@[j] == b@[j],
    {
        if a[i] != b[i] {
            return false;
        }
    }
    assert(a@ =~= b@);
    true
}

fn help_flag(a: &Vec<char>) -> (r: bool)
    ensures
        r == is_help_flag(a@),
{
    let short = vec!['-', 'h'];
    let long = vec!['-', '-', 'h', 'e', 'l', 'p'];
    assert(short@ == seq!['-', 'h']);
    assert(long@ == seq!['-', '-', 'h', 'e', 'l', 'p']);
    eq_chars(a, &short) || eq_chars(a, &long)
}

fn version_flag(a: &Vec<char>) -> (r: bool)
    ensures
        r == is_version_flag(a@),
{
    let short = vec!['-', 'V'];
    let long = vec!['-', '-', 'v', 'e', 'r', 's', 'i', 'o', 'n'];
    assert(short@ == seq!['-', 'V']);
    assert(long@ == seq!['-', '-', 'v', 'e', 'r', 's', 'i', 'o', 'n']);
    eq_chars(a, &short) || eq_chars(a, &long)
}

proof fn lemma_first_unknown(args: Seq<Seq<char>>, i: int)
    requires
        0 <= i <= args.len(),
        forall|j: int| 0 <= j < i ==> is_known_flag(#[trigger] args[j]),
        i < args.len() ==> !is_known_flag(args[i]),
    ensures
        first_unknown(args) == (if i < args.len() {
            Some(i)
        } else {
            None::<int>
        }),
    decreases i,
{
    if i > 0 {
        assert(is_known_flag(args[0]));
        let t = args.drop_first();
        assert forall|j: int| 0 <= j < i - 1 implies is_known_flag(#[trigger] t[j]) by {
            assert(t[j] == args[j + 1]);
        }
        lemma_first_unknown(t, i - 1);
    }
}

/// Reads the command-line arguments (without the program name).
pub fn parse_cli(args: &[&str]) -> (r: CliRequest)
    ensures
        cli_view(r) == cli_spec(arg_views(args@)),
{
    let ghost av = arg_views(args@);
    let mut show_help = false;
    let mut show_version = false;
    for i in 0..args.len()
        invariant
            av == arg_views(args@),
            forall|j: int| 0 <= j < i ==> is_known_flag(#[trigger] av[j]),
            show_help == exists|j: int| 0 <= j < i && is_help_flag(#[trigger] av[j]),
            show_version == exists|j: int| 0 <= j < i && is_version_flag(#[trigger] av[j]),
    {
        let a = chars_of(args[i]);
        assert(a@ == av[i as int]);
        if help_flag(&a) {
            show_help = true;
        } else if version_flag(&a) {
            show_version = true;
        } else {
            proof {
                lemma_first_unknown(av, i as int);
            }
            return CliRequest::UnknownOption(args[i].to_owned());
        }
        assert(show_help == exists|j: int| 0 <= j < i + 1 && is_help_flag(#[trigger] av[j]));
        assert(show_version == exists|j: int| 0 <= j < i + 1 && is_version_flag(#[trigger] av[j]));
    }
    proof {
        lemma_first_unknown(av, av.len() as int);
    }
    if show_help {
        CliRequest::Help
    } else if show_version {
        CliRequest::Version
    } else {
        CliRequest::StartGui
    }
}

/// The exit code of a request; none when the window starts.
pub fn exit_code(r: &CliRequest) -> (c: Option<i32>)
    ensures
        c == exit_code_spec(cli_view(*r)),
{
    match r {
        CliRequest::Help => Some(0),
        CliRequest::Version => Some(0),
        CliRequest::UnknownOption(_) => Some(2),
        CliRequest::StartGui => None,
    }
}

/// The exit code that the command line calls for, or none to start the
/// window.
pub fn handle_cli(args: &[&str]) -> (c: Option<i32>)
    ensures
        c == exit_code_spec(cli_spec(arg_views(args@))),
{
    let r = parse_cli(args);
    exit_code(&r)
}

// ---------------------------------------------------------------------------
// Laws
// ---------------------------------------------------------------------------

/// An unknown option anywhere exits with 2, even after `--help`.
pub proof fn law_unknown_option_exits_two(args: Seq<Seq<char>>, i: int)
    requires
        0 <= i < args.len(),
        !is_known_flag(args[i]),
    ensures
        exit_code_spec(cli_spec(args)) == Some(2i32),
{
    lemma_first_unknown_some(args, i);
}

proof fn lemma_first_unknown_some(args: Seq<Seq<char>>, i: int)
    requires
        0 <= i < args.len(),
        !is_known_flag(args[i]),
    ensures
        first_unknown(args) is Some,
    decreases i,
{
    if i > 0 && is_known_flag(args[0]) {
        assert(args.drop_first()[i - 1] == args[i]);
        lemma_first_unknown_some(args.drop_first(), i - 1);
    }
}

/// Help and version exit with 0, and help wins over version; without
/// arguments the window starts.
pub proof fn law_known_options(args: Seq<Seq<char>>)
    requires
        forall|j: int| 0 <= j < args.len() ==> is_known_flag(#[trigger] args[j]),
    ensures
        args.len() == 0 <==> exit_code_spec(cli_spec(args)) is None,
        args.len() > 0 ==> exit_code_spec(cli_spec(args)) == Some(0i32),
        (exists|j: int| 0 <= j < args.len() && is_help_flag(#[trigger] args[j])) ==> cli_spec(args)
            is Help,
{
    lemma_first_unknown(args, args.len() as int);
    if args.len() > 0 {
        assert(is_known_flag(args[0]));
    }
}

/// `-V` or `--version`, with no help option and no unknown option, asks for
/// the version and exits with 0, however many times and in whatever order
/// they are given.
pub proof fn law_version_without_help(args: Seq<Seq<char>>)
    requires
        forall|j: int|
            0 <= j < args.len() ==> #[trigger] args[j] == seq!['-', 'V'] || args[j] == seq![
                '-',
                '-',
                'v',
                'e',
                'r',
                's',
                'i',
                'o',
                'n',
            ],
        args.len() > 0,
    ensures
        cli_spec(args) == CliModel::Version,
        exit_code_spec(cli_spec(args)) == Some(0i32),
{
    lemma_first_unknown(args, args.len() as int);
    assert(is_version_flag(args[0]));
    assert forall|i: int| 0 <= i < args.len() implies !is_help_flag(#[trigger] args[i]) by {
        if args[i] == seq!['-', 'V'] {
            assert(args[i][1] == 'V');
        } else {
            assert(args[i].len() == 9);
        }
    }
}

/// `-h` or `--help` among known options asks for the help and exits with 0,
/// even next to `-V` or `--version`.
pub proof fn law_help_wins(args: Seq<Seq<char>>, i: int)
    requires
        forall|j: int|
            0 <= j < args.len() ==> #[trigger] args[j] == seq!['-', 'h'] || args[j] == seq![
                '-',
                '-',
                'h',
                'e',
                'l',
                'p',
            ] || args[j] == seq!['-', 'V'] || args[j] == seq![
                '-',
                '-',
                'v',
                'e',
                'r',
                's',
                'i',
                'o',
                'n',
            ],
        0 <= i < args.len(),
        args[i] == seq!['-', 'h'] || args[i] == seq!['-', '-', 'h', 'e', 'l', 'p'],
    ensures
        cli_spec(args) == CliModel::Help,
        exit_code_spec(cli_spec(args)) == Some(0i32),
{
    lemma_first_unknown(args, args.len() as int);
    assert(is_help_flag(args[i]));
}

} // verus!
