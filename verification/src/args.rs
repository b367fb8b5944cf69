//! The command line: the configuration it describes and how it is read.

use vstd::prelude::*;
use vstd::string::*;
use crate::text::same_text;
use crate::text::starts_with_char;

verus! {

/// Which kind of value the parser expects next.
#[derive(Clone, Copy, Debug, PartialEq, Eq, Structural)]
pub enum ContextScope {
    /// A value names the directory to scan.
    Directory,
    /// Values are names to ignore, up to the next option.
    IgnoredDirs,
    /// A value sets the display level.
    DisplayLevel,
    /// Values are skipped: they follow an option that is not known, up to
    /// the next option that is.
    Unknown,
}

/// What is shown and what is left out.
#[derive(Clone, Debug, PartialEq, Eq)]
pub struct Config {
    /// Show entries whose name starts with `.`.
    pub display_hidden: bool,
    /// Show directories only.
    pub display_only_dirs: bool,
    /// How an entry is labelled: 0 by its name, 1 by its directory's path
    /// and its name, 2 the same with the path made absolute.
    pub display_level: u8,
    /// Draw the tree's branches in front of each entry.
    pub display_indentation: bool,
    /// Show each file's size.
    pub display_bytes: bool,
    /// Names that are left out, whatever they name.
    pub ignored_dirs: Vec<String>,
}

/// The mathematical content of a [`Config`].
pub struct ConfigView {
    pub display_hidden: bool,
    pub display_only_dirs: bool,
    pub display_level: u8,
    pub display_indentation: bool,
    pub display_bytes: bool,
    pub ignored_dirs: Seq<Seq<char>>,
}

impl View for Config {
    type V = ConfigView;

    open spec fn view(&self) -> ConfigView {
        ConfigView {
            display_hidden: self.display_hidden,
            display_only_dirs: self.display_only_dirs,
            display_level: self.display_level,
            display_indentation: self.display_indentation,
            display_bytes: self.display_bytes,
            ignored_dirs: self.ignored_dirs.deep_view(),
        }
    }
}

/// How reading the command line ended.
#[derive(Debug, PartialEq, Eq)]
pub enum Outcome {
    /// Scan `dir` under `config`.
    Proceed { dir: String, config: Config },
    /// Show the usage text and stop.
    Help,
    /// Show the version and stop.
    Version,
    /// The value given for the display level is none of 0, 1 and 2.
    InvalidLevel { given: String },
}

/// The result of reading the command line.
#[derive(Debug, PartialEq, Eq)]
pub struct Parsed {
    /// The options that are not known, in the order in which they were met
    /// before reading ended.
    pub unknown: Vec<String>,
    pub outcome: Outcome,
}

/// The mathematical content of an [`Outcome`].
pub enum OutcomeView {
    Proceed { dir: Seq<char>, config: ConfigView },
    Help,
    Version,
    InvalidLevel { given: Seq<char> },
}

/// The mathematical content of a [`Parsed`].
pub struct ParsedView {
    pub unknown: Seq<Seq<char>>,
    pub outcome: OutcomeView,
}

impl View for Outcome {
    type V = OutcomeView;

    open spec fn view(&self) -> OutcomeView {
        match self {
            Outcome::Proceed { dir, config } => OutcomeView::Proceed { dir: dir@, config: config@ },
            Outcome::Help => OutcomeView::Help,
            Outcome::Version => OutcomeView::Version,
            Outcome::InvalidLevel { given } => OutcomeView::InvalidLevel { given: given@ },
        }
    }
}

impl View for Parsed {
    type V = ParsedView;

    open spec fn view(&self) -> ParsedView {
        ParsedView { unknown: self.unknown.deep_view(), outcome: self.outcome@ }
    }
}

/// The line that answers a request for the version.
pub fn version_text() -> (s: String)
    ensures
        s@ == "Version 0.1.0 - baum"@,
{
    String::from_str("Version 0.1.0 - baum")
}

/// Whether the walk starts at the current directory, shown by its absolute
/// path: the directory is `.` and the display level is 2.
pub fn resolves_to_cwd(dir: &str, config: &Config) -> (r: bool)
    ensures
        r == (dir@ == "."@ && config.display_level == 2),
{
    same_text(dir, ".") && config.display_level == 2
}

/// The number that a run of decimal digits denotes.
pub open spec fn digits_value(s: Seq<char>) -> nat
    decreases s.len(),
{
    if s.len() == 0 {
        0
    } else {
        (digits_value(s.drop_last()) * 10 + (s.last() as nat - '0' as nat)) as nat
    }
}

pub open spec fn is_digit(c: char) -> bool {
    '0' <= c <= '9'
}

pub open spec fn all_digits(s: Seq<char>) -> bool {
    forall|i: int| 0 <= i < s.len() ==> is_digit(#[trigger] s[i])
}

/// The display level that a value denotes: an optional `+`, then one or more
/// decimal digits that denote 0, 1 or 2. Anything else denotes none.
pub open spec fn level_of(arg: Seq<char>) -> Option<u8> {
    let digits = if arg.len() > 0 && arg[0] == '+' {
        arg.drop_first()
    } else {
        arg
    };
    digits_level(digits)
}

/// The level, one of 0, 1 and 2, that one or more decimal digits denote.
pub open spec fn digits_level(digits: Seq<char>) -> Option<u8> {
    if digits.len() > 0 && all_digits(digits) && digits_value(digits) <= 2 {
        Some(digits_value(digits) as u8)
    } else {
        None
    }
}

proof fn lemma_digits_value_grows(s: Seq<char>, n: int)
    requires
        all_digits(s),
        0 <= n <= s.len(),
    ensures
        digits_value(s.take(n)) <= digits_value(s),
    decreases s.len() - n,
{
    if n == s.len() {
        assert(s.take(n) == s);
    } else {
        let t = s.take(n + 1);
        assert(t.drop_last() == s.take(n));
        assert(is_digit(s[n]));
        assert(t.last() == s[n]);
        lemma_digits_value_grows(s, n + 1);
    }
}

/// Reads a display level.
pub fn parse_level(arg: &str) -> (r: Option<u8>)
    ensures
        r == level_of(arg@),
        r matches Some(level) ==> level <= 2,
{
    let n = arg.unicode_len();
    let start: usize = if n > 0 && arg.get_char(0) == '+' {
        1
    } else {
        0
    };
    let ghost digits = arg@.subrange(start as int, n as int);
    assert(digits == if arg@.len() > 0 && arg@[0] == '+' {
        arg@.drop_first()
    } else {
        arg@
    });
    assert(level_of(arg@) == digits_level(digits));
    if start == n {
        return None;
    }
    let mut value: u32 = 0;
    let mut i: usize = start;
    assert(digits.take(0) == Seq::<char>::empty());
    while i < n
        invariant
            start <= i <= n,
            n == arg@.len(),
            digits == arg@.subrange(start as int, n as int),
            level_of(arg@) == digits_level(digits),
            all_digits(digits.take(i - start)),
            value == digits_value(digits.take(i - start)),
            value <= 2,
        decreases n - i,
    {
        let c = arg.get_char(i);
        let ghost upto = digits.take(i - start + 1);
        proof {
            assert(upto.drop_last() == digits.take(i - start));
            assert(upto.last() == c);
        }
        if !('0' <= c && c <= '9') {
            assert(!is_digit(digits[i - start]));
            return None;
        }
        let d: u32 = c as u32 - '0' as u32;
        value = value * 10 + d;
        proof {
            assert forall|j: int| 0 <= j < upto.len() implies is_digit(#[trigger] upto[j]) by {
                if j < upto.len() - 1 {
                    assert(upto[j] == digits.take(i - start)[j]);
                }
            }
        }
        if value > 2 {
            proof {
                if all_digits(digits) {
                    lemma_digits_value_grows(digits, i - start + 1);
                }
            }
            return None;
        }
        i += 1;
    }
    assert(digits.take(i - start) == digits);
    Some(value as u8)
}

/// What has been read of the command line so far.
pub struct Progress {
    pub dir: Seq<char>,
    pub config: ConfigView,
    pub scope: ContextScope,
    pub unknown: Seq<Seq<char>>,
}

/// What one argument does to the reading.
pub enum Step {
    /// Reading goes on.
    Next(Progress),
    /// Reading ends here.
    Halt(OutcomeView),
}

/// The state before the first argument: the current directory, names only,
/// with branches, without hidden entries and sizes, nothing ignored.
pub open spec fn initial_progress() -> Progress {
    Progress {
        dir: "."@,
        config: ConfigView {
            display_hidden: false,
            display_only_dirs: false,
            display_level: 0,
            display_indentation: true,
            display_bytes: false,
            ignored_dirs: Seq::empty(),
        },
        scope: ContextScope::Directory,
        unknown: Seq::empty(),
    }
}

/// An argument that starts with `-` is an option, any other is a value.
pub open spec fn is_option(arg: Seq<char>) -> bool {
    arg.len() > 0 && arg[0] == '-'
}

/// `p` with what values mean set back to the directory.
pub open spec fn at_directory(p: Progress) -> Progress {
    Progress { scope: ContextScope::Directory, ..p }
}

/// The options that ask for the usage text.
pub open spec fn asks_help(arg: Seq<char>) -> bool {
    arg == "-help"@ || arg == "--h"@ || arg == "--help"@
}

/// The options that ask for the version.
pub open spec fn asks_version(arg: Seq<char>) -> bool {
    arg == "-v"@ || arg == "-version"@ || arg == "--v"@ || arg == "--version"@
}

/// The effect of one argument.
///
/// A request for the usage text or the version ends the reading. Any other
/// option that is known sets its flag and says what the values after it
/// mean: names to ignore after `-i`, the level after `-l` (which sets the
/// level to 1 until a value follows), the directory after every other. An
/// option that is not known is recorded and makes the values after it
/// skipped. A value is taken as the directory, a name to ignore or the
/// level, whichever is expected; a level that is none of 0, 1 and 2 ends
/// the reading.
pub open spec fn step(p: Progress, arg: Seq<char>) -> Step {
    if is_option(arg) {
        if asks_help(arg) {
            Step::Halt(OutcomeView::Help)
        } else if asks_version(arg) {
            Step::Halt(OutcomeView::Version)
        } else if arg == "-h"@ || arg == "-hidden"@ {
            Step::Next(
                at_directory(Progress { config: ConfigView { display_hidden: true, ..p.config }, ..p }),
            )
        } else if arg == "-p"@ || arg == "-prefix"@ {
            Step::Next(
                at_directory(
                    Progress { config: ConfigView { display_indentation: false, ..p.config }, ..p },
                ),
            )
        } else if arg == "-b"@ || arg == "-bytes"@ {
            Step::Next(
                at_directory(Progress { config: ConfigView { display_bytes: true, ..p.config }, ..p }),
            )
        } else if arg == "-d"@ || arg == "-directories"@ {
            Step::Next(
                at_directory(
                    Progress { config: ConfigView { display_only_dirs: true, ..p.config }, ..p },
                ),
            )
        } else if arg == "-i"@ || arg == "-ignore"@ {
            Step::Next(Progress { scope: ContextScope::IgnoredDirs, ..p })
        } else if arg == "-l"@ || arg == "-level"@ {
            Step::Next(
                Progress {
                    config: ConfigView { display_level: 1, ..p.config },
                    scope: ContextScope::DisplayLevel,
                    ..p
                },
            )
        } else {
            Step::Next(Progress { unknown: p.unknown.push(arg), scope: ContextScope::Unknown, ..p })
        }
    } else {
        match p.scope {
            ContextScope::Directory => Step::Next(Progress { dir: arg, ..p }),
            ContextScope::DisplayLevel => match level_of(arg) {
                Some(level) => Step::Next(
                    Progress { config: ConfigView { display_level: level, ..p.config }, ..p },
                ),
                None => Step::Halt(OutcomeView::InvalidLevel { given: arg }),
            },
            ContextScope::IgnoredDirs => Step::Next(
                Progress {
                    config: ConfigView {
                        ignored_dirs: p.config.ignored_dirs.push(arg),
                        ..p.config
                    },
                    ..p
                },
            ),
            ContextScope::Unknown => Step::Next(p),
        }
    }
}

/// Reading the arguments from the `i`-th on, after `p` has been read.
pub open spec fn parse_from(p: Progress, args: Seq<Seq<char>>, i: int) -> ParsedView
    decreases args.len() - i,
{
    if i < 0 || i >= args.len() {
        ParsedView {
            unknown: p.unknown,
            outcome: OutcomeView::Proceed { dir: p.dir, config: p.config },
        }
    } else {
        match step(p, args[i]) {
            Step::Next(q) => parse_from(q, args, i + 1),
            Step::Halt(outcome) => ParsedView { unknown: p.unknown, outcome },
        }
    }
}

/// What a command line means: its arguments are read in order, each by
/// [`step`], until one ends the reading or none is left.
pub open spec fn parse_args(args: Seq<Seq<char>>) -> ParsedView {
    parse_from(initial_progress(), args, 0)
}

proof fn lemma_level_stays_in_range(p: Progress, args: Seq<Seq<char>>, i: int)
    requires
        p.config.display_level <= 2,
    ensures
        parse_from(p, args, i).outcome matches OutcomeView::Proceed { config, .. }
            ==> config.display_level <= 2,
    decreases args.len() - i,
{
    if 0 <= i < args.len() {
        match step(p, args[i]) {
            Step::Next(q) => {
                lemma_level_stays_in_range(q, args, i + 1);
            },
            Step::Halt(_) => {},
        }
    }
}

/// Whatever the command line, the level that reading it gives is 0, 1 or 2.
pub proof fn lemma_level_is_0_1_or_2(args: Seq<Seq<char>>)
    ensures
        parse_args(args).outcome matches OutcomeView::Proceed { config, .. }
            ==> config.display_level <= 2,
{
    lemma_level_stays_in_range(initial_progress(), args, 0);
}

/// Reads the arguments of a command line, the program's name left out.
pub fn parse(args: &Vec<String>) -> (r: Parsed)
    ensures
        r@ == parse_args(args.deep_view()),
        r.outcome matches Outcome::Proceed { config, .. } ==> config.display_level <= 2,
{
    proof {
        lemma_level_is_0_1_or_2(args.deep_view());
    }
    let mut dir = String::from_str(".");
    let mut scope = ContextScope::Directory;
    let mut ignored_dirs: Vec<String> = Vec::new();
    let mut unknown: Vec<String> = Vec::new();
    let mut display_hidden = false;
    let mut display_level: u8 = 0;
    let mut display_indentation = true;
    let mut display_only_dirs = false;
    let mut display_bytes = false;

    let ghost all = args.deep_view();
    let ghost mut p = initial_progress();
    assert(ignored_dirs.deep_view() == Seq::<Seq<char>>::empty());
    assert(unknown.deep_view() == Seq::<Seq<char>>::empty());

    let mut i: usize = 0;
    while i < args.len()
        invariant
            i <= args.len(),
            all == args.deep_view(),
            all.len() == args.len(),
            parse_args(all) == parse_from(p, all, i as int),
            p.dir == dir@,
            p.scope == scope,
            p.unknown == unknown.deep_view(),
            p.config == (ConfigView {
                display_hidden,
                display_only_dirs,
                display_level,
                display_indentation,
                display_bytes,
                ignored_dirs: ignored_dirs.deep_view(),
            }),
        decreases args.len() - i,
    {
        let arg = args[i].as_str();
        assert(arg@ == all[i as int]);
        if starts_with_char(arg, '-') {
            if same_text(arg, "-help") || same_text(arg, "--h") || same_text(arg, "--help") {
                return Parsed { unknown, outcome: Outcome::Help };
            } else if same_text(arg, "-v") || same_text(arg, "-version") || same_text(arg, "--v")
                || same_text(arg, "--version") {
                return Parsed { unknown, outcome: Outcome::Version };
            } else if same_text(arg, "-h") || same_text(arg, "-hidden") {
                display_hidden = true;
                scope = ContextScope::Directory;
            } else if same_text(arg, "-p") || same_text(arg, "-prefix") {
                display_indentation = false;
                scope = ContextScope::Directory;
            } else if same_text(arg, "-b") || same_text(arg, "-bytes") {
                display_bytes = true;
                scope = ContextScope::Directory;
            } else if same_text(arg, "-d") || same_text(arg, "-directories") {
                display_only_dirs = true;
                scope = ContextScope::Directory;
            } else if same_text(arg, "-i") || same_text(arg, "-ignore") {
                scope = ContextScope::IgnoredDirs;
            } else if same_text(arg, "-l") || same_text(arg, "-level") {
                display_level = 1;
                scope = ContextScope::DisplayLevel;
            } else {
                let ghost before = unknown.deep_view();
                unknown.push(args[i].clone());
                assert(unknown.deep_view() == before.push(arg@));
                scope = ContextScope::Unknown;
            }
        } else {
            match scope {
                ContextScope::Directory => {
                    dir = args[i].clone();
                },
                ContextScope::DisplayLevel => {
                    match parse_level(arg) {
                        Some(level) => {
                            display_level = level;
                        },
                        None => {
                            return Parsed {
                                unknown,
                                outcome: Outcome::InvalidLevel { given: args[i].clone() },
                            };
                        },
                    }
                },
                ContextScope::IgnoredDirs => {
                    let ghost before = ignored_dirs.deep_view();
                    ignored_dirs.push(args[i].clone());
                    assert(ignored_dirs.deep_view() == before.push(arg@));
                },
                ContextScope::Unknown => {},
            }
        }
        proof {
            p = step(p, arg@)->Next_0;
        }
        i += 1;
    }
    Parsed {
        unknown,
        outcome: Outcome::Proceed {
            dir,
            config: Config {
                display_hidden,
                display_only_dirs,
                display_level,
                display_indentation,
                display_bytes,
                ignored_dirs,
            },
        },
    }
}

} // verus!
