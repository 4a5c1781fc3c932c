//! Command-line grammar, without an argument-parser dependency.
//!
//! ```text
//! autodpi <COMMAND> [OPTIONS]
//! COMMAND:  probe | tune | run | help
//! OPTIONS:  --<key> <value> ...   (--sni, --ip, --port, --timeout-ms, --rounds, --config)
//!           -v, -vv, --verbose     (verbosity)    -h, --help    -V, --version
//! ```

use vstd::prelude::*;
use vstd::string::StringExecFns;

verus! {

// ---------------------------------------------------------------------------
// Parsed values
// ---------------------------------------------------------------------------

/// The upstream to probe or tune against.
#[derive(Debug)]
pub struct Target {
    pub sni: String,
    pub ip: String,
    pub port: u16,
    pub timeout_ms: u64,
}

#[derive(Debug)]
pub enum Command {
    Probe(Target),
    Tune { target: Target, rounds: u32 },
    Run { config: String },
    Help,
    Version,
}

#[derive(Debug)]
pub struct Parsed {
    pub command: Command,
    pub verbose: u8,
}

/// Why a number given on the command line was refused (the kinds of
/// `std::num::IntErrorKind` that an unsigned decimal parse can give).
#[derive(Clone, Copy, Debug, PartialEq, Eq, Structural)]
pub enum IntErrorKind {
    /// The value is empty.
    Empty,
    /// The value holds something other than decimal digits (after an
    /// optional leading `+`).
    InvalidDigit,
    /// The value is too large for the option's type.
    PosOverflow,
}

/// Why the command line was refused.
#[derive(Debug)]
pub enum CliError {
    /// An option was last on the line, without a value; holds its key
    /// (the option without its leading dashes).
    MissingValue(String),
    /// An argument that is neither a flag nor an option.
    UnexpectedArgument(String),
    /// The first argument names no command.
    UnknownCommand(String),
    /// A required option is absent; holds its key.
    MissingOption(String),
    /// A numeric option does not hold a number of its type.
    InvalidNumber(IntErrorKind),
}

pub struct TargetView {
    pub sni: Seq<char>,
    pub ip: Seq<char>,
    pub port: u16,
    pub timeout_ms: u64,
}

pub enum CommandView {
    Probe(TargetView),
    Tune { target: TargetView, rounds: u32 },
    Run { config: Seq<char> },
    Help,
    Version,
}

pub struct ParsedView {
    pub command: CommandView,
    pub verbose: u8,
}

pub enum CliErrorView {
    MissingValue(Seq<char>),
    UnexpectedArgument(Seq<char>),
    UnknownCommand(Seq<char>),
    MissingOption(Seq<char>),
    InvalidNumber(IntErrorKind),
}

impl View for Target {
    type V = TargetView;

    open spec fn view(&self) -> TargetView {
        TargetView { sni: self.sni@, ip: self.ip@, port: self.port, timeout_ms: self.timeout_ms }
    }
}

impl View for Command {
    type V = CommandView;

    open spec fn view(&self) -> CommandView {
        match self {
            Command::Probe(t) => CommandView::Probe(t@),
            Command::Tune { target, rounds } => CommandView::Tune { target: target@, rounds: *rounds },
            Command::Run { config } => CommandView::Run { config: config@ },
            Command::Help => CommandView::Help,
            Command::Version => CommandView::Version,
        }
    }
}

impl View for Parsed {
    type V = ParsedView;

    open spec fn view(&self) -> ParsedView {
        ParsedView { command: self.command@, verbose: self.verbose }
    }
}

impl View for CliError {
    type V = CliErrorView;

    open spec fn view(&self) -> CliErrorView {
        match self {
            CliError::MissingValue(k) => CliErrorView::MissingValue(k@),
            CliError::UnexpectedArgument(a) => CliErrorView::UnexpectedArgument(a@),
            CliError::UnknownCommand(c) => CliErrorView::UnknownCommand(c@),
            CliError::MissingOption(k) => CliErrorView::MissingOption(k@),
            CliError::InvalidNumber(kind) => CliErrorView::InvalidNumber(*kind),
        }
    }
}

/// The view of a parse result.
pub open spec fn outcome_view(r: Result<Parsed, CliError>) -> Result<ParsedView, CliErrorView> {
    match r {
        Ok(p) => Ok(p@),
        Err(e) => Err(e@),
    }
}

// ---------------------------------------------------------------------------
// Grammar
// ---------------------------------------------------------------------------

/// Whether `c` is an ASCII decimal digit.
pub open spec fn is_digit(c: char) -> bool {
    '0' <= c <= '9'
}

/// The value of an ASCII decimal digit.
pub open spec fn digit_value(c: char) -> int {
    (c as int) - ('0' as int)
}

/// Reads the decimal digits `d` after the value `acc` read so far, left to
/// right: a non-digit is an invalid digit, and a value above `max` is an
/// overflow, whichever comes first.
pub open spec fn parse_digits(d: Seq<char>, acc: int, max: int) -> Result<int, IntErrorKind>
    decreases d.len(),
{
    if d.len() == 0 {
        Ok(acc)
    } else if !is_digit(d[0]) {
        Err(IntErrorKind::InvalidDigit)
    } else if acc * 10 + digit_value(d[0]) > max {
        Err(IntErrorKind::PosOverflow)
    } else {
        parse_digits(d.drop_first(), acc * 10 + digit_value(d[0]), max)
    }
}

/// Unsigned decimal parsing as `str::parse` does it for an unsigned integer
/// type whose largest value is `max`: an optional leading `+`, then at least
/// one digit.
pub open spec fn parse_unsigned(s: Seq<char>, max: int) -> Result<int, IntErrorKind> {
    if s.len() == 0 {
        Err(IntErrorKind::Empty)
    } else if (s[0] == '+' || s[0] == '-') && s.len() == 1 {
        Err(IntErrorKind::InvalidDigit)
    } else if s[0] == '+' {
        parse_digits(s.drop_first(), 0, max)
    } else {
        parse_digits(s, 0, max)
    }
}

/// Whether `s` starts with two dashes.
pub open spec fn is_long_option(s: Seq<char>) -> bool {
    s.len() >= 2 && s[0] == '-' && s[1] == '-'
}

/// `s` without all its leading pairs of dashes (`trim_start_matches("--")`).
pub open spec fn strip_dashes(s: Seq<char>) -> Seq<char>
    decreases s.len(),
{
    if is_long_option(s) {
        strip_dashes(s.subrange(2, s.len() as int))
    } else {
        s
    }
}

/// How scanning the flags and options stopped.
pub enum ScanView {
    /// All arguments were read: the verbosity and the options in order.
    Done { verbose: int, opts: Seq<(Seq<char>, Seq<char>)> },
    /// A help flag was met, with the verbosity read before it.
    Help { verbose: int },
    /// An argument was refused, with the verbosity read before it.
    Failed { verbose: int, error: CliErrorView },
}

/// Reads the arguments from `args[i]` on, with the verbosity and options
/// read before.  `-v` and `--verbose` add one to the verbosity, `-vv` adds
/// two, `-h`/`--help` stop with help, `--<key> <value>` records an option
/// and anything else is refused.
pub open spec fn scan(
    args: Seq<Seq<char>>,
    i: int,
    verbose: int,
    opts: Seq<(Seq<char>, Seq<char>)>,
) -> ScanView
    decreases args.len() - i,
{
    if i < 0 || i >= args.len() {
        ScanView::Done { verbose, opts }
    } else {
        let a = args[i];
        if a == "-v"@ {
            scan(args, i + 1, verbose + 1, opts)
        } else if a == "-vv"@ {
            scan(args, i + 1, verbose + 2, opts)
        } else if a == "--verbose"@ {
            scan(args, i + 1, verbose + 1, opts)
        } else if a == "-h"@ || a == "--help"@ {
            ScanView::Help { verbose }
        } else if is_long_option(a) {
            if i + 1 < args.len() {
                scan(args, i + 2, verbose, opts.push((strip_dashes(a), args[i + 1])))
            } else {
                ScanView::Failed { verbose, error: CliErrorView::MissingValue(strip_dashes(a)) }
            }
        } else {
            ScanView::Failed { verbose, error: CliErrorView::UnexpectedArgument(a) }
        }
    }
}

/// The verbosity read when the scan stopped.
pub open spec fn scan_verbose(s: ScanView) -> int {
    match s {
        ScanView::Done { verbose, .. } => verbose,
        ScanView::Help { verbose } => verbose,
        ScanView::Failed { verbose, .. } => verbose,
    }
}

/// The value of the last option named `key` (later options override
/// earlier ones).
pub open spec fn lookup(opts: Seq<(Seq<char>, Seq<char>)>, key: Seq<char>) -> Option<Seq<char>>
    decreases opts.len(),
{
    if opts.len() == 0 {
        None
    } else if opts.last().0 == key {
        Some(opts.last().1)
    } else {
        lookup(opts.drop_last(), key)
    }
}

/// A numeric option: its default when absent, its parsed value otherwise.
pub open spec fn numeric_option(
    opts: Seq<(Seq<char>, Seq<char>)>,
    key: Seq<char>,
    max: int,
    default: int,
) -> Result<int, IntErrorKind> {
    match lookup(opts, key) {
        None => Ok(default),
        Some(v) => parse_unsigned(v, max),
    }
}

/// The target of `probe` and `tune`: `--sni` and `--ip` are required,
/// `--port` defaults to 443 and `--timeout-ms` to 4000.
pub open spec fn target_from(opts: Seq<(Seq<char>, Seq<char>)>) -> Result<TargetView, CliErrorView> {
    match lookup(opts, "sni"@) {
        None => Err(CliErrorView::MissingOption("sni"@)),
        Some(sni) => match lookup(opts, "ip"@) {
            None => Err(CliErrorView::MissingOption("ip"@)),
            Some(ip) => match numeric_option(opts, "port"@, 0xffff, 443) {
                Err(k) => Err(CliErrorView::InvalidNumber(k)),
                Ok(port) => match numeric_option(opts, "timeout-ms"@, 0xffff_ffff_ffff_ffff, 4000) {
                    Err(k) => Err(CliErrorView::InvalidNumber(k)),
                    Ok(timeout) => Ok(
                        TargetView { sni, ip, port: port as u16, timeout_ms: timeout as u64 },
                    ),
                },
            },
        },
    }
}

/// The command named by `sub` with the given options.  `tune` reads
/// `--rounds` (default 3) before the target; `run` reads `--config`
/// (default `config.json`).
pub open spec fn command_from(sub: Seq<char>, opts: Seq<(Seq<char>, Seq<char>)>) -> Result<
    CommandView,
    CliErrorView,
> {
    if sub == "probe"@ {
        match target_from(opts) {
            Ok(t) => Ok(CommandView::Probe(t)),
            Err(e) => Err(e),
        }
    } else if sub == "tune"@ {
        match numeric_option(opts, "rounds"@, 0xffff_ffff, 3) {
            Err(k) => Err(CliErrorView::InvalidNumber(k)),
            Ok(rounds) => match target_from(opts) {
                Ok(t) => Ok(CommandView::Tune { target: t, rounds: rounds as u32 }),
                Err(e) => Err(e),
            },
        }
    } else if sub == "run"@ {
        Ok(
            CommandView::Run {
                config: match lookup(opts, "config"@) {
                    Some(c) => c,
                    None => "config.json"@,
                },
            },
        )
    } else {
        Err(CliErrorView::UnknownCommand(sub))
    }
}

/// The first argument asks for help.
pub open spec fn is_help_command(s: Seq<char>) -> bool {
    s == "-h"@ || s == "--help"@ || s == "help"@
}

/// The first argument asks for the version.
pub open spec fn is_version_command(s: Seq<char>) -> bool {
    s == "-V"@ || s == "--version"@
}

/// The meaning of a command line (without the program name): no argument
/// or a help word asks for help, a version word for the version; otherwise
/// the flags and options after the command are read, and then the command
/// is built from the options.
pub open spec fn interpret(args: Seq<Seq<char>>) -> Result<ParsedView, CliErrorView> {
    if args.len() == 0 || is_help_command(args[0]) {
        Ok(ParsedView { command: CommandView::Help, verbose: 0 })
    } else if is_version_command(args[0]) {
        Ok(ParsedView { command: CommandView::Version, verbose: 0 })
    } else {
        match scan(args, 1, 0, seq![]) {
            ScanView::Help { verbose } => Ok(
                ParsedView { command: CommandView::Help, verbose: verbose as u8 },
            ),
            ScanView::Failed { error, .. } => Err(error),
            ScanView::Done { verbose, opts } => match command_from(args[0], opts) {
                Ok(c) => Ok(ParsedView { command: c, verbose: verbose as u8 }),
                Err(e) => Err(e),
            },
        }
    }
}

/// The verbosity count of `args` fits a `u8`: adding past 255 overflows
/// the counter.
pub open spec fn verbosity_in_range(args: Seq<Seq<char>>) -> bool {
    args.len() == 0 || is_help_command(args[0]) || is_version_command(args[0]) || scan_verbose(
        scan(args, 1, 0, seq![]),
    ) <= 255
}

/// The verbosity that the flags of `args` from `args[i]` on add up to: one
/// for each `-v` or `--verbose` and two for each `-vv`, in any order and
/// between any options, up to a help flag or a refused argument.  The value
/// of an option is never read as a flag.
pub open spec fn flag_total(args: Seq<Seq<char>>, i: int) -> int
    decreases args.len() - i,
{
    if i < 0 || i >= args.len() {
        0
    } else {
        let a = args[i];
        if a == "-v"@ {
            1 + flag_total(args, i + 1)
        } else if a == "-vv"@ {
            2 + flag_total(args, i + 1)
        } else if a == "--verbose"@ {
            1 + flag_total(args, i + 1)
        } else if a == "-h"@ || a == "--help"@ {
            0
        } else if is_long_option(a) && i + 1 < args.len() {
            flag_total(args, i + 2)
        } else {
            0
        }
    }
}

/// Scanning adds the flags' total to the verbosity read before.
proof fn lemma_scan_counts_flags(
    args: Seq<Seq<char>>,
    i: int,
    verbose: int,
    opts: Seq<(Seq<char>, Seq<char>)>,
)
    ensures
        scan_verbose(scan(args, i, verbose, opts)) == verbose + flag_total(args, i),
        flag_total(args, i) >= 0,
    decreases args.len() - i,
{
    if 0 <= i < args.len() {
        let a = args[i];
        if a == "-v"@ {
            lemma_scan_counts_flags(args, i + 1, verbose + 1, opts);
        } else if a == "-vv"@ {
            lemma_scan_counts_flags(args, i + 1, verbose + 2, opts);
        } else if a == "--verbose"@ {
            lemma_scan_counts_flags(args, i + 1, verbose + 1, opts);
        } else if a == "-h"@ || a == "--help"@ {
        } else if is_long_option(a) && i + 1 < args.len() {
            lemma_scan_counts_flags(args, i + 2, verbose, opts.push((strip_dashes(a), args[i + 1])));
        }
    }
}

/// The verbosity of a command line that runs a command is the total of its
/// flags after the command: one for each `-v` or `--verbose`, two for each
/// `-vv`, whatever their order and however they sit between the options.
pub proof fn lemma_parsed_verbosity(args: Seq<Seq<char>>)
    requires
        args.len() > 0,
        !is_help_command(args[0]),
        !is_version_command(args[0]),
        flag_total(args, 1) <= 255,
        interpret(args) is Ok,
    ensures
        interpret(args)->Ok_0.verbose == flag_total(args, 1),
{
    lemma_scan_counts_flags(args, 1, 0, seq![]);
    let total = flag_total(args, 1);
    match scan(args, 1, 0, seq![]) {
        ScanView::Help { verbose } => assert(verbose == total),
        ScanView::Failed { .. } => {},
        ScanView::Done { verbose, opts } => assert(verbose == total),
    }
}

/// The character views of the arguments.
pub open spec fn arg_views(args: Seq<String>) -> Seq<Seq<char>> {
    args.map_values(|a: String| a@)
}

// ---------------------------------------------------------------------------
// Text helpers
// ---------------------------------------------------------------------------

/// Calls `String::push`, which appends `c` to the end of `s`.
#[verifier::external_body]
fn push_char(s: &mut String, c: char)
    ensures
        final(s)@ == old(s)@.push(c),
{
    s.push(c)
}

/// The characters of `s`.
fn chars_of(s: &str) -> (chars: Vec<char>)
    ensures
        chars@ == s@,
{
    let mut out: Vec<char> = Vec::new();
    for c in it: s.chars()
        invariant
            out@ == it.seq().take(it.index() as int),
    {
        out.push(c);
    }
    out
}

/// The string made of the characters `chars`.
fn string_of(chars: &Vec<char>) -> (s: String)
    ensures
        s@ == chars@,
{
    let mut s = String::new();
    let mut i: usize = 0;
    while i < chars.len()
        invariant
            i <= chars@.len(),
            s@ == chars@.take(i as int),
        decreases chars@.len() - i,
    {
        push_char(&mut s, chars[i]);
        i = i + 1;
        assert(s@ =~= chars@.take(i as int));
    }
    assert(chars@.take(i as int) =~= chars@);
    s
}

/// Whether the characters `a` spell `word`.
fn spells(a: &Vec<char>, word: &str) -> (same: bool)
    ensures
        same == (a@ == word@),
{
    let w = chars_of(word);
    if a.len() != w.len() {
        assert(a@.len() != word@.len());
        return false;
    }
    let mut i: usize = 0;
    while i < a.len()
        invariant
            a@.len() == w@.len(),
            w@ == word@,
            i <= a@.len(),
            forall|k: int| 0 <= k < i ==> a@[k] == w@[k],
        decreases a@.len() - i,
    {
        if a[i] != w[i] {
            assert(a@[i as int] != word@[i as int]);
            return false;
        }
        i = i + 1;
    }
    assert(a@ =~= w@);
    true
}

/// The characters after all leading pairs of dashes.
fn strip_leading_dashes(a: &Vec<char>) -> (key: Vec<char>)
    ensures
        key@ == strip_dashes(a@),
{
    let mut j: usize = 0;
    assert(a@.subrange(0, a@.len() as int) =~= a@);
    while a.len() - j > 1 && a[j] == '-' && a[j + 1] == '-'
        invariant
            j <= a@.len(),
            strip_dashes(a@) == strip_dashes(a@.subrange(j as int, a@.len() as int)),
        decreases a@.len() - j,
    {
        let ghost rest = a@.subrange(j as int, a@.len() as int);
        assert(rest.subrange(2, rest.len() as int) =~= a@.subrange(j + 2, a@.len() as int));
        j = j + 2;
    }
    let mut key: Vec<char> = Vec::new();
    let mut k: usize = j;
    while k < a.len()
        invariant
            j <= k <= a@.len(),
            key@ == a@.subrange(j as int, k as int),
        decreases a@.len() - k,
    {
        key.push(a[k]);
        k = k + 1;
        assert(key@ =~= a@.subrange(j as int, k as int));
    }
    key
}

proof fn lemma_overflow_test(acc: int, d: int, max: int)
    requires
        0 <= acc <= max,
        0 <= d <= 9,
        max >= 9,
    ensures
        (acc * 10 + d > max) == (acc > (max - d) / 10),
{
    assert((acc * 10 + d > max) == (acc > (max - d) / 10)) by (nonlinear_arith)
        requires
            0 <= acc,
            0 <= d <= max,
    ;
}

/// Parse an unsigned decimal number no larger than `max`.
fn parse_number(s: &Vec<char>, max: u64) -> (result: Result<u64, IntErrorKind>)
    requires
        max >= 9,
    ensures
        match result {
            Ok(v) => parse_unsigned(s@, max as int) == Ok::<int, IntErrorKind>(v as int),
            Err(k) => parse_unsigned(s@, max as int) == Err::<int, IntErrorKind>(k),
        },
{
    if s.len() == 0 {
        return Err(IntErrorKind::Empty);
    }
    if (s[0] == '+' || s[0] == '-') && s.len() == 1 {
        return Err(IntErrorKind::InvalidDigit);
    }
    let start: usize = if s[0] == '+' {
        1
    } else {
        0
    };
    assert(s@.skip(0) =~= s@);
    assert(s@.skip(1) =~= s@.drop_first());
    let mut acc: u64 = 0;
    let mut i: usize = start;
    while i < s.len()
        invariant
            max >= 9,
            start <= i <= s@.len(),
            acc <= max,
            parse_unsigned(s@, max as int) == parse_digits(s@.skip(i as int), acc as int, max as int),
        decreases s@.len() - i,
    {
        let c = s[i];
        assert(s@.skip(i as int)[0] == c);
        if !('0' <= c && c <= '9') {
            return Err(IntErrorKind::InvalidDigit);
        }
        let d: u64 = (c as u32 - '0' as u32) as u64;
        assert(d as int == digit_value(c));
        proof {
            lemma_overflow_test(acc as int, d as int, max as int);
        }
        if acc > (max - d) / 10 {
            return Err(IntErrorKind::PosOverflow);
        }
        acc = acc * 10 + d;
        assert(s@.skip(i as int).drop_first() =~= s@.skip(i + 1));
        i = i + 1;
    }
    assert(s@.skip(i as int) =~= Seq::<char>::empty());
    Ok(acc)
}

// ---------------------------------------------------------------------------
// Scanning the arguments
// ---------------------------------------------------------------------------

/// The options read so far: key characters and value.
type Options = Vec<(Vec<char>, String)>;

pub open spec fn options_view(opts: Seq<(Vec<char>, String)>) -> Seq<(Seq<char>, Seq<char>)> {
    opts.map_values(|p: (Vec<char>, String)| (p.0@, p.1@))
}

enum ScanOutcome {
    Done { verbose: u128, opts: Options },
    Help { verbose: u128 },
    Failed { verbose: u128, error: CliError },
}

spec fn scan_outcome_view(s: ScanOutcome) -> ScanView {
    match s {
        ScanOutcome::Done { verbose, opts } => ScanView::Done {
            verbose: verbose as int,
            opts: options_view(opts@),
        },
        ScanOutcome::Help { verbose } => ScanView::Help { verbose: verbose as int },
        ScanOutcome::Failed { verbose, error } => ScanView::Failed {
            verbose: verbose as int,
            error: error@,
        },
    }
}

/// Read the flags and options after the command.
fn scan_args(args: &Vec<String>) -> (outcome: ScanOutcome)
    ensures
        scan_outcome_view(outcome) == scan(arg_views(args@), 1, 0, seq![]),
{
    let ghost views = arg_views(args@);
    let mut verbose: u128 = 0;
    let mut opts: Options = Vec::new();
    let mut i: usize = 1;
    assert(options_view(opts@) =~= Seq::<(Seq<char>, Seq<char>)>::empty());
    while i < args.len()
        invariant
            views == arg_views(args@),
            1 <= i,
            verbose <= 2 * i,
            scan(views, 1, 0, seq![]) == scan(views, i as int, verbose as int, options_view(opts@)),
        decreases args@.len() - i,
    {
        let a = chars_of(args[i].as_str());
        assert(a@ == views[i as int]);
        if spells(&a, "-v") {
            verbose = verbose + 1;
            i = i + 1;
        } else if spells(&a, "-vv") {
            verbose = verbose + 2;
            i = i + 1;
        } else if spells(&a, "--verbose") {
            verbose = verbose + 1;
            i = i + 1;
        } else if spells(&a, "-h") || spells(&a, "--help") {
            return ScanOutcome::Help { verbose };
        } else if a.len() >= 2 && a[0] == '-' && a[1] == '-' {
            let key = strip_leading_dashes(&a);
            if i + 1 < args.len() {
                let value = args[i + 1].clone();
                let ghost before = opts@;
                assert(value@ == views[i + 1]);
                opts.push((key, value));
                assert(options_view(opts@) =~= options_view(before).push(
                    (strip_dashes(views[i as int]), views[i + 1]),
                ));
                i = i + 2;
            } else {
                let k = string_of(&key);
                return ScanOutcome::Failed { verbose, error: CliError::MissingValue(k) };
            }
        } else {
            let arg = args[i].clone();
            return ScanOutcome::Failed { verbose, error: CliError::UnexpectedArgument(arg) };
        }
    }
    ScanOutcome::Done { verbose, opts }
}

/// The value of the last option named `key`.
fn lookup_option(opts: &Options, key: &str) -> (value: Option<String>)
    ensures
        match value {
            Some(v) => lookup(options_view(opts@), key@) == Some(v@),
            None => lookup(options_view(opts@), key@) is None,
        },
{
    let ghost all = options_view(opts@);
    let mut n: usize = opts.len();
    assert(all.take(n as int) =~= all);
    while n > 0
        invariant
            n <= opts@.len(),
            all == options_view(opts@),
            lookup(all, key@) == lookup(all.take(n as int), key@),
        decreases n,
    {
        let ghost prefix = all.take(n as int);
        assert(prefix.last() == all[n - 1]);
        assert(all[n - 1] == (opts@[n - 1].0@, opts@[n - 1].1@));
        if spells(&opts[n - 1].0, key) {
            return Some(opts[n - 1].1.clone());
        }
        assert(prefix.drop_last() =~= all.take(n - 1));
        n = n - 1;
    }
    None
}

/// A numeric option with its default.
fn numeric_value(opts: &Options, key: &str, max: u64, default: u64) -> (result: Result<
    u64,
    IntErrorKind,
>)
    requires
        max >= 9,
        default <= max,
    ensures
        match result {
            Ok(v) => numeric_option(options_view(opts@), key@, max as int, default as int) == Ok::<
                int,
                IntErrorKind,
            >(v as int),
            Err(k) => numeric_option(options_view(opts@), key@, max as int, default as int) == Err::<
                int,
                IntErrorKind,
            >(k),
        },
        result matches Ok(v) ==> v <= max,
{
    match lookup_option(opts, key) {
        None => Ok(default),
        Some(v) => {
            let chars = chars_of(v.as_str());
            let r = parse_number(&chars, max);
            proof {
                if let Ok(x) = r {
                    lemma_parse_digits_bound(chars@, max as int);
                }
            }
            r
        },
    }
}

proof fn lemma_parse_digits_bound(s: Seq<char>, max: int)
    requires
        max >= 0,
    ensures
        parse_unsigned(s, max) matches Ok(v) ==> 0 <= v <= max,
{
    if s.len() > 0 {
        if s[0] == '+' {
            lemma_digits_bound(s.drop_first(), 0, max);
        } else {
            lemma_digits_bound(s, 0, max);
        }
    }
}

proof fn lemma_digits_bound(d: Seq<char>, acc: int, max: int)
    requires
        0 <= acc,
        acc <= max,
    ensures
        parse_digits(d, acc, max) matches Ok(v) ==> 0 <= v <= max,
    decreases d.len(),
{
    if d.len() > 0 && is_digit(d[0]) && acc * 10 + digit_value(d[0]) <= max {
        assert(acc * 10 + digit_value(d[0]) >= 0) by (nonlinear_arith)
            requires
                acc >= 0,
                digit_value(d[0]) >= 0,
        ;
        lemma_digits_bound(d.drop_first(), acc * 10 + digit_value(d[0]), max);
    }
}

// ---------------------------------------------------------------------------
// Building the command
// ---------------------------------------------------------------------------

fn target_from_options(opts: &Options) -> (result: Result<Target, CliError>)
    ensures
        match result {
            Ok(t) => target_from(options_view(opts@)) == Ok::<TargetView, CliErrorView>(t@),
            Err(e) => target_from(options_view(opts@)) == Err::<TargetView, CliErrorView>(e@),
        },
{
    let sni = match lookup_option(opts, "sni") {
        Some(v) => v,
        None => return Err(CliError::MissingOption("sni".to_owned())),
    };
    let ip = match lookup_option(opts, "ip") {
        Some(v) => v,
        None => return Err(CliError::MissingOption("ip".to_owned())),
    };
    let port = match numeric_value(opts, "port", 0xffff, 443) {
        Ok(v) => v,
        Err(k) => return Err(CliError::InvalidNumber(k)),
    };
    let timeout_ms = match numeric_value(opts, "timeout-ms", 0xffff_ffff_ffff_ffff, 4000) {
        Ok(v) => v,
        Err(k) => return Err(CliError::InvalidNumber(k)),
    };
    Ok(Target { sni, ip, port: port as u16, timeout_ms })
}

fn command_from_options(sub: &String, opts: &Options) -> (result: Result<Command, CliError>)
    ensures
        match result {
            Ok(c) => command_from(sub@, options_view(opts@)) == Ok::<CommandView, CliErrorView>(c@),
            Err(e) => command_from(sub@, options_view(opts@)) == Err::<CommandView, CliErrorView>(
                e@,
            ),
        },
{
    let name = chars_of(sub.as_str());
    if spells(&name, "probe") {
        match target_from_options(opts) {
            Ok(t) => Ok(Command::Probe(t)),
            Err(e) => Err(e),
        }
    } else if spells(&name, "tune") {
        let rounds = match numeric_value(opts, "rounds", 0xffff_ffff, 3) {
            Ok(v) => v,
            Err(k) => return Err(CliError::InvalidNumber(k)),
        };
        match target_from_options(opts) {
            Ok(t) => Ok(Command::Tune { target: t, rounds: rounds as u32 }),
            Err(e) => Err(e),
        }
    } else if spells(&name, "run") {
        let config = match lookup_option(opts, "config") {
            Some(c) => c,
            None => "config.json".to_owned(),
        };
        Ok(Command::Run { config })
    } else {
        Err(CliError::UnknownCommand(sub.clone()))
    }
}

/// Whether the verbosity flags of `args` keep the verbosity count within a
/// `u8`, as [`parse`] needs.
pub fn verbosity_fits(args: &Vec<String>) -> (fits: bool)
    ensures
        fits == verbosity_in_range(arg_views(args@)),
{
    if args.len() == 0 {
        return true;
    }
    let first = chars_of(args[0].as_str());
    assert(first@ == arg_views(args@)[0]);
    if spells(&first, "-h") || spells(&first, "--help") || spells(&first, "help") || spells(
        &first,
        "-V",
    ) || spells(&first, "--version") {
        return true;
    }
    match scan_args(args) {
        ScanOutcome::Done { verbose, .. } => verbose <= 255,
        ScanOutcome::Help { verbose } => verbose <= 255,
        ScanOutcome::Failed { verbose, .. } => verbose <= 255,
    }
}

/// Parse the command line `args` (without the program name).
pub fn parse(args: Vec<String>) -> (result: Result<Parsed, CliError>)
    requires
        verbosity_in_range(arg_views(args@)),
    ensures
        outcome_view(result) == interpret(arg_views(args@)),
{
    if args.len() == 0 {
        return Ok(Parsed { command: Command::Help, verbose: 0 });
    }
    let sub = chars_of(args[0].as_str());
    assert(sub@ == arg_views(args@)[0]);
    if spells(&sub, "-h") || spells(&sub, "--help") || spells(&sub, "help") {
        return Ok(Parsed { command: Command::Help, verbose: 0 });
    }
    if spells(&sub, "-V") || spells(&sub, "--version") {
        return Ok(Parsed { command: Command::Version, verbose: 0 });
    }
    match scan_args(&args) {
        ScanOutcome::Help { verbose } => Ok(Parsed { command: Command::Help, verbose: verbose as u8 }),
        ScanOutcome::Failed { error, .. } => Err(error),
        ScanOutcome::Done { verbose, opts } => match command_from_options(&args[0], &opts) {
            Ok(command) => Ok(Parsed { command, verbose: verbose as u8 }),
            Err(e) => Err(e),
        },
    }
}

// ---------------------------------------------------------------------------
// Error messages
// ---------------------------------------------------------------------------

/// The message of `std::num::ParseIntError` for each kind.
pub open spec fn int_error_text(kind: IntErrorKind) -> Seq<char> {
    match kind {
        IntErrorKind::Empty => "cannot parse integer from empty string"@,
        IntErrorKind::InvalidDigit => "invalid digit found in string"@,
        IntErrorKind::PosOverflow => "number too large to fit in target type"@,
    }
}

/// The message shown for a refused command line.
pub open spec fn cli_error_text(e: CliErrorView) -> Seq<char> {
    match e {
        CliErrorView::MissingValue(key) => "option --"@ + key + " needs a value"@,
        CliErrorView::UnexpectedArgument(arg) => "unexpected argument: "@ + arg,
        CliErrorView::UnknownCommand(cmd) => "unknown command: "@ + cmd + " (try `autodpi help`)"@,
        CliErrorView::MissingOption(key) => "--"@ + key + " is required"@,
        CliErrorView::InvalidNumber(kind) => int_error_text(kind),
    }
}

impl CliError {
    /// The message shown for this error.
    pub fn message(&self) -> (text: String)
        ensures
            text@ == cli_error_text(self@),
    {
        match self {
            CliError::MissingValue(key) => {
                let mut t = "option --".to_owned();
                t.append(key.as_str());
                t.append(" needs a value");
                t
            },
            CliError::UnexpectedArgument(arg) => {
                let mut t = "unexpected argument: ".to_owned();
                t.append(arg.as_str());
                t
            },
            CliError::UnknownCommand(cmd) => {
                let mut t = "unknown command: ".to_owned();
                t.append(cmd.as_str());
                t.append(" (try `autodpi help`)");
                t
            },
            CliError::MissingOption(key) => {
                let mut t = "--".to_owned();
                t.append(key.as_str());
                t.append(" is required");
                t
            },
            CliError::InvalidNumber(IntErrorKind::Empty) => {
                "cannot parse integer from empty string".to_owned()
            },
            CliError::InvalidNumber(IntErrorKind::InvalidDigit) => {
                "invalid digit found in string".to_owned()
            },
            CliError::InvalidNumber(IntErrorKind::PosOverflow) => {
                "number too large to fit in target type".to_owned()
            },
        }
    }
}

} // verus!
