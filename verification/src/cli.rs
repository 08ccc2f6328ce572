//! Command-line arguments of the engine:
//!
//! ```text
//! vyges-em-ir run   JOB [-o OUT] [--json] [--fail-on-violation]
//! vyges-em-ir check JOB
//! vyges-em-ir demo  [-o OUT] [--json]
//! ```
//!
//! Common flags: `-h/--help`, `-V/--version`, `-q/--quiet`, `-v/--verbose`. Anything
//! that is not a flag is a positional argument; `-o` takes the next argument.

use vstd::prelude::*;
use crate::text::{chars_of, eq_lit};

verus! {

broadcast use {vstd::string::group_string_axioms, crate::text::lemma_map_push};

/// The parsed command line.
#[derive(Debug)]
pub struct Cli {
    pub positionals: Vec<String>,
    pub out: Option<String>,
    pub json: bool,
    pub quiet: bool,
    pub verbose: bool,
    pub fail_on_violation: bool,
    pub help: bool,
    pub version: bool,
    pub bug_report: bool,
    pub feature_request: bool,
    pub sponsor: bool,
    pub star: bool,
}

pub struct CliV {
    pub positionals: Seq<Seq<char>>,
    pub out: Option<Seq<char>>,
    pub json: bool,
    pub quiet: bool,
    pub verbose: bool,
    pub fail_on_violation: bool,
    pub help: bool,
    pub version: bool,
    pub bug_report: bool,
    pub feature_request: bool,
    pub sponsor: bool,
    pub star: bool,
}

impl View for Cli {
    type V = CliV;

    open spec fn view(&self) -> CliV {
        CliV {
            positionals: self.positionals@.map_values(|s: String| s@),
            out: crate::pdn::opt_view(self.out),
            json: self.json,
            quiet: self.quiet,
            verbose: self.verbose,
            fail_on_violation: self.fail_on_violation,
            help: self.help,
            version: self.version,
            bug_report: self.bug_report,
            feature_request: self.feature_request,
            sponsor: self.sponsor,
            star: self.star,
        }
    }
}

pub open spec fn cli_init() -> CliV {
    CliV {
        positionals: seq![],
        out: None,
        json: false,
        quiet: false,
        verbose: false,
        fail_on_violation: false,
        help: false,
        version: false,
        bug_report: false,
        feature_request: false,
        sponsor: false,
        star: false,
    }
}

/// What one argument is.
pub enum ArgKind {
    Out,
    Json,
    FailOnViolation,
    Quiet,
    Verbose,
    Help,
    Version,
    BugReport,
    FeatureRequest,
    Sponsor,
    Star,
    Positional,
}

pub open spec fn classify(a: Seq<char>) -> ArgKind {
    if a == "-o"@ {
        ArgKind::Out
    } else if a == "--json"@ {
        ArgKind::Json
    } else if a == "--fail-on-violation"@ {
        ArgKind::FailOnViolation
    } else if a == "-q"@ || a == "--quiet"@ {
        ArgKind::Quiet
    } else if a == "-v"@ || a == "--verbose"@ {
        ArgKind::Verbose
    } else if a == "-h"@ || a == "--help"@ {
        ArgKind::Help
    } else if a == "-V"@ || a == "--version"@ {
        ArgKind::Version
    } else if a == "--bug-report"@ {
        ArgKind::BugReport
    } else if a == "--feature-request"@ {
        ArgKind::FeatureRequest
    } else if a == "--sponsor"@ {
        ArgKind::Sponsor
    } else if a == "--star"@ {
        ArgKind::Star
    } else {
        ArgKind::Positional
    }
}

/// The argument at `i` applied to the command line read so far; with the index of
/// the next argument.
pub open spec fn cli_step(args: Seq<Seq<char>>, i: int, c: CliV) -> (int, CliV) {
    match classify(args[i]) {
        ArgKind::Out => (i + 2, CliV { out: if i + 1 < args.len() { Some(args[i + 1]) } else { None }, ..c }),
        ArgKind::Json => (i + 1, CliV { json: true, ..c }),
        ArgKind::FailOnViolation => (i + 1, CliV { fail_on_violation: true, ..c }),
        ArgKind::Quiet => (i + 1, CliV { quiet: true, ..c }),
        ArgKind::Verbose => (i + 1, CliV { verbose: true, ..c }),
        ArgKind::Help => (i + 1, CliV { help: true, ..c }),
        ArgKind::Version => (i + 1, CliV { version: true, ..c }),
        ArgKind::BugReport => (i + 1, CliV { bug_report: true, ..c }),
        ArgKind::FeatureRequest => (i + 1, CliV { feature_request: true, ..c }),
        ArgKind::Sponsor => (i + 1, CliV { sponsor: true, ..c }),
        ArgKind::Star => (i + 1, CliV { star: true, ..c }),
        ArgKind::Positional => (i + 1, CliV { positionals: c.positionals.push(args[i]), ..c }),
    }
}

pub open spec fn cli_run(args: Seq<Seq<char>>, i: int, c: CliV) -> CliV
    decreases args.len() - i,
{
    if i < 0 || i >= args.len() {
        c
    } else {
        let (j, c2) = cli_step(args, i, c);
        if j <= i || j >= args.len() {
            c2
        } else {
            cli_run(args, j, c2)
        }
    }
}

/// What the arguments say.
pub open spec fn spec_cli(args: Seq<Seq<char>>) -> CliV {
    cli_run(args, 0, cli_init())
}

fn is_arg(a: &[char], s: &str) -> (b: bool)
    ensures
        b == (a@ == s@),
{
    eq_lit(a, s)
}

fn classify_exec(a: &[char]) -> (k: ArgKind)
    ensures
        k == classify(a@),
{
    if is_arg(a, "-o") {
        ArgKind::Out
    } else if is_arg(a, "--json") {
        ArgKind::Json
    } else if is_arg(a, "--fail-on-violation") {
        ArgKind::FailOnViolation
    } else if is_arg(a, "-q") || is_arg(a, "--quiet") {
        ArgKind::Quiet
    } else if is_arg(a, "-v") || is_arg(a, "--verbose") {
        ArgKind::Verbose
    } else if is_arg(a, "-h") || is_arg(a, "--help") {
        ArgKind::Help
    } else if is_arg(a, "-V") || is_arg(a, "--version") {
        ArgKind::Version
    } else if is_arg(a, "--bug-report") {
        ArgKind::BugReport
    } else if is_arg(a, "--feature-request") {
        ArgKind::FeatureRequest
    } else if is_arg(a, "--sponsor") {
        ArgKind::Sponsor
    } else if is_arg(a, "--star") {
        ArgKind::Star
    } else {
        ArgKind::Positional
    }
}

/// Applies the argument at `i`; returns the index of the next one (at most the count).
#[verifier::rlimit(100)]
fn apply_arg(c: &mut Cli, args: &[String], i: usize) -> (next: usize)
    requires
        i < args@.len(),
    ensures
        ({
            let (j, c2) = cli_step(args@.map_values(|s: String| s@), i as int, old(c)@);
            &&& final(c)@ == c2
            &&& next == (if j >= args@.len() { args@.len() as int } else { j })
            &&& i < next <= args@.len()
        }),
{
    let ghost av = args@.map_values(|s: String| s@);
    let ac = chars_of(args[i].as_str());
    assert(ac@ == av[i as int]);
    match classify_exec(ac.as_slice()) {
        ArgKind::Out => {
            c.out = if i + 1 < args.len() { Some(args[i + 1].clone()) } else { None };
            return if args.len() - i >= 2 { i + 2 } else { args.len() };
        },
        ArgKind::Json => c.json = true,
        ArgKind::FailOnViolation => c.fail_on_violation = true,
        ArgKind::Quiet => c.quiet = true,
        ArgKind::Verbose => c.verbose = true,
        ArgKind::Help => c.help = true,
        ArgKind::Version => c.version = true,
        ArgKind::BugReport => c.bug_report = true,
        ArgKind::FeatureRequest => c.feature_request = true,
        ArgKind::Sponsor => c.sponsor = true,
        ArgKind::Star => c.star = true,
        ArgKind::Positional => c.positionals.push(args[i].clone()),
    }
    i + 1
}

/// Reads the command-line arguments (program name excluded).
pub fn parse_cli(args: &[String]) -> (c: Cli)
    ensures
        c@ == spec_cli(args@.map_values(|s: String| s@)),
{
    let ghost av = args@.map_values(|s: String| s@);
    let mut c = Cli {
        positionals: Vec::new(),
        out: None,
        json: false,
        quiet: false,
        verbose: false,
        fail_on_violation: false,
        help: false,
        version: false,
        bug_report: false,
        feature_request: false,
        sponsor: false,
        star: false,
    };
    assert(c@ == cli_init()) by {
        assert(c@.positionals =~= Seq::<Seq<char>>::empty());
    }
    let mut i: usize = 0;
    while i < args.len()
        invariant
            i <= args@.len(),
            av == args@.map_values(|s: String| s@),
            spec_cli(av) == cli_run(av, i as int, c@),
        decreases args.len() - i,
    {
        let ghost c0 = c@;
        let next = apply_arg(&mut c, args, i);
        proof {
            let (j, c2) = cli_step(av, i as int, c0);
            if j >= av.len() {
                assert(cli_run(av, next as int, c@) == c2);
            }
        }
        i = next;
    }
    c
}

/// What the command line asks for.
#[derive(Debug)]
pub enum Action {
    BugReport,
    FeatureRequest,
    Sponsor,
    Star,
    Version,
    /// Print the usage text and exit with this status.
    Usage(i32),
    Demo,
    /// `check JOB`, with the job path when one was given.
    Check(Option<String>),
    /// `run JOB`, with the job path when one was given.
    Run(Option<String>),
    /// A command word that is none of the above.
    Unknown(String),
}

pub enum ActionV {
    BugReport,
    FeatureRequest,
    Sponsor,
    Star,
    Version,
    Usage(int),
    Demo,
    Check(Option<Seq<char>>),
    Run(Option<Seq<char>>),
    Unknown(Seq<char>),
}

impl View for Action {
    type V = ActionV;

    open spec fn view(&self) -> ActionV {
        match self {
            Action::BugReport => ActionV::BugReport,
            Action::FeatureRequest => ActionV::FeatureRequest,
            Action::Sponsor => ActionV::Sponsor,
            Action::Star => ActionV::Star,
            Action::Version => ActionV::Version,
            Action::Usage(code) => ActionV::Usage(*code as int),
            Action::Demo => ActionV::Demo,
            Action::Check(p) => ActionV::Check(crate::pdn::opt_view(*p)),
            Action::Run(p) => ActionV::Run(crate::pdn::opt_view(*p)),
            Action::Unknown(w) => ActionV::Unknown(w@),
        }
    }
}

/// The command line's action: the link and version flags first (in that order), then
/// the usage text for `--help` (status 0) or a missing command (status 2), then the
/// command word with the argument after it.
pub open spec fn spec_action(c: CliV) -> ActionV {
    if c.bug_report {
        ActionV::BugReport
    } else if c.feature_request {
        ActionV::FeatureRequest
    } else if c.sponsor {
        ActionV::Sponsor
    } else if c.star {
        ActionV::Star
    } else if c.version {
        ActionV::Version
    } else {
        let cmd = if c.positionals.len() > 0 { c.positionals[0] } else { seq![] };
        let arg = if c.positionals.len() > 1 { Some(c.positionals[1]) } else { None };
        if c.help || cmd.len() == 0 {
            ActionV::Usage(if cmd.len() == 0 && !c.help { 2 } else { 0 })
        } else if cmd == "demo"@ {
            ActionV::Demo
        } else if cmd == "check"@ {
            ActionV::Check(arg)
        } else if cmd == "run"@ {
            ActionV::Run(arg)
        } else {
            ActionV::Unknown(cmd)
        }
    }
}

impl Cli {
    /// What the command line asks for (see `spec_action`).
    pub fn action(&self) -> (a: Action)
        ensures
            a@ == spec_action(self@),
    {
        if self.bug_report {
            return Action::BugReport;
        }
        if self.feature_request {
            return Action::FeatureRequest;
        }
        if self.sponsor {
            return Action::Sponsor;
        }
        if self.star {
            return Action::Star;
        }
        if self.version {
            return Action::Version;
        }
        let ghost pv = self@.positionals;
        let cmd: String = if self.positionals.len() > 0 { self.positionals[0].clone() } else { String::new() };
        let arg: Option<String> = if self.positionals.len() > 1 { Some(self.positionals[1].clone()) } else { None };
        assert(cmd@ == (if pv.len() > 0 { pv[0] } else { seq![] }));
        assert(crate::pdn::opt_view(arg) == (if pv.len() > 1 { Some(pv[1]) } else { None::<Seq<char>> }));
        let empty = cmd.as_str().is_empty();
        if self.help || empty {
            return Action::Usage(if empty && !self.help { 2 } else { 0 });
        }
        let cc = chars_of(cmd.as_str());
        if eq_lit(cc.as_slice(), "demo") {
            Action::Demo
        } else if eq_lit(cc.as_slice(), "check") {
            Action::Check(arg)
        } else if eq_lit(cc.as_slice(), "run") {
            Action::Run(arg)
        } else {
            Action::Unknown(cmd)
        }
    }
}

/// No flag that takes precedence over the command word is set.
pub open spec fn command_word_decides(c: CliV) -> bool {
    !c.bug_report && !c.feature_request && !c.sponsor && !c.star && !c.version && !c.help
}

/// With no link, version or help flag, the first positional picks the action: `demo`
/// runs the demo, and `check` and `run` take the second positional, when there is
/// one, as the job path; any other word is an unknown command, and no word at all
/// prints the usage with status 2.
pub proof fn lemma_command_word_picks_the_action(c: CliV)
    requires
        command_word_decides(c),
    ensures
        c.positionals.len() == 0 ==> spec_action(c) == ActionV::Usage(2),
        c.positionals.len() > 0 && c.positionals[0] == "demo"@ ==> spec_action(c) == ActionV::Demo,
        c.positionals.len() > 0 && c.positionals[0] == "check"@ ==> spec_action(c) == ActionV::Check(
            if c.positionals.len() > 1 { Some(c.positionals[1]) } else { None },
        ),
        c.positionals.len() > 0 && c.positionals[0] == "run"@ ==> spec_action(c) == ActionV::Run(
            if c.positionals.len() > 1 { Some(c.positionals[1]) } else { None },
        ),
        c.positionals.len() > 0 && c.positionals[0].len() > 0 && c.positionals[0] != "demo"@ && c.positionals[0]
            != "check"@ && c.positionals[0] != "run"@ ==> spec_action(c) == ActionV::Unknown(c.positionals[0]),
{
    reveal_strlit("demo");
    reveal_strlit("check");
    reveal_strlit("run");
    assert("demo"@.len() == 4 && "check"@.len() == 5 && "run"@.len() == 3);
}

/// `check JOB` and `run JOB` on their own: the words are read as two positionals, so
/// the action is to check (or run) that job.
pub proof fn lemma_command_and_job_read_as_that_action(cmd: Seq<char>, job: Seq<char>)
    requires
        cmd == "check"@ || cmd == "run"@,
        classify(job) == ArgKind::Positional,
    ensures
        cmd == "check"@ ==> spec_action(spec_cli(seq![cmd, job])) == ActionV::Check(Some(job)),
        cmd == "run"@ ==> spec_action(spec_cli(seq![cmd, job])) == ActionV::Run(Some(job)),
{
    reveal_strlit("check");
    reveal_strlit("run");
    reveal_strlit("-o");
    reveal_strlit("--json");
    reveal_strlit("--fail-on-violation");
    reveal_strlit("-q");
    reveal_strlit("--quiet");
    reveal_strlit("-v");
    reveal_strlit("--verbose");
    reveal_strlit("-h");
    reveal_strlit("--help");
    reveal_strlit("-V");
    reveal_strlit("--version");
    reveal_strlit("--bug-report");
    reveal_strlit("--feature-request");
    reveal_strlit("--sponsor");
    reveal_strlit("--star");
    assert(cmd[0] == 'c' || cmd[0] == 'r');
    assert(classify(cmd) == ArgKind::Positional);
    let args = seq![cmd, job];
    let c1 = cli_step(args, 0, cli_init()).1;
    assert(c1.positionals =~= seq![cmd]);
    let c2 = cli_step(args, 1, c1).1;
    assert(c2.positionals =~= seq![cmd, job]);
    assert(cli_run(args, 1, c1) == c2);
    assert(spec_cli(args) == c2);
    lemma_command_word_picks_the_action(c2);
}

/// Each option word sets its own setting and leaves every other one as it was:
/// `--json`, `--fail-on-violation`, `-q`/`--quiet`, `-v`/`--verbose`, `-h`/`--help`,
/// `-V`/`--version`, `--bug-report`, `--feature-request`, `--sponsor` and `--star`
/// their flag, and `-o <file>` the output file, taken from the next argument; any
/// other word is appended to the positionals.
pub proof fn lemma_option_words_set_their_own_setting(args: Seq<Seq<char>>, i: int, c: CliV)
    requires
        0 <= i < args.len(),
    ensures
        ({
            let a = args[i];
            let r = cli_step(args, i, c);
            &&& a == "-o"@ ==> r == (i + 2, CliV { out: if i + 1 < args.len() { Some(args[i + 1]) } else { None }, ..c })
            &&& a == "--json"@ ==> r == (i + 1, CliV { json: true, ..c })
            &&& a == "--fail-on-violation"@ ==> r == (i + 1, CliV { fail_on_violation: true, ..c })
            &&& (a == "-q"@ || a == "--quiet"@) ==> r == (i + 1, CliV { quiet: true, ..c })
            &&& (a == "-v"@ || a == "--verbose"@) ==> r == (i + 1, CliV { verbose: true, ..c })
            &&& (a == "-h"@ || a == "--help"@) ==> r == (i + 1, CliV { help: true, ..c })
            &&& (a == "-V"@ || a == "--version"@) ==> r == (i + 1, CliV { version: true, ..c })
            &&& a == "--bug-report"@ ==> r == (i + 1, CliV { bug_report: true, ..c })
            &&& a == "--feature-request"@ ==> r == (i + 1, CliV { feature_request: true, ..c })
            &&& a == "--sponsor"@ ==> r == (i + 1, CliV { sponsor: true, ..c })
            &&& a == "--star"@ ==> r == (i + 1, CliV { star: true, ..c })
            &&& (a.len() == 0 || a[0] != '-') ==> r == (i + 1, CliV { positionals: c.positionals.push(a), ..c })
        }),
{
    reveal_strlit("-o");
    reveal_strlit("--json");
    reveal_strlit("--fail-on-violation");
    reveal_strlit("-q");
    reveal_strlit("--quiet");
    reveal_strlit("-v");
    reveal_strlit("--verbose");
    reveal_strlit("-h");
    reveal_strlit("--help");
    reveal_strlit("-V");
    reveal_strlit("--version");
    reveal_strlit("--bug-report");
    reveal_strlit("--feature-request");
    reveal_strlit("--sponsor");
    reveal_strlit("--star");
    assert("-o"@ =~= seq!['-', 'o']);
    assert("--json"@ =~= seq!['-', '-', 'j', 's', 'o', 'n']);
    assert("--fail-on-violation"@ =~= seq!['-', '-', 'f', 'a', 'i', 'l', '-', 'o', 'n', '-', 'v', 'i', 'o', 'l', 'a', 't', 'i', 'o', 'n']);
    assert("-q"@ =~= seq!['-', 'q']);
    assert("--quiet"@ =~= seq!['-', '-', 'q', 'u', 'i', 'e', 't']);
    assert("-v"@ =~= seq!['-', 'v']);
    assert("--verbose"@ =~= seq!['-', '-', 'v', 'e', 'r', 'b', 'o', 's', 'e']);
    assert("-h"@ =~= seq!['-', 'h']);
    assert("--help"@ =~= seq!['-', '-', 'h', 'e', 'l', 'p']);
    assert("-V"@ =~= seq!['-', 'V']);
    assert("--version"@ =~= seq!['-', '-', 'v', 'e', 'r', 's', 'i', 'o', 'n']);
    assert("--bug-report"@ =~= seq!['-', '-', 'b', 'u', 'g', '-', 'r', 'e', 'p', 'o', 'r', 't']);
    assert("--feature-request"@ =~= seq!['-', '-', 'f', 'e', 'a', 't', 'u', 'r', 'e', '-', 'r', 'e', 'q', 'u', 'e', 's', 't']);
    assert("--sponsor"@ =~= seq!['-', '-', 's', 'p', 'o', 'n', 's', 'o', 'r']);
    assert("--star"@ =~= seq!['-', '-', 's', 't', 'a', 'r']);
}

} // verus!
