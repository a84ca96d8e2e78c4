//! The command-line front: what the arguments ask for and how a run is configured.
use vstd::prelude::*;

use crate::intent::tier1::{join_with_spaces, join_words};
use crate::text::{ascii_lower_char, char_views, chars_eq, chars_of, string_from_chars, string_views, trim, trim_chars};

verus! {

/// The abstract content of a [`CliCommand`].
pub enum CliView {
    Usage,
    History,
    Version,
    Help,
    Run { request: Seq<char>, dry_run: bool },
}

/// What a command line asks for.
#[derive(Debug, Clone, PartialEq, Eq)]
pub enum CliCommand {
    /// Print the usage guide.
    Usage,
    /// Show the recent command history.
    History,
    /// Print the version.
    Version,
    /// Print the usage guide on request.
    Help,
    /// Handle a natural-language request.
    Run { request: String, dry_run: bool },
}

impl View for CliCommand {
    type V = CliView;

    open spec fn view(&self) -> CliView {
        match self {
            CliCommand::Usage => CliView::Usage,
            CliCommand::History => CliView::History,
            CliCommand::Version => CliView::Version,
            CliCommand::Help => CliView::Help,
            CliCommand::Run { request, dry_run } => CliView::Run { request: request@, dry_run: *dry_run },
        }
    }
}

/// Whether `a` and `b` are equal when ASCII letters are compared without case.
pub open spec fn eq_ignore_ascii_case(a: Seq<char>, b: Seq<char>) -> bool {
    &&& a.len() == b.len()
    &&& forall|i: int| 0 <= i < a.len() ==> ascii_lower_char(#[trigger] a[i]) == ascii_lower_char(b[i])
}

/// The arguments that make up the request: all but the `--dry-run` flags, in order.
pub open spec fn request_words(args: Seq<Seq<char>>) -> Seq<Seq<char>>
    decreases args.len(),
{
    if args.len() == 0 {
        Seq::empty()
    } else {
        let prev = request_words(args.drop_last());
        if args.last() == "--dry-run"@ {
            prev
        } else {
            prev.push(args.last())
        }
    }
}

/// What the arguments after the program name ask for: the request is the other
/// arguments joined with spaces and trimmed; `history` (in any ASCII case), the version
/// flags and the help words are commands of their own.
pub open spec fn cli_outcome(args: Seq<Seq<char>>) -> CliView {
    let request = trim(join_words(request_words(args)));
    if args.len() == 0 || request.len() == 0 {
        CliView::Usage
    } else if eq_ignore_ascii_case(request, "history"@) {
        CliView::History
    } else if request == "--version"@ || request == "-V"@ || request == "-v"@ {
        CliView::Version
    } else if request == "--help"@ || request == "-h"@ || request == "help"@ {
        CliView::Help
    } else {
        CliView::Run { request, dry_run: args.contains("--dry-run"@) }
    }
}

/// A run is a dry run exactly when some argument, wherever it stands, is `--dry-run`.
pub proof fn lemma_dry_run_flag(args: Seq<Seq<char>>)
    ensures
        cli_outcome(args) matches CliView::Run { dry_run, .. } ==> (dry_run <==> exists|k: int|
            0 <= k < args.len() && #[trigger] args[k] == "--dry-run"@),
{
}

/// `--dry-run` never becomes part of the request: the request words are the other
/// arguments, in order, wherever the flag stands.
pub proof fn lemma_dry_run_not_in_request(args: Seq<Seq<char>>)
    ensures
        forall|k: int|
            0 <= k < request_words(args).len() ==> #[trigger] request_words(args)[k] != "--dry-run"@,
        !args.contains("--dry-run"@) ==> request_words(args) == args,
    decreases args.len(),
{
    if args.len() > 0 {
        lemma_dry_run_not_in_request(args.drop_last());
        let prev = request_words(args.drop_last());
        assert forall|k: int| 0 <= k < request_words(args).len() implies #[trigger] request_words(
            args,
        )[k] != "--dry-run"@ by {
            if k < prev.len() {
                assert(request_words(args)[k] == prev[k]);
            }
        }
        if !args.contains("--dry-run"@) {
            assert(!args.drop_last().contains("--dry-run"@)) by {
                if args.drop_last().contains("--dry-run"@) {
                    let j = choose|j: int| 0 <= j < args.drop_last().len() && args.drop_last()[j] == "--dry-run"@;
                    assert(args[j] == "--dry-run"@);
                }
            }
            assert(args[args.len() - 1] != "--dry-run"@);
            assert(args.drop_last().push(args.last()) =~= args);
        }
    }
}

fn ascii_case_eq(x: char, y: char) -> (r: bool)
    ensures
        r == (ascii_lower_char(x) == ascii_lower_char(y)),
{
    let xl: u32 = if 'A' <= x && x <= 'Z' {
        x as u32 + 32
    } else {
        x as u32
    };
    let yl: u32 = if 'A' <= y && y <= 'Z' {
        y as u32 + 32
    } else {
        y as u32
    };
    assert(ascii_lower_char(x) as u32 == xl);
    assert(ascii_lower_char(y) as u32 == yl);
    xl == yl
}

/// Whether `a` and `b` are equal up to the case of ASCII letters.
pub fn chars_eq_ignore_ascii_case(a: &Vec<char>, b: &Vec<char>) -> (r: bool)
    ensures
        r == eq_ignore_ascii_case(a@, b@),
{
    if a.len() != b.len() {
        return false;
    }
    let mut i: usize = 0;
    while i < a.len()
        invariant
            i <= a.len() == b.len(),
            forall|k: int| 0 <= k < i ==> ascii_lower_char(#[trigger] a@[k]) == ascii_lower_char(b@[k]),
        decreases a.len() - i,
    {
        if !ascii_case_eq(a[i], b[i]) {
            return false;
        }
        i = i + 1;
    }
    true
}

/// Reads the command-line arguments that follow the program name.
pub fn parse_args(args: &Vec<String>) -> (r: CliCommand)
    ensures
        r@ == cli_outcome(string_views(args@)),
{
    let ghost sv = string_views(args@);
    let flag = chars_of("--dry-run");
    let mut dry_run = false;
    let mut words: Vec<Vec<char>> = Vec::new();
    let mut i: usize = 0;
    assert(sv.take(0) =~= Seq::<Seq<char>>::empty());
    while i < args.len()
        invariant
            i <= args.len(),
            sv == string_views(args@),
            flag@ == "--dry-run"@,
            char_views(words@) == request_words(sv.take(i as int)),
            dry_run == (exists|k: int| 0 <= k < i && sv[k] == "--dry-run"@),
        decreases args.len() - i,
    {
        let a = chars_of(args[i].as_str());
        assert(sv.take(i + 1).drop_last() =~= sv.take(i as int));
        assert(sv[i as int] == args@[i as int]@);
        if chars_eq(&a, &flag) {
            dry_run = true;
        } else {
            let ghost old_words = words@;
            words.push(a);
            assert(char_views(words@) =~= char_views(old_words).push(a@));
        }
        i = i + 1;
    }
    assert(sv.take(args.len() as int) =~= sv);
    assert(dry_run == sv.contains("--dry-run"@));
    let request = trim_chars(&join_with_spaces(&words));
    if args.len() == 0 || request.len() == 0 {
        CliCommand::Usage
    } else if chars_eq_ignore_ascii_case(&request, &chars_of("history")) {
        CliCommand::History
    } else if chars_eq(&request, &chars_of("--version")) || chars_eq(&request, &chars_of("-V"))
        || chars_eq(&request, &chars_of("-v")) {
        CliCommand::Version
    } else if chars_eq(&request, &chars_of("--help")) || chars_eq(&request, &chars_of("-h"))
        || chars_eq(&request, &chars_of("help")) {
        CliCommand::Help
    } else {
        CliCommand::Run { request: string_from_chars(&request), dry_run }
    }
}

/// Whether a run executes its command: never in a dry run; otherwise unless the
/// `CMDMIND_AUTO_EXECUTE` setting is `0` or `false` (in any ASCII case).
pub open spec fn auto_execute(dry_run: bool, setting: Option<Seq<char>>) -> bool {
    if dry_run {
        false
    } else {
        match setting {
            Some(v) => v != "0"@ && !eq_ignore_ascii_case(v, "false"@),
            None => true,
        }
    }
}

/// Decides whether a run executes its command.
pub fn auto_execute_enabled(dry_run: bool, setting: Option<&str>) -> (r: bool)
    ensures
        r == auto_execute(dry_run, match setting {
            Some(v) => Some(v@),
            None => None,
        }),
{
    if dry_run {
        return false;
    }
    match setting {
        Some(v) => {
            let vc = chars_of(v);
            !chars_eq(&vc, &chars_of("0")) && !chars_eq_ignore_ascii_case(&vc, &chars_of("false"))
        },
        None => true,
    }
}

/// The history status of an execution: `executed` when it succeeded, else `failed`.
pub fn execution_status(success: bool) -> (r: &'static str)
    ensures
        r@ == if success {
            "executed"@
        } else {
            "failed"@
        },
{
    if success {
        "executed"
    } else {
        "failed"
    }
}

} // verus!
