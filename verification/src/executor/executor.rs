//! Structured execution of validated plans: a program and its arguments, never a shell.
use vstd::prelude::*;

use crate::security::validator::{
    control_description, dangerous_command, executable_name, first_control, has_no_control,
    is_accepted, is_prohibited, lemma_first_control_none, lemma_scan_clear, lemma_tokenize_trim,
    structural_verdict, tok_run, tok_step, tokenize, tokenize_command, TokState, ValidatedPlan,
};
use crate::text::{string_views, trim};

verus! {

/// The outcome of running a process.
#[derive(Debug, Clone, Copy, PartialEq, Eq)]
pub struct ExecutionResult {
    /// The exit status code, or `None` when the process was ended by a signal.
    pub exit_code: Option<i32>,
    /// Whether the process exited with code 0.
    pub success: bool,
}

impl ExecutionResult {
    /// The result of a process that ended with `exit_code`.
    pub fn new(exit_code: Option<i32>) -> (r: Self)
        ensures
            r.exit_code == exit_code,
            r.success == (exit_code == Some(0i32)),
    {
        let success = match exit_code {
            Some(c) => c == 0,
            None => false,
        };
        ExecutionResult { exit_code, success }
    }
}

/// The abstract content of an [`ExecutionError`].
pub enum ExecFailure {
    EmptyCommand,
    StructuredParseError(Seq<char>),
    CommandNotFound(Seq<char>),
    PermissionDenied(Seq<char>),
    ProcessFailed(Seq<char>),
}

/// Errors of command parsing or process execution.
#[derive(Debug, PartialEq, Eq)]
pub enum ExecutionError {
    /// The command held no program token.
    EmptyCommand,
    /// The command could not be split into program and arguments.
    StructuredParseError(String),
    /// The program was not found.
    CommandNotFound(String),
    /// Permission to run the program was denied.
    PermissionDenied(String),
    /// The process failed to start or run.
    ProcessFailed(String),
}

impl View for ExecutionError {
    type V = ExecFailure;

    open spec fn view(&self) -> ExecFailure {
        match self {
            ExecutionError::EmptyCommand => ExecFailure::EmptyCommand,
            ExecutionError::StructuredParseError(s) => ExecFailure::StructuredParseError(s@),
            ExecutionError::CommandNotFound(s) => ExecFailure::CommandNotFound(s@),
            ExecutionError::PermissionDenied(s) => ExecFailure::PermissionDenied(s@),
            ExecutionError::ProcessFailed(s) => ExecFailure::ProcessFailed(s@),
        }
    }
}

impl Clone for ExecutionError {
    fn clone(&self) -> (r: Self)
        ensures
            r == *self,
    {
        match self {
            ExecutionError::EmptyCommand => ExecutionError::EmptyCommand,
            ExecutionError::StructuredParseError(s) => ExecutionError::StructuredParseError(
                s.clone(),
            ),
            ExecutionError::CommandNotFound(s) => ExecutionError::CommandNotFound(s.clone()),
            ExecutionError::PermissionDenied(s) => ExecutionError::PermissionDenied(s.clone()),
            ExecutionError::ProcessFailed(s) => ExecutionError::ProcessFailed(s.clone()),
        }
    }
}

/// The human-readable description of an execution failure.
pub open spec fn failure_message(f: ExecFailure) -> Seq<char> {
    match f {
        ExecFailure::EmptyCommand => "Execution failed: empty command."@,
        ExecFailure::StructuredParseError(m) => "Structured command parsing failed: "@ + m,
        ExecFailure::CommandNotFound(p) => "Command not found: '"@ + p + "'"@,
        ExecFailure::PermissionDenied(p) => "Permission denied executing: '"@ + p + "'"@,
        ExecFailure::ProcessFailed(m) => "Process execution failed: "@ + m,
    }
}

impl ExecutionError {
    /// The human-readable description of this error.
    pub fn message(&self) -> (r: String)
        ensures
            r@ == failure_message(self@),
    {
        match self {
            ExecutionError::EmptyCommand => String::from_str("Execution failed: empty command."),
            ExecutionError::StructuredParseError(m) => {
                let mut s = String::from_str("Structured command parsing failed: ");
                s.append(m.as_str());
                s
            },
            ExecutionError::CommandNotFound(p) => {
                let mut s = String::from_str("Command not found: '");
                s.append(p.as_str());
                s.append("'");
                s
            },
            ExecutionError::PermissionDenied(p) => {
                let mut s = String::from_str("Permission denied executing: '");
                s.append(p.as_str());
                s.append("'");
                s
            },
            ExecutionError::ProcessFailed(m) => {
                let mut s = String::from_str("Process execution failed: ");
                s.append(m.as_str());
                s
            },
        }
    }
}

/// Why the operating system could not start a process.
#[derive(Debug, Clone, Copy, PartialEq, Eq, Structural)]
pub enum LaunchFailure {
    /// The program was not found.
    NotFound,
    /// Permission to run the program was denied.
    PermissionDenied,
    /// Any other failure.
    Other,
}

/// The execution error for a process that could not be started: not-found and
/// permission failures name the program, any other failure carries its description.
pub fn launch_error(kind: LaunchFailure, program: &str, detail: &str) -> (e: ExecutionError)
    ensures
        e@ == match kind {
            LaunchFailure::NotFound => ExecFailure::CommandNotFound(program@),
            LaunchFailure::PermissionDenied => ExecFailure::PermissionDenied(program@),
            LaunchFailure::Other => ExecFailure::ProcessFailed(detail@),
        },
{
    match kind {
        LaunchFailure::NotFound => ExecutionError::CommandNotFound(String::from_str(program)),
        LaunchFailure::PermissionDenied => ExecutionError::PermissionDenied(String::from_str(program)),
        LaunchFailure::Other => ExecutionError::ProcessFailed(String::from_str(detail)),
    }
}

/// Whether `program` and `args` are the words of a command that the policy accepts,
/// program first.
pub open spec fn is_validated_invocation(program: Seq<char>, args: Seq<Seq<char>>) -> bool {
    exists|cmd: Seq<char>| #[trigger] is_accepted(cmd) && tokenize(cmd) == Some(seq![program] + args)
}

/// No prohibited executable ever reaches a runner: neither the program nor any argument
/// of a validated invocation names one.
pub proof fn lemma_validated_invocation_not_prohibited(program: Seq<char>, args: Seq<Seq<char>>)
    requires
        is_validated_invocation(program, args),
    ensures
        !is_prohibited(executable_name(program)),
        forall|i: int| 0 <= i < args.len() ==> !is_prohibited(executable_name(#[trigger] args[i])),
{
    let cmd = choose|cmd: Seq<char>| #[trigger] is_accepted(cmd) && tokenize(cmd) == Some(seq![program] + args);
    lemma_tokenize_trim(cmd);
    let toks = seq![program] + args;
    assert(tokenize(trim(cmd)) == Some(toks));
    assert(structural_verdict(trim(cmd)) is None);
    assert(dangerous_command(toks) is None);
    lemma_scan_clear(toks, 0);
    assert(toks[0] == program);
    assert forall|i: int| 0 <= i < args.len() implies !is_prohibited(executable_name(#[trigger] args[i])) by {
        assert(toks[i + 1] == args[i]);
    }
}

/// Whether no word of a tokenizer state holds a control character.
spec fn state_clean(st: TokState) -> bool {
    &&& has_no_control(st.current)
    &&& forall|k: int| 0 <= k < st.tokens.len() ==> has_no_control(#[trigger] st.tokens[k])
}

proof fn lemma_tok_run_clean(s: Seq<char>)
    requires
        has_no_control(s),
    ensures
        state_clean(tok_run(s)),
    decreases s.len(),
{
    if s.len() > 0 {
        let p = s.drop_last();
        assert forall|i: int| 0 <= i < p.len() implies control_description(#[trigger] p[i]) is None by {
            assert(p[i] == s[i]);
        }
        lemma_tok_run_clean(p);
        let st = tok_run(p);
        let c = s.last();
        assert(control_description(c) is None);
        let nx = tok_step(st, c);
        assert forall|i: int| 0 <= i < nx.current.len() implies control_description(
            #[trigger] nx.current[i],
        ) is None by {
            if i < st.current.len() && nx.current.len() > 0 {
                assert(nx.current[i] == st.current[i]);
            }
        }
        assert forall|k: int| 0 <= k < nx.tokens.len() implies has_no_control(
            #[trigger] nx.tokens[k],
        ) by {
            if k < st.tokens.len() {
                assert(nx.tokens[k] == st.tokens[k]);
            } else {
                assert(nx.tokens[k] == st.current);
            }
        }
    }
}

/// No shell control character ever reaches a runner: neither the program nor any
/// argument of a validated invocation holds one.
pub proof fn lemma_validated_invocation_has_no_control(program: Seq<char>, args: Seq<Seq<char>>)
    requires
        is_validated_invocation(program, args),
    ensures
        has_no_control(program),
        forall|i: int| 0 <= i < args.len() ==> has_no_control(#[trigger] args[i]),
{
    let cmd = choose|cmd: Seq<char>| #[trigger] is_accepted(cmd) && tokenize(cmd) == Some(seq![program] + args);
    lemma_tokenize_trim(cmd);
    let t = trim(cmd);
    let toks = seq![program] + args;
    assert(structural_verdict(t) is None);
    assert(first_control(t) is None);
    lemma_first_control_none(t);
    lemma_tok_run_clean(t);
    let st = tok_run(t);
    assert(tokenize(t) == Some(toks));
    assert forall|k: int| 0 <= k < toks.len() implies has_no_control(#[trigger] toks[k]) by {
        if st.current.len() > 0 {
            assert(toks == st.tokens.push(st.current));
        } else {
            assert(toks == st.tokens);
        }
    }
    assert(toks[0] == program);
    assert forall|i: int| 0 <= i < args.len() implies has_no_control(#[trigger] args[i]) by {
        assert(toks[i + 1] == args[i]);
    }
}

/// Runs a program with arguments directly, without a shell.
pub trait CommandRunner: Send + Sync {
    /// Whether running `program` with `args` took this runner to `after` with `result`;
    /// a runner that does not say holds every outcome possible.
    open spec fn ran(
        &self,
        program: Seq<char>,
        args: Seq<Seq<char>>,
        after: &Self,
        result: Result<ExecutionResult, ExecutionError>,
    ) -> bool {
        true
    }

    /// Runs `program` with `args`.
    fn run(&mut self, program: &str, args: &[String]) -> (r: Result<ExecutionResult, ExecutionError>)
        ensures
            old(self).ran(program@, string_views(args@), final(self), r),
    ;
}

/// The abstract content of a [`MockCommandRunner`].
pub struct MockView {
    pub calls: Seq<(Seq<char>, Seq<Seq<char>>)>,
    pub mock_result: Option<Result<ExecutionResult, ExecutionError>>,
}

/// A runner that records each call instead of starting a process.
#[derive(Debug)]
pub struct MockCommandRunner {
    calls: Vec<(String, Vec<String>)>,
    mock_result: Option<Result<ExecutionResult, ExecutionError>>,
}

/// The views of recorded calls.
pub open spec fn call_views(v: Seq<(String, Vec<String>)>) -> Seq<(Seq<char>, Seq<Seq<char>>)> {
    v.map_values(|c: (String, Vec<String>)| (c.0@, string_views(c.1@)))
}

/// The result the mock reports: the configured one, or success with exit code 0.
pub open spec fn mock_outcome(configured: Option<Result<ExecutionResult, ExecutionError>>) -> Result<
    ExecutionResult,
    ExecutionError,
> {
    match configured {
        Some(r) => r,
        None => Ok(ExecutionResult { exit_code: Some(0i32), success: true }),
    }
}

impl View for MockCommandRunner {
    type V = MockView;

    closed spec fn view(&self) -> MockView {
        MockView { calls: call_views(self.calls@), mock_result: self.mock_result }
    }
}

fn clone_outcome(r: &Result<ExecutionResult, ExecutionError>) -> (c: Result<
    ExecutionResult,
    ExecutionError,
>)
    ensures
        c == *r,
{
    match r {
        Ok(v) => Ok(*v),
        Err(e) => Err(e.clone()),
    }
}

fn clone_strings(v: &[String]) -> (r: Vec<String>)
    ensures
        r@ == v@,
{
    let mut r: Vec<String> = Vec::new();
    let mut i: usize = 0;
    while i < v.len()
        invariant
            i <= v.len(),
            r@ =~= v@.subrange(0, i as int),
        decreases v.len() - i,
    {
        r.push(v[i].clone());
        i = i + 1;
    }
    assert(v@.subrange(0, v.len() as int) =~= v@);
    r
}

impl MockCommandRunner {
    /// A mock that records calls and reports success with exit code 0.
    pub fn new() -> (r: Self)
        ensures
            r@.calls == Seq::<(Seq<char>, Seq<Seq<char>>)>::empty(),
            r@.mock_result is None,
    {
        let r = MockCommandRunner { calls: Vec::new(), mock_result: None };
        assert(call_views(r.calls@) =~= Seq::<(Seq<char>, Seq<Seq<char>>)>::empty());
        r
    }

    /// A mock that records calls and reports `result` for each of them.
    pub fn with_result(result: Result<ExecutionResult, ExecutionError>) -> (r: Self)
        ensures
            r@.calls == Seq::<(Seq<char>, Seq<Seq<char>>)>::empty(),
            r@.mock_result == Some(result),
    {
        let r = MockCommandRunner { calls: Vec::new(), mock_result: Some(result) };
        assert(call_views(r.calls@) =~= Seq::<(Seq<char>, Seq<Seq<char>>)>::empty());
        r
    }

    /// A copy of all recorded calls: `(program, args)`, oldest first.
    pub fn get_calls(&self) -> (r: Vec<(String, Vec<String>)>)
        ensures
            call_views(r@) == self@.calls,
    {
        let mut r: Vec<(String, Vec<String>)> = Vec::new();
        let mut i: usize = 0;
        while i < self.calls.len()
            invariant
                i <= self.calls.len(),
                call_views(r@) =~= call_views(self.calls@).subrange(0, i as int),
            decreases self.calls.len() - i,
        {
            let (p, a) = &self.calls[i];
            let ghost old_r = r@;
            r.push((p.clone(), clone_strings(a.as_slice())));
            assert(call_views(r@) =~= call_views(old_r).push(call_views(self.calls@)[i as int]));
            i = i + 1;
        }
        assert(call_views(self.calls@).subrange(0, self.calls.len() as int) =~= call_views(
            self.calls@,
        ));
        r
    }

    /// The number of recorded calls.
    pub fn call_count(&self) -> (r: usize)
        ensures
            r == self@.calls.len(),
    {
        self.calls.len()
    }
}

impl Default for MockCommandRunner {
    fn default() -> (r: Self)
        ensures
            r@.calls == Seq::<(Seq<char>, Seq<Seq<char>>)>::empty(),
            r@.mock_result is None,
    {
        MockCommandRunner::new()
    }
}

impl CommandRunner for MockCommandRunner {
    open spec fn ran(
        &self,
        program: Seq<char>,
        args: Seq<Seq<char>>,
        after: &Self,
        result: Result<ExecutionResult, ExecutionError>,
    ) -> bool {
        &&& after@.calls == self@.calls.push((program, args))
        &&& after@.mock_result == self@.mock_result
        &&& result == mock_outcome(self@.mock_result)
    }

    fn run(&mut self, program: &str, args: &[String]) -> (r: Result<ExecutionResult, ExecutionError>) {
        let ghost before = self@;
        let ghost old_calls = self.calls@;
        self.calls.push((String::from_str(program), clone_strings(args)));
        assert(call_views(self.calls@) =~= call_views(old_calls).push((program@, string_views(args@))));
        match &self.mock_result {
            Some(res) => clone_outcome(res),
            None => Ok(ExecutionResult::new(Some(0))),
        }
    }
}

/// The program and arguments a command runs: its first word and the words after it.
pub open spec fn invocation_of(cmd: Seq<char>) -> Option<(Seq<char>, Seq<Seq<char>>)> {
    match tokenize(cmd) {
        Some(toks) => if toks.len() > 0 {
            Some((toks[0], toks.skip(1)))
        } else {
            None
        },
        None => None,
    }
}

/// Executes a validated plan with `runner`: the command is split into a program and its
/// arguments, which are handed to the runner as they are.
///
/// A validated command always splits into at least one word, so the runner is always
/// called, with the words of a command that the policy accepts, and its outcome is
/// returned.
pub fn execute_with_runner<R: CommandRunner>(plan: &ValidatedPlan, runner: &mut R) -> (r: Result<
    ExecutionResult,
    ExecutionError,
>)
    ensures
        invocation_of(plan@.command) matches Some(inv) && is_validated_invocation(inv.0, inv.1)
            && old(runner).ran(inv.0, inv.1, final(runner), r),
{
    let cmd = plan.command();
    proof {
        lemma_tokenize_trim(cmd@);
    }
    let tokens = match tokenize_command(cmd) {
        Ok(t) => t,
        Err(e) => {
            let mut m = String::from_str("Failed to parse command into tokens: ");
            m.append(e.message().as_str());
            return Err(ExecutionError::StructuredParseError(m));
        },
    };
    if tokens.len() == 0 {
        return Err(ExecutionError::EmptyCommand);
    }
    let ghost toks = string_views(tokens@);
    let program = &tokens[0];
    let args = tokens.as_slice().split_at(1).1;
    proof {
        assert(args@ =~= tokens@.skip(1));
        assert(string_views(args@) =~= toks.skip(1));
        assert(seq![toks[0]] + toks.skip(1) =~= toks);
        assert(is_accepted(cmd@) && tokenize(cmd@) == Some(seq![program@] + string_views(args@)));
    }
    runner.run(program.as_str(), args)
}

} // verus!
