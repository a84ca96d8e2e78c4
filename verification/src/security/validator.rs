//! The security boundary: the policy that every executable command must satisfy.
use vstd::prelude::*;

use crate::intent::tier1::{intent_for, join_words, normalized};
use crate::intent::{CommandPlan, CommandSource, PlanView};
use crate::text::{
    chars_contain, chars_end_with, decimal, usize_to_decimal, chars_eq, chars_have, chars_of, chars_start_with,
    contains_seq, copy_range, ends_with, has_char, is_whitespace, is_ws, lowercase, starts_with,
    string_from_chars, to_lowercase, trim, trim_chars, trim_end, trim_start, char_views, string_views, strings_of,
};

verus! {

/// Maximum length, in characters, of a command that can be accepted.
pub const MAX_COMMAND_LENGTH: usize = 1000;

/// The abstract content of a [`SecurityError`].
pub enum Rejection {
    EmptyCommand,
    CommandTooLong { length: nat, max: nat },
    DangerousCommand(Seq<char>),
    DangerousPath(Seq<char>),
    ShellControlConstruct(Seq<char>),
    UnsupportedCommandFormat(Seq<char>),
}

/// Errors produced when a command fails the security policy.
#[derive(Debug, Clone, PartialEq, Eq)]
pub enum SecurityError {
    /// The command is empty or composed solely of whitespace.
    EmptyCommand,
    /// The command exceeds the maximum allowed length.
    CommandTooLong { length: usize, max: usize },
    /// The command references an explicitly prohibited executable.
    DangerousCommand(String),
    /// The command targets a prohibited system root or critical directory.
    DangerousPath(String),
    /// The command contains shell chaining, piping, substitution, or redirection.
    ShellControlConstruct(String),
    /// The command format cannot be safely reasoned about.
    UnsupportedCommandFormat(String),
}

impl View for SecurityError {
    type V = Rejection;

    open spec fn view(&self) -> Rejection {
        match self {
            SecurityError::EmptyCommand => Rejection::EmptyCommand,
            SecurityError::CommandTooLong { length, max } => Rejection::CommandTooLong {
                length: *length as nat,
                max: *max as nat,
            },
            SecurityError::DangerousCommand(s) => Rejection::DangerousCommand(s@),
            SecurityError::DangerousPath(s) => Rejection::DangerousPath(s@),
            SecurityError::ShellControlConstruct(s) => Rejection::ShellControlConstruct(s@),
            SecurityError::UnsupportedCommandFormat(s) => Rejection::UnsupportedCommandFormat(s@),
        }
    }
}

/// The human-readable description of a rejection.
pub open spec fn rejection_message(r: Rejection) -> Seq<char> {
    match r {
        Rejection::EmptyCommand => "Empty or whitespace-only command rejected."@,
        Rejection::CommandTooLong { length, max } => "Command length ("@ + decimal(length)
            + " characters) exceeds maximum allowed limit of "@ + decimal(max) + " characters."@,
        Rejection::DangerousCommand(c) => "Dangerous command detected: '"@ + c
            + "' is prohibited by security policy."@,
        Rejection::DangerousPath(p) => "Dangerous filesystem target detected: '"@ + p
            + "' accesses restricted or critical system paths."@,
        Rejection::ShellControlConstruct(c) => "Shell control construct detected: '"@ + c
            + "' (chaining, redirection, and substitution are prohibited)."@,
        Rejection::UnsupportedCommandFormat(r) => "Unsupported command format: "@ + r + "."@,
    }
}

impl SecurityError {
    /// The human-readable description of this error.
    pub fn message(&self) -> (r: String)
        ensures
            r@ == rejection_message(self@),
    {
        match self {
            SecurityError::EmptyCommand => String::from_str(
                "Empty or whitespace-only command rejected.",
            ),
            SecurityError::CommandTooLong { length, max } => {
                let mut s = String::from_str("Command length (");
                s.append(usize_to_decimal(*length).as_str());
                s.append(" characters) exceeds maximum allowed limit of ");
                s.append(usize_to_decimal(*max).as_str());
                s.append(" characters.");
                s
            },
            SecurityError::DangerousCommand(c) => {
                let mut s = String::from_str("Dangerous command detected: '");
                s.append(c.as_str());
                s.append("' is prohibited by security policy.");
                s
            },
            SecurityError::DangerousPath(p) => {
                let mut s = String::from_str("Dangerous filesystem target detected: '");
                s.append(p.as_str());
                s.append("' accesses restricted or critical system paths.");
                s
            },
            SecurityError::ShellControlConstruct(c) => {
                let mut s = String::from_str("Shell control construct detected: '");
                s.append(c.as_str());
                s.append("' (chaining, redirection, and substitution are prohibited).");
                s
            },
            SecurityError::UnsupportedCommandFormat(r) => {
                let mut s = String::from_str("Unsupported command format: ");
                s.append(r.as_str());
                s.append(".");
                s
            },
        }
    }
}

// ---------------------------------------------------------------------------
// The policy, stated over character sequences
// ---------------------------------------------------------------------------

/// The description of a shell control character, or `None` for any other character.
pub open spec fn control_description(c: char) -> Option<Seq<char>> {
    if c == ';' {
        Some("semicolon ';'"@)
    } else if c == '&' {
        Some("operator '&'"@)
    } else if c == '|' {
        Some("pipe operator '|'"@)
    } else if c == '$' {
        Some("substitution or variable expansion '$'"@)
    } else if c == '`' {
        Some("backtick substitution '`'"@)
    } else if c == '>' {
        Some("redirection operator '>'"@)
    } else if c == '<' {
        Some("redirection operator '<'"@)
    } else {
        None
    }
}

/// The description of the first shell control character of `s`, if it has one.
pub open spec fn first_control(s: Seq<char>) -> Option<Seq<char>>
    decreases s.len(),
{
    if s.len() == 0 {
        None
    } else {
        match control_description(s[0]) {
            Some(d) => Some(d),
            None => first_control(s.drop_first()),
        }
    }
}

/// Whether `s` walks up the directory tree with `..`.
pub open spec fn has_traversal(s: Seq<char>) -> bool {
    ||| contains_seq(s, "../"@)
    ||| contains_seq(s, "..\\"@)
    ||| ends_with(s, "/.."@)
    ||| ends_with(s, "\\.."@)
}

/// The state of the quote-aware tokenizer after a prefix of its input.
pub struct TokState {
    pub tokens: Seq<Seq<char>>,
    pub current: Seq<char>,
    pub in_single: bool,
    pub in_double: bool,
}

/// The tokenizer's state before any input.
pub open spec fn tok_init() -> TokState {
    TokState { tokens: Seq::empty(), current: Seq::empty(), in_single: false, in_double: false }
}

/// One step of the tokenizer: quotes toggle quoting, unquoted whitespace ends a word,
/// any other character joins the current word.
pub open spec fn tok_step(st: TokState, c: char) -> TokState {
    if c == '\'' && !st.in_double {
        TokState { tokens: st.tokens, current: st.current, in_single: !st.in_single, in_double: st.in_double }
    } else if c == '"' && !st.in_single {
        TokState { tokens: st.tokens, current: st.current, in_single: st.in_single, in_double: !st.in_double }
    } else if is_ws(c) && !st.in_single && !st.in_double {
        if st.current.len() > 0 {
            TokState { tokens: st.tokens.push(st.current), current: Seq::empty(), in_single: false, in_double: false }
        } else {
            st
        }
    } else {
        TokState { tokens: st.tokens, current: st.current.push(c), in_single: st.in_single, in_double: st.in_double }
    }
}

/// The tokenizer's state after reading all of `s`.
pub open spec fn tok_run(s: Seq<char>) -> TokState
    decreases s.len(),
{
    if s.len() == 0 {
        tok_init()
    } else {
        tok_step(tok_run(s.drop_last()), s.last())
    }
}

/// The words of `s`, honoring single and double quotes; `None` when a quote is left open.
pub open spec fn tokenize(s: Seq<char>) -> Option<Seq<Seq<char>>> {
    let st = tok_run(s);
    if st.in_single || st.in_double {
        None
    } else if st.current.len() > 0 {
        Some(st.tokens.push(st.current))
    } else {
        Some(st.tokens)
    }
}

/// The tokenizer's state after reading `q` from state `st`.
pub open spec fn tok_fold(st: TokState, q: Seq<char>) -> TokState
    decreases q.len(),
{
    if q.len() == 0 {
        st
    } else {
        tok_step(tok_fold(st, q.drop_last()), q.last())
    }
}

/// The words the tokenizer yields from a final state.
pub open spec fn tok_finish(st: TokState) -> Option<Seq<Seq<char>>> {
    if st.in_single || st.in_double {
        None
    } else if st.current.len() > 0 {
        Some(st.tokens.push(st.current))
    } else {
        Some(st.tokens)
    }
}

proof fn lemma_tok_run_fold(s: Seq<char>)
    ensures
        tok_run(s) == tok_fold(tok_init(), s),
    decreases s.len(),
{
    if s.len() > 0 {
        lemma_tok_run_fold(s.drop_last());
    }
}

proof fn lemma_tok_fold_append(st: TokState, p: Seq<char>, q: Seq<char>)
    ensures
        tok_fold(st, p + q) == tok_fold(tok_fold(st, p), q),
    decreases q.len(),
{
    if q.len() == 0 {
        assert(p + q =~= p);
    } else {
        assert((p + q).drop_last() =~= p + q.drop_last());
        assert((p + q).last() == q.last());
        lemma_tok_fold_append(st, p, q.drop_last());
    }
}

/// Whether every character of `w` is whitespace.
pub open spec fn all_ws(w: Seq<char>) -> bool {
    forall|i: int| 0 <= i < w.len() ==> is_ws(#[trigger] w[i])
}

proof fn lemma_tok_fold_ws_from_init(w: Seq<char>)
    requires
        all_ws(w),
    ensures
        tok_fold(tok_init(), w) == tok_init(),
    decreases w.len(),
{
    if w.len() > 0 {
        assert(is_ws(w[w.len() - 1]));
        lemma_tok_fold_ws_from_init(w.drop_last());
    }
}

proof fn lemma_tok_fold_ws_finish(st: TokState, w: Seq<char>)
    requires
        all_ws(w),
    ensures
        tok_finish(tok_fold(st, w)) == tok_finish(st),
    decreases w.len(),
{
    if w.len() > 0 {
        assert(is_ws(w[w.len() - 1]));
        lemma_tok_fold_ws_finish(st, w.drop_last());
        let mid = tok_fold(st, w.drop_last());
        if !mid.in_single && !mid.in_double && mid.current.len() > 0 {
            assert(tok_step(mid, w.last()).tokens =~= mid.tokens.push(mid.current));
        }
    }
}

proof fn lemma_trim_start_split(s: Seq<char>)
    ensures
        exists|k: int| 0 <= k <= s.len() && all_ws(s.subrange(0, k)) && #[trigger] s.subrange(k, s.len() as int) == trim_start(s),
    decreases s.len(),
{
    if s.len() > 0 && is_ws(s[0]) {
        lemma_trim_start_split(s.drop_first());
        let t = s.drop_first();
        let k = choose|k: int| 0 <= k <= t.len() && all_ws(t.subrange(0, k)) && #[trigger] t.subrange(k, t.len() as int) == trim_start(t);
        assert(s.subrange(k + 1, s.len() as int) =~= t.subrange(k, t.len() as int));
        assert forall|i: int| 0 <= i < k + 1 implies is_ws(#[trigger] s.subrange(0, k + 1)[i]) by {
            if i > 0 {
                assert(s.subrange(0, k + 1)[i] == t.subrange(0, k)[i - 1]);
            }
        }
    } else {
        assert(s.subrange(0, s.len() as int) =~= s);
        assert(all_ws(s.subrange(0, 0)));
    }
}

proof fn lemma_trim_end_split(s: Seq<char>)
    ensures
        exists|k: int| 0 <= k <= s.len() && all_ws(s.subrange(k, s.len() as int)) && #[trigger] s.subrange(0, k) == trim_end(s),
    decreases s.len(),
{
    if s.len() > 0 && is_ws(s.last()) {
        lemma_trim_end_split(s.drop_last());
        let t = s.drop_last();
        let k = choose|k: int| 0 <= k <= t.len() && all_ws(t.subrange(k, t.len() as int)) && #[trigger] t.subrange(0, k) == trim_end(t);
        assert(s.subrange(0, k) =~= t.subrange(0, k));
        assert forall|i: int| 0 <= i < s.len() - k implies is_ws(#[trigger] s.subrange(k, s.len() as int)[i]) by {
            if k + i < t.len() {
                assert(s.subrange(k, s.len() as int)[i] == t.subrange(k, t.len() as int)[i]);
            }
        }
    } else {
        assert(s.subrange(0, s.len() as int) =~= s);
        assert(all_ws(s.subrange(s.len() as int, s.len() as int)));
    }
}

/// Tokenizing a command gives the same words as tokenizing it trimmed.
pub proof fn lemma_tokenize_trim(s: Seq<char>)
    ensures
        tokenize(s) == tokenize(trim(s)),
{
    lemma_trim_start_split(s);
    let k1 = choose|k: int| 0 <= k <= s.len() && all_ws(s.subrange(0, k)) && #[trigger] s.subrange(k, s.len() as int) == trim_start(s);
    let ts = trim_start(s);
    lemma_trim_end_split(ts);
    let k2 = choose|k: int| 0 <= k <= ts.len() && all_ws(ts.subrange(k, ts.len() as int)) && #[trigger] ts.subrange(0, k) == trim_end(ts);
    let w1 = s.subrange(0, k1);
    let core = ts.subrange(0, k2);
    let w2 = ts.subrange(k2, ts.len() as int);
    assert(s =~= w1 + (core + w2));
    lemma_tok_run_fold(s);
    lemma_tok_run_fold(core);
    lemma_tok_fold_append(tok_init(), w1, core + w2);
    lemma_tok_fold_ws_from_init(w1);
    lemma_tok_fold_append(tok_init(), core, w2);
    lemma_tok_fold_ws_finish(tok_fold(tok_init(), core), w2);
}

/// Whether `c` separates path segments.
pub open spec fn is_sep(c: char) -> bool {
    c == '/' || c == '\\'
}

/// The part of `s` after its last path separator.
pub open spec fn last_segment(s: Seq<char>) -> Seq<char>
    decreases s.len(),
{
    if s.len() == 0 {
        s
    } else if is_sep(s.last()) {
        Seq::empty()
    } else {
        last_segment(s.drop_last()).push(s.last())
    }
}

/// `s` without a final `.exe` or `.EXE`.
pub open spec fn strip_exe_suffix(s: Seq<char>) -> Seq<char> {
    if ends_with(s, ".exe"@) || ends_with(s, ".EXE"@) {
        s.subrange(0, s.len() - 4)
    } else {
        s
    }
}

/// The bare, lower-cased program name a token names (`/usr/bin/RM.exe` names `rm`).
pub open spec fn executable_name(token: Seq<char>) -> Seq<char> {
    lowercase(strip_exe_suffix(last_segment(trim(token))))
}

/// Whether the lower-cased name `lower` is the prohibited command `cmd` or a variant `cmd.*`.
pub open spec fn names_command(lower: Seq<char>, cmd: Seq<char>) -> bool {
    lower == cmd || starts_with(lower, cmd.push('.'))
}

/// Whether `name` is one of the prohibited executables.
pub open spec fn is_prohibited(name: Seq<char>) -> bool {
    let l = lowercase(name);
    ||| names_command(l, "rm"@)
    ||| names_command(l, "sudo"@)
    ||| names_command(l, "mkfs"@)
    ||| names_command(l, "dd"@)
    ||| names_command(l, "shutdown"@)
    ||| names_command(l, "reboot"@)
    ||| names_command(l, "poweroff"@)
    ||| names_command(l, "halt"@)
    ||| names_command(l, "fdisk"@)
    ||| names_command(l, "diskutil"@)
}

/// The index of the first token from `i` on that holds no `=`, or the number of tokens.
pub open spec fn first_without_eq(toks: Seq<Seq<char>>, i: int) -> int
    decreases toks.len() - i,
{
    if i < 0 || i >= toks.len() {
        toks.len() as int
    } else if !has_char(toks[i], '=') {
        i
    } else {
        first_without_eq(toks, i + 1)
    }
}

/// The program token: the first token that is not a `VAR=value` assignment, else the first.
pub open spec fn primary_token(toks: Seq<Seq<char>>) -> Seq<char> {
    let k = first_without_eq(toks, 0);
    if k < toks.len() {
        toks[k]
    } else {
        toks[0]
    }
}

/// Whether a token runs the token after it as a program.
pub open spec fn introduces_subcommand(t: Seq<char>) -> bool {
    t == "-exec"@ || t == "-execdir"@ || t == "xargs"@
}

/// The first prohibited program among tokens `i..`, looking also behind `-exec`,
/// `-execdir` and `xargs`.
pub open spec fn dangerous_scan(toks: Seq<Seq<char>>, i: int) -> Option<Seq<char>>
    decreases toks.len() - i,
{
    if i < 0 || i >= toks.len() {
        None
    } else if is_prohibited(executable_name(toks[i])) {
        Some(executable_name(toks[i]))
    } else if introduces_subcommand(toks[i]) && i + 1 < toks.len() && is_prohibited(
        executable_name(toks[i + 1]),
    ) {
        Some(executable_name(toks[i + 1]))
    } else {
        dangerous_scan(toks, i + 1)
    }
}

/// The prohibited program the tokens invoke, if any: the primary program first.
pub open spec fn dangerous_command(toks: Seq<Seq<char>>) -> Option<Seq<char>> {
    let p = executable_name(primary_token(toks));
    if is_prohibited(p) {
        Some(p)
    } else {
        dangerous_scan(toks, 0)
    }
}

/// `s` with every backslash turned into a slash.
pub open spec fn backslash_to_slash(s: Seq<char>) -> Seq<char> {
    s.map_values(|c: char| if c == '\\' { '/' } else { c })
}

/// Whether `lower` is `prefix` or lies under it.
pub open spec fn under_prefix(lower: Seq<char>, prefix: Seq<char>) -> bool {
    lower == prefix || starts_with(lower, prefix.push('/'))
}

/// Whether `lower` is a critical system directory or lies under one.
pub open spec fn is_system_path(lower: Seq<char>) -> bool {
    ||| under_prefix(lower, "/etc"@)
    ||| under_prefix(lower, "/system"@)
    ||| under_prefix(lower, "/library"@)
    ||| under_prefix(lower, "/bin"@)
    ||| under_prefix(lower, "/sbin"@)
    ||| under_prefix(lower, "/usr"@)
    ||| under_prefix(lower, "/var"@)
    ||| under_prefix(lower, "/dev"@)
}

/// Why a single token is a dangerous filesystem target, if it is one.
pub open spec fn target_rejection(token: Seq<char>) -> Option<Rejection> {
    let lower = lowercase(backslash_to_slash(trim(token)));
    if lower == "/"@ || lower == "//"@ || starts_with(lower, "/*"@) {
        Some(Rejection::DangerousPath("/ (root filesystem)"@))
    } else if lower == ".."@ {
        Some(Rejection::DangerousPath(".. (directory traversal)"@))
    } else if is_system_path(lower) {
        Some(Rejection::DangerousPath(token))
    } else {
        None
    }
}

/// The first dangerous target among tokens `i..`.
pub open spec fn target_scan(toks: Seq<Seq<char>>, i: int) -> Option<Rejection>
    decreases toks.len() - i,
{
    if i < 0 || i >= toks.len() {
        None
    } else {
        match target_rejection(toks[i]) {
            Some(r) => Some(r),
            None => target_scan(toks, i + 1),
        }
    }
}

/// The policy's verdict on the trimmed command `t`: checks that follow the length and
/// emptiness checks.
pub open spec fn structural_verdict(t: Seq<char>) -> Option<Rejection> {
    match first_control(t) {
        Some(d) => Some(Rejection::ShellControlConstruct(d)),
        None => if has_traversal(t) {
            Some(Rejection::DangerousPath(".. (directory traversal)"@))
        } else {
            match tokenize(t) {
                None => Some(Rejection::UnsupportedCommandFormat("unmatched quote in command"@)),
                Some(toks) => if toks.len() == 0 {
                    Some(Rejection::EmptyCommand)
                } else {
                    match dangerous_command(toks) {
                        Some(n) => Some(Rejection::DangerousCommand(n)),
                        None => target_scan(toks, 0),
                    }
                },
            }
        },
    }
}

/// The security policy's verdict on a command: `None` when it is accepted, otherwise the
/// first rule it breaks.
pub open spec fn policy_verdict(cmd: Seq<char>) -> Option<Rejection> {
    if cmd.len() > MAX_COMMAND_LENGTH {
        Some(Rejection::CommandTooLong { length: cmd.len(), max: MAX_COMMAND_LENGTH as nat })
    } else if trim(cmd).len() == 0 {
        Some(Rejection::EmptyCommand)
    } else {
        structural_verdict(trim(cmd))
    }
}

/// Whether the policy accepts `cmd`.
pub open spec fn is_accepted(cmd: Seq<char>) -> bool {
    policy_verdict(cmd) is None
}


// ---------------------------------------------------------------------------
// Validated plans
// ---------------------------------------------------------------------------

/// A command plan that the security policy has accepted.
///
/// Its only constructor is [`validate`], and its type invariant is that the policy
/// accepts its command, so every function that takes a `ValidatedPlan` receives a
/// command that passed validation.
#[derive(Debug, PartialEq, Eq)]
pub struct ValidatedPlan {
    inner: CommandPlan,
}

impl Clone for ValidatedPlan {
    fn clone(&self) -> (r: Self)
        ensures
            r@ == self@,
    {
        proof {
            use_type_invariant(self);
        }
        ValidatedPlan { inner: self.inner.clone() }
    }
}

impl View for ValidatedPlan {
    type V = PlanView;

    closed spec fn view(&self) -> PlanView {
        self.inner@
    }
}

impl ValidatedPlan {
    #[verifier::type_invariant]
    spec fn accepted(self) -> bool {
        is_accepted(self.inner.command@)
    }

    /// Wraps a plan whose command the policy accepts.
    fn new_validated(inner: CommandPlan) -> (r: Self)
        requires
            is_accepted(inner.command@),
        ensures
            r@ == inner@,
    {
        ValidatedPlan { inner }
    }

    /// The validated command; the policy accepts it.
    pub fn command(&self) -> (r: &str)
        ensures
            r@ == self@.command,
            is_accepted(r@),
    {
        proof {
            use_type_invariant(self);
        }
        self.inner.command.as_str()
    }

    /// The human-readable explanation.
    pub fn explanation(&self) -> (r: &str)
        ensures
            r@ == self@.explanation,
    {
        self.inner.explanation.as_str()
    }

    /// The engine that produced the command.
    pub fn source(&self) -> (r: &CommandSource)
        ensures
            *r == self@.source,
    {
        &self.inner.source
    }

    /// The underlying plan; the policy accepts its command.
    pub fn as_plan(&self) -> (r: &CommandPlan)
        ensures
            r@ == self@,
            is_accepted(r.command@),
    {
        proof {
            use_type_invariant(self);
        }
        &self.inner
    }

    /// Gives back the underlying plan; the policy accepts its command.
    pub fn into_inner(self) -> (r: CommandPlan)
        ensures
            r@ == self@,
            is_accepted(r.command@),
    {
        proof {
            use_type_invariant(&self);
        }
        self.inner
    }
}

// ---------------------------------------------------------------------------
// Checks
// ---------------------------------------------------------------------------

fn control_char_description(c: char) -> (r: Option<String>)
    ensures
        r is Some <==> control_description(c) is Some,
        r matches Some(d) ==> control_description(c) == Some(d@),
{
    if c == ';' {
        Some(String::from_str("semicolon ';'"))
    } else if c == '&' {
        Some(String::from_str("operator '&'"))
    } else if c == '|' {
        Some(String::from_str("pipe operator '|'"))
    } else if c == '$' {
        Some(String::from_str("substitution or variable expansion '$'"))
    } else if c == '`' {
        Some(String::from_str("backtick substitution '`'"))
    } else if c == '>' {
        Some(String::from_str("redirection operator '>'"))
    } else if c == '<' {
        Some(String::from_str("redirection operator '<'"))
    } else {
        None
    }
}

/// Rejects chaining, piping, background execution, substitution and redirection.
fn check_shell_control_constructs(cmd: &Vec<char>) -> (r: Result<(), SecurityError>)
    ensures
        r is Ok <==> first_control(cmd@) is None,
        r matches Err(e) ==> first_control(cmd@) matches Some(d) && e@
            == Rejection::ShellControlConstruct(d),
{
    let n = cmd.len();
    let mut i: usize = 0;
    assert(cmd@.subrange(0, n as int) =~= cmd@);
    while i < n
        invariant
            i <= n == cmd.len(),
            first_control(cmd@) == first_control(cmd@.subrange(i as int, n as int)),
        decreases n - i,
    {
        let ghost rest = cmd@.subrange(i as int, n as int);
        assert(rest[0] == cmd@[i as int]);
        assert(rest.drop_first() =~= cmd@.subrange(i + 1, n as int));
        match control_char_description(cmd[i]) {
            Some(d) => {
                return Err(SecurityError::ShellControlConstruct(d));
            },
            None => {},
        }
        i = i + 1;
    }
    Ok(())
}

/// Rejects relative traversal with `..`.
fn check_path_traversal(cmd: &Vec<char>) -> (r: Result<(), SecurityError>)
    ensures
        r is Ok <==> !has_traversal(cmd@),
        r matches Err(e) ==> e@ == Rejection::DangerousPath(".. (directory traversal)"@),
{
    if chars_contain(cmd, &chars_of("../")) || chars_contain(cmd, &chars_of("..\\"))
        || chars_end_with(cmd, &chars_of("/..")) || chars_end_with(cmd, &chars_of("\\.."))
    {
        return Err(SecurityError::DangerousPath(String::from_str(".. (directory traversal)")));
    }
    Ok(())
}

/// Splits `s` into words, honoring quotes; `None` when a quote is left open.
fn tokenize_chars(s: &Vec<char>) -> (r: Option<Vec<Vec<char>>>)
    ensures
        match r {
            Some(v) => tokenize(s@) == Some(char_views(v@)),
            None => tokenize(s@) is None,
        },
{
    let mut tokens: Vec<Vec<char>> = Vec::new();
    let mut current: Vec<char> = Vec::new();
    let mut in_single = false;
    let mut in_double = false;
    let n = s.len();
    let mut i: usize = 0;
    assert(char_views(tokens@) =~= Seq::<Seq<char>>::empty());
    assert(s@.subrange(0, 0) =~= Seq::<char>::empty());
    while i < n
        invariant
            i <= n == s.len(),
            tok_run(s@.subrange(0, i as int)) == (TokState {
                tokens: char_views(tokens@),
                current: current@,
                in_single,
                in_double,
            }),
        decreases n - i,
    {
        let c = s[i];
        let ghost pre = s@.subrange(0, i + 1);
        assert(pre.drop_last() =~= s@.subrange(0, i as int));
        assert(pre.last() == c);
        if c == '\'' && !in_double {
            in_single = !in_single;
        } else if c == '"' && !in_single {
            in_double = !in_double;
        } else if is_whitespace(c) && !in_single && !in_double {
            if current.len() > 0 {
                let ghost old_tokens = tokens@;
                tokens.push(current);
                current = Vec::new();
                assert(char_views(tokens@) =~= char_views(old_tokens).push(
                    char_views(tokens@).last(),
                ));
            }
        } else {
            current.push(c);
        }
        i = i + 1;
    }
    assert(s@.subrange(0, n as int) =~= s@);
    if in_single || in_double {
        return None;
    }
    if current.len() > 0 {
        let ghost old_tokens = tokens@;
        tokens.push(current);
        assert(char_views(tokens@) =~= char_views(old_tokens).push(char_views(tokens@).last()));
    }
    Some(tokens)
}

/// Splits a command into words while honoring single and double quotes.
///
/// Fails with `UnsupportedCommandFormat` exactly when a quote is left open.
pub fn tokenize_command(cmd: &str) -> (r: Result<Vec<String>, SecurityError>)
    ensures
        match r {
            Ok(v) => tokenize(cmd@) == Some(string_views(v@)),
            Err(e) => tokenize(cmd@) is None && e@ == Rejection::UnsupportedCommandFormat(
                "unmatched quote in command"@,
            ),
        },
{
    let chars = chars_of(cmd);
    match tokenize_chars(&chars) {
        Some(v) => Ok(strings_of(v)),
        None => Err(
            SecurityError::UnsupportedCommandFormat(String::from_str("unmatched quote in command")),
        ),
    }
}

proof fn lemma_last_segment_step(s: Seq<char>, j: int)
    requires
        0 < j <= s.len(),
        !is_sep(s[j - 1]),
    ensures
        last_segment(s.subrange(0, j)) + s.subrange(j, s.len() as int) == last_segment(
            s.subrange(0, j - 1),
        ) + s.subrange(j - 1, s.len() as int),
{
    let p = s.subrange(0, j);
    assert(p.drop_last() =~= s.subrange(0, j - 1));
    assert(last_segment(p) == last_segment(s.subrange(0, j - 1)).push(s[j - 1]));
    assert(last_segment(s.subrange(0, j - 1)).push(s[j - 1]) + s.subrange(j, s.len() as int)
        =~= last_segment(s.subrange(0, j - 1)) + s.subrange(j - 1, s.len() as int));
}

fn last_segment_chars(v: &Vec<char>) -> (r: Vec<char>)
    ensures
        r@ == last_segment(v@),
{
    let n = v.len();
    let mut j: usize = n;
    assert(v@.subrange(0, n as int) =~= v@);
    assert(v@.subrange(n as int, n as int) =~= Seq::<char>::empty());
    assert(last_segment(v@) + Seq::<char>::empty() =~= last_segment(v@));
    while j > 0 && !(v[j - 1] == '/' || v[j - 1] == '\\')
        invariant
            j <= n == v.len(),
            last_segment(v@) == last_segment(v@.subrange(0, j as int)) + v@.subrange(
                j as int,
                n as int,
            ),
        decreases j,
    {
        proof {
            lemma_last_segment_step(v@, j as int);
        }
        j = j - 1;
    }
    if j > 0 {
        let ghost p = v@.subrange(0, j as int);
        assert(p.last() == v@[j - 1]);
        assert(last_segment(p) =~= Seq::<char>::empty());
    } else {
        assert(v@.subrange(0, 0) =~= Seq::<char>::empty());
    }
    assert(last_segment(v@) =~= v@.subrange(j as int, n as int));
    copy_range(v, j, n)
}

fn strip_exe_suffix_chars(v: Vec<char>) -> (r: Vec<char>)
    ensures
        r@ == strip_exe_suffix(v@),
{
    if chars_end_with(&v, &chars_of(".exe")) || chars_end_with(&v, &chars_of(".EXE")) {
        proof {
            reveal_strlit(".exe");
            reveal_strlit(".EXE");
        }
        let n = v.len();
        copy_range(&v, 0, n - 4)
    } else {
        v
    }
}

fn lowercase_chars(v: &Vec<char>) -> (r: Vec<char>)
    ensures
        r@ == lowercase(v@),
{
    let s = string_from_chars(v);
    let l = to_lowercase(s.as_str());
    chars_of(l.as_str())
}

/// Extracts the bare lower-cased program name from a token (`/usr/bin/RM.exe` gives `rm`).
fn extract_executable_name(token: &Vec<char>) -> (r: Vec<char>)
    ensures
        r@ == executable_name(token@),
{
    let clean = trim_chars(token);
    let seg = last_segment_chars(&clean);
    let base = strip_exe_suffix_chars(seg);
    lowercase_chars(&base)
}

fn names_command_exec(lower: &Vec<char>, cmd: &str) -> (r: bool)
    ensures
        r == names_command(lower@, cmd@),
{
    let mut c = chars_of(cmd);
    if chars_eq(lower, &c) {
        return true;
    }
    c.push('.');
    chars_start_with(lower, &c)
}

/// Whether `name` is a prohibited executable or one of its `name.*` variants.
fn is_prohibited_command(name: &Vec<char>) -> (r: bool)
    ensures
        r == is_prohibited(name@),
{
    let l = lowercase_chars(name);
    names_command_exec(&l, "rm") || names_command_exec(&l, "sudo") || names_command_exec(
        &l,
        "mkfs",
    ) || names_command_exec(&l, "dd") || names_command_exec(&l, "shutdown")
        || names_command_exec(&l, "reboot") || names_command_exec(&l, "poweroff")
        || names_command_exec(&l, "halt") || names_command_exec(&l, "fdisk")
        || names_command_exec(&l, "diskutil")
}

fn is_subcommand_intro(t: &Vec<char>) -> (r: bool)
    ensures
        r == introduces_subcommand(t@),
{
    chars_eq(t, &chars_of("-exec")) || chars_eq(t, &chars_of("-execdir")) || chars_eq(
        t,
        &chars_of("xargs"),
    )
}

fn primary_index(toks: &Vec<Vec<char>>) -> (k: usize)
    requires
        toks.len() > 0,
    ensures
        k < toks.len(),
        toks@[k as int]@ == primary_token(char_views(toks@)),
{
    let ghost tv = char_views(toks@);
    let mut i: usize = 0;
    while i < toks.len()
        invariant
            i <= toks.len(),
            tv == char_views(toks@),
            first_without_eq(tv, 0) == first_without_eq(tv, i as int),
        decreases toks.len() - i,
    {
        if !chars_have(&toks[i], '=') {
            return i;
        }
        i = i + 1;
    }
    0
}

/// Rejects prohibited executables: the program itself, any token that names one, and any
/// program run through `-exec`, `-execdir` or `xargs`.
fn check_dangerous_commands(toks: &Vec<Vec<char>>) -> (r: Result<(), SecurityError>)
    requires
        toks.len() > 0,
    ensures
        r is Ok <==> dangerous_command(char_views(toks@)) is None,
        r matches Err(e) ==> dangerous_command(char_views(toks@)) matches Some(n) && e@
            == Rejection::DangerousCommand(n),
{
    let ghost tv = char_views(toks@);
    let k = primary_index(toks);
    let primary = extract_executable_name(&toks[k]);
    if is_prohibited_command(&primary) {
        return Err(SecurityError::DangerousCommand(string_from_chars(&primary)));
    }
    let n = toks.len();
    let mut i: usize = 0;
    while i < n
        invariant
            i <= n == toks.len(),
            tv == char_views(toks@),
            dangerous_scan(tv, 0) == dangerous_scan(tv, i as int),
            dangerous_command(tv) == dangerous_scan(tv, 0),
        decreases n - i,
    {
        assert(tv[i as int] == toks@[i as int]@);
        if i + 1 < n {
            assert(tv[i + 1] == toks@[i + 1]@);
        }
        let exe = extract_executable_name(&toks[i]);
        if is_prohibited_command(&exe) {
            return Err(SecurityError::DangerousCommand(string_from_chars(&exe)));
        }
        if is_subcommand_intro(&toks[i]) && i + 1 < n {
            let sub = extract_executable_name(&toks[i + 1]);
            if is_prohibited_command(&sub) {
                return Err(SecurityError::DangerousCommand(string_from_chars(&sub)));
            }
        }
        i = i + 1;
    }
    Ok(())
}

fn backslash_to_slash_chars(v: &Vec<char>) -> (r: Vec<char>)
    ensures
        r@ == backslash_to_slash(v@),
{
    let mut r: Vec<char> = Vec::new();
    let mut i: usize = 0;
    while i < v.len()
        invariant
            i <= v.len(),
            r@ =~= backslash_to_slash(v@.subrange(0, i as int)),
        decreases v.len() - i,
    {
        if v[i] == '\\' {
            r.push('/');
        } else {
            r.push(v[i]);
        }
        i = i + 1;
    }
    assert(v@.subrange(0, v.len() as int) =~= v@);
    r
}

fn under_prefix_exec(lower: &Vec<char>, prefix: &str) -> (r: bool)
    ensures
        r == under_prefix(lower@, prefix@),
{
    let mut p = chars_of(prefix);
    if chars_eq(lower, &p) {
        return true;
    }
    p.push('/');
    chars_start_with(lower, &p)
}

fn is_system_path_exec(lower: &Vec<char>) -> (r: bool)
    ensures
        r == is_system_path(lower@),
{
    under_prefix_exec(lower, "/etc") || under_prefix_exec(lower, "/system") || under_prefix_exec(
        lower,
        "/library",
    ) || under_prefix_exec(lower, "/bin") || under_prefix_exec(lower, "/sbin")
        || under_prefix_exec(lower, "/usr") || under_prefix_exec(lower, "/var")
        || under_prefix_exec(lower, "/dev")
}

fn check_target(token: &Vec<char>) -> (r: Result<(), SecurityError>)
    ensures
        r is Ok <==> target_rejection(token@) is None,
        r matches Err(e) ==> target_rejection(token@) == Some(e@),
{
    let clean = backslash_to_slash_chars(&trim_chars(token));
    let lower = lowercase_chars(&clean);
    if chars_eq(&lower, &chars_of("/")) || chars_eq(&lower, &chars_of("//")) || chars_start_with(
        &lower,
        &chars_of("/*"),
    ) {
        return Err(SecurityError::DangerousPath(String::from_str("/ (root filesystem)")));
    }
    if chars_eq(&lower, &chars_of("..")) {
        return Err(SecurityError::DangerousPath(String::from_str(".. (directory traversal)")));
    }
    if is_system_path_exec(&lower) {
        return Err(SecurityError::DangerousPath(string_from_chars(token)));
    }
    Ok(())
}

/// Rejects tokens that target the filesystem root, `..`, or critical system directories.
fn check_dangerous_targets(toks: &Vec<Vec<char>>) -> (r: Result<(), SecurityError>)
    ensures
        r is Ok <==> target_scan(char_views(toks@), 0) is None,
        r matches Err(e) ==> target_scan(char_views(toks@), 0) == Some(e@),
{
    let ghost tv = char_views(toks@);
    let n = toks.len();
    let mut i: usize = 0;
    while i < n
        invariant
            i <= n == toks.len(),
            tv == char_views(toks@),
            target_scan(tv, 0) == target_scan(tv, i as int),
        decreases n - i,
    {
        check_target(&toks[i])?;
        i = i + 1;
    }
    Ok(())
}

/// Checks an untrusted plan against the security policy.
///
/// Returns the plan, unchanged, as a `ValidatedPlan` exactly when the policy accepts
/// its command, and otherwise the first rule that the command breaks.
pub fn validate(plan: CommandPlan) -> (r: Result<ValidatedPlan, SecurityError>)
    ensures
        match r {
            Ok(v) => is_accepted(plan.command@) && v@ == plan@,
            Err(e) => policy_verdict(plan.command@) == Some(e@),
        },
{
    let chars = chars_of(plan.command.as_str());
    let len = chars.len();
    if len > MAX_COMMAND_LENGTH {
        return Err(SecurityError::CommandTooLong { length: len, max: MAX_COMMAND_LENGTH });
    }
    let trimmed = trim_chars(&chars);
    if trimmed.len() == 0 {
        return Err(SecurityError::EmptyCommand);
    }
    check_shell_control_constructs(&trimmed)?;
    check_path_traversal(&trimmed)?;
    let tokens = match tokenize_chars(&trimmed) {
        Some(t) => t,
        None => {
            return Err(
                SecurityError::UnsupportedCommandFormat(
                    String::from_str("unmatched quote in command"),
                ),
            );
        },
    };
    if tokens.len() == 0 {
        return Err(SecurityError::EmptyCommand);
    }
    check_dangerous_commands(&tokens)?;
    check_dangerous_targets(&tokens)?;
    Ok(ValidatedPlan::new_validated(plan))
}

// ---------------------------------------------------------------------------
// What an accepted command satisfies
// ---------------------------------------------------------------------------

/// Whether `w` holds no shell control character (`;`, `&`, `|`, `$`, a backtick, `>`
/// or `<`).
pub open spec fn has_no_control(w: Seq<char>) -> bool {
    forall|i: int| 0 <= i < w.len() ==> control_description(#[trigger] w[i]) is None
}

pub proof fn lemma_first_control_none(s: Seq<char>)
    requires
        first_control(s) is None,
    ensures
        has_no_control(s),
    decreases s.len(),
{
    if s.len() > 0 {
        let t = s.drop_first();
        lemma_first_control_none(t);
        assert forall|i: int| 0 <= i < s.len() implies control_description(#[trigger] s[i]) is None by {
            if i > 0 {
                assert(s[i] == t[i - 1]);
            }
        }
    }
}

pub proof fn lemma_scan_clear(toks: Seq<Seq<char>>, i: int)
    requires
        0 <= i,
        dangerous_scan(toks, i) is None,
    ensures
        forall|k: int| i <= k < toks.len() ==> !is_prohibited(executable_name(#[trigger] toks[k])),
    decreases toks.len() - i,
{
    if i < toks.len() {
        lemma_scan_clear(toks, i + 1);
    }
}

proof fn lemma_target_scan_clear(toks: Seq<Seq<char>>, i: int)
    requires
        0 <= i,
        target_scan(toks, i) is None,
    ensures
        forall|k: int| i <= k < toks.len() ==> target_rejection(#[trigger] toks[k]) is None,
    decreases toks.len() - i,
{
    if i < toks.len() {
        lemma_target_scan_clear(toks, i + 1);
    }
}

/// `trim(s)` is a window of `s` outside which there is only whitespace.
proof fn lemma_trim_window(s: Seq<char>) -> (w: (int, int))
    ensures
        0 <= w.0 <= w.1 <= s.len(),
        trim(s) == s.subrange(w.0, w.1),
        forall|i: int| 0 <= i < s.len() && !(w.0 <= i < w.1) ==> is_ws(#[trigger] s[i]),
{
    lemma_trim_start_split(s);
    let a = choose|k: int| 0 <= k <= s.len() && all_ws(s.subrange(0, k)) && #[trigger] s.subrange(k, s.len() as int) == trim_start(s);
    let ts = trim_start(s);
    lemma_trim_end_split(ts);
    let b = choose|k: int| 0 <= k <= ts.len() && all_ws(ts.subrange(k, ts.len() as int)) && #[trigger] ts.subrange(0, k) == trim_end(ts);
    assert(trim(s) =~= s.subrange(a, a + b));
    assert forall|i: int| 0 <= i < s.len() && !(a <= i < a + b) implies is_ws(#[trigger] s[i]) by {
        if i < a {
            assert(s.subrange(0, a)[i] == s[i]);
        } else {
            assert(ts[i - a] == s[i]);
            assert(ts.subrange(b, ts.len() as int)[i - a - b] == ts[i - a]);
        }
    }
    (a, a + b)
}

/// Everything the policy asks of an accepted command: at most `MAX_COMMAND_LENGTH`
/// characters, not blank, no shell control character, no walk up the directory tree,
/// closed quotes and at least one word, no word naming a prohibited program, and no
/// word targeting the root, `..` or a critical system directory.
pub proof fn lemma_accepted_command(cmd: Seq<char>)
    requires
        is_accepted(cmd),
    ensures
        cmd.len() <= MAX_COMMAND_LENGTH,
        trim(cmd).len() > 0,
        has_no_control(cmd),
        !contains_seq(cmd, "../"@),
        !contains_seq(cmd, "..\\"@),
        !has_traversal(trim(cmd)),
        tokenize(cmd) matches Some(toks) && toks.len() > 0 && (forall|k: int|
            0 <= k < toks.len() ==> !is_prohibited(executable_name(#[trigger] toks[k]))
                && target_rejection(toks[k]) is None),
{
    let t = trim(cmd);
    let w = lemma_trim_window(cmd);
    assert(first_control(t) is None);
    lemma_first_control_none(t);
    assert forall|i: int| 0 <= i < cmd.len() implies control_description(#[trigger] cmd[i]) is None by {
        if w.0 <= i < w.1 {
            assert(t[i - w.0] == cmd[i]);
        } else {
            assert(is_ws(cmd[i]));
        }
    }
    reveal_strlit("../");
    reveal_strlit("..\\");
    assert(!has_traversal(t));
    if contains_seq(cmd, "../"@) {
        let i = choose|i: int| 0 <= i && i + 3 <= cmd.len() && #[trigger] cmd.subrange(i, i + 3) == "../"@;
        let p = cmd.subrange(i, i + 3);
        assert(p[0] == cmd[i] && p[2] == cmd[i + 2]);
        assert(!is_ws(cmd[i]) && !is_ws(cmd[i + 2]));
        assert(w.0 <= i && i + 3 <= w.1);
        assert(t.subrange(i - w.0, i - w.0 + 3) =~= p);
    }
    if contains_seq(cmd, "..\\"@) {
        let i = choose|i: int| 0 <= i && i + 3 <= cmd.len() && #[trigger] cmd.subrange(i, i + 3) == "..\\"@;
        let p = cmd.subrange(i, i + 3);
        assert(p[0] == cmd[i] && p[2] == cmd[i + 2]);
        assert(!is_ws(cmd[i]) && !is_ws(cmd[i + 2]));
        assert(w.0 <= i && i + 3 <= w.1);
        assert(t.subrange(i - w.0, i - w.0 + 3) =~= p);
    }
    lemma_tokenize_trim(cmd);
    let toks = tokenize(t)->0;
    lemma_scan_clear(toks, 0);
    lemma_target_scan_clear(toks, 0);
}

proof fn lemma_first_control_some(s: Seq<char>)
    requires
        first_control(s) is Some,
    ensures
        !has_no_control(s),
    decreases s.len(),
{
    if control_description(s[0]) is None {
        let t = s.drop_first();
        lemma_first_control_some(t);
        let i = choose|i: int| 0 <= i < t.len() && !(control_description(#[trigger] t[i]) is None);
        assert(s[i + 1] == t[i]);
    }
}

/// A command and its trimmed text hold the same control characters.
proof fn lemma_control_trim(cmd: Seq<char>)
    ensures
        has_no_control(cmd) == has_no_control(trim(cmd)),
{
    let t = trim(cmd);
    let w = lemma_trim_window(cmd);
    if has_no_control(t) {
        assert forall|i: int| 0 <= i < cmd.len() implies control_description(#[trigger] cmd[i]) is None by {
            if w.0 <= i < w.1 {
                assert(t[i - w.0] == cmd[i]);
            } else {
                assert(is_ws(cmd[i]));
            }
        }
    }
    if has_no_control(cmd) {
        assert forall|i: int| 0 <= i < t.len() implies control_description(#[trigger] t[i]) is None by {
            assert(t[i] == cmd[i + w.0]);
        }
    }
}

proof fn lemma_target_scan_paths(toks: Seq<Seq<char>>, i: int)
    ensures
        target_scan(toks, i) matches Some(r) ==> r is DangerousPath,
    decreases toks.len() - i,
{
    if 0 <= i < toks.len() {
        lemma_target_scan_paths(toks, i + 1);
    }
}

/// A command of acceptable length that is not blank is rejected as a shell control
/// construct exactly when it holds one of `;`, `&`, `|`, `$`, a backtick, `>` or `<`.
pub proof fn lemma_control_rejection(cmd: Seq<char>)
    requires
        cmd.len() <= MAX_COMMAND_LENGTH,
        trim(cmd).len() > 0,
    ensures
        (policy_verdict(cmd) matches Some(r) && r is ShellControlConstruct) <==> !has_no_control(cmd),
{
    let t = trim(cmd);
    lemma_control_trim(cmd);
    if first_control(t) is Some {
        lemma_first_control_some(t);
    } else {
        lemma_first_control_none(t);
        if let Some(toks) = tokenize(t) {
            lemma_target_scan_paths(toks, 0);
        }
    }
}

// ---------------------------------------------------------------------------
// Tier-1 commands
// ---------------------------------------------------------------------------

/// A character that a plain word may hold: a lower-case ASCII letter, a digit, `.`, `-`,
/// `*` or `_`.
spec fn plain_char(c: char) -> bool {
    ('a' <= c && c <= 'z') || ('0' <= c && c <= '9') || c == '.' || c == '-' || c == '*' || c
        == '_'
}

/// A non-empty word of plain characters.
spec fn plain_word(t: Seq<char>) -> bool {
    t.len() > 0 && forall|i: int| 0 <= i < t.len() ==> plain_char(#[trigger] t[i])
}

proof fn lemma_last_segment_plain(t: Seq<char>)
    requires
        forall|i: int| 0 <= i < t.len() ==> plain_char(#[trigger] t[i]),
    ensures
        last_segment(t) == t,
    decreases t.len(),
{
    if t.len() > 0 {
        let p = t.drop_last();
        assert forall|i: int| 0 <= i < p.len() implies plain_char(#[trigger] p[i]) by {
            assert(p[i] == t[i]);
        }
        lemma_last_segment_plain(p);
        assert(p.push(t.last()) =~= t);
    }
}

proof fn lemma_not_under(t: Seq<char>, p: Seq<char>)
    requires
        t.len() > 0,
        t[0] != '/',
        p.len() > 0,
        p[0] == '/',
    ensures
        t != p,
        !starts_with(t, p),
        !under_prefix(t, p),
{
    if t == p {
        assert(t[0] == p[0]);
    }
    if starts_with(t, p) {
        assert(t.subrange(0, p.len() as int)[0] == p[0]);
    }
    assert(p.push('/')[0] == '/');
    if starts_with(t, p.push('/')) {
        assert(t.subrange(0, (p.len() + 1) as int)[0] == p.push('/')[0]);
    }
}

/// A plain word that is neither `..` nor ends in `.exe` names itself as a program and is
/// no dangerous target.
proof fn lemma_plain_word(t: Seq<char>)
    requires
        plain_word(t),
        t != ".."@,
        !ends_with(t, ".exe"@),
        !ends_with(t, ".EXE"@),
    ensures
        trim(t) == t,
        lowercase(t) == t,
        executable_name(t) == t,
        !has_char(t, '='),
        target_rejection(t) is None,
{
    assert(!is_ws(t[0]) && !is_ws(t.last()));
    assert(trim_start(t) == t);
    assert(trim(t) == t);
    lemma_last_segment_plain(t);
    assert(vstd::utf8::is_ascii_chars(t));
    assert(t.map_values(|c: char| crate::text::ascii_lower_char(c)) =~= t);
    assert(lowercase(t) == t);
    assert(executable_name(t) == t);
    assert(backslash_to_slash(t) =~= t);
    reveal_strlit("/");
    reveal_strlit("//");
    reveal_strlit("/*");
    reveal_strlit("/etc");
    reveal_strlit("/system");
    reveal_strlit("/library");
    reveal_strlit("/bin");
    reveal_strlit("/sbin");
    reveal_strlit("/usr");
    reveal_strlit("/var");
    reveal_strlit("/dev");
    assert(t[0] != '/');
    let lower = lowercase(backslash_to_slash(trim(t)));
    assert(lower == t);
    lemma_not_under(t, "/"@);
    lemma_not_under(t, "//"@);
    lemma_not_under(t, "/*"@);
    lemma_not_under(t, "/etc"@);
    lemma_not_under(t, "/system"@);
    lemma_not_under(t, "/library"@);
    lemma_not_under(t, "/bin"@);
    lemma_not_under(t, "/sbin"@);
    lemma_not_under(t, "/usr"@);
    lemma_not_under(t, "/var"@);
    lemma_not_under(t, "/dev"@);
    assert(!is_system_path(lower));
    assert(target_rejection(t) is None);
}

/// Outside quotes, characters that are neither quotes nor whitespace extend the word.
proof fn lemma_tok_fold_unquoted(st: TokState, w: Seq<char>)
    requires
        !st.in_single,
        !st.in_double,
        forall|i: int|
            0 <= i < w.len() ==> #[trigger] w[i] != '\'' && w[i] != '"' && !is_ws(w[i]),
    ensures
        tok_fold(st, w) == (TokState { current: st.current + w, ..st }),
    decreases w.len(),
{
    if w.len() == 0 {
        assert(st.current + w =~= st.current);
    } else {
        let p = w.drop_last();
        assert forall|i: int| 0 <= i < p.len() implies #[trigger] p[i] != '\'' && p[i] != '"'
            && !is_ws(p[i]) by {
            assert(p[i] == w[i]);
        }
        lemma_tok_fold_unquoted(st, p);
        assert((st.current + p).push(w.last()) =~= st.current + w);
    }
}

/// Inside single quotes, every character but the closing quote extends the word.
proof fn lemma_tok_fold_single_quoted(st: TokState, w: Seq<char>)
    requires
        st.in_single,
        !st.in_double,
        forall|i: int| 0 <= i < w.len() ==> #[trigger] w[i] != '\'',
    ensures
        tok_fold(st, w) == (TokState { current: st.current + w, ..st }),
    decreases w.len(),
{
    if w.len() == 0 {
        assert(st.current + w =~= st.current);
    } else {
        let p = w.drop_last();
        assert forall|i: int| 0 <= i < p.len() implies #[trigger] p[i] != '\'' by {
            assert(p[i] == w[i]);
        }
        lemma_tok_fold_single_quoted(st, p);
        assert((st.current + p).push(w.last()) =~= st.current + w);
    }
}

/// Characters that may stand in an unquoted word.
spec fn word_chars(w: Seq<char>) -> bool {
    forall|i: int| 0 <= i < w.len() ==> #[trigger] w[i] != '\'' && w[i] != '"' && !is_ws(w[i])
}

proof fn lemma_tok_fold_space(st: TokState)
    requires
        !st.in_single,
        !st.in_double,
        st.current.len() > 0,
    ensures
        tok_fold(st, seq![' ']) == (TokState {
            tokens: st.tokens.push(st.current),
            current: Seq::empty(),
            in_single: false,
            in_double: false,
        }),
{
    reveal_with_fuel(tok_fold, 2);
    assert(seq![' '].drop_last() =~= Seq::<char>::empty());
    assert(is_ws(' '));
}

/// Words joined with single spaces tokenize back into the same words, the last one
/// still open.
proof fn lemma_tok_fold_joined(ws: Seq<Seq<char>>)
    requires
        ws.len() > 0,
        forall|k: int| 0 <= k < ws.len() ==> (#[trigger] ws[k]).len() > 0 && word_chars(ws[k]),
    ensures
        tok_fold(tok_init(), join_words(ws)) == (TokState {
            tokens: ws.drop_last(),
            current: ws.last(),
            in_single: false,
            in_double: false,
        }),
    decreases ws.len(),
{
    let w = ws.last();
    assert(word_chars(w));
    if ws.len() == 1 {
        lemma_tok_fold_unquoted(tok_init(), w);
        assert(Seq::<char>::empty() + w =~= w);
        assert(ws.drop_last() =~= Seq::<Seq<char>>::empty());
    } else {
        let prev = ws.drop_last();
        assert forall|k: int| 0 <= k < prev.len() implies (#[trigger] prev[k]).len() > 0
            && word_chars(prev[k]) by {
            assert(prev[k] == ws[k]);
        }
        lemma_tok_fold_joined(prev);
        let j = join_words(prev);
        lemma_tok_fold_append(tok_init(), j + seq![' '], w);
        lemma_tok_fold_append(tok_init(), j, seq![' ']);
        let s1 = tok_fold(tok_init(), j);
        lemma_tok_fold_space(s1);
        let s2 = tok_fold(s1, seq![' ']);
        assert(prev.drop_last().push(prev.last()) =~= prev);
        lemma_tok_fold_unquoted(s2, w);
        assert(Seq::<char>::empty() + w =~= w);
    }
}

proof fn lemma_no_control(s: Seq<char>)
    requires
        forall|i: int| 0 <= i < s.len() ==> control_description(#[trigger] s[i]) is None,
    ensures
        first_control(s) is None,
    decreases s.len(),
{
    if s.len() > 0 {
        let t = s.drop_first();
        assert forall|i: int| 0 <= i < t.len() implies control_description(#[trigger] t[i]) is None by {
            assert(t[i] == s[i + 1]);
        }
        lemma_no_control(t);
        assert(control_description(s[0]) is None);
    }
}

/// Text without two adjacent dots does not walk up the directory tree.
proof fn lemma_no_traversal(s: Seq<char>)
    requires
        forall|i: int| 0 <= i < s.len() - 1 ==> !(#[trigger] s[i] == '.' && s[i + 1] == '.'),
    ensures
        !has_traversal(s),
{
    reveal_strlit("../");
    reveal_strlit("..\\");
    reveal_strlit("/..");
    reveal_strlit("\\..");
    if contains_seq(s, "../"@) {
        let i = choose|i: int| 0 <= i && i + 3 <= s.len() && #[trigger] s.subrange(i, i + 3) == "../"@;
        assert(s.subrange(i, i + 3)[0] == s[i] && s.subrange(i, i + 3)[1] == s[i + 1]);
    }
    if contains_seq(s, "..\\"@) {
        let i = choose|i: int| 0 <= i && i + 3 <= s.len() && #[trigger] s.subrange(i, i + 3) == "..\\"@;
        assert(s.subrange(i, i + 3)[0] == s[i] && s.subrange(i, i + 3)[1] == s[i + 1]);
    }
    if ends_with(s, "/.."@) {
        let t = s.subrange(s.len() - 3, s.len() as int);
        assert(t[1] == s[s.len() - 2] && t[2] == s[s.len() - 1]);
    }
    if ends_with(s, "\\.."@) {
        let t = s.subrange(s.len() - 3, s.len() as int);
        assert(t[1] == s[s.len() - 2] && t[2] == s[s.len() - 1]);
    }
}

/// A single-quoted word without quotes inside becomes one word.
proof fn lemma_tok_fold_quoted(st: TokState, w: Seq<char>)
    requires
        !st.in_single,
        !st.in_double,
        st.current.len() == 0,
        forall|i: int| 0 <= i < w.len() ==> #[trigger] w[i] != '\'',
    ensures
        tok_fold(st, seq!['\''] + w + seq!['\'']) == (TokState { current: w, ..st }),
{
    reveal_with_fuel(tok_fold, 2);
    let q = seq!['\''];
    assert(q.drop_last() =~= Seq::<char>::empty());
    lemma_tok_fold_append(st, q + w, q);
    lemma_tok_fold_append(st, q, w);
    let a = tok_fold(st, q);
    assert(a == (TokState { in_single: true, ..st }));
    lemma_tok_fold_single_quoted(a, w);
    assert(st.current + w =~= w);
}

/// A name is prohibited exactly when, lower-cased, it is one of `rm`, `sudo`, `mkfs`,
/// `dd`, `shutdown`, `reboot`, `poweroff`, `halt`, `fdisk`, `diskutil`, or one of them
/// followed by `.` and anything.
pub proof fn lemma_prohibited_names(t: Seq<char>)
    ensures
        is_prohibited(t) == (names_command(lowercase(t), seq!['r', 'm']) || names_command(lowercase(t), seq!['s', 'u', 'd', 'o'])
            || names_command(lowercase(t), seq!['m', 'k', 'f', 's']) || names_command(lowercase(t), seq!['d', 'd'])
            || names_command(lowercase(t), seq!['s', 'h', 'u', 't', 'd', 'o', 'w', 'n']) || names_command(
            lowercase(t),
            seq!['r', 'e', 'b', 'o', 'o', 't'],
        ) || names_command(lowercase(t), seq!['p', 'o', 'w', 'e', 'r', 'o', 'f', 'f']) || names_command(
            lowercase(t),
            seq!['h', 'a', 'l', 't'],
        ) || names_command(lowercase(t), seq!['f', 'd', 'i', 's', 'k']) || names_command(
            lowercase(t),
            seq!['d', 'i', 's', 'k', 'u', 't', 'i', 'l'],
        )),
{
    reveal_strlit("rm");
    reveal_strlit("sudo");
    reveal_strlit("mkfs");
    reveal_strlit("dd");
    reveal_strlit("shutdown");
    reveal_strlit("reboot");
    reveal_strlit("poweroff");
    reveal_strlit("halt");
    reveal_strlit("fdisk");
    reveal_strlit("diskutil");
    assert("rm"@ =~= seq!['r', 'm']);
    assert("sudo"@ =~= seq!['s', 'u', 'd', 'o']);
    assert("mkfs"@ =~= seq!['m', 'k', 'f', 's']);
    assert("dd"@ =~= seq!['d', 'd']);
    assert("shutdown"@ =~= seq!['s', 'h', 'u', 't', 'd', 'o', 'w', 'n']);
    assert("reboot"@ =~= seq!['r', 'e', 'b', 'o', 'o', 't']);
    assert("poweroff"@ =~= seq!['p', 'o', 'w', 'e', 'r', 'o', 'f', 'f']);
    assert("halt"@ =~= seq!['h', 'a', 'l', 't']);
    assert("fdisk"@ =~= seq!['f', 'd', 'i', 's', 'k']);
    assert("diskutil"@ =~= seq!['d', 'i', 's', 'k', 'u', 't', 'i', 'l']);
}

proof fn lemma_not_names_at(t: Seq<char>, cmd: Seq<char>, k: int)
    requires
        0 <= k < t.len(),
        k < cmd.len(),
        t[k] != cmd[k],
    ensures
        !names_command(t, cmd),
{
    if starts_with(t, cmd.push('.')) {
        assert(t.subrange(0, (cmd.len() + 1) as int)[k] == cmd.push('.')[k]);
    }
}

/// A lower-case word whose first letter starts no prohibited name names none of them.
proof fn lemma_not_prohibited_by_first(t: Seq<char>)
    requires
        lowercase(t) == t,
        t.len() > 0,
        t[0] != 'r' && t[0] != 's' && t[0] != 'm' && t[0] != 'd' && t[0] != 'p' && t[0] != 'h'
            && t[0] != 'f',
    ensures
        !is_prohibited(t),
{
    lemma_prohibited_names(t);
    lemma_not_names_at(t, seq!['r', 'm'], 0);
    lemma_not_names_at(t, seq!['s', 'u', 'd', 'o'], 0);
    lemma_not_names_at(t, seq!['m', 'k', 'f', 's'], 0);
    lemma_not_names_at(t, seq!['d', 'd'], 0);
    lemma_not_names_at(t, seq!['s', 'h', 'u', 't', 'd', 'o', 'w', 'n'], 0);
    lemma_not_names_at(t, seq!['r', 'e', 'b', 'o', 'o', 't'], 0);
    lemma_not_names_at(t, seq!['p', 'o', 'w', 'e', 'r', 'o', 'f', 'f'], 0);
    lemma_not_names_at(t, seq!['h', 'a', 'l', 't'], 0);
    lemma_not_names_at(t, seq!['f', 'd', 'i', 's', 'k'], 0);
    lemma_not_names_at(t, seq!['d', 'i', 's', 'k', 'u', 't', 'i', 'l'], 0);
}

/// A word that differs from every prohibited name at its second letter names none of
/// them, given that it does not start like the others.
proof fn lemma_not_prohibited_by_second(t: Seq<char>)
    requires
        lowercase(t) == t,
        t.len() > 1,
        t[0] == 's' || t[0] == 'f',
        t[1] != 'u' && t[1] != 'h' && t[1] != 'd',
    ensures
        !is_prohibited(t),
{
    lemma_prohibited_names(t);
    lemma_not_names_at(t, seq!['r', 'm'], 0);
    lemma_not_names_at(t, seq!['s', 'u', 'd', 'o'], 1);
    lemma_not_names_at(t, seq!['m', 'k', 'f', 's'], 0);
    lemma_not_names_at(t, seq!['d', 'd'], 0);
    lemma_not_names_at(t, seq!['s', 'h', 'u', 't', 'd', 'o', 'w', 'n'], 1);
    lemma_not_names_at(t, seq!['r', 'e', 'b', 'o', 'o', 't'], 0);
    lemma_not_names_at(t, seq!['p', 'o', 'w', 'e', 'r', 'o', 'f', 'f'], 0);
    lemma_not_names_at(t, seq!['h', 'a', 'l', 't'], 0);
    lemma_not_names_at(t, seq!['f', 'd', 'i', 's', 'k'], 1);
    lemma_not_names_at(t, seq!['d', 'i', 's', 'k', 'u', 't', 'i', 'l'], 0);
}

proof fn lemma_not_prohibited_short(t: Seq<char>)
    requires
        lowercase(t) == t,
        t.len() < 2,
    ensures
        !is_prohibited(t),
{
    lemma_prohibited_names(t);
}

proof fn lemma_not_exe(t: Seq<char>)
    requires
        t.len() < 4 || t[t.len() - 4] != '.' || (t.last() != 'e' && t.last() != 'E'),
    ensures
        !ends_with(t, ".exe"@),
        !ends_with(t, ".EXE"@),
{
    reveal_strlit(".exe");
    reveal_strlit(".EXE");
    if t.len() >= 4 {
        let u = t.subrange(t.len() - 4, t.len() as int);
        assert(u[0] == t[t.len() - 4] && u[3] == t.last());
    }
}

proof fn lemma_scan_safe(toks: Seq<Seq<char>>, i: int)
    requires
        0 <= i,
        forall|k: int| 0 <= k < toks.len() ==> !is_prohibited(executable_name(#[trigger] toks[k])),
    ensures
        dangerous_scan(toks, i) is None,
    decreases toks.len() - i,
{
    if i < toks.len() {
        lemma_scan_safe(toks, i + 1);
    }
}

proof fn lemma_target_scan_safe(toks: Seq<Seq<char>>, i: int)
    requires
        0 <= i,
        forall|k: int| 0 <= k < toks.len() ==> target_rejection(#[trigger] toks[k]) is None,
    ensures
        target_scan(toks, i) is None,
    decreases toks.len() - i,
{
    if i < toks.len() {
        lemma_target_scan_safe(toks, i + 1);
    }
}

/// The policy accepts a command whose trimmed text is itself, is ASCII, holds no
/// control character and no traversal, and splits into plain words that name no
/// prohibited program.
proof fn lemma_accepted_plain(s: Seq<char>, toks: Seq<Seq<char>>)
    requires
        vstd::utf8::is_ascii_chars(s),
        0 < s.len() <= MAX_COMMAND_LENGTH,
        trim(s) == s,
        first_control(s) is None,
        !has_traversal(s),
        tokenize(s) == Some(toks),
        toks.len() > 0,
        !has_char(toks[0], '='),
        forall|k: int| 0 <= k < toks.len() ==> !is_prohibited(executable_name(#[trigger] toks[k])),
        forall|k: int| 0 <= k < toks.len() ==> target_rejection(#[trigger] toks[k]) is None,
    ensures
        is_accepted(s),
{
    assert(first_without_eq(toks, 0) == 0);
    assert(primary_token(toks) == toks[0]);
    assert(!is_prohibited(executable_name(toks[0])));
    lemma_scan_safe(toks, 0);
    lemma_target_scan_safe(toks, 0);
}

/// `find . -type f -name '<pattern>'` is accepted for a plain pattern `*.<ext>`.
proof fn lemma_find_by_pattern_accepted(w: Seq<char>)
    requires
        plain_word(w),
        w.len() >= 3,
        w.len() < 100,
        w[0] == '*',
        w[1] == '.',
        w[2] != '.',
        forall|i: int| 2 <= i < w.len() ==> #[trigger] w[i] != '.',
        w.last() != 'e',
    ensures
        is_accepted(
            seq!['f', 'i', 'n', 'd', ' ', '.', ' ', '-', 't', 'y', 'p', 'e', ' ', 'f', ' ', '-', 'n', 'a', 'm', 'e', ' ', '\'']
                + w + seq!['\''],
        ),
{
    reveal_strlit("..");
    let fnd = seq!['f', 'i', 'n', 'd'];
    let dot = seq!['.'];
    let ty = seq!['-', 't', 'y', 'p', 'e'];
    let f = seq!['f'];
    let nm = seq!['-', 'n', 'a', 'm', 'e'];
    let ws = seq![fnd, dot, ty, f, nm];
    let j = join_words(ws);
    reveal_with_fuel(join_words, 6);
    assert(j =~= seq!['f', 'i', 'n', 'd', ' ', '.', ' ', '-', 't', 'y', 'p', 'e', ' ', 'f', ' ', '-', 'n', 'a', 'm', 'e']);
    let q = seq!['\''];
    let s = seq!['f', 'i', 'n', 'd', ' ', '.', ' ', '-', 't', 'y', 'p', 'e', ' ', 'f', ' ', '-', 'n', 'a', 'm', 'e', ' ', '\'']
        + w + seq!['\''];
    assert(s =~= j + (seq![' '] + (q + w + q)));
    // tokens
    assert forall|k: int| 0 <= k < ws.len() implies (#[trigger] ws[k]).len() > 0 && word_chars(ws[k]) by {
        assert(k == 0 || k == 1 || k == 2 || k == 3 || k == 4);
    }
    lemma_tok_run_fold(s);
    lemma_tok_fold_joined(ws);
    lemma_tok_fold_append(tok_init(), j, seq![' '] + (q + w + q));
    let a = tok_fold(tok_init(), j);
    lemma_tok_fold_append(a, seq![' '], q + w + q);
    lemma_tok_fold_space(a);
    let b = tok_fold(a, seq![' ']);
    assert(ws.drop_last().push(ws.last()) =~= ws);
    assert forall|i: int| 0 <= i < w.len() implies #[trigger] w[i] != '\'' by {
        assert(plain_char(w[i]));
    }
    lemma_tok_fold_quoted(b, w);
    let toks = ws.push(w);
    assert(tokenize(s) == Some(toks));
    // text checks
    assert forall|i: int| 0 <= i < s.len() implies '\0' <= #[trigger] s[i] <= '\u{7f}' by {
        if i >= 22 && i < 22 + w.len() {
            assert(s[i] == w[i - 22]);
            assert(plain_char(w[i - 22]));
        }
    }
    assert(vstd::utf8::is_ascii_chars(s));
    assert(trim_start(s) == s);
    assert(s.last() == '\'');
    assert(trim(s) == s);
    assert forall|i: int| 0 <= i < s.len() implies control_description(#[trigger] s[i]) is None by {
        if i >= 22 && i < 22 + w.len() {
            assert(s[i] == w[i - 22]);
            assert(plain_char(w[i - 22]));
        }
    }
    lemma_no_control(s);
    assert forall|i: int| 0 <= i < s.len() - 1 implies !(#[trigger] s[i] == '.' && s[i + 1] == '.') by {
        if i >= 22 && i + 1 < 22 + w.len() {
            assert(s[i + 1] == w[i + 1 - 22]);
        }
    }
    lemma_no_traversal(s);
    // words
    lemma_not_exe(fnd);
    lemma_not_exe(dot);
    lemma_not_exe(ty);
    lemma_not_exe(f);
    lemma_not_exe(nm);
    lemma_not_exe(w);
    lemma_plain_word(fnd);
    lemma_plain_word(dot);
    lemma_plain_word(ty);
    lemma_plain_word(f);
    lemma_plain_word(nm);
    lemma_plain_word(w);
    lemma_not_prohibited_by_second(fnd);
    lemma_not_prohibited_by_first(dot);
    lemma_not_prohibited_by_first(ty);
    lemma_not_prohibited_short(f);
    lemma_not_prohibited_by_first(nm);
    lemma_not_prohibited_by_first(w);
    assert forall|k: int| 0 <= k < toks.len() implies !is_prohibited(executable_name(#[trigger] toks[k]))
        && target_rejection(toks[k]) is None by {
        assert(k == 0 || k == 1 || k == 2 || k == 3 || k == 4 || k == 5);
    }
    lemma_accepted_plain(s, toks);
}

proof fn lemma_git_status_accepted()
    ensures
        is_accepted("git status"@),
{
    reveal_strlit("git status");
    reveal_strlit(".exe");
    reveal_strlit(".EXE");
    reveal_strlit("..");
    let g = seq!['g', 'i', 't'];
    let st = seq!['s', 't', 'a', 't', 'u', 's'];
    let ws = seq![g, st];
    let s = "git status"@;
    reveal_with_fuel(join_words, 3);
    assert(s =~= join_words(ws));
    assert(vstd::utf8::is_ascii_chars(s));
    assert(trim_start(s) == s);
    assert(trim(s) == s);
    reveal_with_fuel(first_control, 11);
    assert(first_control(s) is None);
    lemma_no_traversal(s);
    lemma_tok_run_fold(s);
    lemma_tok_fold_joined(ws);
    assert(ws.drop_last().push(ws.last()) =~= ws);
    assert(tokenize(s) == Some(ws));
    lemma_not_exe(g);
    lemma_not_exe(st);
    lemma_plain_word(g);
    lemma_plain_word(st);
    lemma_not_prohibited_by_first(g);
    lemma_not_prohibited_by_second(st);
    lemma_accepted_plain(s, ws);
}

proof fn lemma_ls_accepted()
    ensures
        is_accepted("ls"@),
{
    reveal_strlit("ls");
    let s = "ls"@;
    assert(s =~= seq!['l', 's']);
    assert(vstd::utf8::is_ascii_chars(s));
    reveal_strlit(".exe");
    reveal_strlit(".EXE");
    reveal_strlit("..");
    lemma_plain_word(s);
    reveal_with_fuel(first_control, 3);
    assert(first_control(s) is None);
    reveal_strlit("../");
    reveal_strlit("..\\");
    reveal_strlit("/..");
    reveal_strlit("\\..");
    assert(!has_traversal(s));
    reveal_with_fuel(tok_run, 3);
    assert(s.drop_last() =~= seq!['l']);
    assert(s.drop_last().drop_last() =~= Seq::<char>::empty());
    assert(tok_run(s).current =~= s);
    assert(tok_run(s).tokens =~= Seq::<Seq<char>>::empty());
    let toks = seq![s];
    assert(tokenize(s) == Some(toks));
    lemma_prohibited_names(s);
    assert(!is_prohibited(s));
    lemma_accepted_plain(s, toks);
}

/// Every plan of the Tier-1 engine passes the security policy: `ls`, `git status` and
/// the two `find` commands are accepted commands.
pub proof fn lemma_tier1_plans_accepted(raw: Seq<char>)
    ensures
        intent_for(normalized(raw)) matches Some(p) ==> is_accepted(p.command),
{
    lemma_ls_accepted();
    lemma_git_status_accepted();
    let prefix = seq!['f', 'i', 'n', 'd', ' ', '.', ' ', '-', 't', 'y', 'p', 'e', ' ', 'f', ' ', '-', 'n', 'a', 'm', 'e', ' ', '\''];
    let pdf = seq!['*', '.', 'p', 'd', 'f'];
    let py = seq!['*', '.', 'p', 'y'];
    reveal_strlit("find . -type f -name '*.pdf'");
    reveal_strlit("find . -type f -name '*.py'");
    assert("find . -type f -name '*.pdf'"@ =~= prefix + pdf + seq!['\'']);
    assert("find . -type f -name '*.py'"@ =~= prefix + py + seq!['\'']);
    lemma_find_by_pattern_accepted(pdf);
    lemma_find_by_pattern_accepted(py);
}

// ---------------------------------------------------------------------------
// Laws of the policy over literal text
// ---------------------------------------------------------------------------

/// No accepted command holds a shell control character: none of `;`, `&`, `|`, `$`, a
/// backtick, `>` or `<` occurs in it.
pub proof fn lemma_accepted_has_no_control_chars(cmd: Seq<char>)
    requires
        is_accepted(cmd),
    ensures
        forall|i: int|
            0 <= i < cmd.len() ==> #[trigger] cmd[i] != ';' && cmd[i] != '&' && cmd[i] != '|'
                && cmd[i] != '$' && cmd[i] != '`' && cmd[i] != '>' && cmd[i] != '<',
{
    lemma_accepted_command(cmd);
    assert forall|i: int| 0 <= i < cmd.len() implies #[trigger] cmd[i] != ';' && cmd[i] != '&'
        && cmd[i] != '|' && cmd[i] != '$' && cmd[i] != '`' && cmd[i] != '>' && cmd[i] != '<' by {
        assert(control_description(cmd[i]) is None);
    }
}

/// A command that walks up the directory tree is never accepted: one whose trimmed text
/// holds `../` or `..\`, or ends with `/..` or `\..`.
pub proof fn lemma_traversal_rejected(cmd: Seq<char>)
    requires
        contains_seq(trim(cmd), "../"@) || contains_seq(trim(cmd), "..\\"@) || ends_with(
            trim(cmd),
            "/.."@,
        ) || ends_with(trim(cmd), "\\.."@),
    ensures
        policy_verdict(cmd) is Some,
{
}

/// No word of an accepted command is the root, `..`, or one of the critical system
/// directories `/etc`, `/system`, `/library`, `/bin`, `/sbin`, `/usr`, `/var`, `/dev`
/// or a path under one, whatever its case and with `\` read as `/`.
pub proof fn lemma_accepted_avoids_system_dirs(cmd: Seq<char>)
    requires
        is_accepted(cmd),
    ensures
        tokenize(cmd) is Some,
        forall|k: int|
            0 <= k < tokenize(cmd)->0.len() ==> {
                let lower = lowercase(backslash_to_slash(trim(#[trigger] tokenize(cmd)->0[k])));
                &&& lower != "/"@
                &&& lower != "//"@
                &&& !starts_with(lower, "/*"@)
                &&& lower != ".."@
                &&& lower != "/etc"@ && !starts_with(lower, "/etc/"@)
                &&& lower != "/system"@ && !starts_with(lower, "/system/"@)
                &&& lower != "/library"@ && !starts_with(lower, "/library/"@)
                &&& lower != "/bin"@ && !starts_with(lower, "/bin/"@)
                &&& lower != "/sbin"@ && !starts_with(lower, "/sbin/"@)
                &&& lower != "/usr"@ && !starts_with(lower, "/usr/"@)
                &&& lower != "/var"@ && !starts_with(lower, "/var/"@)
                &&& lower != "/dev"@ && !starts_with(lower, "/dev/"@)
            },
{
    lemma_accepted_command(cmd);
    reveal_strlit("/etc");
    reveal_strlit("/etc/");
    reveal_strlit("/system");
    reveal_strlit("/system/");
    reveal_strlit("/library");
    reveal_strlit("/library/");
    reveal_strlit("/bin");
    reveal_strlit("/bin/");
    reveal_strlit("/sbin");
    reveal_strlit("/sbin/");
    reveal_strlit("/usr");
    reveal_strlit("/usr/");
    reveal_strlit("/var");
    reveal_strlit("/var/");
    reveal_strlit("/dev");
    reveal_strlit("/dev/");
    assert("/etc"@.push('/') =~= "/etc/"@);
    assert("/system"@.push('/') =~= "/system/"@);
    assert("/library"@.push('/') =~= "/library/"@);
    assert("/bin"@.push('/') =~= "/bin/"@);
    assert("/sbin"@.push('/') =~= "/sbin/"@);
    assert("/usr"@.push('/') =~= "/usr/"@);
    assert("/var"@.push('/') =~= "/var/"@);
    assert("/dev"@.push('/') =~= "/dev/"@);
    let toks = tokenize(cmd)->0;
    assert forall|k: int| 0 <= k < toks.len() implies target_rejection(#[trigger] toks[k]) is None by {}
}

/// A command with a word that names one of the critical system directories `/etc`,
/// `/system`, `/library`, `/bin`, `/sbin`, `/usr`, `/var`, `/dev`, or a path under one
/// (whatever its case, with `\` read as `/`), is never accepted.
pub proof fn lemma_system_dir_rejected(cmd: Seq<char>, k: int)
    requires
        tokenize(cmd) is Some,
        0 <= k < tokenize(cmd)->0.len(),
        ({
            let lower = lowercase(backslash_to_slash(trim(tokenize(cmd)->0[k])));
            ||| lower == "/etc"@ || starts_with(lower, "/etc/"@)
            ||| lower == "/system"@ || starts_with(lower, "/system/"@)
            ||| lower == "/library"@ || starts_with(lower, "/library/"@)
            ||| lower == "/bin"@ || starts_with(lower, "/bin/"@)
            ||| lower == "/sbin"@ || starts_with(lower, "/sbin/"@)
            ||| lower == "/usr"@ || starts_with(lower, "/usr/"@)
            ||| lower == "/var"@ || starts_with(lower, "/var/"@)
            ||| lower == "/dev"@ || starts_with(lower, "/dev/"@)
        }),
    ensures
        policy_verdict(cmd) is Some,
{
    if policy_verdict(cmd) is None {
        lemma_accepted_avoids_system_dirs(cmd);
        let lower = lowercase(backslash_to_slash(trim(tokenize(cmd)->0[k])));
        assert(lower != "/dev"@);
    }
}

/// Inside double quotes every character but `"` joins the word.
proof fn lemma_tok_fold_double_quoted(st: TokState, w: Seq<char>)
    requires
        !st.in_single,
        st.in_double,
        forall|i: int| 0 <= i < w.len() ==> #[trigger] w[i] != '"',
    ensures
        tok_fold(st, w) == (TokState { current: st.current + w, ..st }),
    decreases w.len(),
{
    if w.len() == 0 {
        assert(st.current + w =~= st.current);
    } else {
        let p = w.drop_last();
        assert forall|i: int| 0 <= i < p.len() implies #[trigger] p[i] != '"' by {
            assert(p[i] == w[i]);
        }
        lemma_tok_fold_double_quoted(st, p);
        assert((st.current + p).push(w.last()) =~= st.current + w);
    }
}

/// The state after a text that tokenizes and is empty or ends in whitespace: no word is
/// open and no quote is.
proof fn lemma_tok_run_closed(pre: Seq<char>)
    requires
        tokenize(pre) is Some,
        pre.len() == 0 || is_ws(pre.last()),
    ensures
        tok_run(pre) == (TokState {
            tokens: tokenize(pre)->0,
            current: Seq::empty(),
            in_single: false,
            in_double: false,
        }),
{
    if pre.len() > 0 {
        let prev = tok_run(pre.drop_last());
        let c = pre.last();
        assert(tok_run(pre) == tok_step(prev, c));
        assert(c != '\'' && c != '"');
        if prev.in_single || prev.in_double {
            assert(tok_run(pre).in_single == prev.in_single);
            assert(tok_run(pre).in_double == prev.in_double);
            assert(tokenize(pre) is None);
        } else if prev.current.len() > 0 {
            assert(tok_run(pre).current =~= Seq::<char>::empty());
            assert(tokenize(pre) == Some(tok_run(pre).tokens));
        } else {
            assert(tok_run(pre) == prev);
            assert(prev.current =~= Seq::<char>::empty());
            assert(tokenize(pre) == Some(tok_run(pre).tokens));
        }
    } else {
        assert(tok_run(pre) == tok_init());
        assert(tokenize(pre) == Some(Seq::<Seq<char>>::empty()));
    }
}

/// A quoted word becomes one word: after a text that tokenizes and is empty or ends in
/// whitespace, a non-empty `w` in double quotes without `"` (it may hold `'`), or in
/// single quotes without `'` (it may hold `"`), is added as the word `w`.
pub proof fn lemma_tokenize_quoted_word(pre: Seq<char>, w: Seq<char>)
    requires
        tokenize(pre) is Some,
        pre.len() == 0 || is_ws(pre.last()),
        w.len() > 0,
    ensures
        (forall|i: int| 0 <= i < w.len() ==> #[trigger] w[i] != '"') ==> tokenize(
            pre + seq!['"'] + w + seq!['"'],
        ) == Some(tokenize(pre)->0.push(w)),
        (forall|i: int| 0 <= i < w.len() ==> #[trigger] w[i] != '\'') ==> tokenize(
            pre + seq!['\''] + w + seq!['\''],
        ) == Some(tokenize(pre)->0.push(w)),
{
    lemma_tok_run_closed(pre);
    let st = tok_run(pre);
    lemma_tok_run_fold(pre);
    reveal_with_fuel(tok_fold, 2);
    if forall|i: int| 0 <= i < w.len() ==> #[trigger] w[i] != '"' {
        let q = seq!['"'];
        let s = pre + q + w + q;
        lemma_tok_run_fold(s);
        lemma_tok_fold_append(tok_init(), pre + q + w, q);
        lemma_tok_fold_append(tok_init(), pre + q, w);
        lemma_tok_fold_append(tok_init(), pre, q);
        assert(q.drop_last() =~= Seq::<char>::empty());
        let a = tok_fold(st, q);
        assert(a == (TokState { in_double: true, ..st }));
        lemma_tok_fold_double_quoted(a, w);
        assert(st.current + w =~= w);
    }
    if forall|i: int| 0 <= i < w.len() ==> #[trigger] w[i] != '\'' {
        let q = seq!['\''];
        let s = pre + q + w + q;
        lemma_tok_run_fold(s);
        lemma_tok_fold_append(tok_init(), pre + q + w, q);
        lemma_tok_fold_append(tok_init(), pre + q, w);
        lemma_tok_fold_append(tok_init(), pre, q);
        assert(q.drop_last() =~= Seq::<char>::empty());
        let a = tok_fold(st, q);
        assert(a == (TokState { in_single: true, ..st }));
        lemma_tok_fold_single_quoted(a, w);
        assert(st.current + w =~= w);
    }
}

/// Words without quotes or whitespace, joined with single spaces, tokenize back into the
/// same words.
pub proof fn lemma_tokenize_plain_words(ws: Seq<Seq<char>>)
    requires
        forall|k: int|
            0 <= k < ws.len() ==> (#[trigger] ws[k]).len() > 0 && (forall|i: int|
                0 <= i < ws[k].len() ==> ws[k][i] != '\'' && ws[k][i] != '"' && !is_ws(ws[k][i])),
    ensures
        tokenize(join_words(ws)) == Some(ws),
{
    if ws.len() == 0 {
        assert(join_words(ws) =~= Seq::<char>::empty());
        assert(tokenize(Seq::<char>::empty()) == Some(Seq::<Seq<char>>::empty()));
    } else {
        assert forall|k: int| 0 <= k < ws.len() implies (#[trigger] ws[k]).len() > 0 && word_chars(ws[k]) by {
            assert forall|i: int| 0 <= i < ws[k].len() implies #[trigger] ws[k][i] != '\'' && ws[k][i] != '"'
                && !is_ws(ws[k][i]) by {}
        }
        lemma_tok_run_fold(join_words(ws));
        lemma_tok_fold_joined(ws);
        assert(ws.last().len() > 0);
        assert(ws.drop_last().push(ws.last()) =~= ws);
    }
}

} // verus!
