//! Validated commands prepared for the zsh line editor buffer.
use vstd::prelude::*;

use crate::intent::{CommandSource, PlanView};
use crate::security::validator::{is_accepted, ValidatedPlan};
use crate::text::{chars_of, string_from_chars};

verus! {

/// A validated command prepared for insertion into the zsh line editor buffer.
///
/// It can only be built from a `ValidatedPlan`, and its type invariant is that the
/// security policy accepts its command.
#[derive(Debug, PartialEq, Eq)]
pub struct ZshBufferCommand {
    command: String,
    explanation: String,
    source: CommandSource,
}

impl View for ZshBufferCommand {
    type V = PlanView;

    closed spec fn view(&self) -> PlanView {
        PlanView { command: self.command@, explanation: self.explanation@, source: self.source }
    }
}

/// `s` with every single quote written as `'\''`, the way to end a single-quoted shell
/// string, emit a literal quote, and start a new one.
pub open spec fn escape_single_quotes(s: Seq<char>) -> Seq<char>
    decreases s.len(),
{
    if s.len() == 0 {
        Seq::empty()
    } else if s[0] == '\'' {
        seq!['\'', '\\', '\'', '\''] + escape_single_quotes(s.drop_first())
    } else {
        seq![s[0]] + escape_single_quotes(s.drop_first())
    }
}

/// The `print -z` statement that loads `cmd` into the zsh buffer.
pub open spec fn print_z_statement(cmd: Seq<char>) -> Seq<char> {
    "print -z '"@ + escape_single_quotes(cmd) + seq!['\'']
}

/// The text the shell reads from `s` while outside quotes: a single quote opens a quoted
/// run, a backslash takes the next character literally, and other characters stand for
/// themselves.
pub open spec fn shell_unquote(s: Seq<char>) -> Seq<char>
    decreases s.len(), 0int,
{
    if s.len() == 0 {
        Seq::empty()
    } else if s[0] == '\'' {
        shell_unquote_in(s.drop_first())
    } else if s[0] == '\\' && s.len() >= 2 {
        seq![s[1]] + shell_unquote(s.subrange(2, s.len() as int))
    } else {
        seq![s[0]] + shell_unquote(s.drop_first())
    }
}

/// The text the shell reads from `s` inside a single-quoted run: everything up to the
/// closing quote is literal.
pub open spec fn shell_unquote_in(s: Seq<char>) -> Seq<char>
    decreases s.len(), 1int,
{
    if s.len() == 0 {
        Seq::empty()
    } else if s[0] == '\'' {
        shell_unquote(s.drop_first())
    } else {
        seq![s[0]] + shell_unquote_in(s.drop_first())
    }
}

proof fn lemma_unquote_escaped(c: Seq<char>, rest: Seq<char>)
    ensures
        shell_unquote_in(escape_single_quotes(c) + rest) == c + shell_unquote_in(rest),
    decreases c.len(),
{
    if c.len() == 0 {
        assert(escape_single_quotes(c) + rest =~= rest);
        assert(c + shell_unquote_in(rest) =~= shell_unquote_in(rest));
    } else {
        lemma_unquote_escaped(c.drop_first(), rest);
        let tail = escape_single_quotes(c.drop_first()) + rest;
        if c[0] == '\'' {
            let s = seq!['\'', '\\', '\'', '\''] + tail;
            assert(escape_single_quotes(c) + rest =~= s);
            assert(s.drop_first() =~= seq!['\\', '\'', '\''] + tail);
            let o = seq!['\\', '\'', '\''] + tail;
            assert(o.subrange(2, o.len() as int) =~= seq!['\''] + tail);
            assert((seq!['\''] + tail).drop_first() =~= tail);
            assert(shell_unquote_in(s) == shell_unquote(o));
            assert(shell_unquote(o) == seq!['\''] + shell_unquote(seq!['\''] + tail));
            assert(shell_unquote(seq!['\''] + tail) == shell_unquote_in(tail));
            assert(c =~= seq!['\''] + c.drop_first());
            assert(c + shell_unquote_in(rest) =~= seq!['\''] + (c.drop_first() + shell_unquote_in(
                rest,
            )));
        } else {
            let s = seq![c[0]] + tail;
            assert(escape_single_quotes(c) + rest =~= s);
            assert(s.drop_first() =~= tail);
            assert(shell_unquote_in(s) == seq![c[0]] + shell_unquote_in(tail));
            assert(c + shell_unquote_in(rest) =~= seq![c[0]] + (c.drop_first() + shell_unquote_in(
                rest,
            )));
        }
    }
}

/// The shell reads back exactly the original command from the quoted text of a
/// `print -z` statement.
pub proof fn lemma_print_z_round_trip(cmd: Seq<char>)
    ensures
        shell_unquote(seq!['\''] + escape_single_quotes(cmd) + seq!['\'']) == cmd,
{
    let s = seq!['\''] + escape_single_quotes(cmd) + seq!['\''];
    assert(s.drop_first() =~= escape_single_quotes(cmd) + seq!['\'']);
    lemma_unquote_escaped(cmd, seq!['\'']);
    assert(shell_unquote(s) == shell_unquote_in(s.drop_first()));
    assert(seq!['\''].drop_first() =~= Seq::<char>::empty());
    assert(shell_unquote_in(seq!['\'']) == shell_unquote(Seq::<char>::empty()));
    assert(cmd + Seq::<char>::empty() =~= cmd);
}

impl Clone for ZshBufferCommand {
    fn clone(&self) -> (r: Self)
        ensures
            r@ == self@,
    {
        proof {
            use_type_invariant(self);
        }
        ZshBufferCommand {
            command: self.command.clone(),
            explanation: self.explanation.clone(),
            source: self.source,
        }
    }
}

impl ZshBufferCommand {
    #[verifier::type_invariant]
    spec fn accepted(self) -> bool {
        is_accepted(self.command@)
    }

    /// Prepares a validated plan, keeping its command, explanation and source unchanged.
    pub fn from_validated(plan: ValidatedPlan) -> (r: Self)
        ensures
            r@ == plan@,
    {
        let command = String::from_str(plan.command());
        let explanation = String::from_str(plan.explanation());
        let source = *plan.source();
        ZshBufferCommand { command, explanation, source }
    }

    /// The validated command; the policy accepts it.
    pub fn command(&self) -> (r: &str)
        ensures
            r@ == self@.command,
            is_accepted(r@),
    {
        proof {
            use_type_invariant(self);
        }
        self.command.as_str()
    }

    /// The human-readable explanation.
    pub fn explanation(&self) -> (r: &str)
        ensures
            r@ == self@.explanation,
    {
        self.explanation.as_str()
    }

    /// The engine that produced the command.
    pub fn source(&self) -> (r: &CommandSource)
        ensures
            *r == self@.source,
    {
        &self.source
    }

    /// The zsh `print -z` statement that loads the command into the line editor buffer,
    /// with the command single-quoted and each inner quote written as `'\''`.
    pub fn to_print_z_statement(&self) -> (r: String)
        ensures
            r@ == print_z_statement(self@.command),
    {
        let cmd = chars_of(self.command.as_str());
        let mut out = chars_of("print -z '");
        let ghost base = out@;
        let mut i: usize = 0;
        assert(cmd@.skip(0) =~= cmd@);
        while i < cmd.len()
            invariant
                i <= cmd.len(),
                base == "print -z '"@,
                base + escape_single_quotes(cmd@) == out@ + escape_single_quotes(cmd@.skip(i as int)),
            decreases cmd.len() - i,
        {
            let ghost rest = cmd@.skip(i as int);
            assert(rest[0] == cmd@[i as int]);
            assert(rest.drop_first() =~= cmd@.skip(i + 1));
            let ghost before = out@;
            if cmd[i] == '\'' {
                out.push('\'');
                out.push('\\');
                out.push('\'');
                out.push('\'');
                assert(before + escape_single_quotes(rest) =~= out@ + escape_single_quotes(
                    cmd@.skip(i + 1),
                ));
            } else {
                out.push(cmd[i]);
                assert(before + escape_single_quotes(rest) =~= out@ + escape_single_quotes(
                    cmd@.skip(i + 1),
                ));
            }
            i = i + 1;
        }
        assert(cmd@.skip(cmd.len() as int) =~= Seq::<char>::empty());
        assert(out@ + escape_single_quotes(Seq::<char>::empty()) =~= out@);
        out.push('\'');
        string_from_chars(&out)
    }

    /// The review readiness status on the platform the program runs on: the macOS
    /// text when `on_macos` holds.
    pub fn review_status(&self, on_macos: bool) -> (r: &'static str)
        ensures
            r@ == if on_macos {
                "Ready for human review in macOS zsh buffer"@
            } else {
                "Ready for human review"@
            },
    {
        if on_macos {
            "Ready for human review in macOS zsh buffer"
        } else {
            "Ready for human review"
        }
    }
}

/// Prepares a validated plan for the zsh line editor buffer, unchanged.
pub fn prepare_for_zsh(plan: ValidatedPlan) -> (r: ZshBufferCommand)
    ensures
        r@ == plan@,
{
    ZshBufferCommand::from_validated(plan)
}

} // verus!
