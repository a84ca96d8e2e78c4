//! Settings of the local Ollama model and the handling of its replies.
use std::time::Duration;
use vstd::prelude::*;

use crate::intent::tier1::{CommandPlan, CommandSource, PlanView};
use crate::text::{
    chars_of, copy_range, decimal, starts_with, string_from_chars, trim, trim_chars,
    trim_end_char, trim_end_char_chars, trim_start_char, trim_start_char_chars,
    usize_to_decimal,
};

verus! {

/// Default base URL for the local Ollama daemon.
pub const DEFAULT_OLLAMA_BASE_URL: &'static str = "http://localhost:11434";

/// Default model name for local command generation.
pub const DEFAULT_OLLAMA_MODEL: &'static str = "llama3.2:3b";

/// Default request timeout, in seconds.
pub const DEFAULT_TIMEOUT_SECS: u64 = 30;

/// Explanation given to a generated plan when the model supplies none.
pub const DEFAULT_EXPLANATION: &'static str = "Generated by Ollama";

/// System prompt instructed to the local LLM.
/// Enforces single-command JSON generation targeted at macOS zsh.
pub const SYSTEM_PROMPT: &'static str = "\
You are CmdMind, an assistant that converts natural-language developer requests into safe shell commands.\n\
CmdMind targets macOS zsh.\n\
You must respond ONLY with a valid JSON object matching this schema:\n\
{\n\
  \"command\": \"<single macOS/zsh shell command>\",\n\
  \"explanation\": \"<short human-readable explanation of what the command does>\"\n\
}\n\
Rules:\n\
- Generate a single shell command appropriate for the user's request.\n\
- Never return markdown code blocks, conversational filler, or text outside the JSON object.\n\
- Do not invent mock output or execution results.\n\
- You must not execute commands.\n\
- Avoid obviously destructive commands where possible.\n\
- Use macOS/zsh-compatible shell syntax.";

/// The `Duration` of `secs` whole seconds, as `Duration::from_secs` builds it.
pub uninterp spec fn duration_from_secs(secs: u64) -> Duration;

/// `Duration::from_secs`, which never fails: the result is a fixed function of `secs`.
pub assume_specification[ core::time::Duration::from_secs ](secs: u64) -> (d: Duration)
    ensures
        d == duration_from_secs(secs),
;

/// Configuration settings for connecting to the Ollama HTTP API.
#[derive(Debug, PartialEq, Eq)]
pub struct OllamaConfig {
    /// Base URL of the Ollama server (e.g., "http://localhost:11434")
    pub base_url: String,
    /// Name of the model to use (e.g., "llama3.2:3b")
    pub model: String,
    /// Request timeout duration
    pub timeout: Duration,
}

impl Clone for OllamaConfig {
    fn clone(&self) -> (r: Self)
        ensures
            r.base_url@ == self.base_url@,
            r.model@ == self.model@,
            r.timeout == self.timeout,
    {
        OllamaConfig {
            base_url: self.base_url.clone(),
            model: self.model.clone(),
            timeout: self.timeout,
        }
    }
}

/// The base URL chosen by a setting: the setting, or the default when it is absent,
/// without trailing slashes.
pub open spec fn base_url_of(setting: Option<String>) -> Seq<char> {
    match setting {
        Some(u) => trim_end_char(u@, '/'),
        None => trim_end_char(DEFAULT_OLLAMA_BASE_URL@, '/'),
    }
}

/// The model chosen by a setting: the setting, or the default when it is absent.
pub open spec fn model_of(setting: Option<String>) -> Seq<char> {
    match setting {
        Some(m) => m@,
        None => DEFAULT_OLLAMA_MODEL@,
    }
}

impl OllamaConfig {
    /// The configuration for the given settings (as read from `OLLAMA_BASE_URL` and
    /// `OLLAMA_MODEL`), with defaults for absent ones and a thirty-second timeout.
    pub fn from_settings(base_url: Option<String>, model: Option<String>) -> (r: Self)
        ensures
            r.base_url@ == base_url_of(base_url),
            r.model@ == model_of(model),
            r.timeout == duration_from_secs(DEFAULT_TIMEOUT_SECS),
    {
        let url = match base_url {
            Some(u) => u,
            None => String::from_str(DEFAULT_OLLAMA_BASE_URL),
        };
        let trimmed = trim_end_char_chars(&chars_of(url.as_str()), '/');
        let model = match model {
            Some(m) => m,
            None => String::from_str(DEFAULT_OLLAMA_MODEL),
        };
        OllamaConfig {
            base_url: string_from_chars(&trimmed),
            model,
            timeout: Duration::from_secs(DEFAULT_TIMEOUT_SECS),
        }
    }
}

impl Default for OllamaConfig {
    /// The configuration with every setting at its default.
    fn default() -> (r: Self)
        ensures
            r.base_url@ == DEFAULT_OLLAMA_BASE_URL@,
            r.model@ == DEFAULT_OLLAMA_MODEL@,
            r.timeout == duration_from_secs(DEFAULT_TIMEOUT_SECS),
    {
        proof {
            reveal_strlit("http://localhost:11434");
        }
        Self::from_settings(None, None)
    }
}

/// The abstract content of an [`OllamaError`].
pub enum OllamaFailure {
    Connection(Seq<char>),
    Timeout(Seq<char>),
    Http(u16, Seq<char>),
    JsonParse(Seq<char>),
    EmptyCommand,
    MissingCommandField,
}

/// Errors that can occur during communication or parsing with Ollama.
#[derive(Debug)]
pub enum OllamaError {
    Connection(String),
    Timeout(String),
    Http(u16, String),
    JsonParse(String),
    EmptyCommand,
    MissingCommandField,
}

impl View for OllamaError {
    type V = OllamaFailure;

    open spec fn view(&self) -> OllamaFailure {
        match self {
            OllamaError::Connection(m) => OllamaFailure::Connection(m@),
            OllamaError::Timeout(m) => OllamaFailure::Timeout(m@),
            OllamaError::Http(code, body) => OllamaFailure::Http(*code, body@),
            OllamaError::JsonParse(m) => OllamaFailure::JsonParse(m@),
            OllamaError::EmptyCommand => OllamaFailure::EmptyCommand,
            OllamaError::MissingCommandField => OllamaFailure::MissingCommandField,
        }
    }
}

/// The human-readable description of an Ollama failure.
pub open spec fn ollama_failure_message(f: OllamaFailure) -> Seq<char> {
    match f {
        OllamaFailure::Connection(m) => "Could not connect to Ollama. Ensure the Ollama server is running locally (e.g., 'ollama serve').\nDetails: "@
            + m,
        OllamaFailure::Timeout(m) => "Ollama request timed out while generating a response.\nDetails: "@
            + m,
        OllamaFailure::Http(code, body) => "Ollama returned HTTP error "@ + decimal(code as nat) + ": "@
            + body,
        OllamaFailure::JsonParse(m) => "Failed to parse structured JSON from Ollama.\nDetails: "@ + m,
        OllamaFailure::EmptyCommand => "Ollama returned an empty shell command."@,
        OllamaFailure::MissingCommandField => "Ollama JSON response was missing the 'command' field."@,
    }
}

impl OllamaError {
    /// The human-readable description of this error.
    pub fn message(&self) -> (r: String)
        ensures
            r@ == ollama_failure_message(self@),
    {
        match self {
            OllamaError::Connection(m) => {
                let mut s = String::from_str(
                    "Could not connect to Ollama. Ensure the Ollama server is running locally (e.g., 'ollama serve').\nDetails: ",
                );
                s.append(m.as_str());
                s
            },
            OllamaError::Timeout(m) => {
                let mut s = String::from_str(
                    "Ollama request timed out while generating a response.\nDetails: ",
                );
                s.append(m.as_str());
                s
            },
            OllamaError::Http(code, body) => {
                let mut s = String::from_str("Ollama returned HTTP error ");
                let digits = usize_to_decimal(*code as usize);
                s.append(digits.as_str());
                s.append(": ");
                s.append(body.as_str());
                s
            },
            OllamaError::JsonParse(m) => {
                let mut s = String::from_str("Failed to parse structured JSON from Ollama.\nDetails: ");
                s.append(m.as_str());
                s
            },
            OllamaError::EmptyCommand => String::from_str("Ollama returned an empty shell command."),
            OllamaError::MissingCommandField => String::from_str(
                "Ollama JSON response was missing the 'command' field.",
            ),
        }
    }
}

/// The JSON text of a model reply `t` that is already trimmed: a reply opening with a
/// markdown code fence loses its backticks, an optional `json` tag and the whitespace
/// around what is left; any other reply is taken as it is.
pub open spec fn json_body(t: Seq<char>) -> Seq<char> {
    if starts_with(t, seq!['`', '`', '`']) {
        let w = trim_start_char(t, '`');
        let c = if starts_with(w, seq!['j', 's', 'o', 'n']) {
            w.skip(4)
        } else {
            w
        };
        trim(trim_end_char(c, '`'))
    } else {
        t
    }
}

/// The JSON text to parse out of a raw model reply; a reply that is only whitespace is
/// an empty command.
pub fn llm_json_body(raw: &str) -> (r: Result<String, OllamaError>)
    ensures
        match r {
            Ok(body) => trim(raw@).len() > 0 && body@ == json_body(trim(raw@)),
            Err(e) => trim(raw@).len() == 0 && e@ == OllamaFailure::EmptyCommand,
        },
{
    let t = trim_chars(&chars_of(raw));
    if t.len() == 0 {
        return Err(OllamaError::EmptyCommand);
    }
    let fenced = t.len() >= 3 && t[0] == '`' && t[1] == '`' && t[2] == '`';
    proof {
        if t@.len() >= 3 {
            let p = t@.subrange(0, 3);
            assert(p[0] == t@[0] && p[1] == t@[1] && p[2] == t@[2]);
            if fenced {
                assert(p =~= seq!['`', '`', '`']);
            }
        }
    }
    if !fenced {
        return Ok(string_from_chars(&t));
    }
    let w = trim_start_char_chars(&t, '`');
    let tagged = w.len() >= 4 && w[0] == 'j' && w[1] == 's' && w[2] == 'o' && w[3] == 'n';
    proof {
        if w@.len() >= 4 {
            let p = w@.subrange(0, 4);
            assert(p[0] == w@[0] && p[1] == w@[1] && p[2] == w@[2] && p[3] == w@[3]);
            if tagged {
                assert(p =~= seq!['j', 's', 'o', 'n']);
            }
        }
    }
    let c = if tagged {
        copy_range(&w, 4, w.len())
    } else {
        w
    };
    let body = trim_chars(&trim_end_char_chars(&c, '`'));
    Ok(string_from_chars(&body))
}

/// The error for a reply body that is not the expected JSON object: the parser's
/// `detail`, then the trimmed raw reply in quotes.
pub fn json_parse_error(detail: &str, raw: &str) -> (e: OllamaError)
    ensures
        e@ == OllamaFailure::JsonParse(detail@ + ": raw output was: '"@ + trim(raw@) + "'"@),
{
    let mut s = String::from_str(detail);
    s.append(": raw output was: '");
    let t = string_from_chars(&trim_chars(&chars_of(raw)));
    s.append(t.as_str());
    s.append("'");
    OllamaError::JsonParse(s)
}

/// The explanation a generated plan carries: the model's, trimmed, when it has any
/// text, else the default.
pub open spec fn explanation_of(explanation: Option<String>) -> Seq<char> {
    match explanation {
        Some(e) => if trim(e@).len() > 0 {
            trim(e@)
        } else {
            DEFAULT_EXPLANATION@
        },
        None => DEFAULT_EXPLANATION@,
    }
}

/// What a parsed model reply with these `command` and `explanation` fields yields: the
/// command is required, is trimmed, and must not be empty.
pub open spec fn llm_plan_outcome(command: Option<String>, explanation: Option<String>) -> Result<
    PlanView,
    OllamaFailure,
> {
    match command {
        None => Err(OllamaFailure::MissingCommandField),
        Some(c) => if trim(c@).len() == 0 {
            Err(OllamaFailure::EmptyCommand)
        } else {
            Ok(
                PlanView {
                    command: trim(c@),
                    explanation: explanation_of(explanation),
                    source: CommandSource::Ollama,
                },
            )
        },
    }
}

/// The plan for the `command` and `explanation` fields of a parsed model reply.
pub fn plan_from_llm_fields(command: Option<String>, explanation: Option<String>) -> (r: Result<
    CommandPlan,
    OllamaError,
>)
    ensures
        match r {
            Ok(p) => llm_plan_outcome(command, explanation) == Ok::<PlanView, OllamaFailure>(p@),
            Err(e) => llm_plan_outcome(command, explanation) == Err::<PlanView, OllamaFailure>(e@),
        },
{
    let cmd = match command {
        Some(c) => {
            let t = trim_chars(&chars_of(c.as_str()));
            if t.len() == 0 {
                return Err(OllamaError::EmptyCommand);
            }
            string_from_chars(&t)
        },
        None => {
            return Err(OllamaError::MissingCommandField);
        },
    };
    let text = match explanation {
        Some(e) => {
            let t = trim_chars(&chars_of(e.as_str()));
            if t.len() > 0 {
                string_from_chars(&t)
            } else {
                String::from_str(DEFAULT_EXPLANATION)
            }
        },
        None => String::from_str(DEFAULT_EXPLANATION),
    };
    Ok(CommandPlan::new(cmd.as_str(), text.as_str(), CommandSource::Ollama))
}

} // verus!
