# cmdmind

A natural-language command line for shell commands, written in Verus.

A request is turned into a shell command by a deterministic Tier-1 engine or, when no
Tier-1 phrasing matches, by a local Ollama model. Every command then crosses one
security boundary, `security::validate`, which is the only way to obtain a
`ValidatedPlan`. Only validated plans reach the path resolver, the zsh buffer, the
history store and the executor, and the executor hands the operating system a program
and its arguments, never a shell string.

## Layout

- `src/` is the verified library. Every function in it carries a contract that Verus
  proves, except a few trusted items that call std and whose contracts Verus takes as
  given: `to_lowercase` and `is_uppercase` (`text`), `String::push`,
  `Duration::from_secs`, and the path wrappers `is_absolute_path`, `file_name_of` and
  `parent_of` (`resolver::path`). Those three state only what holds on every platform.
  The library's modules:
  - `security`: the command policy (`policy_verdict`, `is_accepted`), the quote-aware
    tokenizer, and `validate`;
  - `intent`: command plans and the Tier-1 engine (`normalize_request`, `match_intent`);
  - `resolver`: Levenshtein distance, the path argument of a command, and the choice of
    a re-validated path correction from a directory listing;
  - `executor`: structured execution through a `CommandRunner`, and a recording mock;
  - `zsh`: the `print -z` statement that loads a command into the line editor;
  - `llm`: Ollama settings and the handling of a model reply;
  - `db`: history records;
  - `cli`: what the command line asks for;
  - `text`: character and string primitives.
- `app/` is the program around the library: argument and environment reading, the
  SQLite store, the HTTP client, directory listings and process launching.
- `tests/` holds the tests of the library.

## Laws proved in `src/`

- A validated plan's command is accepted by the policy, and `validate` accepts exactly
  the commands the policy accepts, unchanged.
- Everything an accepted command satisfies, in one statement
  (`lemma_accepted_command`); a command of acceptable length that is not blank is
  rejected as a shell control construct exactly when it holds one of `;`, `&`, `|`,
  `$`, a backtick, `>` or `<`
  (`lemma_control_rejection`); the prohibited names spelled out
  (`lemma_prohibited_names`).
- Every plan of the Tier-1 engine is accepted (`lemma_tier1_plans_accepted`).
- No prohibited program and no shell control character reaches a runner
  (`lemma_validated_invocation_not_prohibited`,
  `lemma_validated_invocation_has_no_control`).
- Tokenizing is insensitive to surrounding whitespace (`lemma_tokenize_trim`); the
  spans of the path resolver's tokens lie in order and cover every non-whitespace
  character (`lemma_span_tokens_fit`); the path argument is a non-flag token
  (`lemma_target_in_tokens`).
- Collapsing whitespace keeps the words (`lemma_collapse_whitespace`); normalizing an
  ASCII request is idempotent and keeps its word count (`lemma_normalized_ascii`).
- After resolution, the plan that runs is a suggestion's re-validated plan, none for a
  rejected correction, and the validated plan otherwise (`plan_after_resolution`).
- A correction reports the least distance among the scanned entries, and a tie lists
  every closest entry in ascending order (`lemma_closest_entries`, `lemma_sorted_seqs`).
- The shell reads back exactly the command from its `print -z` statement
  (`lemma_print_z_round_trip`).
- The edit distance is symmetric, zero exactly on equal inputs, bounded by the lengths,
  obeys the triangle inequality, and is the least number of single-character edits
  (`lemma_lev_*`, `lemma_lev_chain_bound`, `lemma_lev_edit_chain`).
