//! The auto-healing path resolver: finds the path argument of a command and, when it
//! names nothing, proposes the closest existing entry as a re-validated correction.
use vstd::prelude::*;

use super::levenshtein::{levenshtein, lev};
use crate::intent::{CommandPlan, PlanView};
use crate::security::validator::{policy_verdict, rejection_message, validate, ValidatedPlan};
use crate::text::{
    char_views, chars_end_with, contains_seq, chars_eq, chars_have, chars_of, chars_start_with, copy_range,
    ends_with, has_char, is_sorted_seqs, is_uppercase, is_whitespace, is_ws, lemma_sorted_seqs, lowercase,
    sort_chars, sorted_seqs,
    starts_with, string_from_chars, string_views, strings_of, to_lowercase, trim, trim_chars,
    upper_char,
};

verus! {

/// Maximum number of directory entries that one correction may scan.
pub const MAX_DIRECTORY_ENTRIES: usize = 500;

// ---------------------------------------------------------------------------
// Path edit distance
// ---------------------------------------------------------------------------

/// Whether some character of `s` is upper-case.
pub open spec fn has_upper(s: Seq<char>) -> bool {
    exists|i: int| 0 <= i < s.len() && upper_char(#[trigger] s[i])
}

/// The distance between two path segment names: a difference in case alone counts as
/// one edit, and otherwise the smaller of the exact distance and the case-insensitive
/// distance plus one when the names differ and either has an upper-case letter.
pub open spec fn path_distance(target: Seq<char>, candidate: Seq<char>) -> nat {
    let tl = lowercase(target);
    let cl = lowercase(candidate);
    if tl == cl {
        if target == candidate {
            0
        } else {
            1
        }
    } else {
        let penalty: nat = if target != candidate && (has_upper(target) || has_upper(candidate)) {
            1
        } else {
            0
        };
        let exact = lev(target, candidate);
        let folded = lev(tl, cl) + penalty;
        if exact <= folded {
            exact
        } else {
            folded
        }
    }
}

fn any_upper(v: &Vec<char>) -> (r: bool)
    ensures
        r == has_upper(v@),
{
    let mut i: usize = 0;
    while i < v.len()
        invariant
            i <= v.len(),
            forall|k: int| 0 <= k < i ==> !upper_char(#[trigger] v@[k]),
        decreases v.len() - i,
    {
        if is_uppercase(v[i]) {
            return true;
        }
        i = i + 1;
    }
    false
}

/// Computes the edit distance between two path segment names, accounting for case.
pub fn path_edit_distance(target: &str, candidate: &str) -> (d: usize)
    ensures
        d == path_distance(target@, candidate@),
{
    let exact = levenshtein(target, candidate);
    let target_lower = to_lowercase(target);
    let candidate_lower = to_lowercase(candidate);
    let lower = levenshtein(target_lower.as_str(), candidate_lower.as_str());
    let tv = chars_of(target);
    let cv = chars_of(candidate);
    if chars_eq(&chars_of(target_lower.as_str()), &chars_of(candidate_lower.as_str())) {
        if chars_eq(&tv, &cv) {
            0
        } else {
            1
        }
    } else {
        let case_penalty: usize = if !chars_eq(&tv, &cv) && (any_upper(&tv) || any_upper(&cv)) {
            1
        } else {
            0
        };
        if lower < exact {
            lower + case_penalty
        } else {
            exact
        }
    }
}

// ---------------------------------------------------------------------------
// Tokens with spans
// ---------------------------------------------------------------------------

/// A word of a command with the character positions `start..end` it occupies.
pub struct SpanToken {
    pub text: Seq<char>,
    pub start: int,
    pub end: int,
    pub quoted: bool,
}

/// A parsed token with its character span in the original command.
#[derive(Debug)]
struct CommandToken {
    text: String,
    span: (usize, usize),
    is_quoted: bool,
}

impl View for CommandToken {
    type V = SpanToken;

    closed spec fn view(&self) -> SpanToken {
        SpanToken {
            text: self.text@,
            start: self.span.0 as int,
            end: self.span.1 as int,
            quoted: self.is_quoted,
        }
    }
}

/// The views of a sequence of tokens.
spec fn token_views(v: Seq<CommandToken>) -> Seq<SpanToken> {
    v.map_values(|t: CommandToken| t@)
}

/// The first position from `i` on that holds no whitespace, or the length of `s`.
pub open spec fn skip_ws(s: Seq<char>, i: int) -> int
    decreases s.len() - i,
{
    if i < 0 || i >= s.len() {
        s.len() as int
    } else if is_ws(s[i]) {
        skip_ws(s, i + 1)
    } else {
        i
    }
}

/// The first position from `i` on that holds `c`, or the length of `s`.
pub open spec fn find_char(s: Seq<char>, i: int, c: char) -> int
    decreases s.len() - i,
{
    if i < 0 || i >= s.len() {
        s.len() as int
    } else if s[i] == c {
        i
    } else {
        find_char(s, i + 1, c)
    }
}

/// The first position from `i` on that holds whitespace, or the length of `s`.
pub open spec fn find_ws(s: Seq<char>, i: int) -> int
    decreases s.len() - i,
{
    if i < 0 || i >= s.len() {
        s.len() as int
    } else if is_ws(s[i]) {
        i
    } else {
        find_ws(s, i + 1)
    }
}

pub proof fn lemma_skip_ws_bounds(s: Seq<char>, i: int)
    requires
        0 <= i <= s.len(),
    ensures
        i <= skip_ws(s, i) <= s.len(),
    decreases s.len() - i,
{
    if i < s.len() && is_ws(s[i]) {
        lemma_skip_ws_bounds(s, i + 1);
    }
}

proof fn lemma_find_char_bounds(s: Seq<char>, i: int, c: char)
    requires
        0 <= i <= s.len(),
    ensures
        i <= find_char(s, i, c) <= s.len(),
        find_char(s, i, c) < s.len() ==> s[find_char(s, i, c)] == c,
    decreases s.len() - i,
{
    if i < s.len() && s[i] != c {
        lemma_find_char_bounds(s, i + 1, c);
    }
}

proof fn lemma_find_ws_bounds(s: Seq<char>, i: int)
    requires
        0 <= i <= s.len(),
    ensures
        i <= find_ws(s, i) <= s.len(),
    decreases s.len() - i,
{
    if i < s.len() && !is_ws(s[i]) {
        lemma_find_ws_bounds(s, i + 1);
    }
}

/// The tokens of `s` from position `i` on: words separated by whitespace, where a word
/// that opens with a quote runs to the matching quote and keeps only what lies inside.
/// `None` when a quote is left open.
pub open spec fn span_tokens(s: Seq<char>, i: int) -> Option<Seq<SpanToken>>
    decreases s.len() - i, 1int,
{
    if i < 0 || i > s.len() {
        None
    } else {
        let j = skip_ws(s, i);
        proof {
            lemma_skip_ws_bounds(s, i);
        }
        if j >= s.len() {
            Some(Seq::empty())
        } else {
            span_tokens_at(s, j)
        }
    }
}

/// The tokens of `s` from the non-whitespace position `j` on.
pub open spec fn span_tokens_at(s: Seq<char>, j: int) -> Option<Seq<SpanToken>>
    decreases s.len() - j, 0int,
{
    if j < 0 || j >= s.len() {
        None
    } else if s[j] == '\'' || s[j] == '"' {
        let k = find_char(s, j + 1, s[j]);
        if k >= s.len() || k <= j {
            None
        } else {
            let tok = SpanToken { text: s.subrange(j + 1, k), start: j, end: k + 1, quoted: true };
            match span_tokens(s, k + 1) {
                Some(rest) => Some(seq![tok] + rest),
                None => None,
            }
        }
    } else {
        let k = find_ws(s, j);
        if k <= j || k > s.len() {
            None
        } else {
            let tok = SpanToken { text: s.subrange(j, k), start: j, end: k, quoted: false };
            match span_tokens(s, k) {
                Some(rest) => Some(seq![tok] + rest),
                None => None,
            }
        }
    }
}

proof fn lemma_skip_ws_prefix(s: Seq<char>, i: int)
    requires
        0 <= i <= s.len(),
    ensures
        forall|p: int| i <= p < skip_ws(s, i) ==> is_ws(#[trigger] s[p]),
        skip_ws(s, i) < s.len() ==> !is_ws(s[skip_ws(s, i)]),
    decreases s.len() - i,
{
    if i < s.len() && is_ws(s[i]) {
        lemma_skip_ws_prefix(s, i + 1);
    }
}

proof fn lemma_find_ws_prefix(s: Seq<char>, i: int)
    requires
        0 <= i <= s.len(),
    ensures
        forall|p: int| i <= p < find_ws(s, i) ==> !is_ws(#[trigger] s[p]),
    decreases s.len() - i,
{
    if i < s.len() && !is_ws(s[i]) {
        lemma_find_ws_prefix(s, i + 1);
    }
}

/// What the tokens `ts` of `s`, read from position `i`, satisfy: their spans lie in
/// order within `i..s.len()`; an unquoted token is the non-empty, whitespace-free text
/// of its span; a quoted token's span opens and closes with the same quote and holds
/// the token's text between them; and every other character from `i` on is whitespace.
pub open spec fn spans_fit(s: Seq<char>, i: int, ts: Seq<SpanToken>) -> bool {
    &&& forall|k: int| 0 <= k < ts.len() ==> i <= (#[trigger] ts[k]).start < ts[k].end <= s.len()
    &&& forall|k: int| 0 < k < ts.len() ==> ts[k - 1].end <= (#[trigger] ts[k]).start
    &&& forall|k: int|
        0 <= k < ts.len() && !(#[trigger] ts[k]).quoted ==> {
            &&& ts[k].text == s.subrange(ts[k].start, ts[k].end)
            &&& ts[k].text.len() > 0
            &&& forall|m: int| 0 <= m < ts[k].text.len() ==> !is_ws(#[trigger] ts[k].text[m])
        }
    &&& forall|k: int|
        0 <= k < ts.len() && (#[trigger] ts[k]).quoted ==> {
            &&& s[ts[k].start] == '\'' || s[ts[k].start] == '"'
            &&& s[ts[k].end - 1] == s[ts[k].start]
            &&& ts[k].start < ts[k].end - 1
            &&& ts[k].text == s.subrange(ts[k].start + 1, ts[k].end - 1)
        }
    &&& forall|p: int|
        i <= p < s.len() && !is_ws(#[trigger] s[p]) ==> exists|k: int|
            0 <= k < ts.len() && #[trigger] ts[k].start <= p && p < ts[k].end
}

proof fn lemma_spans_prepend(s: Seq<char>, j: int, tok: SpanToken, k: int, rest: Seq<SpanToken>)
    requires
        0 <= j == tok.start < tok.end == k <= s.len(),
        spans_fit(s, k, rest),
        !tok.quoted ==> {
            &&& tok.text == s.subrange(tok.start, tok.end)
            &&& tok.text.len() > 0
            &&& forall|m: int| 0 <= m < tok.text.len() ==> !is_ws(#[trigger] tok.text[m])
        },
        tok.quoted ==> {
            &&& s[tok.start] == '\'' || s[tok.start] == '"'
            &&& s[tok.end - 1] == s[tok.start]
            &&& tok.start < tok.end - 1
            &&& tok.text == s.subrange(tok.start + 1, tok.end - 1)
        },
    ensures
        spans_fit(s, j, seq![tok] + rest),
{
    let ts = seq![tok] + rest;
    assert forall|k2: int| 0 <= k2 < ts.len() implies j <= (#[trigger] ts[k2]).start < ts[k2].end <= s.len() by {
        if k2 > 0 {
            assert(ts[k2] == rest[k2 - 1]);
        }
    }
    assert forall|k2: int| 0 < k2 < ts.len() implies ts[k2 - 1].end <= (#[trigger] ts[k2]).start by {
        assert(ts[k2] == rest[k2 - 1]);
        if k2 > 1 {
            assert(ts[k2 - 1] == rest[k2 - 2]);
        }
    }
    assert forall|k2: int| 0 <= k2 < ts.len() && !(#[trigger] ts[k2]).quoted implies {
        &&& ts[k2].text == s.subrange(ts[k2].start, ts[k2].end)
        &&& ts[k2].text.len() > 0
        &&& forall|m: int| 0 <= m < ts[k2].text.len() ==> !is_ws(#[trigger] ts[k2].text[m])
    } by {
        if k2 > 0 {
            assert(ts[k2] == rest[k2 - 1]);
        }
    }
    assert forall|k2: int| 0 <= k2 < ts.len() && (#[trigger] ts[k2]).quoted implies {
        &&& s[ts[k2].start] == '\'' || s[ts[k2].start] == '"'
        &&& s[ts[k2].end - 1] == s[ts[k2].start]
        &&& ts[k2].start < ts[k2].end - 1
        &&& ts[k2].text == s.subrange(ts[k2].start + 1, ts[k2].end - 1)
    } by {
        if k2 > 0 {
            assert(ts[k2] == rest[k2 - 1]);
        }
    }
    assert forall|p: int| j <= p < s.len() && !is_ws(#[trigger] s[p]) implies exists|k2: int|
        0 <= k2 < ts.len() && #[trigger] ts[k2].start <= p && p < ts[k2].end by {
        if p < k {
            assert(ts[0].start <= p && p < ts[0].end);
        } else {
            let k3 = choose|k3: int| 0 <= k3 < rest.len() && #[trigger] rest[k3].start <= p && p < rest[k3].end;
            assert(ts[k3 + 1] == rest[k3]);
            assert(ts[k3 + 1].start <= p && p < ts[k3 + 1].end);
        }
    }
}

/// The spans of the tokens of `s` read from `i` fit `s` (see [`spans_fit`]).
pub proof fn lemma_span_tokens_fit(s: Seq<char>, i: int)
    requires
        0 <= i <= s.len(),
        span_tokens(s, i) is Some,
    ensures
        spans_fit(s, i, span_tokens(s, i)->0),
    decreases s.len() - i, 1int,
{
    lemma_skip_ws_bounds(s, i);
    lemma_skip_ws_prefix(s, i);
    let j = skip_ws(s, i);
    if j >= s.len() {
        let ts = span_tokens(s, i)->0;
        assert(ts =~= Seq::<SpanToken>::empty());
    } else {
        lemma_span_tokens_at_fit(s, j);
        let ts = span_tokens(s, i)->0;
        assert forall|p: int| i <= p < s.len() && !is_ws(#[trigger] s[p]) implies exists|k: int|
            0 <= k < ts.len() && #[trigger] ts[k].start <= p && p < ts[k].end by {
            if p >= j {
                let k = choose|k: int| 0 <= k < ts.len() && #[trigger] ts[k].start <= p && p < ts[k].end;
                assert(ts[k].start <= p && p < ts[k].end);
            }
        }
    }
}

/// The spans of the tokens of `s` read from the non-whitespace position `j` fit `s`.
pub proof fn lemma_span_tokens_at_fit(s: Seq<char>, j: int)
    requires
        0 <= j < s.len(),
        span_tokens_at(s, j) is Some,
    ensures
        spans_fit(s, j, span_tokens_at(s, j)->0),
    decreases s.len() - j, 0int,
{
    if s[j] == '\'' || s[j] == '"' {
        let q = s[j];
        lemma_find_char_bounds(s, j + 1, q);
        let k = find_char(s, j + 1, q);
        let tok = SpanToken { text: s.subrange(j + 1, k), start: j, end: k + 1, quoted: true };
        lemma_span_tokens_fit(s, k + 1);
        lemma_spans_prepend(s, j, tok, k + 1, span_tokens(s, k + 1)->0);
    } else {
        lemma_find_ws_bounds(s, j);
        lemma_find_ws_prefix(s, j);
        let k = find_ws(s, j);
        let tok = SpanToken { text: s.subrange(j, k), start: j, end: k, quoted: false };
        assert forall|m: int| 0 <= m < tok.text.len() implies !is_ws(#[trigger] tok.text[m]) by {
            assert(tok.text[m] == s[j + m]);
        }
        lemma_span_tokens_fit(s, k);
        lemma_spans_prepend(s, j, tok, k, span_tokens(s, k)->0);
    }
}

/// `done` followed by the tokens in `rest`, when there are any.
pub open spec fn prepend_tokens(done: Seq<SpanToken>, rest: Option<Seq<SpanToken>>) -> Option<
    Seq<SpanToken>,
> {
    match rest {
        Some(r) => Some(done + r),
        None => None,
    }
}

/// Tokenizes a command into tokens with their exact character spans in `cmd`.
fn tokenize_with_spans(cmd: &str) -> (r: Option<Vec<CommandToken>>)
    ensures
        match r {
            Some(v) => span_tokens(cmd@, 0) == Some(token_views(v@)),
            None => span_tokens(cmd@, 0) is None,
        },
{
    let chars = chars_of(cmd);
    let ghost s = chars@;
    let len = chars.len();
    let mut tokens: Vec<CommandToken> = Vec::new();
    let mut i: usize = 0;
    assert(token_views(tokens@) + Seq::<SpanToken>::empty() =~= token_views(tokens@));
    while i < len
        invariant
            i <= len == s.len(),
            chars@ == s,
            s == cmd@,
            span_tokens(s, 0) == prepend_tokens(token_views(tokens@), span_tokens(s, i as int)),
        ensures
            span_tokens(s, 0) == Some(token_views(tokens@)),
        decreases len - i, 1int,
    {
        let ghost i0 = i as int;
        proof {
            lemma_skip_ws_bounds(s, i0);
        }
        while i < len && is_whitespace(chars[i])
            invariant
                i0 <= i <= len == s.len(),
                chars@ == s,
                skip_ws(s, i0) == skip_ws(s, i as int),
            decreases len - i,
        {
            i = i + 1;
        }
        if i >= len {
            assert(token_views(tokens@) + Seq::<SpanToken>::empty() =~= token_views(tokens@));
            break;
        }
        assert(skip_ws(s, i as int) == i);
        let start = i;
        if chars[i] == '\'' || chars[i] == '"' {
            let q = chars[i];
            i = i + 1;
            proof {
                lemma_find_char_bounds(s, i as int, q);
            }
            while i < len && chars[i] != q
                invariant
                    start < i <= len == s.len(),
                    chars@ == s,
                    find_char(s, start + 1, q) == find_char(s, i as int, q),
                decreases len - i,
            {
                i = i + 1;
            }
            if i >= len {
                return None;
            }
            let text = string_from_chars(&copy_range(&chars, start + 1, i));
            let end = i + 1;
            let ghost old_tokens = tokens@;
            tokens.push(CommandToken { text, span: (start, end), is_quoted: true });
            proof {
                assert(token_views(tokens@) =~= token_views(old_tokens).push(tokens@.last()@));
                let tok = tokens@.last()@;
                assert(token_views(old_tokens) + (seq![tok] + Seq::<SpanToken>::empty())
                    =~= token_views(tokens@) + Seq::<SpanToken>::empty());
                match span_tokens(s, end as int) {
                    Some(rest) => {
                        assert(token_views(old_tokens) + (seq![tok] + rest) =~= token_views(
                            tokens@,
                        ) + rest);
                    },
                    None => {},
                }
            }
            i = end;
        } else {
            proof {
                lemma_find_ws_bounds(s, i as int);
            }
            while i < len && !is_whitespace(chars[i])
                invariant
                    start <= i <= len == s.len(),
                    chars@ == s,
                    find_ws(s, start as int) == find_ws(s, i as int),
                decreases len - i,
            {
                i = i + 1;
            }
            assert(i > start);
            let text = string_from_chars(&copy_range(&chars, start, i));
            let ghost old_tokens = tokens@;
            tokens.push(CommandToken { text, span: (start, i), is_quoted: false });
            proof {
                assert(token_views(tokens@) =~= token_views(old_tokens).push(tokens@.last()@));
                let tok = tokens@.last()@;
                match span_tokens(s, i as int) {
                    Some(rest) => {
                        assert(token_views(old_tokens) + (seq![tok] + rest) =~= token_views(
                            tokens@,
                        ) + rest);
                    },
                    None => {},
                }
            }
        }
    }
    Some(tokens)
}


// ---------------------------------------------------------------------------
// Path target extraction
// ---------------------------------------------------------------------------

/// Where the path argument of a command stands.
pub enum TargetView {
    Path(SpanToken),
    ImplicitCurrentDir,
    Unsupported,
}

/// The tokens from `i` on that are not flags (do not start with `-`), in order.
pub open spec fn non_flags(toks: Seq<SpanToken>, i: int) -> Seq<SpanToken>
    decreases toks.len() - i,
{
    if i < 0 || i >= toks.len() {
        Seq::empty()
    } else if starts_with(toks[i].text, "-"@) {
        non_flags(toks, i + 1)
    } else {
        seq![toks[i]] + non_flags(toks, i + 1)
    }
}

/// The path argument of a command that takes at most one non-flag argument.
pub open spec fn single_target(toks: Seq<SpanToken>) -> TargetView {
    let nf = non_flags(toks, 1);
    if nf.len() == 1 {
        TargetView::Path(nf[0])
    } else if nf.len() == 0 {
        TargetView::ImplicitCurrentDir
    } else {
        TargetView::Unsupported
    }
}

/// The path argument of the supported command forms: `find <path> ...`, and `ls`, `cd`,
/// `cat`, `head`, `tail` with a single non-flag argument.
pub open spec fn target_of(toks: Seq<SpanToken>) -> TargetView {
    if toks.len() == 0 {
        TargetView::Unsupported
    } else {
        let exe = lowercase(toks[0].text);
        if exe == "find"@ {
            if toks.len() > 1 && !starts_with(toks[1].text, "-"@) {
                TargetView::Path(toks[1])
            } else {
                TargetView::ImplicitCurrentDir
            }
        } else if exe == "ls"@ || exe == "cd"@ || exe == "cat"@ || exe == "head"@ || exe
            == "tail"@ {
            single_target(toks)
        } else {
            TargetView::Unsupported
        }
    }
}

/// An extracted path argument with its span in the command.
#[derive(Debug)]
struct ExtractedPath {
    original_path: String,
    span: (usize, usize),
    is_quoted: bool,
}

/// Outcome of looking for the path argument of a command.
#[derive(Debug)]
enum TargetExtraction {
    Path(ExtractedPath),
    ImplicitCurrentDir,
    Unsupported,
}

impl View for TargetExtraction {
    type V = TargetView;

    closed spec fn view(&self) -> TargetView {
        match self {
            TargetExtraction::Path(p) => TargetView::Path(
                SpanToken {
                    text: p.original_path@,
                    start: p.span.0 as int,
                    end: p.span.1 as int,
                    quoted: p.is_quoted,
                },
            ),
            TargetExtraction::ImplicitCurrentDir => TargetView::ImplicitCurrentDir,
            TargetExtraction::Unsupported => TargetView::Unsupported,
        }
    }
}

fn extracted_from(t: &CommandToken) -> (r: TargetExtraction)
    ensures
        r@ == TargetView::Path(t@),
{
    TargetExtraction::Path(
        ExtractedPath { original_path: t.text.clone(), span: t.span, is_quoted: t.is_quoted },
    )
}

fn is_flag(t: &CommandToken) -> (r: bool)
    ensures
        r == starts_with(t@.text, "-"@),
{
    chars_start_with(&chars_of(t.text.as_str()), &chars_of("-"))
}

/// Identifies the single path argument of the supported command forms.
fn extract_path_target(tokens: &Vec<CommandToken>) -> (r: TargetExtraction)
    ensures
        r@ == target_of(token_views(tokens@)),
{
    let ghost tv = token_views(tokens@);
    if tokens.len() == 0 {
        return TargetExtraction::Unsupported;
    }
    assert(tv[0] == tokens@[0]@);
    let exe = chars_of(to_lowercase(tokens[0].text.as_str()).as_str());
    if chars_eq(&exe, &chars_of("find")) {
        if tokens.len() > 1 && !is_flag(&tokens[1]) {
            assert(tv[1] == tokens@[1]@);
            extracted_from(&tokens[1])
        } else {
            if tokens.len() > 1 {
                assert(tv[1] == tokens@[1]@);
            }
            TargetExtraction::ImplicitCurrentDir
        }
    } else if chars_eq(&exe, &chars_of("ls")) || chars_eq(&exe, &chars_of("cd")) || chars_eq(
        &exe,
        &chars_of("cat"),
    ) || chars_eq(&exe, &chars_of("head")) || chars_eq(&exe, &chars_of("tail")) {
        let n = tokens.len();
        let mut count: usize = 0;
        let mut first: usize = 0;
        let ghost mut acc: Seq<SpanToken> = Seq::empty();
        let mut i: usize = 1;
        assert(target_of(tv) == single_target(tv));
        assert(acc + non_flags(tv, 1) =~= non_flags(tv, 1));
        while i < n
            invariant
                1 <= i <= n == tokens.len(),
                tv == token_views(tokens@),
                count == acc.len(),
                count <= 1,
                target_of(tv) == single_target(tv),
                count > 0 ==> first < n && acc[0] == tv[first as int],
                non_flags(tv, 1) == acc + non_flags(tv, i as int),
            decreases n - i,
        {
            assert(tv[i as int] == tokens@[i as int]@);
            if !is_flag(&tokens[i]) {
                if count == 0 {
                    first = i;
                }
                assert(acc + non_flags(tv, i as int) =~= acc.push(tv[i as int]) + non_flags(
                    tv,
                    i + 1,
                ));
                proof {
                    acc = acc.push(tv[i as int]);
                }
                count = count + 1;
                if count == 2 {
                    assert(non_flags(tv, 1).len() >= 2);
                    return TargetExtraction::Unsupported;
                }
            }
            i = i + 1;
        }
        assert(acc + non_flags(tv, n as int) =~= acc);
        if count == 1 {
            assert(tv[first as int] == tokens@[first as int]@);
            extracted_from(&tokens[first])
        } else {
            TargetExtraction::ImplicitCurrentDir
        }
    } else {
        TargetExtraction::Unsupported
    }
}

// ---------------------------------------------------------------------------
// Rewriting the path argument
// ---------------------------------------------------------------------------

/// `cmd` with the characters `start..end` replaced by `suggested`, which is put in
/// double quotes when it holds a space or the replaced argument was quoted.
pub open spec fn replaced_command(
    cmd: Seq<char>,
    start: int,
    end: int,
    quoted: bool,
    suggested: Seq<char>,
) -> Seq<char> {
    let middle = if has_char(suggested, ' ') || quoted {
        seq!['"'] + suggested + seq!['"']
    } else {
        suggested
    };
    cmd.subrange(0, start) + middle + cmd.subrange(end, cmd.len() as int)
}

fn push_all(out: &mut Vec<char>, src: &Vec<char>)
    ensures
        final(out)@ == old(out)@ + src@,
{
    let mut i: usize = 0;
    let ghost start = out@;
    while i < src.len()
        invariant
            i <= src.len(),
            out@ == start + src@.subrange(0, i as int),
        decreases src.len() - i,
    {
        out.push(src[i]);
        i = i + 1;
        assert(start + src@.subrange(0, i as int) =~= (start + src@.subrange(0, i - 1)).push(
            src@[i - 1],
        ));
    }
    assert(src@.subrange(0, src.len() as int) =~= src@);
}

/// Replaces the path argument at `span` of `original_cmd` with `suggested_path`.
fn replace_path_in_command(
    original_cmd: &str,
    span: (usize, usize),
    was_quoted: bool,
    suggested_path: &str,
) -> (r: String)
    requires
        span.0 <= span.1 <= original_cmd@.len(),
    ensures
        r@ == replaced_command(
            original_cmd@,
            span.0 as int,
            span.1 as int,
            was_quoted,
            suggested_path@,
        ),
{
    let cmd = chars_of(original_cmd);
    let sug = chars_of(suggested_path);
    let mut out = copy_range(&cmd, 0, span.0);
    if chars_have(&sug, ' ') || was_quoted {
        out.push('"');
        push_all(&mut out, &sug);
        out.push('"');
        assert(seq!['"'] + sug@ + seq!['"'] =~= seq!['"'].add(sug@).push('"'));
    } else {
        push_all(&mut out, &sug);
    }
    let tail = copy_range(&cmd, span.1, cmd.len());
    push_all(&mut out, &tail);
    proof {
        if has_char(sug@, ' ') || was_quoted {
            assert(out@ =~= cmd@.subrange(0, span.0 as int) + (seq!['"'] + sug@ + seq!['"'])
                + tail@);
        }
    }
    string_from_chars(&out)
}


// ---------------------------------------------------------------------------
// Resolution results
// ---------------------------------------------------------------------------

/// A validated path correction: the corrected command passed validation on its own.
#[derive(Debug, Clone, PartialEq, Eq)]
pub struct PathSuggestion {
    pub original_path: String,
    pub suggested_path: String,
    pub distance: usize,
    pub validated_plan: ValidatedPlan,
}

/// The outcome of the path resolver on a validated plan.
#[derive(Debug, Clone, PartialEq, Eq)]
pub enum ResolutionResult {
    /// The referenced path exists, or no path argument was present.
    NoCorrectionNeeded,
    /// A single close entry was found and the corrected command passed validation.
    Suggestion(PathSuggestion),
    /// Several entries are equally close.
    Ambiguous { original_path: String, candidates: Vec<String>, distance: usize },
    /// The path does not exist and no entry is close enough.
    NoMatch { original_path: String },
    /// The command is not one of the supported single-path forms.
    UnsupportedCommand,
    /// A correction was found but the corrected command failed validation.
    CorrectionRejected { original_path: String, suggested_path: String, reason: String },
}

/// The abstract content of a [`ResolutionResult`].
pub enum ResolutionView {
    NoCorrectionNeeded,
    Suggestion { original_path: Seq<char>, suggested_path: Seq<char>, distance: nat, plan: PlanView },
    Ambiguous { original_path: Seq<char>, candidates: Seq<Seq<char>>, distance: nat },
    NoMatch { original_path: Seq<char> },
    UnsupportedCommand,
    CorrectionRejected { original_path: Seq<char>, suggested_path: Seq<char>, reason: Seq<char> },
}

impl View for ResolutionResult {
    type V = ResolutionView;

    open spec fn view(&self) -> ResolutionView {
        match self {
            ResolutionResult::NoCorrectionNeeded => ResolutionView::NoCorrectionNeeded,
            ResolutionResult::Suggestion(s) => ResolutionView::Suggestion {
                original_path: s.original_path@,
                suggested_path: s.suggested_path@,
                distance: s.distance as nat,
                plan: s.validated_plan@,
            },
            ResolutionResult::Ambiguous { original_path, candidates, distance } =>
                ResolutionView::Ambiguous {
                original_path: original_path@,
                candidates: string_views(candidates@),
                distance: *distance as nat,
            },
            ResolutionResult::NoMatch { original_path } => ResolutionView::NoMatch {
                original_path: original_path@,
            },
            ResolutionResult::UnsupportedCommand => ResolutionView::UnsupportedCommand,
            ResolutionResult::CorrectionRejected { original_path, suggested_path, reason } =>
                ResolutionView::CorrectionRejected {
                original_path: original_path@,
                suggested_path: suggested_path@,
                reason: reason@,
            },
        }
    }
}

/// The plan that runs after resolution: a suggestion's re-validated plan, nothing when
/// the correction was rejected, and the validated plan itself otherwise.
pub fn plan_after_resolution(validated: &ValidatedPlan, r: &ResolutionResult) -> (p: Option<
    ValidatedPlan,
>)
    ensures
        match r {
            ResolutionResult::Suggestion(s) => p matches Some(v) && v@ == s.validated_plan@,
            ResolutionResult::CorrectionRejected { .. } => p is None,
            _ => p matches Some(v) && v@ == validated@,
        },
{
    match r {
        ResolutionResult::Suggestion(s) => Some(s.validated_plan.clone()),
        ResolutionResult::CorrectionRejected { .. } => None,
        _ => Some(validated.clone()),
    }
}

// ---------------------------------------------------------------------------
// Locating the path argument
// ---------------------------------------------------------------------------

/// `s` without trailing path separators.
pub open spec fn trim_end_seps(s: Seq<char>) -> Seq<char>
    decreases s.len(),
{
    if s.len() > 0 && is_sep_char(s.last()) {
        trim_end_seps(s.drop_last())
    } else {
        s
    }
}

/// Whether `c` separates path segments (`/` or `\`).
pub open spec fn is_sep_char(c: char) -> bool {
    c == '/' || c == '\\'
}

/// The path argument of a command, ready for a filesystem lookup.
#[derive(Debug, Clone, PartialEq, Eq)]
pub struct PathTarget {
    /// The argument, trimmed of whitespace.
    pub original_path: String,
    /// The argument without trailing separators.
    pub clean_path: String,
    /// Whether the argument ends with a separator.
    pub has_trailing_slash: bool,
    /// First character of the argument's token in the command.
    pub start: usize,
    /// One past the last character of the argument's token in the command.
    pub end: usize,
    /// Whether the token was quoted.
    pub is_quoted: bool,
}

/// The abstract content of a [`PathTarget`].
pub struct TargetInfo {
    pub original_path: Seq<char>,
    pub clean_path: Seq<char>,
    pub has_trailing_slash: bool,
    pub start: int,
    pub end: int,
    pub is_quoted: bool,
}

impl View for PathTarget {
    type V = TargetInfo;

    open spec fn view(&self) -> TargetInfo {
        TargetInfo {
            original_path: self.original_path@,
            clean_path: self.clean_path@,
            has_trailing_slash: self.has_trailing_slash,
            start: self.start as int,
            end: self.end as int,
            is_quoted: self.is_quoted,
        }
    }
}

/// Either a final resolution or a path argument that needs a filesystem lookup.
#[derive(Debug, Clone, PartialEq, Eq)]
pub enum PathLookup {
    Resolved(ResolutionResult),
    Target(PathTarget),
}

/// The abstract content of a [`PathLookup`].
pub enum LookupView {
    Resolved(ResolutionView),
    Target(TargetInfo),
}

impl View for PathLookup {
    type V = LookupView;

    open spec fn view(&self) -> LookupView {
        match self {
            PathLookup::Resolved(r) => LookupView::Resolved(r@),
            PathLookup::Target(t) => LookupView::Target(t@),
        }
    }
}

/// The lookup that a command calls for: no correction for a missing or `.` argument,
/// unsupported for other command forms, and otherwise its path argument.
pub open spec fn lookup_of(cmd: Seq<char>) -> LookupView {
    match span_tokens(cmd, 0) {
        None => LookupView::Resolved(ResolutionView::UnsupportedCommand),
        Some(toks) => if toks.len() == 0 {
            LookupView::Resolved(ResolutionView::UnsupportedCommand)
        } else {
            match target_of(toks) {
                TargetView::ImplicitCurrentDir => LookupView::Resolved(
                    ResolutionView::NoCorrectionNeeded,
                ),
                TargetView::Unsupported => LookupView::Resolved(ResolutionView::UnsupportedCommand),
                TargetView::Path(t) => {
                    let original = trim(t.text);
                    if original.len() == 0 || original == "."@ {
                        LookupView::Resolved(ResolutionView::NoCorrectionNeeded)
                    } else {
                        LookupView::Target(
                            TargetInfo {
                                original_path: original,
                                clean_path: trim_end_seps(original),
                                has_trailing_slash: is_sep_char(original.last()),
                                start: t.start,
                                end: t.end,
                                is_quoted: t.quoted,
                            },
                        )
                    }
                },
            }
        },
    }
}

fn trim_end_seps_chars(v: &Vec<char>) -> (r: Vec<char>)
    ensures
        r@ == trim_end_seps(v@),
{
    let mut j = v.len();
    assert(v@.subrange(0, j as int) =~= v@);
    while j > 0 && (v[j - 1] == '/' || v[j - 1] == '\\')
        invariant
            j <= v.len(),
            trim_end_seps(v@) == trim_end_seps(v@.subrange(0, j as int)),
        decreases j,
    {
        let ghost p = v@.subrange(0, j as int);
        assert(p.drop_last() =~= v@.subrange(0, j - 1));
        j = j - 1;
    }
    copy_range(v, 0, j)
}

proof fn lemma_span_bounds(s: Seq<char>, i: int)
    requires
        0 <= i <= s.len(),
        span_tokens(s, i) is Some,
    ensures
        forall|k: int|
            0 <= k < span_tokens(s, i)->0.len() ==> i <= (#[trigger] span_tokens(s, i)->0[k]).start
                <= span_tokens(s, i)->0[k].end <= s.len(),
    decreases s.len() - i, 1int,
{
    let j = skip_ws(s, i);
    lemma_skip_ws_bounds(s, i);
    if j < s.len() {
        lemma_span_at_bounds(s, j);
    }
}

proof fn lemma_span_at_bounds(s: Seq<char>, j: int)
    requires
        0 <= j < s.len(),
        span_tokens_at(s, j) is Some,
    ensures
        forall|k: int|
            0 <= k < span_tokens_at(s, j)->0.len() ==> j <= (#[trigger] span_tokens_at(
                s,
                j,
            )->0[k]).start <= span_tokens_at(s, j)->0[k].end <= s.len(),
    decreases s.len() - j, 0int,
{
    if s[j] == '\'' || s[j] == '"' {
        let k = find_char(s, j + 1, s[j]);
        lemma_find_char_bounds(s, j + 1, s[j]);
        lemma_span_bounds(s, k + 1);
    } else {
        let k = find_ws(s, j);
        lemma_find_ws_bounds(s, j);
        lemma_span_bounds(s, k);
    }
}

/// The path argument a command names is one of its tokens after the first, and no flag.
pub proof fn lemma_target_in_tokens(toks: Seq<SpanToken>)
    ensures
        target_of(toks) matches TargetView::Path(t) ==> toks.contains(t) && (exists|k: int|
            1 <= k < toks.len() && #[trigger] toks[k] == t) && !starts_with(t.text, "-"@),
{
    if toks.len() > 0 {
        let exe = lowercase(toks[0].text);
        if !(exe == "find"@) && (exe == "ls"@ || exe == "cd"@ || exe == "cat"@ || exe == "head"@
            || exe == "tail"@) {
            lemma_non_flags_in(toks, 1);
            let nf = non_flags(toks, 1);
            if nf.len() == 1 {
                assert(nf.contains(nf[0]));
            }
        } else if exe == "find"@ && toks.len() > 1 {
            assert(toks.contains(toks[1]));
        }
    }
}

proof fn lemma_non_flags_in(toks: Seq<SpanToken>, i: int)
    requires
        0 <= i,
    ensures
        forall|t: SpanToken| non_flags(toks, i).contains(t) ==> toks.contains(t),
        forall|t: SpanToken|
            #[trigger] non_flags(toks, i).contains(t) ==> (exists|k: int|
                i <= k < toks.len() && #[trigger] toks[k] == t) && !starts_with(t.text, "-"@),
    decreases toks.len() - i,
{
    if 0 <= i < toks.len() {
        lemma_non_flags_in(toks, i + 1);
        assert forall|t: SpanToken| #[trigger] non_flags(toks, i).contains(t) implies toks.contains(t)
            && (exists|k: int| i <= k < toks.len() && #[trigger] toks[k] == t) && !starts_with(
            t.text,
            "-"@,
        ) by {
            let nf = non_flags(toks, i);
            let j = choose|j: int| 0 <= j < nf.len() && nf[j] == t;
            if !starts_with(toks[i].text, "-"@) {
                if j > 0 {
                    assert(non_flags(toks, i + 1)[j - 1] == t);
                    assert(non_flags(toks, i + 1).contains(t));
                } else {
                    assert(toks[i] == t);
                }
            } else {
                assert(non_flags(toks, i + 1).contains(t));
            }
        }
    }
}

proof fn lemma_non_flags_single(toks: Seq<SpanToken>, k: int, i: int)
    requires
        1 <= i,
        1 <= k < toks.len(),
        !starts_with(toks[k].text, "-"@),
        forall|j: int| 1 <= j < toks.len() && j != k ==> starts_with(#[trigger] toks[j].text, "-"@),
    ensures
        i <= k ==> non_flags(toks, i) == seq![toks[k]],
        i > k ==> non_flags(toks, i) == Seq::<SpanToken>::empty(),
    decreases toks.len() - i,
{
    if i < toks.len() {
        lemma_non_flags_single(toks, k, i + 1);
        if i == k {
            assert(seq![toks[k]] + Seq::<SpanToken>::empty() =~= seq![toks[k]]);
        } else {
            assert(starts_with(toks[i].text, "-"@));
        }
    }
}

/// A command whose first word is `ls`, `cd`, `cat`, `head` or `tail` (in any case) and
/// whose other words are flags but for one names that one word as its path argument: the
/// lookup is for that word, trimmed, with its span and quoting, unless it is empty or `.`,
/// which need no correction.
pub proof fn lemma_single_argument_target(cmd: Seq<char>, toks: Seq<SpanToken>, k: int)
    requires
        span_tokens(cmd, 0) == Some(toks),
        1 <= k < toks.len(),
        lowercase(toks[0].text) == "ls"@ || lowercase(toks[0].text) == "cd"@ || lowercase(
            toks[0].text,
        ) == "cat"@ || lowercase(toks[0].text) == "head"@ || lowercase(toks[0].text) == "tail"@,
        !starts_with(toks[k].text, "-"@),
        forall|j: int| 1 <= j < toks.len() && j != k ==> starts_with(#[trigger] toks[j].text, "-"@),
    ensures
        trim(toks[k].text).len() == 0 || trim(toks[k].text) == "."@ ==> lookup_of(cmd) == LookupView::Resolved(
            ResolutionView::NoCorrectionNeeded,
        ),
        trim(toks[k].text).len() > 0 && trim(toks[k].text) != "."@ ==> (lookup_of(cmd) matches LookupView::Target(t)
            && t.original_path == trim(toks[k].text) && t.start == toks[k].start && t.end
            == toks[k].end && t.is_quoted == toks[k].quoted),
{
    reveal_strlit("find");
    reveal_strlit("ls");
    reveal_strlit("cd");
    reveal_strlit("cat");
    reveal_strlit("head");
    reveal_strlit("tail");
    assert("ls"@.len() != "find"@.len());
    assert("cd"@.len() != "find"@.len());
    assert("cat"@.len() != "find"@.len());
    assert("head"@[0] != "find"@[0]);
    assert("tail"@[0] != "find"@[0]);
    assert(lowercase(toks[0].text) != "find"@);
    lemma_non_flags_single(toks, k, 1);
    assert(target_of(toks) == TargetView::Path(toks[k]));
}

/// A `find` command (in any case) whose second word is no flag names that word as its
/// path argument: the lookup is for that word, trimmed, with its span and quoting, unless
/// it is empty or `.`, which need no correction.
pub proof fn lemma_find_target(cmd: Seq<char>, toks: Seq<SpanToken>)
    requires
        span_tokens(cmd, 0) == Some(toks),
        toks.len() > 1,
        lowercase(toks[0].text) == "find"@,
        !starts_with(toks[1].text, "-"@),
    ensures
        trim(toks[1].text).len() == 0 || trim(toks[1].text) == "."@ ==> lookup_of(cmd) == LookupView::Resolved(
            ResolutionView::NoCorrectionNeeded,
        ),
        trim(toks[1].text).len() > 0 && trim(toks[1].text) != "."@ ==> (lookup_of(cmd) matches LookupView::Target(t)
            && t.original_path == trim(toks[1].text) && t.start == toks[1].start && t.end
            == toks[1].end && t.is_quoted == toks[1].quoted),
{
    assert(target_of(toks) == TargetView::Path(toks[1]));
}

/// Finds the path argument of a validated command, or the resolution that needs no
/// filesystem lookup.
pub fn locate_path_target(plan: &ValidatedPlan) -> (r: PathLookup)
    ensures
        r@ == lookup_of(plan@.command),
        r matches PathLookup::Target(t) ==> t.start <= t.end <= plan@.command.len(),
{
    let cmd = plan.command();
    let tokens = match tokenize_with_spans(cmd) {
        Some(t) => t,
        None => {
            return PathLookup::Resolved(ResolutionResult::UnsupportedCommand);
        },
    };
    if tokens.len() == 0 {
        assert(token_views(tokens@) =~= Seq::<SpanToken>::empty());
        return PathLookup::Resolved(ResolutionResult::UnsupportedCommand);
    }
    proof {
        lemma_span_bounds(cmd@, 0);
        lemma_target_in_tokens(token_views(tokens@));
    }
    let extracted = match extract_path_target(&tokens) {
        TargetExtraction::Path(p) => p,
        TargetExtraction::ImplicitCurrentDir => {
            return PathLookup::Resolved(ResolutionResult::NoCorrectionNeeded);
        },
        TargetExtraction::Unsupported => {
            return PathLookup::Resolved(ResolutionResult::UnsupportedCommand);
        },
    };
    proof {
        let tv = token_views(tokens@);
        let tk = SpanToken {
            text: extracted.original_path@,
            start: extracted.span.0 as int,
            end: extracted.span.1 as int,
            quoted: extracted.is_quoted,
        };
        assert(tv.contains(tk));
        let k = choose|k: int| 0 <= k < tv.len() && tv[k] == tk;
        assert(0 <= tv[k].start <= tv[k].end <= cmd@.len());
    }
    let original = trim_chars(&chars_of(extracted.original_path.as_str()));
    if original.len() == 0 || chars_eq(&original, &chars_of(".")) {
        return PathLookup::Resolved(ResolutionResult::NoCorrectionNeeded);
    }
    let clean = trim_end_seps_chars(&original);
    let last = original[original.len() - 1];
    PathLookup::Target(
        PathTarget {
            original_path: string_from_chars(&original),
            clean_path: string_from_chars(&clean),
            has_trailing_slash: last == '/' || last == '\\',
            start: extracted.span.0,
            end: extracted.span.1,
            is_quoted: extracted.is_quoted,
        },
    )
}

/// The text placed before the chosen entry name in a suggestion: the target's parent
/// directory with a separator, or the `./` (`.\`) the target started with.
pub open spec fn prefix_for(original_path: Seq<char>, parent: Option<Seq<char>>) -> Seq<char> {
    match parent {
        Some(p) => if p.len() > 0 {
            if is_sep_char(p.last()) {
                p
            } else {
                p.push('/')
            }
        } else {
            default_prefix(original_path)
        },
        None => default_prefix(original_path),
    }
}

/// `./` or `.\` when the target starts with it, otherwise nothing.
pub open spec fn default_prefix(original_path: Seq<char>) -> Seq<char> {
    if starts_with(original_path, "./"@) {
        "./"@
    } else if starts_with(original_path, ".\\"@) {
        ".\\"@
    } else {
        Seq::empty()
    }
}

/// Computes the prefix of a suggested path from the target's parent directory, as the
/// filesystem layer reports it (`None` when the target has no parent).
pub fn parent_prefix(original_path: &str, parent: Option<&str>) -> (r: String)
    ensures
        r@ == prefix_for(original_path@, match parent {
            Some(p) => Some(p@),
            None => None,
        }),
{
    match parent {
        Some(p) => {
            let pv = chars_of(p);
            if pv.len() > 0 {
                let last = pv[pv.len() - 1];
                let mut prefix = string_from_chars(&pv);
                if !(last == '/' || last == '\\') {
                    prefix.push('/');
                }
                return prefix;
            }
        },
        None => {},
    }
    let ov = chars_of(original_path);
    if chars_start_with(&ov, &chars_of("./")) {
        String::from_str("./")
    } else if chars_start_with(&ov, &chars_of(".\\")) {
        String::from_str(".\\")
    } else {
        String::new()
    }
}

/// A single plain path component: not empty, without `/`, `\\` or `:`, and neither `.`
/// nor `..`. Every platform reads such a path as one relative component.
pub open spec fn plain_component(p: Seq<char>) -> bool {
    &&& p.len() > 0
    &&& !has_char(p, '/')
    &&& !has_char(p, '\\')
    &&& !has_char(p, ':')
    &&& p != "."@
    &&& p != ".."@
}

/// The position of the last `/` in `p`, or -1 when it has none.
pub open spec fn last_slash(p: Seq<char>) -> int
    decreases p.len(),
{
    if p.len() == 0 {
        -1
    } else if p.last() == '/' {
        p.len() - 1
    } else {
        last_slash(p.drop_last())
    }
}

/// Plain components joined by single `/`.
pub open spec fn plain_path(p: Seq<char>) -> bool
    decreases p.len(),
{
    let k = last_slash(p);
    if k < 0 || k >= p.len() {
        plain_component(p)
    } else {
        plain_component(p.skip(k + 1)) && plain_path(p.take(k))
    }
}

/// A path that every platform splits at its last `/`: plain components joined by single
/// `/`, possibly after a leading `./`.
pub open spec fn split_path(p: Seq<char>) -> bool {
    plain_path(p) || (starts_with(p, "./"@) && plain_path(p.skip(2)))
}

/// The text before the last `/` of `p`, empty when it has none.
pub open spec fn dir_part(p: Seq<char>) -> Seq<char> {
    if last_slash(p) < 0 {
        Seq::empty()
    } else {
        p.take(last_slash(p))
    }
}

/// The text after the last `/` of `p`, all of `p` when it has none.
pub open spec fn name_part(p: Seq<char>) -> Seq<char> {
    p.skip(last_slash(p) + 1)
}

/// A path that no platform reads as absolute: it is not empty, does not start with `/`
/// or `\\`, and holds no drive `:`.
pub open spec fn surely_relative(p: Seq<char>) -> bool {
    p.len() > 0 && p[0] != '/' && p[0] != '\\' && !has_char(p, ':')
}

/// Whether `p` is an absolute path, with `Path::is_absolute`.
///
/// Trusted. Which paths are absolute depends on the platform; what holds on every one
/// is stated: a path that starts with no separator and holds no drive colon is not
/// absolute (Unix needs a leading `/`, Windows a prefix, which begins with `\\` or holds
/// a `:`).
#[verifier::external_body]
fn is_absolute_path(p: &str) -> (r: bool)
    ensures
        surely_relative(p@) ==> !r,
{
    std::path::Path::new(p).is_absolute()
}

/// The final component of `p`, with `Path::file_name`.
///
/// Trusted. How a path splits into components depends on the platform; what holds on
/// every one is stated: a final component is a non-empty piece of `p` without `/`, and
/// a path of plain components joined by `/` (possibly after `./`) ends in the component
/// after its last `/`, since every platform separates components with `/`.
#[verifier::external_body]
fn file_name_of(p: &str) -> (r: Option<String>)
    ensures
        r is Some ==> r->0@.len() > 0 && contains_seq(p@, r->0@) && !has_char(r->0@, '/'),
        split_path(p@) ==> r is Some && r->0@ == name_part(p@),
{
    match std::path::Path::new(p).file_name() {
        Some(n) => Some(n.to_string_lossy().into_owned()),
        None => None,
    }
}

/// `p` without its final component, with `Path::parent`.
///
/// Trusted. How a path splits into components depends on the platform; what holds on
/// every one is stated: a parent is a prefix of `p`, and a path of plain components
/// joined by `/` (possibly after `./`) has the text before its last `/` as parent (the
/// empty text for a single component), since every platform separates components with
/// `/`.
#[verifier::external_body]
fn parent_of(p: &str) -> (r: Option<String>)
    ensures
        r is Some ==> starts_with(p@, r->0@),
        split_path(p@) ==> r is Some && r->0@ == dir_part(p@),
{
    match std::path::Path::new(p).parent() {
        Some(d) => Some(d.to_string_lossy().into_owned()),
        None => None,
    }
}

/// The view of an optional string.
pub open spec fn opt_view(o: Option<String>) -> Option<Seq<char>> {
    match o {
        Some(s) => Some(s@),
        None => None,
    }
}

/// A path argument with the facts about it that the filesystem layer needs.
#[derive(Debug, Clone, PartialEq, Eq)]
pub struct PathQuery {
    /// The path argument.
    pub target: PathTarget,
    /// Whether the argument is an absolute path on this platform.
    pub is_absolute: bool,
    /// The final component of the argument without trailing separators.
    pub file_name: Option<String>,
    /// The directory part of the argument without trailing separators.
    pub parent: Option<String>,
    /// The text placed before an entry name in a suggestion, from `parent`.
    pub prefix: String,
}

/// Either a final resolution or a query for the filesystem layer.
#[derive(Debug, Clone, PartialEq, Eq)]
pub enum PathRequest {
    Resolved(ResolutionResult),
    Query(PathQuery),
}

/// What a validated plan asks of the filesystem: nothing when [`lookup_of`] resolves
/// it, else its path argument, split into directory and final component by the
/// platform's path rules, with the prefix that suggestions in that directory take. The
/// split is stated as far as it holds on every platform.
pub fn path_request(plan: &ValidatedPlan) -> (r: PathRequest)
    ensures
        match r {
            PathRequest::Resolved(res) => lookup_of(plan@.command) == LookupView::Resolved(res@),
            PathRequest::Query(q) => {
                &&& lookup_of(plan@.command) == LookupView::Target(q.target@)
                &&& q.target.start <= q.target.end <= plan@.command.len()
                &&& q.prefix@ == prefix_for(q.target@.original_path, opt_view(q.parent))
                &&& q.file_name matches Some(n) ==> n@.len() > 0 && contains_seq(
                    q.target.clean_path@,
                    n@,
                ) && !has_char(n@, '/')
                &&& q.parent matches Some(d) ==> starts_with(q.target.clean_path@, d@)
                &&& split_path(q.target.clean_path@) ==> (q.file_name matches Some(n) && n@
                    == name_part(q.target.clean_path@)) && (q.parent matches Some(d) && d@
                    == dir_part(q.target.clean_path@))
                &&& surely_relative(q.target.original_path@) ==> !q.is_absolute
            },
        },
{
    match locate_path_target(plan) {
        PathLookup::Resolved(res) => PathRequest::Resolved(res),
        PathLookup::Target(target) => {
            let is_absolute = is_absolute_path(target.original_path.as_str());
            let file_name = file_name_of(target.clean_path.as_str());
            let parent = parent_of(target.clean_path.as_str());
            let prefix = match &parent {
                Some(d) => parent_prefix(target.original_path.as_str(), Some(d.as_str())),
                None => parent_prefix(target.original_path.as_str(), None),
            };
            PathRequest::Query(PathQuery { target, is_absolute, file_name, parent, prefix })
        },
    }
}

/// The resolution a query gets from what the filesystem reports before any directory
/// listing is scanned: an absolute path is resolved by whether it exists; a path with no
/// final component, or whose directory is not one, has no match; a path that exists
/// needs no correction when an entry carries its name with exact casing (or when its
/// directory cannot be read); anything else needs the listing.
pub open spec fn filesystem_verdict_of(
    q: PathQuery,
    exists: bool,
    search_dir_is_dir: bool,
    names: Option<Seq<Seq<char>>>,
) -> Option<ResolutionView> {
    let original = q.target.original_path@;
    if q.is_absolute {
        if exists {
            Some(ResolutionView::NoCorrectionNeeded)
        } else {
            Some(ResolutionView::NoMatch { original_path: original })
        }
    } else {
        match q.file_name {
            None => Some(ResolutionView::NoMatch { original_path: original }),
            Some(name) => if !search_dir_is_dir {
                Some(ResolutionView::NoMatch { original_path: original })
            } else if exists {
                match names {
                    None => Some(ResolutionView::NoCorrectionNeeded),
                    Some(ns) => if ns.contains(name@) {
                        Some(ResolutionView::NoCorrectionNeeded)
                    } else {
                        None
                    },
                }
            } else {
                None
            },
        }
    }
}

/// Settles a query from what the filesystem reports, when no listing is needed:
/// `exists` tells whether the argument exists, `search_dir_is_dir` whether its
/// directory is one, and `names` the names in that directory (`None` when it cannot
/// be read).
pub fn filesystem_verdict(
    q: &PathQuery,
    exists: bool,
    search_dir_is_dir: bool,
    names: Option<&Vec<String>>,
) -> (r: Option<ResolutionResult>)
    ensures
        match r {
            Some(res) => filesystem_verdict_of(*q, exists, search_dir_is_dir, match names {
                Some(ns) => Some(string_views(ns@)),
                None => None,
            }) == Some(res@),
            None => filesystem_verdict_of(*q, exists, search_dir_is_dir, match names {
                Some(ns) => Some(string_views(ns@)),
                None => None,
            }) is None,
        },
{
    let original = q.target.original_path.clone();
    if q.is_absolute {
        if exists {
            return Some(ResolutionResult::NoCorrectionNeeded);
        }
        return Some(ResolutionResult::NoMatch { original_path: original });
    }
    match &q.file_name {
        None => Some(ResolutionResult::NoMatch { original_path: original }),
        Some(name) => {
            if !search_dir_is_dir {
                Some(ResolutionResult::NoMatch { original_path: original })
            } else if exists {
                match names {
                    None => Some(ResolutionResult::NoCorrectionNeeded),
                    Some(ns) => {
                        let found = has_exact_entry(ns, name.as_str());
                        proof {
                            if found {
                                let i = choose|i: int| 0 <= i < ns@.len() && #[trigger] ns@[i]@ == name@;
                                assert(string_views(ns@)[i] == name@);
                            } else {
                                assert forall|i: int| 0 <= i < string_views(ns@).len() implies string_views(ns@)[i] != name@ by {
                                    assert(string_views(ns@)[i] == ns@[i]@);
                                }
                            }
                        }
                        if found {
                            Some(ResolutionResult::NoCorrectionNeeded)
                        } else {
                            None
                        }
                    },
                }
            } else {
                None
            }
        },
    }
}

/// Whether some entry of a directory listing is named exactly `name`.
pub fn has_exact_entry(names: &Vec<String>, name: &str) -> (r: bool)
    ensures
        r == exists|i: int| 0 <= i < names@.len() && #[trigger] names@[i]@ == name@,
{
    let target = chars_of(name);
    let mut i: usize = 0;
    while i < names.len()
        invariant
            i <= names.len(),
            target@ == name@,
            forall|k: int| 0 <= k < i ==> #[trigger] names@[k]@ != name@,
        decreases names.len() - i,
    {
        if chars_eq(&chars_of(names[i].as_str()), &target) {
            return true;
        }
        i = i + 1;
    }
    false
}

// ---------------------------------------------------------------------------
// Choosing a correction
// ---------------------------------------------------------------------------

/// A directory entry as the filesystem layer reports it.
#[derive(Debug, Clone, PartialEq, Eq)]
pub struct DirEntryInfo {
    pub name: String,
    pub is_dir: bool,
}

/// The abstract content of a [`DirEntryInfo`].
pub struct EntryView {
    pub name: Seq<char>,
    pub is_dir: bool,
}

impl View for DirEntryInfo {
    type V = EntryView;

    open spec fn view(&self) -> EntryView {
        EntryView { name: self.name@, is_dir: self.is_dir }
    }
}

/// The views of a sequence of directory listing results (`None` for an unreadable entry).
pub open spec fn entry_views(v: Seq<Option<DirEntryInfo>>) -> Seq<Option<EntryView>> {
    v.map_values(
        |e: Option<DirEntryInfo>|
            match e {
                Some(d) => Some(d@),
                None => None,
            },
    )
}

/// An entry close enough to the target to be a candidate correction.
pub struct CandidateView {
    pub name: Seq<char>,
    pub is_dir: bool,
    pub distance: nat,
}

/// The largest distance accepted for a target name of `len` characters.
pub open spec fn threshold(len: nat) -> nat {
    if len <= 2 {
        1
    } else if len / 3 >= 2 {
        len / 3
    } else {
        2
    }
}

/// Whether an entry is hidden while the target is not.
pub open spec fn hidden_skipped(name: Seq<char>, target: Seq<char>) -> bool {
    starts_with(name, "."@) && !starts_with(target, "."@)
}

/// The candidate an entry gives, if any: a readable, not hidden entry at a distance
/// between one and the threshold.
pub open spec fn candidate_of(e: Option<EntryView>, target: Seq<char>, thr: nat) -> Option<
    CandidateView,
> {
    match e {
        None => None,
        Some(ev) => if hidden_skipped(ev.name, target) {
            None
        } else {
            let d = path_distance(target, ev.name);
            if 0 < d && d <= thr {
                Some(CandidateView { name: ev.name, is_dir: ev.is_dir, distance: d })
            } else {
                None
            }
        },
    }
}

/// The candidates among `entries`, in order.
pub open spec fn candidates_in(entries: Seq<Option<EntryView>>, target: Seq<char>, thr: nat) -> Seq<
    CandidateView,
>
    decreases entries.len(),
{
    if entries.len() == 0 {
        Seq::empty()
    } else {
        let prev = candidates_in(entries.drop_last(), target, thr);
        match candidate_of(entries.last(), target, thr) {
            Some(c) => prev.push(c),
            None => prev,
        }
    }
}

/// The smallest distance among candidates.
pub open spec fn min_distance(c: Seq<CandidateView>) -> nat
    decreases c.len(),
{
    if c.len() == 0 {
        0
    } else if c.len() == 1 {
        c[0].distance
    } else {
        let m = min_distance(c.drop_last());
        if c.last().distance < m {
            c.last().distance
        } else {
            m
        }
    }
}

/// The candidates at distance `m`, in order.
pub open spec fn at_distance(c: Seq<CandidateView>, m: nat) -> Seq<CandidateView>
    decreases c.len(),
{
    if c.len() == 0 {
        Seq::empty()
    } else {
        let p = at_distance(c.drop_last(), m);
        if c.last().distance == m {
            p.push(c.last())
        } else {
            p
        }
    }
}

/// The names of candidates.
pub open spec fn candidate_names(c: Seq<CandidateView>) -> Seq<Seq<char>> {
    c.map_values(|x: CandidateView| x.name)
}

/// The suggested path for a chosen entry: the prefix and the entry name, with a final
/// `/` when the target had a trailing separator or named a directory with a final `/`.
pub open spec fn suggested_path_for(
    prefix: Seq<char>,
    name: Seq<char>,
    is_dir: bool,
    original: Seq<char>,
    has_trailing_slash: bool,
) -> Seq<char> {
    let s = prefix + name;
    if (has_trailing_slash || (is_dir && ends_with(original, "/"@))) && !ends_with(s, "/"@) {
        s.push('/')
    } else {
        s
    }
}

/// The explanation of a corrected plan.
pub open spec fn corrected_explanation(
    explanation: Seq<char>,
    original: Seq<char>,
    suggested: Seq<char>,
) -> Seq<char> {
    explanation + " (suggested path correction from '"@ + original + "' to '"@ + suggested
        + "')"@
}

/// The entries of a listing that are scanned: at most the first
/// `MAX_DIRECTORY_ENTRIES`.
pub open spec fn scanned_entries(entries: Seq<Option<EntryView>>) -> Seq<Option<EntryView>> {
    if entries.len() <= MAX_DIRECTORY_ENTRIES {
        entries
    } else {
        entries.subrange(0, MAX_DIRECTORY_ENTRIES as int)
    }
}

/// The candidate corrections among the scanned entries of a listing, in order.
pub open spec fn scanned_candidates(target_name: Seq<char>, entries: Seq<Option<EntryView>>) -> Seq<
    CandidateView,
> {
    candidates_in(scanned_entries(entries), target_name, threshold(target_name.len()))
}

/// The resolution for a path target given its entry name, the prefix of suggestions,
/// and the listing of the directory it should be in (of which at most
/// `MAX_DIRECTORY_ENTRIES` are scanned).
pub open spec fn correction_for(
    plan: PlanView,
    t: TargetInfo,
    target_name: Seq<char>,
    prefix: Seq<char>,
    entries: Seq<Option<EntryView>>,
) -> ResolutionView {
    let cands = scanned_candidates(target_name, entries);
    if cands.len() == 0 {
        ResolutionView::NoMatch { original_path: t.original_path }
    } else {
        let m = min_distance(cands);
        let best = at_distance(cands, m);
        if best.len() > 1 {
            ResolutionView::Ambiguous {
                original_path: t.original_path,
                candidates: sorted_seqs(candidate_names(best)),
                distance: m,
            }
        } else {
            let chosen = best[0];
            let sug = suggested_path_for(
                prefix,
                chosen.name,
                chosen.is_dir,
                t.original_path,
                t.has_trailing_slash,
            );
            let cmd = replaced_command(plan.command, t.start, t.end, t.is_quoted, sug);
            match policy_verdict(cmd) {
                None => ResolutionView::Suggestion {
                    original_path: t.original_path,
                    suggested_path: sug,
                    distance: m,
                    plan: PlanView {
                        command: cmd,
                        explanation: corrected_explanation(plan.explanation, t.original_path, sug),
                        source: plan.source,
                    },
                },
                Some(e) => ResolutionView::CorrectionRejected {
                    original_path: t.original_path,
                    suggested_path: sug,
                    reason: rejection_message(e),
                },
            }
        }
    }
}

/// The resolution of a validated plan given the facts a filesystem lookup reports.
pub open spec fn resolution_of(
    plan: PlanView,
    target_name: Seq<char>,
    prefix: Seq<char>,
    entries: Seq<Option<EntryView>>,
) -> ResolutionView {
    match lookup_of(plan.command) {
        LookupView::Resolved(r) => r,
        LookupView::Target(t) => correction_for(plan, t, target_name, prefix, entries),
    }
}


/// A candidate correction found in a directory listing.
struct Candidate {
    name: Vec<char>,
    is_dir: bool,
    distance: usize,
}

impl View for Candidate {
    type V = CandidateView;

    closed spec fn view(&self) -> CandidateView {
        CandidateView { name: self.name@, is_dir: self.is_dir, distance: self.distance as nat }
    }
}

spec fn cand_views(v: Seq<Candidate>) -> Seq<CandidateView> {
    v.map_values(|c: Candidate| c@)
}

proof fn lemma_min_attained(c: Seq<CandidateView>)
    requires
        c.len() > 0,
    ensures
        exists|k: int| 0 <= k < c.len() && c[k].distance == min_distance(c),
    decreases c.len(),
{
    if c.len() == 1 {
        assert(c[0].distance == min_distance(c));
    } else {
        lemma_min_attained(c.drop_last());
        if c.last().distance < min_distance(c.drop_last()) {
            assert(c[c.len() - 1].distance == min_distance(c));
        } else {
            let k = choose|k: int|
                0 <= k < c.drop_last().len() && c.drop_last()[k].distance == min_distance(
                    c.drop_last(),
                );
            assert(c[k].distance == min_distance(c));
        }
    }
}

proof fn lemma_at_distance_nonempty(c: Seq<CandidateView>, m: nat, k: int)
    requires
        0 <= k < c.len(),
        c[k].distance == m,
    ensures
        at_distance(c, m).len() > 0,
    decreases c.len(),
{
    if k < c.len() - 1 {
        lemma_at_distance_nonempty(c.drop_last(), m, k);
    }
}

proof fn lemma_min_le(c: Seq<CandidateView>)
    ensures
        forall|k: int| 0 <= k < c.len() ==> min_distance(c) <= (#[trigger] c[k]).distance,
    decreases c.len(),
{
    if c.len() > 1 {
        lemma_min_le(c.drop_last());
        assert forall|k: int| 0 <= k < c.len() implies min_distance(c) <= (#[trigger] c[k]).distance by {
            if k < c.len() - 1 {
                assert(c[k] == c.drop_last()[k]);
            }
        }
    }
}

proof fn lemma_at_distance_all(c: Seq<CandidateView>, m: nat)
    ensures
        forall|k: int| 0 <= k < at_distance(c, m).len() ==> (#[trigger] at_distance(c, m)[k]).distance == m,
        forall|k: int| 0 <= k < c.len() && (#[trigger] c[k]).distance == m ==> at_distance(c, m).contains(c[k]),
    decreases c.len(),
{
    if c.len() > 0 {
        let p = c.drop_last();
        lemma_at_distance_all(p, m);
        let a = at_distance(p, m);
        assert forall|k: int| 0 <= k < at_distance(c, m).len() implies (#[trigger] at_distance(c, m)[k]).distance == m by {
            if k < a.len() {
                assert(at_distance(c, m)[k] == a[k]);
            }
        }
        assert forall|k: int| 0 <= k < c.len() && (#[trigger] c[k]).distance == m implies at_distance(c, m).contains(c[k]) by {
            if k < c.len() - 1 {
                assert(c[k] == p[k]);
                let j = choose|j: int| 0 <= j < a.len() && a[j] == p[k];
                assert(at_distance(c, m)[j] == a[j]);
            } else {
                assert(at_distance(c, m).last() == c[k]);
            }
        }
    }
}

proof fn lemma_candidates_in(entries: Seq<Option<EntryView>>, target: Seq<char>, thr: nat)
    ensures
        forall|k: int| 0 <= k < candidates_in(entries, target, thr).len() ==> 0 < (
        #[trigger] candidates_in(entries, target, thr)[k]).distance <= thr,
        forall|i: int|
            0 <= i < entries.len() && (#[trigger] candidate_of(entries[i], target, thr)) is Some
                ==> candidates_in(entries, target, thr).contains(candidate_of(entries[i], target, thr)->0),
    decreases entries.len(),
{
    if entries.len() > 0 {
        let p = entries.drop_last();
        lemma_candidates_in(p, target, thr);
        let prev = candidates_in(p, target, thr);
        let cur = candidates_in(entries, target, thr);
        assert forall|k: int| 0 <= k < cur.len() implies 0 < (#[trigger] cur[k]).distance <= thr by {
            if k < prev.len() {
                assert(cur[k] == prev[k]);
            }
        }
        assert forall|i: int|
            0 <= i < entries.len() && (#[trigger] candidate_of(entries[i], target, thr)) is Some implies cur.contains(
            candidate_of(entries[i], target, thr)->0,
        ) by {
            if i < entries.len() - 1 {
                assert(entries[i] == p[i]);
                let j = choose|j: int| 0 <= j < prev.len() && prev[j] == candidate_of(p[i], target, thr)->0;
                assert(cur[j] == prev[j]);
            } else {
                assert(cur.last() == candidate_of(entries[i], target, thr)->0);
            }
        }
    }
}

/// How the closest entries decide a correction: a suggestion or a tie reports the
/// least distance of any candidate among the scanned entries (at most the first
/// `MAX_DIRECTORY_ENTRIES`; a candidate is a readable, not hidden entry within the
/// threshold), which lies within the threshold; a tie reports every candidate at that
/// distance, at least two, in ascending order; and no candidate at all means no match.
pub proof fn lemma_closest_entries(
    plan: PlanView,
    target_name: Seq<char>,
    prefix: Seq<char>,
    entries: Seq<Option<EntryView>>,
)
    ensures
        resolution_of(plan, target_name, prefix, entries) matches ResolutionView::Ambiguous {
            candidates,
            distance,
            ..
        } ==> {
            &&& candidates.len() > 1
            &&& is_sorted_seqs(candidates)
            &&& candidates.to_multiset() == candidate_names(
                at_distance(scanned_candidates(target_name, entries), distance),
            ).to_multiset()
            &&& 0 < distance <= threshold(target_name.len())
            &&& forall|k: int|
                0 <= k < scanned_candidates(target_name, entries).len() ==> distance <= (
                #[trigger] scanned_candidates(target_name, entries)[k]).distance
        },
        resolution_of(plan, target_name, prefix, entries) matches ResolutionView::Suggestion {
            distance,
            ..
        } ==> {
            &&& 0 < distance <= threshold(target_name.len())
            &&& forall|k: int|
                0 <= k < scanned_candidates(target_name, entries).len() ==> distance <= (
                #[trigger] scanned_candidates(target_name, entries)[k]).distance
            &&& at_distance(scanned_candidates(target_name, entries), distance).len() == 1
        },
        lookup_of(plan.command) is Target ==> (resolution_of(plan, target_name, prefix, entries) is NoMatch
            <==> scanned_candidates(target_name, entries).len() == 0),
        forall|i: int|
            0 <= i < scanned_entries(entries).len() && (#[trigger] candidate_of(
                scanned_entries(entries)[i],
                target_name,
                threshold(target_name.len()),
            )) is Some ==> scanned_candidates(target_name, entries).contains(
                candidate_of(scanned_entries(entries)[i], target_name, threshold(target_name.len()))->0,
            ),
{
    let cands = scanned_candidates(target_name, entries);
    let thr = threshold(target_name.len());
    lemma_candidates_in(scanned_entries(entries), target_name, thr);
    lemma_min_le(cands);
    if cands.len() > 0 {
        lemma_min_attained(cands);
        let m = min_distance(cands);
        let k = choose|k: int| 0 <= k < cands.len() && cands[k].distance == m;
        assert(0 < cands[k].distance <= thr);
        lemma_at_distance_all(cands, m);
        lemma_at_distance_nonempty(cands, m, k);
        lemma_sorted_seqs(candidate_names(at_distance(cands, m)));
    }
    match lookup_of(plan.command) {
        LookupView::Resolved(r) => {
            assert(r is NoCorrectionNeeded || r is UnsupportedCommand);
        },
        LookupView::Target(t) => {
            assert(resolution_of(plan, target_name, prefix, entries) == correction_for(
                plan,
                t,
                target_name,
                prefix,
                entries,
            ));
        },
    }
}

fn clone_chars(v: &Vec<char>) -> (r: Vec<char>)
    ensures
        r@ == v@,
{
    let r = copy_range(v, 0, v.len());
    assert(r@ =~= v@);
    r
}

/// Chooses the correction for the path argument of a validated plan, given the name of
/// the entry it targets, the prefix of suggestions (see [`parent_prefix`]), and the
/// listing of the directory it should be in.
///
/// At most `MAX_DIRECTORY_ENTRIES` entries are scanned. A unique closest entry within
/// the threshold gives a suggestion whose corrected command is validated from scratch.
pub fn choose_correction(
    plan: &ValidatedPlan,
    target_name: &str,
    parent_prefix: &str,
    entries: &Vec<Option<DirEntryInfo>>,
) -> (r: ResolutionResult)
    ensures
        r@ == resolution_of(plan@, target_name@, parent_prefix@, entry_views(entries@)),
{
    let target = match locate_path_target(plan) {
        PathLookup::Resolved(r) => {
            return r;
        },
        PathLookup::Target(t) => t,
    };
    let ghost ti = target@;
    let tname = chars_of(target_name);
    let tl = tname.len();
    let thr: usize = if tl <= 2 {
        1
    } else if tl / 3 >= 2 {
        tl / 3
    } else {
        2
    };
    assert(thr == threshold(target_name@.len()));
    let ghost ev = entry_views(entries@);
    let limit = if entries.len() <= MAX_DIRECTORY_ENTRIES {
        entries.len()
    } else {
        MAX_DIRECTORY_ENTRIES
    };
    let ghost scanned = if entries.len() <= MAX_DIRECTORY_ENTRIES {
        ev
    } else {
        ev.subrange(0, MAX_DIRECTORY_ENTRIES as int)
    };
    assert(scanned.len() == limit);
    let dot = chars_of(".");
    let target_hidden = chars_start_with(&tname, &dot);
    let mut cands: Vec<Candidate> = Vec::new();
    let mut i: usize = 0;
    assert(scanned.subrange(0, 0) =~= Seq::<Option<EntryView>>::empty());
    assert(cand_views(cands@) =~= Seq::<CandidateView>::empty());
    while i < limit
        invariant
            i <= limit <= entries.len(),
            scanned.len() == limit,
            ev == entry_views(entries@),
            forall|k: int| 0 <= k < limit ==> scanned[k] == ev[k],
            tname@ == target_name@,
            dot@ == "."@,
            target_hidden == starts_with(target_name@, "."@),
            thr == threshold(target_name@.len()),
            cand_views(cands@) == candidates_in(
                scanned.subrange(0, i as int),
                target_name@,
                thr as nat,
            ),
        decreases limit - i,
    {
        let ghost pre = scanned.subrange(0, i + 1);
        assert(pre.drop_last() =~= scanned.subrange(0, i as int));
        assert(pre.last() == ev[i as int]);
        match &entries[i] {
            None => {},
            Some(e) => {
                let name = chars_of(e.name.as_str());
                if !(chars_start_with(&name, &dot) && !target_hidden) {
                    let d = path_edit_distance(target_name, e.name.as_str());
                    if d > 0 && d <= thr {
                        let ghost old_c = cands@;
                        cands.push(Candidate { name, is_dir: e.is_dir, distance: d });
                        assert(cand_views(cands@) =~= cand_views(old_c).push(cands@.last()@));
                    }
                }
            },
        }
        i = i + 1;
    }
    let ghost cv = cand_views(cands@);
    assert(scanned.subrange(0, limit as int) =~= scanned);
    if cands.len() == 0 {
        return ResolutionResult::NoMatch { original_path: target.original_path };
    }
    let n = cands.len();
    let mut m = cands[0].distance;
    let mut j: usize = 1;
    assert(cv.subrange(0, 1).len() == 1);
    while j < n
        invariant
            1 <= j <= n == cands.len(),
            cv == cand_views(cands@),
            m == min_distance(cv.subrange(0, j as int)),
        decreases n - j,
    {
        let ghost pre = cv.subrange(0, j + 1);
        assert(pre.drop_last() =~= cv.subrange(0, j as int));
        assert(pre.last() == cands@[j as int]@);
        if cands[j].distance < m {
            m = cands[j].distance;
        }
        j = j + 1;
    }
    assert(cv.subrange(0, n as int) =~= cv);
    let mut best: Vec<Candidate> = Vec::new();
    let mut k: usize = 0;
    assert(cv.subrange(0, 0) =~= Seq::<CandidateView>::empty());
    assert(cand_views(best@) =~= Seq::<CandidateView>::empty());
    while k < n
        invariant
            k <= n == cands.len(),
            cv == cand_views(cands@),
            cand_views(best@) == at_distance(cv.subrange(0, k as int), m as nat),
        decreases n - k,
    {
        let ghost pre = cv.subrange(0, k + 1);
        assert(pre.drop_last() =~= cv.subrange(0, k as int));
        assert(pre.last() == cands@[k as int]@);
        if cands[k].distance == m {
            let ghost old_b = best@;
            best.push(
                Candidate {
                    name: clone_chars(&cands[k].name),
                    is_dir: cands[k].is_dir,
                    distance: cands[k].distance,
                },
            );
            assert(cand_views(best@) =~= cand_views(old_b).push(cands@[k as int]@));
        }
        k = k + 1;
    }
    assert(cv.subrange(0, n as int) =~= cv);
    proof {
        lemma_min_attained(cv);
        let w = choose|w: int| 0 <= w < cv.len() && cv[w].distance == min_distance(cv);
        lemma_at_distance_nonempty(cv, m as nat, w);
    }
    if best.len() > 1 {
        let mut names: Vec<Vec<char>> = Vec::new();
        let mut q: usize = 0;
        while q < best.len()
            invariant
                q <= best.len(),
                char_views(names@) =~= candidate_names(cand_views(best@)).subrange(0, q as int),
            decreases best.len() - q,
        {
            let ghost old_names = names@;
            names.push(clone_chars(&best[q].name));
            assert(candidate_names(cand_views(best@))[q as int] == best@[q as int].name@);
            assert(char_views(names@) =~= char_views(old_names).push(best@[q as int].name@));
            assert(candidate_names(cand_views(best@)).subrange(0, q + 1) =~= candidate_names(
                cand_views(best@),
            ).subrange(0, q as int).push(best@[q as int].name@));
            q = q + 1;
        }
        assert(candidate_names(cand_views(best@)).subrange(0, best.len() as int)
            =~= candidate_names(cand_views(best@)));
        let sorted = sort_chars(&names);
        return ResolutionResult::Ambiguous {
            original_path: target.original_path,
            candidates: strings_of(sorted),
            distance: m,
        };
    }
    let chosen = &best[0];
    assert(cand_views(best@)[0] == chosen@);
    let mut sug = chars_of(parent_prefix);
    push_all(&mut sug, &chosen.name);
    let slash = chars_of("/");
    let orig_chars = chars_of(target.original_path.as_str());
    if (target.has_trailing_slash || (chosen.is_dir && chars_end_with(&orig_chars, &slash)))
        && !chars_end_with(&sug, &slash) {
        sug.push('/');
    }
    let suggested_path = string_from_chars(&sug);
    let corrected = replace_path_in_command(
        plan.command(),
        (target.start, target.end),
        target.is_quoted,
        suggested_path.as_str(),
    );
    let mut explanation = String::from_str(plan.explanation());
    explanation.append(" (suggested path correction from '");
    explanation.append(target.original_path.as_str());
    explanation.append("' to '");
    explanation.append(suggested_path.as_str());
    explanation.append("')");
    let corrected_plan = CommandPlan {
        command: corrected,
        explanation,
        source: *plan.source(),
    };
    match validate(corrected_plan) {
        Ok(validated_plan) => ResolutionResult::Suggestion(
            PathSuggestion {
                original_path: target.original_path,
                suggested_path,
                distance: m,
                validated_plan,
            },
        ),
        Err(sec_err) => ResolutionResult::CorrectionRejected {
            original_path: target.original_path,
            suggested_path,
            reason: sec_err.message(),
        },
    }
}

} // verus!
