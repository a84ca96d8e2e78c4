//! Command plans and the deterministic Tier-1 intent engine.
use vstd::prelude::*;

use vstd::utf8::is_ascii_chars;

use crate::text::{
    ascii_lower_char, char_views, chars_eq, chars_of, is_whitespace, is_ws, lowercase,
    string_from_chars, to_lowercase,
};

verus! {

/// The engine that produced a command plan.
#[derive(Debug, Clone, Copy, PartialEq, Eq, Structural)]
pub enum CommandSource {
    Tier1,
    Ollama,
}

/// The display label of a source.
pub open spec fn source_label(s: CommandSource) -> Seq<char> {
    match s {
        CommandSource::Tier1 => "Tier-1"@,
        CommandSource::Ollama => "Ollama"@,
    }
}

impl CommandSource {
    /// The display label of this source: `Tier-1` or `Ollama`.
    pub fn label(&self) -> (r: &'static str)
        ensures
            r@ == source_label(*self),
    {
        match self {
            CommandSource::Tier1 => "Tier-1",
            CommandSource::Ollama => "Ollama",
        }
    }
}

/// The abstract content of a command plan.
pub struct PlanView {
    pub command: Seq<char>,
    pub explanation: Seq<char>,
    pub source: CommandSource,
}

/// A generated shell command held as inert, untrusted data.
#[derive(Debug, PartialEq, Eq)]
pub struct CommandPlan {
    /// The generated shell command.
    pub command: String,
    /// Human-readable explanation of the intent.
    pub explanation: String,
    /// The engine that produced the command.
    pub source: CommandSource,
}

impl View for CommandPlan {
    type V = PlanView;

    open spec fn view(&self) -> PlanView {
        PlanView { command: self.command@, explanation: self.explanation@, source: self.source }
    }
}

impl Clone for CommandPlan {
    fn clone(&self) -> (r: Self)
        ensures
            r@ == self@,
    {
        CommandPlan {
            command: self.command.clone(),
            explanation: self.explanation.clone(),
            source: self.source,
        }
    }
}

impl CommandPlan {
    /// Creates a plan holding exactly the given command, explanation and source.
    pub fn new(command: &str, explanation: &str, source: CommandSource) -> (r: Self)
        ensures
            r.command@ == command@,
            r.explanation@ == explanation@,
            r.source == source,
    {
        CommandPlan {
            command: String::from_str(command),
            explanation: String::from_str(explanation),
            source,
        }
    }
}


// ---------------------------------------------------------------------------
// Normalization
// ---------------------------------------------------------------------------

/// The state of the word splitter after a prefix of its input.
pub struct WordState {
    pub words: Seq<Seq<char>>,
    pub current: Seq<char>,
}

/// One step of the word splitter: whitespace ends a word, anything else extends it.
pub open spec fn word_step(st: WordState, c: char) -> WordState {
    if is_ws(c) {
        if st.current.len() > 0 {
            WordState { words: st.words.push(st.current), current: Seq::empty() }
        } else {
            st
        }
    } else {
        WordState { words: st.words, current: st.current.push(c) }
    }
}

/// The word splitter's state after reading `s`.
pub open spec fn word_run(s: Seq<char>) -> WordState
    decreases s.len(),
{
    if s.len() == 0 {
        WordState { words: Seq::empty(), current: Seq::empty() }
    } else {
        word_step(word_run(s.drop_last()), s.last())
    }
}

/// The maximal runs of non-whitespace characters of `s`, as `str::split_whitespace`
/// yields them.
pub open spec fn words(s: Seq<char>) -> Seq<Seq<char>> {
    let st = word_run(s);
    if st.current.len() > 0 {
        st.words.push(st.current)
    } else {
        st.words
    }
}

/// `ws` joined with single spaces.
pub open spec fn join_words(ws: Seq<Seq<char>>) -> Seq<char>
    decreases ws.len(),
{
    if ws.len() == 0 {
        Seq::empty()
    } else if ws.len() == 1 {
        ws[0]
    } else {
        join_words(ws.drop_last()) + seq![' '] + ws.last()
    }
}

/// A request with its whitespace collapsed to single spaces, trimmed, and lower-cased.
pub open spec fn normalized(s: Seq<char>) -> Seq<char> {
    lowercase(join_words(words(s)))
}

/// Whether `w` is a word: not empty, and without whitespace.
pub open spec fn is_word(w: Seq<char>) -> bool {
    w.len() > 0 && forall|i: int| 0 <= i < w.len() ==> !is_ws(#[trigger] w[i])
}

/// The word splitter's state after reading `q` from state `st`.
spec fn word_fold(st: WordState, q: Seq<char>) -> WordState
    decreases q.len(),
{
    if q.len() == 0 {
        st
    } else {
        word_step(word_fold(st, q.drop_last()), q.last())
    }
}

proof fn lemma_word_run_append(p: Seq<char>, q: Seq<char>)
    ensures
        word_run(p + q) == word_fold(word_run(p), q),
    decreases q.len(),
{
    if q.len() == 0 {
        assert(p + q =~= p);
    } else {
        assert((p + q).drop_last() =~= p + q.drop_last());
        assert((p + q).last() == q.last());
        lemma_word_run_append(p, q.drop_last());
    }
}

proof fn lemma_word_fold_word(st: WordState, w: Seq<char>)
    requires
        forall|i: int| 0 <= i < w.len() ==> !is_ws(#[trigger] w[i]),
    ensures
        word_fold(st, w) == (WordState { words: st.words, current: st.current + w }),
    decreases w.len(),
{
    if w.len() == 0 {
        assert(st.current + w =~= st.current);
    } else {
        let p = w.drop_last();
        assert forall|i: int| 0 <= i < p.len() implies !is_ws(#[trigger] p[i]) by {
            assert(p[i] == w[i]);
        }
        lemma_word_fold_word(st, p);
        assert((st.current + p).push(w.last()) =~= st.current + w);
    }
}

/// The state after reading words joined with single spaces: all but the last word
/// finished, the last one open.
proof fn lemma_word_run_joined(ws: Seq<Seq<char>>)
    requires
        ws.len() > 0,
        forall|k: int| 0 <= k < ws.len() ==> is_word(#[trigger] ws[k]),
    ensures
        word_run(join_words(ws)) == (WordState { words: ws.drop_last(), current: ws.last() }),
    decreases ws.len(),
{
    let w = ws.last();
    assert(is_word(w));
    let e = WordState { words: Seq::empty(), current: Seq::empty() };
    if ws.len() == 1 {
        lemma_word_run_append(Seq::empty(), w);
        assert(Seq::<char>::empty() + w =~= w);
        lemma_word_fold_word(e, w);
        assert(ws.drop_last() =~= Seq::<Seq<char>>::empty());
    } else {
        let prev = ws.drop_last();
        assert forall|k: int| 0 <= k < prev.len() implies is_word(#[trigger] prev[k]) by {
            assert(prev[k] == ws[k]);
        }
        lemma_word_run_joined(prev);
        let j = join_words(prev);
        lemma_word_run_append(j, seq![' '] + w);
        assert(j + seq![' '] + w =~= j + (seq![' '] + w));
        let a = word_run(j);
        assert(is_word(prev.last()));
        reveal_with_fuel(word_fold, 2);
        assert(seq![' '].drop_last() =~= Seq::<char>::empty());
        lemma_word_fold_append(a, seq![' '], w);
        let b = word_fold(a, seq![' ']);
        assert(b == (WordState { words: prev, current: Seq::empty() })) by {
            assert(prev.drop_last().push(prev.last()) =~= prev);
        }
        lemma_word_fold_word(b, w);
        assert(Seq::<char>::empty() + w =~= w);
    }
}

proof fn lemma_word_fold_append(st: WordState, p: Seq<char>, q: Seq<char>)
    ensures
        word_fold(st, p + q) == word_fold(word_fold(st, p), q),
    decreases q.len(),
{
    if q.len() == 0 {
        assert(p + q =~= p);
    } else {
        assert((p + q).drop_last() =~= p + q.drop_last());
        assert((p + q).last() == q.last());
        lemma_word_fold_append(st, p, q.drop_last());
    }
}

/// Splitting words joined with single spaces gives the words back.
pub proof fn lemma_words_of_joined(ws: Seq<Seq<char>>)
    requires
        forall|k: int| 0 <= k < ws.len() ==> is_word(#[trigger] ws[k]),
    ensures
        words(join_words(ws)) == ws,
{
    if ws.len() > 0 {
        lemma_word_run_joined(ws);
        assert(is_word(ws.last()));
        assert(ws.drop_last().push(ws.last()) =~= ws);
    }
}

/// Every piece the word splitter produces is a word, and the open piece has no
/// whitespace.
proof fn lemma_word_run_words(s: Seq<char>)
    ensures
        forall|k: int| 0 <= k < word_run(s).words.len() ==> is_word(#[trigger] word_run(s).words[k]),
        forall|i: int| 0 <= i < word_run(s).current.len() ==> !is_ws(#[trigger] word_run(s).current[i]),
    decreases s.len(),
{
    if s.len() > 0 {
        lemma_word_run_words(s.drop_last());
        let st = word_run(s.drop_last());
        let nx = word_run(s);
        assert forall|k: int| 0 <= k < nx.words.len() implies is_word(#[trigger] nx.words[k]) by {
            if k < st.words.len() {
                assert(nx.words[k] == st.words[k]);
            } else {
                assert(nx.words[k] == st.current);
            }
        }
        assert forall|i: int| 0 <= i < nx.current.len() implies !is_ws(#[trigger] nx.current[i]) by {
            if i < st.current.len() && nx.current.len() > 0 {
                assert(nx.current[i] == st.current[i]);
            }
        }
    }
}

/// The words of any text are words in the sense of [`is_word`].
pub proof fn lemma_words_are_words(s: Seq<char>)
    ensures
        forall|k: int| 0 <= k < words(s).len() ==> is_word(#[trigger] words(s)[k]),
{
    lemma_word_run_words(s);
    let st = word_run(s);
    assert forall|k: int| 0 <= k < words(s).len() implies is_word(#[trigger] words(s)[k]) by {
        if k < st.words.len() {
            assert(words(s)[k] == st.words[k]);
        }
    }
}

proof fn lemma_join_last(ws: Seq<Seq<char>>)
    requires
        ws.len() > 0,
        forall|k: int| 0 <= k < ws.len() ==> is_word(#[trigger] ws[k]),
    ensures
        join_words(ws).len() > 0,
        join_words(ws)[0] == ws[0][0],
        join_words(ws).last() == ws.last().last(),
    decreases ws.len(),
{
    assert(is_word(ws.last()));
    assert(is_word(ws[0]));
    if ws.len() > 1 {
        let prev = ws.drop_last();
        assert forall|k: int| 0 <= k < prev.len() implies is_word(#[trigger] prev[k]) by {
            assert(prev[k] == ws[k]);
        }
        lemma_join_last(prev);
    }
}

/// Words joined with single spaces hold whitespace only as single spaces between two
/// other characters.
proof fn lemma_join_spacing(ws: Seq<Seq<char>>)
    requires
        forall|k: int| 0 <= k < ws.len() ==> is_word(#[trigger] ws[k]),
    ensures
        forall|i: int| 0 <= i < join_words(ws).len() && is_ws(#[trigger] join_words(ws)[i]) ==> {
            &&& join_words(ws)[i] == ' '
            &&& 0 < i < join_words(ws).len() - 1
            &&& !is_ws(join_words(ws)[i - 1])
            &&& !is_ws(join_words(ws)[i + 1])
        },
    decreases ws.len(),
{
    if ws.len() == 1 {
        assert(is_word(ws[0]));
    } else if ws.len() > 1 {
        let prev = ws.drop_last();
        assert forall|k: int| 0 <= k < prev.len() implies is_word(#[trigger] prev[k]) by {
            assert(prev[k] == ws[k]);
        }
        lemma_join_spacing(prev);
        lemma_join_last(prev);
        let j = join_words(prev);
        let w = ws.last();
        assert(is_word(w));
        let c = join_words(ws);
        assert(c == j + seq![' '] + w);
        assert forall|i: int| 0 <= i < c.len() && is_ws(#[trigger] c[i]) implies {
            &&& c[i] == ' '
            &&& 0 < i < c.len() - 1
            &&& !is_ws(c[i - 1])
            &&& !is_ws(c[i + 1])
        } by {
            if i < j.len() {
                assert(c[i] == j[i]);
                assert(c[i - 1] == j[i - 1]);
                assert(c[i + 1] == j[i + 1]);
            } else if i == j.len() {
                assert(c[i - 1] == j.last());
                assert(c[i + 1] == w[0]);
            } else {
                assert(c[i] == w[i - j.len() - 1]);
            }
        }
    }
}

/// Collapsing the whitespace of a request keeps its words, and leaves whitespace only
/// as single spaces between words, none at either end.
pub proof fn lemma_collapse_whitespace(s: Seq<char>)
    ensures
        words(join_words(words(s))) == words(s),
        forall|i: int| 0 <= i < join_words(words(s)).len() && is_ws(#[trigger] join_words(words(s))[i]) ==> {
            &&& join_words(words(s))[i] == ' '
            &&& 0 < i < join_words(words(s)).len() - 1
            &&& !is_ws(join_words(words(s))[i - 1])
            &&& !is_ws(join_words(words(s))[i + 1])
        },
{
    lemma_words_are_words(s);
    lemma_words_of_joined(words(s));
    lemma_join_spacing(words(s));
}

/// The ASCII lower-casing of every word.
spec fn lower_words(ws: Seq<Seq<char>>) -> Seq<Seq<char>> {
    ws.map_values(|w: Seq<char>| lowercase(w))
}

proof fn lemma_lower_ascii_char(c: char)
    requires
        '\0' <= c <= '\u{7f}',
    ensures
        '\0' <= ascii_lower_char(c) <= '\u{7f}',
        is_ws(ascii_lower_char(c)) == is_ws(c),
        ascii_lower_char(ascii_lower_char(c)) == ascii_lower_char(c),
{
}

proof fn lemma_lowercase_ascii_push(s: Seq<char>, c: char)
    requires
        is_ascii_chars(s.push(c)),
    ensures
        is_ascii_chars(s),
        lowercase(s.push(c)) == lowercase(s).push(ascii_lower_char(c)),
{
    let t = s.push(c);
    assert forall|i: int| 0 <= i < s.len() implies '\0' <= #[trigger] s[i] <= '\u{7f}' by {
        assert(t[i] == s[i]);
    }
    assert(t[s.len() as int] == c);
    assert(lowercase(t) =~= lowercase(s).push(ascii_lower_char(c)));
}

/// On ASCII text, the word splitter commutes with lower-casing.
proof fn lemma_word_run_lower(s: Seq<char>)
    requires
        is_ascii_chars(s),
    ensures
        word_run(lowercase(s)).words == lower_words(word_run(s).words),
        word_run(lowercase(s)).current == lowercase(word_run(s).current),
        forall|k: int| 0 <= k < word_run(s).words.len() ==> is_ascii_chars(#[trigger] word_run(s).words[k]),
        is_ascii_chars(word_run(s).current),
    decreases s.len(),
{
    if s.len() == 0 {
        assert(lowercase(s) =~= s);
        assert(lower_words(Seq::empty()) =~= Seq::<Seq<char>>::empty());
        assert(lowercase(Seq::<char>::empty()) =~= Seq::<char>::empty());
    } else {
        let p = s.drop_last();
        let c = s.last();
        assert(p.push(c) =~= s);
        lemma_lowercase_ascii_push(p, c);
        lemma_word_run_lower(p);
        lemma_lower_ascii_char(c);
        let lp = lowercase(p);
        assert(lowercase(s).drop_last() =~= lp);
        assert(lowercase(s).last() == ascii_lower_char(c));
        let st = word_run(p);
        if is_ws(c) {
            if st.current.len() > 0 {
                assert(lowercase(st.current).len() == st.current.len());
                assert(lower_words(st.words.push(st.current)) =~= lower_words(st.words).push(
                    lowercase(st.current),
                ));
            }
            assert(lowercase(Seq::<char>::empty()) =~= Seq::<char>::empty());
        } else {
            assert(st.current.push(c) == st.current.push(c));
            assert forall|i: int| 0 <= i < st.current.push(c).len() implies '\0' <= #[trigger] st.current.push(c)[i] <= '\u{7f}' by {
                if i < st.current.len() {
                    assert(st.current.push(c)[i] == st.current[i]);
                }
            }
            lemma_lowercase_ascii_push(st.current, c);
        }
        let nx = word_run(s);
        assert forall|k: int| 0 <= k < nx.words.len() implies is_ascii_chars(#[trigger] nx.words[k]) by {
            if k < st.words.len() {
                assert(nx.words[k] == st.words[k]);
            }
        }
    }
}

proof fn lemma_join_lower(ws: Seq<Seq<char>>)
    requires
        forall|k: int| 0 <= k < ws.len() ==> is_ascii_chars(#[trigger] ws[k]),
    ensures
        is_ascii_chars(join_words(ws)),
        join_words(lower_words(ws)) == lowercase(join_words(ws)),
    decreases ws.len(),
{
    if ws.len() == 0 {
        assert(lowercase(Seq::<char>::empty()) =~= Seq::<char>::empty());
    } else if ws.len() == 1 {
        assert(is_ascii_chars(ws[0]));
    } else {
        let prev = ws.drop_last();
        let w = ws.last();
        assert(is_ascii_chars(w));
        assert forall|k: int| 0 <= k < prev.len() implies is_ascii_chars(#[trigger] prev[k]) by {
            assert(prev[k] == ws[k]);
        }
        lemma_join_lower(prev);
        let j = join_words(prev);
        let c = j + seq![' '] + w;
        assert forall|i: int| 0 <= i < c.len() implies '\0' <= #[trigger] c[i] <= '\u{7f}' by {
            if i < j.len() {
                assert(c[i] == j[i]);
            } else if i > j.len() {
                assert(c[i] == w[i - j.len() - 1]);
            }
        }
        assert(lower_words(ws).drop_last() =~= lower_words(prev));
        assert(lowercase(c) =~= lowercase(j) + seq![' '] + lowercase(w));
    }
}

proof fn lemma_lowercase_twice(s: Seq<char>)
    requires
        is_ascii_chars(s),
    ensures
        is_ascii_chars(lowercase(s)),
        lowercase(lowercase(s)) == lowercase(s),
{
    let l = lowercase(s);
    assert forall|i: int| 0 <= i < l.len() implies '\0' <= #[trigger] l[i] <= '\u{7f}' by {
        lemma_lower_ascii_char(s[i]);
    }
    assert forall|i: int| 0 <= i < l.len() implies #[trigger] lowercase(l)[i] == l[i] by {
        lemma_lower_ascii_char(s[i]);
    }
    assert(lowercase(l) =~= l);
}

/// Normalizing an ASCII request twice gives what normalizing once gives, and keeps the
/// number of words.
pub proof fn lemma_normalized_ascii(s: Seq<char>)
    requires
        is_ascii_chars(s),
    ensures
        normalized(normalized(s)) == normalized(s),
        words(normalized(s)).len() == words(s).len(),
{
    let ws = words(s);
    let c = join_words(ws);
    lemma_word_run_lower(s);
    let st = word_run(s);
    assert forall|k: int| 0 <= k < ws.len() implies is_ascii_chars(#[trigger] ws[k]) by {
        if k < st.words.len() {
            assert(ws[k] == st.words[k]);
        }
    }
    lemma_join_lower(ws);
    lemma_collapse_whitespace(s);
    let n = lowercase(c);
    assert(normalized(s) == n);
    lemma_word_run_lower(c);
    let stc = word_run(c);
    assert(words(n) == lower_words(words(c))) by {
        if stc.current.len() > 0 {
            assert(lowercase(stc.current).len() > 0);
            assert(lower_words(stc.words.push(stc.current)) =~= lower_words(stc.words).push(
                lowercase(stc.current),
            ));
        } else {
            assert(lowercase(stc.current).len() == 0);
        }
    }
    assert(words(c) == ws);
    lemma_lowercase_twice(c);
    assert(normalized(n) == lowercase(join_words(lower_words(ws))));
}

fn split_words(s: &Vec<char>) -> (r: Vec<Vec<char>>)
    ensures
        char_views(r@) == words(s@),
{
    let mut ws: Vec<Vec<char>> = Vec::new();
    let mut current: Vec<char> = Vec::new();
    let n = s.len();
    let mut i: usize = 0;
    assert(s@.subrange(0, 0) =~= Seq::<char>::empty());
    assert(char_views(ws@) =~= Seq::<Seq<char>>::empty());
    while i < n
        invariant
            i <= n == s.len(),
            word_run(s@.subrange(0, i as int)) == (WordState {
                words: char_views(ws@),
                current: current@,
            }),
        decreases n - i,
    {
        let c = s[i];
        let ghost pre = s@.subrange(0, i + 1);
        assert(pre.drop_last() =~= s@.subrange(0, i as int));
        assert(pre.last() == c);
        if is_whitespace(c) {
            if current.len() > 0 {
                let ghost old_ws = ws@;
                ws.push(current);
                current = Vec::new();
                assert(char_views(ws@) =~= char_views(old_ws).push(char_views(ws@).last()));
            }
        } else {
            current.push(c);
        }
        i = i + 1;
    }
    assert(s@.subrange(0, n as int) =~= s@);
    if current.len() > 0 {
        let ghost old_ws = ws@;
        ws.push(current);
        assert(char_views(ws@) =~= char_views(old_ws).push(char_views(ws@).last()));
    }
    ws
}

pub(crate) fn join_with_spaces(ws: &Vec<Vec<char>>) -> (r: Vec<char>)
    ensures
        r@ == join_words(char_views(ws@)),
{
    let mut out: Vec<char> = Vec::new();
    let mut i: usize = 0;
    assert(char_views(ws@).subrange(0, 0) =~= Seq::<Seq<char>>::empty());
    while i < ws.len()
        invariant
            i <= ws.len(),
            out@ == join_words(char_views(ws@).subrange(0, i as int)),
        decreases ws.len() - i,
    {
        let ghost pre = char_views(ws@).subrange(0, i + 1);
        assert(pre.drop_last() =~= char_views(ws@).subrange(0, i as int));
        assert(pre.last() == ws@[i as int]@);
        let ghost before = out@;
        if i > 0 {
            out.push(' ');
        }
        let w = &ws[i];
        let mut k: usize = 0;
        let ghost base = out@;
        while k < w.len()
            invariant
                k <= w.len(),
                out@ == base + w@.subrange(0, k as int),
            decreases w.len() - k,
        {
            out.push(w[k]);
            k = k + 1;
            assert(base + w@.subrange(0, k as int) =~= (base + w@.subrange(0, k - 1)).push(
                w@[k - 1],
            ));
        }
        assert(w@.subrange(0, w.len() as int) =~= w@);
        if i == 0 {
            assert(out@ =~= w@);
        } else {
            assert(out@ =~= before + seq![' '] + w@);
        }
        i = i + 1;
    }
    assert(char_views(ws@).subrange(0, ws.len() as int) =~= char_views(ws@));
    out
}

/// Normalizes a natural-language request: whitespace runs collapse to single spaces,
/// the ends are trimmed, and the text is lower-cased.
pub fn normalize_request(input: &str) -> (r: String)
    ensures
        r@ == normalized(input@),
{
    let ws = split_words(&chars_of(input));
    let joined = string_from_chars(&join_with_spaces(&ws));
    to_lowercase(joined.as_str())
}

// ---------------------------------------------------------------------------
// Tier-1 intents
// ---------------------------------------------------------------------------

/// The Tier-1 plan for a normalized request, if the request is one of the known phrasings.
pub open spec fn intent_for(n: Seq<char>) -> Option<PlanView> {
    if n == "list files"@ || n == "show files"@ || n == "list all files"@ {
        Some(PlanView { command: "ls"@, explanation: "List files"@, source: CommandSource::Tier1 })
    } else if n == "show git status"@ || n == "check git status"@ || n == "git status"@ {
        Some(
            PlanView {
                command: "git status"@,
                explanation: "Git status"@,
                source: CommandSource::Tier1,
            },
        )
    } else if n == "find pdf files"@ || n == "find all pdf files"@ || n == "search for pdf files"@ {
        Some(
            PlanView {
                command: "find . -type f -name '*.pdf'"@,
                explanation: "Find PDF files"@,
                source: CommandSource::Tier1,
            },
        )
    } else if n == "find python files"@ || n == "find all python files"@ || n
        == "search for python files"@ {
        Some(
            PlanView {
                command: "find . -type f -name '*.py'"@,
                explanation: "Find Python files"@,
                source: CommandSource::Tier1,
            },
        )
    } else {
        None
    }
}

fn is_phrase(n: &Vec<char>, phrase: &str) -> (r: bool)
    ensures
        r == (n@ == phrase@),
{
    chars_eq(n, &chars_of(phrase))
}

/// Matches a request against the Tier-1 phrasings, after normalization.
pub fn match_intent(raw_request: &str) -> (r: Option<CommandPlan>)
    ensures
        match r {
            Some(p) => intent_for(normalized(raw_request@)) == Some(p@),
            None => intent_for(normalized(raw_request@)) is None,
        },
{
    let normalized = normalize_request(raw_request);
    let n = chars_of(normalized.as_str());
    if is_phrase(&n, "list files") || is_phrase(&n, "show files") || is_phrase(&n, "list all files") {
        Some(CommandPlan::new("ls", "List files", CommandSource::Tier1))
    } else if is_phrase(&n, "show git status") || is_phrase(&n, "check git status") || is_phrase(
        &n,
        "git status",
    ) {
        Some(CommandPlan::new("git status", "Git status", CommandSource::Tier1))
    } else if is_phrase(&n, "find pdf files") || is_phrase(&n, "find all pdf files") || is_phrase(
        &n,
        "search for pdf files",
    ) {
        Some(CommandPlan::new("find . -type f -name '*.pdf'", "Find PDF files", CommandSource::Tier1))
    } else if is_phrase(&n, "find python files") || is_phrase(&n, "find all python files")
        || is_phrase(&n, "search for python files") {
        Some(
            CommandPlan::new("find . -type f -name '*.py'", "Find Python files", CommandSource::Tier1),
        )
    } else {
        None
    }
}

} // verus!
