//! Fish 4.x path detection: which arguments of a command resolve to existing
//! files, so that exported `paths:` blocks match what fish itself records.
//!
//! The decisions are made here; whether a candidate path exists on disk is
//! asked of the caller, which passes the candidate paths that exist. Paths under
//! network or FUSE mounts are recorded without that question, since a dead
//! mount would stall the export.
use vstd::prelude::*;
use crate::lexer::{Token, TokenView, LexContext, token_views, tokens_of};
use crate::path::{joined, lies_under, char_views};
use crate::text::words;

pub use crate::lexer::tokenize;
pub use crate::path::normalize_lexically;

verus! {

pub open spec fn string_views(v: Seq<String>) -> Seq<Seq<char>> {
    v.map_values(|s: String| s@)
}

pub open spec fn is_ascii_digit(c: char) -> bool {
    '0' <= c && c <= '9'
}

/// The first index at or after `k` that does not hold an ASCII digit.
pub open spec fn digits_end(s: Seq<char>, k: int) -> int
    decreases s.len() - k,
{
    if k >= s.len() {
        s.len() as int
    } else if !is_ascii_digit(s[k]) {
        k
    } else {
        digits_end(s, k + 1)
    }
}

/// The index of the redirect operator (`>`, `<` or `^`) after an optional file
/// descriptor number, if the word starts a redirect.
pub open spec fn redirect_op_at(raw: Seq<char>) -> Option<int> {
    let i = digits_end(raw, 0);
    if 0 <= i < raw.len() && (raw[i] == '>' || raw[i] == '<' || raw[i] == '^') {
        Some(i)
    } else {
        None
    }
}

/// `&` followed by one or more ASCII digits: a redirect to another descriptor.
pub open spec fn is_fd_target(rest: Seq<char>) -> bool {
    &&& rest.len() >= 2
    &&& rest[0] == '&'
    &&& forall|j: int| 1 <= j < rest.len() ==> is_ascii_digit(#[trigger] rest[j])
}

/// A redirect that carries its own target (`>|`, `N>|`, `N>&M`) and so does
/// not consume the next word.
pub open spec fn is_self_contained(raw: Seq<char>) -> bool {
    match redirect_op_at(raw) {
        Some(op) => {
            let rest = raw.subrange(op + 1, raw.len() as int);
            rest == seq!['|'] || is_fd_target(rest)
        },
        None => false,
    }
}

/// The word `t` redirects to the word that follows it.
pub open spec fn takes_target(t: TokenView) -> bool {
    !t.is_sep && redirect_op_at(t.raw) is Some && !is_self_contained(t.raw)
}

/// The tokens with redirect operators and their targets marked.
pub open spec fn classified(toks: Seq<TokenView>) -> Seq<TokenView> {
    Seq::new(
        toks.len(),
        |j: int|
            TokenView {
                is_redirect: toks[j].is_redirect || (!toks[j].is_sep && redirect_op_at(
                    toks[j].raw,
                ) is Some),
                is_redirect_target: toks[j].is_redirect_target || (j > 0 && takes_target(
                    toks[j - 1],
                ) && !toks[j].is_sep),
                ..toks[j]
            },
    )
}

pub open spec fn word_exec() -> Seq<char> {
    seq!['e', 'x', 'e', 'c']
}

pub open spec fn word_command() -> Seq<char> {
    seq!['c', 'o', 'm', 'm', 'a', 'n', 'd']
}

/// Commands for which fish skips file detection entirely: they exit or do not
/// operate on file paths, and fish saves them synchronously.
pub open spec fn is_sync_write_command(w: Seq<char>) -> bool {
    ||| w == seq!['e', 'c', 'h', 'o']
    ||| w == seq!['e', 'x', 'i', 't']
    ||| w == seq!['r', 'e', 'b', 'o', 'o', 't']
    ||| w == seq!['r', 'e', 's', 't', 'a', 'r', 't']
}

/// A word that may precede a statement's command word: a redirect, a redirect
/// target, or the `command` decoration.
pub open spec fn is_decoration(t: TokenView) -> bool {
    t.is_redirect || t.is_redirect_target || t.raw == word_command()
}

/// Whether, before token `k`, the statement that token `k` belongs to has had
/// its command word.
pub open spec fn after_command_word(toks: Seq<TokenView>, k: int) -> bool
    decreases k,
{
    if k <= 0 || k > toks.len() {
        false
    } else if toks[k - 1].is_sep {
        false
    } else {
        after_command_word(toks, k - 1) || !is_decoration(toks[k - 1])
    }
}

/// Token `k` is the command word of its statement: the statement's first word
/// that is not a separator, a redirect, a redirect target or a `command`
/// decoration.
pub open spec fn is_command_word(toks: Seq<TokenView>, k: int) -> bool {
    &&& 0 <= k < toks.len()
    &&& !toks[k].is_sep
    &&& !is_decoration(toks[k])
    &&& !after_command_word(toks, k)
}

/// A command word that makes fish skip detection: `exec`, or a word that
/// expands to `echo`, `exit`, `reboot` or `restart`.
pub open spec fn skips_statement(t: TokenView) -> bool {
    t.raw == word_exec() || is_sync_write_command(t.expanded)
}

/// fish skips file detection for the whole pipeline if the command word of
/// some statement would exit, is `echo`, or is `exec`.
pub open spec fn detection_skipped(toks: Seq<TokenView>) -> bool {
    exists|k: int| #[trigger] is_command_word(toks, k) && skips_statement(toks[k])
}

/// A word that fish checks for a path: not a separator, redirect, redirect
/// target or command substitution, not an option, and with a non-empty value.
pub open spec fn eligible(t: TokenView) -> bool {
    &&& !t.is_sep
    &&& !t.is_redirect
    &&& !t.is_redirect_target
    &&& !t.has_cmdsubst
    &&& t.raw.len() > 0
    &&& t.raw[0] != '-'
    &&& t.expanded.len() > 0
}

/// The path a word's value names, resolved against the directory the command ran in.
pub open spec fn candidate_path(cwd: Seq<char>, expanded: Seq<char>) -> Seq<char> {
    if expanded.len() > 0 && expanded[0] == '/' {
        expanded
    } else {
        joined(cwd, expanded)
    }
}

/// `path` lies under one of `mounts`.
pub open spec fn under_some_mount(path: Seq<char>, mounts: Seq<String>) -> bool {
    exists|i: int| 0 <= i < mounts.len() && lies_under(path, #[trigger] mounts[i]@)
}

/// A word that may be recorded as a path.
pub struct Candidate {
    pub raw: Seq<char>,
    pub path: Seq<char>,
    pub under_unreliable_mount: bool,
}

/// Token `k` is an argument that fish checks for a path: an eligible word that
/// comes after the command word of its statement.
pub open spec fn is_path_argument(toks: Seq<TokenView>, k: int) -> bool {
    eligible(toks[k]) && after_command_word(toks, k)
}

/// The candidates among `toks` (its path arguments), in order.
pub open spec fn candidates_from(toks: Seq<TokenView>, cwd: Seq<char>, mounts: Seq<String>) -> Seq<
    Candidate,
>
    decreases toks.len(),
{
    if toks.len() == 0 {
        Seq::empty()
    } else {
        let rest = candidates_from(toks.drop_last(), cwd, mounts);
        let t = toks.last();
        if is_path_argument(toks, toks.len() - 1) {
            let p = candidate_path(cwd, t.expanded);
            rest.push(
                Candidate { raw: t.raw, path: p, under_unreliable_mount: under_some_mount(p, mounts) },
            )
        } else {
            rest
        }
    }
}

/// The tokens of `command`, with redirects classified.
pub open spec fn command_tokens(
    command: Seq<char>,
    cwd: Seq<char>,
    home: Seq<char>,
    env: Seq<(String, String)>,
) -> Seq<TokenView> {
    classified(tokens_of(command, LexContext { cwd, home, env }))
}

/// The arguments of `command` that fish would record if they name an existing
/// file (never a statement's command word): none if the command skips detection.
pub open spec fn candidates_of(
    command: Seq<char>,
    cwd: Seq<char>,
    home: Seq<char>,
    mounts: Seq<String>,
    env: Seq<(String, String)>,
) -> Seq<Candidate> {
    let toks = command_tokens(command, cwd, home, env);
    if detection_skipped(toks) {
        Seq::empty()
    } else {
        candidates_from(toks, cwd, mounts)
    }
}

/// A candidate is recorded if it lies under an unreliable mount or its path exists.
pub open spec fn is_recorded(c: Candidate, existing: Seq<String>) -> bool {
    c.under_unreliable_mount || exists|j: int| 0 <= j < existing.len() && #[trigger] existing[j]@
        == c.path
}

/// The raw texts of the recorded candidates, in order.
pub open spec fn recorded(cands: Seq<Candidate>, existing: Seq<String>) -> Seq<Seq<char>>
    decreases cands.len(),
{
    if cands.len() == 0 {
        Seq::empty()
    } else {
        let rest = recorded(cands.drop_last(), existing);
        if is_recorded(cands.last(), existing) {
            rest.push(cands.last().raw)
        } else {
            rest
        }
    }
}

/// The paths fish records for `command`.
pub open spec fn detected_paths(
    command: Seq<char>,
    cwd: Seq<char>,
    home: Seq<char>,
    mounts: Seq<String>,
    env: Seq<(String, String)>,
    existing: Seq<String>,
) -> Seq<Seq<char>> {
    recorded(candidates_of(command, cwd, home, mounts, env), existing)
}

/// A word of a command that may be recorded as a path: its text as typed, the
/// path it names, and whether that path lies under an unreliable mount (and so
/// is recorded without an existence check).
pub struct PathCandidate {
    pub raw: String,
    pub path: String,
    pub under_unreliable_mount: bool,
}

impl View for PathCandidate {
    type V = Candidate;

    open spec fn view(&self) -> Candidate {
        Candidate {
            raw: self.raw@,
            path: self.path@,
            under_unreliable_mount: self.under_unreliable_mount,
        }
    }
}

pub open spec fn candidate_views(v: Seq<PathCandidate>) -> Seq<Candidate> {
    v.map_values(|c: PathCandidate| c@)
}

/// The index of the redirect operator (`>`, `<`, `^`) after an optional file
/// descriptor number, e.g. `1` in `2>&1`; `None` if the word is no redirect.
pub fn redirect_op_index(raw: &str) -> (r: Option<usize>)
    ensures
        match r {
            Some(i) => redirect_op_at(raw@) == Some(i as int),
            None => redirect_op_at(raw@) is None,
        },
{
    let b = crate::text::chars_of(raw);
    let n = b.len();
    let mut i: usize = 0;
    while i < n && '0' <= b[i] && b[i] <= '9'
        invariant
            n == b.len(),
            i <= n,
            digits_end(b@, i as int) == digits_end(b@, 0),
        decreases n - i,
    {
        i = i + 1;
    }
    if i < n && (b[i] == '>' || b[i] == '<' || b[i] == '^') {
        Some(i)
    } else {
        None
    }
}

pub fn is_redirect_start(raw: &str) -> (r: bool)
    ensures
        r == (redirect_op_at(raw@) is Some),
{
    redirect_op_index(raw).is_some()
}

/// `&<digits>`: a descriptor-to-descriptor redirect target as in `2>&1`.
pub fn is_fd_redirect(rest: &Vec<char>) -> (r: bool)
    ensures
        r == is_fd_target(rest@),
{
    if rest.len() < 2 || rest[0] != '&' {
        return false;
    }
    let n = rest.len();
    let mut j: usize = 1;
    while j < n
        invariant
            n == rest.len(),
            1 <= j <= n,
            forall|x: int| 1 <= x < j ==> is_ascii_digit(#[trigger] rest@[x]),
        decreases n - j,
    {
        if !('0' <= rest[j] && rest[j] <= '9') {
            assert(!is_ascii_digit(rest@[j as int]));
            return false;
        }
        j = j + 1;
    }
    true
}

/// Redirects that carry their own target and do not consume the next word:
/// `>|`, `N>|`, `N>&M`.
pub fn self_contained_redirect(raw: &str) -> (r: bool)
    ensures
        r == is_self_contained(raw@),
{
    let op = match redirect_op_index(raw) {
        Some(op) => op,
        None => return false,
    };
    let b = crate::text::chars_of(raw);
    let mut rest: Vec<char> = Vec::new();
    let n = b.len();
    let mut k = op + 1;
    while k < n
        invariant
            n == b.len(),
            op + 1 <= k <= n,
            rest@ == b@.subrange(op + 1, k as int),
        decreases n - k,
    {
        rest.push(b[k]);
        assert(b@.subrange(op + 1, k + 1) == b@.subrange(op + 1, k as int).push(b@[k as int]));
        k = k + 1;
    }
    let bar = rest.len() == 1 && rest[0] == '|';
    proof {
        if bar {
            assert(rest@ =~= seq!['|']);
        }
    }
    bar || is_fd_redirect(&rest)
}

/// Marks redirect operators and their targets so that they are not taken as paths.
pub fn classify_redirects(tokens: &mut Vec<Token>)
    ensures
        token_views(final(tokens)@) == classified(token_views(old(tokens)@)),
{
    let ghost orig = token_views(tokens@);
    let ghost cl = classified(orig);
    let n = tokens.len();
    let mut i: usize = 0;
    while i < n
        invariant
            n == tokens.len(),
            orig.len() == n,
            cl == classified(orig),
            i <= n,
            forall|j: int| 0 <= j < i ==> #[trigger] tokens@[j]@ == cl[j],
            i < n ==> tokens@[i as int]@ == (TokenView {
                is_redirect_target: cl[i as int].is_redirect_target,
                ..orig[i as int]
            }),
            forall|j: int| i < j < n ==> #[trigger] tokens@[j]@ == orig[j],
        decreases n - i,
    {
        proof {
            if i + 1 < n {
                assert(tokens@[i + 1]@ == orig[i + 1]);
            }
        }
        let start = !tokens[i].is_sep && is_redirect_start(tokens[i].raw.as_str());
        let contained = start && self_contained_redirect(tokens[i].raw.as_str());
        let next_target = start && !contained && i + 1 < n && !tokens[i + 1].is_sep;
        proof {
            assert(start == (!orig[i as int].is_sep && redirect_op_at(orig[i as int].raw) is Some));
            if i + 1 < n {
                assert(next_target == (takes_target(orig[i as int]) && !orig[i + 1].is_sep));
            }
        }
        if start {
            tokens[i].is_redirect = true;
        }
        if next_target {
            tokens[i + 1].is_redirect_target = true;
        }
        proof {
            assert(tokens@[i as int]@ == cl[i as int]);
            if i + 1 < n {
                assert(tokens@[i + 1]@ == (TokenView {
                    is_redirect_target: cl[i + 1].is_redirect_target,
                    ..orig[i + 1]
                }));
            }
        }
        i = i + 1;
    }
    assert(token_views(tokens@) =~= cl);
}

fn is_sync_write(cs: &Vec<char>) -> (r: bool)
    ensures
        r == is_sync_write_command(cs@),
{
    crate::path::chars_equal(cs, &vec!['e', 'c', 'h', 'o']) || crate::path::chars_equal(
        cs,
        &vec!['e', 'x', 'i', 't'],
    ) || crate::path::chars_equal(cs, &vec!['r', 'e', 'b', 'o', 'o', 't'])
        || crate::path::chars_equal(cs, &vec!['r', 'e', 's', 't', 'a', 'r', 't'])
}

fn is_decoration_token(t: &Token) -> (r: bool)
    ensures
        r == is_decoration(t@),
{
    if t.is_redirect || t.is_redirect_target {
        return true;
    }
    let raw = crate::text::chars_of(t.raw.as_str());
    crate::path::chars_equal(&raw, &vec!['c', 'o', 'm', 'm', 'a', 'n', 'd'])
}

/// What a statement holds before token `k` is decided by the tokens before `k` alone.
proof fn lemma_after_prefix(toks: Seq<TokenView>, n: int, k: int)
    requires
        0 <= k <= n <= toks.len(),
    ensures
        after_command_word(toks.take(n), k) == after_command_word(toks, k),
    decreases k,
{
    if k > 0 {
        lemma_after_prefix(toks, n, k - 1);
        assert(toks.take(n)[k - 1] == toks[k - 1]);
    }
}

/// fish skips file detection for the whole pipeline if the command word of
/// some statement would exit, is `echo`, or is `exec`.
pub fn skips_detection(tokens: &Vec<Token>) -> (r: bool)
    ensures
        r == detection_skipped(token_views(tokens@)),
{
    let ghost ts = token_views(tokens@);
    let mut seen = false;
    let n = tokens.len();
    let mut k: usize = 0;
    while k < n
        invariant
            n == tokens.len(),
            ts == token_views(tokens@),
            k <= n,
            seen == after_command_word(ts, k as int),
            forall|j: int|
                0 <= j < k ==> !(#[trigger] is_command_word(ts, j) && skips_statement(ts[j])),
        decreases n - k,
    {
        let t = &tokens[k];
        assert(ts[k as int] == t@);
        if t.is_sep {
            seen = false;
        } else if seen || is_decoration_token(t) {
        } else {
            assert(is_command_word(ts, k as int));
            let raw = crate::text::chars_of(t.raw.as_str());
            let expanded = crate::text::chars_of(t.expanded.as_str());
            if crate::path::chars_equal(&raw, &vec!['e', 'x', 'e', 'c']) || is_sync_write(
                &expanded,
            ) {
                return true;
            }
            seen = true;
        }
        k = k + 1;
    }
    false
}

fn is_eligible(t: &Token) -> (r: bool)
    ensures
        r == eligible(t@),
{
    if t.is_sep || t.is_redirect || t.is_redirect_target || t.has_cmdsubst {
        return false;
    }
    let raw = t.raw.as_str();
    if raw.is_empty() || t.expanded.as_str().is_empty() {
        return false;
    }
    raw.get_char(0) != '-'
}

fn under_mounts(path: &Vec<char>, mounts: &[String]) -> (r: bool)
    ensures
        r == under_some_mount(path@, mounts@),
{
    let n = mounts.len();
    let mut i: usize = 0;
    while i < n
        invariant
            n == mounts@.len(),
            i <= n,
            forall|j: int| 0 <= j < i ==> !lies_under(path@, #[trigger] mounts@[j]@),
        decreases n - i,
    {
        let m = crate::text::chars_of(mounts[i].as_str());
        if crate::path::path_lies_under(path, &m) {
            return true;
        }
        i = i + 1;
    }
    false
}

/// The arguments of `command` (the words after each statement's command word)
/// that name a path fish would record if it exists,
/// each with the path it names (resolved against `cwd`, the directory the
/// command ran in) and whether that path lies under one of the unreliable
/// `mounts`. Empty if the command skips detection. `home` and `env` (a snapshot
/// of the environment as (name, value) pairs) serve the expansion of `~` and
/// of variables.
pub fn path_candidates(
    command: &str,
    cwd: &str,
    home: &str,
    mounts: &[String],
    env: &[(String, String)],
) -> (r: Vec<PathCandidate>)
    ensures
        candidate_views(r@) == candidates_of(command@, cwd@, home@, mounts@, env@),
{
    let mut tokens = tokenize(command, cwd, home, env);
    classify_redirects(&mut tokens);
    let mut out: Vec<PathCandidate> = Vec::new();
    if skips_detection(&tokens) {
        assert(candidate_views(out@) =~= Seq::<Candidate>::empty());
        return out;
    }
    let ghost ts = token_views(tokens@);
    let cwd_chars = crate::text::chars_of(cwd);
    let n = tokens.len();
    let mut k: usize = 0;
    let mut seen = false;
    assert(ts.take(0) == Seq::<TokenView>::empty());
    assert(candidate_views(out@) =~= Seq::<Candidate>::empty());
    while k < n
        invariant
            n == tokens.len(),
            ts == token_views(tokens@),
            cwd_chars@ == cwd@,
            k <= n,
            seen == after_command_word(ts, k as int),
            candidate_views(out@) == candidates_from(ts.take(k as int), cwd@, mounts@),
        decreases n - k,
    {
        let t = &tokens[k];
        assert(ts.take(k + 1).drop_last() == ts.take(k as int));
        assert(ts.take(k + 1).last() == t@);
        assert(ts.take(k + 1)[k as int] == t@);
        proof {
            lemma_after_prefix(ts, k + 1, k as int);
        }
        if seen && is_eligible(t) {
            let expanded = crate::text::chars_of(t.expanded.as_str());
            let path = if expanded[0] == '/' {
                expanded
            } else {
                crate::path::join_path(&cwd_chars, &expanded)
            };
            let under = under_mounts(&path, mounts);
            let c = PathCandidate {
                raw: t.raw.clone(),
                path: crate::text::string_of(&path),
                under_unreliable_mount: under,
            };
            let ghost before = candidate_views(out@);
            out.push(c);
            assert(candidate_views(out@) == before.push(c@));
        }
        if t.is_sep {
            seen = false;
        } else if !seen && !is_decoration_token(t) {
            seen = true;
        }
        k = k + 1;
    }
    assert(ts.take(n as int) == ts);
    out
}

fn is_existing(path: &String, existing: &[String]) -> (r: bool)
    ensures
        r == (exists|j: int| 0 <= j < existing@.len() && #[trigger] existing@[j]@ == path@),
{
    let n = existing.len();
    let mut i: usize = 0;
    while i < n
        invariant
            n == existing@.len(),
            i <= n,
            forall|j: int| 0 <= j < i ==> #[trigger] existing@[j]@ != path@,
        decreases n - i,
    {
        if existing[i] == *path {
            return true;
        }
        i = i + 1;
    }
    false
}

/// Simulates fish 4.x `add_pending_with_file_detection`: the arguments of
/// `command` (never a statement's command word) that resolve to an existing
/// file or directory, each exactly as typed (`~`, quotes, relative paths
/// kept), in order.
///
/// Existence is not checked here: `existing` lists the candidate paths (see
/// [`path_candidates`]) that exist. A candidate under an unreliable mount is
/// recorded whether or not its path is listed.
pub fn detect_paths(
    command: &str,
    cwd: &str,
    home: &str,
    mounts: &[String],
    env: &[(String, String)],
    existing: &[String],
) -> (r: Vec<String>)
    ensures
        string_views(r@) == detected_paths(command@, cwd@, home@, mounts@, env@, existing@),
{
    let cands = path_candidates(command, cwd, home, mounts, env);
    let ghost cs = candidate_views(cands@);
    let mut out: Vec<String> = Vec::new();
    let n = cands.len();
    let mut k: usize = 0;
    assert(cs.take(0) == Seq::<Candidate>::empty());
    assert(string_views(out@) =~= Seq::<Seq<char>>::empty());
    while k < n
        invariant
            n == cands.len(),
            cs == candidate_views(cands@),
            k <= n,
            string_views(out@) == recorded(cs.take(k as int), existing@),
        decreases n - k,
    {
        let c = &cands[k];
        assert(cs.take(k + 1).drop_last() == cs.take(k as int));
        assert(cs.take(k + 1).last() == c@);
        if c.under_unreliable_mount || is_existing(&c.path, existing) {
            let ghost before = string_views(out@);
            out.push(c.raw.clone());
            assert(string_views(out@) == before.push(c.raw@));
        }
        k = k + 1;
    }
    assert(cs.take(n as int) == cs);
    out
}

/// File system types whose mounts can hang on `stat` when unreachable.
pub open spec fn unreliable_fs(fstype: Seq<char>) -> bool {
    ||| (fstype.len() >= 4 && fstype.take(4) == seq!['f', 'u', 's', 'e'])
    ||| fstype == seq!['n', 'f', 's']
    ||| fstype == seq!['n', 'f', 's', '4']
    ||| fstype == seq!['c', 'i', 'f', 's']
    ||| fstype == seq!['s', 'm', 'b', '3']
    ||| fstype == seq!['s', 's', 'h', 'f', 's']
    ||| fstype == seq!['d', 'a', 'v', 'f', 's']
    ||| fstype == seq!['d', 'a', 'v', 'f', 's', '2']
}

/// The text of a line (as `str::lines`): a `\r` before the line's `\n` is dropped.
pub open spec fn line_text(piece: Seq<char>, ends_in_newline: bool) -> Seq<char> {
    if ends_in_newline && piece.len() > 0 && piece.last() == '\r' {
        piece.drop_last()
    } else {
        piece
    }
}

/// The mount point that one line of `/proc/self/mounts` contributes: its second
/// field, when the third (the file system type) is unreliable.
pub open spec fn mount_entry(line: Seq<char>) -> Seq<Seq<char>> {
    let w = words(line);
    if w.len() >= 3 && unreliable_fs(w[2]) {
        seq![w[1]]
    } else {
        Seq::empty()
    }
}

/// The mount points contributed by the first pieces of a text split at `\n`,
/// `total` being the number of pieces in the whole text.
pub open spec fn mount_points_in(pieces: Seq<Seq<char>>, total: int) -> Seq<Seq<char>>
    decreases pieces.len(),
{
    if pieces.len() == 0 {
        Seq::empty()
    } else {
        mount_points_in(pieces.drop_last(), total) + mount_entry(
            line_text(pieces.last(), pieces.len() < total),
        )
    }
}

/// The unreliable mount points listed in `content` (in `/proc/self/mounts` format).
pub open spec fn unreliable_mounts(content: Seq<char>) -> Seq<Seq<char>> {
    let ps = crate::text::split_at(content, '\n');
    mount_points_in(ps, ps.len() as int)
}

fn starts_with_fuse(cs: &Vec<char>) -> (r: bool)
    ensures
        r == (cs@.len() >= 4 && cs@.take(4) == seq!['f', 'u', 's', 'e']),
{
    let r = cs.len() >= 4 && cs[0] == 'f' && cs[1] == 'u' && cs[2] == 's' && cs[3] == 'e';
    proof {
        if r {
            assert(cs@.take(4) =~= seq!['f', 'u', 's', 'e']);
        }
        if cs@.len() >= 4 && cs@.take(4) == seq!['f', 'u', 's', 'e'] {
            assert(cs@[0] == cs@.take(4)[0]);
            assert(cs@[1] == cs@.take(4)[1]);
            assert(cs@[2] == cs@.take(4)[2]);
            assert(cs@[3] == cs@.take(4)[3]);
        }
    }
    r
}

fn is_unreliable_chars(cs: &Vec<char>) -> (r: bool)
    ensures
        r == unreliable_fs(cs@),
{
    starts_with_fuse(cs) || crate::path::chars_equal(cs, &vec!['n', 'f', 's'])
        || crate::path::chars_equal(cs, &vec!['n', 'f', 's', '4']) || crate::path::chars_equal(
        cs,
        &vec!['c', 'i', 'f', 's'],
    ) || crate::path::chars_equal(cs, &vec!['s', 'm', 'b', '3']) || crate::path::chars_equal(
        cs,
        &vec!['s', 's', 'h', 'f', 's'],
    ) || crate::path::chars_equal(cs, &vec!['d', 'a', 'v', 'f', 's']) || crate::path::chars_equal(
        cs,
        &vec!['d', 'a', 'v', 'f', 's', '2'],
    )
}

/// Whether mounts of this file system type can hang on `stat` when unreachable
/// (FUSE, NFS, CIFS/SMB, SSHFS, WebDAV).
pub fn is_unreliable_fs(fstype: &str) -> (r: bool)
    ensures
        r == unreliable_fs(fstype@),
{
    let cs = crate::text::chars_of(fstype);
    is_unreliable_chars(&cs)
}

/// The unreliable mount points in `/proc/self/mounts`-format text: the second
/// field of each line whose third field names an unreliable file system.
pub fn parse_mount_points(content: &str) -> (r: Vec<String>)
    ensures
        string_views(r@) == unreliable_mounts(content@),
{
    let cs = crate::text::chars_of(content);
    let pieces = crate::text::split_chars(&cs, '\n');
    let ghost ps = char_views(pieces@);
    let total = pieces.len();
    let mut out: Vec<String> = Vec::new();
    let mut k: usize = 0;
    assert(ps.take(0) == Seq::<Seq<char>>::empty());
    assert(string_views(out@) =~= Seq::<Seq<char>>::empty());
    while k < total
        invariant
            total == pieces.len(),
            ps == char_views(pieces@),
            ps == crate::text::split_at(content@, '\n'),
            k <= total,
            string_views(out@) == mount_points_in(ps.take(k as int), total as int),
        decreases total - k,
    {
        assert(ps.take(k + 1).drop_last() == ps.take(k as int));
        assert(ps.take(k + 1).last() == pieces@[k as int]@);
        let mut line = pieces[k].clone();
        if k + 1 < total && line.len() > 0 && line[line.len() - 1] == '\r' {
            line.pop();
        }
        assert(line@ == line_text(ps.take(k + 1).last(), k + 1 < total));
        let w = crate::text::words_of(&line);
        let ghost before = string_views(out@);
        if w.len() >= 3 && is_unreliable_chars(&w[2]) {
            let m = crate::text::string_of(&w[1]);
            out.push(m);
            assert(string_views(out@) == before.push(m@));
            assert(mount_entry(line@) == seq![m@]);
            assert(before.push(m@) == before + seq![m@]);
        } else {
            assert(mount_entry(line@) == Seq::<Seq<char>>::empty());
            assert(before == before + Seq::<Seq<char>>::empty());
        }
        k = k + 1;
    }
    assert(ps.take(total as int) == ps);
    out
}

proof fn lemma_recorded_members(cands: Seq<Candidate>, existing: Seq<String>)
    ensures
        forall|i: int|
            0 <= i < cands.len() && is_recorded(#[trigger] cands[i], existing) ==> recorded(
                cands,
                existing,
            ).contains(cands[i].raw),
        forall|r: Seq<char>|
            #[trigger] recorded(cands, existing).contains(r) ==> exists|i: int|
                0 <= i < cands.len() && is_recorded(#[trigger] cands[i], existing) && cands[i].raw
                    == r,
    decreases cands.len(),
{
    if cands.len() > 0 {
        let init = cands.drop_last();
        lemma_recorded_members(init, existing);
        let rest = recorded(init, existing);
        assert forall|i: int|
            0 <= i < cands.len() && is_recorded(#[trigger] cands[i], existing) implies recorded(
            cands,
            existing,
        ).contains(cands[i].raw) by {
            if i < cands.len() - 1 {
                assert(init[i] == cands[i]);
                assert(rest.contains(cands[i].raw));
                let x = choose|x: int| 0 <= x < rest.len() && rest[x] == cands[i].raw;
                assert(recorded(cands, existing)[x] == cands[i].raw);
            } else {
                assert(recorded(cands, existing)[rest.len() as int] == cands[i].raw);
            }
        }
        assert forall|r: Seq<char>| #[trigger] recorded(cands, existing).contains(r) implies exists|
            i: int,
        |
            0 <= i < cands.len() && is_recorded(#[trigger] cands[i], existing) && cands[i].raw
                == r by {
            let x = choose|x: int|
                0 <= x < recorded(cands, existing).len() && recorded(cands, existing)[x] == r;
            if x < rest.len() {
                assert(rest.contains(r));
                let i = choose|i: int|
                    0 <= i < init.len() && is_recorded(#[trigger] init[i], existing) && init[i].raw
                        == r;
                assert(cands[i] == init[i]);
            } else {
                assert(cands[cands.len() - 1] == cands.last());
            }
        }
    }
}

/// A word whose path is listed as existing, or lies under an unreliable mount,
/// is recorded; nothing else is: every recorded path is the raw text of such a
/// candidate.
pub proof fn law_recorded_exactly(
    command: Seq<char>,
    cwd: Seq<char>,
    home: Seq<char>,
    mounts: Seq<String>,
    env: Seq<(String, String)>,
    existing: Seq<String>,
)
    ensures
        forall|i: int|
            0 <= i < candidates_of(command, cwd, home, mounts, env).len() && is_recorded(
                #[trigger] candidates_of(command, cwd, home, mounts, env)[i],
                existing,
            ) ==> detected_paths(command, cwd, home, mounts, env, existing).contains(
                candidates_of(command, cwd, home, mounts, env)[i].raw,
            ),
        forall|r: Seq<char>|
            #[trigger] detected_paths(command, cwd, home, mounts, env, existing).contains(r)
                ==> exists|i: int|
                0 <= i < candidates_of(command, cwd, home, mounts, env).len() && is_recorded(
                    #[trigger] candidates_of(command, cwd, home, mounts, env)[i],
                    existing,
                ) && candidates_of(command, cwd, home, mounts, env)[i].raw == r,
{
    lemma_recorded_members(candidates_of(command, cwd, home, mounts, env), existing);
}

/// A path under an unreliable (network or FUSE) mount is recorded without an
/// existence check: whatever the filesystem says, it is in the result.
pub proof fn law_unreliable_mount_recorded_unchecked(
    command: Seq<char>,
    cwd: Seq<char>,
    home: Seq<char>,
    mounts: Seq<String>,
    env: Seq<(String, String)>,
    existing: Seq<String>,
    i: int,
)
    requires
        0 <= i < candidates_of(command, cwd, home, mounts, env).len(),
        candidates_of(command, cwd, home, mounts, env)[i].under_unreliable_mount,
    ensures
        detected_paths(command, cwd, home, mounts, env, existing).contains(
            candidates_of(command, cwd, home, mounts, env)[i].raw,
        ),
{
    let cands = candidates_of(command, cwd, home, mounts, env);
    lemma_recorded_members(cands, existing);
    assert(is_recorded(cands[i], existing));
}

/// `r` is the raw text of a path argument among `toks`.
pub open spec fn is_word_of(toks: Seq<TokenView>, r: Seq<char>) -> bool {
    exists|k: int| 0 <= k < toks.len() && #[trigger] is_path_argument(toks, k) && toks[k].raw == r
}

proof fn lemma_candidates_from_words(toks: Seq<TokenView>, cwd: Seq<char>, mounts: Seq<String>)
    ensures
        forall|i: int|
            0 <= i < candidates_from(toks, cwd, mounts).len() ==> is_word_of(
                toks,
                #[trigger] candidates_from(toks, cwd, mounts)[i].raw,
            ),
    decreases toks.len(),
{
    if toks.len() > 0 {
        let init = toks.drop_last();
        lemma_candidates_from_words(init, cwd, mounts);
        let rest = candidates_from(init, cwd, mounts);
        let all = candidates_from(toks, cwd, mounts);
        assert forall|i: int| 0 <= i < all.len() implies is_word_of(toks, #[trigger] all[i].raw) by {
            if i < rest.len() {
                assert(all[i] == rest[i]);
                assert(is_word_of(init, rest[i].raw));
                let k = choose|k: int|
                    0 <= k < init.len() && #[trigger] is_path_argument(init, k) && init[k].raw
                        == rest[i].raw;
                assert(toks[k] == init[k]);
                assert(init == toks.take(toks.len() - 1));
                lemma_after_prefix(toks, toks.len() - 1, k);
                assert(is_path_argument(toks, k));
            } else {
                assert(toks[toks.len() - 1] == toks.last());
                assert(is_path_argument(toks, toks.len() - 1));
            }
        }
    }
}

/// Paths are recorded exactly as typed, and only arguments are: each is the
/// raw text of a word that follows its statement's command word and is
/// neither a separator, an option, a redirect, a redirect target nor a
/// command substitution. The command word itself is never recorded.
pub proof fn law_paths_are_words_as_typed(
    command: Seq<char>,
    cwd: Seq<char>,
    home: Seq<char>,
    mounts: Seq<String>,
    env: Seq<(String, String)>,
    existing: Seq<String>,
)
    ensures
        forall|r: Seq<char>|
            #[trigger] detected_paths(command, cwd, home, mounts, env, existing).contains(r)
                ==> is_word_of(command_tokens(command, cwd, home, env), r),
{
    let toks = command_tokens(command, cwd, home, env);
    let cands = candidates_of(command, cwd, home, mounts, env);
    lemma_recorded_members(cands, existing);
    lemma_candidates_from_words(toks, cwd, mounts);
    assert forall|r: Seq<char>|
        #[trigger] detected_paths(command, cwd, home, mounts, env, existing).contains(
            r,
        ) implies is_word_of(toks, r) by {
        let i = choose|i: int|
            0 <= i < cands.len() && is_recorded(#[trigger] cands[i], existing) && cands[i].raw
                == r;
        assert(!detection_skipped(toks));
        assert(cands == candidates_from(toks, cwd, mounts));
        assert(candidates_from(toks, cwd, mounts)[i].raw == r);
    }
}

/// A command that exits, is `echo`, or is `exec`-decorated records no paths.
pub proof fn law_skipped_command_records_nothing(
    command: Seq<char>,
    cwd: Seq<char>,
    home: Seq<char>,
    mounts: Seq<String>,
    env: Seq<(String, String)>,
    existing: Seq<String>,
)
    requires
        detection_skipped(command_tokens(command, cwd, home, env)),
    ensures
        detected_paths(command, cwd, home, mounts, env, existing).len() == 0,
{
}

/// `idx` picks out `a` from `b`: increasing positions of `b` holding the
/// elements of `a` in order.
pub open spec fn subsequence_at(a: Seq<Seq<char>>, b: Seq<Seq<char>>, idx: Seq<int>) -> bool {
    &&& idx.len() == a.len()
    &&& forall|i: int, j: int| 0 <= i < j < idx.len() ==> #[trigger] idx[i] < #[trigger] idx[j]
    &&& forall|i: int| 0 <= i < idx.len() ==> 0 <= #[trigger] idx[i] < b.len() && b[idx[i]] == a[i]
}

/// `a` is a subsequence of `b`.
pub open spec fn is_subsequence(a: Seq<Seq<char>>, b: Seq<Seq<char>>) -> bool {
    exists|idx: Seq<int>| #[trigger] subsequence_at(a, b, idx)
}

/// Every mount of `m1` is also one of `m2`.
pub open spec fn mounts_within(m1: Seq<String>, m2: Seq<String>) -> bool {
    forall|i: int| 0 <= i < m1.len() ==> exists|j: int| 0 <= j < m2.len() && #[trigger] m2[j]@ == (
    #[trigger] m1[i])@
}

proof fn lemma_under_monotone(p: Seq<char>, m1: Seq<String>, m2: Seq<String>)
    requires
        mounts_within(m1, m2),
        under_some_mount(p, m1),
    ensures
        under_some_mount(p, m2),
{
    let i = choose|i: int| 0 <= i < m1.len() && lies_under(p, #[trigger] m1[i]@);
    let j = choose|j: int| 0 <= j < m2.len() && #[trigger] m2[j]@ == m1[i]@;
    assert(lies_under(p, m2[j]@));
}

proof fn lemma_candidates_mount_monotone(
    toks: Seq<TokenView>,
    cwd: Seq<char>,
    m1: Seq<String>,
    m2: Seq<String>,
)
    requires
        mounts_within(m1, m2),
    ensures
        candidates_from(toks, cwd, m1).len() == candidates_from(toks, cwd, m2).len(),
        forall|i: int|
            0 <= i < candidates_from(toks, cwd, m1).len() ==> {
                let c1 = #[trigger] candidates_from(toks, cwd, m1)[i];
                let c2 = candidates_from(toks, cwd, m2)[i];
                &&& c1.raw == c2.raw
                &&& c1.path == c2.path
                &&& (c1.under_unreliable_mount ==> c2.under_unreliable_mount)
            },
    decreases toks.len(),
{
    if toks.len() > 0 {
        lemma_candidates_mount_monotone(toks.drop_last(), cwd, m1, m2);
        let t = toks.last();
        if is_path_argument(toks, toks.len() - 1) {
            let p = candidate_path(cwd, t.expanded);
            if under_some_mount(p, m1) {
                lemma_under_monotone(p, m1, m2);
            }
        }
    }
}

proof fn lemma_recorded_monotone(c1: Seq<Candidate>, c2: Seq<Candidate>, existing: Seq<String>) -> (idx: Seq<int>)
    requires
        c1.len() == c2.len(),
        forall|i: int|
            0 <= i < c1.len() ==> (#[trigger] c1[i]).raw == c2[i].raw && c1[i].path == c2[i].path
                && (c1[i].under_unreliable_mount ==> c2[i].under_unreliable_mount),
    ensures
        subsequence_at(recorded(c1, existing), recorded(c2, existing), idx),
    decreases c1.len(),
{
    if c1.len() == 0 {
        Seq::empty()
    } else {
        let i1 = c1.drop_last();
        let i2 = c2.drop_last();
        assert forall|i: int| 0 <= i < i1.len() implies (#[trigger] i1[i]).raw == i2[i].raw
            && i1[i].path == i2[i].path && (i1[i].under_unreliable_mount
            ==> i2[i].under_unreliable_mount) by {
            assert(i1[i] == c1[i]);
            assert(i2[i] == c2[i]);
        }
        let prev = lemma_recorded_monotone(i1, i2, existing);
        let r1 = recorded(i1, existing);
        let r2 = recorded(i2, existing);
        let last = c1.len() - 1;
        assert(c1.last() == c1[last]);
        assert(c2.last() == c2[last]);
        if is_recorded(c1.last(), existing) {
            assert(is_recorded(c2.last(), existing));
            let idx = prev.push(r2.len() as int);
            assert(subsequence_at(r1.push(c1.last().raw), r2.push(c2.last().raw), idx));
            idx
        } else if is_recorded(c2.last(), existing) {
            assert(subsequence_at(r1, r2.push(c2.last().raw), prev));
            prev
        } else {
            prev
        }
    }
}

/// Declaring more mounts unreliable only adds paths: what is recorded with
/// `mounts1` is recorded, in the same order, with any `mounts2` that holds
/// every mount of `mounts1`.
pub proof fn law_more_unreliable_mounts_record_more(
    command: Seq<char>,
    cwd: Seq<char>,
    home: Seq<char>,
    mounts1: Seq<String>,
    mounts2: Seq<String>,
    env: Seq<(String, String)>,
    existing: Seq<String>,
)
    requires
        mounts_within(mounts1, mounts2),
    ensures
        is_subsequence(
            detected_paths(command, cwd, home, mounts1, env, existing),
            detected_paths(command, cwd, home, mounts2, env, existing),
        ),
{
    let toks = command_tokens(command, cwd, home, env);
    let c1 = candidates_of(command, cwd, home, mounts1, env);
    let c2 = candidates_of(command, cwd, home, mounts2, env);
    if detection_skipped(toks) {
        let idx = Seq::<int>::empty();
        assert(subsequence_at(recorded(c1, existing), recorded(c2, existing), idx));
    } else {
        lemma_candidates_mount_monotone(toks, cwd, mounts1, mounts2);
        assert forall|i: int| 0 <= i < c1.len() implies (#[trigger] c1[i]).raw == c2[i].raw
            && c1[i].path == c2[i].path && (c1[i].under_unreliable_mount
            ==> c2[i].under_unreliable_mount) by {
            assert(c1[i] == candidates_from(toks, cwd, mounts1)[i]);
        }
        let idx = lemma_recorded_monotone(c1, c2, existing);
        assert(subsequence_at(recorded(c1, existing), recorded(c2, existing), idx));
    }
}

/// Token `k` is an argument word: it comes after its statement's command word,
/// and is no separator, redirect, redirect target (the word after `>`, `<` or
/// `^`), command substitution or option, and its text and value are not empty.
pub open spec fn is_argument_word(toks: Seq<TokenView>, k: int) -> bool {
    &&& 0 <= k < toks.len()
    &&& !toks[k].is_sep
    &&& !toks[k].is_redirect
    &&& !toks[k].is_redirect_target
    &&& !toks[k].has_cmdsubst
    &&& toks[k].raw.len() > 0
    &&& toks[k].raw[0] != '-'
    &&& toks[k].expanded.len() > 0
    &&& after_command_word(toks, k)
}

/// A word with value `expanded` names an existing file: the path it names (the
/// value itself if absolute, else the value under `cwd`) is listed in
/// `existing`, or lies under one of `mounts`.
pub open spec fn names_existing_file(
    cwd: Seq<char>,
    mounts: Seq<String>,
    existing: Seq<String>,
    expanded: Seq<char>,
) -> bool {
    let p = if expanded.len() > 0 && expanded[0] == '/' {
        expanded
    } else {
        joined(cwd, expanded)
    };
    ||| exists|j: int| 0 <= j < existing.len() && #[trigger] existing[j]@ == p
    ||| exists|m: int| 0 <= m < mounts.len() && lies_under(p, #[trigger] mounts[m]@)
}

/// `idx` gives, for each of `paths`, the position in `toks` of the word it was
/// read from: increasing positions of argument words that name existing files,
/// whose text as typed is the path.
pub open spec fn read_from_arguments(
    paths: Seq<Seq<char>>,
    toks: Seq<TokenView>,
    cwd: Seq<char>,
    mounts: Seq<String>,
    existing: Seq<String>,
    idx: Seq<int>,
) -> bool {
    &&& idx.len() == paths.len()
    &&& forall|i: int, j: int| 0 <= i < j < idx.len() ==> #[trigger] idx[i] < #[trigger] idx[j]
    &&& forall|i: int|
        0 <= i < idx.len() ==> {
            let k = #[trigger] idx[i];
            &&& is_argument_word(toks, k)
            &&& toks[k].raw == paths[i]
            &&& names_existing_file(cwd, mounts, existing, toks[k].expanded)
        }
}

proof fn lemma_candidate_positions(toks: Seq<TokenView>, cwd: Seq<char>, mounts: Seq<String>) -> (pos: Seq<int>)
    ensures
        pos.len() == candidates_from(toks, cwd, mounts).len(),
        forall|i: int, j: int| 0 <= i < j < pos.len() ==> #[trigger] pos[i] < #[trigger] pos[j],
        forall|i: int|
            0 <= i < pos.len() ==> {
                let c = candidates_from(toks, cwd, mounts)[i];
                &&& 0 <= #[trigger] pos[i] < toks.len()
                &&& is_path_argument(toks, pos[i])
                &&& toks[pos[i]].raw == c.raw
                &&& c.path == candidate_path(cwd, toks[pos[i]].expanded)
                &&& c.under_unreliable_mount == under_some_mount(c.path, mounts)
            },
        forall|k: int|
            0 <= k < toks.len() && #[trigger] is_path_argument(toks, k) ==> exists|i: int|
                0 <= i < pos.len() && #[trigger] pos[i] == k,
    decreases toks.len(),
{
    if toks.len() == 0 {
        Seq::empty()
    } else {
        let init = toks.drop_last();
        let prev = lemma_candidate_positions(init, cwd, mounts);
        let rest = candidates_from(init, cwd, mounts);
        let all = candidates_from(toks, cwd, mounts);
        assert(init == toks.take(toks.len() - 1));
        assert forall|i: int| 0 <= i < prev.len() implies is_path_argument(toks, #[trigger] prev[i])
            && toks[prev[i]] == init[prev[i]] && all[i] == rest[i] by {
            lemma_after_prefix(toks, toks.len() - 1, prev[i]);
        }
        assert forall|k: int| 0 <= k < init.len() && #[trigger] is_path_argument(toks, k)
            implies is_path_argument(init, k) by {
            lemma_after_prefix(toks, toks.len() - 1, k);
        }
        let last = toks.len() - 1;
        assert(toks[last] == toks.last());
        if is_path_argument(toks, last) {
            let pos = prev.push(last);
            assert forall|i: int| 0 <= i < pos.len() implies {
                let c = all[i];
                &&& 0 <= #[trigger] pos[i] < toks.len()
                &&& is_path_argument(toks, pos[i])
                &&& toks[pos[i]].raw == c.raw
                &&& c.path == candidate_path(cwd, toks[pos[i]].expanded)
                &&& c.under_unreliable_mount == under_some_mount(c.path, mounts)
            } by {
                if i < prev.len() {
                    assert(pos[i] == prev[i]);
                }
            }
            assert forall|k: int| 0 <= k < toks.len() && #[trigger] is_path_argument(toks, k)
                implies exists|i: int| 0 <= i < pos.len() && #[trigger] pos[i] == k by {
                if k < last {
                    let i = choose|i: int| 0 <= i < prev.len() && #[trigger] prev[i] == k;
                    assert(pos[i] == k);
                } else {
                    assert(pos[prev.len() as int] == k);
                }
            }
            pos
        } else {
            assert forall|k: int| 0 <= k < toks.len() && #[trigger] is_path_argument(toks, k)
                implies exists|i: int| 0 <= i < prev.len() && #[trigger] prev[i] == k by {
                assert(k < last);
            }
            prev
        }
    }
}

proof fn lemma_recorded_positions(cands: Seq<Candidate>, existing: Seq<String>) -> (sel: Seq<int>)
    ensures
        sel.len() == recorded(cands, existing).len(),
        forall|i: int, j: int| 0 <= i < j < sel.len() ==> #[trigger] sel[i] < #[trigger] sel[j],
        forall|i: int|
            0 <= i < sel.len() ==> 0 <= #[trigger] sel[i] < cands.len() && cands[sel[i]].raw
                == recorded(cands, existing)[i] && is_recorded(cands[sel[i]], existing),
        forall|s: int|
            0 <= s < cands.len() && is_recorded(#[trigger] cands[s], existing) ==> exists|i: int|
                0 <= i < sel.len() && #[trigger] sel[i] == s,
    decreases cands.len(),
{
    if cands.len() == 0 {
        Seq::empty()
    } else {
        let init = cands.drop_last();
        let prev = lemma_recorded_positions(init, existing);
        let last = cands.len() - 1;
        assert(cands[last] == cands.last());
        assert forall|i: int| 0 <= i < prev.len() implies cands[#[trigger] prev[i]] == init[prev[i]] by {
        }
        assert forall|s: int| 0 <= s < last && is_recorded(#[trigger] cands[s], existing)
            implies exists|i: int| 0 <= i < prev.len() && #[trigger] prev[i] == s by {
            assert(init[s] == cands[s]);
        }
        if is_recorded(cands.last(), existing) {
            let sel = prev.push(last);
            assert forall|i: int| 0 <= i < sel.len() implies 0 <= #[trigger] sel[i] < cands.len()
                && cands[sel[i]].raw == recorded(cands, existing)[i] && is_recorded(
                cands[sel[i]],
                existing,
            ) by {
                if i < prev.len() {
                    assert(sel[i] == prev[i]);
                }
            }
            assert forall|s: int| 0 <= s < cands.len() && is_recorded(#[trigger] cands[s], existing)
                implies exists|i: int| 0 <= i < sel.len() && #[trigger] sel[i] == s by {
                if s < last {
                    let i = choose|i: int| 0 <= i < prev.len() && #[trigger] prev[i] == s;
                    assert(sel[i] == s);
                } else {
                    assert(sel[prev.len() as int] == s);
                }
            }
            sel
        } else {
            assert forall|s: int| 0 <= s < cands.len() && is_recorded(#[trigger] cands[s], existing)
                implies exists|i: int| 0 <= i < prev.len() && #[trigger] prev[i] == s by {
                assert(s < last);
            }
            prev
        }
    }
}

/// Exactly the argument words of a command that name existing files are
/// recorded, each as typed, in order, unless the command skips detection: every
/// recorded path is read from such a word (never from a separator, redirect,
/// redirect target, command substitution, option or command word), and every
/// such word is recorded. So the file a command writes through `>` is never
/// recorded from that redirect.
pub proof fn law_recorded_paths_are_existing_arguments(
    command: Seq<char>,
    cwd: Seq<char>,
    home: Seq<char>,
    mounts: Seq<String>,
    env: Seq<(String, String)>,
    existing: Seq<String>,
)
    ensures
        exists|idx: Seq<int>|
            #[trigger] read_from_arguments(
                detected_paths(command, cwd, home, mounts, env, existing),
                command_tokens(command, cwd, home, env),
                cwd,
                mounts,
                existing,
                idx,
            ) && forall|k: int|
                !detection_skipped(command_tokens(command, cwd, home, env)) && #[trigger] is_argument_word(
                    command_tokens(command, cwd, home, env),
                    k,
                ) && names_existing_file(
                    cwd,
                    mounts,
                    existing,
                    command_tokens(command, cwd, home, env)[k].expanded,
                ) ==> exists|i: int| 0 <= i < idx.len() && idx[i] == k,
{
    let toks = command_tokens(command, cwd, home, env);
    let cands = candidates_of(command, cwd, home, mounts, env);
    let paths = detected_paths(command, cwd, home, mounts, env, existing);
    let sel = lemma_recorded_positions(cands, existing);
    if detection_skipped(toks) {
        let idx = Seq::<int>::empty();
        assert(read_from_arguments(paths, toks, cwd, mounts, existing, idx));
    } else {
        let pos = lemma_candidate_positions(toks, cwd, mounts);
        let idx = Seq::new(sel.len(), |i: int| pos[sel[i]]);
        assert forall|i: int, j: int| 0 <= i < j < idx.len() implies #[trigger] idx[i]
            < #[trigger] idx[j] by {
            assert(sel[i] < sel[j]);
            assert(pos[sel[i]] < pos[sel[j]]);
        }
        assert forall|i: int| 0 <= i < idx.len() implies {
            let k = #[trigger] idx[i];
            &&& is_argument_word(toks, k)
            &&& toks[k].raw == paths[i]
            &&& names_existing_file(cwd, mounts, existing, toks[k].expanded)
        } by {
            let s = sel[i];
            assert(0 <= s < cands.len());
            assert(0 <= pos[s] < toks.len());
            assert(is_path_argument(toks, pos[s]));
            assert(is_recorded(cands[s], existing));
        }
        assert(read_from_arguments(paths, toks, cwd, mounts, existing, idx));
        assert forall|k: int|
            !detection_skipped(toks) && #[trigger] is_argument_word(toks, k) && names_existing_file(
                cwd,
                mounts,
                existing,
                toks[k].expanded,
            ) implies exists|i: int| 0 <= i < idx.len() && idx[i] == k by {
            assert(is_path_argument(toks, k));
            let s = choose|s: int| 0 <= s < pos.len() && #[trigger] pos[s] == k;
            assert(is_recorded(cands[s], existing));
            let i = choose|i: int| 0 <= i < sel.len() && #[trigger] sel[i] == s;
            assert(idx[i] == k);
        }
    }
}

} // verus!
