//! A fish-flavoured tokenizer, close enough to fish's own for path detection.
//!
//! Single quotes take everything literally; double quotes allow `$` and a few
//! backslash escapes; a backslash outside quotes escapes the next character;
//! `#` at a word boundary starts a comment; `|`, `;`, `&` and `&&` separate
//! statements; `(...)` and `$(...)` are command substitutions; `~` at the start
//! of a word expands to the home directory; `$NAME` and `${NAME}` expand
//! variables (`HOME` and `PWD` from the entry's context, others from the
//! environment snapshot; an unset variable expands to a literal `$`).
//!
//! The behaviour is stated as a step function over the input characters:
//! `lex_step` says what one step does to the lexer state, `lex_run` runs the
//! steps to the end, and `tokens_of` is the result.
use vstd::prelude::*;
use crate::text::{alphanumeric, white_space};

verus! {

/// A token as a mathematical value.
pub struct TokenView {
    pub raw: Seq<char>,
    pub expanded: Seq<char>,
    pub is_sep: bool,
    pub is_redirect: bool,
    pub is_redirect_target: bool,
    pub has_cmdsubst: bool,
}

/// One word of a command line.
pub struct Token {
    /// The argument exactly as typed, including quotes and escapes.
    pub raw: String,
    /// The argument with quotes and escapes resolved and `~`, `$HOME`, `$PWD`
    /// and other variables expanded; used for existence checks.
    pub expanded: String,
    /// `|`, `;`, `&&`, `&`: a statement or pipeline boundary.
    pub is_sep: bool,
    pub is_redirect: bool,
    pub is_redirect_target: bool,
    pub has_cmdsubst: bool,
}

impl View for Token {
    type V = TokenView;

    open spec fn view(&self) -> TokenView {
        TokenView {
            raw: self.raw@,
            expanded: self.expanded@,
            is_sep: self.is_sep,
            is_redirect: self.is_redirect,
            is_redirect_target: self.is_redirect_target,
            has_cmdsubst: self.has_cmdsubst,
        }
    }
}

pub open spec fn token_views(ts: Seq<Token>) -> Seq<TokenView> {
    ts.map_values(|t: Token| t@)
}

/// What the lexer knows of the entry: the directory the command ran in, the
/// home directory, and a snapshot of the environment as (name, value) pairs.
pub struct LexContext {
    pub cwd: Seq<char>,
    pub home: Seq<char>,
    pub env: Seq<(String, String)>,
}

/// The value of the first pair in `env` whose name is `name`.
pub open spec fn env_lookup(env: Seq<(String, String)>, name: Seq<char>) -> Option<Seq<char>>
    decreases env.len(),
{
    if env.len() == 0 {
        None
    } else if env[0].0@ == name {
        Some(env[0].1@)
    } else {
        env_lookup(env.drop_first(), name)
    }
}

pub open spec fn empty_token() -> TokenView {
    TokenView {
        raw: Seq::empty(),
        expanded: Seq::empty(),
        is_sep: false,
        is_redirect: false,
        is_redirect_target: false,
        has_cmdsubst: false,
    }
}

/// A separator token with the given text.
pub open spec fn sep_view(raw: Seq<char>) -> TokenView {
    TokenView { raw, ..empty_token() }.with_sep()
}

impl TokenView {
    pub open spec fn with_sep(self) -> TokenView {
        TokenView { is_sep: true, ..self }
    }

    /// `s` appended to the raw text only.
    pub open spec fn add_raw(self, s: Seq<char>) -> TokenView {
        TokenView { raw: self.raw + s, ..self }
    }

    /// `s` appended to the expanded text only.
    pub open spec fn add_expanded(self, s: Seq<char>) -> TokenView {
        TokenView { expanded: self.expanded + s, ..self }
    }

    /// `c` appended to both texts.
    pub open spec fn add_char(self, c: char) -> TokenView {
        TokenView { raw: self.raw.push(c), expanded: self.expanded.push(c), ..self }
    }
}

/// The tokens after the current word is closed: it is kept only if it holds text.
pub open spec fn flushed_tokens(toks: Seq<TokenView>, cur: TokenView) -> Seq<TokenView> {
    if cur.raw.len() > 0 {
        toks.push(cur)
    } else {
        toks
    }
}

/// The current word after it is closed.
pub open spec fn flushed_current(cur: TokenView) -> TokenView {
    if cur.raw.len() > 0 {
        empty_token()
    } else {
        cur
    }
}

/// The end of the text of `${NAME}`: the index of the first `}` at or after `k`,
/// or the end of the input.
pub open spec fn brace_end(cs: Seq<char>, k: int) -> int
    decreases cs.len() - k,
{
    if k >= cs.len() {
        cs.len() as int
    } else if cs[k] == '}' {
        k
    } else {
        brace_end(cs, k + 1)
    }
}

pub open spec fn is_name_char(c: char) -> bool {
    alphanumeric(c) || c == '_'
}

/// The end of the name of `$NAME`: the first index at or after `k` that does not
/// hold a name character.
pub open spec fn name_end(cs: Seq<char>, k: int) -> int
    decreases cs.len() - k,
{
    if k >= cs.len() {
        cs.len() as int
    } else if !is_name_char(cs[k]) {
        k
    } else {
        name_end(cs, k + 1)
    }
}

/// The end of a command substitution whose `(` nesting depth is `depth` at `k`:
/// just past the `)` that closes it, or the end of the input.
pub open spec fn subst_end(cs: Seq<char>, k: int, depth: nat) -> int
    decreases cs.len() - k,
{
    if k >= cs.len() {
        cs.len() as int
    } else if cs[k] == '(' {
        subst_end(cs, k + 1, depth + 1)
    } else if cs[k] == ')' {
        if depth <= 1 {
            k + 1
        } else {
            subst_end(cs, k + 1, (depth - 1) as nat)
        }
    } else {
        subst_end(cs, k + 1, depth)
    }
}

pub open spec fn name_home() -> Seq<char> {
    seq!['H', 'O', 'M', 'E']
}

pub open spec fn name_pwd() -> Seq<char> {
    seq!['P', 'W', 'D']
}

/// What `$name` expands to.
pub open spec fn var_value(name: Seq<char>, ctx: LexContext) -> Seq<char> {
    if name == name_home() {
        ctx.home
    } else if name == name_pwd() {
        ctx.cwd
    } else {
        match env_lookup(ctx.env, name) {
            Some(v) => v,
            None => seq!['$'],
        }
    }
}

/// A command substitution whose body starts at `k` (just past its `(`): the
/// body is kept in the raw text and the token is marked.
pub open spec fn cmdsubst(t: TokenView, cs: Seq<char>, k: int) -> (TokenView, int) {
    let e = subst_end(cs, k, 1);
    (TokenView { has_cmdsubst: true, ..t.add_raw(cs.subrange(k, e)) }, e)
}

/// A `$` expansion whose text starts at `k` (just past the `$`).
pub open spec fn var_expansion(t: TokenView, cs: Seq<char>, k: int, ctx: LexContext) -> (
    TokenView,
    int,
) {
    let t1 = t.add_raw(seq!['$']);
    if k < cs.len() && cs[k] == '(' {
        cmdsubst(t1.add_raw(seq!['(']), cs, k + 1)
    } else if k < cs.len() && cs[k] == '{' {
        let e = brace_end(cs, k + 1);
        let name = cs.subrange(k + 1, e);
        if e < cs.len() {
            (
                t1.add_raw(seq!['{'] + name + seq!['}']).add_expanded(var_value(name, ctx)),
                e + 1,
            )
        } else {
            (t1.add_raw(seq!['{'] + name).add_expanded(var_value(name, ctx)), e)
        }
    } else {
        let e = name_end(cs, k);
        let name = cs.subrange(k, e);
        (t1.add_raw(name).add_expanded(var_value(name, ctx)), e)
    }
}

/// Characters after which a leading `~` still expands to the home directory.
pub open spec fn tilde_boundary(c: char) -> bool {
    c == '/' || white_space(c) || c == ';' || c == '&' || c == '|' || c == '<' || c == '>'
        || c == '^'
}

/// The raw text so far ends in a redirect operator, so a following `&`
/// continues it (as in `2>&1`).
pub open spec fn ends_with_redirect_op(raw: Seq<char>) -> bool {
    raw.len() > 0 && (raw.last() == '>' || raw.last() == '<' || raw.last() == '^')
}

/// A backslash inside double quotes escapes these characters.
pub open spec fn dq_escapable(c: char) -> bool {
    c == '$' || c == '`' || c == '"' || c == '\\' || c == '\n'
}

/// The state of the lexer between steps.
pub struct LexState {
    pub pos: int,
    pub toks: Seq<TokenView>,
    pub cur: TokenView,
    pub single: bool,
    pub dbl: bool,
    pub stop: bool,
}

impl LexState {
    pub open spec fn at(self, pos: int, cur: TokenView) -> LexState {
        LexState { pos, cur, ..self }
    }
}

/// One step inside single quotes on the character at `st.pos`.
pub open spec fn step_single(cs: Seq<char>, st: LexState) -> LexState {
    let c = cs[st.pos];
    if c == '\'' {
        LexState { single: false, ..st.at(st.pos + 1, st.cur.add_raw(seq![c])) }
    } else {
        st.at(st.pos + 1, st.cur.add_char(c))
    }
}

/// One step inside double quotes on the character at `st.pos`.
pub open spec fn step_double(cs: Seq<char>, ctx: LexContext, st: LexState) -> LexState {
    let c = cs[st.pos];
    let p = st.pos + 1;
    if c == '"' {
        LexState { dbl: false, ..st.at(p, st.cur.add_raw(seq![c])) }
    } else if c == '\\' {
        if p < cs.len() && dq_escapable(cs[p]) {
            st.at(p + 1, st.cur.add_raw(seq!['\\', cs[p]]).add_expanded(seq![cs[p]]))
        } else {
            st.at(p, st.cur.add_char('\\'))
        }
    } else if c == '$' {
        let r = var_expansion(st.cur, cs, p, ctx);
        st.at(r.1, r.0)
    } else {
        st.at(p, st.cur.add_char(c))
    }
}

/// One step outside quotes on the character at `st.pos`.
pub open spec fn step_plain(cs: Seq<char>, ctx: LexContext, st: LexState) -> LexState {
    let c = cs[st.pos];
    let p = st.pos + 1;
    let cur = st.cur;
    if c == '\'' {
        LexState { single: true, ..st.at(p, cur.add_raw(seq![c])) }
    } else if c == '"' {
        LexState { dbl: true, ..st.at(p, cur.add_raw(seq![c])) }
    } else if c == '\\' {
        if p < cs.len() {
            st.at(p + 1, cur.add_raw(seq!['\\', cs[p]]).add_expanded(seq![cs[p]]))
        } else {
            LexState { stop: true, ..st.at(p, cur.add_raw(seq!['\\'])) }
        }
    } else if c == '$' {
        let r = var_expansion(cur, cs, p, ctx);
        st.at(r.1, r.0)
    } else if c == '~' && cur.raw.len() == 0 {
        let exp = if p >= cs.len() || tilde_boundary(cs[p]) {
            ctx.home
        } else {
            seq!['~']
        };
        st.at(p, cur.add_raw(seq!['~']).add_expanded(exp))
    } else if c == '#' && cur.raw.len() == 0 {
        LexState { stop: true, ..st.at(p, cur) }
    } else if c == '|' || c == ';' {
        LexState {
            toks: flushed_tokens(st.toks, cur).push(sep_view(seq![c])),
            ..st.at(p, flushed_current(cur))
        }
    } else if c == '(' {
        let r = cmdsubst(cur.add_raw(seq!['(']), cs, p);
        st.at(r.1, r.0)
    } else if c == '&' && ends_with_redirect_op(cur.raw) {
        st.at(p, cur.add_char('&'))
    } else if c == '&' {
        if p < cs.len() && cs[p] == '&' {
            LexState {
                toks: flushed_tokens(st.toks, cur).push(sep_view(seq!['&', '&'])),
                ..st.at(p + 1, flushed_current(cur))
            }
        } else {
            LexState {
                toks: flushed_tokens(st.toks, cur).push(sep_view(seq!['&'])),
                ..st.at(p, flushed_current(cur))
            }
        }
    } else if white_space(c) {
        LexState { toks: flushed_tokens(st.toks, cur), ..st.at(p, flushed_current(cur)) }
    } else {
        st.at(p, cur.add_char(c))
    }
}

/// One step of the lexer on the character at `st.pos`.
pub open spec fn lex_step(cs: Seq<char>, ctx: LexContext, st: LexState) -> LexState {
    if st.single {
        step_single(cs, st)
    } else if st.dbl {
        step_double(cs, ctx, st)
    } else {
        step_plain(cs, ctx, st)
    }
}

pub open spec fn lex_done(cs: Seq<char>, st: LexState) -> bool {
    st.stop || st.pos >= cs.len() || st.pos < 0
}

/// The lexer state once every step has been taken.
pub open spec fn lex_run(cs: Seq<char>, ctx: LexContext, st: LexState) -> LexState
    decreases cs.len() - st.pos,
    via lex_run_decreases
{
    if lex_done(cs, st) {
        st
    } else {
        lex_run(cs, ctx, lex_step(cs, ctx, st))
    }
}

pub open spec fn lex_start() -> LexState {
    LexState {
        pos: 0,
        toks: Seq::empty(),
        cur: empty_token(),
        single: false,
        dbl: false,
        stop: false,
    }
}

/// The tokens of the command `cs`.
pub open spec fn tokens_of(cs: Seq<char>, ctx: LexContext) -> Seq<TokenView> {
    let fin = lex_run(cs, ctx, lex_start());
    flushed_tokens(fin.toks, fin.cur)
}

proof fn lemma_brace_end(cs: Seq<char>, k: int)
    requires
        0 <= k <= cs.len(),
    ensures
        k <= brace_end(cs, k) <= cs.len(),
    decreases cs.len() - k,
{
    if k < cs.len() && cs[k] != '}' {
        lemma_brace_end(cs, k + 1);
    }
}

proof fn lemma_name_end(cs: Seq<char>, k: int)
    requires
        0 <= k <= cs.len(),
    ensures
        k <= name_end(cs, k) <= cs.len(),
    decreases cs.len() - k,
{
    if k < cs.len() && is_name_char(cs[k]) {
        lemma_name_end(cs, k + 1);
    }
}

proof fn lemma_subst_end(cs: Seq<char>, k: int, depth: nat)
    requires
        0 <= k <= cs.len(),
    ensures
        k <= subst_end(cs, k, depth) <= cs.len(),
    decreases cs.len() - k,
{
    if k < cs.len() {
        if cs[k] == '(' {
            lemma_subst_end(cs, k + 1, depth + 1);
        } else if cs[k] == ')' {
            if depth > 1 {
                lemma_subst_end(cs, k + 1, (depth - 1) as nat);
            }
        } else {
            lemma_subst_end(cs, k + 1, depth);
        }
    }
}

proof fn lemma_var_expansion(t: TokenView, cs: Seq<char>, k: int, ctx: LexContext)
    requires
        0 <= k <= cs.len(),
    ensures
        k <= var_expansion(t, cs, k, ctx).1 <= cs.len(),
{
    if k < cs.len() && cs[k] == '(' {
        lemma_subst_end(cs, k + 1, 1);
    } else if k < cs.len() && cs[k] == '{' {
        lemma_brace_end(cs, k + 1);
    } else {
        lemma_name_end(cs, k);
    }
}

/// Each step moves forward and stays within the input.
pub proof fn lemma_step_advances(cs: Seq<char>, ctx: LexContext, st: LexState)
    requires
        !lex_done(cs, st),
    ensures
        st.pos < lex_step(cs, ctx, st).pos <= cs.len(),
{
    lemma_var_expansion(st.cur, cs, st.pos + 1, ctx);
    lemma_subst_end(cs, st.pos + 1, 1);
}

#[via_fn]
proof fn lex_run_decreases(cs: Seq<char>, ctx: LexContext, st: LexState) {
    if !lex_done(cs, st) {
        lemma_step_advances(cs, ctx, st);
    }
}

proof fn lemma_add_raw_twice(t: TokenView, a: Seq<char>, b: Seq<char>)
    ensures
        t.add_raw(a).add_raw(b) == t.add_raw(a + b),
{
    assert(t.raw + a + b =~= t.raw + (a + b));
}

fn new_token() -> (t: Token)
    ensures
        t@ == empty_token(),
{
    Token {
        raw: String::new(),
        expanded: String::new(),
        is_sep: false,
        is_redirect: false,
        is_redirect_target: false,
        has_cmdsubst: false,
    }
}

fn push_raw(t: &mut Token, c: char)
    ensures
        final(t)@ == old(t)@.add_raw(seq![c]),
{
    t.raw.push(c);
    assert(final(t)@.raw == old(t)@.raw + seq![c]);
}

fn push_char(t: &mut Token, c: char)
    ensures
        final(t)@ == old(t)@.add_char(c),
{
    t.raw.push(c);
    t.expanded.push(c);
}

fn push_expanded_char(t: &mut Token, c: char)
    ensures
        final(t)@ == old(t)@.add_expanded(seq![c]),
{
    t.expanded.push(c);
    assert(final(t)@.expanded == old(t)@.expanded + seq![c]);
}

fn push_expanded_str(t: &mut Token, s: &str)
    ensures
        final(t)@ == old(t)@.add_expanded(s@),
{
    crate::text::push_str(&mut t.expanded, s);
}

fn raw_is_empty(t: &Token) -> (r: bool)
    ensures
        r == (t@.raw.len() == 0),
{
    t.raw.as_str().is_empty()
}

fn ends_in_redirect_op(t: &Token) -> (r: bool)
    ensures
        r == ends_with_redirect_op(t@.raw),
{
    let s = t.raw.as_str();
    let n = s.unicode_len();
    if n == 0 {
        return false;
    }
    let c = s.get_char(n - 1);
    c == '>' || c == '<' || c == '^'
}

fn sep_token(c: char, twice: bool) -> (t: Token)
    ensures
        t@ == sep_view(if twice { seq![c, c] } else { seq![c] }),
{
    let mut raw = String::new();
    raw.push(c);
    if twice {
        raw.push(c);
        assert(raw@ =~= seq![c, c]);
    } else {
        assert(raw@ =~= seq![c]);
    }
    Token {
        raw,
        expanded: String::new(),
        is_sep: true,
        is_redirect: false,
        is_redirect_target: false,
        has_cmdsubst: false,
    }
}

/// Closes the current word: it joins the tokens if it holds text.
fn flush(toks: &mut Vec<Token>, cur: &mut Token)
    ensures
        token_views(final(toks)@) == flushed_tokens(token_views(old(toks)@), old(cur)@),
        final(cur)@ == flushed_current(old(cur)@),
{
    if !raw_is_empty(cur) {
        let mut t = new_token();
        std::mem::swap(cur, &mut t);
        let ghost before = token_views(toks@);
        toks.push(t);
        assert(token_views(toks@) == before.push(t@));
    }
}

/// Consumes a command substitution whose body starts at `k`, keeping its text
/// in the raw word and marking the word.
fn consume_cmdsubst(cur: &mut Token, cs: &Vec<char>, k: usize) -> (q: usize)
    requires
        1 <= k <= cs.len(),
    ensures
        (final(cur)@, q as int) == cmdsubst(old(cur)@, cs@, k as int),
{
    cur.has_cmdsubst = true;
    let ghost start = cur@;
    let n = cs.len();
    let mut i = k;
    let mut depth: usize = 1;
    proof {
        lemma_subst_end(cs@, k as int, 1);
    }
    assert(start.add_raw(cs@.subrange(k as int, k as int)).raw =~= start.raw);
    while i < n
        invariant
            n == cs.len(),
            1 <= k <= i <= n,
            1 <= depth <= i,
            start == (TokenView { has_cmdsubst: true, ..old(cur)@ }),
            subst_end(cs@, i as int, depth as nat) == subst_end(cs@, k as int, 1),
            cur@ == start.add_raw(cs@.subrange(k as int, i as int)),
        decreases n - i,
    {
        let c = cs[i];
        proof {
            lemma_add_raw_twice(start, cs@.subrange(k as int, i as int), seq![c]);
        }
        push_raw(cur, c);
        assert(cs@.subrange(k as int, i + 1) =~= cs@.subrange(k as int, i as int) + seq![c]);
        i = i + 1;
        if c == '(' {
            depth = depth + 1;
        } else if c == ')' {
            if depth == 1 {
                return i;
            }
            depth = depth - 1;
        }
    }
    i
}

/// The value of the first pair in `env` named `name`.
fn lookup_env(env: &[(String, String)], name: &Vec<char>) -> (r: Option<String>)
    ensures
        match r {
            Some(v) => env_lookup(env@, name@) == Some(v@),
            None => env_lookup(env@, name@) is None,
        },
{
    let n = env.len();
    let mut i: usize = 0;
    assert(env@.skip(0) =~= env@);
    while i < n
        invariant
            n == env@.len(),
            i <= n,
            env_lookup(env@.skip(i as int), name@) == env_lookup(env@, name@),
        decreases n - i,
    {
        let key = crate::text::chars_of(env[i].0.as_str());
        assert(env@.skip(i as int)[0] == env@[i as int]);
        assert(env@.skip(i as int).drop_first() == env@.skip(i + 1));
        if crate::path::chars_equal(&key, name) {
            return Some(env[i].1.clone());
        }
        i = i + 1;
    }
    None
}

fn is_home_name(name: &Vec<char>) -> (r: bool)
    ensures
        r == (name@ == name_home()),
{
    let r = name.len() == 4 && name[0] == 'H' && name[1] == 'O' && name[2] == 'M' && name[3]
        == 'E';
    proof {
        if r {
            assert(name@ =~= name_home());
        }
    }
    r
}

fn is_pwd_name(name: &Vec<char>) -> (r: bool)
    ensures
        r == (name@ == name_pwd()),
{
    let r = name.len() == 3 && name[0] == 'P' && name[1] == 'W' && name[2] == 'D';
    proof {
        if r {
            assert(name@ =~= name_pwd());
        }
    }
    r
}

/// The entry's context, as held by the executable lexer.
pub struct Context<'a> {
    pub cwd: &'a str,
    pub home: &'a str,
    pub env: &'a [(String, String)],
}

impl<'a> Context<'a> {
    pub open spec fn spec_ctx(&self) -> LexContext {
        LexContext { cwd: self.cwd@, home: self.home@, env: self.env@ }
    }
}

fn push_var_value(t: &mut Token, name: &Vec<char>, ctx: &Context)
    ensures
        final(t)@ == old(t)@.add_expanded(var_value(name@, ctx.spec_ctx())),
{
    if is_home_name(name) {
        push_expanded_str(t, ctx.home);
    } else if is_pwd_name(name) {
        push_expanded_str(t, ctx.cwd);
    } else {
        match lookup_env(ctx.env, name) {
            Some(v) => push_expanded_str(t, v.as_str()),
            None => push_expanded_char(t, '$'),
        }
    }
}

/// Reads a `$` expansion whose text starts at `k` (just past the `$`).
fn read_var(cur: &mut Token, cs: &Vec<char>, k: usize, ctx: &Context) -> (q: usize)
    requires
        1 <= k <= cs.len(),
    ensures
        (final(cur)@, q as int) == var_expansion(old(cur)@, cs@, k as int, ctx.spec_ctx()),
{
    push_raw(cur, '$');
    let ghost t1 = cur@;
    let n = cs.len();
    if k < n && cs[k] == '(' {
        push_raw(cur, '(');
        return consume_cmdsubst(cur, cs, k + 1);
    }
    let mut name: Vec<char> = Vec::new();
    if k < n && cs[k] == '{' {
        push_raw(cur, '{');
        assert(seq!['{'] + name@ =~= seq!['{']);
        let mut i = k + 1;
        proof {
            lemma_brace_end(cs@, k + 1);
        }
        while i < n && cs[i] != '}'
            invariant
                n == cs.len(),
                k + 1 <= i <= n,
                brace_end(cs@, i as int) == brace_end(cs@, k + 1),
                name@ == cs@.subrange(k + 1, i as int),
                cur@ == t1.add_raw(seq!['{'] + name@),
            decreases n - i,
        {
            let c = cs[i];
            proof {
                lemma_add_raw_twice(t1, seq!['{'] + name@, seq![c]);
            }
            push_raw(cur, c);
            name.push(c);
            assert(cs@.subrange(k + 1, i + 1) == cs@.subrange(k + 1, i as int).push(c));
            assert(seq!['{'] + name@ =~= (seq!['{'] + cs@.subrange(k + 1, i as int)) + seq![c]);
            i = i + 1;
        }
        let q = if i < n {
            proof {
                lemma_add_raw_twice(t1, seq!['{'] + name@, seq!['}']);
            }
            push_raw(cur, '}');
            i + 1
        } else {
            i
        };
        push_var_value(cur, &name, ctx);
        q
    } else {
        let mut i = k;
        proof {
            lemma_name_end(cs@, k as int);
        }
        assert(t1.add_raw(name@).raw =~= t1.raw);
        while i < n && (crate::text::is_alphanumeric(cs[i]) || cs[i] == '_')
            invariant
                n == cs.len(),
                k <= i <= n,
                name_end(cs@, i as int) == name_end(cs@, k as int),
                name@ == cs@.subrange(k as int, i as int),
                cur@ == t1.add_raw(name@),
            decreases n - i,
        {
            let c = cs[i];
            proof {
                lemma_add_raw_twice(t1, name@, seq![c]);
            }
            push_raw(cur, c);
            let ghost old_name = name@;
            name.push(c);
            assert(old_name + seq![c] =~= name@);
            assert(cs@.subrange(k as int, i + 1) == cs@.subrange(k as int, i as int).push(c));
            i = i + 1;
        }
        push_var_value(cur, &name, ctx);
        i
    }
}

/// The executable lexer state.
struct Lexer {
    pos: usize,
    toks: Vec<Token>,
    cur: Token,
    single: bool,
    dbl: bool,
    stop: bool,
}

impl View for Lexer {
    type V = LexState;

    closed spec fn view(&self) -> LexState {
        LexState {
            pos: self.pos as int,
            toks: token_views(self.toks@),
            cur: self.cur@,
            single: self.single,
            dbl: self.dbl,
            stop: self.stop,
        }
    }
}

fn run_step_single(cs: &Vec<char>, st: &mut Lexer)
    requires
        old(st).pos < cs.len(),
    ensures
        final(st)@ == step_single(cs@, old(st)@),
{
    let c = cs[st.pos];
    if c == '\'' {
        st.single = false;
        push_raw(&mut st.cur, c);
    } else {
        push_char(&mut st.cur, c);
    }
    st.pos = st.pos + 1;
}

fn run_step_double(cs: &Vec<char>, ctx: &Context, st: &mut Lexer)
    requires
        old(st).pos < cs.len(),
    ensures
        final(st)@ == step_double(cs@, ctx.spec_ctx(), old(st)@),
{
    let c = cs[st.pos];
    let p = st.pos + 1;
    if c == '"' {
        st.dbl = false;
        push_raw(&mut st.cur, c);
        st.pos = p;
    } else if c == '\\' {
        if p < cs.len() && (cs[p] == '$' || cs[p] == '`' || cs[p] == '"' || cs[p] == '\\' || cs[p]
            == '\n') {
            let n = cs[p];
            proof {
                lemma_add_raw_twice(st.cur@, seq!['\\'], seq![n]);
                assert(seq!['\\'] + seq![n] =~= seq!['\\', n]);
            }
            push_raw(&mut st.cur, '\\');
            push_raw(&mut st.cur, n);
            push_expanded_char(&mut st.cur, n);
            st.pos = p + 1;
        } else {
            push_char(&mut st.cur, '\\');
            st.pos = p;
        }
    } else if c == '$' {
        let q = read_var(&mut st.cur, cs, p, ctx);
        st.pos = q;
    } else {
        push_char(&mut st.cur, c);
        st.pos = p;
    }
}

fn run_step_plain(cs: &Vec<char>, ctx: &Context, st: &mut Lexer)
    requires
        old(st).pos < cs.len(),
    ensures
        final(st)@ == step_plain(cs@, ctx.spec_ctx(), old(st)@),
{
    let c = cs[st.pos];
    let p = st.pos + 1;
    let n = cs.len();
    if c == '\'' {
        st.single = true;
        push_raw(&mut st.cur, c);
        st.pos = p;
    } else if c == '"' {
        st.dbl = true;
        push_raw(&mut st.cur, c);
        st.pos = p;
    } else if c == '\\' {
        if p < n {
            let x = cs[p];
            proof {
                lemma_add_raw_twice(st.cur@, seq!['\\'], seq![x]);
                assert(seq!['\\'] + seq![x] =~= seq!['\\', x]);
            }
            push_raw(&mut st.cur, '\\');
            push_raw(&mut st.cur, x);
            push_expanded_char(&mut st.cur, x);
            st.pos = p + 1;
        } else {
            push_raw(&mut st.cur, '\\');
            st.stop = true;
            st.pos = p;
        }
    } else if c == '$' {
        let q = read_var(&mut st.cur, cs, p, ctx);
        st.pos = q;
    } else if c == '~' && raw_is_empty(&st.cur) {
        push_raw(&mut st.cur, '~');
        if p >= n || cs[p] == '/' || crate::text::is_whitespace(cs[p]) || cs[p] == ';' || cs[p]
            == '&' || cs[p] == '|' || cs[p] == '<' || cs[p] == '>' || cs[p] == '^' {
            push_expanded_str(&mut st.cur, ctx.home);
        } else {
            push_expanded_char(&mut st.cur, '~');
        }
        st.pos = p;
    } else if c == '#' && raw_is_empty(&st.cur) {
        st.stop = true;
        st.pos = p;
    } else if c == '|' || c == ';' {
        flush(&mut st.toks, &mut st.cur);
        let t = sep_token(c, false);
        let ghost before = token_views(st.toks@);
        st.toks.push(t);
        assert(token_views(st.toks@) == before.push(t@));
        st.pos = p;
    } else if c == '(' {
        push_raw(&mut st.cur, '(');
        let q = consume_cmdsubst(&mut st.cur, cs, p);
        st.pos = q;
    } else if c == '&' && ends_in_redirect_op(&st.cur) {
        push_char(&mut st.cur, '&');
        st.pos = p;
    } else if c == '&' {
        flush(&mut st.toks, &mut st.cur);
        let andand = p < n && cs[p] == '&';
        let t = sep_token('&', andand);
        let ghost before = token_views(st.toks@);
        st.toks.push(t);
        assert(token_views(st.toks@) == before.push(t@));
        st.pos = if andand {
            p + 1
        } else {
            p
        };
    } else if crate::text::is_whitespace(c) {
        flush(&mut st.toks, &mut st.cur);
        st.pos = p;
    } else {
        push_char(&mut st.cur, c);
        st.pos = p;
    }
}

/// Splits `command` into tokens following fish's quoting rules closely enough
/// for path detection. `cwd` and `home` are the entry's directory and the home
/// directory; `env` is a snapshot of the environment as (name, value) pairs.
pub fn tokenize(command: &str, cwd: &str, home: &str, env: &[(String, String)]) -> (r: Vec<Token>)
    ensures
        token_views(r@) == tokens_of(command@, LexContext { cwd: cwd@, home: home@, env: env@ }),
{
    let cs = crate::text::chars_of(command);
    let ctx = Context { cwd, home, env };
    let ghost lctx = ctx.spec_ctx();
    let mut st = Lexer {
        pos: 0,
        toks: Vec::new(),
        cur: new_token(),
        single: false,
        dbl: false,
        stop: false,
    };
    assert(token_views(st.toks@) =~= Seq::<TokenView>::empty());
    assert(st@ == lex_start());
    let n = cs.len();
    while !st.stop && st.pos < n
        invariant
            n == cs.len(),
            st.pos <= n,
            lctx == ctx.spec_ctx(),
            lex_run(cs@, lctx, st@) == lex_run(cs@, lctx, lex_start()),
        decreases n - st.pos,
    {
        let ghost before = st@;
        proof {
            lemma_step_advances(cs@, lctx, before);
        }
        if st.single {
            run_step_single(&cs, &mut st);
        } else if st.dbl {
            run_step_double(&cs, &ctx, &mut st);
        } else {
            run_step_plain(&cs, &ctx, &mut st);
        }
        assert(st@ == lex_step(cs@, lctx, before));
    }
    flush(&mut st.toks, &mut st.cur);
    st.toks
}

/// The texts a separator token can have.
pub open spec fn is_separator_text(r: Seq<char>) -> bool {
    r == seq!['|'] || r == seq![';'] || r == seq!['&'] || r == seq!['&', '&']
}

/// A token as the lexer makes it: non-empty, a separator only with separator
/// text, and not yet marked as a redirect or redirect target.
pub open spec fn lexed_token(t: TokenView) -> bool {
    &&& t.raw.len() > 0
    &&& (t.is_sep ==> is_separator_text(t.raw))
    &&& !t.is_redirect
    &&& !t.is_redirect_target
}

pub open spec fn lex_state_ok(st: LexState) -> bool {
    &&& forall|i: int| 0 <= i < st.toks.len() ==> lexed_token(#[trigger] st.toks[i])
    &&& !st.cur.is_sep
    &&& !st.cur.is_redirect
    &&& !st.cur.is_redirect_target
}

proof fn lemma_flush_ok(toks: Seq<TokenView>, cur: TokenView, extra: Seq<TokenView>)
    requires
        forall|i: int| 0 <= i < toks.len() ==> lexed_token(#[trigger] toks[i]),
        forall|i: int| 0 <= i < extra.len() ==> lexed_token(#[trigger] extra[i]),
        !cur.is_sep,
        !cur.is_redirect,
        !cur.is_redirect_target,
    ensures
        forall|i: int|
            0 <= i < (flushed_tokens(toks, cur) + extra).len() ==> lexed_token(
                #[trigger] (flushed_tokens(toks, cur) + extra)[i],
            ),
        !flushed_current(cur).is_sep,
        !flushed_current(cur).is_redirect,
        !flushed_current(cur).is_redirect_target,
{
    let f = flushed_tokens(toks, cur);
    assert forall|i: int| 0 <= i < (f + extra).len() implies lexed_token(
        #[trigger] (f + extra)[i],
    ) by {
        if i < f.len() {
            if i < toks.len() {
                assert(f[i] == toks[i]);
            }
        } else {
            assert((f + extra)[i] == extra[i - f.len()]);
        }
    }
}

proof fn lemma_step_ok(cs: Seq<char>, ctx: LexContext, st: LexState)
    requires
        !lex_done(cs, st),
        lex_state_ok(st),
    ensures
        lex_state_ok(lex_step(cs, ctx, st)),
{
    let c = cs[st.pos];
    let p = st.pos + 1;
    if !st.single && !st.dbl {
        if c == '|' || c == ';' {
            lemma_flush_ok(st.toks, st.cur, seq![sep_view(seq![c])]);
            assert(flushed_tokens(st.toks, st.cur).push(sep_view(seq![c])) == flushed_tokens(
                st.toks,
                st.cur,
            ) + seq![sep_view(seq![c])]);
        } else if c == '&' && !ends_with_redirect_op(st.cur.raw) {
            if p < cs.len() && cs[p] == '&' {
                lemma_flush_ok(st.toks, st.cur, seq![sep_view(seq!['&', '&'])]);
                assert(flushed_tokens(st.toks, st.cur).push(sep_view(seq!['&', '&']))
                    == flushed_tokens(st.toks, st.cur) + seq![sep_view(seq!['&', '&'])]);
            } else {
                lemma_flush_ok(st.toks, st.cur, seq![sep_view(seq!['&'])]);
                assert(flushed_tokens(st.toks, st.cur).push(sep_view(seq!['&'])) == flushed_tokens(
                    st.toks,
                    st.cur,
                ) + seq![sep_view(seq!['&'])]);
            }
        } else if white_space(c) {
            lemma_flush_ok(st.toks, st.cur, Seq::empty());
            assert(flushed_tokens(st.toks, st.cur) + Seq::<TokenView>::empty() == flushed_tokens(
                st.toks,
                st.cur,
            ));
        }
    }
}

proof fn lemma_run_ok(cs: Seq<char>, ctx: LexContext, st: LexState)
    requires
        lex_state_ok(st),
    ensures
        lex_state_ok(lex_run(cs, ctx, st)),
    decreases cs.len() - st.pos,
{
    if !lex_done(cs, st) {
        lemma_step_advances(cs, ctx, st);
        lemma_step_ok(cs, ctx, st);
        lemma_run_ok(cs, ctx, lex_step(cs, ctx, st));
    }
}

/// The tokenizer never yields an empty word; separators are exactly `|`, `;`,
/// `&` and `&&`; and no word comes out marked as a redirect or redirect
/// target (that is done afterwards).
pub proof fn law_tokens_are_well_formed(cs: Seq<char>, ctx: LexContext)
    ensures
        forall|i: int|
            0 <= i < tokens_of(cs, ctx).len() ==> lexed_token(#[trigger] tokens_of(cs, ctx)[i]),
{
    assert(lex_state_ok(lex_start()));
    lemma_run_ok(cs, ctx, lex_start());
    let fin = lex_run(cs, ctx, lex_start());
    lemma_flush_ok(fin.toks, fin.cur, Seq::empty());
    assert(flushed_tokens(fin.toks, fin.cur) + Seq::<TokenView>::empty() == flushed_tokens(
        fin.toks,
        fin.cur,
    ));
}

/// Inside double quotes a `$` expands exactly as it does outside them: the step
/// on a `$` differs from the unquoted one only in staying inside the quotes.
/// For a bare `$NAME` (no `(` or `{` after the `$`) the word gains `$NAME` as
/// typed and the variable's value, and the lexer moves past the name.
pub proof fn law_dollar_expands_inside_double_quotes(cs: Seq<char>, ctx: LexContext, st: LexState)
    requires
        !st.single,
        st.dbl,
        !st.stop,
        0 <= st.pos < cs.len(),
        cs[st.pos] == '$',
    ensures
        lex_step(cs, ctx, st) == (LexState { dbl: true, ..lex_step(cs, ctx, LexState { dbl: false, ..st }) }),
        !(st.pos + 1 < cs.len() && (cs[st.pos + 1] == '(' || cs[st.pos + 1] == '{')) ==> {
            let e = name_end(cs, st.pos + 1);
            let s = lex_step(cs, ctx, st);
            &&& s.pos == e
            &&& s.dbl
            &&& s.toks == st.toks
            &&& s.cur.raw == st.cur.raw + cs.subrange(st.pos, e)
            &&& s.cur.expanded == st.cur.expanded + var_value(cs.subrange(st.pos + 1, e), ctx)
        },
{
    lemma_name_end(cs, st.pos + 1);
    let e = name_end(cs, st.pos + 1);
    assert(st.cur.raw + seq!['$'] + cs.subrange(st.pos + 1, e) =~= st.cur.raw + cs.subrange(
        st.pos,
        e,
    ));
}

proof fn lemma_brace_end_at(cs: Seq<char>, k: int, e: int)
    requires
        0 <= k <= e < cs.len(),
        cs[e] == '}',
        forall|j: int| k <= j < e ==> cs[j] != '}',
    ensures
        brace_end(cs, k) == e,
    decreases e - k,
{
    if k < e {
        lemma_brace_end_at(cs, k + 1, e);
    }
}

/// Inside double quotes, characters other than `"`, `\` and `$` are taken as
/// they are, up to the closing quote.
proof fn lemma_double_quoted_run(cs: Seq<char>, ctx: LexContext, st: LexState, end: int)
    requires
        !st.single,
        st.dbl,
        !st.stop,
        0 <= st.pos <= end < cs.len(),
        cs[end] == '"',
        forall|j: int| st.pos <= j < end ==> cs[j] != '"' && cs[j] != '\\' && cs[j] != '$',
    ensures
        lex_run(cs, ctx, st) == lex_run(
            cs,
            ctx,
            LexState {
                pos: end + 1,
                dbl: false,
                cur: st.cur.add_raw(cs.subrange(st.pos, end + 1)).add_expanded(
                    cs.subrange(st.pos, end),
                ),
                ..st
            },
        ),
    decreases end - st.pos,
{
    let next = lex_step(cs, ctx, st);
    assert(lex_run(cs, ctx, st) == lex_run(cs, ctx, next));
    let c = cs[st.pos];
    if st.pos == end {
        assert(st.cur.raw + seq![c] =~= st.cur.raw + cs.subrange(st.pos, end + 1));
        assert(st.cur.expanded =~= st.cur.expanded + cs.subrange(st.pos, end));
    } else {
        lemma_double_quoted_run(cs, ctx, next, end);
        assert(st.cur.raw.push(c) + cs.subrange(st.pos + 1, end + 1) =~= st.cur.raw
            + cs.subrange(st.pos, end + 1));
        assert(st.cur.expanded.push(c) + cs.subrange(st.pos + 1, end) =~= st.cur.expanded
            + cs.subrange(st.pos, end));
    }
}

/// A double-quoted word `"${NAME}rest"` is one word whose text as typed is the
/// whole of it and whose value is the variable's value followed by `rest`,
/// just as unquoted `${NAME}rest` would give.
pub proof fn law_braced_variable_in_double_quotes(name: Seq<char>, rest: Seq<char>, ctx: LexContext)
    requires
        forall|j: int| 0 <= j < name.len() ==> name[j] != '}',
        forall|j: int|
            0 <= j < rest.len() ==> rest[j] != '"' && rest[j] != '\\' && rest[j] != '$',
    ensures
        ({
            let cs = seq!['"', '$', '{'] + name + seq!['}'] + rest + seq!['"'];
            tokens_of(cs, ctx) == seq![
                TokenView {
                    raw: cs,
                    expanded: var_value(name, ctx) + rest,
                    is_sep: false,
                    is_redirect: false,
                    is_redirect_target: false,
                    has_cmdsubst: false,
                },
            ]
        }),
{
    let cs = seq!['"', '$', '{'] + name + seq!['}'] + rest + seq!['"'];
    let n = name.len() as int;
    let m = rest.len() as int;
    assert(cs.len() == n + m + 5);
    assert(cs[0] == '"');
    assert(cs[1] == '$');
    assert(cs[2] == '{');
    assert(cs[3 + n] == '}');
    assert(cs[4 + n + m] == '"');
    assert forall|j: int| 3 <= j < 3 + n implies cs[j] != '}' by {
        assert(cs[j] == name[j - 3]);
    }
    assert forall|j: int| 4 + n <= j < 4 + n + m implies cs[j] != '"' && cs[j] != '\\' && cs[j]
        != '$' by {
        assert(cs[j] == rest[j - 4 - n]);
    }
    lemma_brace_end_at(cs, 3, 3 + n);
    assert(cs.subrange(3, 3 + n) =~= name);
    assert(cs.subrange(4 + n, 4 + n + m) =~= rest);
    let s0 = lex_start();
    let s1 = lex_step(cs, ctx, s0);
    assert(s1.pos == 1 && s1.dbl && !s1.single && !s1.stop);
    let s2 = lex_step(cs, ctx, s1);
    assert(s2.pos == 4 + n && s2.dbl && !s2.single && !s2.stop);
    lemma_double_quoted_run(cs, ctx, s2, 4 + n + m);
    let s3 = LexState {
        pos: 4 + n + m + 1,
        dbl: false,
        cur: s2.cur.add_raw(cs.subrange(4 + n, 4 + n + m + 1)).add_expanded(
            cs.subrange(4 + n, 4 + n + m),
        ),
        ..s2
    };
    assert(lex_run(cs, ctx, s0) == lex_run(cs, ctx, s1));
    assert(lex_run(cs, ctx, s1) == lex_run(cs, ctx, s2));
    assert(lex_run(cs, ctx, s3) == s3);
    assert(s3.toks.len() == 0);
    assert(s3.cur.raw =~= cs);
    assert(s3.cur.expanded =~= var_value(name, ctx) + rest);
    assert(flushed_tokens(s3.toks, s3.cur) =~= seq![s3.cur]);
}

} // verus!
