//! Rendering of history entries in the fish, bash and zsh history formats.
//!
//! Each function returns the whole text of the history file; writing it (to a
//! temporary sibling that then replaces the file) is the caller's part.
use vstd::prelude::*;
use crate::atuin::{HistoryEntry, seconds_of};
use crate::fish_paths::detected_paths;
use crate::text::decimal;

verus! {

/// The escape of one character in fish's history format.
pub open spec fn escape_char(c: char) -> Seq<char> {
    if c == '\\' {
        seq!['\\', '\\']
    } else if c == '\n' {
        seq!['\\', 'n']
    } else {
        seq![c]
    }
}

/// `s` escaped the way fish serializes history: `\` becomes `\\` and a newline
/// becomes a literal `\n`.
pub open spec fn escaped(s: Seq<char>) -> Seq<char>
    decreases s.len(),
{
    if s.len() == 0 {
        Seq::empty()
    } else {
        escaped(s.drop_last()) + escape_char(s.last())
    }
}

/// Escape a string the way fish serializes history: `\` -> `\\`, newline -> literal `\n`.
pub fn escape_fish_yaml(s: &str) -> (r: String)
    ensures
        r@ == escaped(s@),
{
    let cs = crate::text::chars_of(s);
    let mut out = String::new();
    let n = cs.len();
    let mut k: usize = 0;
    assert(cs@.take(0) == Seq::<char>::empty());
    while k < n
        invariant
            n == cs.len(),
            k <= n,
            out@ == escaped(cs@.take(k as int)),
        decreases n - k,
    {
        let c = cs[k];
        assert(cs@.take(k + 1).drop_last() == cs@.take(k as int));
        assert(cs@.take(k + 1).last() == c);
        let ghost before = out@;
        if c == '\\' {
            out.push('\\');
            out.push('\\');
            assert(out@ == before + seq!['\\', '\\']);
        } else if c == '\n' {
            out.push('\\');
            out.push('n');
            assert(out@ == before + seq!['\\', 'n']);
        } else {
            out.push(c);
            assert(out@ == before + seq![c]);
        }
        k = k + 1;
    }
    assert(cs@.take(n as int) == cs@);
    out
}

/// A sibling temporary path used for atomic replacement: `output` with `.tmp` appended.
pub fn temp_path(output: &str) -> (r: String)
    ensures
        r@ == output@ + seq!['.', 't', 'm', 'p'],
{
    let mut out = String::new();
    crate::text::push_str(&mut out, output);
    crate::text::push_chars(&mut out, &vec!['.', 't', 'm', 'p']);
    out
}

/// Two entries belong to the same run: same session and same command.
pub open spec fn same_run(a: HistoryEntry, b: HistoryEntry) -> bool {
    a.session@ == b.session@ && a.command@ == b.command@
}

/// Entry `i` is the last of its run: the next entry, if any, is not a repeat of
/// it in the same session.
pub open spec fn ends_run(es: Seq<HistoryEntry>, i: int) -> bool {
    i + 1 >= es.len() || !same_run(es[i], es[i + 1])
}

/// The indices below `k` of the entries that end their run, in increasing order.
pub open spec fn run_ends(es: Seq<HistoryEntry>, k: int) -> Seq<int>
    decreases k,
{
    if k <= 0 {
        Seq::empty()
    } else if ends_run(es, k - 1) {
        run_ends(es, k - 1).push(k - 1)
    } else {
        run_ends(es, k - 1)
    }
}

/// The indices of the entries that fish keeps: fish merges consecutive
/// duplicate commands within one session, keeping the latest, so only the
/// last entry of each run is written.
pub fn fish_kept_entries(entries: &[HistoryEntry]) -> (r: Vec<usize>)
    ensures
        r@.map_values(|i: usize| i as int) == run_ends(entries@, entries@.len() as int),
{
    let n = entries.len();
    let mut out: Vec<usize> = Vec::new();
    let mut k: usize = 0;
    assert(out@.map_values(|i: usize| i as int) =~= Seq::<int>::empty());
    while k < n
        invariant
            n == entries@.len(),
            k <= n,
            out@.map_values(|i: usize| i as int) == run_ends(entries@, k as int),
        decreases n - k,
    {
        let last = k + 1 >= n || !(entries[k].session == entries[k + 1].session
            && entries[k].command == entries[k + 1].command);
        if last {
            let ghost before = out@.map_values(|i: usize| i as int);
            out.push(k);
            assert(out@.map_values(|i: usize| i as int) =~= before.push(k as int));
        }
        k = k + 1;
    }
    out
}

pub open spec fn cmd_prefix() -> Seq<char> {
    seq!['-', ' ', 'c', 'm', 'd', ':', ' ']
}

pub open spec fn when_prefix() -> Seq<char> {
    seq!['\n', ' ', ' ', 'w', 'h', 'e', 'n', ':', ' ']
}

pub open spec fn paths_header() -> Seq<char> {
    seq![' ', ' ', 'p', 'a', 't', 'h', 's', ':', '\n']
}

pub open spec fn path_prefix() -> Seq<char> {
    seq![' ', ' ', ' ', ' ', '-', ' ']
}

/// The `paths:` items: one `    - <path>` line per path.
pub open spec fn path_lines(paths: Seq<Seq<char>>) -> Seq<char>
    decreases paths.len(),
{
    if paths.len() == 0 {
        Seq::empty()
    } else {
        path_lines(paths.drop_last()) + path_prefix() + escaped(paths.last()) + seq!['\n']
    }
}

/// One entry in fish's history format: `- cmd:` / `  when:` plus a `paths:`
/// block when there are paths.
pub open spec fn fish_record(cmd: Seq<char>, when: int, paths: Seq<Seq<char>>) -> Seq<char> {
    cmd_prefix() + escaped(cmd) + when_prefix() + decimal(when) + seq!['\n'] + (if paths.len()
        > 0 {
        paths_header() + path_lines(paths)
    } else {
        Seq::empty()
    })
}

/// The fish history text for the first `k` entries.
pub open spec fn fish_text(
    es: Seq<HistoryEntry>,
    k: int,
    home: Seq<char>,
    mounts: Seq<String>,
    env: Seq<(String, String)>,
    existing: Seq<String>,
) -> Seq<char>
    decreases k,
{
    if k <= 0 {
        Seq::empty()
    } else {
        let e = es[k - 1];
        fish_text(es, k - 1, home, mounts, env, existing) + if ends_run(es, k - 1) {
            fish_record(
                e.command@,
                seconds_of(e.timestamp_ns as int),
                detected_paths(e.command@, e.cwd@, home, mounts, env, existing),
            )
        } else {
            Seq::empty()
        }
    }
}

fn write_fish_entry(
    out: &mut String,
    entry: &HistoryEntry,
    home: &str,
    mounts: &[String],
    env: &[(String, String)],
    existing: &[String],
)
    ensures
        final(out)@ == old(out)@ + fish_record(
            entry.command@,
            seconds_of(entry.timestamp_ns as int),
            detected_paths(entry.command@, entry.cwd@, home@, mounts@, env@, existing@),
        ),
{
    let ghost start = out@;
    crate::text::push_chars(out, &vec!['-', ' ', 'c', 'm', 'd', ':', ' ']);
    let cmd = escape_fish_yaml(entry.command.as_str());
    crate::text::push_str(out, cmd.as_str());
    crate::text::push_chars(out, &vec!['\n', ' ', ' ', 'w', 'h', 'e', 'n', ':', ' ']);
    crate::text::push_decimal(out, entry.when());
    out.push('\n');
    let ghost head = out@;
    assert(head == start + cmd_prefix() + escaped(entry.command@) + when_prefix() + decimal(
        seconds_of(entry.timestamp_ns as int),
    ) + seq!['\n']);
    let paths = crate::fish_paths::detect_paths(
        entry.command.as_str(),
        entry.cwd.as_str(),
        home,
        mounts,
        env,
        existing,
    );
    let ghost ps = crate::fish_paths::string_views(paths@);
    if paths.len() > 0 {
        crate::text::push_chars(out, &vec![' ', ' ', 'p', 'a', 't', 'h', 's', ':', '\n']);
        let ghost mid = out@;
        let n = paths.len();
        let mut k: usize = 0;
        assert(ps.take(0) == Seq::<Seq<char>>::empty());
        while k < n
            invariant
                n == paths.len(),
                ps == crate::fish_paths::string_views(paths@),
                k <= n,
                out@ == mid + path_lines(ps.take(k as int)),
            decreases n - k,
        {
            assert(ps.take(k + 1).drop_last() == ps.take(k as int));
            assert(ps.take(k + 1).last() == paths@[k as int]@);
            crate::text::push_chars(out, &vec![' ', ' ', ' ', ' ', '-', ' ']);
            let p = escape_fish_yaml(paths[k].as_str());
            crate::text::push_str(out, p.as_str());
            out.push('\n');
            k = k + 1;
        }
        assert(ps.take(n as int) == ps);
        assert(out@ == head + (paths_header() + path_lines(ps)));
    } else {
        assert(out@ == head + Seq::<char>::empty());
    }
}

/// The fish history file for `entries`, matching fish's own format: each kept
/// entry (see [`fish_kept_entries`]) renders `- cmd:` / `  when:` plus a
/// `paths:` block when the command's arguments resolve to existing files (see
/// [`crate::fish_paths::detect_paths`], whose `home`, `mounts`, `env` and
/// `existing` these are).
pub fn export_fish(
    entries: &[HistoryEntry],
    home: &str,
    mounts: &[String],
    env: &[(String, String)],
    existing: &[String],
) -> (r: String)
    ensures
        r@ == fish_text(entries@, entries@.len() as int, home@, mounts@, env@, existing@),
{
    let n = entries.len();
    let mut out = String::new();
    let mut k: usize = 0;
    while k < n
        invariant
            n == entries@.len(),
            k <= n,
            out@ == fish_text(entries@, k as int, home@, mounts@, env@, existing@),
        decreases n - k,
    {
        let last = k + 1 >= n || !(entries[k].session == entries[k + 1].session
            && entries[k].command == entries[k + 1].command);
        if last {
            write_fish_entry(&mut out, &entries[k], home, mounts, env, existing);
        } else {
            assert(out@ == out@ + Seq::<char>::empty());
        }
        k = k + 1;
    }
    out
}

/// One entry in bash's history format: a `#<when>` timestamp line, then the command.
pub open spec fn bash_record(e: HistoryEntry) -> Seq<char> {
    seq!['#'] + decimal(seconds_of(e.timestamp_ns as int)) + seq!['\n'] + e.command@ + seq![
        '\n',
    ]
}

/// The bash history text for the first `k` entries.
pub open spec fn bash_text(es: Seq<HistoryEntry>, k: int) -> Seq<char>
    decreases k,
{
    if k <= 0 {
        Seq::empty()
    } else {
        bash_text(es, k - 1) + bash_record(es[k - 1])
    }
}

/// One entry in zsh's extended history format: `: <when>:0;<cmd>`.
pub open spec fn zsh_record(e: HistoryEntry) -> Seq<char> {
    seq![':', ' '] + decimal(seconds_of(e.timestamp_ns as int)) + seq![':', '0', ';'] + e.command@
        + seq!['\n']
}

/// The zsh history text for the first `k` entries.
pub open spec fn zsh_text(es: Seq<HistoryEntry>, k: int) -> Seq<char>
    decreases k,
{
    if k <= 0 {
        Seq::empty()
    } else {
        zsh_text(es, k - 1) + zsh_record(es[k - 1])
    }
}

/// The bash history file for `entries`: a `#<when>` timestamp line per entry,
/// then the command.
pub fn export_bash(entries: &[HistoryEntry]) -> (r: String)
    ensures
        r@ == bash_text(entries@, entries@.len() as int),
{
    let n = entries.len();
    let mut out = String::new();
    let mut k: usize = 0;
    while k < n
        invariant
            n == entries@.len(),
            k <= n,
            out@ == bash_text(entries@, k as int),
        decreases n - k,
    {
        let e = &entries[k];
        let ghost before = out@;
        out.push('#');
        crate::text::push_decimal(&mut out, e.when());
        out.push('\n');
        crate::text::push_str(&mut out, e.command.as_str());
        out.push('\n');
        assert(out@ == before + bash_record(entries@[k as int]));
        k = k + 1;
    }
    out
}

/// The zsh history file for `entries`: `: <when>:0;<cmd>` per entry.
pub fn export_zsh(entries: &[HistoryEntry]) -> (r: String)
    ensures
        r@ == zsh_text(entries@, entries@.len() as int),
{
    let n = entries.len();
    let mut out = String::new();
    let mut k: usize = 0;
    while k < n
        invariant
            n == entries@.len(),
            k <= n,
            out@ == zsh_text(entries@, k as int),
        decreases n - k,
    {
        let e = &entries[k];
        let ghost before = out@;
        out.push(':');
        out.push(' ');
        crate::text::push_decimal(&mut out, e.when());
        crate::text::push_chars(&mut out, &vec![':', '0', ';']);
        crate::text::push_str(&mut out, e.command.as_str());
        out.push('\n');
        assert(out@ == before + zsh_record(entries@[k as int]));
        k = k + 1;
    }
    out
}

proof fn lemma_run_ends_facts(es: Seq<HistoryEntry>, k: int)
    requires
        0 <= k <= es.len(),
    ensures
        forall|m: int|
            0 <= m < run_ends(es, k).len() ==> 0 <= #[trigger] run_ends(es, k)[m] < k && ends_run(
                es,
                run_ends(es, k)[m],
            ),
        forall|m1: int, m2: int|
            0 <= m1 < m2 < run_ends(es, k).len() ==> #[trigger] run_ends(es, k)[m1]
                < #[trigger] run_ends(es, k)[m2],
        forall|i: int| 0 <= i < k && ends_run(es, i) ==> #[trigger] run_ends(es, k).contains(i),
    decreases k,
{
    if k > 0 {
        lemma_run_ends_facts(es, k - 1);
        let prev = run_ends(es, k - 1);
        if ends_run(es, k - 1) {
            assert forall|i: int| 0 <= i < k && ends_run(es, i) implies #[trigger] run_ends(
                es,
                k,
            ).contains(i) by {
                if i < k - 1 {
                    assert(prev.contains(i));
                    let m = choose|m: int| 0 <= m < prev.len() && prev[m] == i;
                    assert(run_ends(es, k)[m] == i);
                } else {
                    assert(run_ends(es, k)[prev.len() as int] == i);
                }
            }
        }
    }
}

/// The entries that fish keeps are exactly those that end their run, each
/// once and in their original order.
pub proof fn law_kept_entries_end_their_runs(es: Seq<HistoryEntry>)
    ensures
        forall|m: int|
            0 <= m < run_ends(es, es.len() as int).len() ==> 0 <= #[trigger] run_ends(
                es,
                es.len() as int,
            )[m] < es.len() && ends_run(es, run_ends(es, es.len() as int)[m]),
        forall|m1: int, m2: int|
            0 <= m1 < m2 < run_ends(es, es.len() as int).len() ==> #[trigger] run_ends(
                es,
                es.len() as int,
            )[m1] < #[trigger] run_ends(es, es.len() as int)[m2],
        forall|i: int|
            0 <= i < es.len() && ends_run(es, i) ==> #[trigger] run_ends(
                es,
                es.len() as int,
            ).contains(i),
{
    lemma_run_ends_facts(es, es.len() as int);
}

/// A command that follows the same command in a different shell session is not
/// merged with it: the earlier entry is kept.
pub proof fn law_new_session_stays_separate(es: Seq<HistoryEntry>, i: int)
    requires
        0 <= i < es.len() - 1,
        es[i].session@ != es[i + 1].session@,
    ensures
        run_ends(es, es.len() as int).contains(i),
{
    lemma_run_ends_facts(es, es.len() as int);
}

proof fn lemma_run_reaches_end(es: Seq<HistoryEntry>, i: int)
    requires
        0 <= i < es.len(),
    ensures
        exists|j: int|
            i <= j < es.len() && #[trigger] ends_run(es, j) && forall|k: int|
                i <= k <= j ==> same_run(es[i], #[trigger] es[k]),
    decreases es.len() - i,
{
    if ends_run(es, i) {
        assert(forall|k: int| i <= k <= i ==> same_run(es[i], #[trigger] es[k]));
    } else {
        lemma_run_reaches_end(es, i + 1);
        let j = choose|j: int|
            i + 1 <= j < es.len() && #[trigger] ends_run(es, j) && forall|k: int|
                i + 1 <= k <= j ==> same_run(es[i + 1], #[trigger] es[k]);
        assert forall|k: int| i <= k <= j implies same_run(es[i], #[trigger] es[k]) by {
            if k > i {
                assert(same_run(es[i + 1], es[k]));
            }
        }
    }
}

/// Consecutive duplicates within a session merge into one entry carrying the
/// latest run's timestamp: every entry is represented by a kept entry at or
/// after it that repeats its command in its session.
pub proof fn law_each_run_keeps_its_latest(es: Seq<HistoryEntry>, i: int)
    requires
        0 <= i < es.len(),
    ensures
        exists|j: int|
            i <= j < es.len() && #[trigger] run_ends(es, es.len() as int).contains(j) && forall|
                k: int,
            |
                i <= k <= j ==> same_run(es[i], #[trigger] es[k]),
{
    lemma_run_reaches_end(es, i);
    lemma_run_ends_facts(es, es.len() as int);
    let j = choose|j: int|
        i <= j < es.len() && #[trigger] ends_run(es, j) && forall|k: int|
            i <= k <= j ==> same_run(es[i], #[trigger] es[k]);
    assert(run_ends(es, es.len() as int).contains(j));
}

proof fn lemma_not_kept_between(es: Seq<HistoryEntry>, a: int, b: int)
    requires
        0 <= a < b < es.len(),
        forall|k: int| a <= k < b ==> !#[trigger] ends_run(es, k),
    ensures
        same_run(es[a], es[b]),
    decreases b - a,
{
    assert(!ends_run(es, a));
    if a + 1 < b {
        lemma_not_kept_between(es, a + 1, b);
    }
}

/// The fish history never holds two adjacent records of the same command in
/// the same session.
pub proof fn law_no_adjacent_duplicates(es: Seq<HistoryEntry>, m: int)
    requires
        0 <= m,
        m + 1 < run_ends(es, es.len() as int).len(),
    ensures
        !same_run(
            es[run_ends(es, es.len() as int)[m]],
            es[run_ends(es, es.len() as int)[m + 1]],
        ),
{
    let ks = run_ends(es, es.len() as int);
    lemma_run_ends_facts(es, es.len() as int);
    let a = ks[m];
    let b = ks[m + 1];
    assert(a < b);
    assert(ends_run(es, a));
    assert(forall|k: int| a < k < b ==> !#[trigger] ends_run(es, k)) by {
        assert forall|k: int| a < k < b implies !#[trigger] ends_run(es, k) by {
            if ends_run(es, k) {
                assert(ks.contains(k));
                let x = choose|x: int| 0 <= x < ks.len() && ks[x] == k;
                if x <= m {
                    if x < m {
                        assert(ks[x] < ks[m]);
                    }
                } else if x >= m + 1 {
                    if x > m + 1 {
                        assert(ks[m + 1] < ks[x]);
                    }
                }
            }
        }
    }
    if a + 1 < b {
        lemma_not_kept_between(es, a + 1, b);
    }
}

/// fish's reading of an escaped history string: `\\` is a backslash and `\n` a
/// newline.
pub open spec fn unescaped(s: Seq<char>) -> Seq<char>
    decreases s.len(),
{
    if s.len() == 0 {
        Seq::empty()
    } else if s.len() >= 2 && s[0] == '\\' && s[1] == 'n' {
        seq!['\n'] + unescaped(s.skip(2))
    } else if s.len() >= 2 && s[0] == '\\' && s[1] == '\\' {
        seq!['\\'] + unescaped(s.skip(2))
    } else {
        seq![s[0]] + unescaped(s.skip(1))
    }
}

proof fn lemma_escaped_append(a: Seq<char>, b: Seq<char>)
    ensures
        escaped(a + b) == escaped(a) + escaped(b),
    decreases b.len(),
{
    if b.len() == 0 {
        assert(a + b =~= a);
        assert(escaped(a) + escaped(b) =~= escaped(a));
    } else {
        lemma_escaped_append(a, b.drop_last());
        assert((a + b).drop_last() =~= a + b.drop_last());
        assert(escaped(a) + escaped(b.drop_last()) + escape_char(b.last()) =~= escaped(a) + (
        escaped(b.drop_last()) + escape_char(b.last())));
    }
}

/// Escaping keeps each record on one line: the escaped text holds no newline.
pub proof fn law_escaped_has_no_newline(s: Seq<char>)
    ensures
        forall|i: int| 0 <= i < escaped(s).len() ==> #[trigger] escaped(s)[i] != '\n',
    decreases s.len(),
{
    if s.len() > 0 {
        law_escaped_has_no_newline(s.drop_last());
        let a = escaped(s.drop_last());
        let b = escape_char(s.last());
        assert forall|i: int| 0 <= i < escaped(s).len() implies #[trigger] escaped(s)[i]
            != '\n' by {
            if i < a.len() {
                assert(escaped(s)[i] == a[i]);
            } else {
                assert(escaped(s)[i] == b[i - a.len()]);
            }
        }
    }
}

/// Escaping loses nothing: fish reads back exactly the string that was escaped.
pub proof fn law_escape_round_trip(s: Seq<char>)
    ensures
        unescaped(escaped(s)) == s,
    decreases s.len(),
{
    if s.len() > 0 {
        let c = s[0];
        let rest = s.skip(1);
        assert(s =~= seq![c] + rest);
        lemma_escaped_append(seq![c], rest);
        assert(seq![c].drop_last() =~= Seq::<char>::empty());
        assert(seq![c].last() == c);
        assert(escaped(Seq::<char>::empty()) == Seq::<char>::empty());
        assert(escaped(seq![c]) == escaped(Seq::<char>::empty()) + escape_char(c));
        assert(escaped(seq![c]) =~= escape_char(c));
        law_escape_round_trip(rest);
        let e = escape_char(c) + escaped(rest);
        if c == '\\' {
            assert(e.skip(2) =~= escaped(rest));
        } else if c == '\n' {
            assert(e.skip(2) =~= escaped(rest));
        } else {
            assert(e.skip(1) =~= escaped(rest));
        }
        assert(seq![c] + rest =~= s);
    }
}

/// The bash text of one entry, spelled out: `#<seconds>`, a newline, the command, a newline.
pub open spec fn bash_entry_text(e: HistoryEntry) -> Seq<char> {
    seq!['#'] + decimal(seconds_of(e.timestamp_ns as int)) + seq!['\n'] + e.command@ + seq!['\n']
}

/// The zsh text of one entry, spelled out: `: <seconds>:0;<command>` and a newline.
pub open spec fn zsh_entry_text(e: HistoryEntry) -> Seq<char> {
    seq![':', ' '] + decimal(seconds_of(e.timestamp_ns as int)) + seq![':', '0', ';'] + e.command@
        + seq!['\n']
}

proof fn lemma_bash_prefix(es: Seq<HistoryEntry>, k: int)
    requires
        0 <= k <= es.len(),
    ensures
        bash_text(es, k) == es.take(k).map_values(|e: HistoryEntry| bash_entry_text(e)).flatten_alt(),
    decreases k,
{
    let f = |e: HistoryEntry| bash_entry_text(e);
    if k == 0 {
        assert(es.take(0).map_values(f) =~= Seq::<Seq<char>>::empty());
    } else {
        lemma_bash_prefix(es, k - 1);
        assert(es.take(k).map_values(f).drop_last() =~= es.take(k - 1).map_values(f));
        assert(es.take(k).map_values(f).last() == f(es[k - 1]));
    }
}

/// Every entry is written to the bash history, once and in order, as
/// `#<seconds>` on one line and the command on the next; nothing is merged or dropped.
pub proof fn law_bash_writes_every_entry(es: Seq<HistoryEntry>)
    ensures
        bash_text(es, es.len() as int) == es.map_values(|e: HistoryEntry| bash_entry_text(e)).flatten(),
{
    lemma_bash_prefix(es, es.len() as int);
    assert(es.take(es.len() as int) =~= es);
    es.map_values(|e: HistoryEntry| bash_entry_text(e)).lemma_flatten_and_flatten_alt_are_equivalent();
}

proof fn lemma_zsh_prefix(es: Seq<HistoryEntry>, k: int)
    requires
        0 <= k <= es.len(),
    ensures
        zsh_text(es, k) == es.take(k).map_values(|e: HistoryEntry| zsh_entry_text(e)).flatten_alt(),
    decreases k,
{
    let f = |e: HistoryEntry| zsh_entry_text(e);
    if k == 0 {
        assert(es.take(0).map_values(f) =~= Seq::<Seq<char>>::empty());
    } else {
        lemma_zsh_prefix(es, k - 1);
        assert(es.take(k).map_values(f).drop_last() =~= es.take(k - 1).map_values(f));
        assert(es.take(k).map_values(f).last() == f(es[k - 1]));
    }
}

/// Every entry is written to the zsh history, once and in order, as
/// `: <seconds>:0;<command>`; unlike fish, repeats are not merged.
pub proof fn law_zsh_writes_every_entry(es: Seq<HistoryEntry>)
    ensures
        zsh_text(es, es.len() as int) == es.map_values(|e: HistoryEntry| zsh_entry_text(e)).flatten(),
{
    lemma_zsh_prefix(es, es.len() as int);
    assert(es.take(es.len() as int) =~= es);
    es.map_values(|e: HistoryEntry| zsh_entry_text(e)).lemma_flatten_and_flatten_alt_are_equivalent();
}

/// One `paths:` item, spelled out: four spaces, `- `, the escaped path, a newline.
pub open spec fn path_item_text(p: Seq<char>) -> Seq<char> {
    seq![' ', ' ', ' ', ' ', '-', ' '] + escaped(p) + seq!['\n']
}

proof fn lemma_path_lines_items(paths: Seq<Seq<char>>)
    ensures
        path_lines(paths) == paths.map_values(|p: Seq<char>| path_item_text(p)).flatten_alt(),
    decreases paths.len(),
{
    let f = |p: Seq<char>| path_item_text(p);
    if paths.len() == 0 {
        assert(paths.map_values(f) =~= Seq::<Seq<char>>::empty());
    } else {
        lemma_path_lines_items(paths.drop_last());
        assert(paths.map_values(f).drop_last() =~= paths.drop_last().map_values(f));
        assert(paths.map_values(f).last() == f(paths.last()));
        assert(path_prefix() + escaped(paths.last()) + seq!['\n'] == f(paths.last()));
        assert(path_lines(paths.drop_last()) + path_prefix() + escaped(paths.last()) + seq!['\n']
            =~= path_lines(paths.drop_last()) + f(paths.last()));
    }
}

/// A fish record lists every path it is given, in order: after `- cmd:` and
/// `  when:`, a `  paths:` line and then one `    - <escaped path>` line per
/// path, or nothing when there are no paths.
pub proof fn law_fish_record_lists_every_path(cmd: Seq<char>, when: int, paths: Seq<Seq<char>>)
    ensures
        fish_record(cmd, when, paths) == seq!['-', ' ', 'c', 'm', 'd', ':', ' '] + escaped(cmd)
            + seq!['\n', ' ', ' ', 'w', 'h', 'e', 'n', ':', ' '] + decimal(when) + seq!['\n'] + (
        if paths.len() > 0 {
            seq![' ', ' ', 'p', 'a', 't', 'h', 's', ':', '\n'] + paths.map_values(
                |p: Seq<char>| path_item_text(p),
            ).flatten()
        } else {
            Seq::empty()
        }),
{
    lemma_path_lines_items(paths);
    paths.map_values(|p: Seq<char>| path_item_text(p)).lemma_flatten_and_flatten_alt_are_equivalent();
}

} // verus!
