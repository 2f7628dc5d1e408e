use atuin_export::atuin::HistoryEntry;
use atuin_export::export::{
    escape_fish_yaml, export_bash, export_fish, export_zsh, fish_kept_entries, temp_path,
};
use atuin_export::fish_paths::{normalize_lexically, path_candidates};

fn entry(ts: i64, cmd: &str, cwd: &str, session: &str) -> HistoryEntry {
    HistoryEntry {
        timestamp_ns: ts,
        command: cmd.into(),
        cwd: cwd.into(),
        session: session.into(),
    }
}

fn sample_entries(dir: &str) -> Vec<HistoryEntry> {
    vec![
        entry(100_000_000_000, "git pull", "", "s1"),
        entry(200_000_000_000, "ll .backlog", dir, "s1"),
    ]
}

/// The candidate paths of the kept entries that exist in a directory holding
/// only `.backlog`.
fn existing_in(dir: &str, entries: &[HistoryEntry], home: &str) -> Vec<String> {
    let backlog = format!("{dir}/.backlog");
    let mut out = Vec::new();
    for i in fish_kept_entries(entries) {
        let e = &entries[i];
        for c in path_candidates(&e.command, &e.cwd, home, &[], &[]) {
            if normalize_lexically(&c.path) == backlog {
                out.push(c.path);
            }
        }
    }
    out
}

fn fish(entries: &[HistoryEntry], home: &str) -> String {
    let existing = existing_in(home, entries, home);
    export_fish(entries, home, &[], &[], &existing)
}

#[test]
fn fish_export_writes_fish_format_with_paths() {
    let dir = "/tmp/x";
    let content = fish(&sample_entries(dir), dir);
    assert_eq!(
        content,
        "- cmd: git pull\n  when: 100\n- cmd: ll .backlog\n  when: 200\n  paths:\n    - .backlog\n"
    );
    assert_eq!(temp_path("/a/fish_history"), "/a/fish_history.tmp");
}

#[test]
fn fish_export_regenerates_file() {
    let dir = "/tmp/x";
    let entries = sample_entries(dir);
    let content = fish(&entries, dir);
    assert!(!content.contains("stale command"));
    assert_eq!(content.matches("- cmd:").count(), 2);
    assert_eq!(
        content,
        "- cmd: git pull\n  when: 100\n- cmd: ll .backlog\n  when: 200\n  paths:\n    - .backlog\n"
    );
    assert_eq!(fish(&entries, dir), content);
}

#[test]
fn bash_and_zsh_export_render_their_formats() {
    let entries = sample_entries("/tmp/x");
    assert_eq!(export_bash(&entries), "#100\ngit pull\n#200\nll .backlog\n");
    assert_eq!(export_zsh(&entries), ": 100:0;git pull\n: 200:0;ll .backlog\n");
}

#[test]
fn escapes_backslashes_and_newlines() {
    assert_eq!(escape_fish_yaml("plain"), "plain");
    assert_eq!(escape_fish_yaml("a\\b"), "a\\\\b");
    assert_eq!(escape_fish_yaml("l1\nl2"), "l1\\nl2");
}

#[test]
fn fish_export_merges_consecutive_duplicates_in_one_session() {
    let entries = vec![
        entry(100_000_000_000, "ll", "", "s1"),
        entry(110_000_000_000, "ll", "", "s1"),
        entry(120_000_000_000, "ll", "", "s1"),
    ];
    assert_eq!(fish(&entries, "/tmp/x"), "- cmd: ll\n  when: 120\n");
}

#[test]
fn fish_export_keeps_duplicates_across_sessions() {
    let entries = vec![
        entry(100_000_000_000, "ll", "", "s1"),
        entry(110_000_000_000, "ll", "", "s2"),
    ];
    assert_eq!(
        fish(&entries, "/tmp/x"),
        "- cmd: ll\n  when: 100\n- cmd: ll\n  when: 110\n"
    );
}

#[test]
fn fish_kept_entries_are_run_ends() {
    let entries = vec![
        entry(1, "a", "", "s1"),
        entry(2, "a", "", "s1"),
        entry(3, "b", "", "s1"),
        entry(4, "a", "", "s1"),
        entry(5, "a", "", "s2"),
        entry(6, "a", "", "s2"),
    ];
    assert_eq!(fish_kept_entries(&entries), vec![1, 2, 3, 5]);
    assert_eq!(fish_kept_entries(&[]), Vec::<usize>::new());
}

#[test]
fn fish_record_escapes_command_and_paths() {
    let entries = vec![entry(-1_500_000_000, "cat '\\x'\necho", "/", "s")];
    let existing = vec!["/\\x".to_string()];
    assert_eq!(
        export_fish(&entries, "/h", &[], &[], &existing),
        "- cmd: cat '\\\\x'\\necho\n  when: -1\n  paths:\n    - '\\\\x'\n"
    );
}

#[test]
fn when_rounds_toward_zero() {
    assert_eq!(entry(1_999_999_999, "", "", "").when(), 1);
    assert_eq!(entry(-1_999_999_999, "", "", "").when(), -1);
    assert_eq!(entry(i64::MIN, "", "", "").when(), -9223372036);
    assert_eq!(entry(i64::MAX, "", "", "").when(), 9223372036);
    assert_eq!(
        export_zsh(&[entry(i64::MIN, "x", "", "")]),
        ": -9223372036:0;x\n"
    );
}

#[test]
fn bash_keeps_newlines_unescaped() {
    let entries = vec![entry(0, "a\nb", "", "s")];
    assert_eq!(export_bash(&entries), "#0\na\nb\n");
    assert_eq!(export_bash(&[]), "");
}
