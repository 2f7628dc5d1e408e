use atuin_export::fish_paths::{
    classify_redirects, detect_paths, is_fd_redirect, is_redirect_start, is_unreliable_fs,
    normalize_lexically, parse_mount_points, path_candidates, redirect_op_index,
    self_contained_redirect, skips_detection, tokenize,
};
use std::path::PathBuf;

/// An in-memory stand-in for the fixture tree of the original tests:
/// `/t/home` with `x` and `sub/`; `/t/work` with `.backlog`, `a.txt`, `b.txt`,
/// `my file.txt`.
fn fixture_exists(path: &str) -> bool {
    let known = [
        "/t", "/t/home", "/t/home/x", "/t/home/sub", "/t/work", "/t/work/.backlog",
        "/t/work/a.txt", "/t/work/b.txt", "/t/work/my file.txt",
    ];
    let norm = normalize_lexically(path);
    let norm = norm.trim_end_matches('/');
    known.contains(&norm)
}

fn detect_in_fixture(cmd: &str, cwd: &str, home: &str, mounts: &[String], env: &[(String, String)]) -> Vec<String> {
    let existing: Vec<String> = path_candidates(cmd, cwd, home, mounts, env)
        .into_iter()
        .filter(|c| !c.under_unreliable_mount && fixture_exists(&c.path))
        .map(|c| c.path)
        .collect();
    detect_paths(cmd, cwd, home, mounts, env, &existing)
}

#[test]
fn detect_paths_matches_fish_semantics() {
    let home = "/t/home";
    let cwd = "/t/work";
    let cases: &[(&str, &[&str])] = &[
        ("ll .backlog", &[".backlog"]),
        ("git pull", &[]),
        ("echo hello", &[]),
        ("cat a.txt | cat > out.txt", &["a.txt"]),
        ("rm *", &[]),
        ("cat \"my file.txt\"", &["\"my file.txt\""]),
        ("rg x ~ 2>/dev/null", &["~"]),
        ("cat $(ls a.txt)", &[]),
        ("cd ~; ll", &["~"]),
        ("cat ~/x", &["~/x"]),
        ("cd ~/sub", &["~/sub"]),
        ("exec foo bar", &[]),
        ("--flag a.txt", &["a.txt"]),
        ("sudo rm -rf /nonexistent-xyz/", &[]),
        ("printf 'a\\nb'", &[]),
        ("cat ./a.txt", &["./a.txt"]),
        ("ls 'my file.txt'", &["'my file.txt'"]),
        ("cmd 2>&1 > out.txt", &[]),
        ("sleep 5 & echo a.txt", &[]),
    ];
    for (cmd, expected) in cases {
        let actual = detect_in_fixture(cmd, cwd, home, &[], &[]);
        let expected: Vec<String> = expected.iter().map(|s| s.to_string()).collect();
        assert_eq!(actual, expected, "command: {cmd}");
    }
}

#[test]
fn detect_paths_unknown_cwd_drops_relative_paths() {
    assert_eq!(
        detect_in_fixture("go mod init .", "unknown", "/t/home", &[], &[]),
        Vec::<String>::new()
    );
}

#[test]
fn detect_paths_expands_environment_variables() {
    let env = vec![("ATUIN_EXPORT_TEST_DIR".to_string(), "/t/home/sub".to_string())];
    assert_eq!(
        detect_in_fixture("mv a.txt $ATUIN_EXPORT_TEST_DIR/", "/t/work", "/t/home", &[], &env),
        vec!["a.txt", "$ATUIN_EXPORT_TEST_DIR/"]
    );
}

#[test]
fn detect_paths_records_paths_under_unreliable_mounts() {
    let mounts = vec!["/fake/mnt".to_string()];
    assert_eq!(
        detect_in_fixture("cat /fake/mnt/gone.txt", "/t/work", "/t/home", &mounts, &[]),
        vec!["/fake/mnt/gone.txt"]
    );
    assert_eq!(
        detect_in_fixture("cat /fake/mnt/sub/../gone.txt", "/t/work", "/t/home", &mounts, &[]),
        vec!["/fake/mnt/sub/../gone.txt"]
    );
}

#[test]
fn normalize_lexically_resolves_dotdot() {
    assert_eq!(
        PathBuf::from(normalize_lexically("/home/user/../mnt")),
        PathBuf::from("/home/mnt")
    );
    assert_eq!(
        PathBuf::from(normalize_lexically("/mnt/dav/sub/..")),
        PathBuf::from("/mnt/dav")
    );
}

#[test]
fn double_quoted_escapes_drop_backslash_in_expanded() {
    let tokens = tokenize("cat \"\\$HOME\"", "/tmp", "/home", &[]);
    assert_eq!(tokens.len(), 2);
    assert_eq!(tokens[1].raw, "\"\\$HOME\"");
    assert_eq!(tokens[1].expanded, "$HOME");
}

#[test]
fn classifies_unreliable_filesystems() {
    for fs in [
        "fuse", "fuse.rclone", "fuse.sshfs", "fuseblk", "nfs", "nfs4", "cifs", "smb3", "sshfs",
        "davfs", "davfs2",
    ] {
        assert!(is_unreliable_fs(fs), "{fs} should be unreliable");
    }
    for fs in ["ext4", "btrfs", "tmpfs", "overlay", "xfs", "vfat"] {
        assert!(!is_unreliable_fs(fs), "{fs} should be reliable");
    }
}

#[test]
fn parses_mount_points() {
    let content = "/dev/nvme0n1p2 / ext4 rw 0 0\n/dev/nvme0n1p1 /mnt/data1 btrfs rw 0 0\nrclone: /mnt/dav fuse.rclone rw,nofail 0 0\n192.168.1.5:/srv /mnt/nas nfs rw 0 0\ntmpfs /tmp tmpfs rw 0 0\n";
    let parsed: Vec<PathBuf> = parse_mount_points(content).into_iter().map(PathBuf::from).collect();
    assert_eq!(parsed, vec![PathBuf::from("/mnt/dav"), PathBuf::from("/mnt/nas")]);
}

#[test]
fn mount_lines_with_crlf_and_short_lines() {
    let content = "a /m1 nfs\r\nshort line\n\nb /m2 ext4\nc /m3 fuse.x";
    assert_eq!(parse_mount_points(content), vec!["/m1", "/m3"]);
    assert_eq!(parse_mount_points(""), Vec::<String>::new());
}

#[test]
fn tokenize_quotes_comments_and_separators() {
    let t = tokenize("a 'b c'#x && d;e|f & g # comment", "/w", "/h", &[]);
    let raws: Vec<&str> = t.iter().map(|t| t.raw.as_str()).collect();
    assert_eq!(raws, vec!["a", "'b c'#x", "&&", "d", ";", "e", "|", "f", "&", "g"]);
    assert_eq!(t[1].expanded, "b c#x");
    assert!(t[2].is_sep && t[4].is_sep && t[6].is_sep && t[8].is_sep);
    assert!(!t[0].is_sep);
}

#[test]
fn tokenize_tilde_and_variables() {
    let env = vec![("X1".to_string(), "one".to_string()), ("X1".to_string(), "two".to_string())];
    let t = tokenize("~ ~/a ~b a~ $HOME ${PWD}/x $X1 $UNSET ${X1", "/w", "/h", &env);
    let exp: Vec<&str> = t.iter().map(|t| t.expanded.as_str()).collect();
    assert_eq!(exp, vec!["/h", "/h/a", "~b", "a~", "/h", "/w/x", "one", "$", "one"]);
    assert_eq!(t[8].raw, "${X1");
}

#[test]
fn tokenize_command_substitution_and_escapes() {
    let t = tokenize("x$(a (b) c)y (z w \\q \\", "/w", "/h", &[]);
    assert_eq!(t.len(), 2);
    assert_eq!(t[0].raw, "x$(a (b) c)y");
    assert!(t[0].has_cmdsubst);
    assert_eq!(t[1].raw, "(z w \\q \\");
    assert!(t[1].has_cmdsubst);
    let t = tokenize("a\\ b \\", "/w", "/h", &[]);
    assert_eq!(t.len(), 2);
    assert_eq!(t[0].raw, "a\\ b");
    assert_eq!(t[0].expanded, "a b");
    assert_eq!(t[1].raw, "\\");
}

#[test]
fn tokenize_unicode_whitespace_and_names() {
    let env = vec![("ÄB_1".to_string(), "v".to_string())];
    let t = tokenize("a\tb\u{3000}c $ÄB_1.x", "/w", "/h", &env);
    let raws: Vec<&str> = t.iter().map(|t| t.raw.as_str()).collect();
    assert_eq!(raws, vec!["a", "b", "c", "$ÄB_1.x"]);
    assert_eq!(t[3].expanded, "v.x");
}

#[test]
fn redirect_helpers() {
    assert_eq!(redirect_op_index("2>&1"), Some(1));
    assert_eq!(redirect_op_index(">out"), Some(0));
    assert_eq!(redirect_op_index("12<"), Some(2));
    assert_eq!(redirect_op_index("^x"), Some(0));
    assert_eq!(redirect_op_index("a>"), None);
    assert_eq!(redirect_op_index("123"), None);
    assert!(is_redirect_start("2>"));
    assert!(!is_redirect_start(""));
    assert!(self_contained_redirect("2>&1"));
    assert!(self_contained_redirect(">|"));
    assert!(self_contained_redirect("1>|"));
    assert!(!self_contained_redirect(">&"));
    assert!(!self_contained_redirect("2>"));
    assert!(!self_contained_redirect("2>&x"));
    assert!(is_fd_redirect(&vec!['&', '1', '2']));
    assert!(!is_fd_redirect(&vec!['&']));
}

#[test]
fn classify_marks_operators_and_targets() {
    let mut t = tokenize("cmd > out 2>&1 < in | x >| y", "/w", "/h", &[]);
    classify_redirects(&mut t);
    let flags: Vec<(bool, bool)> = t.iter().map(|t| (t.is_redirect, t.is_redirect_target)).collect();
    assert_eq!(
        flags,
        vec![
            (false, false), (true, false), (false, true), (true, false), (true, false),
            (false, true), (false, false), (false, false), (true, false), (false, false),
            (false, false),
        ]
    );
}

#[test]
fn skips_detection_rules() {
    let skip = |c: &str| {
        let mut t = tokenize(c, "/w", "/h", &[]);
        classify_redirects(&mut t);
        skips_detection(&t)
    };
    assert!(skip("exit"));
    assert!(skip("ls; command echo x"));
    assert!(skip("> f reboot"));
    assert!(!skip("ls echo"));
    assert!(!skip("command ls exec"));
    assert!(skip("ls | exec x"));
}

#[test]
fn path_candidates_report_paths_and_mounts() {
    let mounts = vec!["/m".to_string()];
    let c = path_candidates("cat a ../m/b /m/../c -x", "/m/d", "/h", &mounts, &[]);
    let got: Vec<(&str, &str, bool)> = c
        .iter()
        .map(|c| (c.raw.as_str(), c.path.as_str(), c.under_unreliable_mount))
        .collect();
    assert_eq!(
        got,
        vec![
            ("a", "/m/d/a", true),
            ("../m/b", "/m/d/../m/b", true),
            ("/m/../c", "/m/../c", false),
        ]
    );
    assert_eq!(
        detect_paths("cat /x /y", "/", "/h", &[], &[], &["/y".to_string()]),
        vec!["/y"]
    );
}

#[test]
fn command_word_is_not_a_path() {
    let home = "/t/home";
    let cwd = "/t/work";
    assert_eq!(detect_in_fixture("./a.txt", cwd, home, &[], &[]), Vec::<String>::new());
    assert_eq!(detect_in_fixture("./a.txt b.txt", cwd, home, &[], &[]), vec!["b.txt"]);
    assert_eq!(
        detect_in_fixture("command a.txt b.txt; > x.txt ~ a.txt", cwd, home, &[], &[]),
        vec!["b.txt", "a.txt"]
    );
    let mounts = vec!["/fake".to_string()];
    assert_eq!(detect_in_fixture("/fake/run /fake/x", cwd, home, &mounts, &[]), vec!["/fake/x"]);
}

#[test]
fn more_unreliable_mounts_record_more() {
    let few = vec!["/m1".to_string()];
    let more = vec!["/m2".to_string(), "/m1".to_string()];
    assert_eq!(detect_in_fixture("ls /m1/a /m2/b", "/", "/h", &few, &[]), vec!["/m1/a"]);
    assert_eq!(detect_in_fixture("ls /m1/a /m2/b", "/", "/h", &more, &[]), vec!["/m1/a", "/m2/b"]);
}

#[test]
fn whitespace_matches_std() {
    for u in 0u32..=0x10FFFF {
        if let Some(c) = char::from_u32(u) {
            assert_eq!(atuin_export::text::is_whitespace(c), c.is_whitespace(), "U+{u:04X}");
        }
    }
}
