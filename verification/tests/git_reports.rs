use repo_tree::git::{
    absolute_path, checked_stdout, get_all_branches, get_current_branch, get_git_status,
    init_git_repo, is_git_repo, parse_branch_line, parse_branches, parse_status,
    reports_work_tree, switch_branch, CommandOutcome, GitError, GitQuery,
};
use repo_tree::status::{classify, StatusKind, StatusMap};

fn ran(stdout: &str) -> CommandOutcome {
    CommandOutcome::Exited { success: true, stdout: stdout.as_bytes().to_vec(), stderr: Vec::new() }
}

fn failed(stderr: &str) -> CommandOutcome {
    CommandOutcome::Exited {
        success: false,
        stdout: b"ignored".to_vec(),
        stderr: stderr.as_bytes().to_vec(),
    }
}

fn not_started(reason: &str) -> CommandOutcome {
    CommandOutcome::LaunchFailed { reason: reason.to_string() }
}

fn pairs(map: &StatusMap) -> Vec<(String, StatusKind)> {
    map.entries().iter().map(|e| (e.path.clone(), e.kind)).collect()
}

#[test]
fn status_line_modified_in_index() {
    let map = get_git_status("/repo", &ran("M  src/main.rs")).unwrap();
    assert_eq!(map.get("/repo/src/main.rs"), Some(StatusKind::Modified));
    assert_eq!(pairs(&map), vec![("/repo/src/main.rs".to_string(), StatusKind::Modified)]);
    assert_eq!(StatusKind::Modified.label(), "modified");
}

#[test]
fn status_line_untracked() {
    let map = parse_status("?? newfile.txt", "/repo");
    assert_eq!(map.get("/repo/newfile.txt"), Some(StatusKind::Untracked));
    assert_eq!(map.get("/repo/newfile.txt").unwrap().label(), "untracked");
}

#[test]
fn branch_list_strips_marker_and_indent() {
    let names = get_all_branches(&ran("* main\n  dev\n")).unwrap();
    assert_eq!(names, vec!["main", "dev"]);
}

#[test]
fn work_tree_answer_false_is_no_error() {
    assert_eq!(is_git_repo(&ran("false\n")), Ok(false));
    assert_eq!(is_git_repo(&ran("true\n")), Ok(true));
    assert_eq!(is_git_repo(&ran("  true  ")), Ok(true));
    assert_eq!(is_git_repo(&ran("True\n")), Ok(false));
    assert_eq!(is_git_repo(&ran("")), Ok(false));
    assert_eq!(
        is_git_repo(&not_started("No such file or directory (os error 2)")),
        Err(GitError::ProcessLaunch("No such file or directory (os error 2)".to_string()))
    );
}

#[test]
fn work_tree_word_is_compared_after_trimming() {
    assert!(reports_work_tree("true"));
    assert!(reports_work_tree("\ttrue\r\n"));
    assert!(!reports_work_tree("true true"));
    assert!(!reports_work_tree("tru"));
}

#[test]
fn status_code_table() {
    assert_eq!(classify("M"), StatusKind::Modified);
    assert_eq!(classify(" M"), StatusKind::Modified);
    assert_eq!(classify("MM"), StatusKind::Modified);
    assert_eq!(classify("A"), StatusKind::Added);
    assert_eq!(classify("AM"), StatusKind::Added);
    assert_eq!(classify("D"), StatusKind::Deleted);
    assert_eq!(classify(" D"), StatusKind::Deleted);
    assert_eq!(classify("R"), StatusKind::Renamed);
    assert_eq!(classify("C"), StatusKind::Copied);
    assert_eq!(classify("??"), StatusKind::Untracked);
    assert_eq!(classify(""), StatusKind::Unknown);
    assert_eq!(classify("UU"), StatusKind::Unknown);
    assert_eq!(classify("AA"), StatusKind::Unknown);
    assert_eq!(classify("RM"), StatusKind::Unknown);
    assert_eq!(classify("?"), StatusKind::Unknown);
    assert_eq!(classify("MMM"), StatusKind::Unknown);
    assert_eq!(classify("m"), StatusKind::Unknown);
}

#[test]
fn status_kind_labels() {
    assert_eq!(StatusKind::Modified.label(), "modified");
    assert_eq!(StatusKind::Added.label(), "added");
    assert_eq!(StatusKind::Deleted.label(), "deleted");
    assert_eq!(StatusKind::Renamed.label(), "renamed");
    assert_eq!(StatusKind::Copied.label(), "copied");
    assert_eq!(StatusKind::Untracked.label(), "untracked");
    assert_eq!(StatusKind::Unknown.label(), "unknown");
}

#[test]
fn status_report_reads_each_kind() {
    let text = " M a.txt\nA  b.txt\nAM c.txt\n D d.txt\nD  e.txt\nR  f.txt\nC  g.txt\n?? h.txt\nUU i.txt\nMM j.txt\n";
    let map = parse_status(text, "/w");
    assert_eq!(
        pairs(&map),
        vec![
            ("/w/a.txt".to_string(), StatusKind::Modified),
            ("/w/b.txt".to_string(), StatusKind::Added),
            ("/w/c.txt".to_string(), StatusKind::Added),
            ("/w/d.txt".to_string(), StatusKind::Deleted),
            ("/w/e.txt".to_string(), StatusKind::Deleted),
            ("/w/f.txt".to_string(), StatusKind::Renamed),
            ("/w/g.txt".to_string(), StatusKind::Copied),
            ("/w/h.txt".to_string(), StatusKind::Untracked),
            ("/w/i.txt".to_string(), StatusKind::Unknown),
            ("/w/j.txt".to_string(), StatusKind::Modified),
        ]
    );
}

#[test]
fn status_report_skips_short_lines() {
    let map = parse_status("M a\n\n??\nM  b\nabc\n", "/w");
    assert_eq!(pairs(&map), vec![("/w/b".to_string(), StatusKind::Modified)]);
    assert_eq!(pairs(&parse_status("", "/w")), Vec::new());
    assert_eq!(pairs(&parse_status("M  \n", "/w")), Vec::new());
    assert_eq!(pairs(&parse_status("M   \n", "/w")), vec![("/w/".to_string(), StatusKind::Modified)]);
}

#[test]
fn status_report_counts_characters_not_bytes() {
    let map = parse_status("?? \u{e9}\nM \u{4e2d}\n", "/w");
    assert_eq!(pairs(&map), vec![("/w/\u{e9}".to_string(), StatusKind::Untracked)]);
    let wide = parse_status("\u{e9}\u{e9} x.txt", "/w");
    assert_eq!(pairs(&wide), vec![("/w/x.txt".to_string(), StatusKind::Unknown)]);
}

#[test]
fn status_report_later_line_replaces_earlier() {
    let map = parse_status("D  same.rs\n?? other.rs\nA  same.rs\n", "/w");
    assert_eq!(
        pairs(&map),
        vec![
            ("/w/same.rs".to_string(), StatusKind::Added),
            ("/w/other.rs".to_string(), StatusKind::Untracked)
        ]
    );
    assert_eq!(map.get("/w/same.rs"), Some(StatusKind::Added));
    assert_eq!(map.get("/w/missing.rs"), None);
}

#[test]
fn status_path_is_trimmed_and_joined() {
    let map = parse_status("M    dir/with space.txt  \r\n", "/repo/");
    assert_eq!(pairs(&map), vec![("/repo/dir/with space.txt".to_string(), StatusKind::Modified)]);
    let renamed = parse_status("R  old.rs -> new.rs\n", "/repo");
    assert_eq!(pairs(&renamed), vec![("/repo/old.rs -> new.rs".to_string(), StatusKind::Renamed)]);
}

#[test]
fn absolute_path_adds_separator_once() {
    assert_eq!(absolute_path("/repo", "a/b"), "/repo/a/b");
    assert_eq!(absolute_path("/repo/", "a/b"), "/repo/a/b");
    assert_eq!(absolute_path("", "a"), "/a");
    assert_eq!(absolute_path("/", "a"), "/a");
    assert_eq!(absolute_path("/repo", ""), "/repo/");
    assert_eq!(absolute_path("C:\\work", "a"), "C:\\work/a");
}

#[test]
fn status_map_insert_and_get() {
    let mut map = StatusMap::new();
    assert_eq!(map.entries().len(), 0);
    assert_eq!(map.get("a"), None);
    map.insert("a".to_string(), StatusKind::Added);
    map.insert("b".to_string(), StatusKind::Deleted);
    map.insert("a".to_string(), StatusKind::Modified);
    assert_eq!(map.get("a"), Some(StatusKind::Modified));
    assert_eq!(map.get("b"), Some(StatusKind::Deleted));
    assert_eq!(map.get(""), None);
    assert_eq!(
        pairs(&map),
        vec![("a".to_string(), StatusKind::Modified), ("b".to_string(), StatusKind::Deleted)]
    );
}

#[test]
fn branch_line_rules() {
    assert_eq!(parse_branch_line("* main"), "main");
    assert_eq!(parse_branch_line("  dev"), "dev");
    assert_eq!(parse_branch_line("* * twice"), "twice");
    assert_eq!(parse_branch_line(" * inner"), "* inner");
    assert_eq!(parse_branch_line("*main"), "*main");
    assert_eq!(parse_branch_line("* "), "");
    assert_eq!(parse_branch_line("*"), "*");
    assert_eq!(parse_branch_line("  feature/x  "), "feature/x");
    assert_eq!(parse_branch_line("* (HEAD detached at 1a2b3c4)"), "(HEAD detached at 1a2b3c4)");
}

#[test]
fn branch_listing_drops_empty_lines_and_keeps_order() {
    assert_eq!(parse_branches("  zeta\n\n* alpha\n   \n  mid\r\n* \n"), vec!["zeta", "alpha", "mid"]);
    assert_eq!(parse_branches(""), Vec::<String>::new());
    assert_eq!(parse_branches("\n\n"), Vec::<String>::new());
}

#[test]
fn branch_listing_agrees_with_std_pipeline() {
    let samples = ["* main\n  dev\n", "a\n* * b\n *c\n", "\r\n* x\r\n", "   \n", "only"];
    for s in samples {
        let expected: Vec<String> = s
            .lines()
            .map(|line| line.trim_start_matches("* ").trim().to_string())
            .filter(|line| !line.is_empty())
            .collect();
        assert_eq!(parse_branches(s), expected, "sample {:?}", s);
    }
}

#[test]
fn current_branch_is_trimmed_output() {
    assert_eq!(get_current_branch(&ran("main\n")), Ok("main".to_string()));
    assert_eq!(get_current_branch(&ran("  feature/x \r\n")), Ok("feature/x".to_string()));
    assert_eq!(get_current_branch(&ran("")), Ok(String::new()));
    assert_eq!(get_current_branch(&ran("\n")), Ok(String::new()));
}

#[test]
fn failed_command_carries_standard_error() {
    let outcome = failed("fatal: not a git repository\n");
    let expected = GitError::Command("fatal: not a git repository\n".to_string());
    assert_eq!(get_current_branch(&outcome), Err(GitError::Command("fatal: not a git repository\n".to_string())));
    assert_eq!(get_all_branches(&outcome), Err(GitError::Command("fatal: not a git repository\n".to_string())));
    assert_eq!(is_git_repo(&outcome), Err(GitError::Command("fatal: not a git repository\n".to_string())));
    assert_eq!(init_git_repo(&outcome), Err(GitError::Command("fatal: not a git repository\n".to_string())));
    assert_eq!(switch_branch("dev", &outcome), Err(GitError::Command("fatal: not a git repository\n".to_string())));
    assert_eq!(checked_stdout(&outcome), Err(GitError::Command("fatal: not a git repository\n".to_string())));
    match get_git_status("/repo", &outcome) {
        Err(e) => assert_eq!(e, expected),
        Ok(_) => panic!("a failed command gave a status map"),
    }
    assert_eq!(expected.message(), "fatal: not a git repository\n");
}

#[test]
fn launch_failure_carries_description() {
    let outcome = not_started("program not found");
    assert_eq!(get_current_branch(&outcome), Err(GitError::ProcessLaunch("program not found".to_string())));
    assert_eq!(get_all_branches(&outcome), Err(GitError::ProcessLaunch("program not found".to_string())));
    assert_eq!(init_git_repo(&outcome), Err(GitError::ProcessLaunch("program not found".to_string())));
    assert_eq!(switch_branch("dev", &outcome), Err(GitError::ProcessLaunch("program not found".to_string())));
    assert!(matches!(get_git_status("/repo", &outcome), Err(GitError::ProcessLaunch(_))));
    assert_eq!(
        GitError::ProcessLaunch("program not found".to_string()).message(),
        "Failed to execute git command: program not found"
    );
}

#[test]
fn invalid_utf8_is_replaced_not_refused() {
    let outcome = CommandOutcome::Exited {
        success: true,
        stdout: vec![b'm', 0xFF, b'n', b'\n'],
        stderr: Vec::new(),
    };
    assert_eq!(get_current_branch(&outcome), Ok("m\u{fffd}n".to_string()));
    assert_eq!(checked_stdout(&outcome), Ok("m\u{fffd}n\n".to_string()));
    let bad = CommandOutcome::Exited { success: false, stdout: Vec::new(), stderr: vec![0xC3, b'!'] };
    assert_eq!(checked_stdout(&bad), Err(GitError::Command("\u{fffd}!".to_string())));
    let accented = CommandOutcome::Exited {
        success: true,
        stdout: vec![0xC3, 0xA9, b'\n'],
        stderr: Vec::new(),
    };
    assert_eq!(get_current_branch(&accented), Ok("\u{e9}".to_string()));
}

#[test]
fn switch_names_the_branch() {
    assert_eq!(switch_branch("dev", &ran("")), Ok("Switched to branch 'dev'".to_string()));
    assert_eq!(
        switch_branch("feature/x", &ran("Your branch is up to date.\n")),
        Ok("Switched to branch 'feature/x'".to_string())
    );
    assert_eq!(switch_branch("", &ran("")), Ok("Switched to branch ''".to_string()));
}

#[test]
fn init_reports_success() {
    assert_eq!(init_git_repo(&ran("Initialized empty Git repository in /w/.git/\n")), Ok(true));
    assert_eq!(init_git_repo(&ran("")), Ok(true));
}

#[test]
fn query_arguments() {
    assert_eq!(GitQuery::CurrentBranch.arguments(), vec!["branch", "--show-current"]);
    assert_eq!(GitQuery::AllBranches.arguments(), vec!["branch", "--list"]);
    assert_eq!(GitQuery::Checkout { branch: "dev".to_string() }.arguments(), vec!["checkout", "dev"]);
    assert_eq!(GitQuery::Status.arguments(), vec!["status", "--short", "--porcelain"]);
    assert_eq!(GitQuery::InsideWorkTree.arguments(), vec!["rev-parse", "--is-inside-work-tree"]);
    assert_eq!(GitQuery::Init.arguments(), vec!["init"]);
}

#[test]
fn query_plan_runs_git_in_the_working_directory() {
    let plan = GitQuery::Status.plan("/repo", true);
    assert_eq!(plan.program, "git");
    assert_eq!(plan.args, vec!["status", "--short", "--porcelain"]);
    assert_eq!(plan.working_dir, "/repo");
    assert!(plan.suppress_console);
    assert!(!GitQuery::Init.plan("/w", false).suppress_console);
}
