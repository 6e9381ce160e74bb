use tig_review::git::status::porcelain_sliceable_check;
use tig_review::git::status::{
    commit_diff_args, diff_args, files_from_entries, interpret_diff_output, log_args, order_branches,
    parse_commit_log, parse_name_status, parse_porcelain_status, range_diff_args, status_args,
};
use tig_review::git::{check_git_output, GitError, LineType};

#[test]
fn range_diff_args_builds_command() {
    let args = range_diff_args("main", "feature", "src/main.rs");
    assert_eq!(
        args,
        vec!["diff", "--no-ext-diff", "-U3", "main", "feature", "--", "src/main.rs"]
    );
}

#[test]
fn diff_args_with_and_without_branch() {
    assert_eq!(diff_args("a.rs", None), vec!["diff", "--no-ext-diff", "-U3", "--", "a.rs"]);
    assert_eq!(
        diff_args("a.rs", Some("dev")),
        vec!["diff", "--no-ext-diff", "-U3", "HEAD", "dev", "--", "a.rs"]
    );
}

#[test]
fn status_args_lists_untracked_on_request() {
    assert_eq!(status_args(false), vec!["status", "--porcelain"]);
    assert_eq!(status_args(true), vec!["status", "--porcelain", "-uall"]);
}

#[test]
fn commit_and_log_args() {
    assert_eq!(
        commit_diff_args("x.rs", "abc"),
        vec!["show", "--no-ext-diff", "--format=", "-U3", "abc", "--", "x.rs"]
    );
    assert_eq!(log_args(50), vec!["log", "--oneline", "-n", "50"]);
}

#[test]
fn porcelain_lines_give_entries() {
    let out = " M src/a.rs\nA  b.rs\n?? new.txt\nR  old.rs -> new.rs\n  \nx\n";
    let es = parse_porcelain_status(out);
    assert_eq!(es.len(), 4);
    assert_eq!(es[0].path, "src/a.rs");
    assert_eq!(es[0].status, 'M');
    assert_eq!(es[0].staged_status, None);
    assert_eq!(es[0].unstaged_status, Some('M'));
    assert_eq!(es[1].path, "b.rs");
    assert_eq!(es[1].status, 'A');
    assert_eq!(es[1].staged_status, Some('A'));
    assert_eq!(es[1].unstaged_status, None);
    assert_eq!(es[2].path, "new.txt");
    assert_eq!(es[2].status, '?');
    assert_eq!(es[3].path, "new.rs");
    assert_eq!(es[3].status, 'R');
}

#[test]
fn name_status_lines_give_entries() {
    let es = parse_name_status("M\tsrc/a.rs\nR100\told.rs\tnew.rs\nD\tgone.rs\n");
    assert_eq!(es.len(), 3);
    assert_eq!(es[0].path, "src/a.rs");
    assert_eq!(es[0].status, 'M');
    assert_eq!(es[1].path, "new.rs");
    assert_eq!(es[1].status, 'R');
    assert_eq!(es[2].path, "gone.rs");
    assert_eq!(es[2].status, 'D');
}

#[test]
fn files_are_sorted_by_path() {
    let es = parse_porcelain_status(" M z.rs\n M a.rs\n");
    let diffs = vec![(Vec::new(), false), (Vec::new(), true)];
    let fs = files_from_entries(es, diffs);
    assert_eq!(fs.len(), 2);
    assert_eq!(fs[0].path, "a.rs");
    assert!(fs[0].is_binary);
    assert_eq!(fs[1].path, "z.rs");
    assert!(!fs[1].is_binary);
}

#[test]
fn current_branch_comes_first() {
    let bs = order_branches("dev\nmain\n\nfeature/x\n", Some("main\n"));
    assert_eq!(bs, vec!["main", "dev", "feature/x"]);
    let bs2 = order_branches("dev\nmain\n", None);
    assert_eq!(bs2, vec!["dev", "main"]);
}

#[test]
fn commit_log_lines() {
    let cs = parse_commit_log("abc1234 First commit\nnospace\ndef5678 Second\n");
    assert_eq!(cs.len(), 2);
    assert_eq!(cs[0], ("abc1234".to_string(), "First commit".to_string()));
    assert_eq!(cs[1], ("def5678".to_string(), "Second".to_string()));
}

#[test]
fn diff_output_cases() {
    let (h, bin) = interpret_diff_output("Binary files a and b differ\n", None).unwrap();
    assert!(h.is_empty());
    assert!(bin);
    let (h, bin) = interpret_diff_output("  \n", Some("one\ntwo\n")).unwrap();
    assert!(!bin);
    assert_eq!(h.len(), 1);
    assert_eq!(h[0].header, "@@ -0,0 +1,2 @@");
    assert_eq!(h[0].lines[0].content, "+one");
    assert_eq!(h[0].lines[1].line_type, LineType::Added);
    let (h, _) = interpret_diff_output("", None).unwrap();
    assert!(h.is_empty());
    let (h, _) = interpret_diff_output("", Some("")).unwrap();
    assert!(h.is_empty());
}

#[test]
fn failed_command_reports_trimmed_stderr() {
    assert!(check_git_output(true, "whatever").is_ok());
    match check_git_output(false, "  fatal: not a git repository\n") {
        Err(GitError::CommandFailed(m)) => {
            assert_eq!(m, "git command failed: fatal: not a git repository")
        }
        Ok(()) => panic!("expected an error"),
    }
}

#[test]
fn porcelain_lines_must_cut_at_byte_three() {
    assert!(porcelain_sliceable_check(" M a.rs\n?? é\n"));
    assert!(porcelain_sliceable_check("é\n"));
    assert!(porcelain_sliceable_check("Mé\n"));
    assert!(!porcelain_sliceable_check("ééx\n"));
    assert!(porcelain_sliceable_check("ab\n"));
}
