use git_split::git_helper::{paths_in_listing, GitCommandError, GitCommitCandidate, GitHelper};

fn words(args: &[&str]) -> Vec<String> {
    args.iter().map(|a| a.to_string()).collect()
}

#[test]
fn commands_name_the_start_revision() {
    let helper = GitHelper::new(3, "main\n");
    assert_eq!(helper.list_command(), words(&["diff", "--name-only", "HEAD~3", "HEAD"]));
    assert_eq!(helper.reset(), words(&["reset", "--soft", "HEAD~3"]));
    let deep = GitHelper::new(255, "main");
    assert_eq!(deep.reset(), words(&["reset", "--soft", "HEAD~255"]));
    let some = GitHelper::new(40, "main");
    assert_eq!(some.reset(), words(&["reset", "--soft", "HEAD~40"]));
    let none = GitHelper::new(0, "main");
    assert_eq!(none.reset(), words(&["reset", "--soft", "HEAD~0"]));
    assert_eq!(GitHelper::current_branch_command(), words(&["branch", "--show-current"]));
}

#[test]
fn branch_name_loses_its_line_ends() {
    let mut helper = GitHelper::new(1, "feature/x\r\n\r\n");
    helper.temp_branch_created("tmp-branch/abc".to_string());
    let commands = helper.restore_branch().unwrap();
    assert_eq!(commands[0], words(&["checkout", "-B", "feature/x"]));
    assert_eq!(commands[1], words(&["branch", "-d", "tmp-branch/abc"]));

    let mut helper = GitHelper::new(1, "topic\n\n");
    helper.temp_branch_created("t".to_string());
    assert_eq!(helper.restore_branch().unwrap()[0], words(&["checkout", "-B", "topic"]));

    // a line feed before the last line end stays
    let mut helper = GitHelper::new(1, "odd\n\r\n");
    helper.temp_branch_created("t".to_string());
    assert_eq!(helper.restore_branch().unwrap()[0], words(&["checkout", "-B", "odd"]));
}

#[test]
fn restore_before_checkout_is_refused() {
    let helper = GitHelper::new(2, "main\n");
    assert_eq!(helper.restore_branch(), Err(GitCommandError::InvalidFunctionCallError));
}

#[test]
fn listing_yields_its_paths() {
    let helper = GitHelper::new(2, "main\n");
    assert_eq!(
        helper.list("dir_1/commit_1\ndir_2/commit_1\r\n\ndir_3/commit_1\n"),
        Ok(words(&["dir_1/commit_1", "dir_2/commit_1", "dir_3/commit_1"]))
    );
    assert_eq!(helper.list("one"), Ok(words(&["one"])));
    assert_eq!(paths_in_listing("a\r\r\nb"), words(&["a\r", "b"]));
    assert_eq!(paths_in_listing("\r\n\r"), Vec::<String>::new());
}

#[test]
fn empty_listing_is_an_error() {
    let helper = GitHelper::new(7, "main\n");
    assert_eq!(helper.list(""), Err(GitCommandError::EmptyListError { level: 7 }));
    assert_eq!(helper.list("\n\r\n\n"), Err(GitCommandError::EmptyListError { level: 7 }));
}

#[test]
fn temporary_branch_has_a_random_name() {
    let helper = GitHelper::new(1, "main\n");
    let (name, args) = helper.checkout_to_temp_branch();
    assert!(name.starts_with("tmp-branch/"));
    let key = &name["tmp-branch/".len()..];
    assert_eq!(key.chars().count(), 16);
    assert!(key.chars().all(|c| c.is_ascii_alphanumeric()));
    assert_eq!(args, vec!["checkout".to_string(), "-b".to_string(), name.clone()]);
    assert_eq!(GitHelper::temp_branch_name_for("k"), "tmp-branch/k");
    assert_eq!(GitHelper::checkout_command("n"), words(&["checkout", "-b", "n"]));
}

#[test]
fn commit_names_message_and_pathspec_file() {
    let helper = GitHelper::new(1, "main\n");
    let commit = GitCommitCandidate {
        msg: "first part".to_string(),
        file_paths: words(&["a/b/file.txt", "a/c/file.txt"]),
    };
    assert_eq!(commit.pathspec(), "a/b/file.txt\na/c/file.txt");
    assert_eq!(
        helper.commit(&commit, "/tmp/spec"),
        words(&["commit", "-m", "first part", "--pathspec-from-file", "/tmp/spec"])
    );
    let single = GitCommitCandidate { msg: "m".to_string(), file_paths: words(&["only"]) };
    assert_eq!(single.pathspec(), "only");
    let empty = GitCommitCandidate { msg: "m".to_string(), file_paths: vec![] };
    assert_eq!(empty.pathspec(), "");
}
