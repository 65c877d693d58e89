use minishell::resolver::{CdError, Wd};

#[test]
fn pwd_reports_the_initial_directory() {
    let wd = Wd::new("/home/user");
    assert_eq!(wd.pwd(), "/home/user");
}

#[test]
fn bare_dot_dot_resolves_to_parent() {
    let wd = Wd::new("/home/user");
    assert_eq!(wd.resolve("..", None), Ok(String::from("/home")));
}

#[test]
fn dot_dot_from_root_fails_with_no_parent_and_leaves_root() {
    let mut wd = Wd::new("/");
    assert_eq!(wd.resolve("..", None), Err(CdError::NoParent));
    assert_eq!(wd.cd("..", None, true), Err(CdError::NoParent));
    assert_eq!(wd.pwd(), "/");
}

#[test]
fn chain_equals_resolving_each_segment_in_order() {
    let mut chained = Wd::new("/home/user");
    assert!(chained.cd("../../etc", None, true).is_ok());

    let mut stepwise = Wd::new("/home/user");
    assert!(stepwise.cd("..", None, true).is_ok());
    assert!(stepwise.cd("..", None, true).is_ok());
    assert!(stepwise.cd("etc", None, true).is_ok());

    assert_eq!(chained.pwd(), "/etc");
    assert_eq!(chained.pwd(), stepwise.pwd());
}

#[test]
fn dot_segments_leave_the_base_alone() {
    let wd = Wd::new("/home/user");
    assert_eq!(wd.resolve(".", None), Ok(String::from("/home/user")));
    assert_eq!(wd.resolve("./sub", None), Ok(String::from("/home/user/sub")));
    assert_eq!(wd.resolve("./../sub", None), Ok(String::from("/home/sub")));
}

#[test]
fn failed_multi_segment_cd_changes_nothing() {
    let mut wd = Wd::new("/home/user");
    // The caller reports that the final candidate does not exist.
    assert_eq!(wd.cd("./../missing", None, false), Err(CdError::NotFound));
    assert_eq!(wd.pwd(), "/home/user");
}

#[test]
fn cd_to_nonexistent_path_keeps_pwd() {
    let mut wd = Wd::new("/home/user");
    let before = wd.pwd();
    assert_eq!(wd.cd("missing", None, false), Err(CdError::NotFound));
    assert_eq!(wd.pwd(), before);
}

#[test]
fn cd_commits_an_existing_candidate() {
    let mut wd = Wd::new("/home/user");
    assert_eq!(wd.cd("/etc", None, true), Ok(()));
    assert_eq!(wd.pwd(), "/etc");
}

#[test]
fn tilde_replaces_the_base_with_home() {
    let wd = Wd::new("/home/user");
    assert_eq!(wd.resolve("~", Some("/root")), Ok(String::from("/root")));
    assert_eq!(wd.resolve("~/sub", Some("/root")), Ok(String::from("/root/sub")));
    assert_eq!(wd.resolve("~sub", Some("/root")), Ok(String::from("/root/sub")));
}

#[test]
fn tilde_without_home_fails_with_no_home() {
    let mut wd = Wd::new("/home/user");
    assert_eq!(wd.resolve("~", None), Err(CdError::NoHome));
    assert_eq!(wd.cd("~/sub", None, true), Err(CdError::NoHome));
    assert_eq!(wd.pwd(), "/home/user");
}

#[test]
fn relative_home_counts_as_unset() {
    let wd = Wd::new("/home/user");
    assert_eq!(wd.resolve("~", Some("stray")), Err(CdError::NoHome));
}

#[test]
fn absolute_expression_replaces_the_base() {
    let wd = Wd::new("/home/user");
    assert_eq!(wd.resolve("/etc/ssl", None), Ok(String::from("/etc/ssl")));
}

#[test]
fn relative_segment_hangs_under_the_base() {
    let wd = Wd::new("/");
    assert_eq!(wd.resolve("usr", None), Ok(String::from("/usr")));
    let deep = Wd::new("/home/user");
    assert_eq!(deep.resolve("a/b", None), Ok(String::from("/home/user/a/b")));
}

#[test]
fn trailing_slashes_do_not_confuse_parent() {
    let wd = Wd::new("/home/user/");
    assert_eq!(wd.resolve("..", None), Ok(String::from("/home")));
    let shallow = Wd::new("/a/");
    assert_eq!(shallow.resolve("..", None), Ok(String::from("/")));
}

#[test]
fn slash_heavy_root_still_counts_as_root() {
    let wd = Wd::new("//");
    assert_eq!(wd.resolve("..", None), Err(CdError::NoParent));
}

#[test]
fn mixed_chain_with_tilde_resolves_left_to_right() {
    let wd = Wd::new("/a/b/c");
    assert_eq!(
        wd.resolve("../../~/projects/./app", Some("/home/me")),
        Ok(String::from("/home/me/projects/./app"))
    );
    let other = Wd::new("/home/user");
    assert_eq!(other.resolve("../~/sub", Some("/root")), Ok(String::from("/root/sub")));
}

#[test]
fn resolve_alone_never_moves_the_directory() {
    let wd = Wd::new("/home/user");
    let _ = wd.resolve("../..", None);
    assert_eq!(wd.pwd(), "/home/user");
}
