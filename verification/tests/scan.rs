use backend::scan::{analysis_root, looks_like_git_remote_url, plan_source, SourcePlan};

#[test]
fn remote_urls_are_recognized() {
    assert!(looks_like_git_remote_url("https://github.com/x/y"));
    assert!(looks_like_git_remote_url("  https://github.com/x/y  "));
    assert!(looks_like_git_remote_url("http://example.com/r.git"));
    assert!(looks_like_git_remote_url("git@github.com:x/y.git"));
    assert!(looks_like_git_remote_url("\tgit@host:r"));
}

#[test]
fn other_sources_are_not_remote() {
    assert!(!looks_like_git_remote_url("ftp://example.com/r"));
    assert!(!looks_like_git_remote_url("./repo"));
    assert!(!looks_like_git_remote_url("/home/me/https://x"));
    assert!(!looks_like_git_remote_url("HTTPS://X"));
    assert!(!looks_like_git_remote_url(""));
    assert!(!looks_like_git_remote_url("git"));
}

#[test]
fn plan_for_sources() {
    assert_eq!(plan_source(None), SourcePlan::CurrentDir);
    assert_eq!(plan_source(Some("")), SourcePlan::CurrentDir);
    assert_eq!(
        plan_source(Some(" https://github.com/x/y ")),
        SourcePlan::CloneRemote(" https://github.com/x/y ".to_string())
    );
    assert_eq!(plan_source(Some("/tmp/project")), SourcePlan::Local("/tmp/project".to_string()));
    assert_eq!(plan_source(Some(" ")), SourcePlan::Local(" ".to_string()));
}

#[test]
fn command_line_root() {
    assert_eq!(analysis_root(None), ".");
    assert_eq!(analysis_root(Some("")), ".");
    assert_eq!(analysis_root(Some("../proj")), "../proj");
}
