use rimsort_core::error::Error;
use rimsort_core::gitmods::{check_update, clone_source, git_outcome, parse_github_url};
use rimsort_core::search::descend_into;
use rimsort_core::launch::{is_game_process, split_args};

#[test]
fn github_url_parsing_is_strict() {
    let ok = |u: &str| parse_github_url(u);
    assert_eq!(
        ok("https://github.com/Zetrith/Prepatcher"),
        Some(("Zetrith".to_string(), "Prepatcher".to_string()))
    );
    assert_eq!(ok("https://github.com/a/b.git/"), Some(("a".to_string(), "b".to_string())));
    assert_eq!(ok(" https://github.com/a/b/tree/main"), None);
    for bad in [
        "http://github.com/a/b",
        "https://evil.com/a/b",
        "https://github.com/a",
        "https://github.com/../b",
        "https://github.com/-x/y z",
        "git@github.com:a/b.git",
        "--upload-pack=x",
    ] {
        assert_eq!(ok(bad), None, "{bad}");
    }
}

#[test]
fn github_url_keeps_dots_and_dashes_inside_names() {
    assert_eq!(
        parse_github_url("https://github.com/my-org/repo.name"),
        Some(("my-org".to_string(), "repo.name".to_string()))
    );
    assert_eq!(parse_github_url(""), None);
}

#[test]
fn github_url_with_anything_after_the_repository_is_rejected() {
    assert_eq!(parse_github_url("https://github.com/a/b//c"), None);
    assert_eq!(parse_github_url("https://github.com/a/b//"), Some(("a".to_string(), "b".to_string())));
    assert_eq!(parse_github_url("https://github.com/a//b"), None);
}

#[test]
fn recognises_game_process_names() {
    assert!(is_game_process("RimWorldWin64.exe"));
    assert!(is_game_process("RimWorldLinux"));
    assert!(!is_game_process("RimSort-rs.exe"));
}

#[test]
fn splits_quotes() {
    assert_eq!(
        split_args(r#"-popupwindow -savedatafolder="C:\My Saves" "" x"#),
        ["-popupwindow", r"-savedatafolder=C:\My Saves", "", "x"]
    );
    assert!(split_args("   ").is_empty());
}

#[test]
fn splits_plain_words_on_any_whitespace() {
    assert_eq!(split_args("a\tb  c"), ["a", "b", "c"]);
}

#[test]
fn git_update_refuses_non_repositories_and_local_changes() {
    assert!(matches!(check_update(false, ""), Err(Error::Other(m)) if m == "Not a git repository"));
    assert!(matches!(check_update(true, " M About/About.xml\n"), Err(Error::Other(m)) if m == "The mod has local changes; commit or discard them first"));
    assert!(check_update(true, " \n").is_ok());
}

#[test]
fn clone_source_normalizes_github_urls() {
    let (repo, url) = clone_source(" https://github.com/Zetrith/Prepatcher/ ").unwrap();
    assert_eq!(repo, "Prepatcher");
    assert_eq!(url, "https://github.com/Zetrith/Prepatcher.git");
    assert!(matches!(clone_source("https://evil.com/a/b"), Err(Error::Other(m)) if m == "Not a GitHub repository URL: https://evil.com/a/b"));
}

#[test]
fn git_outcomes() {
    let args = vec!["pull".to_string(), "--ff-only".to_string()];
    assert_eq!(git_outcome(true, &args, "Already up to date.\n", "").unwrap(), "Already up to date.");
    assert!(matches!(git_outcome(false, &args, "", "fatal: no remote\n"), Err(Error::Other(m)) if m == "git pull --ff-only: fatal: no remote"));
}

#[test]
fn search_walk_skips_git_and_deep_folders() {
    assert!(descend_into(0, "Textures"));
    assert!(!descend_into(0, ".git"));
    assert!(descend_into(11, "Defs"));
    assert!(!descend_into(12, "Defs"));
}
