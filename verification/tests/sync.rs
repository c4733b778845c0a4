use todo_md::diff::ChangeSet;
use todo_md::sync::commit_message;
use todo_md::sync::github_repo_slug;
use todo_md::sync::repo_view_missing;

#[test]
fn parses_github_slugs_from_common_urls() {
    assert_eq!(
        github_repo_slug("git@github.com:acme/todos.git").as_deref(),
        Some("acme/todos")
    );
    assert_eq!(
        github_repo_slug("https://github.com/acme/todos.git").as_deref(),
        Some("acme/todos")
    );
    assert_eq!(
        github_repo_slug("ssh://git@github.com/acme/todos").as_deref(),
        Some("acme/todos")
    );
}

#[test]
fn ignores_non_github_or_invalid_urls() {
    assert_eq!(github_repo_slug("git@gitlab.com:acme/todos.git"), None);
    assert_eq!(github_repo_slug("https://github.com/acme"), None);
    assert_eq!(github_repo_slug(""), None);
}

#[test]
fn renders_commit_message_with_tallies() {
    let cs = ChangeSet { added: 2, updated: 1, deleted: 0, completed: 3, changes: Vec::new() };
    assert_eq!(
        commit_message(&cs, "line diff (+4/-1)"),
        "sync todos: +2 ~1 -0 done 3 (line diff (+4/-1))"
    );
}

#[test]
fn detects_missing_repository_from_tool_output() {
    assert!(repo_view_missing("", "GraphQL: Could not resolve to a Repository with the name."));
    assert!(repo_view_missing("Not Found", ""));
    assert!(!repo_view_missing("ok", "permission denied"));
}

use todo_md::sync::upsert_env_line;

#[test]
fn upserts_env_variable_in_text() {
    let next = upsert_env_line("FOO=bar\nTODOS_GIT_REMOTE=old\n", "TODOS_GIT_REMOTE", "git@github.com:acme/new.git");
    assert!(next.contains("FOO=bar"));
    assert!(next.contains("TODOS_GIT_REMOTE=git@github.com:acme/new.git"));
    assert!(!next.contains("TODOS_GIT_REMOTE=old"));
}

#[test]
fn appends_missing_env_variable() {
    assert_eq!(upsert_env_line("", "K", "v"), "K=v\n");
    assert_eq!(upsert_env_line("# note\n", "K", "v"), "# note\nK=v\n");
    assert_eq!(upsert_env_line("K=old\n", "K", "new"), "K=new\n");
}
