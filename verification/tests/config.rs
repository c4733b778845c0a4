use todo_md::config::AppConfig;
use todo_md::config::expand_tilde;
use todo_md::config::first_non_empty;
use todo_md::config::require_remote;

fn base_config() -> AppConfig {
    AppConfig {
        config_dir: "/home/u/.config/todos".to_string(),
        todo_file: "/home/u/.config/todos/todo.md".to_string(),
        env_file: "/home/u/.config/todos/.env".to_string(),
        git_remote: None,
        git_branch: "main".to_string(),
        git_author_name: None,
        git_author_email: None,
        github_token: None,
    }
}

#[test]
fn first_non_empty_skips_blank_candidates() {
    assert_eq!(
        first_non_empty(Some("  ".to_string()), Some("x".to_string())),
        Some("x".to_string())
    );
    assert_eq!(
        first_non_empty(Some("a".to_string()), Some("b".to_string())),
        Some("a".to_string())
    );
    assert_eq!(first_non_empty(None, None), None);
    assert_eq!(first_non_empty(Some("".to_string()), None), None);
}

#[test]
fn require_remote_reports_where_to_configure() {
    let mut config = base_config();
    let err = require_remote(&config).expect_err("no remote set");
    assert_eq!(
        err,
        "missing git remote; set TODOS_GIT_REMOTE in /home/u/.config/todos/.env or environment"
    );
    config.git_remote = Some("git@github.com:acme/todos.git".to_string());
    assert_eq!(require_remote(&config).expect("remote"), "git@github.com:acme/todos.git");
}

#[test]
fn tilde_paths_expand_against_home() {
    assert_eq!(expand_tilde("~", "/home/u", "/work"), "/home/u");
    assert_eq!(expand_tilde("~/notes/todo.md", "/home/u", "/work"), "/home/u/notes/todo.md");
    assert_eq!(expand_tilde("/abs/path", "/home/u", "/work"), "/abs/path");
    assert_eq!(expand_tilde("rel/path", "/home/u", "/work"), "/work/rel/path");
}
