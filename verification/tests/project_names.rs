use wortex::project::{get_project_prefix, parse_repo_name, to_acronym};

#[test]
fn test_to_acronym_no_separator() {
    assert_eq!(to_acronym("myproject"), "myproject");
}

#[test]
fn test_to_acronym_hyphen() {
    assert_eq!(to_acronym("my-project"), "mp");
}

#[test]
fn test_to_acronym_underscore() {
    assert_eq!(to_acronym("my_project"), "mp");
}

#[test]
fn test_to_acronym_multiple_parts() {
    assert_eq!(to_acronym("my-cool-app"), "mca");
}

#[test]
fn test_to_acronym_mixed_separators() {
    assert_eq!(to_acronym("foo-bar_baz"), "fbb");
}

#[test]
fn test_parse_repo_name_ssh() {
    assert_eq!(
        parse_repo_name("git@github.com:user/my-project.git").unwrap(),
        "my-project"
    );
}

#[test]
fn test_parse_repo_name_https() {
    assert_eq!(
        parse_repo_name("https://github.com/user/my-project.git").unwrap(),
        "my-project"
    );
}

#[test]
fn test_parse_repo_name_no_git_suffix() {
    assert_eq!(
        parse_repo_name("https://github.com/user/myproject").unwrap(),
        "myproject"
    );
}

#[test]
fn test_to_acronym_uppercase_name_is_lowercased() {
    assert_eq!(to_acronym("MyProject"), "myproject");
    assert_eq!(to_acronym("My-Project"), "mp");
}

#[test]
fn test_get_project_prefix_from_url() {
    assert_eq!(
        get_project_prefix("git@github.com:user/my-cool-app.git").unwrap(),
        "mca"
    );
    assert_eq!(
        get_project_prefix("https://github.com/user/myproject.git").unwrap(),
        "myproject"
    );
}
