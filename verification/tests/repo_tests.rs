use rustytag::repo::{
    classify_project_file, convert_ssh_to_https, date_part, first_line, is_release_commit,
    owner_repo_of_url, short_hash, tag_message_of_changelog, GitCommit, GitHubClient,
    ProjectFile, ProjectFileType,
};

#[test]
fn ssh_url_becomes_https() {
    assert_eq!(
        convert_ssh_to_https("git@github.com:user/repo.git"),
        "https://github.com/user/repo"
    );
}

#[test]
fn https_url_passes_through() {
    assert_eq!(
        convert_ssh_to_https("https://github.com/user/repo.git"),
        "https://github.com/user/repo.git"
    );
}

#[test]
fn url_with_two_at_signs_passes_through() {
    assert_eq!(convert_ssh_to_https("git@a@b:c"), "git@a@b:c");
}

#[test]
fn repeated_git_endings_are_all_stripped() {
    assert_eq!(
        convert_ssh_to_https("git@host:a/b.git.git"),
        "https://host/a/b"
    );
}

#[test]
fn owner_and_repo_come_from_the_last_two_segments() {
    assert_eq!(
        owner_repo_of_url("https://github.com/user/repo.git"),
        Some(("user".to_string(), "repo".to_string()))
    );
    assert_eq!(
        owner_repo_of_url("https://github.com/user/repo"),
        Some(("user".to_string(), "repo".to_string()))
    );
    assert_eq!(owner_repo_of_url("norepo"), None);
}

#[test]
fn project_files_classify_by_name() {
    assert_eq!(
        classify_project_file("Cargo.toml"),
        Some(ProjectFileType::CargoToml)
    );
    assert_eq!(
        classify_project_file("package.json"),
        Some(ProjectFileType::PackageJson)
    );
    assert_eq!(
        classify_project_file("pyproject.toml"),
        Some(ProjectFileType::PyProjectToml)
    );
    assert_eq!(
        classify_project_file(".rustytag.json"),
        Some(ProjectFileType::Other)
    );
    assert_eq!(classify_project_file("README.md"), None);
    let f = ProjectFile {
        path: "Cargo.toml".to_string(),
        file_type: ProjectFileType::CargoToml,
    };
    assert_eq!(f.file_type, ProjectFileType::CargoToml);
}

#[test]
fn release_commits_are_recognized() {
    assert!(is_release_commit("chore: release 1.2.3"));
    assert!(!is_release_commit("feat: add things"));
}

#[test]
fn commit_text_helpers() {
    let c = GitCommit {
        hash: "0123456789abcdef".to_string(),
        message: "feat: one\n\nbody".to_string(),
    };
    assert_eq!(first_line(&c.message), "feat: one");
    assert_eq!(short_hash(&c.hash), "0123456");
    assert_eq!(first_line("no newline"), "no newline");
}

#[test]
fn timestamps_lose_their_time_half() {
    assert_eq!(date_part("2024-01-02T10:00:00Z"), "2024-01-02");
    assert_eq!(date_part("2024-01-02"), "2024-01-02");
}

#[test]
fn client_holds_token_and_url() {
    let c = GitHubClient::new("t".to_string(), "u".to_string());
    assert_eq!(c.token, "t");
    assert_eq!(c.repo_url, "u");
}

#[test]
fn changelog_section_between_markers() {
    let content = "# Changelog\n---\n### [v1.1.0] notes\nline\n---\n### old\n";
    assert_eq!(
        tag_message_of_changelog(content),
        "### [v1.1.0] notes\nline"
    );
}

#[test]
fn changelog_with_one_marker_reads_to_the_end() {
    let content = "head\n---\nonly section\n";
    assert_eq!(tag_message_of_changelog(content), "only section");
}

#[test]
fn changelog_without_markers_reads_as_missing() {
    assert_eq!(tag_message_of_changelog("nothing here"), "No changelog content");
}
