use ignore::gitignore::GitignoreBuilder;
use yek::{
    get_recent_commit_times, recency_cutoff, screen_in_tree, serialize_repo, FoundFile, IgnoreConfig,
    PriorityRule, YekConfig,
};

fn file(rel_path: &str, content: &[u8]) -> FoundFile {
    let extension = std::path::Path::new(rel_path)
        .extension()
        .and_then(|s| s.to_str())
        .map(|s| s.to_string());
    FoundFile {
        rel_path: rel_path.to_string(),
        gitignored: false,
        extension,
        head: Some(content.iter().take(4096).cloned().collect()),
        commit_time: None,
        content: String::from_utf8(content.to_vec()).ok().map(|s| s.into_bytes()),
    }
}

fn config() -> YekConfig {
    YekConfig {
        ignore_patterns: IgnoreConfig { patterns: Vec::new() },
        priority_rules: Vec::new(),
        binary_extensions: Vec::new(),
        output_dir: None,
    }
}

fn output(files: &Vec<FoundFile>, max_size: usize, tokens: bool, config: Option<&YekConfig>) -> String {
    let out =
        serialize_repo(max_size, tokens, config, files, recency_cutoff(1_700_000_000)).unwrap();
    let mut text = Vec::new();
    for chunk in &out.chunks {
        text.extend_from_slice(&yek::render_chunk(&chunk.records));
    }
    String::from_utf8(text).unwrap()
}

#[test]
fn test_empty_dir() {
    let out = serialize_repo(10 * 1024 * 1024, false, None, &Vec::new(), 0).unwrap();
    assert!(out.chunks.is_empty());
    assert!(!out.truncated);
}

#[test]
fn test_single_file() {
    let files = vec![file("test.txt", b"Test content")];
    assert_eq!(output(&files, 10 * 1024 * 1024, false, None), ">>>> test.txt\nTest content\n\n");
}

#[test]
fn test_multiple_files() {
    let files = vec![file("test1.txt", b"Test content 1"), file("test2.txt", b"Test content 2")];
    assert_eq!(
        output(&files, 10 * 1024 * 1024, false, None),
        ">>>> test1.txt\nTest content 1\n\n>>>> test2.txt\nTest content 2\n\n"
    );
}

#[test]
fn test_ignore_patterns() {
    let mut user = config();
    user.ignore_patterns.patterns = vec!["*.log".to_string()];
    let files = vec![file("test.log", b"Log content"), file("test.txt", b"Test content")];
    let text = output(&files, 10 * 1024 * 1024, false, Some(&user));
    assert!(!text.contains("Log content"));
    assert!(text.contains("Test content"));
}

#[test]
fn test_priority_rules() {
    let mut user = config();
    user.priority_rules =
        vec![PriorityRule { score: 100, patterns: vec!["src/.*\\.rs".to_string()] }];
    let files = vec![file("src/test.rs", b"Test content"), file("test.txt", b"Test content")];
    assert_eq!(
        output(&files, 10 * 1024 * 1024, false, Some(&user)),
        ">>>> test.txt\nTest content\n\n>>>> src/test.rs\nTest content\n\n"
    );
}

#[test]
fn test_binary_files() {
    let files = vec![file("image.jpg", &[0xFF, 0xD8, 0xFF])];
    assert_eq!(output(&files, 10 * 1024 * 1024, false, None), "");
}

#[test]
fn test_max_size() {
    let files = vec![file("test.txt", b"Test content")];
    let out = serialize_repo(1024, false, None, &files, 0).unwrap();
    assert_eq!(out.chunks.len(), 1);
    assert!(!out.truncated);
}

#[test]
fn test_tokens_mode() {
    let files = vec![file("test.txt", b"Test content")];
    let out = serialize_repo(100, true, None, &files, 0).unwrap();
    assert_eq!(out.chunks.len(), 1);
    assert!(!out.truncated);
    let split = serialize_repo(1, true, None, &files, 0).unwrap();
    assert!(split.truncated);
    assert_eq!(split.chunks.len(), 2);
}

#[test]
fn test_git_integration() {
    let now = 1_700_000_000u64;
    let log = format!("{}\ntest.txt\n", now - 60);
    let times = get_recent_commit_times(log.as_bytes());
    let mut committed = file("test.txt", b"Test content");
    committed.commit_time = yek::last_commit_time(Some(&times), "test.txt");
    assert_eq!(committed.commit_time, Some(now - 60));
    let files = vec![committed, file("src/other.rs", b"Other content")];
    assert_eq!(
        output(&files, 10 * 1024 * 1024, false, None),
        ">>>> src/other.rs\nOther content\n\n>>>> test.txt\nTest content\n\n"
    );
}

#[test]
fn test_gitignore_respected() {
    let mut builder = GitignoreBuilder::new("/repo");
    builder.add_line(None, "*.log").unwrap();
    let matcher = builder.build().unwrap();
    let rules = yek::build_final_config(None);
    let mut files = vec![file("test.log", b"Log content"), file("test.txt", b"Test content")];
    for f in files.iter_mut() {
        f.gitignored = matcher.matched(f.rel_path.as_str(), false).is_ignore();
    }
    assert!(files[0].gitignored);
    assert!(!files[1].gitignored);
    assert_eq!(
        screen_in_tree(&matcher, "test.log", false, &rules),
        Err(yek::LeftOut::ByIgnoreFile)
    );
    let text = output(&files, 10 * 1024 * 1024, false, None);
    assert!(!text.contains("Log content"));
    assert!(text.contains("Test content"));
}

#[test]
fn test_hidden_files_included() {
    let files = vec![file(".hidden.txt", b"Hidden content")];
    assert_eq!(
        output(&files, 10 * 1024 * 1024, false, None),
        ">>>> .hidden.txt\nHidden content\n\n"
    );
}

#[test]
fn test_binary_file_extension_config() {
    let mut user = config();
    user.binary_extensions = vec!["bin".to_string(), "xyz".to_string()];
    let files = vec![file("data.bin", &[0, 1, 2, 3]), file("data.xyz", b"abc")];
    assert_eq!(output(&files, 10 * 1024 * 1024, false, Some(&user)), "");
    assert_eq!(output(&files, 10 * 1024 * 1024, false, None), ">>>> data.xyz\nabc\n\n");
}
