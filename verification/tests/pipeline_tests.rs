use yek::{render_chunk, serialize_repo, FoundFile, IgnoreConfig, PriorityRule, YekConfig};

fn found(rel_path: &str, content: &str) -> FoundFile {
    let extension = rel_path.rsplit('/').next().and_then(|name| {
        let mut pieces = name.rsplitn(2, '.');
        let ext = pieces.next();
        match pieces.next() {
            Some(stem) if !stem.is_empty() => ext.map(|e| e.to_string()),
            _ => None,
        }
    });
    let bytes = content.as_bytes().to_vec();
    let head = bytes.iter().take(4096).cloned().collect();
    FoundFile {
        rel_path: rel_path.to_string(),
        gitignored: false,
        extension,
        head: Some(head),
        commit_time: None,
        content: Some(bytes),
    }
}

fn written(found: &Vec<FoundFile>, max_size: usize, config: Option<&YekConfig>) -> Vec<Vec<String>> {
    serialize_repo(max_size, false, config, found, 1000)
        .unwrap()
        .chunks
        .iter()
        .map(|c| c.records.iter().map(|r| r.path.clone()).collect())
        .collect()
}

#[test]
fn scenario_two_files_in_one_chunk() {
    let files = vec![found("src/b.txt", "bbbbb"), found("a.txt", "aaaaa")];
    let out = serialize_repo(1000, false, None, &files, 0).unwrap();
    assert!(!out.truncated);
    assert_eq!(out.chunks.len(), 1);
    assert_eq!(
        render_chunk(&out.chunks[0].records),
        b">>>> a.txt\naaaaa\n\n>>>> src/b.txt\nbbbbb\n\n".to_vec()
    );
}

#[test]
fn scenario_huge_file_ends_the_run() {
    let huge = "h".repeat(10000);
    let files = vec![found("src/important.rs", "fn main() {}"), found("huge.txt", &huge)];
    let out = serialize_repo(4000, false, None, &files, 0).unwrap();
    assert!(out.truncated);
    let labels: Vec<String> = out.chunks.iter().map(|c| c.records[0].path.clone()).collect();
    assert_eq!(labels, vec!["huge.txt:part0", "huge.txt:part1", "huge.txt:part2"]);
    for chunk in &out.chunks {
        assert!(chunk.records[0].content.len() <= 4000);
    }
}

#[test]
fn scenario_file_of_the_ignore_file_is_left_out() {
    let user = YekConfig {
        ignore_patterns: IgnoreConfig { patterns: Vec::new() },
        priority_rules: vec![PriorityRule { score: 1000, patterns: vec![r"\.log$".to_string()] }],
        binary_extensions: Vec::new(),
        output_dir: None,
    };
    let mut log = found("test.log", "Log content");
    log.gitignored = true;
    log.commit_time = Some(u64::MAX);
    let files = vec![log, found("test.txt", "Test content")];
    assert_eq!(written(&files, 1000, Some(&user)), vec![vec!["test.txt".to_string()]]);
}

#[test]
fn scenario_no_commit_times_no_bonus() {
    let files = vec![
        found("src/z.rs", "z"),
        found("docs/a.md", "a"),
        found("src/a.rs", "a"),
        found("b.txt", "b"),
    ];
    assert_eq!(
        written(&files, 1000, None),
        vec![vec![
            "docs/a.md".to_string(),
            "b.txt".to_string(),
            "src/z.rs".to_string(),
            "src/a.rs".to_string(),
        ]]
    );
}

#[test]
fn recent_files_come_last() {
    let mut fresh = found("notes.txt", "n");
    fresh.commit_time = Some(1000);
    let mut stale = found("src/old.rs", "o");
    stale.commit_time = Some(999);
    let files = vec![fresh, found("src/lib.rs", "l"), stale, found("plain.txt", "p")];
    assert_eq!(
        written(&files, 1000, None),
        vec![vec![
            "plain.txt".to_string(),
            "src/lib.rs".to_string(),
            "src/old.rs".to_string(),
            "notes.txt".to_string(),
        ]]
    );
}

#[test]
fn files_that_are_not_text_are_left_out() {
    let mut unreadable = found("locked.txt", "");
    unreadable.head = None;
    unreadable.content = None;
    let mut not_utf8 = found("latin1.txt", "caf");
    not_utf8.content = None;
    let mut zero = found("data.txt", "ab");
    zero.head = Some(vec![b'a', 0, b'b']);
    let files = vec![
        found("image.jpg", "not really an image"),
        unreadable,
        not_utf8,
        zero,
        found("target/out.txt", "built"),
        found(".hidden.txt", "Hidden content"),
        found("keep.txt", "kept"),
    ];
    assert_eq!(
        written(&files, 1000, None),
        vec![vec![".hidden.txt".to_string(), "keep.txt".to_string()]]
    );
}

#[test]
fn user_binary_extensions_are_left_out() {
    let user = YekConfig {
        ignore_patterns: IgnoreConfig { patterns: vec![r"^skip/".to_string()] },
        priority_rules: Vec::new(),
        binary_extensions: vec!["blob".to_string()],
        output_dir: None,
    };
    let files = vec![
        found("a.blob", "text all the same"),
        found("skip/a.txt", "skipped"),
        found("a.txt", "taken"),
    ];
    assert_eq!(written(&files, 1000, Some(&user)), vec![vec!["a.txt".to_string()]]);
    assert_eq!(
        written(&files, 1000, None),
        vec![vec!["a.blob".to_string(), "skip/a.txt".to_string(), "a.txt".to_string()]]
    );
}

#[test]
fn chunks_follow_the_order_of_priority() {
    let files = vec![
        found("src/one.rs", "1111"),
        found("two.txt", "2222"),
        found("src/three.rs", "3333"),
        found("four.txt", "4444"),
    ];
    assert_eq!(
        written(&files, 8, None),
        vec![
            vec!["two.txt".to_string(), "four.txt".to_string()],
            vec!["src/one.rs".to_string(), "src/three.rs".to_string()],
        ]
    );
    assert!(written(&Vec::new(), 8, None).is_empty());
}

#[test]
fn run_with_a_maximum_of_zero() {
    let blank = vec![found("empty.txt", ""), found("blank.txt", " \n")];
    let by_tokens = serialize_repo(0, true, None, &blank, 0).unwrap();
    assert!(!by_tokens.truncated);
    assert_eq!(by_tokens.chunks.len(), 1);
    assert_eq!(by_tokens.chunks[0].records.len(), 2);
    let by_bytes = serialize_repo(0, false, None, &blank, 0).unwrap();
    assert!(by_bytes.truncated);
    assert_eq!(by_bytes.chunks.len(), 1);
    assert_eq!(by_bytes.chunks[0].records[0].path, "blank.txt:part0");
    let words = vec![found("empty.txt", ""), found("words.txt", "some words")];
    assert!(serialize_repo(0, false, None, &words, 0).is_none());
    assert!(serialize_repo(0, true, None, &words, 0).is_none());
    assert!(serialize_repo(1, true, None, &words, 0).is_some());
}

#[test]
fn files_that_are_not_assembled_do_not_hold_up_the_run() {
    let mut ignored = found("build/out.txt", "ignored words");
    ignored.commit_time = Some(u64::MAX);
    let mut listed = found("notes.log", "log words");
    listed.gitignored = true;
    let files = vec![
        ignored,
        listed,
        found("image.png", "binary words"),
        found("a.txt", ""),
        found("b.txt", " "),
        found("src/after.rs", "never reached"),
    ];
    let out = serialize_repo(0, false, None, &files, 0).unwrap();
    assert!(out.truncated);
    let labels: Vec<String> = out.chunks.iter().map(|c| c.records[0].path.clone()).collect();
    assert_eq!(labels, vec!["b.txt:part0"]);
}
