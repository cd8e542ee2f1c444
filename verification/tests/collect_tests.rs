use ignore::gitignore::GitignoreBuilder;
use yek::{
    build_final_config, get_recent_commit_times, last_commit_time, qualify, recency_cutoff, screen,
    screen_in_tree, select, sort_by_priority, FileEntry, IgnoreConfig, LeftOut, PriorityRule,
    YekConfig,
};

fn entry(index: usize, rel_path: &str, priority: i64) -> FileEntry {
    FileEntry { index, rel_path: rel_path.to_string(), priority }
}

fn order(files: &[FileEntry]) -> Vec<(usize, i64)> {
    files.iter().map(|f| (f.index, f.priority)).collect()
}

#[test]
fn cutoff_is_fourteen_days_back() {
    assert_eq!(recency_cutoff(1_700_000_000), 1_700_000_000 - 14 * 24 * 60 * 60);
    assert_eq!(recency_cutoff(1_209_600), 0);
    assert_eq!(recency_cutoff(1_209_601), 1);
    assert_eq!(recency_cutoff(1_209_599), 0);
    assert_eq!(recency_cutoff(0), 0);
    assert_eq!(recency_cutoff(u64::MAX), u64::MAX - 1_209_600);
}

#[test]
fn recency_bonus_is_exactly_fifty() {
    let text = b"text".to_vec();
    assert_eq!(qualify(40, Some("txt"), &[], Some(&text), Some(2000), 1000), Some(90));
    assert_eq!(qualify(40, Some("txt"), &[], Some(&text), Some(1000), 1000), Some(90));
    assert_eq!(qualify(40, Some("txt"), &[], Some(&text), Some(999), 1000), Some(40));
    assert_eq!(qualify(50, Some("txt"), &[], Some(&text), None, 1000), Some(50));
    assert_eq!(qualify(0, None, &[], Some(&text), Some(0), 0), Some(50));
    assert_eq!(
        qualify(i32::MAX, None, &[], Some(&text), Some(5), 0),
        Some(i32::MAX as i64 + 50)
    );
}

#[test]
fn binary_file_is_not_taken_even_if_recent() {
    assert_eq!(qualify(40, Some("png"), &[], Some(b"text"), Some(2000), 1000), None);
    assert_eq!(qualify(40, Some("txt"), &[], Some(b"\0"), Some(2000), 1000), None);
    assert_eq!(qualify(40, Some("txt"), &[], None, Some(2000), 1000), None);
}

#[test]
fn screening_follows_the_rules() {
    let rules = build_final_config(None);
    assert_eq!(screen("src/main.rs", false, &rules), Ok(50));
    assert_eq!(screen("a.txt", false, &rules), Ok(40));
    assert_eq!(screen("a.txt", true, &rules), Err(LeftOut::ByIgnoreFile));
    assert_eq!(screen("build/out.txt", false, &rules), Err(LeftOut::ByRules));
    assert_eq!(screen("build/out.txt", true, &rules), Err(LeftOut::ByIgnoreFile));
    assert_eq!(screen("src/main.rs", true, &rules), Err(LeftOut::ByIgnoreFile));
}

#[test]
fn negative_score_leaves_a_file_out() {
    let user = YekConfig {
        ignore_patterns: IgnoreConfig { patterns: Vec::new() },
        priority_rules: vec![PriorityRule { score: -7, patterns: vec![r"^tmp/".to_string()] }],
        binary_extensions: Vec::new(),
        output_dir: None,
    };
    let rules = build_final_config(Some(&user));
    assert_eq!(screen("tmp/x.txt", false, &rules), Err(LeftOut::ByRules));
    assert_eq!(screen("x.txt", false, &rules), Ok(40));
}

#[test]
fn ignored_file_is_never_taken() {
    let user = YekConfig {
        ignore_patterns: IgnoreConfig { patterns: vec![r"^private/".to_string()] },
        priority_rules: vec![PriorityRule { score: 999, patterns: vec![r"^private/".to_string()] }],
        binary_extensions: Vec::new(),
        output_dir: None,
    };
    let rules = build_final_config(Some(&user));
    let text = b"text".to_vec();
    assert_eq!(
        select("private/a.txt", false, &rules, Some("txt"), &[], Some(&text), Some(u64::MAX), 0),
        None
    );
    assert_eq!(
        select("public/a.txt", false, &rules, Some("txt"), &[], Some(&text), Some(u64::MAX), 0),
        Some(90)
    );
}

#[test]
fn without_commit_times_priorities_are_those_of_the_rules() {
    let rules = build_final_config(None);
    let text = b"text".to_vec();
    for (path, expected) in [("src/lib.rs", 50), ("docs/a.md", 40), ("a.txt", 40)] {
        let time = last_commit_time(None, path);
        assert_eq!(time, None);
        assert_eq!(
            select(path, false, &rules, None, &[], Some(&text), time, recency_cutoff(1_700_000_000)),
            Some(expected)
        );
    }
}

#[test]
fn commit_times_give_the_bonus_to_recent_files() {
    let now = 1_700_000_000u64;
    let log = format!("{}\nsrc/new.rs\n\n{}\nsrc/old.rs\nsrc/new.rs\n", now - 100, now - 3_000_000);
    let times = get_recent_commit_times(log.as_bytes());
    let rules = build_final_config(None);
    let text = b"text".to_vec();
    let cutoff = recency_cutoff(now);
    let priority = |path: &str| {
        select(
            path,
            false,
            &rules,
            Some("rs"),
            &[],
            Some(&text),
            last_commit_time(Some(&times), path),
            cutoff,
        )
    };
    assert_eq!(priority("src/new.rs"), Some(100));
    assert_eq!(priority("src/old.rs"), Some(50));
    assert_eq!(priority("src/untracked.rs"), Some(50));
}

#[test]
fn file_matched_by_the_ignore_file_is_left_out() {
    let mut builder = GitignoreBuilder::new("/repo");
    builder.add_line(None, "*.log").unwrap();
    let matcher = builder.build().unwrap();
    let user = YekConfig {
        ignore_patterns: IgnoreConfig { patterns: Vec::new() },
        priority_rules: vec![PriorityRule { score: 1000, patterns: vec![r"^test\.".to_string()] }],
        binary_extensions: Vec::new(),
        output_dir: None,
    };
    let rules = yek::FinalConfig {
        ignore_patterns: Vec::new(),
        priority_list: build_final_config(Some(&user)).priority_list,
    };
    let text = b"Log content".to_vec();
    let taken = |path: &str| {
        let gitignored = matcher.matched(path, false).is_ignore();
        select(path, gitignored, &rules, None, &[], Some(&text), Some(u64::MAX), 0)
    };
    assert_eq!(taken("test.log"), None);
    assert_eq!(taken("test.txt"), Some(1050));
}

#[test]
fn ignore_file_is_asked_for_each_path() {
    let mut builder = GitignoreBuilder::new("/repo");
    builder.add_line(None, "*.log").unwrap();
    builder.add_line(None, "/out/").unwrap();
    builder.add_line(None, "!keep.log").unwrap();
    let matcher = builder.build().unwrap();
    let rules = build_final_config(None);
    assert_eq!(screen_in_tree(&matcher, "test.log", false, &rules), Err(LeftOut::ByIgnoreFile));
    assert_eq!(screen_in_tree(&matcher, "test.txt", false, &rules), Ok(40));
    assert_eq!(
        screen_in_tree(&matcher, "src/deep/x.log", false, &rules),
        Err(LeftOut::ByIgnoreFile)
    );
    assert_eq!(screen_in_tree(&matcher, "src/deep/x.rs", false, &rules), Ok(50));
    assert_eq!(screen_in_tree(&matcher, "out", true, &rules), Err(LeftOut::ByIgnoreFile));
    assert_eq!(screen_in_tree(&matcher, "out", false, &rules), Ok(40));
    assert_eq!(screen_in_tree(&matcher, "keep.log", false, &rules), Err(LeftOut::ByRules));
    let bare = yek::FinalConfig { ignore_patterns: Vec::new(), priority_list: Vec::new() };
    assert_eq!(screen_in_tree(&matcher, "keep.log", false, &bare), Ok(40));
    assert_eq!(screen_in_tree(&matcher, "other.log", false, &bare), Err(LeftOut::ByIgnoreFile));
    let empty = GitignoreBuilder::new("/repo").build().unwrap();
    assert_eq!(screen_in_tree(&empty, "test.log", false, &bare), Ok(40));
}

#[test]
fn order_of_assembly_is_ascending_and_stable() {
    let files = vec![
        entry(0, "src/z.rs", 50),
        entry(1, "a.txt", 40),
        entry(2, "src/a.rs", 50),
        entry(3, "hot.rs", 100),
        entry(4, "b.txt", 40),
        entry(5, "src/m.rs", 50),
        entry(6, "low.txt", 0),
        entry(7, "c.txt", 40),
    ];
    let sorted = sort_by_priority(files);
    assert_eq!(
        order(&sorted),
        vec![(6, 0), (1, 40), (4, 40), (7, 40), (0, 50), (2, 50), (5, 50), (3, 100)]
    );
    assert_eq!(sorted[0].rel_path, "low.txt");
    assert_eq!(sorted[7].rel_path, "hot.rs");
}

#[test]
fn sorting_few_files() {
    assert!(sort_by_priority(Vec::new()).is_empty());
    assert_eq!(order(&sort_by_priority(vec![entry(0, "a", 7)])), vec![(0, 7)]);
    assert_eq!(
        order(&sort_by_priority(vec![entry(0, "a", 7), entry(1, "b", -3)])),
        vec![(1, -3), (0, 7)]
    );
    assert_eq!(
        order(&sort_by_priority(vec![entry(0, "a", 7), entry(1, "b", 7)])),
        vec![(0, 7), (1, 7)]
    );
}

#[test]
fn sorting_agrees_with_a_stable_sort() {
    let mut files = Vec::new();
    let mut expected = Vec::new();
    let mut seed: u64 = 12345;
    for index in 0..500usize {
        seed = seed.wrapping_mul(6364136223846793005).wrapping_add(1442695040888963407);
        let priority = ((seed >> 33) % 7) as i64 * 10;
        files.push(entry(index, "f", priority));
        expected.push((index, priority));
    }
    expected.sort_by_key(|e| e.1);
    assert_eq!(order(&sort_by_priority(files)), expected);
}
