use yek::{
    assemble, can_be_split, render_chunk, split_file, try_assemble, Assembler, Chunk, Record,
};

fn record(path: &str, content: &str) -> Record {
    Record { path: path.to_string(), content: content.as_bytes().to_vec() }
}

fn paths(chunk: &Chunk) -> Vec<String> {
    chunk.records.iter().map(|r| r.path.clone()).collect()
}

fn rendered(chunks: &[Chunk]) -> Vec<u8> {
    let mut out = Vec::new();
    for chunk in chunks {
        out.extend_from_slice(&render_chunk(&chunk.records));
    }
    out
}

#[test]
fn record_format_is_exact() {
    let records = vec![record("a.txt", "hello")];
    assert_eq!(render_chunk(&records), b">>>> a.txt\nhello\n\n".to_vec());
}

#[test]
fn records_follow_each_other_without_separator() {
    let records = vec![record("a.txt", "one\n"), record("dir/b.txt", ""), record("c", "x")];
    assert_eq!(
        render_chunk(&records),
        b">>>> a.txt\none\n\n\n>>>> dir/b.txt\n\n\n>>>> c\nx\n\n".to_vec()
    );
    assert_eq!(render_chunk(&Vec::new()), Vec::<u8>::new());
}

#[test]
fn two_small_files_share_one_chunk() {
    let files = vec![record("a.txt", "aaaaa"), record("src/b.txt", "bbbbb")];
    let out = assemble(&files, 1000, false);
    assert!(!out.truncated);
    assert_eq!(out.chunks.len(), 1);
    assert_eq!(out.chunks[0].index, 0);
    assert_eq!(paths(&out.chunks[0]), vec!["a.txt".to_string(), "src/b.txt".to_string()]);
    assert_eq!(rendered(&out.chunks), b">>>> a.txt\naaaaa\n\n>>>> src/b.txt\nbbbbb\n\n".to_vec());
}

#[test]
fn huge_file_is_split_into_three_parts() {
    let content = "x".repeat(10000);
    let files = vec![record("huge.txt", &content), record("later.txt", "never written")];
    let out = assemble(&files, 4000, false);
    assert!(out.truncated);
    assert_eq!(out.chunks.len(), 3);
    let labels: Vec<String> = out.chunks.iter().map(|c| c.records[0].path.clone()).collect();
    assert_eq!(labels, vec!["huge.txt:part0", "huge.txt:part1", "huge.txt:part2"]);
    let sizes: Vec<usize> = out.chunks.iter().map(|c| c.records[0].content.len()).collect();
    assert_eq!(sizes, vec![4000, 4000, 2000]);
    let indices: Vec<usize> = out.chunks.iter().map(|c| c.index).collect();
    assert_eq!(indices, vec![0, 1, 2]);
    for chunk in &out.chunks {
        assert_eq!(chunk.records.len(), 1);
        assert!(chunk.records[0].content.len() <= 4000);
    }
    let text = rendered(&out.chunks);
    assert!(!String::from_utf8_lossy(&text).contains("later.txt"));
}

#[test]
fn oversized_file_drops_the_chunk_being_filled() {
    let big = "y".repeat(30);
    let files = vec![
        record("a", "1234567"),
        record("b", "1234567"),
        record("c", "1234567"),
        record("big", &big),
        record("d", "1"),
    ];
    let out = assemble(&files, 10, false);
    assert!(out.truncated);
    let labels: Vec<Vec<String>> = out.chunks.iter().map(paths).collect();
    assert_eq!(
        labels,
        vec![
            vec!["a".to_string()],
            vec!["b".to_string()],
            vec!["big:part0".to_string()],
            vec!["big:part1".to_string()],
            vec!["big:part2".to_string()],
        ]
    );
    let indices: Vec<usize> = out.chunks.iter().map(|c| c.index).collect();
    assert_eq!(indices, vec![0, 1, 0, 1, 2]);
}

#[test]
fn chunk_is_closed_when_the_next_file_does_not_fit() {
    let files = vec![
        record("a", "aaaa"),
        record("b", "bbbb"),
        record("c", "ccc"),
        record("d", "dddddddddd"),
        record("e", ""),
    ];
    let out = assemble(&files, 10, false);
    assert!(!out.truncated);
    let labels: Vec<Vec<String>> = out.chunks.iter().map(paths).collect();
    assert_eq!(
        labels,
        vec![
            vec!["a".to_string(), "b".to_string()],
            vec!["c".to_string()],
            vec!["d".to_string(), "e".to_string()],
        ]
    );
    let indices: Vec<usize> = out.chunks.iter().map(|c| c.index).collect();
    assert_eq!(indices, vec![0, 1, 2]);
}

#[test]
fn file_of_exactly_the_maximum_is_not_split() {
    let files = vec![record("a", "0123456789")];
    let out = assemble(&files, 10, false);
    assert!(!out.truncated);
    assert_eq!(out.chunks.len(), 1);
    assert_eq!(paths(&out.chunks[0]), vec!["a".to_string()]);
}

#[test]
fn no_files_give_no_chunk() {
    let out = assemble(&Vec::new(), 10, false);
    assert!(!out.truncated);
    assert!(out.chunks.is_empty());
}

#[test]
fn chunks_written_in_order_give_back_the_files() {
    let files = vec![
        record("one.txt", "first file\n"),
        record("two.txt", "second\nfile"),
        record("dir/three.txt", ""),
        record("four.txt", "4444444444444444"),
        record("five.txt", "five"),
    ];
    let out = assemble(&files, 16, false);
    assert!(!out.truncated);
    assert!(out.chunks.len() > 1);
    assert_eq!(rendered(&out.chunks), render_chunk(&files));
    for (i, chunk) in out.chunks.iter().enumerate() {
        assert_eq!(chunk.index, i);
    }
}

#[test]
fn accumulated_size_stays_within_the_maximum() {
    let files = vec![
        record("a", "one two three"),
        record("b", "four five"),
        record("c", "six"),
        record("d", "seven eight nine ten"),
        record("e", "eleven"),
    ];
    let out = assemble(&files, 5, true);
    assert!(!out.truncated);
    for chunk in &out.chunks {
        let total: usize =
            chunk.records.iter().map(|r| yek::measure(&r.content, true)).sum();
        assert!(total <= 5);
        assert!(!chunk.records.is_empty());
    }
    let labels: Vec<Vec<String>> = out.chunks.iter().map(paths).collect();
    assert_eq!(
        labels,
        vec![
            vec!["a".to_string(), "b".to_string()],
            vec!["c".to_string(), "d".to_string()],
            vec!["e".to_string()],
        ]
    );
}

#[test]
fn split_by_bytes_drops_white_space_after_each_part() {
    let chunks = split_file("f", b"abcd   efgh\n\nij", 4, false);
    let parts: Vec<Vec<u8>> = chunks.iter().map(|c| c.records[0].content.clone()).collect();
    assert_eq!(parts, vec![b"abcd".to_vec(), b"efgh".to_vec(), b"ij".to_vec()]);
}

#[test]
fn split_by_tokens_takes_words_with_one_separator_each() {
    let chunks = split_file("notes.md", b"a b c d e", 2, true);
    let parts: Vec<Vec<u8>> = chunks.iter().map(|c| c.records[0].content.clone()).collect();
    assert_eq!(parts, vec![b"a b ".to_vec(), b"c d ".to_vec(), b"e".to_vec()]);
    let labels: Vec<String> = chunks.iter().map(|c| c.records[0].path.clone()).collect();
    assert_eq!(labels, vec!["notes.md:part0", "notes.md:part1", "notes.md:part2"]);
}

#[test]
fn split_by_tokens_counts_bytes_from_the_start_of_the_rest() {
    let chunks = split_file("f", b"  alpha   beta gamma", 2, true);
    let parts: Vec<Vec<u8>> = chunks.iter().map(|c| c.records[0].content.clone()).collect();
    assert_eq!(parts, vec![b"  alpha   b".to_vec(), b"eta gamma".to_vec()]);
}

#[test]
fn split_of_white_space_alone_makes_progress() {
    let chunks = split_file("f", b"     ", 2, true);
    let parts: Vec<Vec<u8>> = chunks.iter().map(|c| c.records[0].content.clone()).collect();
    assert_eq!(parts, vec![b"  ".to_vec()]);
}

#[test]
fn part_numbers_are_decimal() {
    let content = "z".repeat(12);
    let chunks = split_file("p", content.as_bytes(), 1, false);
    assert_eq!(chunks.len(), 12);
    assert_eq!(chunks[9].records[0].path, "p:part9");
    assert_eq!(chunks[10].records[0].path, "p:part10");
    assert_eq!(chunks[11].records[0].path, "p:part11");
    assert_eq!(chunks[11].index, 11);
}

#[test]
fn assembler_hands_out_chunks_file_by_file() {
    let mut assembler = Assembler::new(10, false);
    assert!(assembler.add("a", b"aaaaaa").is_empty());
    assert_eq!(assembler.next_index(), 0);
    let written = assembler.add("b", b"bbbbbb");
    assert_eq!(written.len(), 1);
    assert_eq!(written[0].index, 0);
    assert_eq!(paths(&written[0]), vec!["a".to_string()]);
    assert_eq!(assembler.next_index(), 1);
    assert!(!assembler.is_stopped());
    let last = assembler.finish();
    assert_eq!(last.len(), 1);
    assert_eq!(last[0].index, 1);
    assert_eq!(paths(&last[0]), vec!["b".to_string()]);
}

#[test]
fn assembler_stops_at_an_oversized_file() {
    let mut assembler = Assembler::new(4, false);
    assert!(assembler.add("a", b"aa").is_empty());
    let parts = assembler.add("big", b"0123456789");
    assert_eq!(parts.len(), 3);
    assert!(assembler.is_stopped());
    assert!(assembler.add("c", b"c").is_empty());
    assert!(assembler.finish().is_empty());
}

#[test]
fn files_by_priority_come_out_in_one_chunk() {
    let rules = yek::build_final_config(None);
    let text = b"12345".to_vec();
    let mut found = Vec::new();
    for (index, path) in ["src/b.txt", "a.txt"].iter().enumerate() {
        let priority =
            yek::select(path, false, &rules, Some("txt"), &[], Some(&text), None, 0).unwrap();
        found.push(yek::FileEntry { index, rel_path: path.to_string(), priority });
    }
    let sorted = yek::sort_by_priority(found);
    let priorities: Vec<i64> = sorted.iter().map(|f| f.priority).collect();
    assert_eq!(priorities, vec![40, 50]);
    let files: Vec<Record> = sorted.iter().map(|f| record(&f.rel_path, "12345")).collect();
    let out = assemble(&files, 1000, false);
    assert_eq!(out.chunks.len(), 1);
    assert_eq!(paths(&out.chunks[0]), vec!["a.txt".to_string(), "src/b.txt".to_string()]);
    assert_eq!(
        render_chunk(&out.chunks[0].records),
        b">>>> a.txt\n12345\n\n>>>> src/b.txt\n12345\n\n".to_vec()
    );
}

#[test]
fn parts_by_tokens_hold_no_more_words_than_the_maximum() {
    let texts: [&[u8]; 8] = [
        b"a b c d e f g",
        b"  alpha   beta gamma  delta",
        b"one\ttwo\n\nthree four\r\nfive",
        "x\u{2003}y\u{00A0}z\u{3000}w v".as_bytes(),
        "\u{2003}\u{2003}\u{2003}lead trail\u{2003}\u{2003}".as_bytes(),
        b"word",
        b"a  b  c  d  e  f",
        b"\xE2\x80 \x80\x83 x \xC2 y \xE3\x80",
    ];
    for text in texts {
        for max in 1..6usize {
            for chunk in split_file("f", text, max, true) {
                let part = &chunk.records[0].content;
                assert!(!part.is_empty());
                assert!(yek::measure(part, true) <= max, "{:?} {}", text, max);
            }
        }
    }
}

#[test]
fn parts_by_bytes_hold_no_more_bytes_than_the_maximum() {
    let text = "some text with \u{2003} wide spaces and words".as_bytes();
    for max in 1..12usize {
        let chunks = split_file("f", text, max, false);
        for chunk in &chunks {
            let part = &chunk.records[0].content;
            assert!(!part.is_empty());
            assert!(part.len() <= max);
        }
        let kept: usize = chunks.iter().map(|c| c.records[0].content.len()).sum();
        assert!(kept <= text.len());
    }
}

#[test]
fn every_chunk_is_within_the_maximum_after_an_oversized_file() {
    let files = vec![
        record("a", "one two"),
        record("b", "three"),
        record("c", "four five six seven eight nine"),
        record("d", "ten"),
    ];
    let out = assemble(&files, 3, true);
    assert!(out.truncated);
    for chunk in &out.chunks {
        let total: usize = chunk.records.iter().map(|r| yek::measure(&r.content, true)).sum();
        assert!(total <= 3);
        assert!(!chunk.records.is_empty());
    }
    let labels: Vec<Vec<String>> = out.chunks.iter().map(paths).collect();
    assert_eq!(
        labels,
        vec![vec!["c:part0".to_string()], vec!["c:part1".to_string()]]
    );
}

#[test]
fn maximum_of_zero_takes_files_of_white_space_alone() {
    assert!(can_be_split(b"", 0));
    assert!(can_be_split(b" \n\t", 0));
    assert!(can_be_split("\u{3000} ".as_bytes(), 0));
    assert!(!can_be_split(b" a ", 0));
    assert!(!can_be_split(b"a", 0));
    assert!(can_be_split(b"a", 1));
    let files = vec![record("empty", ""), record("also", "")];
    let out = assemble(&files, 0, false);
    assert!(!out.truncated);
    assert_eq!(out.chunks.len(), 1);
    assert_eq!(paths(&out.chunks[0]), vec!["empty".to_string(), "also".to_string()]);
    let blank = vec![record("empty", ""), record("blank", "  \n"), record("later", "")];
    let by_bytes = assemble(&blank, 0, false);
    assert!(by_bytes.truncated);
    assert_eq!(by_bytes.chunks.len(), 1);
    assert_eq!(by_bytes.chunks[0].index, 0);
    assert_eq!(by_bytes.chunks[0].records[0].path, "blank:part0");
    assert!(by_bytes.chunks[0].records[0].content.is_empty());
    let by_tokens = assemble(&blank, 0, true);
    assert!(!by_tokens.truncated);
    assert_eq!(by_tokens.chunks.len(), 1);
    assert_eq!(by_tokens.chunks[0].records.len(), 3);
    assert!(split_file("f", b"", 0, false).is_empty());
}

#[test]
fn file_that_cannot_be_split_is_not_taken() {
    let mut assembler = Assembler::new(0, false);
    assert_eq!(assembler.try_add("empty", b"").map(|c| c.len()), Some(0));
    assert!(assembler.try_add("words", b"some words").is_none());
    assert!(!assembler.is_stopped());
    assert_eq!(assembler.next_index(), 0);
    let parts = assembler.try_add("blank", b"  ").unwrap();
    assert_eq!(parts.len(), 1);
    assert_eq!(parts[0].records[0].path, "blank:part0");
    assert!(assembler.is_stopped());
    assert_eq!(assembler.try_add("words", b"some words").map(|c| c.len()), Some(0));
    assert!(assembler.finish().is_empty());
}

#[test]
fn assembly_halts_only_at_a_file_that_is_split() {
    let stuck = vec![record("a", ""), record("b", "bb"), record("c", "")];
    assert!(try_assemble(&stuck, 0, false).is_none());
    assert!(try_assemble(&stuck, 0, true).is_none());
    let after = vec![record("a", ""), record("blank", " "), record("b", "bb")];
    let out = try_assemble(&after, 0, false).unwrap();
    assert!(out.truncated);
    assert_eq!(out.chunks.len(), 1);
    let by_tokens = try_assemble(&after, 0, true);
    assert!(by_tokens.is_none());
    let fine = try_assemble(&stuck, 1, false).unwrap();
    assert!(fine.truncated);
    assert_eq!(fine.chunks.len(), 2);
}
