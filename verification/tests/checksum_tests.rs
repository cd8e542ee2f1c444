use sha2::{Digest, Sha256};
use yek::{fallback_timestamp, get_repo_checksum, repo_checksum, tracked_files, TrackedFile};

fn listed(name: &str, hash: &str) -> TrackedFile {
    TrackedFile { name: name.as_bytes().to_vec(), hash: hash.as_bytes().to_vec() }
}

fn expected(files: &[(&str, &str)], chunk_size: usize) -> String {
    let mut hasher = Sha256::new();
    for (file, hash) in files {
        hasher.update(format!("{}:{}\n", file, hash.trim()));
    }
    if chunk_size != 0 {
        hasher.update(format!("{}", chunk_size));
    }
    let hex = format!("{:x}", hasher.finalize());
    hex[..8].to_string()
}

#[test]
fn tracked_files_are_trimmed_and_sorted() {
    let listing = b"src/main.rs\n  README.md \n\nCargo.toml\r\nsrc/lib.rs\n\n";
    let names = tracked_files(listing);
    let names: Vec<String> =
        names.iter().map(|n| String::from_utf8(n.clone()).unwrap()).collect();
    assert_eq!(names, vec!["Cargo.toml", "README.md", "src/lib.rs", "src/main.rs"]);
}

#[test]
fn tracked_files_sort_like_strings() {
    let listing = "b\na\nab\nB\n~\n a b \nz/é\nz/e\n10\n9\nab\n";
    let names = tracked_files(listing.as_bytes());
    let names: Vec<String> =
        names.iter().map(|n| String::from_utf8(n.clone()).unwrap()).collect();
    let mut lines: Vec<&str> =
        listing.split('\n').map(|s| s.trim()).filter(|s| !s.is_empty()).collect();
    lines.sort();
    assert_eq!(names, lines);
    assert!(tracked_files(b"").is_empty());
    assert!(tracked_files(b"\n \n\t\n").is_empty());
}

#[test]
fn checksum_of_no_files() {
    assert_eq!(repo_checksum(&Vec::new(), 0), "e3b0c442");
    assert_eq!(repo_checksum(&Vec::new(), 0), expected(&[], 0));
}

#[test]
fn checksum_is_the_start_of_the_digest() {
    let files = [
        ("Cargo.toml", "e69de29bb2d1d6434b8b29ae775ad8c2e48c5391\n"),
        ("src/main.rs", "  8ab686eafeb1f44702738c8b0f24f2567c36da6d\n"),
    ];
    let given: Vec<TrackedFile> = files.iter().map(|(n, h)| listed(n, h)).collect();
    let sum = repo_checksum(&given, 0);
    assert_eq!(sum.len(), 8);
    assert_eq!(sum, expected(&files, 0));
    assert_ne!(sum, repo_checksum(&Vec::new(), 0));
}

#[test]
fn checksum_takes_the_chunk_size_in() {
    let files = [("a", "1\n"), ("b", "2\n")];
    let given: Vec<TrackedFile> = files.iter().map(|(n, h)| listed(n, h)).collect();
    assert_eq!(repo_checksum(&given, 4096), expected(&files, 4096));
    assert_eq!(repo_checksum(&given, 7), expected(&files, 7));
    assert_eq!(repo_checksum(&given, usize::MAX), expected(&files, usize::MAX));
    assert_ne!(repo_checksum(&given, 4096), repo_checksum(&given, 0));
}

#[test]
fn checksum_depends_on_names_and_hashes() {
    let a = vec![listed("a", "1")];
    let b = vec![listed("a", "2")];
    let c = vec![listed("b", "1")];
    assert_ne!(repo_checksum(&a, 0), repo_checksum(&b, 0));
    assert_ne!(repo_checksum(&a, 0), repo_checksum(&c, 0));
    assert_eq!(repo_checksum(&a, 0), repo_checksum(&vec![listed("a", " 1\n")], 0));
}

#[test]
fn fallback_name_is_the_start_of_the_time_in_hexadecimal() {
    assert_eq!(fallback_timestamp(0), "0");
    assert_eq!(fallback_timestamp(15), "f");
    assert_eq!(fallback_timestamp(16), "10");
    assert_eq!(fallback_timestamp(255), "ff");
    assert_eq!(fallback_timestamp(0x0fff_ffff), "fffffff");
    assert_eq!(fallback_timestamp(0x1000_0000), "10000000");
    assert_eq!(fallback_timestamp(0xffff_ffff), "ffffffff");
    assert_eq!(fallback_timestamp(0x1_0000_0000), "10000000");
    assert_eq!(fallback_timestamp(0x18b_cfe5_6800), "18bcfe56");
    for millis in [1_700_000_000_000u128, 1, 4096, u64::MAX as u128, u128::MAX] {
        let full = format!("{:x}", millis);
        let cut: String = full.chars().take(8).collect();
        assert_eq!(fallback_timestamp(millis), cut);
    }
    assert_eq!(fallback_timestamp(u128::MAX), "ffffffff");
}

#[test]
fn name_of_the_tree_has_eight_hexadecimal_digits() {
    let files = vec![listed("a", "1\n"), listed("b", "2\n")];
    let now = 1_700_000_000_000u128;
    let by_files = get_repo_checksum(Some(&files), 0, now);
    assert_eq!(by_files, repo_checksum(&files, 0));
    assert_eq!(by_files, expected(&[("a", "1\n"), ("b", "2\n")], 0));
    let by_time = get_repo_checksum(None, 0, now);
    assert_eq!(by_time, "18bcfe56");
    for name in [by_files, by_time, get_repo_checksum(Some(&Vec::new()), 7, 0)] {
        assert_eq!(name.len(), 8);
        assert!(name.chars().all(|c| c.is_ascii_digit() || ('a'..='f').contains(&c)));
    }
}

#[test]
fn checksum_does_not_depend_on_the_order_given() {
    let sorted = [
        ("Cargo.toml", "e69de29bb2d1d6434b8b29ae775ad8c2e48c5391\n"),
        ("README.md", "0123456789abcdef0123456789abcdef01234567\n"),
        ("src/lib.rs", "8ab686eafeb1f44702738c8b0f24f2567c36da6d\n"),
        ("src/main.rs", "fedcba9876543210fedcba9876543210fedcba98\n"),
    ];
    let wanted = expected(&sorted, 0);
    let orders: [[usize; 4]; 5] =
        [[0, 1, 2, 3], [3, 2, 1, 0], [1, 0, 3, 2], [2, 3, 0, 1], [1, 3, 0, 2]];
    for order in orders {
        let given: Vec<TrackedFile> =
            order.iter().map(|&i| listed(sorted[i].0, sorted[i].1)).collect();
        assert_eq!(repo_checksum(&given, 0), wanted);
        assert_eq!(get_repo_checksum(Some(&given), 0, 5), wanted);
        assert_eq!(repo_checksum(&given, 4096), expected(&sorted, 4096));
    }
}

#[test]
fn files_of_one_name_stand_by_their_hash() {
    let one = vec![listed("a", "2"), listed("a", "1"), listed("B", "3")];
    let other = vec![listed("a", "1"), listed("B", "3"), listed("a", "2")];
    let wanted = expected(&[("B", "3"), ("a", "1"), ("a", "2")], 0);
    assert_eq!(repo_checksum(&one, 0), wanted);
    assert_eq!(repo_checksum(&other, 0), wanted);
}
