use fattest::{
    collect_files, fold_results, subdirectories, DirEntryInfo, EntryKind, FileCollection, FileData,
    BATCH_SIZE,
};

fn file(path: &str, size: u64) -> DirEntryInfo {
    DirEntryInfo::new(path.to_string(), EntryKind::File, Some(size))
}

fn dir(path: &str) -> DirEntryInfo {
    DirEntryInfo::new(path.to_string(), EntryKind::Directory, None)
}

fn sizes_of(c: &FileCollection) -> Vec<u64> {
    c.files().iter().map(|f| f.size).collect()
}

fn listing(sizes: &[u64]) -> Vec<DirEntryInfo> {
    sizes.iter().enumerate().map(|(i, s)| file(&format!("f{}", i), *s)).collect()
}

fn pseudo_random_sizes(n: usize, seed: u64, modulus: u64) -> Vec<u64> {
    let mut x = seed;
    let mut out = Vec::new();
    for _ in 0..n {
        x = x.wrapping_mul(6364136223846793005).wrapping_add(1442695040888963407);
        out.push((x >> 33) % modulus);
    }
    out
}

fn naive_top(sizes: &[u64], k: usize) -> Vec<u64> {
    let mut all: Vec<u64> = sizes.iter().copied().filter(|s| *s > 0).collect();
    all.sort_by(|a, b| b.cmp(a));
    all.truncate(k);
    all
}

#[test]
fn five_files_keep_three_largest() {
    let entries = listing(&[10, 50, 5, 200, 1]);
    for batched in [false, true] {
        let r = collect_files(&entries, 3, batched);
        assert_eq!(sizes_of(&r), vec![200, 50, 10]);
    }
}

#[test]
fn empty_directory_gives_empty_result() {
    let entries: Vec<DirEntryInfo> = Vec::new();
    let r = collect_files(&entries, 5, true);
    assert!(r.is_empty());
    assert_eq!(r.capacity(), 5);
}

#[test]
fn fewer_files_than_capacity() {
    let entries = listing(&[7, 300]);
    let r = collect_files(&entries, 10, true);
    assert_eq!(r.len(), 2);
    assert_eq!(sizes_of(&r), vec![300, 7]);
    assert_eq!(r.files()[0].path, "f1");
    assert_eq!(r.files()[1].path, "f0");
}

#[test]
fn nested_tree_finds_global_top_two() {
    let root = vec![file("root/a", 40), dir("root/s1"), dir("root/s2"), dir("root/s3")];
    let s1 = vec![file("root/s1/x", 900), file("root/s1/y", 30)];
    let s2 = vec![file("root/s2/x", 20), file("root/s2/y", 10)];
    let s3 = vec![file("root/s3/x", 5), file("root/s3/y", 800)];
    assert_eq!(subdirectories(&root), vec!["root/s1".to_string(), "root/s2".to_string(), "root/s3".to_string()]);
    let local = collect_files(&root, 2, true);
    let children = vec![collect_files(&s1, 2, true), collect_files(&s2, 2, true), collect_files(&s3, 2, true)];
    let r = fold_results(local, &children);
    assert_eq!(sizes_of(&r), vec![900, 800]);
    assert_eq!(r.files()[0].path, "root/s1/x");
    assert_eq!(r.files()[1].path, "root/s3/y");
}

#[test]
fn zero_capacity_gives_empty_result() {
    let entries = listing(&[10, 50, 5]);
    for batched in [false, true] {
        let r = collect_files(&entries, 0, batched);
        assert!(r.is_empty());
    }
    let mut c = FileCollection::new(0);
    c.smart_insert(FileData::new("a".to_string(), 99));
    assert!(c.is_empty());
    assert_eq!(c.find_insert_position(&99), None);
}

#[test]
fn excluded_entries_never_appear() {
    let entries = vec![
        file("empty", 0),
        DirEntryInfo::new("link".to_string(), EntryKind::Other, Some(500)),
        DirEntryInfo::new("sub".to_string(), EntryKind::Directory, Some(4096)),
        DirEntryInfo::new("unreadable".to_string(), EntryKind::File, None),
        file("real", 3),
    ];
    for batched in [false, true] {
        let r = collect_files(&entries, 10, batched);
        assert_eq!(r.len(), 1);
        assert_eq!(r.files()[0].path, "real");
        assert_eq!(r.files()[0].size, 3);
    }
    assert_eq!(subdirectories(&entries), vec!["sub".to_string()]);
}

#[test]
fn matches_full_sort_on_many_files() {
    for (n, k, modulus) in [(2000usize, 25usize, 1_000_000u64), (700, 300, 50), (1500, 1, 7), (600, 1000, 1000)] {
        let sizes = pseudo_random_sizes(n, n as u64 + k as u64, modulus);
        let entries = listing(&sizes);
        let expected = naive_top(&sizes, k);
        for batched in [false, true] {
            let r = collect_files(&entries, k, batched);
            assert!(r.len() <= k);
            let got = sizes_of(&r);
            for w in got.windows(2) {
                assert!(w[0] >= w[1]);
            }
            assert_eq!(got, expected);
        }
    }
}

#[test]
fn distinct_sizes_select_exact_files() {
    let sizes: Vec<u64> = (1..=500u64).map(|i| (i * 7919) % 100_003 + 1).collect();
    let entries = listing(&sizes);
    let r = collect_files(&entries, 10, true);
    let mut expected: Vec<(u64, String)> = sizes.iter().enumerate().map(|(i, s)| (*s, format!("f{}", i))).collect();
    expected.sort_by(|a, b| b.0.cmp(&a.0));
    expected.truncate(10);
    let got: Vec<(u64, String)> = r.files().iter().map(|f| (f.size, f.path.clone())).collect();
    assert_eq!(got, expected);
}

#[test]
fn batching_changes_nothing() {
    let mut sizes = pseudo_random_sizes(3 * BATCH_SIZE + 17, 11, 10_000);
    // many small files after the largest ones: whole batches are dropped
    sizes.extend(std::iter::repeat(1u64).take(2 * BATCH_SIZE));
    let entries = listing(&sizes);
    for k in [0usize, 1, 5, BATCH_SIZE, 2 * BATCH_SIZE] {
        let a = collect_files(&entries, k, true);
        let b = collect_files(&entries, k, false);
        assert_eq!(sizes_of(&a), sizes_of(&b));
    }
}

fn collection_of(sizes: &[u64], k: usize) -> FileCollection {
    collect_files(&listing(sizes), k, false)
}

#[test]
fn merge_order_does_not_matter() {
    let a = [5u64, 90, 12, 12, 40];
    let b = [70u64, 3, 12, 88];
    let c = [1u64, 91, 40, 6, 6];
    let k = 4;
    let mut ab = collection_of(&a, k);
    ab.merge(&collection_of(&b, k));
    let mut ba = collection_of(&b, k);
    ba.merge(&collection_of(&a, k));
    assert_eq!(sizes_of(&ab), sizes_of(&ba));
    assert_eq!(sizes_of(&ab), vec![90, 88, 70, 40]);

    let mut ab_c = ab;
    ab_c.merge(&collection_of(&c, k));
    let mut bc = collection_of(&b, k);
    bc.merge(&collection_of(&c, k));
    let mut a_bc = collection_of(&a, k);
    a_bc.merge(&bc);
    assert_eq!(sizes_of(&ab_c), sizes_of(&a_bc));
    assert_eq!(sizes_of(&ab_c), vec![91, 90, 88, 70]);
}

#[test]
fn merge_with_empty_is_identity() {
    let mut a = collection_of(&[3, 9, 4], 5);
    a.merge(&FileCollection::new(5));
    assert_eq!(sizes_of(&a), vec![9, 4, 3]);
    let mut e = FileCollection::new(2);
    e.merge(&collection_of(&[3, 9, 4], 5));
    assert_eq!(sizes_of(&e), vec![9, 4]);
}

#[test]
fn merge_keeps_own_file_first_among_equals() {
    let mut a = FileCollection::new(3);
    a.smart_insert(FileData::new("mine".to_string(), 10));
    let mut b = FileCollection::new(3);
    b.smart_insert(FileData::new("theirs".to_string(), 10));
    a.merge(&b);
    assert_eq!(a.files()[0].path, "mine");
    assert_eq!(a.files()[1].path, "theirs");
}

#[test]
fn insert_position_and_discard() {
    let mut c = FileCollection::new(3);
    assert_eq!(c.find_insert_position(&5), Some(0));
    c.smart_insert(FileData::new("a".to_string(), 50));
    c.smart_insert(FileData::new("b".to_string(), 20));
    assert_eq!(c.find_insert_position(&30), Some(1));
    assert_eq!(c.find_insert_position(&20), Some(2));
    assert_eq!(c.find_insert_position(&1), Some(2));
    c.smart_insert(FileData::new("c".to_string(), 10));
    // full now: a file no larger than the smallest is refused
    assert_eq!(c.find_insert_position(&10), None);
    assert_eq!(c.find_insert_position(&9), None);
    assert_eq!(c.find_insert_position(&11), Some(2));
    assert_eq!(c.find_insert_position(&60), Some(0));
    c.smart_insert(FileData::new("d".to_string(), 10));
    assert_eq!(sizes_of(&c), vec![50, 20, 10]);
    assert_eq!(c.files()[2].path, "c");
    c.smart_insert(FileData::new("e".to_string(), 30));
    assert_eq!(sizes_of(&c), vec![50, 30, 20]);
    let paths: Vec<String> = c.into_files().into_iter().map(|f| f.path).collect();
    assert_eq!(paths, vec!["a".to_string(), "e".to_string(), "b".to_string()]);
}

#[test]
fn duplicate_copies_path_and_size() {
    let f = FileData::new("x/y".to_string(), 12);
    let g = f.duplicate();
    assert_eq!(g.path, "x/y");
    assert_eq!(g.size, 12);
}

#[test]
fn merge_equals_inserting_one_by_one() {
    let a_sizes = pseudo_random_sizes(40, 3, 500);
    let b_sizes = pseudo_random_sizes(60, 4, 500);
    for k in [1usize, 7, 30, 200] {
        let a = collection_of(&a_sizes, k);
        let b = collection_of(&b_sizes, k);
        let mut merged = collection_of(&a_sizes, k);
        merged.merge(&b);
        let mut inserted = a;
        for f in b.files() {
            inserted.smart_insert(f.duplicate());
        }
        assert_eq!(sizes_of(&merged), sizes_of(&inserted));
        let paths_m: Vec<String> = merged.files().iter().map(|f| f.path.clone()).collect();
        let paths_i: Vec<String> = inserted.files().iter().map(|f| f.path.clone()).collect();
        assert_eq!(paths_m, paths_i);
    }
}
