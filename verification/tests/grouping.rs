use lsn::aggregate::Aggregator;
use lsn::group::{merge_range, NumRange};
use lsn::meta::{merge_meta, Meta};
use lsn::render::max_size;

fn meta(modified: Option<u64>, size: u64) -> Meta {
    Meta {
        modified,
        accessed: None,
        created: None,
        size,
        is_dir: false,
        is_symlink: false,
    }
}

fn fold_names(names: &[&[u8]]) -> Aggregator {
    let mut agg = Aggregator::new(false);
    for name in names {
        agg.fold(name.to_vec(), b".".to_vec(), None);
    }
    agg
}

#[test]
fn range_merge_is_permutation_independent() {
    let orders: [&[&[u8]]; 3] = [
        &[b"f3.png", b"f1.png", b"f7.png", b"f2.png"],
        &[b"f7.png", b"f2.png", b"f3.png", b"f1.png"],
        &[b"f1.png", b"f2.png", b"f7.png", b"f3.png"],
    ];
    for names in orders {
        let groups = fold_names(names).finish();
        assert_eq!(groups.len(), 1);
        let r = groups[0].range.unwrap();
        assert_eq!((r.start, r.end), (1, 8));
    }
}

#[test]
fn range_merge_pairwise_association_matches_sequential() {
    let a = NumRange { start: 4, end: 5 };
    let b = NumRange { start: 1, end: 2 };
    let c = NumRange { start: 9, end: 10 };
    let left = merge_range(merge_range(a, b), c);
    let right = merge_range(a, merge_range(b, c));
    assert_eq!(left, right);
    assert_eq!((left.start, left.end), (1, 10));
    // and commutes
    assert_eq!(merge_range(a, b), merge_range(b, a));
}

#[test]
fn missing_modified_poisons_the_merge() {
    let full = Some(meta(Some(700), 1));
    let gap = Some(meta(None, 2));
    let merged = merge_meta(full, gap).unwrap();
    assert_eq!(merged.modified, None);
    assert_eq!(merged.size, 3);

    // through the aggregator as well
    let mut agg = Aggregator::new(false);
    agg.fold(b"v1.txt".to_vec(), b".".to_vec(), Some(meta(Some(700), 1)));
    agg.fold(b"v2.txt".to_vec(), b".".to_vec(), Some(meta(None, 2)));
    let groups = agg.finish();
    assert_eq!(groups.len(), 1);
    assert_eq!(groups[0].modified(), None);
}

#[test]
fn absent_metadata_poisons_the_whole_record() {
    let mut agg = Aggregator::new(false);
    agg.fold(b"v1.txt".to_vec(), b".".to_vec(), Some(meta(Some(700), 1)));
    agg.fold(b"v2.txt".to_vec(), b".".to_vec(), None);
    let groups = agg.finish();
    assert_eq!(groups.len(), 1);
    assert!(groups[0].meta.is_none());
    assert_eq!(groups[0].size(), None);
}

#[test]
fn sizes_add_exactly() {
    let mut agg = Aggregator::new(false);
    agg.fold(b"part1.bin".to_vec(), b".".to_vec(), Some(meta(Some(1), 10)));
    agg.fold(b"part2.bin".to_vec(), b".".to_vec(), Some(meta(Some(2), 20)));
    agg.fold(b"part3.bin".to_vec(), b".".to_vec(), Some(meta(Some(3), 30)));
    let groups = agg.finish();
    assert_eq!(groups.len(), 1);
    assert_eq!(groups[0].size(), Some(60));
}

#[test]
fn timestamps_aggregate_newest_and_oldest() {
    let mut agg = Aggregator::new(false);
    let m1 = Meta {
        modified: Some(50),
        accessed: Some(10),
        created: Some(30),
        size: 0,
        is_dir: false,
        is_symlink: false,
    };
    let m2 = Meta {
        modified: Some(40),
        accessed: Some(90),
        created: Some(20),
        size: 0,
        is_dir: false,
        is_symlink: false,
    };
    agg.fold(b"v1".to_vec(), b".".to_vec(), Some(m1));
    agg.fold(b"v2".to_vec(), b".".to_vec(), Some(m2));
    let groups = agg.finish();
    assert_eq!(groups[0].modified(), Some(50));
    assert_eq!(groups[0].accessed(), Some(90));
    assert_eq!(groups[0].created(), Some(20));
}

#[test]
fn first_entry_keeps_parent_and_flags() {
    let mut agg = Aggregator::new(false);
    let dir = Meta {
        modified: None,
        accessed: None,
        created: None,
        size: 0,
        is_dir: true,
        is_symlink: false,
    };
    let file = Meta {
        modified: None,
        accessed: None,
        created: None,
        size: 0,
        is_dir: false,
        is_symlink: false,
    };
    agg.fold(b"v1".to_vec(), b"first".to_vec(), Some(dir));
    agg.fold(b"v2".to_vec(), b"second".to_vec(), Some(file));
    let groups = agg.finish();
    assert_eq!(groups.len(), 1);
    assert_eq!(groups[0].parent, Some(b"first".to_vec()));
    assert!(groups[0].is_dir());
    assert!(!groups[0].is_symlink());
}

#[test]
fn hidden_names_are_excluded_unless_asked_for() {
    let groups = fold_names(&[b".hidden", b"seen1.txt"]).finish();
    assert_eq!(groups.len(), 1);
    assert_eq!(groups[0].stem, b"seen".to_vec());

    let mut agg = Aggregator::new(true);
    agg.fold(b".hidden".to_vec(), b".".to_vec(), None);
    agg.fold(b"seen1.txt".to_vec(), b".".to_vec(), None);
    let groups = agg.finish();
    assert_eq!(groups.len(), 2);
    assert_eq!(groups[0].stem, b".hidden".to_vec());
}

#[test]
fn oversized_numerals_fall_back_to_raw_singletons() {
    let groups = fold_names(&[b"big18446744073709551616.log", b"big18446744073709551616.log"])
        .finish();
    assert_eq!(groups.len(), 1);
    assert_eq!(groups[0].range, None);
    assert_eq!(groups[0].stem, b"big18446744073709551616".to_vec());
    assert_eq!(groups[0].ext, b".log".to_vec());
}

#[test]
fn raw_names_never_merge_with_numbered_groups() {
    // one numbered group for the v-files, one singleton for the raw name
    let groups = fold_names(&[b"v1", b"v2", b"plain"]).finish();
    assert_eq!(groups.len(), 2);
    assert_eq!(groups[0].range, Some(NumRange { start: 1, end: 3 }));
    assert_eq!(groups[1].range, None);
}

#[test]
fn raw_singleton_seen_again_is_replaced() {
    let mut agg = Aggregator::new(false);
    agg.fold(b"readme.txt".to_vec(), b"a".to_vec(), Some(meta(Some(1), 5)));
    agg.fold(b"other.txt".to_vec(), b"a".to_vec(), None);
    agg.fold(b"readme.txt".to_vec(), b"b".to_vec(), Some(meta(Some(2), 9)));
    let groups = agg.finish();
    assert_eq!(groups.len(), 2);
    // it keeps its place in the order but carries the later entry's data
    assert_eq!(groups[0].stem, b"readme".to_vec());
    assert_eq!(groups[0].parent, Some(b"b".to_vec()));
    assert_eq!(groups[0].size(), Some(9));
}

#[test]
fn widest_size_column_comes_from_the_largest_aggregate() {
    let mut agg = Aggregator::new(false);
    agg.fold(b"a1".to_vec(), b".".to_vec(), Some(meta(None, 7)));
    agg.fold(b"b1".to_vec(), b".".to_vec(), Some(meta(None, 1200)));
    agg.fold(b"c".to_vec(), b".".to_vec(), None);
    let groups = agg.finish();
    assert_eq!(max_size(&groups), 1200);
    assert_eq!(max_size(&Vec::new()), 0);
}
