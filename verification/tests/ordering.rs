use lsn::group::{FileGroup, NumRange};
use lsn::meta::Meta;
use lsn::order::{compare_groups, order, SortKey};

fn group(stem: &[u8], ext: &[u8], range: Option<(u64, u64)>, meta: Option<Meta>) -> FileGroup {
    FileGroup {
        range: range.map(|(start, end)| NumRange { start, end }),
        parent: None,
        stem: stem.to_vec(),
        ext: ext.to_vec(),
        meta,
    }
}

fn sized(size: u64, modified: u64) -> Option<Meta> {
    Some(Meta {
        modified: Some(modified),
        accessed: None,
        created: None,
        size,
        is_dir: false,
        is_symlink: false,
    })
}

fn stems(groups: &[FileGroup]) -> Vec<Vec<u8>> {
    groups.iter().map(|g| g.stem.clone()).collect()
}

#[test]
fn unsorted_without_criteria_keeps_insertion_order() {
    let input = vec![
        group(b"zeta", b"", None, None),
        group(b"alpha", b"", None, None),
        group(b"mid", b"", None, None),
    ];
    let out = order(input, &Vec::new(), false, false);
    assert_eq!(stems(&out), vec![b"zeta".to_vec(), b"alpha".to_vec(), b"mid".to_vec()]);
    // even with reverse set, an explicitly unsorted run is untouched
    let input = vec![group(b"b", b"", None, None), group(b"a", b"", None, None)];
    let out = order(input, &Vec::new(), false, true);
    assert_eq!(stems(&out), vec![b"b".to_vec(), b"a".to_vec()]);
}

#[test]
fn default_ordering_is_lexical_by_stem_range_extension() {
    let input = vec![
        group(b"b", b".txt", None, None),
        group(b"a", b".txt", Some((5, 6)), None),
        group(b"a", b".txt", Some((2, 4)), None),
        group(b"a", b".log", Some((2, 4)), None),
    ];
    let out = order(input, &Vec::new(), true, false);
    let shape: Vec<(Vec<u8>, Vec<u8>, Option<(u64, u64)>)> = out
        .iter()
        .map(|g| (g.stem.clone(), g.ext.clone(), g.range.map(|r| (r.start, r.end))))
        .collect();
    assert_eq!(
        shape,
        vec![
            (b"a".to_vec(), b".log".to_vec(), Some((2, 4))),
            (b"a".to_vec(), b".txt".to_vec(), Some((2, 4))),
            (b"a".to_vec(), b".txt".to_vec(), Some((5, 6))),
            (b"b".to_vec(), b".txt".to_vec(), None),
        ]
    );
}

#[test]
fn criteria_precede_the_lexical_tiebreak() {
    let input = vec![
        group(b"a", b"", None, sized(900, 1)),
        group(b"b", b"", None, sized(100, 2)),
    ];
    let out = order(input, &vec![SortKey::BySize], true, false);
    assert_eq!(stems(&out), vec![b"b".to_vec(), b"a".to_vec()]);
}

#[test]
fn criteria_apply_in_caller_order() {
    let input = vec![
        group(b"a", b"", None, sized(100, 9)),
        group(b"b", b"", None, sized(100, 1)),
        group(b"c", b"", None, sized(50, 5)),
    ];
    let by_size_first = order(
        input.clone(),
        &vec![SortKey::BySize, SortKey::ByModifiedTime],
        false,
        false,
    );
    assert_eq!(
        stems(&by_size_first),
        vec![b"c".to_vec(), b"b".to_vec(), b"a".to_vec()]
    );
    let by_time_first = order(
        input,
        &vec![SortKey::ByModifiedTime, SortKey::BySize],
        false,
        false,
    );
    assert_eq!(
        stems(&by_time_first),
        vec![b"b".to_vec(), b"c".to_vec(), b"a".to_vec()]
    );
}

#[test]
fn absent_metadata_gives_no_distinction_and_sort_is_stable() {
    let input = vec![
        group(b"late", b"", None, None),
        group(b"early", b"", None, None),
    ];
    // both lack sizes: the size criterion alone leaves insertion order
    let out = order(input, &vec![SortKey::BySize], false, false);
    assert_eq!(stems(&out), vec![b"late".to_vec(), b"early".to_vec()]);
}

#[test]
fn reverse_inverts_the_final_composite_order() {
    let input = vec![
        group(b"a", b"", None, None),
        group(b"b", b"", None, None),
        group(b"c", b"", None, None),
    ];
    let out = order(input, &Vec::new(), true, true);
    assert_eq!(stems(&out), vec![b"c".to_vec(), b"b".to_vec(), b"a".to_vec()]);
}

#[test]
fn reversing_twice_is_the_same_as_not_reversing() {
    let a = group(b"a", b".x", Some((1, 3)), sized(10, 5));
    let b = group(b"b", b".y", Some((2, 4)), sized(20, 3));
    let keys = vec![SortKey::BySize, SortKey::ByModifiedTime];
    for (x, y) in [(&a, &b), (&b, &a), (&a, &a)] {
        let plain = compare_groups(&keys, true, false, x, y);
        let reversed = compare_groups(&keys, true, true, x, y);
        // inverting the inverted order restores the plain one
        assert_eq!(-reversed, plain);
    }
    // and the sorted output under the twice-inverted comparator is the
    // plainly sorted output
    let input = vec![b.clone(), a.clone()];
    let once = order(input.clone(), &keys, true, false);
    let twice = order(input, &keys, true, false);
    assert_eq!(stems(&once), stems(&twice));
}
