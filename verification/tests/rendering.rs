use lsn::aggregate::Aggregator;
use lsn::group::{FileGroup, NumRange};
use lsn::order::order;
use lsn::render::render;

fn plain(stem: &[u8], ext: &[u8], range: Option<(u64, u64)>) -> FileGroup {
    FileGroup {
        range: range.map(|(start, end)| NumRange { start, end }),
        parent: None,
        stem: stem.to_vec(),
        ext: ext.to_vec(),
        meta: None,
    }
}

#[test]
fn single_file_range_renders_as_literal_numeral() {
    let mut agg = Aggregator::new(false);
    agg.fold(b"img5.jpg".to_vec(), b".".to_vec(), None);
    let groups = agg.finish();
    assert_eq!(groups.len(), 1);
    assert_eq!(render(&groups[0]), b"img5.jpg".to_vec());
}

#[test]
fn leading_zeros_are_not_preserved_in_a_rendered_singleton() {
    let mut agg = Aggregator::new(false);
    agg.fold(b"img007.jpg".to_vec(), b".".to_vec(), None);
    let groups = agg.finish();
    assert_eq!(render(&groups[0]), b"img7.jpg".to_vec());
}

#[test]
fn wide_ranges_render_with_marker_and_inclusive_span() {
    assert_eq!(
        render(&plain(b"frame", b".png", Some((1, 11)))),
        b"frame#.png (1..10)".to_vec()
    );
    assert_eq!(
        render(&plain(b"take", b"", Some((90, 121)))),
        b"take# (90..120)".to_vec()
    );
}

#[test]
fn rangeless_groups_render_unchanged() {
    assert_eq!(render(&plain(b"readme", b".txt", None)), b"readme.txt".to_vec());
    assert_eq!(render(&plain(b".hidden", b"", None)), b".hidden".to_vec());
}

#[test]
fn end_to_end_scenario() {
    let mut agg = Aggregator::new(false);
    for name in [
        b"frame1.png".to_vec(),
        b"frame2.png".to_vec(),
        b"frame10.png".to_vec(),
        b"readme.txt".to_vec(),
        b".hidden".to_vec(),
    ] {
        agg.fold(name, b".".to_vec(), None);
    }
    let groups = order(agg.finish(), &Vec::new(), false, false);
    assert_eq!(groups.len(), 2);
    assert_eq!(groups[0].stem, b"frame".to_vec());
    assert_eq!(groups[0].ext, b".png".to_vec());
    assert_eq!(groups[0].range, Some(NumRange { start: 1, end: 11 }));
    assert_eq!(render(&groups[0]), b"frame#.png (1..10)".to_vec());
    assert_eq!(groups[1].stem, b"readme".to_vec());
    assert_eq!(groups[1].ext, b".txt".to_vec());
    assert_eq!(groups[1].range, None);
    assert_eq!(render(&groups[1]), b"readme.txt".to_vec());
}
