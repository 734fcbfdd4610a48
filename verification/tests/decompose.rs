use lsn::name::{decompose, parse_numeral, split_ext};

#[test]
fn digit_in_extension() {
    let d = decompose(&b"test2.3dv".to_vec()).unwrap();
    assert_eq!(d.stem, b"test".to_vec());
    assert_eq!(d.numeral, b"2".to_vec());
    assert_eq!(d.ext, b".3dv".to_vec());
}

#[test]
fn basic() {
    let d = decompose(&b"test2.txt".to_vec()).unwrap();
    assert_eq!(d.stem, b"test".to_vec());
    assert_eq!(d.numeral, b"2".to_vec());
    assert_eq!(d.ext, b".txt".to_vec());
}

#[test]
fn many_digits() {
    let d = decompose(&b"some1other5test2.3dv".to_vec()).unwrap();
    assert_eq!(d.stem, b"some1other5test".to_vec());
    assert_eq!(d.numeral, b"2".to_vec());
    assert_eq!(d.ext, b".3dv".to_vec());
}

#[test]
fn no_extension() {
    let d = decompose(&b"some1other5test2".to_vec()).unwrap();
    assert_eq!(d.stem, b"some1other5test".to_vec());
    assert_eq!(d.numeral, b"2".to_vec());
    assert_eq!(d.ext, b"".to_vec());
}

#[test]
fn one_period_extension() {
    let d = decompose(&b"some1other5test2.".to_vec()).unwrap();
    assert_eq!(d.stem, b"some1other5test".to_vec());
    assert_eq!(d.numeral, b"2".to_vec());
    assert_eq!(d.ext, b".".to_vec());
}

#[test]
fn start_with_number() {
    let d = decompose(&b"0some1other5test2.t".to_vec()).unwrap();
    assert_eq!(d.stem, b"0some1other5test".to_vec());
    assert_eq!(d.numeral, b"2".to_vec());
    assert_eq!(d.ext, b".t".to_vec());
}

#[test]
fn just_number_with_extension() {
    let d = decompose(&b"01.t".to_vec()).unwrap();
    assert_eq!(d.stem, b"".to_vec());
    assert_eq!(d.numeral, b"01".to_vec());
    assert_eq!(d.ext, b".t".to_vec());
}

#[test]
fn just_number() {
    let d = decompose(&b"01".to_vec()).unwrap();
    assert_eq!(d.stem, b"".to_vec());
    assert_eq!(d.numeral, b"01".to_vec());
    assert_eq!(d.ext, b"".to_vec());
}

#[test]
fn partition_reconstructs_the_name() {
    for name in [
        b"test2.3dv".to_vec(),
        b"some1other5test2.".to_vec(),
        b"01.t".to_vec(),
        b"frame0001.png".to_vec(),
        b"a1..b".to_vec(),
        b"x9".to_vec(),
    ] {
        let d = decompose(&name).unwrap();
        let mut whole = d.stem.clone();
        whole.extend_from_slice(&d.numeral);
        whole.extend_from_slice(&d.ext);
        assert_eq!(whole, name);
    }
}

#[test]
fn names_without_terminal_numeral_fail() {
    assert!(decompose(&b"readme.txt".to_vec()).is_none());
    assert!(decompose(&b"no2digits.at.end".to_vec()).is_none());
    assert!(decompose(&b"".to_vec()).is_none());
    assert!(decompose(&b".hidden".to_vec()).is_none());
}

#[test]
fn rightmost_qualifying_run_wins() {
    // the run before the extension boundary qualifies, the one inside the
    // extension does not
    let d = decompose(&b"a1b2.c3".to_vec()).unwrap();
    assert_eq!(d.stem, b"a1b2.c".to_vec());
    assert_eq!(d.numeral, b"3".to_vec());
    assert_eq!(d.ext, b"".to_vec());
}

#[test]
fn leading_zeros_parse_to_the_numeric_value() {
    assert_eq!(parse_numeral(&b"01".to_vec()), Some(1));
    assert_eq!(parse_numeral(&b"0007".to_vec()), Some(7));
    assert_eq!(parse_numeral(&b"18446744073709551615".to_vec()), Some(u64::MAX));
    assert_eq!(parse_numeral(&b"18446744073709551616".to_vec()), None);
    assert_eq!(parse_numeral(&b"99999999999999999999999".to_vec()), None);
}

#[test]
fn extension_split_of_raw_names() {
    assert_eq!(
        split_ext(b"readme.txt".to_vec()),
        (b"readme".to_vec(), b".txt".to_vec())
    );
    assert_eq!(split_ext(b".hidden".to_vec()), (b".hidden".to_vec(), b"".to_vec()));
    assert_eq!(split_ext(b"plain".to_vec()), (b"plain".to_vec(), b"".to_vec()));
    assert_eq!(
        split_ext(b"a.b.c".to_vec()),
        (b"a.b".to_vec(), b".c".to_vec())
    );
}
