use std::collections::HashMap;

use match_lowering::utils::UtilError;
use match_lowering::utils::first_last_index_of;
use match_lowering::utils::index_of;
use match_lowering::utils::map_get;
use match_lowering::utils::slice_get;
use match_lowering::utils::slice_get_mut;

#[test]
fn map_get_finds_present_keys() {
    let mut m: HashMap<u64, &str> = HashMap::new();
    m.insert(5, "five");
    assert_eq!(map_get(&m, &5), Ok(&"five"));
}

#[test]
fn map_get_reports_missing_keys() {
    let m: HashMap<u64, u64> = HashMap::new();
    match map_get(&m, &5) {
        Err(UtilError::KeyNotFound { key_str }) => {
            // the key is carried rendered, straight from the formatter
            assert_eq!(key_str, format!("{:?}", 5u64));
        }
        other => panic!("expected a missing-key error, got {:?}", other),
    }
}

#[test]
fn index_of_finds_the_first_occurrence() {
    assert_eq!(index_of(7u32, &[5, 7, 7, 9]), Ok(1));
}

#[test]
fn index_of_reports_absent_elements() {
    match index_of(8u32, &[5, 7]) {
        Err(UtilError::IndexOfFailed { elt_str, collection_str }) => {
            assert_eq!(elt_str, "8");
            assert_eq!(collection_str, "[5, 7]");
        }
        other => panic!("expected a failed search, got {:?}", other),
    }
}

#[test]
fn slice_get_respects_bounds() {
    let xs = [10u8, 20, 30];
    assert_eq!(slice_get(2, &xs), Ok(&30));
    match slice_get(3, &xs) {
        Err(UtilError::OutOfBounds { index, len, .. }) => {
            assert_eq!(index, 3);
            assert_eq!(len, 3);
        }
        other => panic!("expected an out-of-bounds error, got {:?}", other),
    }
}

#[test]
fn slice_get_mut_writes_through() {
    let mut xs = vec![10u8, 20, 30];
    match slice_get_mut(1, &mut xs) {
        Ok(v) => *v = 21,
        other => panic!("expected an element, got {:?}", other),
    }
    assert_eq!(xs, vec![10, 21, 30]);
    assert!(matches!(
        slice_get_mut(9, &mut xs),
        Err(UtilError::OutOfBounds { index: 9, len: 3, .. })
    ));
}

#[test]
fn first_last_bracket_the_leading_run() {
    // the run of sevens starting at the first hit, even when more follow later
    assert_eq!(first_last_index_of(7u32, &[5, 7, 7, 9, 7]), Ok((1, 2)));
    assert_eq!(first_last_index_of(5u32, &[5, 5, 5]), Ok((0, 2)));
    assert_eq!(first_last_index_of(9u32, &[5, 7, 7, 9]), Ok((3, 3)));
    assert!(matches!(
        first_last_index_of(1u32, &[5, 7]),
        Err(UtilError::IndexOfFailed { .. })
    ));
}
