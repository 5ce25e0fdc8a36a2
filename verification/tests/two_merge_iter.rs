use todb::iterators::storage_iter::{AsArray, ForwardIter, IterRead};
use todb::iterators::two_merge_iter::TwoMergeIter;
use todb::iterators::vec_iter::VecIter;

fn vec_iter(items: &[(&[u8], &[u8])]) -> VecIter {
    VecIter::new(items.iter().map(|(k, v)| (k.to_vec(), v.to_vec())).collect())
}

fn collect(iter: &mut TwoMergeIter<VecIter, VecIter>) -> Vec<(Vec<u8>, Vec<u8>)> {
    let mut out = vec![];
    while iter.valid() {
        out.push((
            iter.key().unwrap().to_vec(),
            iter.value().unwrap().as_array().to_vec(),
        ));
        iter.next().unwrap();
    }
    out
}

#[test]
fn test_no_overlap_merge() {
    let a = vec_iter(&[(b"a", b"va"), (b"c", b"vc")]);
    let b = vec_iter(&[(b"b", b"vb"), (b"d", b"vd")]);
    let mut iter = TwoMergeIter::new(a, b).unwrap();
    let result = collect(&mut iter);
    assert_eq!(
        result,
        vec![
            (b"a".to_vec(), b"va".to_vec()),
            (b"b".to_vec(), b"vb".to_vec()),
            (b"c".to_vec(), b"vc".to_vec()),
            (b"d".to_vec(), b"vd".to_vec()),
        ]
    );
}

#[test]
fn test_a_wins_on_equal_key() {
    let a = vec_iter(&[(b"k", b"from_a")]);
    let b = vec_iter(&[(b"k", b"from_b")]);
    let mut iter = TwoMergeIter::new(a, b).unwrap();
    let result = collect(&mut iter);
    assert_eq!(result, vec![(b"k".to_vec(), b"from_a".to_vec())]);
}

#[test]
fn test_a_empty() {
    let a = vec_iter(&[]);
    let b = vec_iter(&[(b"x", b"vx"), (b"y", b"vy")]);
    let mut iter = TwoMergeIter::new(a, b).unwrap();
    let result = collect(&mut iter);
    assert_eq!(
        result,
        vec![
            (b"x".to_vec(), b"vx".to_vec()),
            (b"y".to_vec(), b"vy".to_vec()),
        ]
    );
}

#[test]
fn test_b_empty() {
    let a = vec_iter(&[(b"x", b"vx")]);
    let b = vec_iter(&[]);
    let mut iter = TwoMergeIter::new(a, b).unwrap();
    let result = collect(&mut iter);
    assert_eq!(result, vec![(b"x".to_vec(), b"vx".to_vec())]);
}

#[test]
fn test_seek() {
    let a = vec_iter(&[(b"a", b"va"), (b"c", b"vc")]);
    let b = vec_iter(&[(b"b", b"vb"), (b"d", b"vd")]);
    let mut iter = TwoMergeIter::new(a, b).unwrap();
    iter.seek(b"c").unwrap();
    let result = collect(&mut iter);
    assert_eq!(
        result,
        vec![
            (b"c".to_vec(), b"vc".to_vec()),
            (b"d".to_vec(), b"vd".to_vec()),
        ]
    );
}

#[test]
fn test_a_skips_all_equal_b_keys() {
    let a = vec_iter(&[(b"k", b"from_a"), (b"z", b"vz")]);
    let b = vec_iter(&[(b"k", b"from_b1"), (b"k", b"from_b2"), (b"y", b"vy")]);
    let mut iter = TwoMergeIter::new(a, b).unwrap();
    let result = collect(&mut iter);
    assert_eq!(
        result,
        vec![
            (b"k".to_vec(), b"from_a".to_vec()),
            (b"y".to_vec(), b"vy".to_vec()),
            (b"z".to_vec(), b"vz".to_vec()),
        ]
    );
}

#[test]
fn two_merge_both_empty_is_invalid() {
    let mut iter = TwoMergeIter::new(vec_iter(&[]), vec_iter(&[])).unwrap();
    assert!(!iter.valid());
    assert!(iter.key().is_none());
    assert!(iter.value().is_none());
    iter.next().unwrap();
    assert!(!iter.valid());
}

#[test]
fn merge_drops_every_version_of_a_key_that_a_has() {
    let a = vec_iter(&[(b"a", b"a1"), (b"c", b"c1")]);
    let b = vec_iter(&[(b"a", b"a2"), (b"a", b"a3"), (b"b", b"b2"), (b"b", b"b3")]);
    let mut iter = TwoMergeIter::new(a, b).unwrap();
    let result = collect(&mut iter);
    assert_eq!(
        result,
        vec![
            (b"a".to_vec(), b"a1".to_vec()),
            (b"b".to_vec(), b"b2".to_vec()),
            (b"b".to_vec(), b"b3".to_vec()),
            (b"c".to_vec(), b"c1".to_vec()),
        ]
    );
}
