use todb::iterators::concat_iter::ConcatIter;
use todb::iterators::merge_iter::MergeIter;
use todb::iterators::storage_iter::{AsArray, ForwardIter, IterRead, ReverseIter};
use todb::iterators::vec_iter::VecIter;

fn vec_iter(items: &[(&[u8], &[u8])]) -> VecIter {
    VecIter::new(items.iter().map(|(k, v)| (k.to_vec(), v.to_vec())).collect())
}

fn collect_fwd<I: ForwardIter>(iter: &mut I) -> Vec<(Vec<u8>, Vec<u8>)>
where
    I::Value: AsArray,
{
    let mut out = vec![];
    while iter.valid() {
        out.push((iter.key().unwrap().to_vec(), iter.value().unwrap().as_array().to_vec()));
        ForwardIter::next(iter).unwrap();
    }
    out
}

fn collect_rev<I: ReverseIter>(iter: &mut I) -> Vec<(Vec<u8>, Vec<u8>)>
where
    I::Value: AsArray,
{
    let mut out = vec![];
    while iter.valid() {
        out.push((iter.key().unwrap().to_vec(), iter.value().unwrap().as_array().to_vec()));
        ReverseIter::next(iter).unwrap();
    }
    out
}

fn kv(k: &str, v: &str) -> (Vec<u8>, Vec<u8>) {
    (k.as_bytes().to_vec(), v.as_bytes().to_vec())
}

#[test]
fn concat_yields_parts_in_order_skipping_empty_ones() {
    let mut it = ConcatIter::new(vec![
        vec_iter(&[]),
        vec_iter(&[(b"a", b"1"), (b"b", b"2")]),
        vec_iter(&[]),
        vec_iter(&[(b"c", b"3")]),
    ]);
    ForwardIter::seek_to_first(&mut it).unwrap();
    assert_eq!(collect_fwd(&mut it), vec![kv("a", "1"), kv("b", "2"), kv("c", "3")]);
}

#[test]
fn concat_seek_starts_in_the_part_holding_the_target() {
    let mut it = ConcatIter::new(vec![
        vec_iter(&[(b"a", b"1"), (b"b", b"2")]),
        vec_iter(&[(b"d", b"4"), (b"e", b"5")]),
    ]);
    ForwardIter::seek(&mut it, b"c").unwrap();
    assert_eq!(collect_fwd(&mut it), vec![kv("d", "4"), kv("e", "5")]);
    ForwardIter::seek(&mut it, b"f").unwrap();
    assert!(!it.valid());
}

#[test]
fn concat_reverse_scan_and_seek() {
    let mut it = ConcatIter::new(vec![
        vec_iter(&[(b"a", b"1"), (b"b", b"2")]),
        vec_iter(&[]),
        vec_iter(&[(b"d", b"4")]),
    ]);
    ReverseIter::seek_to_first(&mut it).unwrap();
    assert_eq!(collect_rev(&mut it), vec![kv("d", "4"), kv("b", "2"), kv("a", "1")]);
    ReverseIter::seek(&mut it, b"c").unwrap();
    assert_eq!(collect_rev(&mut it), vec![kv("b", "2"), kv("a", "1")]);
    ReverseIter::seek(&mut it, b"0").unwrap();
    assert!(!it.valid());
}

#[test]
fn concat_of_nothing_is_invalid() {
    let mut it: ConcatIter<VecIter> = ConcatIter::new(vec![]);
    ForwardIter::seek_to_first(&mut it).unwrap();
    assert!(!it.valid());
    ReverseIter::seek_to_first(&mut it).unwrap();
    assert!(!it.valid());
}

#[test]
fn merge_yields_all_items_by_key_then_level() {
    let mut it = MergeIter::new(vec![
        vec_iter(&[(b"b", b"new"), (b"d", b"d0")]),
        vec_iter(&[(b"a", b"a1"), (b"b", b"old"), (b"c", b"c1")]),
    ]);
    ForwardIter::seek_to_first(&mut it).unwrap();
    assert_eq!(
        collect_fwd(&mut it),
        vec![kv("a", "a1"), kv("b", "new"), kv("b", "old"), kv("c", "c1"), kv("d", "d0")]
    );
}

#[test]
fn merge_reverse_puts_largest_first_and_lower_level_first_on_ties() {
    let mut it = MergeIter::new(vec![
        vec_iter(&[(b"b", b"new")]),
        vec_iter(&[(b"a", b"a1"), (b"b", b"old"), (b"c", b"c1")]),
    ]);
    ReverseIter::seek_to_first(&mut it).unwrap();
    assert_eq!(
        collect_rev(&mut it),
        vec![kv("c", "c1"), kv("b", "new"), kv("b", "old"), kv("a", "a1")]
    );
}

#[test]
fn merge_seek_positions_every_input() {
    let mut it = MergeIter::new(vec![
        vec_iter(&[(b"a", b"1"), (b"e", b"5")]),
        vec_iter(&[(b"c", b"3"), (b"d", b"4")]),
    ]);
    ForwardIter::seek(&mut it, b"b").unwrap();
    assert_eq!(collect_fwd(&mut it), vec![kv("c", "3"), kv("d", "4"), kv("e", "5")]);
    ReverseIter::seek(&mut it, b"d").unwrap();
    assert_eq!(collect_rev(&mut it), vec![kv("d", "4"), kv("c", "3"), kv("a", "1")]);
}

#[test]
fn merge_is_invalid_before_positioning_and_when_empty() {
    let it = MergeIter::new(vec![vec_iter(&[(b"a", b"1")])]);
    assert!(!it.valid());
    let mut empty: MergeIter<VecIter> = MergeIter::new(vec![]);
    ForwardIter::seek_to_first(&mut empty).unwrap();
    assert!(!empty.valid());
}

#[test]
fn stepping_a_fresh_concat_or_merge_is_a_no_op() {
    let mut c = ConcatIter::new(vec![vec_iter(&[(b"a", b"1")]), vec_iter(&[(b"b", b"2")])]);
    assert!(ForwardIter::next(&mut c).is_ok());
    assert!(!c.valid());
    ForwardIter::seek_to_first(&mut c).unwrap();
    assert_eq!(collect_fwd(&mut c), vec![kv("a", "1"), kv("b", "2")]);
    let mut m = MergeIter::new(vec![vec_iter(&[(b"a", b"1")])]);
    assert!(ForwardIter::next(&mut m).is_ok());
    assert!(!m.valid());
}

#[test]
fn concat_step_past_the_last_part_stays_past_it() {
    let mut c = ConcatIter::new(vec![vec_iter(&[(b"a", b"1")])]);
    ForwardIter::seek_to_first(&mut c).unwrap();
    ForwardIter::next(&mut c).unwrap();
    assert!(!c.valid());
    assert!(ForwardIter::next(&mut c).is_ok());
    assert!(!c.valid());
    ReverseIter::seek_to_first(&mut c).unwrap();
    ReverseIter::next(&mut c).unwrap();
    assert!(!c.valid());
    assert!(ReverseIter::next(&mut c).is_ok());
    assert!(!c.valid());
}

#[test]
fn merge_puts_the_newer_inputs_item_first_on_equal_keys() {
    let mut m = MergeIter::new(vec![
        vec_iter(&[(b"k", b"new"), (b"m", b"x")]),
        vec_iter(&[(b"k", b"old")]),
    ]);
    ForwardIter::seek_to_first(&mut m).unwrap();
    assert_eq!(collect_fwd(&mut m), vec![kv("k", "new"), kv("k", "old"), kv("m", "x")]);
}
