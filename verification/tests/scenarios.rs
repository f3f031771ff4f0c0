use std::collections::hash_map::DefaultHasher;
use std::hash::Hash;
use std::hash::Hasher;

use string_sequence::MutableStringSequence;
use string_sequence::SharedStringSequence;
use string_sequence::StringSequence;

fn strs(xs: &[&str]) -> Vec<String> {
    xs.iter().map(|s| s.to_string()).collect()
}

#[test]
fn push_insert_drain_scenario() {
    let mut seq = MutableStringSequence::new();
    seq.push_back("hello");
    assert_eq!(seq.text(), "hello");
    assert_eq!(seq.len(), 1);

    seq.push_back("world");
    assert_eq!(seq.text(), "helloworld");
    assert_eq!(seq.to_vec(), strs(&["hello", "world"]));

    seq.insert(0, "!");
    assert_eq!(seq.text(), "!helloworld");
    assert_eq!(seq.to_vec(), strs(&["!", "hello", "world"]));

    let mut drain = seq.drain(1..3);
    assert_eq!(drain.next(), Some("hello".to_string()));
    assert_eq!(drain.next(), Some("world".to_string()));
    assert_eq!(drain.next(), None);
    assert_eq!(seq.text(), "!");
    assert_eq!(seq.to_vec(), strs(&["!"]));
}

#[test]
fn shared_window_scenario() {
    let shared = SharedStringSequence::from_slice(&["a", "bb", "ccc"]);
    let window = shared.subsequence(1..3);
    assert_eq!(window.len(), 2);
    assert_eq!(window.text(), "bbccc");
    assert_eq!(window.get(0), Some("bb".to_string()));
    assert_eq!(window.get(2), None);

    let narrower = window.subsequence(1..2);
    assert_eq!(narrower.to_vec(), strs(&["ccc"]));

    let restored = narrower.into_full_sequence();
    assert_eq!(restored.to_vec(), strs(&["a", "bb", "ccc"]));
}

#[test]
fn drain_abandonment() {
    let mut seq = MutableStringSequence::from_slice(&["a", "b", "c", "d"]);
    {
        let _drain = seq.drain(1..3);
    }
    assert_eq!(seq.to_vec(), strs(&["a", "d"]));
    assert_eq!(seq.text(), "ad");

    // partial consumption cleans up just the same
    let mut seq = MutableStringSequence::from_slice(&["a", "b", "c", "d"]);
    {
        let mut drain = seq.drain(1..3);
        assert_eq!(drain.next(), Some("b".to_string()));
    }
    assert_eq!(seq.to_vec(), strs(&["a", "d"]));
}

#[test]
fn round_trip_all_representations() {
    let l = ["", "path", "컴포넌트", "🤣", "x"];
    let expected = strs(&l);

    let m = MutableStringSequence::from_slice(&l);
    assert_eq!(m.to_vec(), expected);

    let o = StringSequence::from_slice(&l);
    assert_eq!(o.to_vec(), expected);

    let s = SharedStringSequence::from_slice(&l);
    assert_eq!(s.to_vec(), expected);

    // pairwise conversions
    assert_eq!(m.clone().into_string_sequence().to_vec(), expected);
    assert_eq!(m.clone().into_shared_sequence().to_vec(), expected);
    assert_eq!(o.clone().into_shared().to_vec(), expected);
    assert_eq!(MutableStringSequence::from_sequence(&o).to_vec(), expected);
    assert_eq!(MutableStringSequence::from_sequence(&s).to_vec(), expected);
    assert_eq!(s.to_string_sequence().to_vec(), expected);
}

#[test]
fn equality_and_ordering() {
    let a = MutableStringSequence::from_slice(&["ab", "c"]);
    let b = StringSequence::from_slice(&["ab", "c"]);
    let c = SharedStringSequence::from_slice(&["a", "bc"]);

    assert!(a.eq_seq(&b));
    // same concatenated text, different element boundaries: not equal
    assert!(!a.eq_seq(&c));
    assert_eq!(a.text(), c.text());

    // lexicographic over elements, shorter prefix first
    let p = MutableStringSequence::from_slice(&["a"]);
    let q = MutableStringSequence::from_slice(&["a", "b"]);
    assert_eq!(p.cmp_seq(&q), std::cmp::Ordering::Less);
    assert_eq!(q.cmp_seq(&p), std::cmp::Ordering::Greater);
    assert_eq!(q.cmp_seq(&q), std::cmp::Ordering::Equal);

    let r = MutableStringSequence::from_slice(&["ab"]);
    let t = MutableStringSequence::from_slice(&["ac"]);
    assert_eq!(r.cmp_seq(&t), std::cmp::Ordering::Less);
    assert_eq!(t.cmp_seq(&r), std::cmp::Ordering::Greater);
}

#[test]
fn equal_sequences_hash_equally() {
    let mut a = MutableStringSequence::new();
    a.push_back("alpha");
    a.push_back("beta");
    let b = MutableStringSequence::from_slice(&["alpha", "beta"]);
    assert!(a.eq_seq(&b));

    let mut ha = DefaultHasher::new();
    a.hash(&mut ha);
    let mut hb = DefaultHasher::new();
    b.hash(&mut hb);
    assert_eq!(ha.finish(), hb.finish());

    let oa = a.clone().into_string_sequence();
    let ob = b.clone().into_string_sequence();
    let mut hoa = DefaultHasher::new();
    oa.hash(&mut hoa);
    let mut hob = DefaultHasher::new();
    ob.hash(&mut hob);
    assert_eq!(hoa.finish(), hob.finish());
}

#[test]
fn full_text_is_concatenation() {
    assert_eq!(MutableStringSequence::new().text(), "");
    assert_eq!(MutableStringSequence::from_slice(&["", "", ""]).text(), "");
    assert_eq!(
        StringSequence::from_slice(&["ab", "", "cd", "e"]).text(),
        "abcde"
    );
    assert_eq!(
        SharedStringSequence::from_slice(&["가", "나다"]).text(),
        "가나다"
    );
}

#[test]
fn slice_idempotence() {
    let o = StringSequence::from_slice(&["u", "v", "w"]);
    assert_eq!(o.slice(0..3).into_vec(), strs(&["u", "v", "w"]));
    assert_eq!(o.slice(..).into_vec(), strs(&["u", "v", "w"]));
    assert_eq!(o.slice(1..1).into_vec(), strs(&[]));
    assert_eq!(o.slice(3..3).into_vec(), strs(&[]));

    let s = SharedStringSequence::from_slice(&["u", "v", "w"]);
    assert_eq!(s.subsequence(..).to_vec(), strs(&["u", "v", "w"]));
    assert_eq!(s.subsequence(2..2).to_vec(), strs(&[]));
}

#[test]
fn contains_prefix_suffix_edges() {
    let empty: &[&str] = &[];
    let m = MutableStringSequence::from_slice(&["x", "yy", "z"]);
    assert!(m.contains(empty));
    assert!(MutableStringSequence::new().contains(empty));
    assert!(m.starts_with(&["x", "yy", "z"]));
    assert!(m.ends_with(&["x", "yy", "z"]));
    assert!(m.contains(&["x", "yy", "z"]));
    assert!(m.contains(&["yy", "z"]));
    assert!(!m.contains(&["x", "z"]));
    assert!(!m.starts_with(&["x", "yy", "z", "w"]));
    assert!(!m.ends_with(&["x", "x", "yy", "z"]));
}

#[test]
fn iterator_both_ends() {
    let o = StringSequence::from_slice(&["1", "22", "333"]);
    let mut it = o.iter();
    assert_eq!(it.len(), 3);
    assert_eq!(it.next(), Some("1".to_string()));
    assert_eq!(it.next_back(), Some("333".to_string()));
    assert_eq!(it.len(), 1);
    assert_eq!(it.next(), Some("22".to_string()));
    assert_eq!(it.next(), None);
    assert_eq!(it.next_back(), None);
    assert!(it.is_empty());

    // a fresh call restarts iteration
    assert_eq!(o.iter().into_vec(), strs(&["1", "22", "333"]));

    // skipping and counting
    let mut it = o.iter();
    assert_eq!(it.nth(1), Some("22".to_string()));
    assert_eq!(it.count(), 1);
    let mut it = o.iter();
    assert_eq!(it.nth(3), None);
    assert_eq!(it.len(), 0);
}

#[test]
fn single_string_conversion() {
    let m = MutableStringSequence::from_string("whole");
    assert_eq!(m.len(), 1);
    assert_eq!(m.to_vec(), strs(&["whole"]));
    assert_eq!(m.text(), "whole");

    let empty = MutableStringSequence::from_string("");
    assert_eq!(empty.len(), 1);
    assert_eq!(empty.text(), "");
}

#[test]
fn mutation_preserves_text_law() {
    let mut m = MutableStringSequence::from_slice(&["ab", "cde", "f"]);
    m.remove(1);
    assert_eq!(m.text(), "abf");
    assert_eq!(m.to_vec(), strs(&["ab", "f"]));

    m.insert(1, "잎");
    assert_eq!(m.text(), "ab잎f");
    assert_eq!(m.to_vec(), strs(&["ab", "잎", "f"]));

    m.pop_back();
    assert_eq!(m.text(), "ab잎");

    m.clear();
    assert_eq!(m.text(), "");
    assert_eq!(m.len(), 0);
    assert!(m.is_empty());
    assert_eq!(m.first(), None);
    assert_eq!(m.last(), None);
}

#[test]
fn capacity_and_reserve() {
    let mut m = MutableStringSequence::with_capacity(4, 16);
    assert!(m.token_capacity() >= 4);
    assert!(m.text_capacity() >= 16);
    m.push_back("abc");
    m.reserve_buffer(100);
    m.reserve_index(10);
    assert!(m.text_capacity() >= 103);
    assert!(m.token_capacity() >= 11);
    assert_eq!(m.to_vec(), strs(&["abc"]));
}
