use subtrie::Trie;

fn sample() -> Trie<u64> {
    let mut t: Trie<u64> = Trie::new();
    t.insert(b"ab", 1);
    t.insert(b"abc", 2);
    t.insert(b"b", 3);
    t
}

#[test]
fn absent_prefix_gives_empty_view() {
    let t = sample();
    let root = t.as_subtrie();
    let sub = root.subtrie(b"zz");
    assert!(sub.is_empty());
    assert_eq!(sub.iter().count(), 0);
    let mut it = root.iter_prefix(b"zz");
    assert!(it.next().is_none());
}

#[test]
fn narrowing_from_empty_stays_empty() {
    let t = sample();
    let root = t.as_subtrie();
    let sub = root.subtrie(b"zz");
    let deeper = sub.subtrie(b"a");
    assert!(deeper.is_empty());
    assert_eq!(deeper.iter().count(), 0);
}

#[test]
fn iter_counts_distinct_keys_and_agrees_with_get() {
    let t = sample();
    let root = t.as_subtrie();
    assert_eq!(root.iter().count(), 3);
    let mut it = root.iter();
    let mut seen: usize = 0;
    while let Some((k, v)) = it.next() {
        let got = root.get(k.as_slice()).expect("yielded key must be present");
        assert_eq!(*got, *v);
        seen += 1;
    }
    assert_eq!(seen, 3);
}

#[test]
fn narrowing_composes_with_concatenation() {
    let t = sample();
    let root = t.as_subtrie();
    let two_steps = root.subtrie(b"a").subtrie(b"b");
    let one_step = root.subtrie(b"ab");
    assert_eq!(two_steps.is_empty(), one_step.is_empty());
    assert_eq!(two_steps.iter().count(), one_step.iter().count());
    let mut it1 = two_steps.iter();
    let mut it2 = one_step.iter();
    loop {
        match (it1.next(), it2.next()) {
            (Some((k1, v1)), Some((k2, v2))) => {
                assert_eq!(k1, k2);
                assert_eq!(v1, v2);
            },
            (None, None) => break,
            _ => panic!("the two narrowings disagree"),
        }
    }
    assert_eq!(two_steps.get(b"ab"), Some(&1));
    assert_eq!(two_steps.get(b"abc"), Some(&2));
}

#[test]
fn empty_iff_count_zero() {
    let empty: Trie<u64> = Trie::new();
    let v0 = empty.as_subtrie();
    assert!(v0.is_empty());
    assert_eq!(v0.iter().count(), 0);

    let t = sample();
    let root = t.as_subtrie();
    assert!(!root.is_empty());
    assert!(root.iter().count() > 0);

    let absent = root.subtrie(b"q");
    assert!(absent.is_empty());
    assert_eq!(absent.iter().count(), 0);

    let bound = root.subtrie(b"ab");
    assert!(!bound.is_empty());
    assert!(bound.iter().count() > 0);
}

#[test]
fn index_agrees_with_get_on_present_keys() {
    let t = sample();
    let root = t.as_subtrie();
    let via_get = root.get(b"abc").unwrap();
    let via_index = root.index(b"abc");
    assert_eq!(*via_index, *via_get);
    assert!(std::ptr::eq(via_index, via_get));
}

#[test]
fn concrete_scenario_three_keys() {
    let t = sample();
    let root = t.as_subtrie();

    let sub = root.subtrie(b"ab");
    let mut it = sub.iter();
    let (k1, v1) = it.next().expect("first pair");
    assert_eq!(k1.as_slice(), b"ab");
    assert_eq!(*v1, 1);
    let (k2, v2) = it.next().expect("second pair");
    assert_eq!(k2.as_slice(), b"abc");
    assert_eq!(*v2, 2);
    assert!(it.next().is_none());

    assert_eq!(sub.get(b"abc"), Some(&2));
    assert!(root.subtrie(b"z").is_empty());
    assert_eq!(root.get_str("b"), Some(&3));
}

#[test]
fn text_entry_points_match_byte_entry_points() {
    let t = sample();
    let root = t.as_subtrie();
    assert_eq!(root.get_str("ab"), root.get(b"ab"));
    assert_eq!(root.get_str("nope"), None);
    let s1 = root.subtrie_str("ab");
    let s2 = root.subtrie(b"ab");
    assert_eq!(s1.is_empty(), s2.is_empty());
    assert_eq!(s1.iter().count(), s2.iter().count());
    assert_eq!(s1.get(b"abc"), Some(&2));
}

#[test]
fn debug_render_empty_and_one_entry() {
    let empty: Trie<u64> = Trie::new();
    let v0 = empty.as_subtrie();
    let text0 = v0.debug_render(
        |k| format!("\"{}\"", String::from_utf8_lossy(k.as_slice())),
        |v| format!("{}", v),
    );
    assert_eq!(text0, "{}");

    let mut t: Trie<u64> = Trie::new();
    t.insert(b"x", 9);
    let v1 = t.as_subtrie();
    let text1 = v1.debug_render(
        |k| format!("\"{}\"", String::from_utf8_lossy(k.as_slice())),
        |v| format!("{}", v),
    );
    assert_eq!(text1, "{\"x\": 9}");
}

#[test]
fn debug_render_lists_pairs_in_order() {
    let t = sample();
    let root = t.as_subtrie();
    let text = root.debug_render(
        |k| format!("\"{}\"", String::from_utf8_lossy(k.as_slice())),
        |v| format!("{}", v),
    );
    assert_eq!(text, "{\"ab\": 1, \"abc\": 2, \"b\": 3}");
}

#[test]
fn get_is_exact_match_only() {
    let t = sample();
    let root = t.as_subtrie();
    assert_eq!(root.get(b"a"), None);
    assert_eq!(root.get(b"abcd"), None);
    assert_eq!(root.get(b""), None);
    assert_eq!(root.get(b"ab"), Some(&1));
}

#[test]
fn insert_replaces_existing_value() {
    let mut t: Trie<u64> = Trie::new();
    t.insert(b"k", 1);
    t.insert(b"k", 7);
    let root = t.as_subtrie();
    assert_eq!(root.get(b"k"), Some(&7));
    assert_eq!(root.iter().count(), 1);
}

#[test]
fn empty_key_is_a_key() {
    let mut t: Trie<u64> = Trie::new();
    t.insert(b"", 5);
    t.insert(b"a", 6);
    let root = t.as_subtrie();
    assert_eq!(root.get(b""), Some(&5));
    let mut it = root.iter();
    let (k, v) = it.next().unwrap();
    assert_eq!(k.as_slice(), b"");
    assert_eq!(*v, 5);
    let (k2, v2) = it.next().unwrap();
    assert_eq!(k2.as_slice(), b"a");
    assert_eq!(*v2, 6);
    assert!(it.next().is_none());
}

#[test]
fn iteration_is_restartable_and_into_iter_matches() {
    let t = sample();
    let root = t.as_subtrie();
    let first: usize = root.iter().count();
    let second: usize = root.iter().count();
    assert_eq!(first, second);

    let sub = root.subtrie(b"ab");
    let mut it = sub.into_iter();
    let mut n: usize = 0;
    while let Some(_) = it.next() {
        n += 1;
    }
    assert_eq!(n, 2);
}

#[test]
fn prefix_scoped_iteration_yields_full_keys() {
    let t = sample();
    let root = t.as_subtrie();
    let mut it = root.iter_prefix(b"a");
    let (k1, v1) = it.next().unwrap();
    assert_eq!(k1.as_slice(), b"ab");
    assert_eq!(*v1, 1);
    let (k2, v2) = it.next().unwrap();
    assert_eq!(k2.as_slice(), b"abc");
    assert_eq!(*v2, 2);
    assert!(it.next().is_none());
}

#[test]
fn views_are_independent_and_share_the_trie() {
    let t = sample();
    let root = t.as_subtrie();
    let a = root.subtrie(b"a");
    let b = root.subtrie(b"b");
    assert_eq!(a.iter().count(), 2);
    assert_eq!(b.iter().count(), 1);
    assert_eq!(root.iter().count(), 3);
    assert_eq!(b.get(b"b"), Some(&3));
    assert_eq!(a.get(b"b"), None);
}
