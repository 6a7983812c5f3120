use kvs::index::Index;
use kvs::order::{compare_bytes, Order};

fn text(s: &str) -> String {
    s.to_string()
}

#[test]
fn compare_bytes_orders_by_the_first_difference() {
    assert_eq!(compare_bytes(b"abc", b"abd"), Order::Before);
    assert_eq!(compare_bytes(b"abd", b"abc"), Order::After);
    assert_eq!(compare_bytes(b"b", b"abc"), Order::After);
    assert_eq!(compare_bytes(b"\x7f", b"\x80"), Order::Before);
}

#[test]
fn compare_bytes_puts_a_prefix_first() {
    assert_eq!(compare_bytes(b"ab", b"abc"), Order::Before);
    assert_eq!(compare_bytes(b"abc", b"ab"), Order::After);
    assert_eq!(compare_bytes(b"", b"a"), Order::Before);
}

#[test]
fn compare_bytes_finds_equal_strings_the_same() {
    assert_eq!(compare_bytes(b"", b""), Order::Same);
    assert_eq!(compare_bytes(b"abc", b"abc"), Order::Same);
}

#[test]
fn a_new_index_is_empty() {
    let index = Index::new();
    assert_eq!(index.len(), 0);
    assert_eq!(index.get(&text("a")), None);
}

#[test]
fn insert_returns_the_offset_that_was_there() {
    let mut index = Index::new();
    assert_eq!(index.insert(text("a"), 10), None);
    assert_eq!(index.insert(text("b"), 20), None);
    assert_eq!(index.insert(text("a"), 30), Some(10));
    assert_eq!(index.get(&text("a")), Some(30));
    assert_eq!(index.get(&text("b")), Some(20));
    assert_eq!(index.get(&text("c")), None);
    assert_eq!(index.len(), 2);
}

#[test]
fn remove_returns_the_offset_and_forgets_the_key() {
    let mut index = Index::new();
    index.insert(text("a"), 1);
    index.insert(text("b"), 2);
    index.insert(text("c"), 3);
    assert_eq!(index.remove(&text("b")), Some(2));
    assert_eq!(index.remove(&text("b")), None);
    assert_eq!(index.remove(&text("zz")), None);
    assert_eq!(index.get(&text("b")), None);
    assert_eq!(index.get(&text("a")), Some(1));
    assert_eq!(index.get(&text("c")), Some(3));
    assert_eq!(index.len(), 2);
}

#[test]
fn keys_are_walked_in_ascending_order() {
    let mut index = Index::new();
    for (at, key) in ["pear", "apple", "fig", "", "apples", "Zebra", "\u{e9}t\u{e9}"].iter().enumerate() {
        index.insert(text(key), at as u64);
    }
    let mut walked = Vec::new();
    for i in 0..index.len() {
        walked.push((index.key_at(i).clone(), index.offset_at(i)));
    }
    assert_eq!(
        walked,
        vec![
            (text(""), 3),
            (text("Zebra"), 5),
            (text("apple"), 1),
            (text("apples"), 4),
            (text("fig"), 2),
            (text("pear"), 0),
            (text("\u{e9}t\u{e9}"), 6),
        ]
    );
}

#[test]
fn the_order_of_keys_is_that_of_strings() {
    let mut keys: Vec<String> =
        ["b", "a", "ab", "", "\u{10000}", "\u{ffff}", "~", "A"].iter().map(|s| text(s)).collect();
    let mut index = Index::new();
    for key in &keys {
        index.insert(key.clone(), 0);
    }
    keys.sort();
    for i in 0..index.len() {
        assert_eq!(index.key_at(i), &keys[i]);
    }
}

#[test]
fn many_keys_are_all_found() {
    let mut index = Index::new();
    for i in 0..200u64 {
        index.insert(format!("key{}", (i * 37) % 200), i);
    }
    assert_eq!(index.len(), 200);
    for i in 0..200u64 {
        assert_eq!(index.get(&format!("key{}", (i * 37) % 200)), Some(i));
    }
    assert_eq!(index.get(&text("key200")), None);
}
