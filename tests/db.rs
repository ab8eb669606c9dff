use logos::db::{Entry, MemTable};

fn write(m: &mut MemTable, key: &str, value: u32) {
    m.write(String::from(key), value);
}

#[test]
fn db_simple_read_write() {
    let mut m = MemTable::new();
    write(&mut m, "apple", 1);
    write(&mut m, "banana", 2);
    write(&mut m, "cactus", 3);

    assert_eq!(Some(&1), m.read("apple"));
    assert_eq!(Some(&2), m.read("banana"));
    assert_eq!(Some(&3), m.read("cactus"));
    assert_eq!(None, m.read("dummy"));

    write(&mut m, "apple", 5);
    assert_eq!(Some(&5), m.read("apple"));
    assert_eq!(Some(&2), m.read("banana"));
    assert_eq!(Some(&3), m.read("cactus"));
    assert_eq!(None, m.read("dummy"));
}

#[test]
fn db_items() {
    let mut m = MemTable::new();
    write(&mut m, "apple", 1);
    write(&mut m, "banana", 2);
    write(&mut m, "cactus", 3);
    write(&mut m, "apple", 5);

    let items = m.items();
    assert_eq!(
        items,
        vec![
            Entry {
                key: String::from("apple"),
                value: 5
            },
            Entry {
                key: String::from("banana"),
                value: 2
            },
            Entry {
                key: String::from("cactus"),
                value: 3
            },
        ]
    )
}

#[test]
fn distinct_writes_read_back() {
    let mut m = MemTable::with_capacity(10);
    let keys = ["k3", "k1", "k9", "k0", "k5"];
    for (i, k) in keys.iter().enumerate() {
        m.write(String::from(*k), i as u32 * 7);
    }
    for (i, k) in keys.iter().enumerate() {
        assert_eq!(Some(&(i as u32 * 7)), m.read(k));
    }
    assert_eq!(None, m.read("k2"));
    assert_eq!(None, m.read(""));
    assert_eq!(5, m.len());
}

#[test]
fn overwrite_keeps_count() {
    let mut m = MemTable::with_capacity(2);
    m.write(String::from("a"), 1);
    m.write(String::from("b"), 2);
    assert!(m.at_capacity());
    m.write(String::from("a"), 9);
    assert_eq!(2, m.len());
    assert_eq!(Some(&9), m.read("a"));
    assert!(m.at_capacity());
}

#[test]
fn items_ascend_whatever_the_order_of_writes() {
    let mut m = MemTable::new();
    for k in ["pear", "Apple", "apple", "", "zebra", "ape", "\u{e9}clair", "b"] {
        m.write(String::from(k), k.len() as u32);
    }
    let keys: Vec<String> = m.items().into_iter().map(|e| e.key).collect();
    let mut sorted = keys.clone();
    sorted.sort();
    sorted.dedup();
    assert_eq!(sorted, keys);
    assert_eq!(keys[0], "");
    assert_eq!(keys[keys.len() - 1], "\u{e9}clair");
    let values: Vec<u32> = m.items().into_iter().map(|e| e.value).collect();
    assert_eq!(values, vec![0, 5, 3, 5, 1, 4, 5, 7]);
}

#[test]
fn empty_table() {
    let m = MemTable::new();
    assert_eq!(0, m.len());
    assert!(!m.at_capacity());
    assert_eq!(10_000, m.capacity());
    assert!(m.items().is_empty());
    assert_eq!(None, m.read("x"));
}

#[test]
fn entries_compare_by_key() {
    let a = Entry { key: String::from("k"), value: 1 };
    let b = Entry { key: String::from("k"), value: 2 };
    let c = Entry { key: String::from("l"), value: 1 };
    assert_eq!(a, b);
    assert_ne!(a, c);
}
