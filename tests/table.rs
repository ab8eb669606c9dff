use logos::db::table::{KeyValue, MemTable};

#[test]
fn table_simple_read_write() {
    let mut m = MemTable::new();
    m.write(String::from("apple"), 1);
    m.write(String::from("banana"), 2);
    m.write(String::from("cactus"), 3);

    assert_eq!(Some(1), m.read("apple"));
    assert_eq!(Some(2), m.read("banana"));
    assert_eq!(Some(3), m.read("cactus"));
    assert_eq!(None, m.read("dummy"));

    m.write(String::from("apple"), 5);
    assert_eq!(Some(5), m.read("apple"));
    assert_eq!(Some(2), m.read("banana"));
    assert_eq!(Some(3), m.read("cactus"));
    assert_eq!(None, m.read("dummy"));
}

#[test]
fn table_items() {
    let mut m = MemTable::new();
    m.write(String::from("apple"), 1);
    m.write(String::from("banana"), 2);
    m.write(String::from("cactus"), 3);
    m.write(String::from("apple"), 5);

    let items = m.items();
    assert_eq!(
        items,
        vec![
            KeyValue {
                key: String::from("apple"),
                value: 5
            },
            KeyValue {
                key: String::from("cactus"),
                value: 3
            },
            KeyValue {
                key: String::from("banana"),
                value: 2
            },
        ]
    )
}

#[test]
fn table_items_keep_newest_values() {
    let mut m = MemTable::new();
    m.write(String::from("a"), 1);
    m.write(String::from("b"), 2);
    m.write(String::from("a"), 3);
    m.write(String::from("b"), 4);
    let values: Vec<u32> = m.items().into_iter().map(|kv| kv.value).collect();
    assert_eq!(values, vec![4, 3]);
    assert!(MemTable::new().items().is_empty());
}
