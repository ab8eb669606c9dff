use logos::db::{Entry, MemTable};

#[test]
fn mod_simple_read_write() {
    let mut m = MemTable::new();
    m.write(String::from("apple"), 1);
    m.write(String::from("banana"), 2);
    m.write(String::from("cactus"), 3);

    assert_eq!(Some(&1), m.read("apple"));
    assert_eq!(Some(&2), m.read("banana"));
    assert_eq!(Some(&3), m.read("cactus"));
    assert_eq!(None, m.read("dummy"));

    m.write(String::from("apple"), 5);
    assert_eq!(Some(&5), m.read("apple"));
    assert_eq!(Some(&2), m.read("banana"));
    assert_eq!(Some(&3), m.read("cactus"));
    assert_eq!(None, m.read("dummy"));
}

#[test]
fn mod_items() {
    let mut m = MemTable::new();
    m.write(String::from("apple"), 1);
    m.write(String::from("banana"), 2);
    m.write(String::from("cactus"), 3);
    m.write(String::from("apple"), 5);

    let items = m.items();
    assert_eq!(
        items,
        vec![
            Entry {
                key: String::from("apple"),
                value: 5
            },
            Entry {
                key: String::from("banana"),
                value: 2
            },
            Entry {
                key: String::from("cactus"),
                value: 3
            },
        ]
    )
}
