use logos::db::{Entry, MemTable, SSTable};
use logos::driver::Driver;

fn entry(key: &str, value: u32) -> Entry {
    Entry { key: String::from(key), value }
}

#[test]
fn memtable_capacity() {
    let mut driver = Driver::with_capacity(10);

    for i in 0..10 {
        driver.write(i.to_string(), i).unwrap();
    }

    assert!(driver.table().at_capacity());

    driver.write(String::from("11"), 11).unwrap();

    assert_eq!(
        driver.table().items(),
        vec![Entry {
            key: String::from("11"),
            value: 11,
        }]
    )
}

#[test]
fn eleventh_write_flushes_once() {
    let mut driver = Driver::with_capacity(10);
    for i in 0..10u32 {
        let flushed = driver.write(i.to_string(), i).unwrap();
        assert!(flushed.is_none());
    }
    assert!(driver.table().at_capacity());
    assert_eq!(0, driver.offset());

    let job = driver.write(String::from("10"), 10).unwrap().expect("a flush");
    assert_eq!(0, job.offset);
    let expected: Vec<Entry> = (0..10u32).map(|i| entry(&i.to_string(), i)).collect();
    let got = job.segment.entries();
    assert_eq!(&expected, got);
    let values: Vec<u32> = got.iter().map(|e| e.value).collect();
    assert_eq!((0..10u32).collect::<Vec<u32>>(), values);
    assert_eq!(vec![entry("10", 10)], driver.table().items());
    assert_eq!(Some(&10), driver.table().read("10"));
    assert_eq!(1, driver.offset());
}

#[test]
fn offsets_count_up_from_zero() {
    let mut driver = Driver::with_capacity(2);
    let mut offsets = Vec::new();
    for i in 0..7u32 {
        if let Some(job) = driver.write(format!("k{}", i), i).unwrap() {
            offsets.push(job.offset);
        }
    }
    offsets.push(driver.flush_table().unwrap().offset);
    assert_eq!(vec![0, 1, 2, 3], offsets);
    assert_eq!(4, driver.offset());
}

#[test]
fn second_flush_is_empty() {
    let mut driver = Driver::new();
    driver.write(String::from("a"), 1).unwrap();
    let first = driver.flush_table().unwrap();
    assert_eq!(vec![entry("a", 1)], *first.segment.entries());
    let second = driver.flush_table().unwrap();
    assert!(second.segment.entries().is_empty());
    assert_eq!(vec![0u8; 8], second.bytes);
    assert_eq!((0, 1), (first.offset, second.offset));
}

#[test]
fn flushed_bytes_follow_the_layout() {
    let mut driver = Driver::new();
    driver.write(String::from("b"), 0x0102_0304).unwrap();
    driver.write(String::from("a"), 7).unwrap();
    let job = driver.flush_table().unwrap();
    let expected: Vec<u8> = vec![
        2, 0, 0, 0, 0, 0, 0, 0, // two records
        1, 0, 0, 0, 0, 0, 0, 0, b'a', 7, 0, 0, 0, // "a" => 7
        1, 0, 0, 0, 0, 0, 0, 0, b'b', 4, 3, 2, 1, // "b" => 0x01020304
    ];
    assert_eq!(expected, job.bytes);
    assert_eq!(Ok(expected), job.segment.into_bytes());
}

#[test]
fn segment_round_trip() {
    let mut m = MemTable::new();
    for (k, v) in [("zeta", 26), ("alpha", 1), ("\u{3b2}eta", 2), ("gamma", u32::MAX)] {
        m.write(String::from(k), v);
    }
    let segment = SSTable::from(&m);
    let bytes = segment.into_bytes().unwrap();
    let decoded = SSTable::from_bytes(&bytes).expect("a segment");
    let pairs: Vec<(String, u32)> =
        decoded.entries().iter().map(|e| (e.key.clone(), e.value)).collect();
    let written: Vec<(String, u32)> =
        m.items().into_iter().map(|e| (e.key, e.value)).collect();
    assert_eq!(written, pairs);
}

#[test]
fn malformed_segments_are_refused() {
    let good: Vec<u8> = vec![1, 0, 0, 0, 0, 0, 0, 0, 1, 0, 0, 0, 0, 0, 0, 0, b'x', 5, 0, 0, 0];
    assert!(SSTable::from_bytes(&good).is_some());
    let mut trailing = good.clone();
    trailing.push(0);
    assert!(SSTable::from_bytes(&trailing).is_none());
    assert!(SSTable::from_bytes(&good[..good.len() - 1]).is_none());
    assert!(SSTable::from_bytes(&good[..4]).is_none());
    let mut bad_utf8 = good.clone();
    bad_utf8[16] = 0xff;
    assert!(SSTable::from_bytes(&bad_utf8).is_none());
    let unsorted: Vec<u8> = vec![
        2, 0, 0, 0, 0, 0, 0, 0, 1, 0, 0, 0, 0, 0, 0, 0, b'b', 1, 0, 0, 0, 1, 0, 0, 0, 0, 0, 0,
        0, b'a', 2, 0, 0, 0,
    ];
    assert!(SSTable::from_bytes(&unsorted).is_none());
    let empty = SSTable::from_bytes(&[0u8; 8]).expect("an empty segment");
    assert!(empty.entries().is_empty());
}
