use std::collections::{BTreeMap, HashSet};

use coded::db::{make_key, Key};
use coded::project::{get_timestamps, FileInfo};
use coded::timestamp::UtcDate;

struct Thing {
    id: i32,
}

fn stored(key: &Key) -> (Box<[u8]>, Box<[u8]>) {
    (key.0.clone().into_boxed_slice(), Vec::new().into_boxed_slice())
}

#[test]
fn test_make_key() {
    // &str -> Key
    let key = make_key(&[Key::from("hello"), Key::from(String::from("world"))]);
    let expected: Vec<u8> = Vec::from("helloworld".as_bytes());
    assert_eq!(key, Key(expected));

    // Date -> Key
    let date = UtcDate::ymd(2016, 11, 8);
    let key2 = make_key(&[Key::from(date), Key::from("hello")]);
    let expected2 = make_key(&[Key::from(date.and_hms(0, 0, 0)), Key::from("hello")]);
    assert_eq!(key2, expected2);
}

#[test]
fn test_sortable_key() {
    // A map ordered by the key bytes, as the store's default comparator orders keys.
    let mut db: BTreeMap<Vec<u8>, Thing> = BTreeMap::new();

    let oct_rev = make_key(&[Key::from(UtcDate::ymd(1917, 10, 25))]);
    let bday = make_key(&[Key::from(UtcDate::ymd(1984, 09, 21))]);
    let nine_eleven = make_key(&[Key::from(UtcDate::ymd(2001, 09, 11))]);

    let _val1 = Thing { id: 1 };
    let _val2 = Thing { id: 2 };
    let _val3 = Thing { id: 3 };

    let first = oct_rev.clone();

    // insert them out of order
    let vals = vec![(bday, _val2), (oct_rev, _val1), (nine_eleven, _val3)];
    for (k, v) in vals {
        db.insert(k.0, v);
    }

    // start at the earliest
    let mut iter = db.range(first.0.clone()..);
    let decoded1 = iter.next().unwrap().1;
    let decoded2 = iter.next().unwrap().1;
    let decoded3 = iter.next().unwrap().1;

    assert_eq!(decoded1.id, 1);
    assert_eq!(decoded2.id, 2);
    assert_eq!(decoded3.id, 3);
}

#[test]
fn test_aggregation() {
    let mut db: BTreeMap<Vec<u8>, FileInfo> = BTreeMap::new();

    // Keys: projects!{proj_path}!{batch_ts}!{path}
    let dir = "/tmp";

    let time_a = UtcDate::ymd(2010, 04, 20);
    let time_b = UtcDate::ymd(2011, 04, 20);
    let time_c = UtcDate::ymd(2012, 04, 20);

    let src_a = FileInfo { path: String::from("/tmp/main.c"), lines: 100, extension: String::from("c") };
    let hdr_a = FileInfo { path: String::from("/tmp/main.h"), lines: 50, extension: String::from("h") };

    let src_b = FileInfo { path: String::from("/tmp/main.c"), lines: 110, extension: String::from("c") };
    let hdr_b = FileInfo { path: String::from("/tmp/main.h"), lines: 40, extension: String::from("h") };

    let src_c = FileInfo { path: String::from("/tmp/main.c"), lines: 105, extension: String::from("c") };
    let hdr_c = FileInfo { path: String::from("/tmp/main.h"), lines: 45, extension: String::from("h") };

    let key = |t: UtcDate, p: String| {
        make_key(&[
            Key::from("projects!"),
            Key::from(dir),
            Key::from("!"),
            Key::from(t),
            Key::from("!"),
            Key::from(p),
        ])
    };

    let src_a_key = key(time_a, src_a.path.clone());
    let hdr_a_key = key(time_a, hdr_a.path.clone());
    let src_b_key = key(time_b, src_b.path.clone());
    let hdr_b_key = key(time_b, hdr_b.path.clone());
    let src_c_key = key(time_c, src_c.path.clone());
    let hdr_c_key = key(time_c, hdr_c.path.clone());

    let writes = vec![
        (src_a_key, src_a),
        (hdr_a_key, hdr_a),
        (src_b_key, src_b),
        (hdr_b_key, hdr_b),
        (src_c_key, src_c),
        (hdr_c_key, hdr_c),
    ];
    for (k, v) in writes {
        db.insert(k.0, v);
    }

    let all_keys = db.iter().count();
    assert_eq!(all_keys, 6);

    // Seek to Time B and scan to the end: 4 keys.
    let seek_b = make_key(&[Key::from("projects!"), Key::from(dir), Key::from("!"), Key::from(time_b)]);
    let b_keys = db.range(seek_b.0.clone()..).count();
    assert_eq!(b_keys, 4);

    // The timestamp portions of the keys.
    let timestamps: Vec<String> = db.keys().map(|k| get_timestamps(stored(&Key(k.clone())))).collect();
    assert_eq!(timestamps.get(0).unwrap(), "2010-04-20T00:00:00+00:00");

    let unique_timestamps: HashSet<String> =
        db.keys().map(|k| get_timestamps(stored(&Key(k.clone())))).collect();
    assert_eq!(unique_timestamps.len(), 3);

    // A day "between" the keyspaces.
    let before_b = make_key(&[
        Key::from("projects"),
        Key::from(dir),
        Key::from("!"),
        Key::from(UtcDate::ymd(2011, 01, 01)),
    ]);
    let _seek = make_key(&[Key::from("projects!"), Key::from(dir), Key::from("!"), before_b]);
}

#[test]
fn test_equality() {
    let a = make_key(&[Key::from("a"), Key::from(UtcDate::ymd(2016, 11, 8)), Key::from("b")]);
    let b = make_key(&[Key::from("a"), Key::from(UtcDate::ymd(2016, 11, 8)), Key::from("b")]);
    assert_eq!(a, b);
}
