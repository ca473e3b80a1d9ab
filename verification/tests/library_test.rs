use chrono::TimeZone;

use coded::controllers::{dedup_names, greeting};
use coded::db::{decode_error_message, lookup_bytes, make_key, missing_key_message, Key};
use coded::project::{
    count_lines, diff_since, file_key, get_projects, get_timestamps, golang_files, guess_type, is_hidden,
    should_analyze, walk_visits, yield_lines, FileInfo, ProjectType,
};
use coded::text::{decode, split_on};
use coded::timestamp::{UtcDate, UtcDateTime};

fn stored(key: &Key) -> (Box<[u8]>, Box<[u8]>) {
    (key.0.clone().into_boxed_slice(), Vec::new().into_boxed_slice())
}

fn chrono_text(y: i32, mo: u32, d: u32, h: u32, mi: u32, s: u32, n: u32) -> String {
    let naive = chrono::NaiveDate::from_ymd_opt(y, mo, d).unwrap().and_hms_nano_opt(h, mi, s, n).unwrap();
    chrono::Utc.from_utc_datetime(&naive).to_rfc3339()
}

#[test]
fn dates_that_exist() {
    assert!(UtcDate::ymd_opt(2015, 3, 14).is_some());
    assert!(UtcDate::ymd_opt(2015, 0, 14).is_none());
    assert!(UtcDate::ymd_opt(2015, 2, 29).is_none());
    assert!(UtcDate::ymd_opt(2016, 2, 29).is_some());
    assert!(UtcDate::ymd_opt(1900, 2, 29).is_none());
    assert!(UtcDate::ymd_opt(2000, 2, 29).is_some());
    assert!(UtcDate::ymd_opt(-4, 2, 29).is_some());
    assert!(UtcDate::ymd_opt(2023, 4, 31).is_none());
    assert!(UtcDate::ymd_opt(262142, 12, 31).is_some());
    assert!(UtcDate::ymd_opt(262143, 1, 1).is_none());
    assert!(UtcDate::ymd_opt(-262143, 1, 1).is_some());
    assert!(UtcDate::ymd_opt(-262144, 12, 31).is_none());
}

#[test]
fn times_that_exist() {
    assert!(UtcDateTime::from_parts_opt(2020, 1, 1, 23, 59, 59, 999_999_999).is_some());
    assert!(UtcDateTime::from_parts_opt(2020, 1, 1, 23, 59, 59, 1_999_999_999).is_some());
    assert!(UtcDateTime::from_parts_opt(2020, 1, 1, 23, 59, 58, 1_500_000_000).is_none());
    assert!(UtcDateTime::from_parts_opt(2020, 1, 1, 23, 59, 59, 2_000_000_000).is_none());
    assert!(UtcDateTime::from_parts_opt(2020, 1, 1, 24, 0, 0, 0).is_none());
    assert!(UtcDateTime::from_parts_opt(2020, 1, 1, 23, 60, 0, 0).is_none());
    assert!(UtcDateTime::from_parts_opt(2020, 1, 1, 23, 59, 60, 0).is_none());
    assert!(UtcDateTime::from_parts_opt(2020, 2, 30, 0, 0, 0, 0).is_none());
}

#[test]
fn rfc3339_text() {
    let cases: Vec<(i32, u32, u32, u32, u32, u32, u32, &str)> = vec![
        (2010, 4, 20, 0, 0, 0, 0, "2010-04-20T00:00:00+00:00"),
        (1996, 12, 19, 16, 39, 57, 0, "1996-12-19T16:39:57+00:00"),
        (2001, 9, 11, 8, 46, 0, 5_000_000, "2001-09-11T08:46:00.005+00:00"),
        (2001, 9, 11, 8, 46, 0, 123_000, "2001-09-11T08:46:00.000123+00:00"),
        (2001, 9, 11, 8, 46, 0, 1, "2001-09-11T08:46:00.000000001+00:00"),
        (2016, 12, 31, 23, 59, 59, 1_500_000_000, "2016-12-31T23:59:60.500+00:00"),
        (2016, 12, 31, 23, 59, 59, 1_000_000_000, "2016-12-31T23:59:60+00:00"),
        (10000, 1, 1, 0, 0, 0, 0, "+10000-01-01T00:00:00+00:00"),
        (-1, 1, 1, 0, 0, 0, 0, "-0001-01-01T00:00:00+00:00"),
        (7, 3, 4, 5, 6, 7, 0, "0007-03-04T05:06:07+00:00"),
    ];
    for (y, mo, d, h, mi, s, n, text) in cases {
        let t = UtcDateTime::from_parts_opt(y, mo, d, h, mi, s, n).unwrap();
        assert_eq!(t.to_rfc3339(), text);
        assert_eq!(t.to_rfc3339(), chrono_text(y, mo, d, h, mi, s, n));
    }
}

#[test]
fn keys_from_text_and_dates() {
    assert_eq!(Key::from("héllo").0, "héllo".as_bytes().to_vec());
    assert_eq!(Key::from(String::from("abc")).0, b"abc".to_vec());
    assert_eq!(Key::from(UtcDate::ymd(2016, 11, 8)).0, b"2016-11-08T00:00:00+00:00".to_vec());
    assert_eq!(Key::empty().0, Vec::<u8>::new());
    assert_eq!(Key::from("ab").join(Key::from("cd")).0, b"abcd".to_vec());
    assert_eq!(make_key(&[]), Key::empty());
    assert_eq!(make_key(&[Key::from("x")]), Key::from("x"));
}

#[test]
fn key_debug_text() {
    let k = Key(vec![0, 7, 10, 99, 100, 255]);
    assert_eq!(k.debug_text(), format!("{:?}", k));
    assert_eq!(Key::empty().debug_text(), "Key([])");
    assert_eq!(Key::from("k2").debug_text(), "Key([107, 50])");
}

#[test]
fn lookup_outcomes() {
    let k = Key::from("k");
    assert_eq!(lookup_bytes(&k, Ok(None)), Err(String::from("Could not find key 'Key([107])' in DB")));
    assert_eq!(lookup_bytes(&k, Ok(Some(vec![1, 2]))), Ok(vec![1, 2]));
    assert_eq!(
        lookup_bytes(&k, Err(String::from("IO error"))),
        Err(String::from("Error fetching key 'Key([107])' from DB: IO error"))
    );
    assert_eq!(missing_key_message(&k), "Could not find key 'Key([107])' in DB");
    assert_eq!(decode_error_message(&k, "Io"), "Error deserializing key 'Key([107])' from DB: Io");
}

#[test]
fn decoding_and_splitting() {
    assert_eq!(decode(&[0xff, 0x41]), None);
    assert_eq!(decode("héllo".as_bytes()), Some(String::from("héllo")));
    assert_eq!(split_on("a!b!!c", '!'), vec!["a", "b", "", "c"]);
    assert_eq!(split_on("", '!'), vec![""]);
    assert_eq!(split_on("é!ü", '!'), vec!["é", "ü"]);
}

#[test]
fn reading_keys_back() {
    let t = UtcDateTime::from_parts_opt(2011, 4, 20, 12, 30, 0, 250_000_000).unwrap();
    let k = file_key("/home/me/proj", &t, "/home/me/proj/a!b.go");
    assert_eq!(k.0, b"projects!/home/me/proj!2011-04-20T12:30:00.250+00:00!/home/me/proj/a!b.go".to_vec());
    assert_eq!(get_projects(stored(&k)), "/home/me/proj");
    assert_eq!(get_timestamps(stored(&k)), t.to_rfc3339());
    assert_eq!(get_projects(stored(&Key::from("nothing"))), "unknown project");
    assert_eq!(get_projects(stored(&Key::from("a!"))), "");
}

#[test]
fn counting_lines() {
    assert_eq!(count_lines(b""), 0);
    assert_eq!(count_lines(b"a"), 1);
    assert_eq!(count_lines(b"a\n"), 1);
    assert_eq!(count_lines(b"a\nb"), 2);
    assert_eq!(count_lines(b"\n\n"), 2);
    assert_eq!(count_lines(b"a\r\nb\n"), 2);
    assert_eq!(count_lines(&[0xff, b'\n', 0xfe]), 2);
}

#[test]
fn file_statistics() {
    let b = FileInfo::blank();
    assert_eq!(b.path, "error");
    assert_eq!(b.lines, 0);
    assert_eq!(b.extension, "");
    let f = FileInfo::from_contents(String::from("main.go"), String::from("go"), 12, b"package main\n");
    assert_eq!((f.path.as_str(), f.lines, f.extension.as_str()), ("main.go", 1, "go"));
    let big = FileInfo::from_contents(String::from("big.bin"), String::from("bin"), 5_000_001, b"");
    assert_eq!((big.path.as_str(), big.lines, big.extension.as_str()), ("error", 0, ""));
    let edge = FileInfo::from_contents(String::from("e.txt"), String::from("txt"), 5_000_000, b"x\ny");
    assert_eq!(edge.lines, 2);
    assert_eq!(yield_lines(Some(f)), 1);
    assert_eq!(yield_lines(None), -1);
}

#[test]
fn walking_projects() {
    assert!(is_hidden(Some(".git")));
    assert!(!is_hidden(Some("src")));
    assert!(!is_hidden(Some("")));
    assert!(!is_hidden(None));
    assert!(!golang_files(Some("vendor")));
    assert!(golang_files(Some("vendors")));
    assert!(golang_files(Some("src")));
    assert!(!golang_files(None));
    assert!(walk_visits(Some("main.go")));
    assert!(!walk_visits(Some(".hidden")));
    assert!(!walk_visits(Some("vendor")));
    assert!(matches!(guess_type(true), ProjectType::Rust));
    assert!(matches!(guess_type(false), ProjectType::Go));
    assert!(should_analyze(true, ProjectType::Go));
    assert!(!should_analyze(true, ProjectType::Rust));
    assert!(!should_analyze(false, ProjectType::Go));
    let t = UtcDateTime::from_parts_opt(2011, 1, 1, 0, 0, 0, 0).unwrap();
    assert_eq!(diff_since(t), Some(0));
}

#[test]
fn pages() {
    assert_eq!(greeting("coleman"), "Hello, world! coleman specifically");
    let names = vec![
        String::from("a"),
        String::from("a"),
        String::from("b"),
        String::from("a"),
        String::from("a"),
    ];
    assert_eq!(dedup_names(names), vec!["a", "b", "a"]);
    assert_eq!(dedup_names(Vec::new()), Vec::<String>::new());
}

#[test]
fn date_keys_sort_in_time_order() {
    let dates = [(1917, 10, 25), (1984, 9, 21), (1984, 10, 1), (1984, 10, 2), (2001, 9, 11), (9999, 12, 31)];
    for i in 0..dates.len() {
        for j in 0..dates.len() {
            let a = Key::from(UtcDate::ymd(dates[i].0, dates[i].1, dates[i].2));
            let b = Key::from(UtcDate::ymd(dates[j].0, dates[j].1, dates[j].2));
            assert_eq!(a.0 < b.0, i < j);
        }
    }
}

#[test]
fn datetime_keys_sort_in_time_order() {
    // In time order, fractions and a leap second included.
    let times: Vec<(i32, u32, u32, u32, u32, u32, u32)> = vec![
        (0, 1, 1, 0, 0, 0, 0),
        (2016, 12, 31, 23, 59, 58, 999_999_999),
        (2016, 12, 31, 23, 59, 59, 0),
        (2016, 12, 31, 23, 59, 59, 1),
        (2016, 12, 31, 23, 59, 59, 100_000_000),
        (2016, 12, 31, 23, 59, 59, 100_000_001),
        (2016, 12, 31, 23, 59, 59, 100_001_000),
        (2016, 12, 31, 23, 59, 59, 999_999_999),
        (2016, 12, 31, 23, 59, 59, 1_000_000_000),
        (2016, 12, 31, 23, 59, 59, 1_500_000_000),
        (2017, 1, 1, 0, 0, 0, 0),
        (9999, 12, 31, 23, 59, 59, 999_999_999),
    ];
    let keys: Vec<Key> = times
        .iter()
        .map(|&(y, mo, d, h, mi, s, n)| Key::from(UtcDateTime::from_parts_opt(y, mo, d, h, mi, s, n).unwrap()))
        .collect();
    for i in 0..keys.len() {
        for j in 0..keys.len() {
            assert_eq!(keys[i].0 < keys[j].0, i < j);
        }
    }
}

#[test]
fn seeking_a_scan() {
    let early = UtcDateTime::from_parts_opt(2011, 4, 20, 10, 0, 0, 0).unwrap();
    let start = UtcDateTime::from_parts_opt(2011, 4, 20, 10, 0, 0, 500_000_000).unwrap();
    let late = UtcDateTime::from_parts_opt(2011, 4, 20, 10, 0, 1, 0).unwrap();
    let seek = make_key(&[Key::from("projects!"), Key::from("/p"), Key::from("!"), Key::from(start)]);
    assert!(file_key("/p", &early, "/p/z.go").0 < seek.0);
    assert!(file_key("/p", &start, "/p/a.go").0 >= seek.0);
    assert!(file_key("/p", &late, "/p/a.go").0 >= seek.0);
    assert!(file_key("/p", &start, "/p/a.go").0 < file_key("/p", &start, "/p/b.go").0);
    assert!(file_key("/p", &early, "/p/z.go").0 < file_key("/p", &start, "/p/a.go").0);
}

#[test]
fn parts_of_dates() {
    let d = UtcDate::ymd(2016, 2, 29);
    assert_eq!((d.year(), d.month(), d.day()), (2016, 2, 29));
    let t = UtcDateTime::from_parts_opt(2016, 12, 31, 23, 59, 59, 1_500_000_000).unwrap();
    let td = t.date();
    assert_eq!((td.year(), td.month(), td.day()), (2016, 12, 31));
    assert_eq!(t.time_of_day(), (23, 59, 59, 1_500_000_000));
}

#[test]
fn large_files_are_blank_whatever_their_contents() {
    let contents = vec![b'\n'; 6_000_000];
    let f = FileInfo::from_contents(String::from("big.log"), String::from("log"), 6_000_000, &contents);
    assert_eq!((f.path.as_str(), f.lines, f.extension.as_str()), ("error", 0, ""));
}
