use skipkv::db::{InsertError, DB};
use skipkv::key::{Key, Value};
use skipkv::memtable::{MemTable, ReplayError};
use skipkv::text::{str_precedes, to_chars};
use skipkv::wal::{encode_insert, read_line, WalError, WalStatus, WAL};

fn s(text: &str) -> String {
    text.to_string()
}

#[test]
fn five_pairs_are_found_and_others_are_not() {
    let mut table: MemTable<String, String> = MemTable::init(3);
    for (k, v) in [
        ("abc", "first"),
        ("db", "me"),
        ("bill", "random name"),
        ("cat", "meow"),
        ("wordd", "freaky"),
    ] {
        assert_eq!(table.insert(&s(k), &s(v)), 0);
    }
    assert_eq!(table.get(&s("abc")), Some(s("first")));
    assert_eq!(table.get(&s("db")), Some(s("me")));
    assert_eq!(table.get(&s("bill")), Some(s("random name")));
    assert_eq!(table.get(&s("cat")), Some(s("meow")));
    assert_eq!(table.get(&s("wordd")), Some(s("freaky")));
    assert_eq!(table.get(&s("invalid")), None);
    assert_eq!(table.get(&s("")), None);
}

#[test]
fn text_order_is_byte_order() {
    assert!(str_precedes("", "a"));
    assert!(!str_precedes("a", ""));
    assert!(!str_precedes("", ""));
    assert!(str_precedes("a", "b"));
    assert!(!str_precedes("b", "a"));
    assert!(!str_precedes("abc", "abc"));
    assert!(str_precedes("ab", "abc"));
    assert!(!str_precedes("abc", "ab"));
    assert!(str_precedes("Z", "a"));
    assert!(str_precedes("z", "é"));
    assert!(str_precedes("abc", "abd"));
    assert!(str_precedes("é", "\u{10000}"));
    let words = ["", "B", "a", "aa", "ab", "b", "z", "~", "é"];
    for i in 0..words.len() {
        for j in 0..words.len() {
            assert_eq!(str_precedes(words[i], words[j]), words[i] < words[j]);
            assert_eq!(s(words[i]).precedes(&s(words[j])), i < j);
        }
    }
}

#[test]
fn strings_stand_for_their_text() {
    assert_eq!(<String as Value>::empty(), s(""));
    assert_eq!(<String as Value>::from_text("a;b"), s("a;b"));
    assert_eq!(s("xyz").to_text(), s("xyz"));
    assert_eq!(s("xyz").duplicate(), s("xyz"));
    assert_eq!(to_chars("aé!"), vec!['a', 'é', '!']);
    assert_eq!(to_chars(""), Vec::<char>::new());
}

#[test]
fn record_is_tag_key_and_value() {
    assert_eq!(encode_insert("abc", "first"), s("insert!abc;first"));
    assert_eq!(encode_insert("", ""), s("insert!;"));
    assert_eq!(encode_insert("k!", "a;b c"), s("insert!k!;a;b c"));
}

#[test]
fn lines_part_at_the_first_delimiters() {
    assert_eq!(read_line("insert!abc;first"), Ok(Some((s("abc"), s("first")))));
    assert_eq!(read_line("insert!;"), Ok(Some((s(""), s("")))));
    assert_eq!(read_line("insert!a;b;c"), Ok(Some((s("a"), s("b;c")))));
    assert_eq!(read_line("insert!a!b;c!d"), Ok(Some((s("a!b"), s("c!d")))));
    assert_eq!(read_line("insert!ключ;значение"), Ok(Some((s("ключ"), s("значение")))));
    assert_eq!(read_line("delete!abc"), Ok(None));
    assert_eq!(read_line("!abc;def"), Ok(None));
    assert_eq!(read_line("Insert!a;b"), Ok(None));
    assert_eq!(read_line("inserts!a;b"), Ok(None));
    assert_eq!(read_line("inser!a;b"), Ok(None));
    assert_eq!(read_line(""), Err(WalError::MissingTag));
    assert_eq!(read_line("insert abc;first"), Err(WalError::MissingTag));
    assert_eq!(read_line("insert!abc"), Err(WalError::MissingSeparator));
    assert_eq!(read_line("insert!"), Err(WalError::MissingSeparator));
}

#[test]
fn what_was_encoded_reads_back() {
    for (k, v) in [("abc", "first"), ("", ""), ("a b", "c;d!e"), ("k!k", ";")] {
        let line = encode_insert(k, v);
        assert_eq!(read_line(&line), Ok(Some((s(k), s(v)))));
    }
}

#[test]
fn log_counts_and_ends_each_record() {
    let (mut wal, status) = WAL::new("");
    assert_eq!(status, WalStatus::Empty);
    assert_eq!(wal.write("hello"), (1, s("hello\n")));
    assert_eq!(wal.write(""), (2, s("\n")));
    assert_eq!(wal.insert(&s("abc"), &s("first")), (3, s("insert!abc;first\n")));
    let (_, status) = WAL::new("insert!a;b\n");
    assert_eq!(status, WalStatus::HasData);
    let (_, status) = WAL::new("x");
    assert_eq!(status, WalStatus::HasData);
}

#[test]
fn log_count_starts_again_after_65535() {
    let (mut wal, _) = WAL::new("");
    for i in 1..=65535u32 {
        assert_eq!(wal.write("x").0 as u32, i);
    }
    assert_eq!(wal.write("x").0, 0);
    assert_eq!(wal.write("x").0, 1);
}

#[test]
fn interpret_applies_inserts_only() {
    let mut table: MemTable<String, String> = MemTable::init(3);
    assert_eq!(table.interpret(s("insert!abc;first")), Ok(()));
    assert_eq!(table.get(&s("abc")), Some(s("first")));
    assert_eq!(table.interpret(s("remove!abc;")), Ok(()));
    assert_eq!(table.get(&s("abc")), Some(s("first")));
    assert_eq!(table.interpret(s("no tag")), Err(WalError::MissingTag));
    assert_eq!(table.interpret(s("insert!db")), Err(WalError::MissingSeparator));
    assert_eq!(table.get(&s("db")), None);
    assert_eq!(table.get(&s("abc")), Some(s("first")));
}

#[test]
fn replay_applies_every_line() {
    let mut table: MemTable<String, String> = MemTable::init(3);
    let log = "insert!abc;first\nflush!now\ninsert!db;me\ninsert!cat;meow";
    assert_eq!(table.load_wal(log), Ok(()));
    assert_eq!(table.get(&s("abc")), Some(s("first")));
    assert_eq!(table.get(&s("db")), Some(s("me")));
    assert_eq!(table.get(&s("cat")), Some(s("meow")));
    assert_eq!(table.get(&s("flush")), None);

    let mut table: MemTable<String, String> = MemTable::init(3);
    assert_eq!(table.load_wal(""), Ok(()));
    assert_eq!(table.load_wal("insert!a;1\n"), Ok(()));
    assert_eq!(table.get(&s("a")), Some(s("1")));
}

#[test]
fn replay_stops_at_the_first_bad_line() {
    let mut table: MemTable<String, String> = MemTable::init(3);
    let log = "insert!abc;first\ninsert!db;me\nbroken\ninsert!cat;meow\n";
    assert_eq!(table.load_wal(log), Err(ReplayError { line: 2, kind: WalError::MissingTag }));
    assert_eq!(table.get(&s("abc")), Some(s("first")));
    assert_eq!(table.get(&s("db")), Some(s("me")));
    assert_eq!(table.get(&s("cat")), None);

    let mut table: MemTable<String, String> = MemTable::init(3);
    assert_eq!(
        table.load_wal("insert!a\n"),
        Err(ReplayError { line: 0, kind: WalError::MissingSeparator })
    );
    assert_eq!(
        table.load_wal("insert!a;1\n\ninsert!b;2\n"),
        Err(ReplayError { line: 1, kind: WalError::MissingTag })
    );
    assert_eq!(table.load_wal("\n"), Err(ReplayError { line: 0, kind: WalError::MissingTag }));
}

#[test]
fn replaying_one_log_twice_gives_the_same_state() {
    let mut log = String::new();
    for i in 0..100u32 {
        log.push_str(&encode_insert(&format!("k{}", (i * 13) % 100), &format!("v{}", i)));
        log.push('\n');
    }
    let mut first: MemTable<String, String> = MemTable::init(3);
    let mut second: MemTable<String, String> = MemTable::init(3);
    assert_eq!(first.load_wal(&log), Ok(()));
    assert_eq!(second.load_wal(&log), Ok(()));
    for i in 0..120u32 {
        let key = format!("k{}", i);
        assert_eq!(first.get(&key), second.get(&key));
        assert_eq!(first.get(&key).is_some(), i < 100);
    }
}

fn put(db: &mut DB<String, String>, log: &mut String, key: &str, value: &str) {
    let record = db.insert(s(key), s(value)).unwrap();
    log.push_str(&record);
    assert_eq!(db.commit(true), Ok(()));
}

#[test]
fn engine_recovers_from_its_log() {
    let mut log = String::new();
    let mut db: DB<String, String> = DB::new(&log).unwrap();
    let n = 50u32;
    for i in 0..n {
        put(&mut db, &mut log, &format!("key {}", (i * 17) % n), &format!("value {}", i));
    }
    let before: Vec<Option<String>> = (0..n).map(|i| db.get(&format!("key {}", i))).collect();
    drop(db);
    let db: DB<String, String> = DB::new(&log).unwrap();
    for i in 0..n {
        assert_eq!(db.get(&format!("key {}", i)), before[i as usize]);
        assert!(before[i as usize].is_some());
    }
    assert_eq!(db.get(&s("key 50")), None);
}

#[test]
fn engine_hands_out_the_record_before_the_insert_shows() {
    let mut db: DB<String, String> = DB::new("").unwrap();
    assert_eq!(db.insert(s("abc"), s("first")), Ok(s("insert!abc;first\n")));
    assert_eq!(db.get(&s("abc")), None);
    assert_eq!(db.commit(true), Ok(()));
    assert_eq!(db.get(&s("abc")), Some(s("first")));
}

#[test]
fn failed_append_leaves_the_table_alone() {
    let mut db: DB<String, String> = DB::new("").unwrap();
    assert_eq!(db.insert(s("abc"), s("first")), Ok(s("insert!abc;first\n")));
    assert_eq!(db.commit(false), Err(InsertError::AppendFailed));
    assert_eq!(db.get(&s("abc")), None);
    assert_eq!(db.commit(true), Err(InsertError::NothingStaged));
    assert_eq!(db.get(&s("abc")), None);
}

#[test]
fn one_insert_waits_at_a_time() {
    let mut db: DB<String, String> = DB::new("").unwrap();
    assert!(db.insert(s("a"), s("1")).is_ok());
    assert_eq!(db.insert(s("b"), s("2")), Err(InsertError::Staged));
    assert_eq!(db.commit(true), Ok(()));
    assert_eq!(db.get(&s("a")), Some(s("1")));
    assert_eq!(db.get(&s("b")), None);
    assert_eq!(db.insert(s("b"), s("2")), Ok(s("insert!b;2\n")));
}

#[test]
fn engine_refuses_a_broken_log() {
    let made: Result<DB<String, String>, ReplayError> = DB::new("insert!a;1\ninsert!b\n");
    assert_eq!(made.err(), Some(ReplayError { line: 1, kind: WalError::MissingSeparator }));
    let made: Result<DB<String, String>, ReplayError> = DB::new("garbage");
    assert_eq!(made.err(), Some(ReplayError { line: 0, kind: WalError::MissingTag }));
}

#[test]
fn engine_replays_a_log_with_data() {
    let db: DB<String, String> = DB::new("insert!abc;first\ninsert!db;me\n").unwrap();
    assert_eq!(db.get(&s("abc")), Some(s("first")));
    assert_eq!(db.get(&s("db")), Some(s("me")));
    assert_eq!(db.get(&s("invalid")), None);
}
