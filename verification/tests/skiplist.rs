use rand::{Rng, SeedableRng};
use rand_chacha::ChaCha8Rng;
use skipkv::db::SKIPLIST_LEVELS;
use skipkv::skiplist::{level_from_flips, SkipList};

fn s(text: &str) -> String {
    text.to_string()
}

#[test]
fn test_add() {
    let mut rng = ChaCha8Rng::seed_from_u64(1);
    let levels = SKIPLIST_LEVELS;
    let mut skiplist: SkipList<String, String> = SkipList::init(levels);
    let key_value = vec![
        ("abc", "first"),
        ("db", "me"),
        ("bill", "random name"),
        ("cat", "meow"),
        ("wordd", "freaky"),
    ];
    for kv in &key_value {
        let level = rng.gen_range(0..levels - 1);
        println!("inserting at level {}", level);
        skiplist.insert_with_level(&kv.0.to_string(), &kv.1.to_string(), level)
    }
    for kv in &key_value {
        assert_eq!(skiplist.get(&kv.0.to_string()), Some(kv.1.to_string()));
    }
    assert_eq!(skiplist.get(&"invalid".to_string()), None);
    assert_eq!(skiplist.get(&"".to_string()), None);
}

#[test]
fn empty_index_finds_nothing() {
    let list: SkipList<String, String> = SkipList::init(1);
    assert_eq!(list.get(&s("a")), None);
    assert_eq!(list.get(&s("")), None);
}

#[test]
fn get_returns_value_of_each_unique_key() {
    let mut list: SkipList<String, String> = SkipList::init(4);
    let mut level = 0;
    for i in 0..200u32 {
        let key = format!("key{}", (i * 37) % 200);
        let value = format!("value{}", i);
        list.insert_with_level(&key, &value, level);
        level = (level + 3) % 4;
        assert_eq!(list.get(&key), Some(value));
    }
    for i in 0..200u32 {
        let key = format!("key{}", (i * 37) % 200);
        assert_eq!(list.get(&key), Some(format!("value{}", i)));
    }
    assert_eq!(list.get(&s("key200")), None);
    assert_eq!(list.get(&s("key")), None);
    assert_eq!(list.get(&s("kez")), None);
}

#[test]
fn random_levels_keep_every_key() {
    let mut list: SkipList<String, String> = SkipList::init(5);
    for i in 0..300u32 {
        list.insert(&format!("{:05}", (i * 7919) % 1000), &format!("v{}", i));
    }
    for i in 0..300u32 {
        assert_eq!(list.get(&format!("{:05}", (i * 7919) % 1000)), Some(format!("v{}", i)));
    }
    assert_eq!(list.get(&s("00001")), None);
}

fn filled(order: &[usize], levels: &[usize]) -> SkipList<String, String> {
    let pairs = [("a", "1"), ("b", "2"), ("c", "3")];
    let mut list: SkipList<String, String> = SkipList::init(3);
    for (n, i) in order.iter().enumerate() {
        list.insert_with_level(&s(pairs[*i].0), &s(pairs[*i].1), levels[n]);
    }
    list
}

#[test]
fn any_insertion_order_gives_the_same_results() {
    let orders = [[0, 1, 2], [0, 2, 1], [1, 0, 2], [1, 2, 0], [2, 0, 1], [2, 1, 0]];
    let levels = [[0, 0, 0], [2, 1, 0], [0, 1, 2], [1, 1, 1], [2, 2, 2], [0, 2, 0]];
    for order in &orders {
        for level in &levels {
            let list = filled(order, level);
            assert_eq!(list.get(&s("a")), Some(s("1")));
            assert_eq!(list.get(&s("b")), Some(s("2")));
            assert_eq!(list.get(&s("c")), Some(s("3")));
            assert_eq!(list.get(&s("d")), None);
        }
    }
}

#[test]
fn keys_are_ordered_by_their_bytes() {
    let mut list: SkipList<String, String> = SkipList::init(2);
    let keys = ["b", "a", "ab", "", "B", "é", "z", "aa", "~"];
    for (i, key) in keys.iter().enumerate() {
        list.insert_with_level(&s(key), &format!("{}", i), i % 2);
    }
    for (i, key) in keys.iter().enumerate() {
        assert_eq!(list.get(&s(key)), Some(format!("{}", i)));
    }
    assert_eq!(list.get(&s("e")), None);
    assert_eq!(list.get(&s("a ")), None);
}

#[test]
fn of_equal_keys_the_highest_level_wins() {
    let mut list: SkipList<String, String> = SkipList::init(3);
    list.insert_with_level(&s("k"), &s("old"), 0);
    list.insert_with_level(&s("k"), &s("new"), 1);
    assert_eq!(list.get(&s("k")), Some(s("new")));

    let mut list: SkipList<String, String> = SkipList::init(3);
    list.insert_with_level(&s("k"), &s("old"), 2);
    list.insert_with_level(&s("k"), &s("new"), 1);
    assert_eq!(list.get(&s("k")), Some(s("old")));
}

#[test]
fn of_equal_keys_at_one_level_the_first_wins() {
    let mut list: SkipList<String, String> = SkipList::init(3);
    list.insert_with_level(&s("j"), &s("x"), 2);
    list.insert_with_level(&s("k"), &s("first"), 1);
    list.insert_with_level(&s("k"), &s("second"), 1);
    list.insert_with_level(&s("k"), &s("low"), 0);
    list.insert_with_level(&s("l"), &s("y"), 0);
    assert_eq!(list.get(&s("k")), Some(s("first")));
    assert_eq!(list.get(&s("j")), Some(s("x")));
    assert_eq!(list.get(&s("l")), Some(s("y")));
}

#[test]
fn level_follows_the_run_of_heads() {
    assert_eq!(level_from_flips(3, &vec![]), 2);
    assert_eq!(level_from_flips(3, &vec![false]), 2);
    assert_eq!(level_from_flips(3, &vec![true, false]), 1);
    assert_eq!(level_from_flips(3, &vec![true]), 1);
    assert_eq!(level_from_flips(3, &vec![true, true]), 0);
    assert_eq!(level_from_flips(3, &vec![true, true, true, true]), 0);
    assert_eq!(level_from_flips(3, &vec![false, true, true]), 2);
    assert_eq!(level_from_flips(1, &vec![true, true]), 0);
    assert_eq!(level_from_flips(5, &vec![true, true, true, false, true]), 1);
}

#[test]
fn drawn_level_is_below_the_number_of_levels() {
    for levels in 1..6usize {
        let list: SkipList<String, String> = SkipList::init(levels);
        for _ in 0..200 {
            assert!(list.randlvl() < levels);
        }
    }
}

#[test]
fn levels_halve_from_the_top_down() {
    let mut rng = ChaCha8Rng::seed_from_u64(7);
    let levels = 4usize;
    let trials = 40000usize;
    let mut count = vec![0usize; levels];
    for _ in 0..trials {
        let flips: Vec<bool> = (0..levels - 1).map(|_| rng.gen::<bool>()).collect();
        count[level_from_flips(levels, &flips)] += 1;
    }
    let share = |n: usize| n as f64 / trials as f64;
    assert!((share(count[3]) - 0.5).abs() < 0.02);
    assert!((share(count[2]) - 0.25).abs() < 0.02);
    assert!((share(count[1]) - 0.125).abs() < 0.02);
    assert!((share(count[0]) - 0.125).abs() < 0.02);
}

#[test]
fn drawn_levels_halve_from_the_top_down() {
    let list: SkipList<String, String> = SkipList::init(3);
    let trials = 40000usize;
    let mut count = vec![0usize; 3];
    for _ in 0..trials {
        count[list.randlvl()] += 1;
    }
    let share = |n: usize| n as f64 / trials as f64;
    assert!((share(count[2]) - 0.5).abs() < 0.03);
    assert!((share(count[1]) - 0.25).abs() < 0.03);
    assert!((share(count[0]) - 0.25).abs() < 0.03);
}
