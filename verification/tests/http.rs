use skipkv::http::{parse_request, reply, space, Outcome, Request};
use skipkv::skiplist::SkipList;

fn s(text: &str) -> String {
    text.to_string()
}

#[test]
fn get_address_names_a_trimmed_key() {
    assert_eq!(parse_request("/get?abc"), Request::Fetch { key: s("abc") });
    assert_eq!(parse_request("/get?"), Request::Fetch { key: s("") });
    assert_eq!(parse_request("/get? abc \t"), Request::Fetch { key: s("abc") });
    assert_eq!(parse_request("/get?\u{3000}a b\u{a0}"), Request::Fetch { key: s("a b") });
    assert_eq!(parse_request("/get?   "), Request::Fetch { key: s("") });
    assert_eq!(parse_request("/get?/get?/get?abc"), Request::Fetch { key: s("abc") });
    assert_eq!(parse_request("/get?a=b"), Request::Fetch { key: s("a=b") });
    assert_eq!(parse_request("/get? /get?a"), Request::Fetch { key: s("/get?a") });
}

#[test]
fn set_address_names_key_and_value() {
    assert_eq!(parse_request("/set?abc=first"), Request::Put { key: s("abc"), value: s("first") });
    assert_eq!(parse_request("/set?a=b=c"), Request::Put { key: s("a"), value: s("b=c") });
    assert_eq!(parse_request("/set?="), Request::Put { key: s(""), value: s("") });
    assert_eq!(parse_request("/set? a = b "), Request::Put { key: s(" a "), value: s(" b ") });
    assert_eq!(parse_request("/set?/set?k=v"), Request::Put { key: s("k"), value: s("v") });
    assert_eq!(parse_request("/set?/get?k=v"), Request::Put { key: s("/get?k"), value: s("v") });
}

#[test]
fn set_address_without_equals_is_invalid() {
    assert_eq!(parse_request("/set?abc"), Request::Invalid);
    assert_eq!(parse_request("/set?"), Request::Invalid);
}

#[test]
fn other_addresses_are_not_found() {
    assert_eq!(parse_request(""), Request::NotFound);
    assert_eq!(parse_request("/"), Request::NotFound);
    assert_eq!(parse_request("/get"), Request::NotFound);
    assert_eq!(parse_request("/set"), Request::NotFound);
    assert_eq!(parse_request("/put?a=b"), Request::NotFound);
    assert_eq!(parse_request(" /get?a"), Request::NotFound);
    assert_eq!(parse_request("/GET?a"), Request::NotFound);
}

#[test]
fn answers_have_status_and_body() {
    assert_eq!(reply(Outcome::Found(s("meow"))), (200, s("meow")));
    assert_eq!(reply(Outcome::Missing), (404, s("Key not found")));
    assert_eq!(reply(Outcome::Stored), (200, s("OK")));
    assert_eq!(reply(Outcome::Invalid), (400, s("Invalid input")));
    assert_eq!(reply(Outcome::Unknown), (404, s("Not Found")));
    assert_eq!(reply(Outcome::Failed), (500, s("Insert failed")));
}

#[test]
fn white_space_is_what_std_calls_white_space() {
    for code in 0..0x11000u32 {
        if let Some(c) = char::from_u32(code) {
            assert_eq!(space(c), c.is_whitespace());
        }
    }
}

#[test]
fn each_level_holds_a_part_of_the_level_below() {
    let mut list: SkipList<String, String> = SkipList::init(4);
    for i in 0..120u32 {
        list.insert(&format!("{:03}", (i * 53) % 120), &format!("v{}", i));
    }
    let all = list.keys_at(0);
    assert_eq!(all.len(), 120);
    for i in 1..all.len() {
        assert!(all[i - 1] < all[i]);
    }
    for level in 1..4 {
        let upper = list.keys_at(level);
        let lower = list.keys_at(level - 1);
        assert!(upper.len() <= lower.len());
        for key in &upper {
            assert!(lower.contains(key));
        }
        for i in 1..upper.len() {
            assert!(upper[i - 1] < upper[i]);
        }
    }
}

#[test]
fn levels_list_the_nodes_linked_at_them() {
    let mut list: SkipList<String, String> = SkipList::init(3);
    list.insert_with_level(&s("c"), &s("3"), 1);
    list.insert_with_level(&s("a"), &s("1"), 0);
    list.insert_with_level(&s("d"), &s("4"), 2);
    list.insert_with_level(&s("b"), &s("2"), 2);
    list.insert_with_level(&s("b"), &s("5"), 0);
    assert_eq!(list.keys_at(0), vec![s("a"), s("b"), s("b"), s("c"), s("d")]);
    assert_eq!(list.keys_at(1), vec![s("b"), s("c"), s("d")]);
    assert_eq!(list.keys_at(2), vec![s("b"), s("d")]);
    assert_eq!(list.get(&s("b")), Some(s("2")));
}
