use zmq_kv_store::protocol::{dispatch, handle_request, join_from, on_message, parse_request};
use zmq_kv_store::store::Store;
use zmq_kv_store::text::{is_whitespace, split_words};

fn strings(words: &[&str]) -> Vec<String> {
    words.iter().map(|w| w.to_string()).collect()
}

#[test]
fn set_then_get_returns_the_value() {
    let mut store = Store::new();
    assert_eq!(handle_request(&mut store, "SET k v"), "OK");
    assert_eq!(handle_request(&mut store, "GET k"), "v");
    assert_eq!(handle_request(&mut store, "SET name a value with spaces"), "OK");
    assert_eq!(handle_request(&mut store, "GET name"), "a value with spaces");
    assert_eq!(handle_request(&mut store, "GET k"), "v");
}

#[test]
fn second_set_overwrites() {
    let mut store = Store::new();
    assert_eq!(handle_request(&mut store, "SET k first value"), "OK");
    assert_eq!(handle_request(&mut store, "SET k second"), "OK");
    assert_eq!(handle_request(&mut store, "GET k"), "second");
}

#[test]
fn get_of_a_key_never_set() {
    let mut store = Store::new();
    assert_eq!(handle_request(&mut store, "GET k"), "Key not found");
    assert_eq!(handle_request(&mut store, "SET other 1"), "OK");
    assert_eq!(handle_request(&mut store, "GET k"), "Key not found");
}

#[test]
fn fewer_than_two_words() {
    let mut store = Store::new();
    assert_eq!(handle_request(&mut store, "SET k v"), "OK");
    assert_eq!(handle_request(&mut store, ""), "Invalid request format");
    assert_eq!(handle_request(&mut store, "   \t "), "Invalid request format");
    assert_eq!(handle_request(&mut store, "GET"), "Invalid request format");
    assert_eq!(handle_request(&mut store, "  SET  "), "Invalid request format");
    assert_eq!(handle_request(&mut store, "PING"), "Invalid request format");
    assert_eq!(handle_request(&mut store, "GET k"), "v");
}

#[test]
fn set_without_a_value() {
    let mut store = Store::new();
    assert_eq!(handle_request(&mut store, "SET k"), "Invalid SET format");
    assert_eq!(handle_request(&mut store, "GET k"), "Key not found");
    assert_eq!(handle_request(&mut store, "SET k v"), "OK");
    assert_eq!(handle_request(&mut store, "SET k"), "Invalid SET format");
    assert_eq!(handle_request(&mut store, "GET k"), "v");
}

#[test]
fn unknown_command() {
    let mut store = Store::new();
    assert_eq!(handle_request(&mut store, "SET k v"), "OK");
    assert_eq!(handle_request(&mut store, "DELETE k"), "Unknown command");
    assert_eq!(handle_request(&mut store, "set k w"), "Unknown command");
    assert_eq!(handle_request(&mut store, "GETS k"), "Unknown command");
    assert_eq!(handle_request(&mut store, "GET k"), "v");
}

#[test]
fn end_to_end_scenario() {
    let mut store = Store::new();
    assert_eq!(handle_request(&mut store, "SET color blue sky"), "OK");
    assert_eq!(handle_request(&mut store, "GET color"), "blue sky");
    assert_eq!(handle_request(&mut store, "GET nonexistent"), "Key not found");
    assert_eq!(handle_request(&mut store, "PING color"), "Unknown command");
}

#[test]
fn value_words_are_rejoined_with_single_spaces() {
    let mut store = Store::new();
    assert_eq!(handle_request(&mut store, "  SET \t k   a \n b\u{3000}c  "), "OK");
    assert_eq!(handle_request(&mut store, "GET k"), "a b c");
}

#[test]
fn words_after_the_key_of_a_get_are_ignored() {
    let mut store = Store::new();
    assert_eq!(handle_request(&mut store, "SET k v"), "OK");
    assert_eq!(handle_request(&mut store, "GET k and more"), "v");
    assert_eq!(handle_request(&mut store, "GET missing and more"), "Key not found");
}

#[test]
fn a_stored_value_may_look_like_a_reply() {
    let mut store = Store::new();
    assert_eq!(handle_request(&mut store, "SET k Key not found"), "OK");
    assert_eq!(handle_request(&mut store, "GET k"), "Key not found");
}

#[test]
fn undecodable_message_gets_no_reply() {
    let mut store = Store::new();
    assert_eq!(on_message(&mut store, &Ok("SET k v".to_string())), Some("OK".to_string()));
    assert_eq!(on_message(&mut store, &Err(vec![0xff, 0xfe])), None);
    assert_eq!(on_message(&mut store, &Ok("GET k".to_string())), Some("v".to_string()));
}

#[test]
fn parse_needs_a_command_and_a_key() {
    assert_eq!(parse_request(""), None);
    assert_eq!(parse_request("GET"), None);
    assert_eq!(parse_request("GET k"), Some(strings(&["GET", "k"])));
    assert_eq!(parse_request(" a  b c "), Some(strings(&["a", "b", "c"])));
}

#[test]
fn dispatch_on_parsed_words() {
    let mut store = Store::new();
    assert_eq!(dispatch(&mut store, &strings(&["SET", "k", "a", "b"])), "OK");
    assert_eq!(dispatch(&mut store, &strings(&["GET", "k"])), "a b");
    assert_eq!(dispatch(&mut store, &strings(&["SET", "k"])), "Invalid SET format");
    assert_eq!(dispatch(&mut store, &strings(&["NOP", "k"])), "Unknown command");
}

#[test]
fn join_from_a_position() {
    let parts = strings(&["SET", "k", "a", "b", "c"]);
    assert_eq!(join_from(&parts, 2), "a b c");
    assert_eq!(join_from(&parts, 4), "c");
    assert_eq!(join_from(&parts, 5), "");
    assert_eq!(join_from(&parts, 0), "SET k a b c");
}

#[test]
fn split_words_agrees_with_std() {
    for line in [
        "",
        " ",
        "a",
        " a ",
        "SET color blue sky",
        "\tGET\t\tcolor\r\n",
        "a\u{85}b\u{a0}c\u{1680}d\u{2003}e\u{2028}f\u{2029}g\u{202f}h\u{205f}i\u{3000}j",
        "caf\u{e9} na\u{ef}ve \u{1f600} \u{200b}x",
    ] {
        let expected: Vec<String> = line.split_whitespace().map(|w| w.to_string()).collect();
        assert_eq!(split_words(line), expected);
    }
}

#[test]
fn white_space_agrees_with_std_on_every_character() {
    for u in 0..=0x10ffffu32 {
        if let Some(c) = char::from_u32(u) {
            assert_eq!(is_whitespace(c), c.is_whitespace());
        }
    }
}

#[test]
fn store_holds_one_value_per_key() {
    let mut store = Store::new();
    assert_eq!(store.get("a"), None);
    store.insert("a".to_string(), "1".to_string());
    store.insert("b".to_string(), "2".to_string());
    store.insert("a".to_string(), "3".to_string());
    assert_eq!(store.get("a"), Some("3".to_string()));
    assert_eq!(store.get("b"), Some("2".to_string()));
    assert_eq!(store.get("c"), None);
}
