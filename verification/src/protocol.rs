//! The request/reply protocol: one line of words in, one line of text out.
//!
//! A request is `<COMMAND> <KEY> [<VALUE-WORD> ...]`. [`respond`] is the
//! model of the protocol, from a store and the words of a request to the
//! store afterwards and the reply; [`handle_request`] computes it.

use crate::store::Store;
use crate::text::{
    is_word, join_words, lemma_words_are_words, lemma_words_of_join, push_char, split_words,
    texts, words,
};
use vstd::prelude::*;
use vstd::string::StringExecFns;

verus! {

/// The store after a request of words `t`, and the reply to it.
pub open spec fn respond(m: Map<Seq<char>, Seq<char>>, t: Seq<Seq<char>>) -> (
    Map<Seq<char>, Seq<char>>,
    Seq<char>,
) {
    if t.len() < 2 {
        (m, "Invalid request format"@)
    } else if t[0] == "SET"@ {
        if t.len() < 3 {
            (m, "Invalid SET format"@)
        } else {
            (m.insert(t[1], join_words(t.skip(2))), "OK"@)
        }
    } else if t[0] == "GET"@ {
        if m.dom().contains(t[1]) {
            (m, m[t[1]])
        } else {
            (m, "Key not found"@)
        }
    } else {
        (m, "Unknown command"@)
    }
}

/// The words of `parts` from position `from` on, joined with single spaces.
pub fn join_from(parts: &Vec<String>, from: usize) -> (joined: String)
    requires
        from <= parts.len(),
    ensures
        joined@ == join_words(texts(parts@).skip(from as int)),
{
    let ghost ws = texts(parts@).skip(from as int);
    let mut joined = String::new();
    let mut i: usize = from;
    assert(ws.take(0) =~= Seq::<Seq<char>>::empty());
    while i < parts.len()
        invariant
            from <= i <= parts.len(),
            ws == texts(parts@).skip(from as int),
            joined@ == join_words(ws.take(i - from)),
        decreases parts.len() - i,
    {
        let ghost next = ws.take(i - from + 1);
        proof {
            assert(next.drop_last() =~= ws.take(i - from));
            assert(next.last() == parts[i as int]@);
        }
        if i > from {
            push_char(&mut joined, ' ');
        } else {
            assert(joined@ + parts[i as int]@ =~= parts[i as int]@);
        }
        joined.append(parts[i].as_str());
        i += 1;
    }
    assert(ws.take(i - from) =~= ws);
    joined
}

/// The words of a request line, where it has a command and a key.
pub fn parse_request(line: &str) -> (r: Option<Vec<String>>)
    ensures
        match r {
            Some(parts) => texts(parts@) == words(line@) && parts.len() >= 2,
            None => words(line@).len() < 2,
        },
{
    let parts = split_words(line);
    if parts.len() < 2 {
        None
    } else {
        Some(parts)
    }
}

/// Carries out the request of words `parts` on the store and gives the reply.
pub fn dispatch(store: &mut Store, parts: &Vec<String>) -> (response: String)
    requires
        parts.len() >= 2,
    ensures
        (final(store)@, response@) == respond(old(store)@, texts(parts@)),
{
    let ghost t = texts(parts@);
    assert(t[0] == parts[0]@ && t[1] == parts[1]@);
    let set_word = String::from_str("SET");
    let get_word = String::from_str("GET");
    if parts[0] == set_word {
        if parts.len() < 3 {
            String::from_str("Invalid SET format")
        } else {
            let value = join_from(parts, 2);
            store.insert(parts[1].clone(), value);
            String::from_str("OK")
        }
    } else if parts[0] == get_word {
        match store.get(parts[1].as_str()) {
            Some(value) => value,
            None => String::from_str("Key not found"),
        }
    } else {
        String::from_str("Unknown command")
    }
}

/// Answers one request line: splits it into words, carries the request out
/// on the store and gives the reply.
pub fn handle_request(store: &mut Store, line: &str) -> (response: String)
    ensures
        (final(store)@, response@) == respond(old(store)@, words(line@)),
{
    match parse_request(line) {
        Some(parts) => dispatch(store, &parts),
        None => String::from_str("Invalid request format"),
    }
}

/// One turn of the server: a message that was decoded as text is answered;
/// one that could not be decoded is passed over, with no reply and no change.
pub fn on_message(store: &mut Store, message: &Result<String, Vec<u8>>) -> (reply: Option<String>)
    ensures
        match message {
            Ok(line) => reply is Some && (final(store)@, reply->0@) == respond(
                old(store)@,
                words(line@),
            ),
            Err(_) => reply is None && final(store)@ == old(store)@,
        },
{
    match message {
        Ok(line) => Some(handle_request(store, line.as_str())),
        Err(_) => None,
    }
}

/// The two command words are words, and differ.
pub proof fn lemma_command_words()
    ensures
        is_word("SET"@),
        is_word("GET"@),
        "SET"@ != "GET"@,
{
    reveal_strlit("SET");
    reveal_strlit("GET");
    assert("SET"@[0] == 'S');
    assert("GET"@[0] == 'G');
}

/// A value that was set is the value that a later `GET` of its key
/// returns, and setting the key again replaces the value.
pub proof fn lemma_set_then_get(
    m: Map<Seq<char>, Seq<char>>,
    key: Seq<char>,
    value: Seq<Seq<char>>,
    value2: Seq<Seq<char>>,
)
    requires
        value.len() >= 1,
        value2.len() >= 1,
    ensures
        ({
            let (m1, r1) = respond(m, seq!["SET"@, key] + value);
            let (m2, r2) = respond(m1, seq!["GET"@, key]);
            let (m3, r3) = respond(m2, seq!["SET"@, key] + value2);
            let (m4, r4) = respond(m3, seq!["GET"@, key]);
            &&& r1 == "OK"@
            &&& r2 == join_words(value)
            &&& r3 == "OK"@
            &&& r4 == join_words(value2)
        }),
{
    lemma_command_words();
    assert((seq!["SET"@, key] + value).skip(2) =~= value);
    assert((seq!["SET"@, key] + value2).skip(2) =~= value2);
}

/// The same of request lines: after the line `SET <key> <value>`, where
/// the value is words with single spaces between them, the line `GET <key>`
/// is answered with that value.
pub proof fn lemma_set_then_get_lines(
    m: Map<Seq<char>, Seq<char>>,
    key: Seq<char>,
    value: Seq<Seq<char>>,
)
    requires
        is_word(key),
        value.len() >= 1,
        forall|i: int| 0 <= i < value.len() ==> is_word(#[trigger] value[i]),
    ensures
        ({
            let set_line = join_words(seq!["SET"@, key] + value);
            let get_line = join_words(seq!["GET"@, key]);
            let (m1, r1) = respond(m, words(set_line));
            let (m2, r2) = respond(m1, words(get_line));
            &&& r1 == "OK"@
            &&& r2 == join_words(value)
            &&& m2 == m.insert(key, join_words(value))
        }),
{
    lemma_command_words();
    lemma_words_of_join(seq!["SET"@, key] + value);
    lemma_words_of_join(seq!["GET"@, key]);
    assert((seq!["SET"@, key] + value).skip(2) =~= value);
}

/// The keys of the store are words: a request line adds no other key.
pub proof fn lemma_keys_are_words(m: Map<Seq<char>, Seq<char>>, line: Seq<char>)
    requires
        forall|k: Seq<char>| m.dom().contains(k) ==> is_word(k),
    ensures
        forall|k: Seq<char>| respond(m, words(line)).0.dom().contains(k) ==> is_word(k),
{
    lemma_words_are_words(line);
    if words(line).len() >= 2 {
        assert(is_word(words(line)[1]));
    }
}

/// A `GET` of a key that the store does not hold is answered with
/// `Key not found`, whatever follows the key, and changes nothing.
pub proof fn lemma_get_missing(m: Map<Seq<char>, Seq<char>>, key: Seq<char>, extra: Seq<Seq<char>>)
    requires
        !m.dom().contains(key),
    ensures
        respond(m, seq!["GET"@, key] + extra) == (m, "Key not found"@),
{
    lemma_command_words();
}

/// A request of fewer than two words is answered with
/// `Invalid request format` and changes nothing.
pub proof fn lemma_short_request(m: Map<Seq<char>, Seq<char>>, line: Seq<char>)
    requires
        words(line).len() < 2,
    ensures
        respond(m, words(line)) == (m, "Invalid request format"@),
{
}

/// A `SET` with a key and no value is answered with `Invalid SET format`
/// and changes nothing.
pub proof fn lemma_set_without_value(m: Map<Seq<char>, Seq<char>>, key: Seq<char>)
    ensures
        respond(m, seq!["SET"@, key]) == (m, "Invalid SET format"@),
{
}

/// A request whose first word is neither `SET` nor `GET` is answered with
/// `Unknown command` and changes nothing.
pub proof fn lemma_unknown_command(m: Map<Seq<char>, Seq<char>>, t: Seq<Seq<char>>)
    requires
        t.len() >= 2,
        t[0] != "SET"@,
        t[0] != "GET"@,
    ensures
        respond(m, t) == (m, "Unknown command"@),
{
}

} // verus!
