//! The lines that the server writes to its log: one when it starts, one for
//! each request that it answered.

use crate::text::{push_char, split_words, texts, words};
use crate::timestamp::{decimal, push_decimal};
use vstd::prelude::*;
use vstd::string::StringExecFns;

verus! {

/// The word at position `i`, or the empty text where there is none.
pub open spec fn word_at(ws: Seq<Seq<char>>, i: int) -> Seq<char> {
    if 0 <= i < ws.len() {
        ws[i]
    } else {
        Seq::empty()
    }
}

/// The line written when the server has started.
pub open spec fn banner_text(timestamp: Seq<char>) -> Seq<char> {
    timestamp + " - Server started"@
}

/// The line written for the request `line`: the command and the key, as
/// far as the request has them, and the time that answering it took.
pub open spec fn request_log_text(
    timestamp: Seq<char>,
    line: Seq<char>,
    elapsed_micros: nat,
) -> Seq<char> {
    let ws = words(line);
    timestamp + " - Processed request: "@ + word_at(ws, 0) + seq![' '] + word_at(ws, 1) + " ("@
        + decimal(elapsed_micros) + "µs)"@
}

/// The line to write when the server has started at `timestamp`.
pub fn banner_line(timestamp: &str) -> (text: String)
    ensures
        text@ == banner_text(timestamp@),
{
    let mut text = String::from_str(timestamp);
    text.append(" - Server started");
    text
}

/// The line to write at `timestamp` for the request `line`, answered in
/// `elapsed_micros` microseconds.
pub fn request_log_line(timestamp: &str, line: &str, elapsed_micros: u64) -> (text: String)
    ensures
        text@ == request_log_text(timestamp@, line@, elapsed_micros as nat),
{
    let parts = split_words(line);
    let ghost ws = texts(parts@);
    let mut text = String::from_str(timestamp);
    text.append(" - Processed request: ");
    if parts.len() > 0 {
        text.append(parts[0].as_str());
    }
    assert(text@ =~= timestamp@ + " - Processed request: "@ + word_at(ws, 0));
    push_char(&mut text, ' ');
    if parts.len() > 1 {
        text.append(parts[1].as_str());
    }
    assert(text@ =~= timestamp@ + " - Processed request: "@ + word_at(ws, 0) + seq![' '] + word_at(
        ws,
        1,
    ));
    text.append(" (");
    push_decimal(&mut text, elapsed_micros);
    text.append("µs)");
    text
}

} // verus!
