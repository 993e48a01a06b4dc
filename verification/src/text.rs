//! Splitting a line into whitespace-delimited words and joining words with
//! single spaces.

use vstd::prelude::*;
use vstd::std_specs::iter::IteratorSpec;

verus! {

/// The characters that separate words: those with the Unicode property
/// `White_Space`.
pub open spec fn is_space(c: char) -> bool {
    let u = c as u32;
    (0x09 <= u <= 0x0D) || u == 0x20 || u == 0x85 || u == 0xA0 || u == 0x1680 || (0x2000 <= u
        <= 0x200A) || u == 0x2028 || u == 0x2029 || u == 0x202F || u == 0x205F || u == 0x3000
}

/// A word: at least one character, none of them white space.
pub open spec fn is_word(w: Seq<char>) -> bool {
    w.len() > 0 && forall|i: int| 0 <= i < w.len() ==> !is_space(#[trigger] w[i])
}

/// Length of the longest prefix of `s` that holds no white space.
pub open spec fn word_len(s: Seq<char>) -> nat
    decreases s.len(),
{
    if s.len() == 0 || is_space(s[0]) {
        0
    } else {
        1 + word_len(s.drop_first())
    }
}

/// The first word of a text is no longer than the text, and not empty
/// where the text starts with a character of a word.
pub proof fn lemma_word_len_bound(s: Seq<char>)
    ensures
        word_len(s) <= s.len(),
        s.len() > 0 && !is_space(s[0]) ==> word_len(s) >= 1,
    decreases s.len(),
{
    if s.len() > 0 && !is_space(s[0]) {
        lemma_word_len_bound(s.drop_first());
    }
}

/// The maximal runs of characters other than white space in `s`, in order.
pub open spec fn words(s: Seq<char>) -> Seq<Seq<char>>
    decreases s.len(),
    via words_decreases
{
    if s.len() == 0 {
        Seq::empty()
    } else if is_space(s[0]) {
        words(s.drop_first())
    } else {
        let n = word_len(s) as int;
        seq![s.take(n)] + words(s.skip(n))
    }
}

#[via_fn]
proof fn words_decreases(s: Seq<char>) {
    lemma_word_len_bound(s);
}

/// The words joined into one text, a single space between neighbours.
pub open spec fn join_words(ws: Seq<Seq<char>>) -> Seq<char>
    decreases ws.len(),
{
    if ws.len() == 0 {
        Seq::empty()
    } else if ws.len() == 1 {
        ws[0]
    } else {
        join_words(ws.drop_last()).push(' ') + ws.last()
    }
}

/// The texts of a sequence of strings.
pub open spec fn texts(v: Seq<String>) -> Seq<Seq<char>> {
    Seq::new(v.len(), |i: int| v[i]@)
}

/// A run without white space that ends at white space, or at the end of the
/// text, is as long as the word that starts the text.
pub proof fn lemma_word_len(w: Seq<char>, rest: Seq<char>)
    requires
        forall|i: int| 0 <= i < w.len() ==> !is_space(#[trigger] w[i]),
        rest.len() == 0 || is_space(rest[0]),
    ensures
        word_len(w + rest) == w.len(),
    decreases w.len(),
{
    if w.len() > 0 {
        assert((w + rest).drop_first() =~= w.drop_first() + rest);
        assert forall|i: int| 0 <= i < w.drop_first().len() implies !is_space(
            #[trigger] w.drop_first()[i],
        ) by {
            assert(w.drop_first()[i] == w[i + 1]);
        }
        lemma_word_len(w.drop_first(), rest);
    } else {
        assert(w + rest =~= rest);
    }
}

/// A word in front of white space, or of the end of the text, is the first
/// word of the text.
pub proof fn lemma_first_word(w: Seq<char>, rest: Seq<char>)
    requires
        is_word(w),
        rest.len() == 0 || is_space(rest[0]),
    ensures
        words(w + rest) == seq![w] + words(rest),
{
    lemma_word_len(w, rest);
    let s = w + rest;
    assert(s[0] == w[0]);
    assert(s.take(w.len() as int) =~= w);
    assert(s.skip(w.len() as int) =~= rest);
}

/// The first word of a text holds no white space.
pub proof fn lemma_word_prefix(s: Seq<char>)
    ensures
        forall|i: int| 0 <= i < word_len(s) ==> !is_space(#[trigger] s[i]),
    decreases s.len(),
{
    if s.len() > 0 && !is_space(s[0]) {
        lemma_word_len_bound(s);
        lemma_word_prefix(s.drop_first());
        assert forall|i: int| 0 <= i < word_len(s) implies !is_space(#[trigger] s[i]) by {
            if i > 0 {
                assert(s[i] == s.drop_first()[i - 1]);
            }
        }
    }
}

/// What a text is split into are words.
pub proof fn lemma_words_are_words(s: Seq<char>)
    ensures
        forall|i: int| 0 <= i < words(s).len() ==> is_word(#[trigger] words(s)[i]),
    decreases s.len(),
{
    if s.len() == 0 {
        assert(words(s).len() == 0);
    } else if is_space(s[0]) {
        lemma_words_are_words(s.drop_first());
        assert(words(s) == words(s.drop_first()));
    } else {
        lemma_word_len_bound(s);
        lemma_word_prefix(s);
        let n = word_len(s) as int;
        lemma_words_are_words(s.skip(n));
        assert(is_word(s.take(n)));
        assert(words(s) == seq![s.take(n)] + words(s.skip(n)));
        assert forall|i: int| 0 <= i < words(s).len() implies is_word(#[trigger] words(s)[i]) by {
            if i > 0 {
                assert(words(s)[i] == words(s.skip(n))[i - 1]);
            } else {
                assert(words(s)[0] == s.take(n));
            }
        }
    }
}

/// Joining two or more words puts the first word and a space in front of
/// the others joined.
pub proof fn lemma_join_front(ws: Seq<Seq<char>>)
    requires
        ws.len() >= 2,
    ensures
        join_words(ws) == ws[0].push(' ') + join_words(ws.drop_first()),
    decreases ws.len(),
{
    let tail = ws.drop_first();
    if ws.len() == 2 {
        assert(ws.drop_last().len() == 1);
        assert(join_words(ws.drop_last()) == ws[0]);
        assert(join_words(tail) == ws[1]);
    } else {
        let head = ws.drop_last();
        lemma_join_front(head);
        assert(head.drop_first() =~= tail.drop_last());
        assert(tail.last() == ws.last());
        assert((ws[0].push(' ') + join_words(tail.drop_last())).push(' ') + ws.last() =~= ws[0].push(
            ' ',
        ) + (join_words(tail.drop_last()).push(' ') + ws.last()));
    }
}

/// Splitting what was joined from words gives the words back.
pub proof fn lemma_words_of_join(ws: Seq<Seq<char>>)
    requires
        forall|i: int| 0 <= i < ws.len() ==> is_word(#[trigger] ws[i]),
    ensures
        words(join_words(ws)) == ws,
    decreases ws.len(),
{
    let nothing = Seq::<char>::empty();
    if ws.len() == 0 {
        assert(words(nothing) =~= ws);
    } else if ws.len() == 1 {
        lemma_first_word(ws[0], nothing);
        assert(ws[0] + nothing =~= ws[0]);
        assert(seq![ws[0]] + words(nothing) =~= ws);
    } else {
        let tail = ws.drop_first();
        let joined_tail = join_words(tail);
        let rest = seq![' '] + joined_tail;
        lemma_join_front(ws);
        assert(join_words(ws) =~= ws[0] + rest);
        assert(is_space(rest[0]));
        lemma_first_word(ws[0], rest);
        assert(rest.drop_first() =~= joined_tail);
        assert(words(rest) == words(joined_tail));
        assert forall|i: int| 0 <= i < tail.len() implies is_word(#[trigger] tail[i]) by {
            assert(tail[i] == ws[i + 1]);
        }
        lemma_words_of_join(tail);
        assert(seq![ws[0]] + tail =~= ws);
    }
}

/// `String::push`: appends one character to the end of the string.
#[verifier::external_body]
pub(crate) fn push_char(out: &mut String, c: char)
    ensures
        final(out)@ == old(out)@.push(c),
{
    out.push(c);
}

/// Whether `c` separates words.
pub fn is_whitespace(c: char) -> (r: bool)
    ensures
        r == is_space(c),
{
    let u: u32 = c as u32;
    (0x09 <= u && u <= 0x0D) || u == 0x20 || u == 0x85 || u == 0xA0 || u == 0x1680 || (0x2000 <= u
        && u <= 0x200A) || u == 0x2028 || u == 0x2029 || u == 0x202F || u == 0x205F || u == 0x3000
}

/// Splits `line` into its words.
pub fn split_words(line: &str) -> (out: Vec<String>)
    ensures
        texts(out@) == words(line@),
{
    broadcast use vstd::string::group_string_axioms;

    let mut out: Vec<String> = Vec::new();
    let mut cur: String = String::new();
    let mut in_word: bool = false;
    let mut it = line.chars();
    let ghost mut rest: Seq<char> = line@;
    assert(cur@ + rest =~= rest);
    loop
        invariant
            it.remaining() == rest,
            it.decrease() is Some,
            in_word == (cur@.len() > 0),
            forall|i: int| 0 <= i < cur@.len() ==> !is_space(#[trigger] cur@[i]),
            words(line@) == texts(out@) + words(cur@ + rest),
            cur@.len() == 0 ==> words(line@) == texts(out@) + words(rest),
        ensures
            rest.len() == 0,
        decreases rest.len(),
    {
        let ghost before = it;
        match it.next() {
            Some(c) => {
                proof {
                    assert(rest.len() > 0 && c == rest[0]);
                }
                if is_whitespace(c) {
                    if in_word {
                        proof {
                            lemma_first_word(cur@, rest);
                            assert(texts(out@.push(cur)) =~= texts(out@) + seq![cur@]);
                        }
                        out.push(cur);
                        cur = String::new();
                        in_word = false;
                    }
                    proof {
                        rest = rest.drop_first();
                        assert(cur@ + rest =~= rest);
                    }
                } else {
                    proof {
                        assert(cur@.push(c) + rest.drop_first() =~= cur@ + rest);
                        rest = rest.drop_first();
                    }
                    push_char(&mut cur, c);
                    in_word = true;
                }
            },
            None => {
                assert(rest.len() == 0);
                break ;
            },
        }
    }
    if in_word {
        proof {
            lemma_first_word(cur@, rest);
            assert(texts(out@.push(cur)) =~= texts(out@) + seq![cur@]);
        }
        out.push(cur);
    }
    out
}

} // verus!
