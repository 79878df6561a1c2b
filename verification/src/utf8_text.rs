//! The size of a text in UTF-8, and cutting to a size.

use vstd::prelude::*;
use vstd::utf8::*;
use crate::text::{text_of, to_chars};

verus! {

/// How many bytes a character takes in UTF-8.
pub open spec fn char_width(c: char) -> nat {
    if c as u32 <= 0x7f {
        1
    } else if c as u32 <= 0x7ff {
        2
    } else if c as u32 <= 0xffff {
        3
    } else {
        4
    }
}

/// The longest front part of `s` that takes no more than `limit` bytes in UTF-8.
pub open spec fn cut(s: Seq<char>, limit: nat) -> Seq<char>
    decreases s.len(),
{
    if s.len() == 0 || char_width(s[0]) > limit {
        Seq::empty()
    } else {
        seq![s[0]] + cut(s.drop_first(), (limit - char_width(s[0])) as nat)
    }
}

/// How many bytes a text takes in UTF-8.
pub open spec fn utf8_len(s: Seq<char>) -> nat {
    encode_utf8(s).len()
}

pub proof fn lemma_char_width(c: char)
    ensures
        encode_scalar(c as u32).len() == char_width(c),
{
    char_is_scalar(c);
}

pub proof fn lemma_utf8_len_step(s: Seq<char>)
    requires
        s.len() > 0,
    ensures
        utf8_len(s) == char_width(s[0]) + utf8_len(s.drop_first()),
{
    lemma_char_width(s[0]);
}

/// The UTF-8 form of two texts behind each other.
pub proof fn lemma_encode_concat(a: Seq<char>, b: Seq<char>)
    ensures
        encode_utf8(a + b) == encode_utf8(a) + encode_utf8(b),
    decreases a.len(),
{
    if a.len() == 0 {
        assert(a + b =~= b);
        assert(encode_utf8(a) + encode_utf8(b) =~= encode_utf8(b));
    } else {
        lemma_encode_concat(a.drop_first(), b);
        assert((a + b).drop_first() =~= a.drop_first() + b);
        assert((a + b)[0] == a[0]);
        assert(encode_utf8(a + b) =~= encode_utf8(a) + encode_utf8(b));
    }
}

/// What is cut off is what does not fit: the rest fits, and the next character would not.
pub proof fn lemma_cut(s: Seq<char>, limit: nat)
    ensures
        cut(s, limit).is_prefix_of(s),
        utf8_len(cut(s, limit)) <= limit,
        cut(s, limit).len() < s.len() ==> utf8_len(cut(s, limit)) + char_width(
            s[cut(s, limit).len() as int],
        ) > limit,
        utf8_len(s) <= limit ==> cut(s, limit) == s,
    decreases s.len(),
{
    if s.len() == 0 {
        assert(cut(s, limit) =~= s);
    } else {
        lemma_utf8_len_step(s);
        if char_width(s[0]) <= limit {
            let rest = (limit - char_width(s[0])) as nat;
            let tail = cut(s.drop_first(), rest);
            lemma_cut(s.drop_first(), rest);
            assert(cut(s, limit).drop_first() =~= tail);
            lemma_utf8_len_step(cut(s, limit));
            assert(cut(s, limit) =~= s.take(cut(s, limit).len() as int)) by {
                assert(tail =~= s.drop_first().take(tail.len() as int));
            }
            if tail.len() < s.drop_first().len() {
                assert(s.drop_first()[tail.len() as int] == s[tail.len() as int + 1]);
            }
            if utf8_len(s) <= limit {
                assert(cut(s, limit) =~= s);
            }
        } else {
            assert(cut(s, limit) =~= s.take(0));
        }
    }
}

pub fn width_of(c: char) -> (r: usize)
    ensures
        r == char_width(c),
        1 <= r <= 4,
{
    let code: u32 = c as u32;
    if code <= 0x7f {
        1
    } else if code <= 0x7ff {
        2
    } else if code <= 0xffff {
        3
    } else {
        4
    }
}

/// The longest front part of `s` that takes no more than `limit` bytes.
pub fn cut_text(s: &str, limit: usize) -> (r: String)
    ensures
        r@ == cut(s@, limit as nat),
{
    let chars: Vec<char> = to_chars(s);
    let mut room: usize = limit;
    let mut i: usize = 0;
    assert(s@.subrange(0, s@.len() as int) =~= s@);
    assert(s@.take(0) + cut(s@, limit as nat) =~= cut(s@, limit as nat));
    while i < chars.len() && width_of(chars[i]) <= room
        invariant
            chars@ == s@,
            i <= s@.len(),
            room <= limit,
            cut(s@, limit as nat) == s@.take(i as int) + cut(
                s@.subrange(i as int, s@.len() as int),
                room as nat,
            ),
        decreases s@.len() - i,
    {
        let ghost rest = s@.subrange(i as int, s@.len() as int);
        room = room - width_of(chars[i]);
        proof {
            assert(rest.drop_first() =~= s@.subrange(i + 1, s@.len() as int));
            assert(s@.take(i + 1) =~= s@.take(i as int).push(rest[0]));
            assert(s@.take(i as int) + (seq![rest[0]] + cut(rest.drop_first(), room as nat))
                =~= s@.take(i + 1) + cut(rest.drop_first(), room as nat));
        }
        i = i + 1;
    }
    assert(s@.take(i as int) + Seq::<char>::empty() =~= s@.take(i as int));
    assert(s@.subrange(0, i as int) =~= s@.take(i as int));
    text_of(&chars, 0, i)
}

} // verus!
