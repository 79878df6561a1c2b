//! Texts of errors without what differs from one occurrence to the next.

use vstd::prelude::*;
use vstd::string::*;
use vstd::utf8::encode_utf8;
use crate::cutting::{is_whitespace, join, join_texts, whitespace};
use crate::digest::{fnv1a, fnv1a64, FNV_OFFSET};
use crate::text::{copy_text, text_of, texts_view, to_chars};

verus! {

/// The pieces between whitespace, none of them empty.
pub open spec fn words(s: Seq<char>) -> Seq<Seq<char>>
    decreases s.len(),
{
    if s.len() == 0 {
        Seq::empty()
    } else {
        let front = words(s.drop_last());
        if is_whitespace(s.last()) {
            front
        } else if s.len() == 1 || is_whitespace(s[s.len() - 2]) {
            front.push(seq![s.last()])
        } else {
            front.update(front.len() - 1, front.last().push(s.last()))
        }
    }
}

pub fn split_words(s: &str) -> (r: Vec<String>)
    ensures
        texts_view(r@) == words(s@),
{
    let chars: Vec<char> = to_chars(s);
    let mut out: Vec<String> = Vec::new();
    let mut piece: String = String::new();
    let mut inside: bool = false;
    let mut i: usize = 0;
    assert(texts_view(out@) =~= Seq::<Seq<char>>::empty());
    assert(s@.take(0) =~= Seq::<char>::empty());
    while i < chars.len()
        invariant
            chars@ == s@,
            i <= s@.len(),
            inside == (i > 0 && !is_whitespace(s@[i - 1])),
            inside ==> words(s@.take(i as int)) == texts_view(out@).push(piece@),
            !inside ==> words(s@.take(i as int)) == texts_view(out@) && piece@
                == Seq::<char>::empty(),
        decreases s@.len() - i,
    {
        let c: char = chars[i];
        let ghost front = s@.take(i as int);
        let ghost had = texts_view(out@);
        proof {
            assert(s@.take(i + 1).drop_last() =~= front);
            assert(s@.take(i + 1).last() == c);
            if i > 0 {
                assert(s@.take(i + 1)[i - 1] == s@[i - 1]);
            }
        }
        if whitespace(c) {
            if inside {
                let ghost last = piece@;
                out.push(piece);
                assert(texts_view(out@) =~= had.push(last));
                piece = String::new();
                assert(piece@ =~= Seq::<char>::empty());
            }
            inside = false;
        } else {
            let ghost last = piece@;
            piece.push(c);
            proof {
                if inside {
                    assert(had.push(last).update(had.len() as int, last.push(c)) =~= had.push(
                        last.push(c),
                    ));
                } else {
                    assert(piece@ =~= seq![c]);
                }
            }
            inside = true;
        }
        i = i + 1;
    }
    assert(s@.take(s@.len() as int) =~= s@);
    if inside {
        let ghost had = texts_view(out@);
        let ghost last = piece@;
        out.push(piece);
        assert(texts_view(out@) =~= had.push(last));
    }
    out
}

pub open spec fn is_punctuation(c: char) -> bool {
    let n = c as u32;
    33 <= n <= 47 || 58 <= n <= 64 || 91 <= n <= 96 || 123 <= n <= 126
}

fn punctuation(c: char) -> (r: bool)
    ensures
        r == is_punctuation(c),
{
    let n: u32 = c as u32;
    (33 <= n && n <= 47) || (58 <= n && n <= 64) || (91 <= n && n <= 96) || (123 <= n && n <= 126)
}

/// How many characters of punctuation a text starts with.
pub open spec fn leading_punctuation(s: Seq<char>) -> nat
    decreases s.len(),
{
    if s.len() > 0 && is_punctuation(s[0]) {
        1 + leading_punctuation(s.drop_first())
    } else {
        0
    }
}

/// Where the punctuation at the end of a text starts.
pub open spec fn trailing_punctuation(s: Seq<char>) -> nat
    decreases s.len(),
{
    if s.len() > 0 && is_punctuation(s.last()) {
        trailing_punctuation(s.drop_last())
    } else {
        s.len()
    }
}

/// Where the core of a token, which is what is left without the punctuation at both ends, starts
/// and ends.
pub open spec fn core_bounds(token: Seq<char>) -> (int, int) {
    let from = leading_punctuation(token) as int;
    (from, from + trailing_punctuation(token.skip(from)))
}

pub open spec fn core_of(token: Seq<char>) -> Seq<char> {
    token.subrange(core_bounds(token).0, core_bounds(token).1)
}

pub open spec fn is_hex_byte(b: u8) -> bool {
    48 <= b <= 57 || 65 <= b <= 70 || 97 <= b <= 102
}

pub open spec fn is_letter_byte(b: u8) -> bool {
    65 <= b <= 90 || 97 <= b <= 122
}

/// A date, and a time behind it.
pub open spec fn is_timestamp(bytes: Seq<u8>) -> bool {
    bytes.len() >= 20 && bytes[4] == 45 && bytes[7] == 45 && (bytes[10] == 84 || bytes[10] == 116
        || bytes[10] == 32)
}

/// Seven to sixty-four hexadecimal digits, one of them a letter.
pub open spec fn is_sha(bytes: Seq<u8>) -> bool {
    &&& 7 <= bytes.len() <= 64
    &&& forall|i: int| 0 <= i < bytes.len() ==> is_hex_byte(#[trigger] bytes[i])
    &&& exists|i: int| 0 <= i < bytes.len() && is_letter_byte(#[trigger] bytes[i])
}

/// Ten digits or more.
pub open spec fn is_epoch_number(bytes: Seq<u8>) -> bool {
    bytes.len() >= 10 && forall|i: int| 0 <= i < bytes.len() ==> 48 <= #[trigger] bytes[i] <= 57
}

/// What stands for a text that differs from one occurrence to the next.
pub open spec fn mark_of(middle: Seq<char>) -> Option<Seq<char>> {
    let bytes = encode_utf8(middle);
    if is_timestamp(bytes) {
        Some("<timestamp>"@)
    } else if is_sha(bytes) {
        Some("<sha>"@)
    } else if is_epoch_number(bytes) {
        Some("<number>"@)
    } else {
        None
    }
}

/// A token with a mark in place of its core, where there is one.
pub open spec fn normalized_token(token: Seq<char>) -> Seq<char> {
    match mark_of(core_of(token)) {
        Some(mark) => token.take(core_bounds(token).0) + mark + token.skip(core_bounds(token).1),
        None => token,
    }
}

pub open spec fn normalized_words(tokens: Seq<Seq<char>>) -> Seq<Seq<char>> {
    Seq::new(tokens.len(), |i: int| normalized_token(tokens[i]))
}

/// The text of an error without what differs from one occurrence to the next.
pub open spec fn normalized(raw: Seq<char>) -> Seq<char> {
    join(normalized_words(words(raw)), " "@)
}

fn looks_like_rfc3339_timestamp(bytes: &[u8]) -> (r: bool)
    ensures
        r == is_timestamp(bytes@),
{
    bytes.len() >= 20 && bytes[4] == 45 && bytes[7] == 45 && (bytes[10] == 84 || bytes[10] == 116
        || bytes[10] == 32)
}

fn looks_like_sha(bytes: &[u8]) -> (r: bool)
    ensures
        r == is_sha(bytes@),
{
    if bytes.len() < 7 || bytes.len() > 64 {
        return false;
    }
    let mut letter: bool = false;
    let mut i: usize = 0;
    while i < bytes.len()
        invariant
            i <= bytes@.len(),
            forall|j: int| 0 <= j < i ==> is_hex_byte(#[trigger] bytes@[j]),
            letter == exists|j: int| 0 <= j < i && is_letter_byte(#[trigger] bytes@[j]),
        decreases bytes@.len() - i,
    {
        let b: u8 = bytes[i];
        if !((48 <= b && b <= 57) || (65 <= b && b <= 70) || (97 <= b && b <= 102)) {
            assert(!is_hex_byte(bytes@[i as int]));
            return false;
        }
        let is_letter: bool = (65 <= b && b <= 90) || (97 <= b && b <= 122);
        proof {
            assert(is_letter == is_letter_byte(bytes@[i as int]));
            if letter {
                let j = choose|j: int| 0 <= j < i && is_letter_byte(#[trigger] bytes@[j]);
                assert(0 <= j < i + 1 && is_letter_byte(bytes@[j]));
            }
        }
        letter = letter || is_letter;
        i = i + 1;
    }
    letter
}

fn looks_like_epoch_number(bytes: &[u8]) -> (r: bool)
    ensures
        r == is_epoch_number(bytes@),
{
    if bytes.len() < 10 {
        return false;
    }
    let mut i: usize = 0;
    while i < bytes.len()
        invariant
            i <= bytes@.len(),
            forall|j: int| 0 <= j < i ==> 48 <= #[trigger] bytes@[j] <= 57,
        decreases bytes@.len() - i,
    {
        let b: u8 = bytes[i];
        if b < 48 || b > 57 {
            assert(!(48 <= bytes@[i as int] <= 57));
            return false;
        }
        i = i + 1;
    }
    true
}


/// A token with a mark in place of its core, where there is one.
pub fn normalize_token(token: &str) -> (r: String)
    ensures
        r@ == normalized_token(token@),
{
    let chars: Vec<char> = to_chars(token);
    let len: usize = chars.len();
    let mut from: usize = 0;
    assert(token@.skip(0) =~= token@);
    while from < len && punctuation(chars[from])
        invariant
            chars@ == token@,
            len == chars@.len(),
            from <= len,
            leading_punctuation(token@) == from + leading_punctuation(token@.skip(from as int)),
        decreases len - from,
    {
        assert(token@.skip(from as int).drop_first() =~= token@.skip(from + 1));
        from = from + 1;
    }
    let ghost tail = token@.skip(from as int);
    let mut to: usize = len;
    assert(tail.take(tail.len() as int) =~= tail);
    while from < to && punctuation(chars[to - 1])
        invariant
            chars@ == token@,
            len == chars@.len(),
            from <= to <= len,
            tail == token@.skip(from as int),
            trailing_punctuation(tail) == trailing_punctuation(tail.take(to - from)),
        decreases to,
    {
        assert(tail.take(to - from).last() == token@[to - 1]);
        assert(tail.take(to - from).drop_last() =~= tail.take(to - from - 1));
        to = to - 1;
    }
    proof {
        if to > from {
            assert(tail.take(to - from).last() == token@[to - 1]);
        }
        assert(core_bounds(token@) == (from as int, to as int));
    }
    let middle: String = text_of(&chars, from, to);
    assert(middle@ =~= core_of(token@));
    let bytes: &[u8] = middle.as_str().as_bytes();
    let mark: &str = if looks_like_rfc3339_timestamp(bytes) {
        "<timestamp>"
    } else if looks_like_sha(bytes) {
        "<sha>"
    } else if looks_like_epoch_number(bytes) {
        "<number>"
    } else {
        return copy_text(token);
    };
    let mut out: String = text_of(&chars, 0, from);
    assert(out@ =~= token@.take(from as int));
    out.append(mark);
    let rest: String = text_of(&chars, to, len);
    assert(rest@ =~= token@.skip(to as int));
    out.append(rest.as_str());
    out
}

/// The text of an error without what differs from one occurrence to the next.
pub fn normalize_for_fingerprint(raw: &str) -> (r: String)
    ensures
        r@ == normalized(raw@),
{
    let tokens: Vec<String> = split_words(raw);
    let ghost views = texts_view(tokens@);
    let mut out: Vec<String> = Vec::new();
    let mut i: usize = 0;
    while i < tokens.len()
        invariant
            views == texts_view(tokens@),
            i <= tokens@.len(),
            out@.len() == i,
            forall|k: int| 0 <= k < i ==> (#[trigger] out@[k])@ == normalized_token(views[k]),
        decreases tokens@.len() - i,
    {
        out.push(normalize_token(tokens[i].as_str()));
        i = i + 1;
    }
    assert(texts_view(out@) =~= normalized_words(views));
    join_texts(&out, " ")
}

/// The hash of the text of an error without what differs from one occurrence to the next.
pub open spec fn normalized_hash(raw: Seq<char>) -> u64 {
    fnv1a(FNV_OFFSET, encode_utf8(normalized(raw)))
}

pub fn hash_normalized(raw: &str) -> (r: u64)
    ensures
        r == normalized_hash(raw@),
{
    let text: String = normalize_for_fingerprint(raw);
    fnv1a64(FNV_OFFSET, text.as_str().as_bytes())
}

/// Two texts that differ in timestamps, digests and long numbers alone have one hash.
pub proof fn law_marks_hide_the_difference(a: Seq<char>, b: Seq<char>)
    requires
        words(a).len() == words(b).len(),
        forall|i: int|
            0 <= i < words(a).len() ==> #[trigger] words(a)[i] == words(b)[i] || (mark_of(
                core_of(words(a)[i]),
            ) is Some && mark_of(core_of(words(a)[i])) == mark_of(core_of(words(b)[i]))
                && words(a)[i].take(core_bounds(words(a)[i]).0) == words(b)[i].take(
                core_bounds(words(b)[i]).0,
            ) && words(a)[i].skip(core_bounds(words(a)[i]).1) == words(b)[i].skip(
                core_bounds(words(b)[i]).1,
            )),
    ensures
        normalized_hash(a) == normalized_hash(b),
{
    assert(normalized_words(words(a)) =~= normalized_words(words(b)));
}

} // verus!
