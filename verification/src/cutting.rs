//! Trimming, splitting and joining texts.

use vstd::prelude::*;
use crate::text::{text_of, texts_view, to_chars};
use vstd::string::*;

verus! {

/// The characters with the Unicode property `White_Space`.
pub open spec fn is_whitespace(c: char) -> bool {
    let n = c as u32;
    ||| 9 <= n <= 13
    ||| n == 0x20
    ||| n == 0x85
    ||| n == 0xa0
    ||| n == 0x1680
    ||| 0x2000 <= n <= 0x200a
    ||| n == 0x2028
    ||| n == 0x2029
    ||| n == 0x202f
    ||| n == 0x205f
    ||| n == 0x3000
}

pub fn whitespace(c: char) -> (r: bool)
    ensures
        r == is_whitespace(c),
{
    let n: u32 = c as u32;
    (9 <= n && n <= 13) || n == 0x20 || n == 0x85 || n == 0xa0 || n == 0x1680 || (0x2000 <= n && n
        <= 0x200a) || n == 0x2028 || n == 0x2029 || n == 0x202f || n == 0x205f || n == 0x3000
}

/// Where the text behind the leading whitespace starts.
pub open spec fn trim_start_at(s: Seq<char>) -> nat
    decreases s.len(),
{
    if s.len() > 0 && is_whitespace(s[0]) {
        1 + trim_start_at(s.drop_first())
    } else {
        0
    }
}

/// Where the text before the trailing whitespace ends.
pub open spec fn trim_end_at(s: Seq<char>) -> nat
    decreases s.len(),
{
    if s.len() > 0 && is_whitespace(s.last()) {
        trim_end_at(s.drop_last())
    } else {
        s.len()
    }
}

/// A text without the whitespace at both ends.
pub open spec fn trimmed(s: Seq<char>) -> Seq<char> {
    let tail = s.subrange(trim_start_at(s) as int, s.len() as int);
    tail.take(trim_end_at(tail) as int)
}

proof fn lemma_trim_bounds(s: Seq<char>)
    ensures
        trim_start_at(s) <= s.len(),
        trim_end_at(s) <= s.len(),
    decreases s.len(),
{
    if s.len() > 0 {
        lemma_trim_bounds(s.drop_first());
        lemma_trim_bounds(s.drop_last());
    }
}

/// A text without the whitespace at both ends.
pub fn trim_text(s: &str) -> (r: String)
    ensures
        r@ == trimmed(s@),
{
    let chars: Vec<char> = to_chars(s);
    let mut from: usize = 0;
    assert(s@.subrange(0, s@.len() as int) =~= s@);
    while from < chars.len() && whitespace(chars[from])
        invariant
            chars@ == s@,
            from <= s@.len(),
            trim_start_at(s@) == from + trim_start_at(s@.subrange(from as int, s@.len() as int)),
        decreases s@.len() - from,
    {
        assert(s@.subrange(from as int, s@.len() as int).drop_first() =~= s@.subrange(
            from + 1,
            s@.len() as int,
        ));
        from = from + 1;
    }
    let ghost tail = s@.subrange(from as int, s@.len() as int);
    let mut to: usize = chars.len();
    assert(tail.take(tail.len() as int) =~= tail);
    while from < to && whitespace(chars[to - 1])
        invariant
            chars@ == s@,
            from <= to <= s@.len(),
            tail == s@.subrange(from as int, s@.len() as int),
            trim_end_at(tail) == trim_end_at(tail.take(to - from)),
        decreases to,
    {
        assert(tail.take(to - from).last() == s@[to - 1]);
        assert(tail.take(to - from).drop_last() =~= tail.take(to - from - 1));
        to = to - 1;
    }
    proof {
        if to > from {
            assert(tail.take(to - from).last() == s@[to - 1]);
        }
        assert(tail.take(to - from) =~= s@.subrange(from as int, to as int));
    }
    text_of(&chars, from, to)
}

/// The pieces of a text between the separators.
pub open spec fn split(s: Seq<char>, separator: char) -> Seq<Seq<char>>
    decreases s.len(),
{
    if s.len() == 0 {
        seq![Seq::empty()]
    } else {
        let front = split(s.drop_last(), separator);
        if s.last() == separator {
            front.push(Seq::empty())
        } else {
            front.update(front.len() - 1, front.last().push(s.last()))
        }
    }
}

/// The pieces behind each other, with a separator between them.
pub open spec fn join(parts: Seq<Seq<char>>, separator: Seq<char>) -> Seq<char>
    decreases parts.len(),
{
    if parts.len() == 0 {
        Seq::empty()
    } else if parts.len() == 1 {
        parts[0]
    } else {
        join(parts.drop_last(), separator) + separator + parts.last()
    }
}

pub proof fn lemma_split(s: Seq<char>, separator: char)
    ensures
        split(s, separator).len() >= 1,
        forall|i: int, j: int|
            0 <= i < split(s, separator).len() && 0 <= j < split(s, separator)[i].len()
                ==> #[trigger] split(s, separator)[i][j] != separator,
    decreases s.len(),
{
    if s.len() > 0 {
        lemma_split(s.drop_last(), separator);
        let front = split(s.drop_last(), separator);
        let whole = split(s, separator);
        assert forall|i: int, j: int| 0 <= i < whole.len() && 0 <= j < whole[i].len() implies
            #[trigger] whole[i][j] != separator by {
            if i < front.len() - 1 {
                assert(whole[i] == front[i]);
                assert(front[i][j] != separator);
            } else if s.last() == separator {
                if i < front.len() {
                    assert(front[i][j] != separator);
                }
            } else {
                assert(whole[i] == front.last().push(s.last()));
                if j < front.last().len() {
                    assert(front[i][j] != separator);
                }
            }
        }
    }
}

/// The pieces joined again are the text.
pub proof fn law_join_split(s: Seq<char>, separator: char)
    ensures
        join(split(s, separator), seq![separator]) == s,
    decreases s.len(),
{
    if s.len() == 0 {
        assert(split(s, separator)[0] =~= s);
    } else {
        let front = split(s.drop_last(), separator);
        lemma_split(s.drop_last(), separator);
        law_join_split(s.drop_last(), separator);
        let whole = split(s, separator);
        if s.last() == separator {
            assert(whole.drop_last() =~= front);
            assert(join(whole, seq![separator]) =~= s);
        } else {
            assert(whole.drop_last() =~= front.drop_last());
            assert(whole.last() =~= front.last().push(s.last()));
            assert(s =~= s.drop_last().push(s.last()));
            if front.len() == 1 {
                assert(join(whole, seq![separator]) =~= s);
            } else {
                assert(join(front, seq![separator]) == join(front.drop_last(), seq![separator])
                    + seq![separator] + front.last());
                assert(join(whole, seq![separator]) =~= s);
            }
        }
    }
}

/// The pieces of a text between the separators.
pub fn split_text(s: &str, separator: char) -> (r: Vec<String>)
    ensures
        texts_view(r@) == split(s@, separator),
        r@.len() >= 1,
{
    let chars: Vec<char> = to_chars(s);
    let mut out: Vec<String> = Vec::new();
    let mut piece: String = String::new();
    let mut i: usize = 0;
    assert(texts_view(out@).push(piece@) =~= split(s@.take(0), separator));
    while i < chars.len()
        invariant
            chars@ == s@,
            i <= s@.len(),
            texts_view(out@).push(piece@) == split(s@.take(i as int), separator),
        decreases s@.len() - i,
    {
        let c: char = chars[i];
        let ghost old_out = texts_view(out@);
        let ghost old_piece = piece@;
        proof {
            assert(s@.take(i + 1).drop_last() =~= s@.take(i as int));
            assert(s@.take(i + 1).last() == c);
        }
        if c == separator {
            let ghost held = out@;
            out.push(piece);
            piece = String::new();
            assert(texts_view(out@) =~= old_out.push(old_piece));
        } else {
            piece.push(c);
            assert(old_out.push(old_piece).update(
                old_out.push(old_piece).len() - 1,
                old_out.push(old_piece).last().push(c),
            ) =~= old_out.push(piece@));
        }
        i = i + 1;
    }
    assert(s@.take(s@.len() as int) =~= s@);
    let ghost before = texts_view(out@);
    let ghost last = piece@;
    out.push(piece);
    assert(texts_view(out@) =~= before.push(last));
    out
}

/// What is behind the last separator grows by what has none in it.
proof fn lemma_split_grows(a: Seq<char>, b: Seq<char>, separator: char)
    requires
        forall|i: int| 0 <= i < b.len() ==> #[trigger] b[i] != separator,
    ensures
        split(a + b, separator) == split(a, separator).update(
            split(a, separator).len() - 1,
            split(a, separator).last() + b,
        ),
    decreases b.len(),
{
    lemma_split(a, separator);
    let parts = split(a, separator);
    let last = parts.len() - 1;
    if b.len() == 0 {
        assert(a + b =~= a);
        assert(parts.last() + b =~= parts.last());
        assert(parts.update(last, parts.last() + b) =~= parts);
    } else {
        let front = b.drop_last();
        assert forall|i: int| 0 <= i < front.len() implies #[trigger] front[i] != separator by {
            assert(front[i] == b[i]);
        }
        lemma_split_grows(a, front, separator);
        assert((a + b).drop_last() =~= a + front);
        assert((a + b).last() == b[b.len() - 1]);
        assert((parts.last() + front).push(b.last()) =~= parts.last() + b);
        assert(split(a + b, separator) =~= parts.update(last, parts.last() + b));
    }
}

/// What stands in front of the last separator stays when more comes behind it.
proof fn lemma_split_keeps(a: Seq<char>, b: Seq<char>, separator: char)
    ensures
        split(a, separator).len() <= split(a + b, separator).len(),
        forall|k: int|
            0 <= k < split(a, separator).len() - 1 ==> split(a + b, separator)[k]
                == #[trigger] split(a, separator)[k],
    decreases b.len(),
{
    if b.len() == 0 {
        assert(a + b =~= a);
    } else {
        lemma_split_keeps(a, b.drop_last(), separator);
        lemma_split(a + b.drop_last(), separator);
        assert((a + b).drop_last() =~= a + b.drop_last());
    }
}

/// What stands between two separators is one of the pieces.
pub proof fn lemma_split_between(
    a: Seq<char>,
    piece: Seq<char>,
    b: Seq<char>,
    separator: char,
)
    requires
        forall|i: int| 0 <= i < piece.len() ==> #[trigger] piece[i] != separator,
    ensures
        split(a + seq![separator] + piece + seq![separator] + b, separator).contains(piece),
{
    let one = a + seq![separator];
    let two = one + piece;
    let three = two + seq![separator];
    lemma_split(a, separator);
    assert(one.drop_last() =~= a);
    let at = split(a, separator).len() as int;
    assert(split(one, separator) == split(a, separator).push(Seq::empty()));
    lemma_split_grows(one, piece, separator);
    assert(Seq::<char>::empty() + piece =~= piece);
    assert(split(two, separator)[at] == piece);
    assert(three.drop_last() =~= two);
    assert(split(three, separator)[at] == piece);
    lemma_split_keeps(three, b, separator);
    assert(split(three + b, separator)[at] == piece);
}

/// Pieces without the separator in them come back when what they are joined to is split.
pub proof fn law_split_join(parts: Seq<Seq<char>>, separator: char)
    requires
        parts.len() >= 1,
        forall|i: int, j: int|
            0 <= i < parts.len() && 0 <= j < parts[i].len() ==> #[trigger] parts[i][j] != separator,
    ensures
        split(join(parts, seq![separator]), separator) == parts,
    decreases parts.len(),
{
    let last = parts.last();
    assert forall|j: int| 0 <= j < last.len() implies #[trigger] last[j] != separator by {
        assert(parts[parts.len() - 1][j] != separator);
    }
    if parts.len() == 1 {
        lemma_split_grows(Seq::empty(), last, separator);
        assert(Seq::<char>::empty() + last =~= last);
        assert(split(last, separator) =~= parts);
    } else {
        let front = parts.drop_last();
        assert forall|i: int, j: int| 0 <= i < front.len() && 0 <= j < front[i].len() implies
            #[trigger] front[i][j] != separator by {
            assert(parts[i][j] != separator);
        }
        law_split_join(front, separator);
        let head = join(front, seq![separator]) + seq![separator];
        assert(head.drop_last() =~= join(front, seq![separator]));
        assert(split(head, separator) == front.push(Seq::empty()));
        lemma_split_grows(head, last, separator);
        assert(Seq::<char>::empty() + last =~= last);
        assert(split(head + last, separator) =~= parts);
    }
}

/// The texts behind each other, with a separator between them.
pub fn join_texts(parts: &Vec<String>, separator: &str) -> (r: String)
    ensures
        r@ == join(texts_view(parts@), separator@),
{
    let mut out: String = String::new();
    let mut i: usize = 0;
    let ghost views = texts_view(parts@);
    while i < parts.len()
        invariant
            i <= parts@.len(),
            views == texts_view(parts@),
            out@ == join(views.take(i as int), separator@),
        decreases parts@.len() - i,
    {
        let ghost before = out@;
        if i > 0 {
            out.append(separator);
        }
        out.append(parts[i].as_str());
        proof {
            let next = views.take(i + 1);
            assert(next.drop_last() =~= views.take(i as int));
            assert(next.last() == parts@[i as int]@);
            assert(out@ =~= join(next, separator@));
        }
        i = i + 1;
    }
    assert(views.take(views.len() as int) =~= views);
    out
}

/// Whether `s` starts with `front`.
pub fn starts_with(s: &str, front: &str) -> (r: bool)
    ensures
        r == front@.is_prefix_of(s@),
{
    let chars: Vec<char> = to_chars(s);
    let wanted: Vec<char> = to_chars(front);
    if wanted.len() > chars.len() {
        return false;
    }
    let mut i: usize = 0;
    while i < wanted.len()
        invariant
            chars@ == s@,
            wanted@ == front@,
            i <= wanted@.len() <= chars@.len(),
            forall|j: int| 0 <= j < i ==> #[trigger] wanted@[j] == chars@[j],
        decreases wanted@.len() - i,
    {
        if chars[i] != wanted[i] {
            assert(s@.take(front@.len() as int)[i as int] != front@[i as int]);
            return false;
        }
        i = i + 1;
    }
    assert(front@ =~= s@.take(front@.len() as int));
    true
}

/// Whether `s` ends with `back`.
pub fn ends_with(s: &str, back: &str) -> (r: bool)
    ensures
        r == (s@.len() >= back@.len() && s@.skip(s@.len() - back@.len()) == back@),
{
    let chars: Vec<char> = to_chars(s);
    let wanted: Vec<char> = to_chars(back);
    if wanted.len() > chars.len() {
        return false;
    }
    let len: usize = chars.len();
    let from: usize = len - wanted.len();
    let mut i: usize = 0;
    while i < wanted.len()
        invariant
            chars@ == s@,
            wanted@ == back@,
            len == chars@.len(),
            from + wanted@.len() == len,
            i <= wanted@.len(),
            forall|j: int| 0 <= j < i ==> #[trigger] wanted@[j] == chars@[from + j],
        decreases wanted@.len() - i,
    {
        if chars[from + i] != wanted[i] {
            assert(s@.skip(s@.len() - back@.len())[i as int] != back@[i as int]);
            return false;
        }
        i = i + 1;
    }
    assert(s@.skip(s@.len() - back@.len()) =~= back@);
    true
}

/// Where a character stands first, or the length where it stands nowhere.
pub open spec fn first_index(s: Seq<char>, c: char) -> nat
    decreases s.len(),
{
    if s.len() == 0 || s[0] == c {
        0
    } else {
        1 + first_index(s.drop_first(), c)
    }
}

pub proof fn lemma_first_index(s: Seq<char>, c: char)
    ensures
        first_index(s, c) <= s.len(),
        first_index(s, c) < s.len() ==> s[first_index(s, c) as int] == c,
        forall|i: int| 0 <= i < first_index(s, c) ==> #[trigger] s[i] != c,
    decreases s.len(),
{
    if s.len() > 0 && s[0] != c {
        lemma_first_index(s.drop_first(), c);
        assert forall|i: int| 0 <= i < first_index(s, c) implies #[trigger] s[i] != c by {
            if i > 0 {
                assert(s.drop_first()[i - 1] == s[i]);
            }
        }
    }
}

/// The first index is the one behind which no earlier one is found.
pub proof fn lemma_first_index_is(s: Seq<char>, c: char, at: int)
    requires
        0 <= at <= s.len(),
        at < s.len() ==> s[at] == c,
        forall|i: int| 0 <= i < at ==> #[trigger] s[i] != c,
    ensures
        first_index(s, c) == at,
{
    lemma_first_index(s, c);
    let found = first_index(s, c);
    if found < at {
        assert(s[found as int] != c);
    }
}

/// Where a character stands first, or the length where it stands nowhere.
pub fn find_char(chars: &Vec<char>, c: char) -> (r: usize)
    ensures
        r == first_index(chars@, c),
        r <= chars@.len(),
{
    let mut i: usize = 0;
    while i < chars.len() && chars[i] != c
        invariant
            i <= chars@.len(),
            forall|j: int| 0 <= j < i ==> #[trigger] chars@[j] != c,
        decreases chars@.len() - i,
    {
        i = i + 1;
    }
    proof {
        lemma_first_index_is(chars@, c, i as int);
    }
    i
}

/// What stands before and behind the first separator, where there is one.
pub open spec fn split_once(s: Seq<char>, separator: char) -> Option<(Seq<char>, Seq<char>)> {
    let at = first_index(s, separator);
    if at < s.len() {
        Some((s.take(at as int), s.skip(at as int + 1)))
    } else {
        None
    }
}

/// What stands before and behind the first separator, where there is one.
pub fn split_text_once(s: &str, separator: char) -> (r: Option<(String, String)>)
    ensures
        (match r {
            Some(parts) => Some((parts.0@, parts.1@)),
            None => None,
        }) == split_once(s@, separator),
{
    let chars: Vec<char> = to_chars(s);
    let at: usize = find_char(&chars, separator);
    if at < chars.len() {
        assert(s@.subrange(0, at as int) =~= s@.take(at as int));
        assert(s@.subrange(at + 1, s@.len() as int) =~= s@.skip(at + 1));
        Some((text_of(&chars, 0, at), text_of(&chars, at + 1, chars.len())))
    } else {
        None
    }
}

} // verus!
