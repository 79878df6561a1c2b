//! Laws of texts: what is trimmed, cut, joined and read as a number.

use vstd::prelude::*;
use vstd::string::*;
use crate::cutting::{
    is_whitespace, lemma_first_index_is, split_once, trim_end_at, trim_start_at, trimmed,
};
use crate::delivery_retry::{excerpt, one_line};
use crate::numeral::{decimal, is_digit, lemma_decimal, unsigned_value, wide_value};
use crate::order::{lemma_less_irreflexive, lemma_less_total, lemma_less_transitive, text_less};
use crate::paths::{joined, rebased, slashes_end, without_front_slashes};
use crate::utf8_text::{lemma_cut, utf8_len};

verus! {

// Whitespace.

/// Whether a text is nothing but whitespace.
pub open spec fn is_blank(s: Seq<char>) -> bool {
    forall|i: int| 0 <= i < s.len() ==> is_whitespace(#[trigger] s[i])
}

/// The spaces, tabs and line ends of ASCII are whitespace, and no other visible character of ASCII
/// is.
pub proof fn law_what_is_whitespace(c: char)
    ensures
        c == ' ' || c == '\t' || c == '\n' || c == '\r' ==> is_whitespace(c),
        '!' <= c && c <= '~' ==> !is_whitespace(c),
{
}

pub proof fn lemma_trim_start(a: Seq<char>, t: Seq<char>)
    requires
        is_blank(a),
        t.len() > 0 ==> !is_whitespace(t[0]),
    ensures
        trim_start_at(a + t) == a.len(),
    decreases a.len(),
{
    if a.len() > 0 {
        assert(is_whitespace(a[0]));
        assert((a + t).drop_first() =~= a.drop_first() + t);
        assert forall|i: int| 0 <= i < a.drop_first().len() implies is_whitespace(
            #[trigger] a.drop_first()[i],
        ) by {
            assert(a.drop_first()[i] == a[i + 1]);
        }
        lemma_trim_start(a.drop_first(), t);
    } else {
        assert(a + t =~= t);
    }
}

proof fn lemma_trim_end(t: Seq<char>, b: Seq<char>)
    requires
        is_blank(b),
        t.len() > 0 ==> !is_whitespace(t.last()),
    ensures
        trim_end_at(t + b) == t.len(),
    decreases b.len(),
{
    if b.len() > 0 {
        assert(is_whitespace(b[b.len() - 1]));
        assert((t + b).last() == b[b.len() - 1]);
        assert((t + b).drop_last() =~= t + b.drop_last());
        assert forall|i: int| 0 <= i < b.drop_last().len() implies is_whitespace(
            #[trigger] b.drop_last()[i],
        ) by {
            assert(b.drop_last()[i] == b[i]);
        }
        lemma_trim_end(t, b.drop_last());
    } else {
        assert(t + b =~= t);
    }
}

/// Trimming takes off the whitespace at both ends, and nothing else.
pub proof fn law_what_is_trimmed(a: Seq<char>, t: Seq<char>, b: Seq<char>)
    requires
        is_blank(a),
        is_blank(b),
        t.len() > 0,
        !is_whitespace(t[0]),
        !is_whitespace(t.last()),
    ensures
        trimmed(a + t + b) == t,
{
    let s = a + t + b;
    assert(s =~= a + (t + b));
    assert((t + b)[0] == t[0]);
    lemma_trim_start(a, t + b);
    assert(s.subrange(a.len() as int, s.len() as int) =~= t + b);
    lemma_trim_end(t, b);
    assert((t + b).take(t.len() as int) =~= t);
}

/// Nothing is left of a text that is nothing but whitespace.
pub proof fn law_nothing_is_left_of_whitespace(a: Seq<char>)
    requires
        is_blank(a),
    ensures
        trimmed(a) == Seq::<char>::empty(),
{
    let nothing = Seq::<char>::empty();
    assert(a + nothing =~= a);
    lemma_trim_start(a, nothing);
    assert(a.subrange(a.len() as int, a.len() as int) =~= nothing);
    assert(trim_end_at(nothing) == 0);
    assert(trimmed(a) =~= nothing);
}

// Splitting once.

/// A text is split at the first separator, which is in neither part.
pub proof fn law_a_text_is_split_at_the_first_separator(
    a: Seq<char>,
    b: Seq<char>,
    separator: char,
)
    requires
        forall|i: int| 0 <= i < a.len() ==> #[trigger] a[i] != separator,
    ensures
        split_once(a + seq![separator] + b, separator) == Some((a, b)),
        split_once(a, separator) is None,
{
    let s = a + seq![separator] + b;
    assert forall|i: int| 0 <= i < a.len() implies #[trigger] s[i] != separator by {
        assert(s[i] == a[i]);
    }
    lemma_first_index_is(s, separator, a.len() as int);
    assert(s.take(a.len() as int) =~= a);
    assert(s.skip(a.len() as int + 1) =~= b);
    lemma_first_index_is(a, separator, a.len() as int);
}

// Numbers.

/// A number is read from its numeral, with a plus sign in front or without, where it fits.
pub proof fn law_a_number_is_read_from_its_numeral(n: nat)
    ensures
        unsigned_value(decimal(n)) == if n <= u64::MAX {
            Some(n)
        } else {
            None
        },
        unsigned_value(seq!['+'] + decimal(n)) == unsigned_value(decimal(n)),
        wide_value(decimal(n)) == if n <= u128::MAX {
            Some(n)
        } else {
            None
        },
{
    lemma_decimal(n);
    assert(is_digit(decimal(n)[0]));
    assert((seq!['+'] + decimal(n)).drop_first() =~= decimal(n));
}

/// A text with anything but digits in it, behind a plus sign or without one, is no number, and
/// neither is one without digits.
pub proof fn law_what_is_no_number(s: Seq<char>, i: int)
    ensures
        s.len() == 0 ==> unsigned_value(s) is None && wide_value(s) is None,
        s == seq!['+'] ==> unsigned_value(s) is None && wide_value(s) is None,
        0 <= i < s.len() && !('0' <= s[i] && s[i] <= '9') && (i > 0 || s[0] != '+')
            ==> unsigned_value(s) is None && wide_value(s) is None,
{
    if s == seq!['+'] {
        assert(s.drop_first() =~= Seq::<char>::empty());
    }
    if 0 <= i < s.len() && !('0' <= s[i] && s[i] <= '9') && (i > 0 || s[0] != '+') {
        let digits = crate::numeral::unsigned_digits(s);
        if s[0] == '+' {
            assert(digits[i - 1] == s[i]);
            assert(!is_digit(digits[i - 1]));
        } else {
            assert(!is_digit(digits[i]));
        }
    }
}

/// The numerals of two numbers differ.
pub proof fn law_numerals_differ(a: nat, b: nat)
    requires
        decimal(a) == decimal(b),
    ensures
        a == b,
{
    lemma_decimal(a);
    lemma_decimal(b);
}

// Excerpts.

proof fn lemma_one_line_plain(s: Seq<char>)
    requires
        forall|i: int| 0 <= i < s.len() ==> #[trigger] s[i] != '\n' && s[i] != '\r',
    ensures
        one_line(s) == s,
    decreases s.len(),
{
    if s.len() > 0 {
        let front = s.drop_last();
        assert(s[s.len() - 1] != '\n');
        assert forall|i: int| 0 <= i < front.len() implies #[trigger] front[i] != '\n' && front[i]
            != '\r' by {
            assert(front[i] == s[i]);
        }
        lemma_one_line_plain(front);
        assert(one_line(s) =~= s);
    } else {
        assert(one_line(s) =~= s);
    }
}

proof fn lemma_one_line_concat(a: Seq<char>, b: Seq<char>)
    ensures
        one_line(a + b) == one_line(a) + one_line(b),
    decreases b.len(),
{
    if b.len() == 0 {
        assert(a + b =~= a);
        assert(one_line(a) + one_line(b) =~= one_line(a));
    } else {
        assert((a + b).drop_last() =~= a + b.drop_last());
        assert((a + b).last() == b.last());
        lemma_one_line_concat(a, b.drop_last());
        assert(one_line(a + b) =~= one_line(a) + one_line(b));
    }
}

/// A text on one line is the text with each line end written out: what has none stays as it is, and
/// a line end becomes a backslash and a letter.
pub proof fn law_a_text_on_one_line(a: Seq<char>, b: Seq<char>)
    requires
        forall|i: int| 0 <= i < a.len() ==> #[trigger] a[i] != '\n' && a[i] != '\r',
    ensures
        one_line(a) == a,
        one_line(a + seq!['\n'] + b) == a + seq!['\\', 'n'] + one_line(b),
        one_line(a + seq!['\r'] + b) == a + seq!['\\', 'r'] + one_line(b),
{
    lemma_one_line_plain(a);
    let nothing = Seq::<char>::empty();
    assert(one_line(nothing) =~= nothing);
    assert(seq!['\n'].drop_last() =~= nothing);
    assert(seq!['\r'].drop_last() =~= nothing);
    assert(one_line(seq!['\n']) =~= seq!['\\', 'n']);
    assert(one_line(seq!['\r']) =~= seq!['\\', 'r']);
    lemma_one_line_concat(a, seq!['\n']);
    lemma_one_line_concat(a + seq!['\n'], b);
    lemma_one_line_concat(a, seq!['\r']);
    lemma_one_line_concat(a + seq!['\r'], b);
}

/// An excerpt is the text on one line where that fits, and else as much of its front as fits.
pub proof fn law_an_excerpt_is_as_much_as_fits(s: Seq<char>, limit: nat)
    ensures
        excerpt(s, limit).is_prefix_of(one_line(s)),
        utf8_len(one_line(s)) <= limit ==> excerpt(s, limit) == one_line(s),
        excerpt(s, limit).len() < one_line(s).len() ==> utf8_len(excerpt(s, limit))
            + crate::utf8_text::char_width(one_line(s)[excerpt(s, limit).len() as int]) > limit,
{
    lemma_cut(one_line(s), limit);
}

// Paths.

/// A path below a root is the root, a slash and the path, with one slash between them; an absolute
/// path stays as it is.
pub proof fn law_a_path_below_a_root(root: Seq<char>, path: Seq<char>)
    ensures
        path.len() > 0 && path[0] == '/' ==> joined(root, path) == path,
        (path.len() == 0 || path[0] != '/') && root.len() > 0 && root.last() != '/' ==> joined(
            root,
            path,
        ) == root + seq!['/'] + path,
        (path.len() == 0 || path[0] != '/') && root.len() > 0 && root.last() == '/' ==> joined(
            root,
            path,
        ) == root + path,
        root.len() == 0 ==> joined(root, path) == path,
{
    reveal_strlit("/");
    assert("/"@ =~= seq!['/']);
}

/// A pattern below one root is moved below another, and stays as it is behind it.
pub proof fn law_a_pattern_is_moved(root: Seq<char>, rest: Seq<char>, other: Seq<char>)
    ensures
        rebased(root + rest, root, other) == other + rest,
        rebased(root + rest, root, root) == root + rest,
{
    assert((root + rest).take(root.len() as int) =~= root);
    assert((root + rest).skip(root.len() as int) =~= rest);
}

proof fn lemma_slashes(n: nat, s: Seq<char>)
    requires
        s.len() > 0 ==> s[0] != '/',
    ensures
        slashes_end(Seq::new(n, |i: int| '/') + s) == n,
    decreases n,
{
    let front = Seq::new(n, |i: int| '/');
    if n > 0 {
        let fewer = Seq::new((n - 1) as nat, |i: int| '/');
        assert((front + s).drop_first() =~= fewer + s);
        assert((front + s)[0] == '/');
        lemma_slashes((n - 1) as nat, s);
    } else {
        assert(front + s =~= s);
    }
}

/// However many slashes stand in front of a text, they are taken off, and nothing else.
pub proof fn law_front_slashes_are_taken_off(n: nat, s: Seq<char>)
    requires
        s.len() > 0 ==> s[0] != '/',
    ensures
        without_front_slashes(Seq::new(n, |i: int| '/') + s) == s,
{
    lemma_slashes(n, s);
    assert((Seq::new(n, |i: int| '/') + s).skip(n as int) =~= s);
}

// Order.

/// Texts are ordered by the first character in which they differ, and a text comes before what it is
/// the front of.
pub proof fn law_the_order_of_texts(front: Seq<char>, a: char, x: Seq<char>, b: char, y: Seq<char>)
    ensures
        a < b ==> text_less(front + seq![a] + x, front + seq![b] + y),
        text_less(front, front + seq![b] + y),
        !text_less(front, front),
{
    let nothing = Seq::<char>::empty();
    assert(front + nothing =~= front);
    assert(front + seq![a] + x =~= front + (seq![a] + x));
    assert(front + seq![b] + y =~= front + (seq![b] + y));
    crate::order::lemma_less_common_front(front, seq![a] + x, seq![b] + y);
    crate::order::lemma_less_common_front(front, nothing, seq![b] + y);
    lemma_less_irreflexive(front);
}

/// Of two different texts just one comes before the other, and what comes before one comes before
/// all that follow it.
pub proof fn law_texts_are_ordered(a: Seq<char>, b: Seq<char>, c: Seq<char>)
    ensures
        a != b ==> (text_less(a, b) <==> !text_less(b, a)),
        text_less(a, b) && text_less(b, c) ==> text_less(a, c),
{
    lemma_less_total(a, b);
    lemma_less_irreflexive(a);
    if text_less(a, b) && text_less(b, c) {
        lemma_less_transitive(a, b, c);
    }
}

} // verus!
