//! Keys that are safe as paths.

use vstd::prelude::*;
use vstd::string::*;
use vstd::utf8::{encode_utf8, encode_utf8_decode_utf8};
use crate::cutting::{join, join_texts};
use crate::delivery_index::{encode_index_part, encoded_part, only_dots};
use crate::numeral::{push_upper_byte_hex, upper_byte_hex, upper_hex_char};
use crate::text::{copy_text, text_of, texts_view, to_chars};

verus! {

/// The longest segment that a part of a key is cut into.
pub const SEGMENT_LIMIT: usize = 200;

/// A text cut into pieces, each but the last of them as long as it may be.
pub open spec fn chunks(s: Seq<char>, size: nat) -> Seq<Seq<char>>
    decreases s.len(),
{
    if s.len() == 0 || size == 0 {
        Seq::empty()
    } else if s.len() <= size {
        seq![s]
    } else {
        seq![s.take(size as int)] + chunks(s.skip(size as int), size)
    }
}

pub fn chunk_text(s: &str, size: usize) -> (r: Vec<String>)
    requires
        size > 0,
    ensures
        texts_view(r@) == chunks(s@, size as nat),
{
    let chars: Vec<char> = to_chars(s);
    let len: usize = chars.len();
    let mut out: Vec<String> = Vec::new();
    let mut at: usize = 0;
    assert(texts_view(out@) + chunks(s@.skip(0), size as nat) =~= chunks(s@, size as nat)) by {
        assert(s@.skip(0) =~= s@);
    }
    while at < len
        invariant
            size > 0,
            chars@ == s@,
            len == chars@.len(),
            at <= len,
            texts_view(out@) + chunks(s@.skip(at as int), size as nat) == chunks(
                s@,
                size as nat,
            ),
        decreases len - at,
    {
        let to: usize = if len - at <= size {
            len
        } else {
            at + size
        };
        let ghost had = texts_view(out@);
        let ghost rest = s@.skip(at as int);
        let piece: String = text_of(&chars, at, to);
        let ghost cut = piece@;
        out.push(piece);
        proof {
            assert(texts_view(out@) =~= had.push(cut));
            if len - at <= size {
                assert(cut =~= rest);
                assert(s@.skip(to as int) =~= Seq::<char>::empty());
                assert(had.push(cut) + chunks(s@.skip(to as int), size as nat) =~= had + chunks(
                    rest,
                    size as nat,
                ));
            } else {
                assert(cut =~= rest.take(size as int));
                assert(s@.skip(to as int) =~= rest.skip(size as int));
                assert(had.push(cut) + chunks(s@.skip(to as int), size as nat) =~= had + chunks(
                    rest,
                    size as nat,
                ));
            }
        }
        at = to;
    }
    assert(s@.skip(len as int) =~= Seq::<char>::empty());
    assert(texts_view(out@) + Seq::<Seq<char>>::empty() =~= texts_view(out@));
    out
}

// Keys whose parts are all escaped.

/// A piece that is not dots alone.
pub open spec fn dot_safe(s: Seq<char>) -> Seq<char> {
    if only_dots(s) {
        seq!['_', 'x'] + s
    } else {
        s
    }
}

/// The segments that a part of a key is written as.
pub open spec fn key_segments(part: Seq<char>) -> Seq<Seq<char>> {
    let pieces = chunks(encoded_part(part), SEGMENT_LIMIT as nat);
    Seq::new(pieces.len(), |i: int| dot_safe(pieces[i]))
}

pub open spec fn all_segments(parts: Seq<Seq<char>>) -> Seq<Seq<char>>
    decreases parts.len(),
{
    if parts.len() == 0 {
        Seq::empty()
    } else {
        all_segments(parts.drop_last()) + key_segments(parts.last())
    }
}

/// The key of parts.
pub open spec fn key_of(parts: Seq<Seq<char>>) -> Seq<char> {
    join(all_segments(parts), "/"@)
}

pub open spec fn strs_view(v: Seq<&str>) -> Seq<Seq<char>> {
    Seq::new(v.len(), |i: int| v[i]@)
}

fn is_only_dots(s: &str) -> (r: bool)
    ensures
        r == only_dots(s@),
{
    let chars: Vec<char> = to_chars(s);
    let mut i: usize = 0;
    while i < chars.len()
        invariant
            chars@ == s@,
            i <= chars@.len(),
            forall|j: int| 0 <= j < i ==> #[trigger] s@[j] == '.',
        decreases chars@.len() - i,
    {
        if chars[i] != '.' {
            assert(s@[i as int] != '.');
            return false;
        }
        i = i + 1;
    }
    true
}

/// The segments that a part of a key is written as.
pub fn runtime_key_part_segments(part: &str) -> (r: Vec<String>)
    ensures
        texts_view(r@) == key_segments(part@),
{
    let code: String = encode_index_part(part);
    let pieces: Vec<String> = chunk_text(code.as_str(), SEGMENT_LIMIT);
    let ghost cut = texts_view(pieces@);
    let mut out: Vec<String> = Vec::new();
    let mut i: usize = 0;
    while i < pieces.len()
        invariant
            cut == texts_view(pieces@),
            i <= pieces@.len(),
            out@.len() == i,
            forall|k: int| 0 <= k < i ==> (#[trigger] out@[k])@ == dot_safe(cut[k]),
        decreases pieces@.len() - i,
    {
        if is_only_dots(pieces[i].as_str()) {
            let mut safe: String = String::new();
            safe.push('_');
            safe.push('x');
            safe.append(pieces[i].as_str());
            assert(safe@ =~= dot_safe(cut[i as int]));
            out.push(safe);
        } else {
            out.push(copy_text(pieces[i].as_str()));
        }
        i = i + 1;
    }
    assert(texts_view(out@) =~= key_segments(part@));
    out
}

fn append_all(out: &mut Vec<String>, more: &Vec<String>)
    ensures
        texts_view(final(out)@) == texts_view(old(out)@) + texts_view(more@),
{
    let ghost had = texts_view(out@);
    let mut i: usize = 0;
    assert(had + texts_view(more@).take(0) =~= had);
    while i < more.len()
        invariant
            i <= more@.len(),
            texts_view(out@) == had + texts_view(more@).take(i as int),
        decreases more@.len() - i,
    {
        let ghost before = texts_view(out@);
        out.push(copy_text(more[i].as_str()));
        proof {
            assert(texts_view(out@) =~= before.push(more@[i as int]@));
            assert(had + texts_view(more@).take(i + 1) =~= before.push(more@[i as int]@));
        }
        i = i + 1;
    }
    assert(texts_view(more@).take(more@.len() as int) =~= texts_view(more@));
}

/// The key of parts.
pub fn runtime_key(parts: &Vec<&str>) -> (r: String)
    ensures
        r@ == key_of(strs_view(parts@)),
{
    let ghost views = strs_view(parts@);
    let mut segments: Vec<String> = Vec::new();
    let mut i: usize = 0;
    assert(texts_view(segments@) =~= Seq::<Seq<char>>::empty());
    while i < parts.len()
        invariant
            views == strs_view(parts@),
            i <= parts@.len(),
            texts_view(segments@) == all_segments(views.take(i as int)),
        decreases parts@.len() - i,
    {
        proof {
            assert(views.take(i + 1).drop_last() =~= views.take(i as int));
            assert(views.take(i + 1).last() == parts@[i as int]@);
        }
        let more: Vec<String> = runtime_key_part_segments(parts[i]);
        append_all(&mut segments, &more);
        i = i + 1;
    }
    assert(views.take(views.len() as int) =~= views);
    join_texts(&segments, "/")
}

// Keys that keep some of their parts as they are.

/// A part of a key: as it is, or escaped.
pub enum RuntimeKeyPart<'a> {
    Raw(&'a str),
    Escaped(&'a str),
}

pub enum PartView {
    Raw(Seq<char>),
    Escaped(Seq<char>),
}

impl<'a> View for RuntimeKeyPart<'a> {
    type V = PartView;

    open spec fn view(&self) -> PartView {
        match self {
            RuntimeKeyPart::Raw(s) => PartView::Raw(s@),
            RuntimeKeyPart::Escaped(s) => PartView::Escaped(s@),
        }
    }
}

pub open spec fn part_views(v: Seq<RuntimeKeyPart>) -> Seq<PartView> {
    Seq::new(v.len(), |i: int| v[i]@)
}

/// The bytes that stand for themselves in an escaped part.
pub open spec fn is_bare_byte(b: u8) -> bool {
    (65 <= b && b <= 90) || (97 <= b && b <= 122) || (48 <= b && b <= 57) || b == 45
}

pub open spec fn framed_byte(b: u8) -> Seq<char> {
    if is_bare_byte(b) {
        seq![b as char]
    } else {
        seq!['_'] + upper_byte_hex(b) + seq!['_']
    }
}

pub open spec fn framed(bytes: Seq<u8>) -> Seq<char>
    decreases bytes.len(),
{
    if bytes.len() == 0 {
        Seq::empty()
    } else {
        framed(bytes.drop_last()) + framed_byte(bytes.last())
    }
}

/// A part with every byte but letters, digits and dashes written as its number.
pub open spec fn escaped_part(part: Seq<char>) -> Seq<char> {
    if part.len() == 0 {
        seq!['_']
    } else {
        framed(encode_utf8(part))
    }
}

/// The segments that a part of such a key is written as.
pub open spec fn part_segments(part: PartView) -> Seq<Seq<char>> {
    match part {
        PartView::Raw(s) => seq![s],
        PartView::Escaped(s) => chunks(escaped_part(s), SEGMENT_LIMIT as nat),
    }
}

pub open spec fn all_part_segments(parts: Seq<PartView>) -> Seq<Seq<char>>
    decreases parts.len(),
{
    if parts.len() == 0 {
        Seq::empty()
    } else {
        all_part_segments(parts.drop_last()) + part_segments(parts.last())
    }
}

pub open spec fn mixed_key_of(parts: Seq<PartView>) -> Seq<char> {
    join(all_part_segments(parts), "/"@)
}

/// A part of a key, escaped.
pub fn encode_runtime_key_part_v3(part: &str) -> (r: String)
    ensures
        r@ == escaped_part(part@),
{
    let mut out: String = String::new();
    if part.is_empty() {
        out.push('_');
        assert(out@ =~= seq!['_']);
        return out;
    }
    let bytes: &[u8] = part.as_bytes();
    let mut i: usize = 0;
    while i < bytes.len()
        invariant
            bytes@ == encode_utf8(part@),
            i <= bytes@.len(),
            out@ == framed(bytes@.take(i as int)),
        decreases bytes@.len() - i,
    {
        let b: u8 = bytes[i];
        let ghost before = out@;
        if (65 <= b && b <= 90) || (97 <= b && b <= 122) || (48 <= b && b <= 57) || b == 45 {
            out.push(b as char);
        } else {
            out.push('_');
            push_upper_byte_hex(&mut out, b);
            out.push('_');
        }
        proof {
            assert(bytes@.take(i + 1).drop_last() =~= bytes@.take(i as int));
            assert(bytes@.take(i + 1).last() == b);
            assert(out@ =~= before + framed_byte(b));
        }
        i = i + 1;
    }
    assert(bytes@.take(bytes@.len() as int) =~= bytes@);
    out
}

/// The key of parts, of which some are escaped.
pub fn runtime_key_v3(parts: &Vec<RuntimeKeyPart>) -> (r: String)
    ensures
        r@ == mixed_key_of(part_views(parts@)),
{
    let ghost views = part_views(parts@);
    let mut segments: Vec<String> = Vec::new();
    let mut i: usize = 0;
    assert(texts_view(segments@) =~= Seq::<Seq<char>>::empty());
    while i < parts.len()
        invariant
            views == part_views(parts@),
            i <= parts@.len(),
            texts_view(segments@) == all_part_segments(views.take(i as int)),
        decreases parts@.len() - i,
    {
        proof {
            assert(views.take(i + 1).drop_last() =~= views.take(i as int));
            assert(views.take(i + 1).last() == parts@[i as int]@);
        }
        let ghost had = texts_view(segments@);
        match &parts[i] {
            RuntimeKeyPart::Raw(s) => {
                segments.push(copy_text(s));
                assert(texts_view(segments@) =~= had + seq![s@]);
            },
            RuntimeKeyPart::Escaped(s) => {
                let code: String = encode_runtime_key_part_v3(s);
                let more: Vec<String> = chunk_text(code.as_str(), SEGMENT_LIMIT);
                append_all(&mut segments, &more);
            },
        }
        i = i + 1;
    }
    assert(views.take(views.len() as int) =~= views);
    join_texts(&segments, "/")
}

// Laws.

proof fn lemma_framed_front(bytes: Seq<u8>)
    requires
        bytes.len() > 0,
    ensures
        framed(bytes) == framed_byte(bytes[0]) + framed(bytes.drop_first()),
    decreases bytes.len(),
{
    if bytes.len() == 1 {
        assert(bytes.drop_last() =~= Seq::<u8>::empty());
        assert(bytes.drop_first() =~= Seq::<u8>::empty());
        assert(framed(bytes) =~= framed_byte(bytes[0]) + framed(bytes.drop_first()));
    } else {
        lemma_framed_front(bytes.drop_last());
        assert(bytes.drop_last().drop_first() =~= bytes.drop_first().drop_last());
        assert(bytes.drop_first().last() == bytes.last());
        assert(framed(bytes) =~= framed_byte(bytes[0]) + framed(bytes.drop_first()));
    }
}

proof fn lemma_upper_hex_char(a: int)
    requires
        0 <= a < 16,
    ensures
        forall|b: int| 0 <= b < 16 && upper_hex_char(a) == #[trigger] upper_hex_char(b) ==> a == b,
        upper_hex_char(a) != '/',
        upper_hex_char(a) != '_',
{
}

proof fn lemma_framed_byte(b: u8)
    ensures
        framed_byte(b).len() >= 1,
        forall|i: int| 0 <= i < framed_byte(b).len() ==> #[trigger] framed_byte(b)[i] != '/',
{
    lemma_upper_hex_char(b as int / 16);
    lemma_upper_hex_char(b as int % 16);
}

/// The code of a byte says where it ends.
proof fn lemma_framed_prefix(a: u8, x: Seq<char>, b: u8, y: Seq<char>)
    requires
        framed_byte(a) + x == framed_byte(b) + y,
    ensures
        a == b,
        x == y,
{
    let s = framed_byte(a) + x;
    let t = framed_byte(b) + y;
    assert(s[0] == framed_byte(a)[0]);
    assert(t[0] == framed_byte(b)[0]);
    if is_bare_byte(a) || is_bare_byte(b) {
        assert(a == b);
    } else {
        assert(s[1] == framed_byte(a)[1] && s[2] == framed_byte(a)[2]);
        assert(t[1] == framed_byte(b)[1] && t[2] == framed_byte(b)[2]);
        lemma_upper_hex_char(a as int / 16);
        lemma_upper_hex_char(a as int % 16);
        assert(upper_hex_char(a as int / 16) == upper_hex_char(b as int / 16));
        assert(upper_hex_char(a as int % 16) == upper_hex_char(b as int % 16));
        assert(a == b);
    }
    assert(x =~= s.skip(framed_byte(a).len() as int));
    assert(y =~= t.skip(framed_byte(b).len() as int));
}

proof fn lemma_framed(bytes: Seq<u8>)
    ensures
        framed(bytes).len() >= bytes.len(),
        forall|i: int| 0 <= i < framed(bytes).len() ==> #[trigger] framed(bytes)[i] != '/',
    decreases bytes.len(),
{
    if bytes.len() > 0 {
        let front = framed(bytes.drop_last());
        lemma_framed(bytes.drop_last());
        lemma_framed_byte(bytes.last());
        assert forall|i: int| 0 <= i < framed(bytes).len() implies #[trigger] framed(bytes)[i]
            != '/' by {
            if i < front.len() {
                assert(framed(bytes)[i] == front[i]);
            } else {
                assert(framed(bytes)[i] == framed_byte(bytes.last())[i - front.len()]);
            }
        }
    }
}

proof fn lemma_framed_injective(a: Seq<u8>, b: Seq<u8>)
    requires
        framed(a) == framed(b),
    ensures
        a == b,
    decreases a.len(),
{
    lemma_framed(a);
    lemma_framed(b);
    if a.len() == 0 || b.len() == 0 {
        assert(a =~= b);
    } else {
        lemma_framed_front(a);
        lemma_framed_front(b);
        lemma_framed_prefix(a[0], framed(a.drop_first()), b[0], framed(b.drop_first()));
        lemma_framed_injective(a.drop_first(), b.drop_first());
        assert(a =~= seq![a[0]] + a.drop_first());
        assert(b =~= seq![b[0]] + b.drop_first());
    }
}

/// Different parts are escaped differently.
pub proof fn law_escaped_part_injective(a: Seq<char>, b: Seq<char>)
    requires
        escaped_part(a) == escaped_part(b),
    ensures
        a == b,
{
    if a.len() > 0 {
        crate::utf8_text::lemma_utf8_len_step(a);
        lemma_framed_front(encode_utf8(a));
        lemma_framed_byte(encode_utf8(a)[0]);
    }
    if b.len() > 0 {
        crate::utf8_text::lemma_utf8_len_step(b);
        lemma_framed_front(encode_utf8(b));
        lemma_framed_byte(encode_utf8(b)[0]);
    }
    if a.len() == 0 && b.len() == 0 {
        assert(a =~= b);
    } else if a.len() == 0 {
        assert(framed(encode_utf8(b))[0] == framed_byte(encode_utf8(b)[0])[0]);
    } else if b.len() == 0 {
        assert(framed(encode_utf8(a))[0] == framed_byte(encode_utf8(a)[0])[0]);
    } else {
        lemma_framed_injective(encode_utf8(a), encode_utf8(b));
        encode_utf8_decode_utf8(a);
        encode_utf8_decode_utf8(b);
    }
}

/// An escaped part is written in segments that are not empty, that are no longer than they may be,
/// and in which no slash stands.
pub proof fn law_escaped_segments(part: Seq<char>)
    ensures
        part_segments(PartView::Escaped(part)).len() >= 1,
        forall|i: int, j: int|
            0 <= i < part_segments(PartView::Escaped(part)).len() && 0 <= j < part_segments(
                PartView::Escaped(part),
            )[i].len() ==> #[trigger] part_segments(PartView::Escaped(part))[i][j] != '/',
        forall|i: int|
            0 <= i < part_segments(PartView::Escaped(part)).len() ==> 1 <= (
            #[trigger] part_segments(PartView::Escaped(part))[i]).len() <= SEGMENT_LIMIT,
{
    lemma_escaped_part(part);
    lemma_chunks(escaped_part(part), SEGMENT_LIMIT as nat);
}

proof fn lemma_escaped_part(part: Seq<char>)
    ensures
        escaped_part(part).len() >= 1,
        forall|i: int| 0 <= i < escaped_part(part).len() ==> #[trigger] escaped_part(part)[i] != '/',
{
    if part.len() > 0 {
        crate::utf8_text::lemma_utf8_len_step(part);
        lemma_framed(encode_utf8(part));
    }
}

pub proof fn lemma_chunks(s: Seq<char>, size: nat)
    requires
        size > 0,
        s.len() > 0,
        forall|i: int| 0 <= i < s.len() ==> #[trigger] s[i] != '/',
    ensures
        chunks(s, size).len() >= 1,
        forall|i: int, j: int|
            0 <= i < chunks(s, size).len() && 0 <= j < chunks(s, size)[i].len()
                ==> #[trigger] chunks(s, size)[i][j] != '/',
        forall|i: int|
            0 <= i < chunks(s, size).len() ==> 1 <= (#[trigger] chunks(s, size)[i]).len() <= size,
    decreases s.len(),
{
    if s.len() > size {
        let rest = s.skip(size as int);
        assert forall|i: int| 0 <= i < rest.len() implies #[trigger] rest[i] != '/' by {
            assert(rest[i] == s[i + size]);
        }
        lemma_chunks(rest, size);
        assert forall|i: int, j: int|
            0 <= i < chunks(s, size).len() && 0 <= j < chunks(s, size)[i].len() implies
            #[trigger] chunks(s, size)[i][j] != '/' by {
            if i == 0 {
                assert(chunks(s, size)[0] == s.take(size as int));
            } else {
                assert(chunks(s, size)[i] == chunks(rest, size)[i - 1]);
            }
        }
        assert forall|i: int| 0 <= i < chunks(s, size).len() implies 1 <= (
        #[trigger] chunks(s, size)[i]).len() <= size by {
            if i > 0 {
                assert(chunks(s, size)[i] == chunks(rest, size)[i - 1]);
            }
        }
    }
}

#[verifier::opaque]
spec fn no_slash(s: Seq<char>) -> Seq<char> {
    s.filter(|c: char| c != '/')
}

proof fn lemma_no_slash(s: Seq<char>)
    requires
        forall|i: int| 0 <= i < s.len() ==> #[trigger] s[i] != '/',
    ensures
        no_slash(s) == s,
    decreases s.len(),
{
    reveal(no_slash);
    reveal(Seq::filter);
    if s.len() > 0 {
        assert forall|i: int| 0 <= i < s.drop_last().len() implies #[trigger] s.drop_last()[i]
            != '/' by {
            assert(s.drop_last()[i] == s[i]);
        }
        lemma_no_slash(s.drop_last());
        assert(s.last() == s[s.len() - 1]);
        assert(no_slash(s) =~= s);
    }
}

proof fn lemma_no_slash_concat(a: Seq<char>, b: Seq<char>)
    ensures
        no_slash(a + b) == no_slash(a) + no_slash(b),
{
    reveal(no_slash);
    Seq::filter_distributes_over_add(a, b, |c: char| c != '/');
}

proof fn lemma_one_slash()
    ensures
        no_slash("/"@) == Seq::<char>::empty(),
{
    reveal(no_slash);
    reveal(Seq::filter);
    reveal_strlit("/");
    assert("/"@.drop_last() =~= Seq::<char>::empty());
    assert(no_slash("/"@.drop_last()) =~= Seq::<char>::empty());
    assert(no_slash("/"@) =~= Seq::<char>::empty());
}

/// Pieces behind each other are the first of them, a separator, and the others.
proof fn lemma_join_front(parts: Seq<Seq<char>>, separator: Seq<char>)
    requires
        parts.len() >= 2,
    ensures
        join(parts, separator) == parts[0] + separator + join(parts.drop_first(), separator),
    decreases parts.len(),
{
    if parts.len() == 2 {
        assert(parts.drop_last() =~= seq![parts[0]]);
        assert(parts.drop_first() =~= seq![parts[1]]);
        assert(join(parts.drop_last(), separator) == parts[0]);
        assert(join(parts.drop_first(), separator) == parts[1]);
    } else {
        lemma_join_front(parts.drop_last(), separator);
        assert(parts.drop_last().drop_first() =~= parts.drop_first().drop_last());
        assert(parts.drop_first().last() == parts.last());
        assert(parts.drop_last()[0] == parts[0]);
        assert(join(parts, separator) =~= parts[0] + separator + join(
            parts.drop_first(),
            separator,
        ));
    }
}

/// The pieces of a text without slashes, joined by slashes, are the text with slashes in it.
proof fn lemma_joined_chunks(s: Seq<char>, size: nat)
    requires
        size > 0,
        s.len() > 0,
        forall|i: int| 0 <= i < s.len() ==> #[trigger] s[i] != '/',
    ensures
        no_slash(join(chunks(s, size), "/"@)) == s,
    decreases s.len(),
{
    if s.len() <= size {
        lemma_no_slash(s);
    } else {
        let first = s.take(size as int);
        let rest = s.skip(size as int);
        assert forall|i: int| 0 <= i < rest.len() implies #[trigger] rest[i] != '/' by {
            assert(rest[i] == s[i + size]);
        }
        lemma_joined_chunks(rest, size);
        let parts = chunks(s, size);
        let joined = join(chunks(rest, size), "/"@);
        assert(chunks(rest, size).len() >= 1) by {
            lemma_chunks(rest, size);
        }
        assert(parts.drop_first() =~= chunks(rest, size));
        assert(parts[0] == first);
        assert(join(parts, "/"@) == first + "/"@ + joined) by {
            lemma_join_front(parts, "/"@);
        }
        lemma_no_slash(first);
        lemma_one_slash();
        lemma_no_slash_concat(first + "/"@, joined);
        lemma_no_slash_concat(first, "/"@);
        assert(first + Seq::<char>::empty() + rest =~= s);
    }
}

/// Pieces joined in two groups.
pub proof fn lemma_join_groups(a: Seq<Seq<char>>, b: Seq<Seq<char>>, separator: Seq<char>)
    requires
        a.len() > 0,
        b.len() > 0,
    ensures
        join(a + b, separator) == join(a, separator) + separator + join(b, separator),
    decreases b.len(),
{
    if b.len() == 1 {
        assert((a + b).drop_last() =~= a);
        assert((a + b).last() == b[0]);
    } else {
        lemma_join_groups(a, b.drop_last(), separator);
        assert((a + b).drop_last() =~= a + b.drop_last());
        assert((a + b).last() == b.last());
        assert(join(a + b, separator) =~= join(a, separator) + separator + join(b, separator));
    }
}

/// Two keys that differ in their last part alone, which is escaped, differ.
pub proof fn law_mixed_keys_differ(front: Seq<PartView>, a: Seq<char>, b: Seq<char>)
    requires
        all_part_segments(front).len() > 0,
        mixed_key_of(front.push(PartView::Escaped(a))) == mixed_key_of(
            front.push(PartView::Escaped(b)),
        ),
    ensures
        a == b,
{
    let segments = all_part_segments(front);
    let ca = chunks(escaped_part(a), SEGMENT_LIMIT as nat);
    let cb = chunks(escaped_part(b), SEGMENT_LIMIT as nat);
    assert(front.push(PartView::Escaped(a)).drop_last() =~= front);
    assert(front.push(PartView::Escaped(b)).drop_last() =~= front);
    lemma_escaped_part(a);
    lemma_escaped_part(b);
    lemma_chunks(escaped_part(a), SEGMENT_LIMIT as nat);
    lemma_chunks(escaped_part(b), SEGMENT_LIMIT as nat);
    lemma_join_groups(segments, ca, "/"@);
    lemma_join_groups(segments, cb, "/"@);
    let head = join(segments, "/"@) + "/"@;
    assert(join(ca, "/"@) =~= (head + join(ca, "/"@)).skip(head.len() as int));
    assert(join(cb, "/"@) =~= (head + join(cb, "/"@)).skip(head.len() as int));
    lemma_joined_chunks(escaped_part(a), SEGMENT_LIMIT as nat);
    lemma_joined_chunks(escaped_part(b), SEGMENT_LIMIT as nat);
    law_escaped_part_injective(a, b);
}

} // verus!
