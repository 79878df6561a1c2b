//! Keys of the secondary indexes over durable deliveries.

use vstd::prelude::*;
use vstd::arithmetic::power::pow;
use vstd::string::*;
use vstd::utf8::{encode_utf8, encode_utf8_decode_utf8};
use crate::cutting::{
    lemma_first_index_is, split_once, split_text_once,
};
use crate::numeral::{
    all_digits, decimal, decimal_value, is_digit, lemma_decimal, lemma_decimal_len_u64,
    lemma_zero_padded, parse_unsigned, push_padded_decimal, push_upper_byte_hex, unsigned_digits,
    unsigned_value, upper_byte_hex, upper_hex_char, zero_padded,
};
use crate::order::{
    lemma_less_by_front, lemma_less_common_front, lemma_less_total, text_at_most, text_less,
};
use crate::text::copy_text;

verus! {

/// The bytes that stand for themselves in an index key.
pub open spec fn is_plain_byte(b: u8) -> bool {
    (65 <= b && b <= 90) || (97 <= b && b <= 122) || (48 <= b && b <= 57) || b == 46 || b == 45
}

/// How a byte is written in an index key.
pub open spec fn byte_code(b: u8) -> Seq<char> {
    if is_plain_byte(b) {
        seq![b as char]
    } else if b == 95 {
        seq!['_', '_']
    } else {
        seq!['_', 'x'] + upper_byte_hex(b)
    }
}

pub open spec fn bytes_code(bytes: Seq<u8>) -> Seq<char>
    decreases bytes.len(),
{
    if bytes.len() == 0 {
        Seq::empty()
    } else {
        bytes_code(bytes.drop_last()) + byte_code(bytes.last())
    }
}

pub open spec fn only_dots(s: Seq<char>) -> bool {
    forall|i: int| 0 <= i < s.len() ==> #[trigger] s[i] == '.'
}

/// A name as a part of an index key: never empty, never dots alone, and without a slash.
pub open spec fn encoded_part(part: Seq<char>) -> Seq<char> {
    if part.len() == 0 {
        seq!['_']
    } else {
        let code = bytes_code(encode_utf8(part));
        if only_dots(code) {
            seq!['_', 'x'] + code
        } else {
            code
        }
    }
}

/// Twenty digits of a time.
pub open spec fn time_code(ms: u64) -> Seq<char> {
    zero_padded(decimal(ms as nat), 20)
}

/// The key of a delivery in an index by department and time.
pub open spec fn index_key(dept: Seq<char>, due_ms: u64, delivery_id: Seq<char>) -> Seq<char> {
    encoded_part(dept) + "/"@ + time_code(due_ms) + "/"@ + delivery_id
}

/// The key of a dead delivery in an index by time and department.
pub open spec fn dead_index_key(dept: Seq<char>, dead_at_ms: u64, delivery_id: Seq<char>) -> Seq<
    char,
> {
    time_code(dead_at_ms) + "/"@ + encoded_part(dept) + "/"@ + delivery_id
}

/// A key of an index, taken apart.
pub struct DueIndexKey {
    pub key: String,
    pub due_ms: u64,
    pub delivery_id: String,
}

pub struct DueView {
    pub key: Seq<char>,
    pub due_ms: u64,
    pub delivery_id: Seq<char>,
}

impl View for DueIndexKey {
    type V = DueView;

    open spec fn view(&self) -> DueView {
        DueView { key: self.key@, due_ms: self.due_ms, delivery_id: self.delivery_id@ }
    }
}

pub open spec fn due_views(v: Seq<DueIndexKey>) -> Seq<DueView> {
    Seq::new(v.len(), |i: int| v[i]@)
}

impl DueIndexKey {
    pub fn copy(&self) -> (r: DueIndexKey)
        ensures
            r@ == self@,
    {
        DueIndexKey {
            key: copy_text(self.key.as_str()),
            due_ms: self.due_ms,
            delivery_id: copy_text(self.delivery_id.as_str()),
        }
    }
}

/// The three parts of a key: what stands before the first slash, between the first and the second,
/// and behind the second.
pub open spec fn key_parts(key: Seq<char>) -> Option<(Seq<char>, Seq<char>, Seq<char>)> {
    match split_once(key, '/') {
        None => None,
        Some((first, rest)) => match split_once(rest, '/') {
            None => None,
            Some((second, third)) => Some((first, second, third)),
        },
    }
}

/// What a key of an index by department and time says.
pub open spec fn parsed_key(key: Seq<char>) -> Option<DueView> {
    match key_parts(key) {
        Some((_, due, delivery_id)) => match unsigned_value(due) {
            Some(n) => Some(DueView { key, due_ms: n as u64, delivery_id }),
            None => None,
        },
        None => None,
    }
}

/// What a key of an index by time and department says.
pub open spec fn parsed_dead_key(key: Seq<char>) -> Option<DueView> {
    match key_parts(key) {
        Some((due, _, delivery_id)) => match unsigned_value(due) {
            Some(n) => Some(DueView { key, due_ms: n as u64, delivery_id }),
            None => None,
        },
        None => None,
    }
}

fn parts_of_key(key: &str) -> (r: Option<(String, String, String)>)
    ensures
        (match r {
            Some(p) => Some((p.0@, p.1@, p.2@)),
            None => None,
        }) == key_parts(key@),
{
    match split_text_once(key, '/') {
        None => None,
        Some((first, rest)) => match split_text_once(rest.as_str(), '/') {
            None => None,
            Some((second, third)) => Some((first, second, third)),
        },
    }
}

pub open spec fn due_view(k: Option<DueIndexKey>) -> Option<DueView> {
    match k {
        Some(v) => Some(v@),
        None => None,
    }
}

/// Takes a key of an index by department and time apart.
pub fn parse_index_key(key: &str) -> (r: Option<DueIndexKey>)
    ensures
        due_view(r) == parsed_key(key@),
{
    match parts_of_key(key) {
        None => None,
        Some((_, due, delivery_id)) => match parse_unsigned(due.as_str()) {
            None => None,
            Some(due_ms) => Some(DueIndexKey { key: copy_text(key), due_ms, delivery_id }),
        },
    }
}

/// Takes a key of an index by time and department apart.
pub fn parse_dead_due_index_key(key: &str) -> (r: Option<DueIndexKey>)
    ensures
        due_view(r) == parsed_dead_key(key@),
{
    match parts_of_key(key) {
        None => None,
        Some((due, _, delivery_id)) => match parse_unsigned(due.as_str()) {
            None => None,
            Some(due_ms) => Some(DueIndexKey { key: copy_text(key), due_ms, delivery_id }),
        },
    }
}

/// A name as a part of an index key.
pub fn encode_index_part(part: &str) -> (r: String)
    ensures
        r@ == encoded_part(part@),
{
    if part.is_empty() {
        let mut out: String = String::new();
        out.push('_');
        assert(out@ =~= seq!['_']);
        return out;
    }
    let bytes: &[u8] = part.as_bytes();
    let mut code: String = String::new();
    let mut dots: bool = true;
    let mut i: usize = 0;
    while i < bytes.len()
        invariant
            bytes@ == encode_utf8(part@),
            i <= bytes@.len(),
            code@ == bytes_code(bytes@.take(i as int)),
            dots == only_dots(code@),
        decreases bytes@.len() - i,
    {
        let b: u8 = bytes[i];
        let ghost before = code@;
        if (65 <= b && b <= 90) || (97 <= b && b <= 122) || (48 <= b && b <= 57) || b == 46 || b
            == 45 {
            code.push(b as char);
        } else if b == 95 {
            code.append("__");
            proof {
                reveal_strlit("__");
                assert("__"@ =~= seq!['_', '_']);
            }
        } else {
            code.append("_x");
            push_upper_byte_hex(&mut code, b);
            proof {
                reveal_strlit("_x");
                assert("_x"@ =~= seq!['_', 'x']);
            }
        }
        dots = dots && b == 46;
        proof {
            assert(bytes@.take(i + 1).drop_last() =~= bytes@.take(i as int));
            assert(bytes@.take(i + 1).last() == b);
            assert(code@ =~= before + byte_code(b));
            assert(code@[before.len() as int] == byte_code(b)[0]);
            assert(b == 46 <==> byte_code(b)[0] == '.');
            if only_dots(code@) {
                assert forall|j: int| 0 <= j < before.len() implies #[trigger] before[j] == '.' by {
                    assert(code@[j] == before[j]);
                }
            }
            if only_dots(before) && b == 46 {
                assert forall|j: int| 0 <= j < code@.len() implies #[trigger] code@[j] == '.' by {
                    if j < before.len() {
                        assert(code@[j] == before[j]);
                    }
                }
            }
        }
        i = i + 1;
    }
    assert(bytes@.take(bytes@.len() as int) =~= bytes@);
    if dots {
        let mut out: String = String::new();
        out.push('_');
        out.push('x');
        out.append(code.as_str());
        assert(out@ =~= seq!['_', 'x'] + code@);
        out
    } else {
        code
    }
}

/// The key of a delivery in an index by department and time.
pub fn make_index_key(dept: &str, due_ms: u64, delivery_id: &str) -> (r: String)
    ensures
        r@ == index_key(dept@, due_ms, delivery_id@),
{
    let mut out: String = encode_index_part(dept);
    out.append("/");
    push_padded_decimal(&mut out, due_ms, 20);
    out.append("/");
    out.append(delivery_id);
    out
}

/// The key of a dead delivery in an index by time and department.
pub fn make_dead_due_index_key(dept: &str, dead_at_ms: u64, delivery_id: &str) -> (r: String)
    ensures
        r@ == dead_index_key(dept@, dead_at_ms, delivery_id@),
{
    let mut out: String = String::new();
    push_padded_decimal(&mut out, dead_at_ms, 20);
    assert(out@ =~= time_code(dead_at_ms));
    out.append("/");
    out.append(encode_index_part(dept).as_str());
    out.append("/");
    out.append(delivery_id);
    out
}

// What the keys say.

proof fn lemma_byte_code(b: u8)
    ensures
        byte_code(b).len() >= 1,
        forall|i: int| 0 <= i < byte_code(b).len() ==> #[trigger] byte_code(b)[i] != '/',
{
    assert(upper_hex_char(b as int / 16) != '/');
    assert(upper_hex_char(b as int % 16) != '/');
}

proof fn lemma_bytes_code(bytes: Seq<u8>)
    ensures
        bytes_code(bytes).len() >= bytes.len(),
        forall|i: int| 0 <= i < bytes_code(bytes).len() ==> #[trigger] bytes_code(bytes)[i] != '/',
    decreases bytes.len(),
{
    if bytes.len() > 0 {
        let front = bytes_code(bytes.drop_last());
        lemma_bytes_code(bytes.drop_last());
        lemma_byte_code(bytes.last());
        assert forall|i: int| 0 <= i < bytes_code(bytes).len() implies #[trigger] bytes_code(
            bytes,
        )[i] != '/' by {
            if i < front.len() {
                assert(bytes_code(bytes)[i] == front[i]);
            } else {
                assert(bytes_code(bytes)[i] == byte_code(bytes.last())[i - front.len()]);
            }
        }
    }
}

/// A part of a key holds no slash.
pub proof fn lemma_encoded_part(part: Seq<char>)
    ensures
        encoded_part(part).len() >= 1,
        forall|i: int| 0 <= i < encoded_part(part).len() ==> #[trigger] encoded_part(part)[i] != '/',
{
    if part.len() > 0 {
        let code = bytes_code(encode_utf8(part));
        lemma_bytes_code(encode_utf8(part));
        assert(encode_utf8(part).len() >= 1) by {
            crate::utf8_text::lemma_utf8_len_step(part);
        }
        assert forall|i: int| 0 <= i < encoded_part(part).len() implies #[trigger] encoded_part(
            part,
        )[i] != '/' by {
            if only_dots(code) {
                if i >= 2 {
                    assert(encoded_part(part)[i] == code[i - 2]);
                }
            } else {
                assert(encoded_part(part)[i] == code[i]);
            }
        }
    }
}

/// A time in a key is twenty digits, and says the time.
pub proof fn lemma_time_code(ms: u64)
    ensures
        time_code(ms).len() == 20,
        all_digits(time_code(ms)),
        decimal_value(time_code(ms)) == ms,
        unsigned_value(time_code(ms)) == Some(ms as nat),
{
    lemma_decimal(ms as nat);
    lemma_decimal_len_u64(ms);
    lemma_zero_padded(decimal(ms as nat), 20);
    assert(is_digit(time_code(ms)[0]));
    assert(unsigned_digits(time_code(ms)) == time_code(ms));
}

/// The parts of a key that was put together from parts, the first two without a slash.
proof fn lemma_key_parts(first: Seq<char>, second: Seq<char>, third: Seq<char>)
    requires
        forall|i: int| 0 <= i < first.len() ==> #[trigger] first[i] != '/',
        forall|i: int| 0 <= i < second.len() ==> #[trigger] second[i] != '/',
    ensures
        key_parts(first + "/"@ + second + "/"@ + third) == Some((first, second, third)),
{
    reveal_strlit("/");
    assert("/"@ =~= seq!['/']);
    let key = first + "/"@ + second + "/"@ + third;
    assert(key[first.len() as int] == '/');
    assert forall|i: int| 0 <= i < first.len() implies #[trigger] key[i] != '/' by {
        assert(key[i] == first[i]);
    }
    lemma_first_index_is(key, '/', first.len() as int);
    assert(key.take(first.len() as int) =~= first);
    let rest = key.skip(first.len() as int + 1);
    assert(rest =~= second + "/"@ + third);
    assert(rest[second.len() as int] == '/');
    assert forall|i: int| 0 <= i < second.len() implies #[trigger] rest[i] != '/' by {
        assert(rest[i] == second[i]);
    }
    lemma_first_index_is(rest, '/', second.len() as int);
    assert(rest.take(second.len() as int) =~= second);
    assert(rest.skip(second.len() as int + 1) =~= third);
}

/// A key says the time and the delivery that it was made for.
pub proof fn law_index_key_parses(dept: Seq<char>, due_ms: u64, delivery_id: Seq<char>)
    ensures
        parsed_key(index_key(dept, due_ms, delivery_id)) == Some(
            DueView { key: index_key(dept, due_ms, delivery_id), due_ms, delivery_id },
        ),
{
    lemma_encoded_part(dept);
    lemma_time_code(due_ms);
    assert forall|i: int| 0 <= i < time_code(due_ms).len() implies #[trigger] time_code(due_ms)[i]
        != '/' by {
        assert(is_digit(time_code(due_ms)[i]));
    }
    lemma_key_parts(encoded_part(dept), time_code(due_ms), delivery_id);
}

/// A key of a dead delivery says the time and the delivery that it was made for.
pub proof fn law_dead_index_key_parses(dept: Seq<char>, dead_at_ms: u64, delivery_id: Seq<char>)
    ensures
        parsed_dead_key(dead_index_key(dept, dead_at_ms, delivery_id)) == Some(
            DueView {
                key: dead_index_key(dept, dead_at_ms, delivery_id),
                due_ms: dead_at_ms,
                delivery_id,
            },
        ),
{
    lemma_encoded_part(dept);
    lemma_time_code(dead_at_ms);
    assert forall|i: int| 0 <= i < time_code(dead_at_ms).len() implies #[trigger] time_code(
        dead_at_ms,
    )[i] != '/' by {
        assert(is_digit(time_code(dead_at_ms)[i]));
    }
    lemma_key_parts(time_code(dead_at_ms), encoded_part(dept), delivery_id);
}

/// Keys of different deliveries, or of different times, differ.
pub proof fn law_index_keys_differ(
    dept: Seq<char>,
    due_ms: u64,
    delivery_id: Seq<char>,
    other_dept: Seq<char>,
    other_due_ms: u64,
    other_id: Seq<char>,
)
    ensures
        index_key(dept, due_ms, delivery_id) == index_key(other_dept, other_due_ms, other_id)
            ==> due_ms == other_due_ms && delivery_id == other_id && encoded_part(dept)
            == encoded_part(other_dept),
        dead_index_key(dept, due_ms, delivery_id) == dead_index_key(
            other_dept,
            other_due_ms,
            other_id,
        ) ==> due_ms == other_due_ms && delivery_id == other_id && encoded_part(dept)
            == encoded_part(other_dept),
{
    law_index_key_parses(dept, due_ms, delivery_id);
    law_index_key_parses(other_dept, other_due_ms, other_id);
    law_dead_index_key_parses(dept, due_ms, delivery_id);
    law_dead_index_key_parses(other_dept, other_due_ms, other_id);
    lemma_encoded_part(dept);
    lemma_encoded_part(other_dept);
    lemma_time_code(due_ms);
    lemma_time_code(other_due_ms);
    assert forall|ms: u64, i: int| 0 <= i < time_code(ms).len() implies #[trigger] time_code(ms)[i]
        != '/' by {
        lemma_time_code(ms);
        assert(is_digit(time_code(ms)[i]));
    }
    lemma_key_parts(encoded_part(dept), time_code(due_ms), delivery_id);
    lemma_key_parts(encoded_part(other_dept), time_code(other_due_ms), other_id);
    lemma_key_parts(time_code(due_ms), encoded_part(dept), delivery_id);
    lemma_key_parts(time_code(other_due_ms), encoded_part(other_dept), other_id);
}

// The order of the keys.

/// A row of digits from the front: the first digit, by its place, and the rest.
proof fn lemma_value_front(s: Seq<char>)
    requires
        s.len() > 0,
        all_digits(s),
    ensures
        decimal_value(s) == crate::numeral::digit_value(s[0]) * pow(10, (s.len() - 1) as nat)
            + decimal_value(s.drop_first()),
        decimal_value(s.drop_first()) < pow(10, (s.len() - 1) as nat),
    decreases s.len(),
{
    reveal(pow);
    if s.len() == 1 {
        assert(s.drop_last() =~= Seq::<char>::empty());
        assert(s.drop_first() =~= Seq::<char>::empty());
        assert(pow(10, 0) == 1);
    } else {
        let rest = s.drop_first();
        assert(is_digit(s[s.len() - 1]));
        assert(all_digits(s.drop_last())) by {
            assert forall|i: int| 0 <= i < s.drop_last().len() implies is_digit(
                #[trigger] s.drop_last()[i],
            ) by {
                assert(is_digit(s[i]));
            }
        }
        lemma_value_front(s.drop_last());
        assert(s.drop_last().drop_first() =~= rest.drop_last());
        assert(rest.last() == s.last());
        assert(pow(10, (s.len() - 1) as nat) == 10 * pow(10, (s.len() - 2) as nat));
        let d = crate::numeral::digit_value(s[0]) as int;
        let p = pow(10, (s.len() - 2) as nat);
        assert((d * p) * 10 == d * (10 * p)) by (nonlinear_arith);
    }
}

/// Of two rows of digits of one length, the one with the smaller number comes first.
proof fn lemma_digits_order(a: Seq<char>, b: Seq<char>)
    requires
        a.len() == b.len(),
        all_digits(a),
        all_digits(b),
    ensures
        text_less(a, b) == (decimal_value(a) < decimal_value(b)),
    decreases a.len(),
{
    if a.len() > 0 {
        assert(is_digit(a[0]) && is_digit(b[0]));
        assert(all_digits(a.drop_first())) by {
            assert forall|i: int| 0 <= i < a.drop_first().len() implies is_digit(
                #[trigger] a.drop_first()[i],
            ) by {
                assert(is_digit(a[i + 1]));
            }
        }
        assert(all_digits(b.drop_first())) by {
            assert forall|i: int| 0 <= i < b.drop_first().len() implies is_digit(
                #[trigger] b.drop_first()[i],
            ) by {
                assert(is_digit(b[i + 1]));
            }
        }
        lemma_value_front(a);
        lemma_value_front(b);
        lemma_digits_order(a.drop_first(), b.drop_first());
        let p = pow(10, (a.len() - 1) as nat);
        let x = crate::numeral::digit_value(a[0]) as int;
        let y = crate::numeral::digit_value(b[0]) as int;
        if x < y {
            assert((x + 1) * p <= y * p) by (nonlinear_arith)
                requires
                    x + 1 <= y,
                    p >= 0,
            ;
            assert((x + 1) * p == x * p + p) by (nonlinear_arith);
        } else if y < x {
            assert((y + 1) * p <= x * p) by (nonlinear_arith)
                requires
                    y + 1 <= x,
                    p >= 0,
            ;
            assert((y + 1) * p == y * p + p) by (nonlinear_arith);
        }
    }
}

/// The codes of times come in the order of the times.
pub proof fn lemma_time_order(a: u64, b: u64)
    ensures
        text_less(time_code(a), time_code(b)) == (a < b),
{
    lemma_time_code(a);
    lemma_time_code(b);
    lemma_digits_order(time_code(a), time_code(b));
}

/// The first key that a department can have.
pub open spec fn due_range_start(dept: Seq<char>) -> Seq<char> {
    encoded_part(dept) + "/"@ + time_code(0) + "/"@
}

/// The last key of a department that is due at a time.
pub open spec fn due_range_end(dept: Seq<char>, now_ms: u64) -> Seq<char> {
    encoded_part(dept) + "/"@ + time_code(now_ms) + "/"@ + "\u{10ffff}"@
}

pub open spec fn in_due_range(key: Seq<char>, dept: Seq<char>, now_ms: u64) -> bool {
    text_at_most(due_range_start(dept), key) && text_at_most(key, due_range_end(dept, now_ms))
}

/// A delivery whose id does not start with the last of all characters.
pub open spec fn ordinary_id(delivery_id: Seq<char>) -> bool {
    delivery_id.len() == 0 || delivery_id[0] < '\u{10ffff}'
}

pub proof fn lemma_front_of_key(front: Seq<char>, a: u64, x: Seq<char>, b: u64, y: Seq<char>)
    ensures
        a < b ==> text_less(front + time_code(a) + x, front + time_code(b) + y),
        a == b ==> text_less(front + time_code(a) + x, front + time_code(b) + y) == text_less(x, y),
{
    lemma_time_code(a);
    lemma_time_code(b);
    lemma_time_order(a, b);
    assert(front + time_code(a) + x =~= front + (time_code(a) + x));
    assert(front + time_code(b) + y =~= front + (time_code(b) + y));
    lemma_less_common_front(front, time_code(a) + x, time_code(b) + y);
    if a < b {
        lemma_less_by_front(time_code(a), time_code(b), x, y);
    } else if a == b {
        lemma_less_common_front(time_code(a), x, y);
    }
}

/// The keys of a department between the two bounds are those of the deliveries that are due.
pub proof fn law_due_range(dept: Seq<char>, due_ms: u64, delivery_id: Seq<char>, now_ms: u64)
    requires
        ordinary_id(delivery_id),
    ensures
        in_due_range(index_key(dept, due_ms, delivery_id), dept, now_ms) == (due_ms <= now_ms),
{
    reveal_strlit("/");
    reveal_strlit("\u{10ffff}");
    assert("/"@ =~= seq!['/']);
    assert("\u{10ffff}"@ =~= seq!['\u{10ffff}']);
    let front = encoded_part(dept) + "/"@;
    let key = index_key(dept, due_ms, delivery_id);
    let tail = "/"@ + delivery_id;
    assert(key =~= front + time_code(due_ms) + tail);
    assert(due_range_start(dept) =~= front + time_code(0) + "/"@);
    assert(due_range_end(dept, now_ms) =~= front + time_code(now_ms) + ("/"@ + "\u{10ffff}"@));
    lemma_front_of_key(front, due_ms, tail, 0, "/"@);
    lemma_front_of_key(front, 0, "/"@, due_ms, tail);
    lemma_less_total(key, due_range_start(dept));
    lemma_less_total(key, due_range_end(dept, now_ms));
    lemma_front_of_key(front, now_ms, "/"@ + "\u{10ffff}"@, due_ms, tail);
    lemma_front_of_key(front, due_ms, tail, now_ms, "/"@ + "\u{10ffff}"@);
    assert(!text_less(tail, "/"@)) by {
        assert("/"@ + Seq::<char>::empty() =~= "/"@);
        lemma_less_common_front("/"@, delivery_id, Seq::empty());
    }
    lemma_less_common_front("/"@, "\u{10ffff}"@, delivery_id);
    assert(!text_less("\u{10ffff}"@, delivery_id));
}

/// What lies between two texts with a common front part has that front part.
proof fn lemma_between(front: Seq<char>, x: Seq<char>, y: Seq<char>, key: Seq<char>)
    requires
        text_at_most(front + x, key),
        text_at_most(key, front + y),
    ensures
        front.is_prefix_of(key),
    decreases front.len(),
{
    if front.len() == 0 {
        assert(front =~= key.take(0));
    } else {
        let low = front + x;
        let high = front + y;
        assert(low[0] == front[0] && high[0] == front[0]);
        assert(key.len() > 0 && key[0] == front[0]);
        assert(low.drop_first() =~= front.drop_first() + x);
        assert(high.drop_first() =~= front.drop_first() + y);
        lemma_between(front.drop_first(), x, y, key.drop_first());
        assert(front =~= key.take(front.len() as int)) by {
            let rest = front.drop_first();
            assert forall|i: int| 0 <= i < front.len() implies front[i] == key[i] by {
                if i > 0 {
                    assert(rest[i - 1] == key.drop_first().take(rest.len() as int)[i - 1]);
                }
            }
        }
    }
}

/// Between the two bounds of a department stand keys of this department alone.
pub proof fn law_due_range_is_of_dept(
    dept: Seq<char>,
    now_ms: u64,
    other: Seq<char>,
    due_ms: u64,
    delivery_id: Seq<char>,
)
    requires
        in_due_range(index_key(other, due_ms, delivery_id), dept, now_ms),
    ensures
        other == dept,
{
    reveal_strlit("/");
    assert("/"@ =~= seq!['/']);
    let key = index_key(other, due_ms, delivery_id);
    let front = encoded_part(dept) + "/"@;
    let low = time_code(0) + "/"@;
    let high = time_code(now_ms) + "/"@ + "\u{10ffff}"@;
    assert(due_range_start(dept) =~= front + low);
    assert(due_range_end(dept, now_ms) =~= front + high);
    lemma_between(front, low, high, key);
    lemma_encoded_part(dept);
    lemma_encoded_part(other);
    let mine = encoded_part(dept);
    let theirs = encoded_part(other);
    assert(front =~= key.take(front.len() as int));
    assert(key[mine.len() as int] == front[mine.len() as int]);
    assert(key[theirs.len() as int] == '/');
    if mine.len() < theirs.len() {
        assert(key[mine.len() as int] == theirs[mine.len() as int]);
    } else if theirs.len() < mine.len() {
        assert(front[theirs.len() as int] == mine[theirs.len() as int]);
        assert(key[theirs.len() as int] == front[theirs.len() as int]);
    } else {
        assert forall|i: int| 0 <= i < mine.len() implies mine[i] == theirs[i] by {
            assert(key[i] == theirs[i]);
            assert(front[i] == mine[i]);
            assert(key[i] == front[i]);
        }
        assert(mine =~= theirs);
        law_encoded_part_injective(dept, other);
    }
}

// The code of names.

proof fn lemma_bytes_code_front(bytes: Seq<u8>)
    requires
        bytes.len() > 0,
    ensures
        bytes_code(bytes) == byte_code(bytes[0]) + bytes_code(bytes.drop_first()),
    decreases bytes.len(),
{
    if bytes.len() == 1 {
        assert(bytes.drop_last() =~= Seq::<u8>::empty());
        assert(bytes.drop_first() =~= Seq::<u8>::empty());
        assert(bytes_code(bytes) =~= byte_code(bytes[0]) + bytes_code(bytes.drop_first()));
    } else {
        lemma_bytes_code_front(bytes.drop_last());
        assert(bytes.drop_last().drop_first() =~= bytes.drop_first().drop_last());
        assert(bytes.drop_first().last() == bytes.last());
        assert(bytes_code(bytes) =~= byte_code(bytes[0]) + bytes_code(bytes.drop_first()));
    }
}

proof fn lemma_hex_char_injective(a: int, b: int)
    requires
        0 <= a < 16,
        0 <= b < 16,
        upper_hex_char(a) == upper_hex_char(b),
    ensures
        a == b,
{
}

/// The code of a byte says where it ends.
proof fn lemma_byte_code_prefix(a: u8, x: Seq<char>, b: u8, y: Seq<char>)
    requires
        byte_code(a) + x == byte_code(b) + y,
    ensures
        a == b,
        x == y,
{
    let s = byte_code(a) + x;
    let t = byte_code(b) + y;
    assert(s[0] == byte_code(a)[0]);
    assert(t[0] == byte_code(b)[0]);
    if is_plain_byte(a) || is_plain_byte(b) {
        assert(a == b);
    } else if a == 95 || b == 95 {
        assert(s[1] == byte_code(a)[1]);
        assert(t[1] == byte_code(b)[1]);
        assert(a == b);
    } else {
        assert(s[2] == byte_code(a)[2] && s[3] == byte_code(a)[3]);
        assert(t[2] == byte_code(b)[2] && t[3] == byte_code(b)[3]);
        lemma_hex_char_injective(a as int / 16, b as int / 16);
        lemma_hex_char_injective(a as int % 16, b as int % 16);
        assert(a == b);
    }
    assert(x =~= s.skip(byte_code(a).len() as int));
    assert(y =~= t.skip(byte_code(b).len() as int));
}

proof fn lemma_bytes_code_injective(a: Seq<u8>, b: Seq<u8>)
    requires
        bytes_code(a) == bytes_code(b),
    ensures
        a == b,
    decreases a.len(),
{
    lemma_bytes_code(a);
    lemma_bytes_code(b);
    if a.len() == 0 || b.len() == 0 {
        assert(a =~= b);
    } else {
        lemma_bytes_code_front(a);
        lemma_bytes_code_front(b);
        lemma_byte_code_prefix(
            a[0],
            bytes_code(a.drop_first()),
            b[0],
            bytes_code(b.drop_first()),
        );
        lemma_bytes_code_injective(a.drop_first(), b.drop_first());
        assert(a =~= seq![a[0]] + a.drop_first());
        assert(b =~= seq![b[0]] + b.drop_first());
    }
}

/// An underscore in the code of bytes is followed by another, or by an `x` and two digits.
proof fn lemma_underscore_code(bytes: Seq<u8>)
    requires
        bytes.len() > 0,
        bytes_code(bytes)[0] == '_',
    ensures
        bytes_code(bytes).len() >= 2,
        bytes_code(bytes)[1] == '_' || (bytes_code(bytes)[1] == 'x' && bytes_code(bytes).len() >= 4
            && bytes_code(bytes)[2] != '.'),
{
    lemma_bytes_code_front(bytes);
    let code = byte_code(bytes[0]);
    lemma_byte_code(bytes[0]);
    assert(bytes_code(bytes)[0] == code[0]);
    assert(bytes_code(bytes)[1] == code[1]);
    if bytes[0] != 95 {
        assert(bytes_code(bytes)[2] == code[2]);
        assert(upper_hex_char(bytes[0] as int / 16) != '.');
    }
}

/// Different names have different parts in the keys.
pub proof fn law_encoded_part_injective(a: Seq<char>, b: Seq<char>)
    requires
        encoded_part(a) == encoded_part(b),
    ensures
        a == b,
{
    let ca = bytes_code(encode_utf8(a));
    let cb = bytes_code(encode_utf8(b));
    if a.len() > 0 {
        crate::utf8_text::lemma_utf8_len_step(a);
        lemma_bytes_code(encode_utf8(a));
    }
    if b.len() > 0 {
        crate::utf8_text::lemma_utf8_len_step(b);
        lemma_bytes_code(encode_utf8(b));
    }
    if a.len() == 0 && b.len() == 0 {
        assert(a =~= b);
    } else if a.len() == 0 {
        assert(encoded_part(b) == seq!['_']);
        if only_dots(cb) {
            assert(encoded_part(b).len() >= 2);
        } else {
            assert(cb[0] == '_');
            lemma_underscore_code(encode_utf8(b));
        }
    } else if b.len() == 0 {
        assert(encoded_part(a) == seq!['_']);
        if only_dots(ca) {
            assert(encoded_part(a).len() >= 2);
        } else {
            assert(ca[0] == '_');
            lemma_underscore_code(encode_utf8(a));
        }
    } else {
        if only_dots(ca) && !only_dots(cb) {
            assert(cb[0] == encoded_part(a)[0] && cb[1] == encoded_part(a)[1] && cb[2]
                == encoded_part(a)[2]);
            assert(encoded_part(a)[2] == ca[0]);
            lemma_underscore_code(encode_utf8(b));
        } else if !only_dots(ca) && only_dots(cb) {
            assert(ca[0] == encoded_part(b)[0] && ca[1] == encoded_part(b)[1] && ca[2]
                == encoded_part(b)[2]);
            assert(encoded_part(b)[2] == cb[0]);
            lemma_underscore_code(encode_utf8(a));
        } else {
            if only_dots(ca) {
                assert(ca =~= encoded_part(a).skip(2));
                assert(cb =~= encoded_part(b).skip(2));
            }
            lemma_bytes_code_injective(encode_utf8(a), encode_utf8(b));
            encode_utf8_decode_utf8(a);
            encode_utf8_decode_utf8(b);
        }
    }
}

} // verus!
