//! Delays between attempts, and excerpts of errors.

use vstd::prelude::*;
use vstd::arithmetic::power2::*;
use crate::duration::Duration;
use crate::text::to_chars;
use crate::utf8_text::{cut, cut_text, lemma_cut, utf8_len};
use std::collections::hash_map::DefaultHasher;
use std::hash::Hasher;

verus! {

pub const ERROR_EXCERPT_LIMIT: usize = 500;

/// How often the base delay is doubled: once for every attempt behind the first, sixty-three times
/// at most.
pub open spec fn doublings(attempt: nat) -> nat {
    if attempt <= 1 {
        0
    } else if attempt >= 64 {
        63
    } else {
        (attempt - 1) as nat
    }
}

/// The base delay, doubled for every attempt behind the first and held to the cap, in
/// milliseconds.
pub open spec fn backoff_millis(base: nat, cap: nat, attempt: nat) -> nat {
    let grown = base * pow2(doublings(attempt));
    let capped = if grown <= cap {
        grown
    } else {
        cap
    };
    if capped <= u64::MAX {
        capped
    } else {
        u64::MAX as nat
    }
}

/// The delay before the next attempt, where `attempt` attempts have failed.
pub fn backoff_delay(base: Duration, cap: Duration, attempt: u64) -> (r: Duration)
    ensures
        r@ == backoff_millis(base@ / 1_000_000, cap@ / 1_000_000, attempt as nat) * 1_000_000,
{
    let times: u64 = if attempt <= 1 {
        0
    } else if attempt >= 64 {
        63
    } else {
        attempt - 1
    };
    let cap_ms: u128 = cap.as_millis();
    let base_ms: u128 = base.as_millis();
    let mut value: u128 = base_ms;
    let mut i: u64 = 0;
    proof {
        lemma2_to64();
        assert(base_ms * pow2(0) == base_ms) by (nonlinear_arith)
            requires
                pow2(0) == 1,
        ;
    }
    while i < times && value < cap_ms
        invariant
            i <= times,
            times == doublings(attempt as nat),
            value == base_ms * pow2(i as nat),
            cap_ms <= u128::MAX / 1_000_000,
        decreases times - i,
    {
        proof {
            lemma_pow2_unfold((i + 1) as nat);
            assert(base_ms * (2 * pow2(i as nat)) == 2 * (base_ms * pow2(i as nat)))
                by (nonlinear_arith);
        }
        value = value * 2;
        i = i + 1;
    }
    let capped: u128 = if value < cap_ms {
        value
    } else {
        cap_ms
    };
    proof {
        let grown = base_ms * pow2(times as nat);
        if value >= cap_ms {
            if i < times {
                lemma_pow2_strictly_increases(i as nat, times as nat);
                assert(base_ms * pow2(i as nat) <= base_ms * pow2(times as nat))
                    by (nonlinear_arith)
                    requires
                        pow2(i as nat) <= pow2(times as nat),
                        0 <= base_ms,
                ;
            }
            assert(grown >= cap_ms);
        }
    }
    Duration::from_millis(
        if capped <= u64::MAX as u128 {
            capped as u64
        } else {
            u64::MAX
        },
    )
}

/// No delay is longer than the cap.
pub proof fn law_backoff_within_cap(base: nat, cap: nat, attempt: nat)
    ensures
        backoff_millis(base, cap, attempt) <= cap,
{
}

/// A later attempt waits no less than an earlier one.
pub proof fn law_backoff_grows(base: nat, cap: nat, earlier: nat, later: nat)
    requires
        earlier <= later,
    ensures
        backoff_millis(base, cap, earlier) <= backoff_millis(base, cap, later),
{
    let a = doublings(earlier);
    let b = doublings(later);
    if a < b {
        lemma_pow2_strictly_increases(a, b);
    }
    assert(base * pow2(a) <= base * pow2(b)) by (nonlinear_arith)
        requires
            pow2(a) <= pow2(b),
    ;
}

/// The largest jitter for a base delay, in milliseconds.
pub open spec fn jitter_bound(base: nat) -> nat {
    if base / 4 <= u64::MAX {
        base / 4
    } else {
        u64::MAX as nat
    }
}

/// The jitter that a hash gives: a quarter of the base delay at most, in milliseconds.
pub open spec fn jitter_of_hash(hash: u64, base: nat) -> nat {
    (hash as nat) % (jitter_bound(base) + 1)
}

/// The jitter that a hash gives.
pub fn jitter_from_hash(hash: u64, base: Duration) -> (r: Duration)
    ensures
        r@ == jitter_of_hash(hash, base@ / 1_000_000) * 1_000_000,
{
    let quarter: u128 = base.as_millis() / 4;
    if quarter >= u64::MAX as u128 {
        assert(hash as nat % (u64::MAX as nat + 1) == hash as nat) by (nonlinear_arith)
            requires
                hash <= u64::MAX,
        ;
        return Duration::from_millis(hash);
    }
    let max: u64 = quarter as u64;
    Duration::from_millis(hash % (max + 1))
}

/// `std::hash::Hash::hash` of a text. What it feeds to a hasher is documented as not portable
/// between platforms and versions of the compiler, so nothing is said of it.
#[verifier::external_body]
fn feed_text(hasher: &mut DefaultHasher, text: &str) {
    std::hash::Hash::hash(text, hasher)
}

/// `std::hash::Hash::hash` of a number, which goes in by the byte order of the machine; nothing is
/// said of it.
#[verifier::external_body]
fn feed_number(hasher: &mut DefaultHasher, number: u64) {
    std::hash::Hash::hash(&number, hasher)
}

fn delivery_hash(delivery_id: &str, attempt: u64) -> (r: u64) {
    let mut hasher: DefaultHasher = DefaultHasher::new();
    feed_text(&mut hasher, delivery_id);
    feed_number(&mut hasher, attempt);
    hasher.finish()
}

/// A delay of up to a quarter of the base delay that spreads deliveries out. One delivery and
/// attempt have one delay on one machine; which it is, and that, rest on what is fed to the hasher,
/// and are not said.
pub fn bounded_jitter(delivery_id: &str, attempt: u64, base: Duration) -> (r: Duration)
    ensures
        exists|hash: u64|
            r@ == #[trigger] jitter_of_hash(hash, base@ / 1_000_000) * 1_000_000,
        r@ <= jitter_bound(base@ / 1_000_000) * 1_000_000,
{
    let hash: u64 = delivery_hash(delivery_id, attempt);
    let r: Duration = jitter_from_hash(hash, base);
    proof {
        let base_ms = base@ / 1_000_000;
        assert(r@ == jitter_of_hash(hash, base_ms) * 1_000_000);
        assert(jitter_of_hash(hash, base_ms) <= jitter_bound(base_ms)) by (nonlinear_arith)
            requires
                jitter_of_hash(hash, base_ms) == (hash as nat) % (jitter_bound(base_ms) + 1),
                jitter_bound(base_ms) >= 0,
        ;
    }
    r
}

/// A text with its line ends written out.
pub open spec fn one_line(s: Seq<char>) -> Seq<char>
    decreases s.len(),
{
    if s.len() == 0 {
        Seq::empty()
    } else {
        one_line(s.drop_last()) + (if s.last() == '\r' {
            seq!['\\', 'r']
        } else if s.last() == '\n' {
            seq!['\\', 'n']
        } else {
            seq![s.last()]
        })
    }
}

/// A text on one line, cut to `limit` bytes.
pub open spec fn excerpt(s: Seq<char>, limit: nat) -> Seq<char> {
    cut(one_line(s), limit)
}

/// `s` on one line, cut to `limit` bytes of UTF-8.
pub fn excerpt_text(s: &str, limit: usize) -> (r: String)
    ensures
        r@ == excerpt(s@, limit as nat),
{
    let chars: Vec<char> = to_chars(s);
    let mut line: String = String::new();
    let mut i: usize = 0;
    while i < chars.len()
        invariant
            chars@ == s@,
            i <= s@.len(),
            line@ == one_line(s@.take(i as int)),
        decreases s@.len() - i,
    {
        let ghost before = line@;
        let c: char = chars[i];
        if c == '\r' {
            line.push('\\');
            line.push('r');
        } else if c == '\n' {
            line.push('\\');
            line.push('n');
        } else {
            line.push(c);
        }
        proof {
            assert(s@.take(i + 1).drop_last() =~= s@.take(i as int));
            assert(s@.take(i + 1).last() == c);
            assert(line@ =~= one_line(s@.take(i + 1)));
        }
        i = i + 1;
    }
    assert(s@.take(s@.len() as int) =~= s@);
    cut_text(line.as_str(), limit)
}

/// The excerpt of an error that a delivery record keeps.
pub fn error_excerpt(error: &str) -> (r: String)
    ensures
        r@ == excerpt(error@, ERROR_EXCERPT_LIMIT as nat),
{
    excerpt_text(error, ERROR_EXCERPT_LIMIT)
}

/// An excerpt takes no more than its limit in UTF-8, and holds no line end.
pub proof fn law_excerpt(s: Seq<char>, limit: nat)
    ensures
        utf8_len(excerpt(s, limit)) <= limit,
        forall|i: int|
            0 <= i < excerpt(s, limit).len() ==> #[trigger] excerpt(s, limit)[i] != '\n' && excerpt(
                s,
                limit,
            )[i] != '\r',
{
    lemma_cut(one_line(s), limit);
    lemma_one_line(s);
    assert forall|i: int| 0 <= i < excerpt(s, limit).len() implies #[trigger] excerpt(s, limit)[i]
        != '\n' && excerpt(s, limit)[i] != '\r' by {
        assert(excerpt(s, limit)[i] == one_line(s)[i]);
    }
}

proof fn lemma_one_line(s: Seq<char>)
    ensures
        forall|i: int|
            0 <= i < one_line(s).len() ==> #[trigger] one_line(s)[i] != '\n' && one_line(s)[i]
                != '\r',
    decreases s.len(),
{
    if s.len() > 0 {
        let front = one_line(s.drop_last());
        lemma_one_line(s.drop_last());
        assert forall|i: int| 0 <= i < one_line(s).len() implies #[trigger] one_line(s)[i] != '\n'
            && one_line(s)[i] != '\r' by {
            if i < front.len() {
                assert(one_line(s)[i] == front[i]);
            }
        }
    }
}

} // verus!
