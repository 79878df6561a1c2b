//! FNV-1a and SHA-256 digests.

use vstd::prelude::*;
use crate::numeral::{bytes_hex, hex_text};

verus! {

pub const FNV_OFFSET: u64 = 0xcbf29ce484222325;

pub const FNV_PRIME: u64 = 0x100000001b3;

/// One step of FNV-1a: mix a byte in, then multiply, modulo two to the sixty-fourth.
pub open spec fn fnv1a_step(hash: u64, byte: u8) -> u64 {
    (((hash ^ (byte as u64)) as int * FNV_PRIME as int) % 0x1_0000_0000_0000_0000) as u64
}

/// The sixty-four bit FNV-1a hash of `bytes`, started from `seed`.
pub open spec fn fnv1a(seed: u64, bytes: Seq<u8>) -> u64
    decreases bytes.len(),
{
    if bytes.len() == 0 {
        seed
    } else {
        fnv1a_step(fnv1a(seed, bytes.drop_last()), bytes.last())
    }
}

pub fn fnv1a64(seed: u64, bytes: &[u8]) -> (r: u64)
    ensures
        r == fnv1a(seed, bytes@),
{
    let mut hash: u64 = seed;
    let mut i: usize = 0;
    assert(bytes@.take(0) =~= Seq::<u8>::empty());
    while i < bytes.len()
        invariant
            i <= bytes@.len(),
            hash == fnv1a(seed, bytes@.take(i as int)),
        decreases bytes@.len() - i,
    {
        let byte: u8 = bytes[i];
        assert(bytes@.take(i + 1).drop_last() =~= bytes@.take(i as int));
        hash = (hash ^ (byte as u64)).wrapping_mul(FNV_PRIME);
        i = i + 1;
    }
    assert(bytes@.take(bytes@.len() as int) =~= bytes@);
    hash
}

// SHA-256.

/// Addition modulo two to the thirty-second.
#[verifier::opaque]
pub open spec fn plus32(a: u32, b: u32) -> u32 {
    ((a + b) % 0x1_0000_0000) as u32
}

#[verifier::opaque]
pub open spec fn rotated(x: u32, by: u32) -> u32 {
    (x >> by) | (x << ((32 - by) as u32))
}

pub open spec fn initial_state() -> Seq<u32> {
    seq![
        0x6a09e667u32, 0xbb67ae85u32, 0x3c6ef372u32, 0xa54ff53au32, 0x510e527fu32, 0x9b05688cu32,
        0x1f83d9abu32, 0x5be0cd19u32,
    ]
}

/// The constant of each round: the first thirty-two bits of the fractional parts of the cube
/// roots of the first sixty-four primes.
#[verifier::opaque]
pub open spec fn round_constants() -> Seq<u32> {
    seq![
        0x428a2f98u32, 0x71374491u32, 0xb5c0fbcfu32, 0xe9b5dba5u32, 0x3956c25bu32, 0x59f111f1u32,
        0x923f82a4u32, 0xab1c5ed5u32, 0xd807aa98u32, 0x12835b01u32, 0x243185beu32, 0x550c7dc3u32,
        0x72be5d74u32, 0x80deb1feu32, 0x9bdc06a7u32, 0xc19bf174u32, 0xe49b69c1u32, 0xefbe4786u32,
        0x0fc19dc6u32, 0x240ca1ccu32, 0x2de92c6fu32, 0x4a7484aau32, 0x5cb0a9dcu32, 0x76f988dau32,
        0x983e5152u32, 0xa831c66du32, 0xb00327c8u32, 0xbf597fc7u32, 0xc6e00bf3u32, 0xd5a79147u32,
        0x06ca6351u32, 0x14292967u32, 0x27b70a85u32, 0x2e1b2138u32, 0x4d2c6dfcu32, 0x53380d13u32,
        0x650a7354u32, 0x766a0abbu32, 0x81c2c92eu32, 0x92722c85u32, 0xa2bfe8a1u32, 0xa81a664bu32,
        0xc24b8b70u32, 0xc76c51a3u32, 0xd192e819u32, 0xd6990624u32, 0xf40e3585u32, 0x106aa070u32,
        0x19a4c116u32, 0x1e376c08u32, 0x2748774cu32, 0x34b0bcb5u32, 0x391c0cb3u32, 0x4ed8aa4au32,
        0x5b9cca4fu32, 0x682e6ff3u32, 0x748f82eeu32, 0x78a5636fu32, 0x84c87814u32, 0x8cc70208u32,
        0x90befffau32, 0xa4506cebu32, 0xbef9a3f7u32, 0xc67178f2u32,
    ]
}

pub open spec fn big_endian_32(b0: u8, b1: u8, b2: u8, b3: u8) -> u32 {
    (b0 * 0x100_0000 + b1 * 0x1_0000 + b2 * 0x100 + b3) as u32
}

pub open spec fn schedule_low(x: u32) -> u32 {
    rotated(x, 7) ^ rotated(x, 18) ^ (x >> 3)
}

pub open spec fn schedule_high(x: u32) -> u32 {
    rotated(x, 17) ^ rotated(x, 19) ^ (x >> 10)
}

/// Word `i` of the message schedule of a block of sixty-four bytes.
#[verifier::opaque]
pub open spec fn schedule_word(block: Seq<u8>, i: int) -> u32
    decreases i,
{
    if i < 16 {
        big_endian_32(block[4 * i], block[4 * i + 1], block[4 * i + 2], block[4 * i + 3])
    } else {
        plus32(
            plus32(
                plus32(schedule_word(block, i - 16), schedule_low(schedule_word(block, i - 15))),
                schedule_word(block, i - 7),
            ),
            schedule_high(schedule_word(block, i - 2)),
        )
    }
}

/// One round on the eight working words.
#[verifier::opaque]
pub open spec fn round(w: Seq<u32>, constant: u32, word: u32) -> Seq<u32> {
    let s1 = rotated(w[4], 6) ^ rotated(w[4], 11) ^ rotated(w[4], 25);
    let choice = (w[4] & w[5]) ^ (!w[4] & w[6]);
    let first = plus32(plus32(plus32(plus32(w[7], s1), choice), constant), word);
    let s0 = rotated(w[0], 2) ^ rotated(w[0], 13) ^ rotated(w[0], 22);
    let majority = (w[0] & w[1]) ^ (w[0] & w[2]) ^ (w[1] & w[2]);
    let second = plus32(s0, majority);
    seq![plus32(first, second), w[0], w[1], w[2], plus32(w[3], first), w[4], w[5], w[6]]
}

/// The working words after the first `n` rounds on a block.
pub open spec fn rounds(state: Seq<u32>, block: Seq<u8>, n: nat) -> Seq<u32>
    decreases n,
{
    if n == 0 {
        state
    } else {
        round(
            rounds(state, block, (n - 1) as nat),
            round_constants()[n - 1],
            schedule_word(block, n - 1),
        )
    }
}

/// The state after one block.
#[verifier::opaque]
pub open spec fn compressed(state: Seq<u32>, block: Seq<u8>) -> Seq<u32> {
    let w = rounds(state, block, 64);
    Seq::new(8, |i: int| plus32(state[i], w[i]))
}

/// The state after the first `n` blocks of a padded message.
pub open spec fn absorbed(message: Seq<u8>, n: nat) -> Seq<u32>
    decreases n,
{
    if n == 0 {
        initial_state()
    } else {
        compressed(
            absorbed(message, (n - 1) as nat),
            message.subrange(64 * (n - 1), 64 * (n as int)),
        )
    }
}

/// How many zeros stand between the end mark and the length.
pub open spec fn pad_zeros(len: nat) -> nat {
    ((119 - len % 64) % 64) as nat
}

/// The eight bytes of a number, the highest first.
pub open spec fn big_endian_64(n: u64) -> Seq<u8> {
    Seq::new(8, |i: int| ((n >> ((56 - 8 * i) as u64)) & 0xff) as u8)
}

/// A message with the end mark, the zeros and its length in bits.
pub open spec fn padded(message: Seq<u8>) -> Seq<u8> {
    message + seq![0x80u8] + Seq::new(pad_zeros(message.len()), |i: int| 0u8) + big_endian_64(
        ((message.len() * 8) % 0x1_0000_0000_0000_0000) as u64,
    )
}

/// The four bytes of each word, the highest first.
pub open spec fn word_bytes(words: Seq<u32>) -> Seq<u8> {
    Seq::new(words.len() * 4, |i: int| ((words[i / 4] >> ((24 - 8 * (i % 4)) as u32)) & 0xff) as u8)
}

/// The SHA-256 digest of a message.
pub open spec fn sha256_digest(message: Seq<u8>) -> Seq<u8> {
    word_bytes(absorbed(padded(message), padded(message).len() / 64))
}

fn rotate(x: u32, by: u32) -> (r: u32)
    requires
        0 < by < 32,
    ensures
        r == rotated(x, by),
{
    proof {
        reveal(rotated);
    }
    (x >> by) | (x << (32 - by))
}

fn plus(a: u32, b: u32) -> (r: u32)
    ensures
        r == plus32(a, b),
{
    proof {
        reveal(plus32);
    }
    a.wrapping_add(b)
}

proof fn lemma_schedule_step(block: Seq<u8>, i: int)
    requires
        i >= 16,
    ensures
        schedule_word(block, i) == plus32(
            plus32(
                plus32(schedule_word(block, i - 16), schedule_low(schedule_word(block, i - 15))),
                schedule_word(block, i - 7),
            ),
            schedule_high(schedule_word(block, i - 2)),
        ),
{
    reveal(schedule_word);
}

/// The message schedule of the block that starts at `at`.
fn schedule(data: &Vec<u8>, at: usize) -> (r: Vec<u32>)
    requires
        at + 64 <= data@.len(),
    ensures
        r@.len() == 64,
        forall|i: int|
            0 <= i < 64 ==> #[trigger] r@[i] == schedule_word(
                data@.subrange(at as int, at + 64),
                i,
            ),
{
    let ghost block = data@.subrange(at as int, at + 64);
    let len: usize = data.len();
    let mut words: Vec<u32> = Vec::new();
    let mut i: usize = 0;
    while i < 16
        invariant
            i <= 16,
            at + 64 <= data@.len(),
            data@.len() == len,
            block == data@.subrange(at as int, at + 64),
            words@.len() == i,
            forall|j: int| 0 <= j < i ==> #[trigger] words@[j] == schedule_word(block, j),
        decreases 16 - i,
    {
        let base: usize = at + 4 * i;
        let word: u32 = data[base] as u32 * 0x100_0000 + data[base + 1] as u32 * 0x1_0000
            + data[base + 2] as u32 * 0x100 + data[base + 3] as u32;
        assert(block[4 * i] == data@[base as int]);
        assert(block[4 * i + 1] == data@[base + 1]);
        assert(block[4 * i + 2] == data@[base + 2]);
        assert(block[4 * i + 3] == data@[base + 3]);
        proof {
            reveal(schedule_word);
        }
        words.push(word);
        i = i + 1;
    }
    while i < 64
        invariant
            16 <= i <= 64,
            words@.len() == i,
            forall|j: int| 0 <= j < i ==> #[trigger] words@[j] == schedule_word(block, j),
        decreases 64 - i,
    {
        let a: u32 = words[i - 15];
        let b: u32 = words[i - 2];
        let low: u32 = rotate(a, 7) ^ rotate(a, 18) ^ (a >> 3);
        let high: u32 = rotate(b, 17) ^ rotate(b, 19) ^ (b >> 10);
        let word: u32 = plus(plus(plus(words[i - 16], low), words[i - 7]), high);
        proof {
            lemma_schedule_step(block, i as int);
        }
        words.push(word);
        i = i + 1;
    }
    words
}

fn constants() -> (r: [u32; 64])
    ensures
        r@ == round_constants(),
{
    let k: [u32; 64] = [
        0x428a2f98, 0x71374491, 0xb5c0fbcf, 0xe9b5dba5, 0x3956c25b, 0x59f111f1, 0x923f82a4,
        0xab1c5ed5, 0xd807aa98, 0x12835b01, 0x243185be, 0x550c7dc3, 0x72be5d74, 0x80deb1fe,
        0x9bdc06a7, 0xc19bf174, 0xe49b69c1, 0xefbe4786, 0x0fc19dc6, 0x240ca1cc, 0x2de92c6f,
        0x4a7484aa, 0x5cb0a9dc, 0x76f988da, 0x983e5152, 0xa831c66d, 0xb00327c8, 0xbf597fc7,
        0xc6e00bf3, 0xd5a79147, 0x06ca6351, 0x14292967, 0x27b70a85, 0x2e1b2138, 0x4d2c6dfc,
        0x53380d13, 0x650a7354, 0x766a0abb, 0x81c2c92e, 0x92722c85, 0xa2bfe8a1, 0xa81a664b,
        0xc24b8b70, 0xc76c51a3, 0xd192e819, 0xd6990624, 0xf40e3585, 0x106aa070, 0x19a4c116,
        0x1e376c08, 0x2748774c, 0x34b0bcb5, 0x391c0cb3, 0x4ed8aa4a, 0x5b9cca4f, 0x682e6ff3,
        0x748f82ee, 0x78a5636f, 0x84c87814, 0x8cc70208, 0x90befffa, 0xa4506ceb, 0xbef9a3f7,
        0xc67178f2,
    ];
    proof {
        reveal(round_constants);
    }
    assert(k@ =~= round_constants());
    k
}

/// The state after the block that starts at `at`.
fn compress(state: &Vec<u32>, data: &Vec<u8>, at: usize) -> (r: Vec<u32>)
    requires
        state@.len() == 8,
        at + 64 <= data@.len(),
    ensures
        r@.len() == 8,
        r@ == compressed(state@, data@.subrange(at as int, at + 64)),
{
    let ghost block = data@.subrange(at as int, at + 64);
    let words: Vec<u32> = schedule(data, at);
    let k: [u32; 64] = constants();
    let mut a: u32 = state[0];
    let mut b: u32 = state[1];
    let mut c: u32 = state[2];
    let mut d: u32 = state[3];
    let mut e: u32 = state[4];
    let mut f: u32 = state[5];
    let mut g: u32 = state[6];
    let mut h: u32 = state[7];
    assert(seq![a, b, c, d, e, f, g, h] =~= state@);
    let mut i: usize = 0;
    while i < 64
        invariant
            i <= 64,
            k@ == round_constants(),
            words@.len() == 64,
            forall|j: int| 0 <= j < 64 ==> #[trigger] words@[j] == schedule_word(block, j),
            seq![a, b, c, d, e, f, g, h] == rounds(state@, block, i as nat),
        decreases 64 - i,
    {
        let ghost w = seq![a, b, c, d, e, f, g, h];
        let s1: u32 = rotate(e, 6) ^ rotate(e, 11) ^ rotate(e, 25);
        let choice: u32 = (e & f) ^ (!e & g);
        let first: u32 = plus(plus(plus(plus(h, s1), choice), k[i]), words[i]);
        let s0: u32 = rotate(a, 2) ^ rotate(a, 13) ^ rotate(a, 22);
        let majority: u32 = (a & b) ^ (a & c) ^ (b & c);
        let second: u32 = plus(s0, majority);
        h = g;
        g = f;
        f = e;
        e = plus(d, first);
        d = c;
        c = b;
        b = a;
        a = plus(first, second);
        proof {
            reveal(round);
            assert(seq![a, b, c, d, e, f, g, h] =~= round(
                w,
                round_constants()[i as int],
                schedule_word(block, i as int),
            ));
        }
        i = i + 1;
    }
    let mut out: Vec<u32> = Vec::new();
    out.push(plus(state[0], a));
    out.push(plus(state[1], b));
    out.push(plus(state[2], c));
    out.push(plus(state[3], d));
    out.push(plus(state[4], e));
    out.push(plus(state[5], f));
    out.push(plus(state[6], g));
    out.push(plus(state[7], h));
    proof {
        reveal(compressed);
        let w = seq![a, b, c, d, e, f, g, h];
        assert(w == rounds(state@, block, 64));
        assert(w[0] == a && w[1] == b && w[2] == c && w[3] == d && w[4] == e && w[5] == f && w[6]
            == g && w[7] == h);
        assert(out@ =~= compressed(state@, block));
    }
    out
}

fn push_length(data: &mut Vec<u8>, bits: u64)
    ensures
        final(data)@ == old(data)@ + big_endian_64(bits),
{
    let ghost before = data@;
    let mut i: u64 = 0;
    while i < 8
        invariant
            i <= 8,
            data@ == before + big_endian_64(bits).take(i as int),
        decreases 8 - i,
    {
        data.push(((bits >> (56 - 8 * i)) & 0xff) as u8);
        assert(big_endian_64(bits).take(i + 1) =~= big_endian_64(bits).take(i as int).push(
            big_endian_64(bits)[i as int],
        ));
        i = i + 1;
    }
    assert(big_endian_64(bits).take(8) =~= big_endian_64(bits));
}

fn pad(input: &[u8]) -> (r: Vec<u8>)
    requires
        input@.len() + 128 <= usize::MAX,
    ensures
        r@ == padded(input@),
        r@.len() % 64 == 0,
{
    let mut data: Vec<u8> = vstd::slice::slice_to_vec(input);
    data.push(0x80);
    let ghost marked = data@;
    let ghost mut zeros: nat = 0;
    while data.len() % 64 != 56
        invariant
            input@.len() + 128 <= usize::MAX,
            marked == input@.push(0x80u8),
            data@ == marked + Seq::new(zeros, |i: int| 0u8),
            zeros <= pad_zeros(input@.len()),
        decreases pad_zeros(input@.len()) - zeros,
    {
        data.push(0);
        proof {
            assert(zeros < pad_zeros(input@.len()));
            zeros = zeros + 1;
            assert(data@ =~= marked + Seq::new(zeros, |i: int| 0u8));
        }
    }
    assert(zeros == pad_zeros(input@.len()));
    let bits: u64 = (input.len() as u64).wrapping_mul(8);
    push_length(&mut data, bits);
    assert(data@ =~= padded(input@));
    data
}

/// The SHA-256 digest of `input`.
pub fn sha256(input: &[u8]) -> (r: Vec<u8>)
    requires
        input@.len() + 128 <= usize::MAX,
    ensures
        r@ == sha256_digest(input@),
        r@.len() == 32,
{
    let data: Vec<u8> = pad(input);
    let mut state: Vec<u32> = Vec::new();
    state.push(0x6a09e667);
    state.push(0xbb67ae85);
    state.push(0x3c6ef372);
    state.push(0xa54ff53a);
    state.push(0x510e527f);
    state.push(0x9b05688c);
    state.push(0x1f83d9ab);
    state.push(0x5be0cd19);
    assert(state@ =~= initial_state());
    let len: usize = data.len();
    let blocks: usize = len / 64;
    let mut n: usize = 0;
    while n < blocks
        invariant
            n <= blocks,
            len == data@.len(),
            blocks == len / 64,
            state@.len() == 8,
            state@ == absorbed(data@, n as nat),
        decreases blocks - n,
    {
        state = compress(&state, &data, 64 * n);
        n = n + 1;
    }
    let mut out: Vec<u8> = Vec::new();
    let mut i: usize = 0;
    while i < 8
        invariant
            i <= 8,
            state@.len() == 8,
            out@.len() == 4 * i,
            forall|j: int| 0 <= j < 4 * i ==> #[trigger] out@[j] == word_bytes(state@)[j],
        decreases 8 - i,
    {
        let word: u32 = state[i];
        let ghost before = out@;
        out.push(((word >> 24) & 0xff) as u8);
        out.push(((word >> 16) & 0xff) as u8);
        out.push(((word >> 8) & 0xff) as u8);
        out.push(((word >> 0) & 0xff) as u8);
        proof {
            assert forall|j: int| 0 <= j < 4 * (i + 1) implies #[trigger] out@[j] == word_bytes(
                state@,
            )[j] by {
                if j < 4 * i {
                    assert(out@[j] == before[j]);
                } else {
                    assert(j / 4 == i as int);
                }
            }
        }
        i = i + 1;
    }
    assert(out@ =~= word_bytes(state@));
    out
}

/// The digest of `bytes`, in lower-case hexadecimal digits.
pub open spec fn digest_text(bytes: Seq<u8>) -> Seq<char> {
    bytes_hex(sha256_digest(bytes))
}

/// The SHA-256 digest of `bytes` in lower-case hexadecimal digits.
pub fn stable_digest(bytes: &[u8]) -> (r: String)
    requires
        bytes@.len() + 128 <= usize::MAX,
    ensures
        r@ == digest_text(bytes@),
{
    hex_text(sha256(bytes).as_slice())
}

} // verus!
