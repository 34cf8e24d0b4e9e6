//! The MD5 digest, which ICC profiles use as their identifier.

use vstd::prelude::*;

use crate::text::copy_all;

verus! {

/// The constants of the 64 steps: the integer parts of `2^32 * |sin(i + 1)|`.
pub const SINES: [u32; 64] = [
    0xd76aa478, 0xe8c7b756, 0x242070db, 0xc1bdceee,
    0xf57c0faf, 0x4787c62a, 0xa8304613, 0xfd469501,
    0x698098d8, 0x8b44f7af, 0xffff5bb1, 0x895cd7be,
    0x6b901122, 0xfd987193, 0xa679438e, 0x49b40821,
    0xf61e2562, 0xc040b340, 0x265e5a51, 0xe9b6c7aa,
    0xd62f105d, 0x02441453, 0xd8a1e681, 0xe7d3fbc8,
    0x21e1cde6, 0xc33707d6, 0xf4d50d87, 0x455a14ed,
    0xa9e3e905, 0xfcefa3f8, 0x676f02d9, 0x8d2a4c8a,
    0xfffa3942, 0x8771f681, 0x6d9d6122, 0xfde5380c,
    0xa4beea44, 0x4bdecfa9, 0xf6bb4b60, 0xbebfbc70,
    0x289b7ec6, 0xeaa127fa, 0xd4ef3085, 0x04881d05,
    0xd9d4d039, 0xe6db99e5, 0x1fa27cf8, 0xc4ac5665,
    0xf4292244, 0x432aff97, 0xab9423a7, 0xfc93a039,
    0x655b59c3, 0x8f0ccc92, 0xffeff47d, 0x85845dd1,
    0x6fa87e4f, 0xfe2ce6e0, 0xa3014314, 0x4e0811a1,
    0xf7537e82, 0xbd3af235, 0x2ad7d2bb, 0xeb86d391,
];

/// The words that the digest starts from.
pub open spec fn initial() -> (u32, u32, u32, u32) {
    (0x67452301, 0xefcdab89, 0x98badcfe, 0x10325476)
}

/// The sum of two words, modulo the word size.
pub open spec fn sum(a: u32, b: u32) -> u32 {
    ((a + b) % 0x1_0000_0000) as u32
}

/// A word with its bits rotated to the left.
pub open spec fn rotated(x: u32, n: u32) -> u32 {
    (x << n) | (x >> ((32 - n) as u32))
}

/// By how much step `i` rotates.
pub open spec fn rotation(i: int) -> u32 {
    if i < 16 {
        if i % 4 == 0 {
            7
        } else if i % 4 == 1 {
            12
        } else if i % 4 == 2 {
            17
        } else {
            22
        }
    } else if i < 32 {
        if i % 4 == 0 {
            5
        } else if i % 4 == 1 {
            9
        } else if i % 4 == 2 {
            14
        } else {
            20
        }
    } else if i < 48 {
        if i % 4 == 0 {
            4
        } else if i % 4 == 1 {
            11
        } else if i % 4 == 2 {
            16
        } else {
            23
        }
    } else {
        if i % 4 == 0 {
            6
        } else if i % 4 == 1 {
            10
        } else if i % 4 == 2 {
            15
        } else {
            21
        }
    }
}

/// How step `i` mixes three words.
pub open spec fn mixed(i: int, b: u32, c: u32, d: u32) -> u32 {
    if i < 16 {
        (b & c) | (!b & d)
    } else if i < 32 {
        (d & b) | (!d & c)
    } else if i < 48 {
        b ^ c ^ d
    } else {
        c ^ (b | !d)
    }
}

/// The index of the word of the block that step `i` takes in.
pub open spec fn word_index(i: int) -> int {
    if i < 16 {
        i
    } else if i < 32 {
        (5 * i + 1) % 16
    } else if i < 48 {
        (3 * i + 5) % 16
    } else {
        (7 * i) % 16
    }
}

/// The four words after step `i`.
pub open spec fn stepped(
    i: int,
    state: (u32, u32, u32, u32),
    words: Seq<u32>,
) -> (u32, u32, u32, u32) {
    let (a, b, c, d) = state;
    let turned = rotated(
        sum(sum(a, mixed(i, b, c, d)), sum(SINES@[i], words[word_index(i)])),
        rotation(i),
    );
    (d, sum(b, turned), b, c)
}

/// The four words after the first `n` steps.
pub open spec fn after_steps(
    n: int,
    state: (u32, u32, u32, u32),
    words: Seq<u32>,
) -> (u32, u32, u32, u32)
    decreases n,
{
    if n <= 0 {
        state
    } else {
        stepped(n - 1, after_steps(n - 1, state, words), words)
    }
}

/// The word at index `i` of bytes in little-endian order.
pub open spec fn word_at(bytes: Seq<u8>, i: int) -> u32 {
    (bytes[i] + bytes[i + 1] * 0x100 + bytes[i + 2] * 0x10000 + bytes[i + 3] * 0x1000000) as u32
}

/// The sixteen words of the block at index `at`.
pub open spec fn block_words(bytes: Seq<u8>, at: int) -> Seq<u32> {
    Seq::new(16, |k: int| word_at(bytes, at + 4 * k))
}

/// The four words after the block at index `at`.
pub open spec fn after_block(
    state: (u32, u32, u32, u32),
    bytes: Seq<u8>,
    at: int,
) -> (u32, u32, u32, u32) {
    let (a, b, c, d) = after_steps(64, state, block_words(bytes, at));
    (sum(state.0, a), sum(state.1, b), sum(state.2, c), sum(state.3, d))
}

/// The four words after the blocks from index `at` on.
pub open spec fn after_blocks(
    state: (u32, u32, u32, u32),
    bytes: Seq<u8>,
    at: int,
) -> (u32, u32, u32, u32)
    decreases bytes.len() - at,
{
    if at < 0 || at + 64 > bytes.len() {
        state
    } else {
        after_blocks(after_block(state, bytes, at), bytes, at + 64)
    }
}

/// The four bytes of a word in little-endian order.
pub open spec fn word_bytes(word: u32) -> Seq<u8> {
    seq![
        (word % 0x100) as u8,
        (word / 0x100 % 0x100) as u8,
        (word / 0x10000 % 0x100) as u8,
        (word / 0x1000000) as u8,
    ]
}

/// The number of zero bytes that pad a message of the given length.
pub open spec fn zero_count(length: nat) -> nat {
    ((119 - length % 64) % 64) as nat
}

/// A message with its padding: a one bit, zero bits, and its length in bits in eight bytes.
pub open spec fn padded(message: Seq<u8>) -> Seq<u8> {
    let bits = (message.len() * 8) % 0x1_0000_0000_0000_0000;
    message.push(0x80) + Seq::new(zero_count(message.len()), |i: int| 0u8) + word_bytes(
        (bits % 0x1_0000_0000) as u32,
    ) + word_bytes((bits / 0x1_0000_0000) as u32)
}

/// The MD5 digest of a message.
pub open spec fn digest(message: Seq<u8>) -> Seq<u8> {
    let (a, b, c, d) = after_blocks(initial(), padded(message), 0);
    word_bytes(a) + word_bytes(b) + word_bytes(c) + word_bytes(d)
}

/// The sum of two words, modulo the word size.
fn add_words(a: u32, b: u32) -> (r: u32)
    ensures
        r == sum(a, b),
{
    (((a as u64) + (b as u64)) % 0x1_0000_0000) as u32
}

/// By how much step `i` rotates.
fn rotation_of(i: usize) -> (r: u32)
    requires
        i < 64,
    ensures
        r == rotation(i as int),
        0 < r < 32,
{
    let k: usize = i % 4;
    if i < 16 {
        if k == 0 {
            7
        } else if k == 1 {
            12
        } else if k == 2 {
            17
        } else {
            22
        }
    } else if i < 32 {
        if k == 0 {
            5
        } else if k == 1 {
            9
        } else if k == 2 {
            14
        } else {
            20
        }
    } else if i < 48 {
        if k == 0 {
            4
        } else if k == 1 {
            11
        } else if k == 2 {
            16
        } else {
            23
        }
    } else {
        if k == 0 {
            6
        } else if k == 1 {
            10
        } else if k == 2 {
            15
        } else {
            21
        }
    }
}

/// The four words after step `i`.
fn step(i: usize, state: (u32, u32, u32, u32), words: &Vec<u32>) -> (r: (u32, u32, u32, u32))
    requires
        i < 64,
        words@.len() == 16,
    ensures
        r == stepped(i as int, state, words@),
{
    let (a, b, c, d) = state;
    let (f, g): (u32, usize) = if i < 16 {
        ((b & c) | (!b & d), i)
    } else if i < 32 {
        ((d & b) | (!d & c), (5 * i + 1) % 16)
    } else if i < 48 {
        (b ^ c ^ d, (3 * i + 5) % 16)
    } else {
        (c ^ (b | !d), (7 * i) % 16)
    };
    let x = add_words(add_words(a, f), add_words(SINES[i], words[g]));
    let n = rotation_of(i);
    let turned = (x << n) | (x >> (32 - n));
    (d, add_words(b, turned), b, c)
}

/// The word at index `i` of bytes in little-endian order.
fn read_word(bytes: &[u8], i: usize) -> (r: u32)
    requires
        i + 4 <= bytes.len(),
    ensures
        r == word_at(bytes@, i as int),
{
    (bytes[i] as u32) + (bytes[i + 1] as u32) * 0x100 + (bytes[i + 2] as u32) * 0x10000 + (bytes[i
        + 3] as u32) * 0x1000000
}

/// The four words after the block at index `at`.
fn compress(state: (u32, u32, u32, u32), bytes: &[u8], at: usize) -> (r: (u32, u32, u32, u32))
    requires
        at + 64 <= bytes@.len(),
    ensures
        r == after_block(state, bytes@, at as int),
{
    let length: usize = bytes.len();
    let mut words: Vec<u32> = Vec::new();
    let mut k: usize = 0;
    while k < 16
        invariant
            k <= 16,
            at + 64 <= bytes@.len() == length,
            words@.len() == k,
            forall|j: int| 0 <= j < k ==> words@[j] == word_at(bytes@, at + 4 * j),
        decreases 16 - k,
    {
        words.push(read_word(bytes, at + 4 * k));
        k = k + 1;
    }
    assert(words@ =~= block_words(bytes@, at as int));
    let mut current = state;
    let mut i: usize = 0;
    while i < 64
        invariant
            i <= 64,
            words@.len() == 16,
            words@ == block_words(bytes@, at as int),
            current == after_steps(i as int, state, words@),
        decreases 64 - i,
    {
        current = step(i, current, &words);
        i = i + 1;
    }
    (
        add_words(state.0, current.0),
        add_words(state.1, current.1),
        add_words(state.2, current.2),
        add_words(state.3, current.3),
    )
}

/// Appends the four bytes of a word in little-endian order.
fn push_word(out: &mut Vec<u8>, word: u32)
    ensures
        final(out)@ == old(out)@ + word_bytes(word),
{
    out.push((word % 0x100) as u8);
    out.push((word / 0x100 % 0x100) as u8);
    out.push((word / 0x10000 % 0x100) as u8);
    out.push((word / 0x1000000) as u8);
    assert(out@ =~= old(out)@ + word_bytes(word));
}

/// A message with its padding.
fn pad(message: &[u8]) -> (r: Vec<u8>)
    ensures
        r@ == padded(message@),
{
    let length: usize = message.len();
    let mut out = copy_all(message);
    out.push(0x80);
    let zeros: usize = (119 - length % 64) % 64;
    let ghost start = out@;
    let mut i: usize = 0;
    assert(start + Seq::new(0nat, |j: int| 0u8) =~= start);
    while i < zeros
        invariant
            i <= zeros,
            out@ == start + Seq::new(i as nat, |j: int| 0u8),
        decreases zeros - i,
    {
        out.push(0);
        assert(out@ =~= start + Seq::new((i + 1) as nat, |j: int| 0u8));
        i = i + 1;
    }
    let bits: u128 = (length as u128) * 8 % 0x1_0000_0000_0000_0000;
    push_word(&mut out, (bits % 0x1_0000_0000) as u32);
    push_word(&mut out, (bits / 0x1_0000_0000) as u32);
    out
}

/// The MD5 digest of a message.
pub fn md5(message: &[u8]) -> (r: Vec<u8>)
    ensures
        r@ == digest(message@),
        r@.len() == 16,
{
    let bytes = pad(message);
    let length: usize = bytes.len();
    let mut state: (u32, u32, u32, u32) = (0x67452301, 0xefcdab89, 0x98badcfe, 0x10325476);
    let mut at: usize = 0;
    while length - at >= 64
        invariant
            at <= length,
            bytes@.len() == length,
            after_blocks(initial(), bytes@, 0) == after_blocks(state, bytes@, at as int),
        decreases length - at,
    {
        state = compress(state, bytes.as_slice(), at);
        at = at + 64;
    }
    let mut out: Vec<u8> = Vec::new();
    push_word(&mut out, state.0);
    push_word(&mut out, state.1);
    push_word(&mut out, state.2);
    push_word(&mut out, state.3);
    assert(out@ =~= digest(message@));
    out
}

// ---------------------------------------------------------------------------------------------
// Laws
// ---------------------------------------------------------------------------------------------

/// A block gives the same wherever it stands.
proof fn lemma_block_anywhere(state: (u32, u32, u32, u32), a: Seq<u8>, at: int, b: Seq<u8>, to: int)
    requires
        0 <= at,
        at + 64 <= a.len(),
        0 <= to,
        to + 64 <= b.len(),
        a.subrange(at, at + 64) == b.subrange(to, to + 64),
    ensures
        after_block(state, a, at) == after_block(state, b, to),
{
    let p = a.subrange(at, at + 64);
    let q = b.subrange(to, to + 64);
    assert forall|k: int| 0 <= k < 16 implies #[trigger] block_words(a, at)[k] == block_words(
        b,
        to,
    )[k] by {
        assert(p[4 * k] == a[at + 4 * k] && q[4 * k] == b[to + 4 * k]);
        assert(p[4 * k + 1] == a[at + 4 * k + 1] && q[4 * k + 1] == b[to + 4 * k + 1]);
        assert(p[4 * k + 2] == a[at + 4 * k + 2] && q[4 * k + 2] == b[to + 4 * k + 2]);
        assert(p[4 * k + 3] == a[at + 4 * k + 3] && q[4 * k + 3] == b[to + 4 * k + 3]);
    }
    assert(block_words(a, at) =~= block_words(b, to));
}

/// Blocks give the same wherever they stand.
proof fn lemma_blocks_anywhere(state: (u32, u32, u32, u32), p: Seq<u8>, q: Seq<u8>, at: int)
    requires
        0 <= at,
    ensures
        after_blocks(state, p + q, p.len() + at) == after_blocks(state, q, at),
    decreases q.len() - at,
{
    if at + 64 <= q.len() {
        assert((p + q).subrange(p.len() + at, p.len() + at + 64) =~= q.subrange(at, at + 64));
        lemma_block_anywhere(state, p + q, p.len() + at, q, at);
        lemma_blocks_anywhere(after_block(state, q, at), p, q, at + 64);
    }
}

/// The words after whole blocks and what follows them are those that what follows leads to from the
/// words after the blocks, from block `k` on.
proof fn lemma_blocks_split(state: (u32, u32, u32, u32), p: Seq<u8>, q: Seq<u8>, k: int)
    requires
        0 <= k,
        p.len() % 64 == 0,
        64 * k <= p.len(),
    ensures
        after_blocks(state, p + q, 64 * k) == after_blocks(after_blocks(state, p, 64 * k), q, 0),
    decreases p.len() - 64 * k,
{
    if 64 * k < p.len() {
        assert(64 * k + 64 <= p.len());
        assert((p + q).subrange(64 * k, 64 * k + 64) =~= p.subrange(64 * k, 64 * k + 64));
        lemma_block_anywhere(state, p + q, 64 * k, p, 64 * k);
        lemma_blocks_split(after_block(state, p, 64 * k), p, q, k + 1);
    } else {
        lemma_blocks_anywhere(state, p, q, 0);
    }
}

/// The words after joined bytes are those that the second bytes lead to from the words after the
/// first, where these are whole blocks. So every block counts, whatever its place.
pub proof fn law_blocks_are_folded(state: (u32, u32, u32, u32), p: Seq<u8>, q: Seq<u8>)
    requires
        p.len() % 64 == 0,
    ensures
        after_blocks(state, p + q, 0) == after_blocks(after_blocks(state, p, 0), q, 0),
{
    lemma_blocks_split(state, p, q, 0);
}

/// The words after a single block are those of its sixty-four steps, each added to the word before.
pub proof fn law_one_block_is_compressed(state: (u32, u32, u32, u32), block: Seq<u8>)
    requires
        block.len() == 64,
    ensures
        ({
            let words = Seq::new(16, |k: int| word_at(block, 4 * k));
            let mixed = after_steps(64, state, words);
            after_blocks(state, block, 0) == (
                ((state.0 + mixed.0) % 0x1_0000_0000) as u32,
                ((state.1 + mixed.1) % 0x1_0000_0000) as u32,
                ((state.2 + mixed.2) % 0x1_0000_0000) as u32,
                ((state.3 + mixed.3) % 0x1_0000_0000) as u32,
            )
        }),
{
    let words = Seq::new(16, |k: int| word_at(block, 4 * k));
    assert(block_words(block, 0) =~= words);
    let next = after_block(state, block, 0);
    assert(after_blocks(next, block, 64) == next);
}

/// Whether the words with index `k + 1` are those that block `k` of some bytes leads to from the
/// words with index `k`.
pub open spec fn follows(states: Seq<(u32, u32, u32, u32)>, bytes: Seq<u8>, k: int) -> bool {
    states[k + 1] == after_blocks(states[k], bytes.subrange(64 * k, 64 * k + 64), 0)
}

proof fn lemma_folded(states: Seq<(u32, u32, u32, u32)>, bytes: Seq<u8>, k: int)
    requires
        0 <= k < states.len(),
        bytes.len() == 64 * (states.len() - 1),
        forall|i: int| 0 <= i < states.len() - 1 ==> #[trigger] follows(states, bytes, i),
    ensures
        after_blocks(states[k], bytes, 64 * k) == states.last(),
    decreases states.len() - k,
{
    if k < states.len() - 1 {
        assert(follows(states, bytes, k));
        let block = bytes.subrange(64 * k, 64 * k + 64);
        assert(block.subrange(0, 64) =~= block);
        lemma_block_anywhere(states[k], bytes, 64 * k, block, 0);
        let next = after_block(states[k], block, 0);
        assert(after_blocks(next, block, 64) == next);
        assert(after_blocks(states[k], block, 0) == next);
        lemma_folded(states, bytes, k + 1);
    }
}

/// The digest of a message is the last of the words that its padded blocks lead to one after the
/// other, all of them, from the words that the digest starts from; each word in its four bytes, the
/// lowest first.
pub proof fn law_digest_takes_in_every_block(
    message: Seq<u8>,
    states: Seq<(u32, u32, u32, u32)>,
)
    requires
        states.len() > 0,
        padded(message).len() == 64 * (states.len() - 1),
        states[0] == (0x67452301u32, 0xefcdab89u32, 0x98badcfeu32, 0x10325476u32),
        forall|k: int| 0 <= k < states.len() - 1 ==> #[trigger] follows(states, padded(message), k),
    ensures
        digest(message).len() == 16,
        word_at(digest(message), 0) == states.last().0,
        word_at(digest(message), 4) == states.last().1,
        word_at(digest(message), 8) == states.last().2,
        word_at(digest(message), 12) == states.last().3,
{
    lemma_folded(states, padded(message), 0);
    let (a, b, c, d) = states.last();
    lemma_word_bytes(a);
    lemma_word_bytes(b);
    lemma_word_bytes(c);
    lemma_word_bytes(d);
    let all = digest(message);
    assert(all == word_bytes(a) + word_bytes(b) + word_bytes(c) + word_bytes(d));
    assert(all[0] == word_bytes(a)[0] && all[1] == word_bytes(a)[1] && all[2] == word_bytes(a)[2]
        && all[3] == word_bytes(a)[3]);
    assert(all[4] == word_bytes(b)[0] && all[5] == word_bytes(b)[1] && all[6] == word_bytes(b)[2]
        && all[7] == word_bytes(b)[3]);
    assert(all[8] == word_bytes(c)[0] && all[9] == word_bytes(c)[1] && all[10] == word_bytes(c)[2]
        && all[11] == word_bytes(c)[3]);
    assert(all[12] == word_bytes(d)[0] && all[13] == word_bytes(d)[1] && all[14] == word_bytes(
        d,
    )[2] && all[15] == word_bytes(d)[3]);
}

/// Four bytes give a word back.
proof fn lemma_word_bytes(word: u32)
    ensures
        word_bytes(word).len() == 4,
        word_bytes(word)[0] + word_bytes(word)[1] * 0x100 + word_bytes(word)[2] * 0x10000
            + word_bytes(word)[3] * 0x1000000 == word,
{
    let low = word % 0x100;
    let rest = word / 0x100;
    let third = rest / 0x100;
    let fourth = third / 0x100;
    assert(word / 0x10000 == third) by (nonlinear_arith)
        requires
            rest == word / 0x100,
            third == rest / 0x100,
    ;
    assert(word / 0x1000000 == fourth) by (nonlinear_arith)
        requires
            rest == word / 0x100,
            third == rest / 0x100,
            fourth == third / 0x100,
    ;
}

/// A padded message is whole blocks: the message, a byte of one set bit, zero bytes, fewer than a
/// block of them, and in the last eight bytes the number of bits of the message, the lowest byte
/// first.
pub proof fn law_padding_frames_the_message(message: Seq<u8>)
    ensures
        ({
            let p = padded(message);
            let n = message.len() as int;
            let end = p.len() as int;
            &&& end % 64 == 0
            &&& n + 9 <= end < n + 73
            &&& p.subrange(0, n) == message
            &&& p[n] == 0x80
            &&& forall|i: int| n < i < end - 8 ==> #[trigger] p[i] == 0
            &&& word_at(p, end - 8) == (8 * n) % 0x1_0000_0000
            &&& word_at(p, end - 4) == (8 * n) / 0x1_0000_0000 % 0x1_0000_0000
        }),
{
    let p = padded(message);
    let n = message.len();
    let end = p.len() as int;
    let bits = (n * 8) % 0x1_0000_0000_0000_0000;
    let low = (bits % 0x1_0000_0000) as u32;
    let high = (bits / 0x1_0000_0000) as u32;
    let zeros = zero_count(n);
    lemma_word_bytes(low);
    lemma_word_bytes(high);
    assert(end == n + 1 + zeros + 8);
    assert(p.subrange(0, n as int) =~= message);
    assert(p[end - 8] == word_bytes(low)[0] && p[end - 7] == word_bytes(low)[1] && p[end - 6]
        == word_bytes(low)[2] && p[end - 5] == word_bytes(low)[3]);
    assert(p[end - 4] == word_bytes(high)[0] && p[end - 3] == word_bytes(high)[1] && p[end - 2]
        == word_bytes(high)[2] && p[end - 1] == word_bytes(high)[3]);
    assert((n + 9 + zeros) % 64 == 0) by {
        let r = n % 64;
        assert(n == 64 * (n / 64) + r);
        assert(zeros == (119 - r) % 64);
    }
    let b = (8 * n) as int;
    assert(b % 0x1_0000_0000_0000_0000 % 0x1_0000_0000 == b % 0x1_0000_0000) by (nonlinear_arith);
    assert(b % 0x1_0000_0000_0000_0000 / 0x1_0000_0000 == b / 0x1_0000_0000 % 0x1_0000_0000)
        by (nonlinear_arith);
}

/// No two messages are padded to the same blocks, as long as their lengths in bits fit eight bytes.
pub proof fn law_padding_loses_nothing(a: Seq<u8>, b: Seq<u8>)
    requires
        padded(a) == padded(b),
        a.len() * 8 < 0x1_0000_0000_0000_0000,
        b.len() * 8 < 0x1_0000_0000_0000_0000,
    ensures
        a == b,
{
    law_padding_frames_the_message(a);
    law_padding_frames_the_message(b);
    let x = (8 * a.len()) as int;
    let y = (8 * b.len()) as int;
    assert(x / 0x1_0000_0000 < 0x1_0000_0000);
    assert(y / 0x1_0000_0000 < 0x1_0000_0000);
    assert(x == x / 0x1_0000_0000 * 0x1_0000_0000 + x % 0x1_0000_0000);
    assert(y == y / 0x1_0000_0000 * 0x1_0000_0000 + y % 0x1_0000_0000);
    assert(a.len() == b.len());
    assert(a =~= b);
}

/// Each of the four rounds of sixteen steps takes in each of the sixteen words once.
pub proof fn law_each_round_takes_in_every_word(round: int, i: int, j: int)
    requires
        0 <= round < 4,
        16 * round <= i < j < 16 * round + 16,
    ensures
        0 <= word_index(i) < 16,
        0 <= word_index(j) < 16,
        word_index(i) != word_index(j),
{
    let k = i - 16 * round;
    let m = j - 16 * round;
    if round == 0 {
    } else if round == 1 {
        assert((5 * i + 1) % 16 == (5 * k + 1) % 16);
        assert((5 * j + 1) % 16 == (5 * m + 1) % 16);
    } else if round == 2 {
        assert((3 * i + 5) % 16 == (3 * k + 5) % 16);
        assert((3 * j + 5) % 16 == (3 * m + 5) % 16);
    } else {
        assert((7 * i) % 16 == (7 * k) % 16);
        assert((7 * j) % 16 == (7 * m) % 16);
    }
}

/// How a step mixes words, bit by bit: the first round takes the bits of `c` where those of `b` are
/// set and those of `d` elsewhere, the second the bits of `b` where those of `d` are set and those
/// of `c` elsewhere, the third whether an odd number of the three is set, and the fourth whether
/// `c` differs from what is set in `b` or clear in `d`.
pub proof fn law_mixing_is_bitwise(b: u32, c: u32, d: u32, k: u32)
    requires
        k < 32,
    ensures
        ({
            let x = (b >> k) & 1 == 1;
            let y = (c >> k) & 1 == 1;
            let z = (d >> k) & 1 == 1;
            &&& forall|i: int|
                0 <= i < 16 ==> ((#[trigger] mixed(i, b, c, d) >> k) & 1 == 1) == if x {
                    y
                } else {
                    z
                }
            &&& forall|i: int|
                16 <= i < 32 ==> ((#[trigger] mixed(i, b, c, d) >> k) & 1 == 1) == if z {
                    x
                } else {
                    y
                }
            &&& forall|i: int|
                32 <= i < 48 ==> ((#[trigger] mixed(i, b, c, d) >> k) & 1 == 1) == (x != (y != z))
            &&& forall|i: int|
                48 <= i < 64 ==> ((#[trigger] mixed(i, b, c, d) >> k) & 1 == 1) == (y != (x || !z))
        }),
{
    assert(((((b & c) | (!b & d)) >> k) & 1 == 1) == if (b >> k) & 1 == 1 {
        (c >> k) & 1 == 1
    } else {
        (d >> k) & 1 == 1
    }) by (bit_vector)
        requires
            k < 32,
    ;
    assert(((((d & b) | (!d & c)) >> k) & 1 == 1) == if (d >> k) & 1 == 1 {
        (b >> k) & 1 == 1
    } else {
        (c >> k) & 1 == 1
    }) by (bit_vector)
        requires
            k < 32,
    ;
    assert((((b ^ c ^ d) >> k) & 1 == 1) == (((b >> k) & 1 == 1) != (((c >> k) & 1 == 1) != ((d
        >> k) & 1 == 1)))) by (bit_vector)
        requires
            k < 32,
    ;
    assert((((c ^ (b | !d)) >> k) & 1 == 1) == (((c >> k) & 1 == 1) != (((b >> k) & 1 == 1) || !((d
        >> k) & 1 == 1)))) by (bit_vector)
        requires
            k < 32,
    ;
}

/// A rotation moves the bit `k` to the place `n` further up, and past the top to the bottom.
pub proof fn law_rotation_moves_every_bit(x: u32, n: u32, k: u32)
    requires
        0 < n < 32,
        k < 32,
    ensures
        ((rotated(x, n) >> (((k + n) % 32) as u32)) & 1) == ((x >> k) & 1),
{
    let m = (32 - n) as u32;
    if k + n < 32 {
        let to = (k + n) as u32;
        assert((((x << n) | (x >> m)) >> to) & 1 == (x >> k) & 1) by (bit_vector)
            requires
                0 < n < 32,
                m == 32 - n,
                to == k + n,
                to < 32,
        ;
    } else {
        let to = (k + n - 32) as u32;
        assert((((x << n) | (x >> m)) >> to) & 1 == (x >> k) & 1) by (bit_vector)
            requires
                0 < n < 32,
                m == 32 - n,
                k < 32,
                to == k + n - 32,
                to < 32,
        ;
    }
}

/// The bits of a rotated word determine the word.
proof fn lemma_rotation_is_reversible(x: u32, y: u32, n: u32)
    requires
        0 < n < 32,
        rotated(x, n) == rotated(y, n),
    ensures
        x == y,
{
    let m = (32 - n) as u32;
    assert((x << n) | (x >> m) == (y << n) | (y >> m) ==> x == y) by (bit_vector)
        requires
            0 < n < 32,
            m == 32 - n,
    ;
}

/// A sum of words determines either of them from the other.
proof fn lemma_sum_cancels(a: u32, b: u32, c: u32)
    ensures
        sum(a, c) == sum(b, c) ==> a == b,
        sum(c, a) == sum(c, b) ==> a == b,
{
}

/// A step can be undone: no two states lead to the same one, and a step that takes in another word
/// leads to another state. So no step is without effect.
pub proof fn law_steps_lose_nothing(
    i: int,
    s: (u32, u32, u32, u32),
    t: (u32, u32, u32, u32),
    v: Seq<u32>,
    w: Seq<u32>,
)
    requires
        0 <= i < 64,
        stepped(i, s, v) == stepped(i, t, w),
    ensures
        s == t <==> v[word_index(i)] == w[word_index(i)],
{
    let f = mixed(i, s.1, s.2, s.3);
    let n = rotation(i);
    assert(0 < n < 32);
    let left = sum(sum(s.0, f), sum(SINES@[i], v[word_index(i)]));
    let right = sum(sum(t.0, f), sum(SINES@[i], w[word_index(i)]));
    assert(s.1 == t.1 && s.2 == t.2 && s.3 == t.3);
    lemma_sum_cancels(rotated(left, n), rotated(right, n), s.1);
    lemma_rotation_is_reversible(left, right, n);
    if s == t {
        lemma_sum_cancels(
            sum(SINES@[i], v[word_index(i)]),
            sum(SINES@[i], w[word_index(i)]),
            sum(s.0, f),
        );
        lemma_sum_cancels(v[word_index(i)], w[word_index(i)], SINES@[i]);
    }
    if v[word_index(i)] == w[word_index(i)] {
        lemma_sum_cancels(sum(s.0, f), sum(t.0, f), sum(SINES@[i], v[word_index(i)]));
        lemma_sum_cancels(s.0, t.0, f);
    }
}

} // verus!
