//! The standard security handler at revision 2: the key derivation, which
//! is one MD5 with no iteration, and the cipher, which is RC4.

use vstd::prelude::*;

verus! {

/* ------------------------------------------------------------------ MD5 */

/// The per-round shift amounts of MD5.
pub open spec fn md5_shifts() -> Seq<u32> {
    seq![
        7u32, 12, 17, 22, 7, 12, 17, 22, 7, 12, 17, 22, 7, 12, 17, 22,
        5, 9, 14, 20, 5, 9, 14, 20, 5, 9, 14, 20, 5, 9, 14, 20,
        4, 11, 16, 23, 4, 11, 16, 23, 4, 11, 16, 23, 4, 11, 16, 23,
        6, 10, 15, 21, 6, 10, 15, 21, 6, 10, 15, 21, 6, 10, 15, 21
    ]
}

/// The per-round constants of MD5: the first 32 bits of the fractional part
/// of the sine of the round number, as the algorithm defines them.
pub open spec fn md5_sines() -> Seq<u32> {
    seq![
        0xd76aa478u32, 0xe8c7b756, 0x242070db, 0xc1bdceee, 0xf57c0faf, 0x4787c62a, 0xa8304613, 0xfd469501,
        0x698098d8, 0x8b44f7af, 0xffff5bb1, 0x895cd7be, 0x6b901122, 0xfd987193, 0xa679438e, 0x49b40821,
        0xf61e2562, 0xc040b340, 0x265e5a51, 0xe9b6c7aa, 0xd62f105d, 0x02441453, 0xd8a1e681, 0xe7d3fbc8,
        0x21e1cde6, 0xc33707d6, 0xf4d50d87, 0x455a14ed, 0xa9e3e905, 0xfcefa3f8, 0x676f02d9, 0x8d2a4c8a,
        0xfffa3942, 0x8771f681, 0x6d9d6122, 0xfde5380c, 0xa4beea44, 0x4bdecfa9, 0xf6bb4b60, 0xbebfbc70,
        0x289b7ec6, 0xeaa127fa, 0xd4ef3085, 0x04881d05, 0xd9d4d039, 0xe6db99e5, 0x1fa27cf8, 0xc4ac5665,
        0xf4292244, 0x432aff97, 0xab9423a7, 0xfc93a039, 0x655b59c3, 0x8f0ccc92, 0xffeff47d, 0x85845dd1,
        0x6fa87e4f, 0xfe2ce6e0, 0xa3014314, 0x4e0811a1, 0xf7537e82, 0xbd3af235, 0x2ad7d2bb, 0xeb86d391
    ]
}

pub open spec fn wadd(x: u32, y: u32) -> u32 {
    vstd::wrapping::u32_specs::wrapping_add(x, y)
}

/// A word turned left by `s` bits, `0 < s < 32`.
pub open spec fn rotl(x: u32, s: u32) -> u32 {
    (x << s) | (x >> ((32 - s) as u32))
}

/// The four words MD5 carries from block to block.
pub type Md5State = (u32, u32, u32, u32);

/// One of the sixty-four steps of a block.
pub open spec fn md5_step(st: Md5State, w: Seq<u32>, round: int) -> Md5State {
    let (a, b, c, d) = st;
    let (mixed, index) = if round < 16 {
        ((b & c) | (!b & d), round)
    } else if round < 32 {
        ((d & b) | (!d & c), (5 * round + 1) % 16)
    } else if round < 48 {
        (b ^ c ^ d, (3 * round + 5) % 16)
    } else {
        (c ^ (b | !d), (7 * round) % 16)
    };
    let mixed = wadd(wadd(wadd(mixed, a), md5_sines()[round]), w[index]);
    (d, wadd(b, rotl(mixed, md5_shifts()[round])), b, c)
}

pub open spec fn md5_steps(st: Md5State, w: Seq<u32>, n: int) -> Md5State
    decreases n,
{
    if n <= 0 { st } else { md5_step(md5_steps(st, w, n - 1), w, n - 1) }
}

/// A word of a block, its bytes taken low first.
pub open spec fn word_at(m: Seq<u8>, base: int, i: int) -> u32 {
    (m[base + 4 * i] as u32) | ((m[base + 4 * i + 1] as u32) << 8u32) | ((m[base + 4 * i + 2] as u32) << 16u32)
        | ((m[base + 4 * i + 3] as u32) << 24u32)
}

pub open spec fn block_words(m: Seq<u8>, base: int) -> Seq<u32> {
    Seq::new(16, |i: int| word_at(m, base, i))
}

/// One 64-byte block of the message folded into the state.
pub open spec fn md5_block(h: Md5State, m: Seq<u8>, base: int) -> Md5State {
    let r = md5_steps(h, block_words(m, base), 64);
    (wadd(h.0, r.0), wadd(h.1, r.1), wadd(h.2, r.2), wadd(h.3, r.3))
}

pub open spec fn md5_init() -> Md5State {
    (0x67452301u32, 0xefcdab89u32, 0x98badcfeu32, 0x10325476u32)
}

/// The state after the first `n` blocks.
pub open spec fn md5_blocks(m: Seq<u8>, n: int) -> Md5State
    decreases n,
{
    if n <= 0 { md5_init() } else { md5_block(md5_blocks(m, n - 1), m, 64 * (n - 1)) }
}

/// How many zero bytes follow the `0x80` so that the length comes out at 56
/// past a multiple of 64.
pub open spec fn md5_zeros(len: int) -> int {
    (119 - len % 64) % 64
}

/// A 64-bit number's bytes, low first.
pub open spec fn le64(v: u64) -> Seq<u8> {
    Seq::new(8, |i: int| ((v >> (8 * i) as u64) & 0xff) as u8)
}

/// A 32-bit number's bytes, low first.
pub open spec fn le32(v: u32) -> Seq<u8> {
    seq![(v & 0xff) as u8, ((v >> 8u32) & 0xff) as u8, ((v >> 16u32) & 0xff) as u8, ((v >> 24u32) & 0xff) as u8]
}

/// The message MD5 hashes: the input, `0x80`, zeros, and the input's length
/// in bits.
pub open spec fn md5_message(input: Seq<u8>) -> Seq<u8> {
    input + seq![0x80u8] + Seq::new(md5_zeros(input.len() as int) as nat, |i: int| 0u8)
        + le64(vstd::wrapping::u64_specs::wrapping_mul(input.len() as u64, 8))
}

/// MD5 of a sequence of bytes, as RFC 1321 defines it.
pub open spec fn md5_digest(input: Seq<u8>) -> Seq<u8> {
    let m = md5_message(input);
    let h = md5_blocks(m, (m.len() / 64) as int);
    le32(h.0) + le32(h.1) + le32(h.2) + le32(h.3)
}

pub(crate) fn shifts() -> (r: Vec<u32>)
    ensures
        r@ == md5_shifts(),
{
    let r = vec![
        7u32, 12, 17, 22, 7, 12, 17, 22, 7, 12, 17, 22, 7, 12, 17, 22,
        5, 9, 14, 20, 5, 9, 14, 20, 5, 9, 14, 20, 5, 9, 14, 20,
        4, 11, 16, 23, 4, 11, 16, 23, 4, 11, 16, 23, 4, 11, 16, 23,
        6, 10, 15, 21, 6, 10, 15, 21, 6, 10, 15, 21, 6, 10, 15, 21
    ];
    proof { assert(r@ =~= md5_shifts()); }
    r
}

pub(crate) fn sines() -> (r: Vec<u32>)
    ensures
        r@ == md5_sines(),
{
    let r = vec![
        0xd76aa478u32, 0xe8c7b756, 0x242070db, 0xc1bdceee, 0xf57c0faf, 0x4787c62a, 0xa8304613, 0xfd469501,
        0x698098d8, 0x8b44f7af, 0xffff5bb1, 0x895cd7be, 0x6b901122, 0xfd987193, 0xa679438e, 0x49b40821,
        0xf61e2562, 0xc040b340, 0x265e5a51, 0xe9b6c7aa, 0xd62f105d, 0x02441453, 0xd8a1e681, 0xe7d3fbc8,
        0x21e1cde6, 0xc33707d6, 0xf4d50d87, 0x455a14ed, 0xa9e3e905, 0xfcefa3f8, 0x676f02d9, 0x8d2a4c8a,
        0xfffa3942, 0x8771f681, 0x6d9d6122, 0xfde5380c, 0xa4beea44, 0x4bdecfa9, 0xf6bb4b60, 0xbebfbc70,
        0x289b7ec6, 0xeaa127fa, 0xd4ef3085, 0x04881d05, 0xd9d4d039, 0xe6db99e5, 0x1fa27cf8, 0xc4ac5665,
        0xf4292244, 0x432aff97, 0xab9423a7, 0xfc93a039, 0x655b59c3, 0x8f0ccc92, 0xffeff47d, 0x85845dd1,
        0x6fa87e4f, 0xfe2ce6e0, 0xa3014314, 0x4e0811a1, 0xf7537e82, 0xbd3af235, 0x2ad7d2bb, 0xeb86d391
    ];
    proof { assert(r@ =~= md5_sines()); }
    r
}

/// The sixteen words of the block at `base`.
pub(crate) fn words_of(message: &Vec<u8>, base: usize) -> (r: Vec<u32>)
    requires
        base + 64 <= message@.len(),
        message@.len() <= usize::MAX,
    ensures
        r@ == block_words(message@, base as int),
{
    let mut words: Vec<u32> = Vec::new();
    let mut w: usize = 0;
    while w < 16
        invariant
            w <= 16,
            base + 64 <= message@.len(),
            message@.len() <= usize::MAX,
            words@ == block_words(message@, base as int).take(w as int),
        decreases 16 - w,
    {
        let at = base + 4 * w;
        let word = (message[at] as u32) | ((message[at + 1] as u32) << 8u32) | ((message[at + 2] as u32) << 16u32)
            | ((message[at + 3] as u32) << 24u32);
        words.push(word);
        proof {
            assert(block_words(message@, base as int).take(w + 1) =~= block_words(message@, base as int).take(w as int).push(word));
        }
        w = w + 1;
    }
    proof { assert(block_words(message@, base as int).take(16) =~= block_words(message@, base as int)); }
    words
}

/// The sixty-four steps of one block.
pub(crate) fn md5_rounds(st: Md5State, w: &Vec<u32>, table: &Vec<u32>, shift: &Vec<u32>) -> (r: Md5State)
    requires
        w@.len() == 16,
        table@ == md5_sines(),
        shift@ == md5_shifts(),
    ensures
        r == md5_steps(st, w@, 64),
{
    let (mut a, mut b, mut c, mut d) = st;
    let mut round: usize = 0;
    while round < 64
        invariant
            round <= 64,
            w@.len() == 16,
            table@ == md5_sines(),
            shift@ == md5_shifts(),
            (a, b, c, d) == md5_steps(st, w@, round as int),
        decreases 64 - round,
    {
        let (mixed, index) = if round < 16 {
            ((b & c) | (!b & d), round)
        } else if round < 32 {
            ((d & b) | (!d & c), (5 * round + 1) % 16)
        } else if round < 48 {
            (b ^ c ^ d, (3 * round + 5) % 16)
        } else {
            (c ^ (b | !d), (7 * round) % 16)
        };
        let mixed = mixed.wrapping_add(a).wrapping_add(table[round]).wrapping_add(w[index]);
        let s = shift[round];
        proof { assert(0 < s < 32) by { assert(md5_shifts()[round as int] == s); } }
        let turned = (mixed << s) | (mixed >> (32 - s));
        a = d;
        d = c;
        c = b;
        b = b.wrapping_add(turned);
        round = round + 1;
    }
    (a, b, c, d)
}

/// MD5, for the key derivation of the security handler and for nothing
/// else: a hash in a library is a hash somebody may reach for later
/// believing it is fit for something. This one is not.
pub(crate) fn md5(input: &[u8]) -> (r: Vec<u8>)
    requires
        input@.len() + 72 <= usize::MAX,
    ensures
        r@ == md5_digest(input@),
        r@.len() == 16,
{
    let table = sines();
    let shift = shifts();
    let mut message: Vec<u8> = Vec::new();
    let mut i: usize = 0;
    while i < input.len()
        invariant
            i <= input@.len(),
            message@ == input@.take(i as int),
        decreases input@.len() - i,
    {
        message.push(input[i]);
        proof { assert(input@.take(i + 1) =~= input@.take(i as int).push(input@[i as int])); }
        i = i + 1;
    }
    proof { assert(input@.take(input@.len() as int) =~= input@); }
    let bits = (input.len() as u64).wrapping_mul(8);
    message.push(0x80);
    let zeros = (119 - input.len() % 64) % 64;
    let mut z: usize = 0;
    while z < zeros
        invariant
            z <= zeros,
            zeros == md5_zeros(input@.len() as int),
            input@.len() + 72 <= usize::MAX,
            message@ == input@ + seq![0x80u8] + Seq::new(z as nat, |i: int| 0u8),
        decreases zeros - z,
    {
        message.push(0);
        proof {
            assert(input@ + seq![0x80u8] + Seq::new((z + 1) as nat, |i: int| 0u8)
                =~= (input@ + seq![0x80u8] + Seq::new(z as nat, |i: int| 0u8)).push(0u8));
        }
        z = z + 1;
    }
    let mut k: usize = 0;
    let ghost before = message@;
    while k < 8
        invariant
            k <= 8,
            message@ == before + le64(bits).take(k as int),
        decreases 8 - k,
    {
        let byte = ((bits >> (8 * k) as u64) & 0xff) as u8;
        message.push(byte);
        proof { assert(before + le64(bits).take(k + 1) =~= (before + le64(bits).take(k as int)).push(byte)); }
        k = k + 1;
    }
    proof {
        assert(le64(bits).take(8) =~= le64(bits));
        assert(message@ =~= md5_message(input@));
        assert(message@.len() % 64 == 0);
    }
    let limit = message.len();
    let blocks = limit / 64;
    let mut h: Md5State = (0x6745_2301, 0xefcd_ab89, 0x98ba_dcfe, 0x1032_5476);
    let mut n: usize = 0;
    while n < blocks
        invariant
            n <= blocks,
            limit == message@.len(),
            blocks == message@.len() / 64,
            table@ == md5_sines(),
            shift@ == md5_shifts(),
            h == md5_blocks(message@, n as int),
        decreases blocks - n,
    {
        proof {
            assert(64 * n + 64 <= message@.len()) by (nonlinear_arith)
                requires
                    n < blocks,
                    blocks == message@.len() / 64,
            ;
        }
        let base = 64 * n;
        let words = words_of(&message, base);
        let r = md5_rounds(h, &words, &table, &shift);
        h = (h.0.wrapping_add(r.0), h.1.wrapping_add(r.1), h.2.wrapping_add(r.2), h.3.wrapping_add(r.3));
        n = n + 1;
    }
    let mut out: Vec<u8> = Vec::new();
    let words = [h.0, h.1, h.2, h.3];
    let mut j: usize = 0;
    while j < 4
        invariant
            j <= 4,
            words@ == seq![h.0, h.1, h.2, h.3],
            out@ == if j == 0 { Seq::empty() } else if j == 1 { le32(h.0) } else if j == 2 { le32(h.0) + le32(h.1) } else if j == 3 {
                le32(h.0) + le32(h.1) + le32(h.2) } else { le32(h.0) + le32(h.1) + le32(h.2) + le32(h.3) },
        decreases 4 - j,
    {
        let v = words[j];
        let ghost start = out@;
        out.push((v & 0xff) as u8);
        out.push(((v >> 8u32) & 0xff) as u8);
        out.push(((v >> 16u32) & 0xff) as u8);
        out.push(((v >> 24u32) & 0xff) as u8);
        proof { assert(out@ =~= start + le32(v)); }
        j = j + 1;
    }
    out
}

/// Bytes as the digits a PDF hexadecimal string is written in.
pub open spec fn hex_of(bytes: Seq<u8>) -> Seq<char>
    decreases bytes.len(),
{
    if bytes.len() == 0 { Seq::empty() } else { hex_of(bytes.drop_last()) + crate::palette::byte_hex(bytes.last()) }
}

pub(crate) fn hex(bytes: &[u8]) -> (r: String)
    ensures
        r@ == hex_of(bytes@),
{
    let mut out: Vec<char> = Vec::new();
    let mut i: usize = 0;
    while i < bytes.len()
        invariant
            i <= bytes@.len(),
            out@ == hex_of(bytes@.take(i as int)),
        decreases bytes@.len() - i,
    {
        proof { assert(bytes@.take(i + 1).drop_last() =~= bytes@.take(i as int)); }
        crate::palette::push_byte(&mut out, bytes[i]);
        i = i + 1;
    }
    proof { assert(bytes@.take(bytes@.len() as int) =~= bytes@); }
    crate::text::string_of(out.as_slice())
}

/// MD5 of some bytes, as hexadecimal: the one door onto the hash, so that a
/// test can check it against the RFC's vectors.
pub fn digest_for_test(bytes: &[u8]) -> (r: String)
    requires
        bytes@.len() + 72 <= usize::MAX,
    ensures
        r@ == hex_of(md5_digest(bytes@)),
{
    let digest = md5(bytes);
    hex(digest.as_slice())
}

/* ------------------------------------------------------------------ RC4 */

/// Two places of a sequence exchanged.
pub open spec fn swapped(s: Seq<u8>, i: int, j: int) -> Seq<u8> {
    s.update(i, s[j]).update(j, s[i])
}

/// RC4's key schedule after the first `n` of its 256 steps: the state, and
/// the second index.
pub open spec fn schedule(key: Seq<u8>, n: int) -> (Seq<u8>, int)
    decreases n,
{
    if n <= 0 {
        (Seq::new(256, |i: int| i as u8), 0)
    } else {
        let (s, j0) = schedule(key, n - 1);
        let i = n - 1;
        let j = (j0 + s[i] + key[i % key.len() as int]) % 256;
        (swapped(s, i, j), j)
    }
}

/// RC4 over the first `n` bytes of `data`: what came out, and the state and
/// the two indices after.
pub open spec fn keystream(key: Seq<u8>, data: Seq<u8>, n: int) -> (Seq<u8>, Seq<u8>, int, int)
    decreases n,
{
    if n <= 0 {
        (Seq::empty(), schedule(key, 256).0, 0, 0)
    } else {
        let (out, s0, i0, j0) = keystream(key, data, n - 1);
        let i = (i0 + 1) % 256;
        let j = (j0 + s0[i]) % 256;
        let s = swapped(s0, i, j);
        (out.push(data[n - 1] ^ s[(s[i] + s[j]) % 256]), s, i, j)
    }
}

/// RC4 of `data` under `key`.
pub open spec fn rc4_of(key: Seq<u8>, data: Seq<u8>) -> Seq<u8> {
    keystream(key, data, data.len() as int).0
}

proof fn lemma_schedule_len(key: Seq<u8>, n: int)
    requires
        0 <= n <= 256,
        key.len() > 0,
    ensures
        schedule(key, n).0.len() == 256,
        0 <= schedule(key, n).1 < 256,
    decreases n,
{
    if n > 0 {
        lemma_schedule_len(key, n - 1);
    }
}

proof fn lemma_keystream_len(key: Seq<u8>, data: Seq<u8>, n: int)
    requires
        0 <= n <= data.len(),
        key.len() > 0,
    ensures
        keystream(key, data, n).0.len() == n,
        keystream(key, data, n).1.len() == 256,
        0 <= keystream(key, data, n).2 < 256,
        0 <= keystream(key, data, n).3 < 256,
    decreases n,
{
    lemma_schedule_len(key, 256);
    if n > 0 {
        lemma_keystream_len(key, data, n - 1);
    }
}

pub(crate) fn swap_in(state: &mut Vec<u8>, i: usize, j: usize)
    requires
        i < old(state)@.len(),
        j < old(state)@.len(),
    ensures
        final(state)@ == swapped(old(state)@, i as int, j as int),
{
    let a = state[i];
    let b = state[j];
    state.set(i, b);
    state.set(j, a);
    proof { assert(state@ =~= swapped(old(state)@, i as int, j as int)); }
}

/// RC4, which is the whole of what revision 2 encrypts with.
pub(crate) fn rc4(key: &[u8], data: &[u8]) -> (r: Vec<u8>)
    requires
        key@.len() > 0,
    ensures
        r@ == rc4_of(key@, data@),
        r@.len() == data@.len(),
{
    let mut state: Vec<u8> = Vec::new();
    let mut k: usize = 0;
    while k < 256
        invariant
            k <= 256,
            state@ == Seq::new(k as nat, |i: int| i as u8),
        decreases 256 - k,
    {
        state.push(k as u8);
        proof { assert(state@ =~= Seq::new((k + 1) as nat, |i: int| i as u8)); }
        k = k + 1;
    }
    let mut j: usize = 0;
    let mut i: usize = 0;
    while i < 256
        invariant
            key@.len() > 0,
            i <= 256,
            (state@, j as int) == schedule(key@, i as int),
        decreases 256 - i,
    {
        proof { lemma_schedule_len(key@, i as int); }
        j = (j + state[i] as usize + key[i % key.len()] as usize) % 256;
        swap_in(&mut state, i, j);
        i = i + 1;
    }
    let mut out: Vec<u8> = Vec::new();
    let (mut i, mut j) = (0usize, 0usize);
    let mut n: usize = 0;
    while n < data.len()
        invariant
            key@.len() > 0,
            n <= data@.len(),
            (out@, state@, i as int, j as int) == keystream(key@, data@, n as int),
        decreases data@.len() - n,
    {
        proof { lemma_keystream_len(key@, data@, n as int); }
        i = (i + 1) % 256;
        j = (j + state[i] as usize) % 256;
        swap_in(&mut state, i, j);
        let byte = data[n] ^ state[(state[i] as usize + state[j] as usize) % 256];
        out.push(byte);
        n = n + 1;
    }
    proof { lemma_keystream_len(key@, data@, n as int); }
    out
}

/* ------------------------------------------------- the security handler */

/// The 32 bytes every password is padded with, from the standard's own
/// table.
pub open spec fn pad_bytes() -> Seq<u8> {
    seq![
        0x28u8, 0xBF, 0x4E, 0x5E, 0x4E, 0x75, 0x8A, 0x41, 0x64, 0x00, 0x4E, 0x56, 0xFF, 0xFA, 0x01, 0x08,
        0x2E, 0x2E, 0x00, 0xB6, 0xD0, 0x68, 0x3E, 0x80, 0x2F, 0x0C, 0xA9, 0xFE, 0x64, 0x53, 0x69, 0x7A
    ]
}

pub(crate) fn pad() -> (r: Vec<u8>)
    ensures
        r@ == pad_bytes(),
{
    let r = vec![
        0x28u8, 0xBF, 0x4E, 0x5E, 0x4E, 0x75, 0x8A, 0x41, 0x64, 0x00, 0x4E, 0x56, 0xFF, 0xFA, 0x01, 0x08,
        0x2E, 0x2E, 0x00, 0xB6, 0xD0, 0x68, 0x3E, 0x80, 0x2F, 0x0C, 0xA9, 0xFE, 0x64, 0x53, 0x69, 0x7A
    ];
    proof { assert(r@ =~= pad_bytes()); }
    r
}

/// A password as the handler wants it: its first 32 bytes, made up to 32
/// with the start of the padding. The rest of a longer one is ignored, which
/// is the standard's rule.
pub open spec fn padded_of(given: Seq<u8>) -> Seq<u8> {
    let taken = if given.len() < 32 { given.len() as int } else { 32 };
    given.take(taken) + pad_bytes().take(32 - taken)
}

pub(crate) fn extend(out: &mut Vec<u8>, more: &[u8])
    ensures
        final(out)@ == old(out)@ + more@,
{
    let mut i: usize = 0;
    while i < more.len()
        invariant
            i <= more@.len(),
            out@ == old(out)@ + more@.take(i as int),
        decreases more@.len() - i,
    {
        out.push(more[i]);
        proof { assert(old(out)@ + more@.take(i + 1) =~= (old(out)@ + more@.take(i as int)).push(more@[i as int])); }
        i = i + 1;
    }
    proof { assert(more@.take(more@.len() as int) =~= more@); }
}

pub(crate) fn padded(password: &str) -> (r: Vec<u8>)
    ensures
        r@ == padded_of(vstd::utf8::encode_utf8(password@)),
        r@.len() == 32,
{
    let given = password.as_bytes();
    let taken = if given.len() < 32 { given.len() } else { 32 };
    let mut out: Vec<u8> = Vec::new();
    let mut i: usize = 0;
    while i < taken
        invariant
            taken <= given@.len(),
            taken <= 32,
            i <= taken,
            out@ == given@.take(i as int),
        decreases taken - i,
    {
        out.push(given[i]);
        proof { assert(given@.take(i + 1) =~= given@.take(i as int).push(given@[i as int])); }
        i = i + 1;
    }
    let fill = pad();
    let mut k: usize = 0;
    while k < 32 - taken
        invariant
            taken <= 32,
            fill@ == pad_bytes(),
            k <= 32 - taken,
            out@ == given@.take(taken as int) + pad_bytes().take(k as int),
        decreases 32 - taken - k,
    {
        out.push(fill[k]);
        proof {
            assert(given@.take(taken as int) + pad_bytes().take(k + 1) =~= (given@.take(taken as int) + pad_bytes().take(k as int)).push(pad_bytes()[k as int]));
        }
        k = k + 1;
    }
    out
}

/// The file encryption key: one MD5 over the padded password, the `/O`
/// entry, the permissions (`/P -1`, low byte first) and the file identifier,
/// cut to five bytes.
pub open spec fn key_of(password: Seq<u8>, owner: Seq<u8>, id: Seq<u8>) -> Seq<u8> {
    md5_digest(padded_of(password) + owner + seq![0xffu8, 0xff, 0xff, 0xff] + id).take(5)
}

pub(crate) fn encryption_key(password: &str, owner: &[u8], id: &[u8]) -> (r: Vec<u8>)
    requires
        owner@.len() <= 32,
        id@.len() <= 16,
    ensures
        r@ == key_of(vstd::utf8::encode_utf8(password@), owner@, id@),
        r@.len() == 5,
{
    let mut fed = padded(password);
    extend(&mut fed, owner);
    let all: [u8; 4] = [0xff, 0xff, 0xff, 0xff];
    extend(&mut fed, all.as_slice());
    extend(&mut fed, id);
    proof { assert(all@ =~= seq![0xffu8, 0xff, 0xff, 0xff]); }
    let digest = md5(fed.as_slice());
    let mut out: Vec<u8> = Vec::new();
    let mut i: usize = 0;
    while i < 5
        invariant
            i <= 5,
            digest@.len() == 16,
            out@ == digest@.take(i as int),
        decreases 5 - i,
    {
        out.push(digest[i]);
        proof { assert(digest@.take(i + 1) =~= digest@.take(i as int).push(digest@[i as int])); }
        i = i + 1;
    }
    out
}

/// The key one object's bytes are encrypted under: the file key with the
/// object's number (three bytes, low first) and generation 0, hashed, and
/// cut to the key's length and five, sixteen at most.
pub open spec fn object_key_of(key: Seq<u8>, object: u32) -> Seq<u8> {
    let taken = if key.len() + 5 < 16 { key.len() + 5 } else { 16 };
    md5_digest(key + le32(object).take(3) + seq![0u8, 0u8]).take(taken as int)
}

pub(crate) fn object_key(key: &[u8], object: u32) -> (r: Vec<u8>)
    requires
        key@.len() <= 64,
    ensures
        r@ == object_key_of(key@, object),
{
    let mut fed: Vec<u8> = Vec::new();
    extend(&mut fed, key);
    let number: [u8; 3] = [(object & 0xff) as u8, ((object >> 8u32) & 0xff) as u8, ((object >> 16u32) & 0xff) as u8];
    extend(&mut fed, number.as_slice());
    let generation: [u8; 2] = [0, 0];
    extend(&mut fed, generation.as_slice());
    proof {
        assert(number@ =~= le32(object).take(3));
        assert(generation@ =~= seq![0u8, 0u8]);
    }
    let taken = if key.len() + 5 < 16 { key.len() + 5 } else { 16 };
    let digest = md5(fed.as_slice());
    let mut out: Vec<u8> = Vec::new();
    let mut i: usize = 0;
    while i < taken
        invariant
            taken <= 16,
            i <= taken,
            digest@.len() == 16,
            out@ == digest@.take(i as int),
        decreases taken - i,
    {
        out.push(digest[i]);
        proof { assert(digest@.take(i + 1) =~= digest@.take(i as int).push(digest@[i as int])); }
        i = i + 1;
    }
    out
}

} // verus!
