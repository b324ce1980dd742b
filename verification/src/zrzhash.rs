//! The Zarza-Cerberus proof-of-work hash: the "Ouroboros" sponge over a
//! 16-word state, whose 32-byte output is hashed again with BLAKE3.
use vstd::prelude::*;
use vstd::bytes::*;
use vstd::slice::slice_subrange;
use crate::crypto::{blake3_digest, blake3_hash_of};

verus! {

/// Rotation of a 64-bit word to the right by `n` bits (taken modulo 64).
pub open spec fn rotr(x: u64, n: u64) -> u64 {
    let k = n % 64;
    if k == 0 {
        x
    } else {
        (x >> k) | (x << ((64 - k) as u64))
    }
}

/// One quarter-round on the words `a`, `b`, `c`, `d` of the state.
pub open spec fn mix(s: Seq<u64>, a: int, b: int, c: int, d: int, r1: u64, r2: u64) -> Seq<u64> {
    let s1 = s.update(a, s[a].wrapping_add(s[b]));
    let s2 = s1.update(d, rotr(s1[d] ^ s1[a], r1));
    let s3 = s2.update(c, s2[c].wrapping_add(s2[d]));
    s3.update(b, rotr(s3[b] ^ s3[c], r2))
}

fn rotate_right(x: u64, n: u32) -> (r: u64)
    ensures
        r == rotr(x, n as u64),
{
    let k = n % 64;
    if k == 0 {
        x
    } else {
        (x >> k) | (x << (64 - k))
    }
}

/// The quarter-round on words `a`, `b`, `c`, `d` of the state, with the two
/// rotation amounts.
pub fn g(state: &mut [u64; 16], a: usize, b: usize, c: usize, d: usize, rot1: u32, rot2: u32)
    requires
        a < 16,
        b < 16,
        c < 16,
        d < 16,
    ensures
        final(state)@ == mix(old(state)@, a as int, b as int, c as int, d as int, rot1 as u64, rot2 as u64),
{
    state[a] = state[a].wrapping_add(state[b]);
    state[d] = rotate_right(state[d] ^ state[a], rot1);
    state[c] = state[c].wrapping_add(state[d]);
    state[b] = rotate_right(state[b] ^ state[c], rot2);
}


/// The eight quarter-rounds that make one round of the permutation.
pub open spec fn double_round(s: Seq<u64>) -> Seq<u64> {
    let s = mix(s, 0, 4, 8, 12, 32, 24);
    let s = mix(s, 1, 5, 9, 13, 16, 63);
    let s = mix(s, 2, 6, 10, 14, 32, 24);
    let s = mix(s, 3, 7, 11, 15, 16, 63);
    let s = mix(s, 0, 5, 10, 15, 32, 24);
    let s = mix(s, 1, 6, 11, 12, 16, 63);
    let s = mix(s, 2, 7, 8, 13, 32, 24);
    mix(s, 3, 4, 9, 14, 16, 63)
}

/// `n` rounds applied to the state `s`.
pub open spec fn rounds(s: Seq<u64>, n: nat) -> Seq<u64>
    decreases n,
{
    if n == 0 {
        s
    } else {
        double_round(rounds(s, (n - 1) as nat))
    }
}

/// The Ouroboros permutation: sixteen rounds.
pub open spec fn permute(s: Seq<u64>) -> Seq<u64> {
    rounds(s, 16)
}

/// The permutation applied `k` times.
pub open spec fn permute_times(s: Seq<u64>, k: nat) -> Seq<u64>
    decreases k,
{
    if k == 0 {
        s
    } else {
        permute(permute_times(s, (k - 1) as nat))
    }
}

/// The Ouroboros permutation of the state: sixteen rounds of eight
/// quarter-rounds.
pub fn ouroboros_permute(state: &mut [u64; 16])
    ensures
        final(state)@ == permute(old(state)@),
{
    let ghost start = state@;
    for i in 0..16u32
        invariant
            state@ == rounds(start, i as nat),
    {
        g(state, 0, 4, 8, 12, 32, 24);
        g(state, 1, 5, 9, 13, 16, 63);
        g(state, 2, 6, 10, 14, 32, 24);
        g(state, 3, 7, 11, 15, 16, 63);
        g(state, 0, 5, 10, 15, 32, 24);
        g(state, 1, 6, 11, 12, 16, 63);
        g(state, 2, 7, 8, 13, 32, 24);
        g(state, 3, 4, 9, 14, 16, 63);
    }
}


/// Rotation of a 64-bit word to the left by `n` bits (taken modulo 64).
pub open spec fn rotl(x: u64, n: u64) -> u64 {
    let k = n % 64;
    if k == 0 {
        x
    } else {
        (x << k) | (x >> ((64 - k) as u64))
    }
}

/// The inverse of the quarter-round `mix` on the words `a`, `b`, `c`, `d`:
/// its four steps undone in reverse order.
pub open spec fn unmix(t: Seq<u64>, a: int, b: int, c: int, d: int, r1: u64, r2: u64) -> Seq<u64> {
    let t3 = t.update(b, rotl(t[b], r2) ^ t[c]);
    let t2 = t3.update(c, t3[c].wrapping_sub(t3[d]));
    let t1 = t2.update(d, rotl(t2[d], r1) ^ t2[a]);
    t1.update(a, t1[a].wrapping_sub(t1[b]))
}

proof fn lemma_rotl_rotr(x: u64, n: u64)
    ensures
        rotl(rotr(x, n), n) == x,
{
    let k = n % 64;
    if k != 0 {
        assert(((((x >> k) | (x << ((64 - k) as u64))) << k) | (((x >> k) | (x << ((64 - k) as u64))) >> ((64 - k) as u64))) == x)
            by (bit_vector)
            requires
                0 < k < 64,
        ;
    }
}

proof fn lemma_xor_twice(x: u64, y: u64)
    ensures
        (x ^ y) ^ y == x,
{
    assert((x ^ y) ^ y == x) by (bit_vector);
}

proof fn lemma_add_then_sub(x: u64, y: u64)
    ensures
        x.wrapping_add(y).wrapping_sub(y) == x,
{
}

/// Undoing a quarter-round gives the state back: `unmix` is the inverse of
/// `mix` whenever the four words are distinct positions of the state.
pub proof fn lemma_unmix_mix(s: Seq<u64>, a: int, b: int, c: int, d: int, r1: u64, r2: u64)
    requires
        0 <= a < s.len(),
        0 <= b < s.len(),
        0 <= c < s.len(),
        0 <= d < s.len(),
        a != b && a != c && a != d && b != c && b != d && c != d,
    ensures
        unmix(mix(s, a, b, c, d, r1, r2), a, b, c, d, r1, r2) == s,
{
    let s1 = s.update(a, s[a].wrapping_add(s[b]));
    let s2 = s1.update(d, rotr(s1[d] ^ s1[a], r1));
    let s3 = s2.update(c, s2[c].wrapping_add(s2[d]));
    let s4 = s3.update(b, rotr(s3[b] ^ s3[c], r2));
    lemma_rotl_rotr(s3[b] ^ s3[c], r2);
    lemma_xor_twice(s3[b], s3[c]);
    let t3 = s4.update(b, rotl(s4[b], r2) ^ s4[c]);
    assert(t3 =~= s3);
    lemma_add_then_sub(s2[c], s2[d]);
    let t2 = t3.update(c, t3[c].wrapping_sub(t3[d]));
    assert(t2 =~= s2);
    lemma_rotl_rotr(s1[d] ^ s1[a], r1);
    lemma_xor_twice(s1[d], s1[a]);
    let t1 = t2.update(d, rotl(t2[d], r1) ^ t2[a]);
    assert(t1 =~= s1);
    lemma_add_then_sub(s[a], s[b]);
    let t0 = t1.update(a, t1[a].wrapping_sub(t1[b]));
    assert(t0 =~= s);
}

proof fn lemma_mix_injective(s: Seq<u64>, t: Seq<u64>, a: int, b: int, c: int, d: int, r1: u64, r2: u64)
    requires
        s.len() == t.len(),
        0 <= a < s.len(),
        0 <= b < s.len(),
        0 <= c < s.len(),
        0 <= d < s.len(),
        a != b && a != c && a != d && b != c && b != d && c != d,
        mix(s, a, b, c, d, r1, r2) == mix(t, a, b, c, d, r1, r2),
    ensures
        s == t,
{
    lemma_unmix_mix(s, a, b, c, d, r1, r2);
    lemma_unmix_mix(t, a, b, c, d, r1, r2);
}

proof fn lemma_double_round_injective(s: Seq<u64>, t: Seq<u64>)
    requires
        s.len() == 16,
        t.len() == 16,
        double_round(s) == double_round(t),
    ensures
        s == t,
        double_round(s).len() == 16,
{
    let s1 = mix(s, 0, 4, 8, 12, 32, 24);
    let s2 = mix(s1, 1, 5, 9, 13, 16, 63);
    let s3 = mix(s2, 2, 6, 10, 14, 32, 24);
    let s4 = mix(s3, 3, 7, 11, 15, 16, 63);
    let s5 = mix(s4, 0, 5, 10, 15, 32, 24);
    let s6 = mix(s5, 1, 6, 11, 12, 16, 63);
    let s7 = mix(s6, 2, 7, 8, 13, 32, 24);
    let t1 = mix(t, 0, 4, 8, 12, 32, 24);
    let t2 = mix(t1, 1, 5, 9, 13, 16, 63);
    let t3 = mix(t2, 2, 6, 10, 14, 32, 24);
    let t4 = mix(t3, 3, 7, 11, 15, 16, 63);
    let t5 = mix(t4, 0, 5, 10, 15, 32, 24);
    let t6 = mix(t5, 1, 6, 11, 12, 16, 63);
    let t7 = mix(t6, 2, 7, 8, 13, 32, 24);
    lemma_mix_injective(s7, t7, 3, 4, 9, 14, 16, 63);
    lemma_mix_injective(s6, t6, 2, 7, 8, 13, 32, 24);
    lemma_mix_injective(s5, t5, 1, 6, 11, 12, 16, 63);
    lemma_mix_injective(s4, t4, 0, 5, 10, 15, 32, 24);
    lemma_mix_injective(s3, t3, 3, 7, 11, 15, 16, 63);
    lemma_mix_injective(s2, t2, 2, 6, 10, 14, 32, 24);
    lemma_mix_injective(s1, t1, 1, 5, 9, 13, 16, 63);
    lemma_mix_injective(s, t, 0, 4, 8, 12, 32, 24);
}

proof fn lemma_rounds_len(s: Seq<u64>, n: nat)
    requires
        s.len() == 16,
    ensures
        rounds(s, n).len() == 16,
    decreases n,
{
    if n > 0 {
        lemma_rounds_len(s, (n - 1) as nat);
    }
}

proof fn lemma_rounds_injective(s: Seq<u64>, t: Seq<u64>, n: nat)
    requires
        s.len() == 16,
        t.len() == 16,
        rounds(s, n) == rounds(t, n),
    ensures
        s == t,
    decreases n,
{
    if n > 0 {
        lemma_rounds_len(s, (n - 1) as nat);
        lemma_rounds_len(t, (n - 1) as nat);
        lemma_double_round_injective(rounds(s, (n - 1) as nat), rounds(t, (n - 1) as nat));
        lemma_rounds_injective(s, t, (n - 1) as nat);
    }
}

/// The Ouroboros permutation is one-to-one on 16-word states: two states
/// with the same image are the same state (each quarter-round is undone by
/// `unmix`).
pub proof fn lemma_permute_injective(s: Seq<u64>, t: Seq<u64>)
    requires
        s.len() == 16,
        t.len() == 16,
        permute(s) == permute(t),
    ensures
        s == t,
{
    lemma_rounds_injective(s, t, 16);
}

/// The sixteen initial words of the state (the fractional parts of square
/// and cube roots of the first primes, as in SHA-512).
pub open spec fn initial_words() -> Seq<u64> {
    seq![
        0x6a09e667f3bcc908u64, 0xbb67ae8584caa73bu64, 0x3c6ef372fe94f82bu64, 0xa54ff53a5f1d36f1u64,
        0x510e527fade682d1u64, 0x9b05688c2b3e6c1fu64, 0x1f83d9abfb41bd6bu64, 0x5be0cd19137e2179u64,
        0x428a2f98d728ae22u64, 0x7137449123ef65cdu64, 0xb5c0fbcfec4d3b2fu64, 0xe9b5dba58189dbbcu64,
        0x3956c25bf348b538u64, 0x59f111f1b605d019u64, 0x923f82a4af194f9bu64, 0xab1c5ed5da6d8118u64,
    ]
}

/// The ASCII bytes of the domain tag "ZARZAPOW".
pub open spec fn domain_tag() -> Seq<u8> {
    seq![0x5au8, 0x41u8, 0x52u8, 0x5au8, 0x41u8, 0x50u8, 0x4fu8, 0x57u8]
}

/// The state before any input is absorbed: the initial words with the domain
/// tag (read little-endian) folded into word 0, then permuted once.
pub open spec fn seed_state() -> Seq<u64> {
    let iv = initial_words();
    permute(iv.update(0, iv[0] ^ spec_u64_from_le_bytes(domain_tag())))
}

/// How many zero bytes follow the 0x80 marker so that the padded length is a
/// multiple of 32.
pub open spec fn zero_pad_len(n: nat) -> nat {
    let r = (n + 1) % 32;
    if r == 0 {
        0
    } else {
        (32 - r) as nat
    }
}

/// The message, a 0x80 byte, and zero bytes up to a multiple of 32 bytes.
pub open spec fn padded(input: Seq<u8>) -> Seq<u8> {
    input.push(0x80u8) + Seq::new(zero_pad_len(input.len()), |i: int| 0u8)
}

/// Padding adds the 0x80 marker and then the fewest zero bytes that reach a
/// multiple of 32: the padded message starts with the message, has 0x80
/// right after it and only zero bytes after that, and its length is the
/// least multiple of 32 strictly greater than the message's length (so from
/// 0 to 31 zero bytes are added).
pub proof fn lemma_padding_is_minimal(m: Seq<u8>)
    ensures
        padded(m).len() % 32 == 0,
        m.len() < padded(m).len() <= m.len() + 32,
        padded(m).subrange(0, m.len() as int) == m,
        padded(m)[m.len() as int] == 0x80u8,
        forall|i: int| m.len() < i < padded(m).len() ==> #[trigger] padded(m)[i] == 0u8,
{
    let n = m.len();
    let p = padded(m);
    assert(p.subrange(0, n as int) =~= m);
    assert(p[n as int] == 0x80u8);
    assert forall|i: int| n < i < p.len() implies #[trigger] p[i] == 0u8 by {}
    assert(p.len() == n + 1 + zero_pad_len(n));
}

/// Word `j` (little-endian) of the 32-byte chunk `k` of `p`.
pub open spec fn chunk_word(p: Seq<u8>, k: int, j: int) -> u64 {
    spec_u64_from_le_bytes(p.subrange(32 * k + 8 * j, 32 * k + 8 * j + 8))
}

/// Folds chunk `k` of `p` into words 0..4 of the state, then permutes.
pub open spec fn absorb_chunk(s: Seq<u64>, p: Seq<u8>, k: int) -> Seq<u64> {
    permute(
        s.update(0, s[0] ^ chunk_word(p, k, 0))
         .update(1, s[1] ^ chunk_word(p, k, 1))
         .update(2, s[2] ^ chunk_word(p, k, 2))
         .update(3, s[3] ^ chunk_word(p, k, 3)),
    )
}

/// The state after absorbing the first `n` chunks of `p`.
pub open spec fn absorb(s: Seq<u64>, p: Seq<u8>, n: nat) -> Seq<u64>
    decreases n,
{
    if n == 0 {
        s
    } else {
        absorb_chunk(absorb(s, p, (n - 1) as nat), p, n - 1)
    }
}

/// The 32-byte Ouroboros digest of `data` with `nonce`: the nonce is appended
/// little-endian, the result padded and absorbed, the state permuted twelve
/// more times, and words 0..4 written out little-endian.
pub open spec fn ouroboros_digest(data: Seq<u8>, nonce: u64) -> Seq<u8> {
    let p = padded(data + spec_u64_to_le_bytes(nonce));
    let s = permute_times(absorb(seed_state(), p, p.len() / 32), 12);
    spec_u64_to_le_bytes(s[0]) + spec_u64_to_le_bytes(s[1]) + spec_u64_to_le_bytes(s[2])
        + spec_u64_to_le_bytes(s[3])
}

/// The Zarza-Cerberus hash: BLAKE3 of the Ouroboros digest.
pub open spec fn zrz_hash(data: Seq<u8>, nonce: u64) -> Seq<u8> {
    blake3_hash_of(ouroboros_digest(data, nonce))
}

/// Whether every byte of `hash` is at most the byte of `target` at the same
/// position (the proof-of-work acceptance rule).
pub open spec fn meets_target(hash: Seq<u8>, target: Seq<u8>) -> bool {
    forall|i: int| 0 <= i < 32 ==> #[trigger] hash[i] <= target[i]
}

fn load_word(p: &Vec<u8>, off: usize) -> (w: u64)
    requires
        off + 8 <= p@.len(),
    ensures
        w == spec_u64_from_le_bytes(p@.subrange(off as int, off + 8)),
{
    let n = p.len();
    assert(off + 8 <= n);
    u64_from_le_bytes(slice_subrange(p.as_slice(), off, off + 8))
}

fn seeded_state() -> (state: [u64; 16])
    ensures
        state@ == seed_state(),
{
    let mut state: [u64; 16] = [
        0x6a09e667f3bcc908, 0xbb67ae8584caa73b, 0x3c6ef372fe94f82b, 0xa54ff53a5f1d36f1,
        0x510e527fade682d1, 0x9b05688c2b3e6c1f, 0x1f83d9abfb41bd6b, 0x5be0cd19137e2179,
        0x428a2f98d728ae22, 0x7137449123ef65cd, 0xb5c0fbcfec4d3b2f, 0xe9b5dba58189dbbc,
        0x3956c25bf348b538, 0x59f111f1b605d019, 0x923f82a4af194f9b, 0xab1c5ed5da6d8118,
    ];
    let tag: [u8; 8] = [0x5a, 0x41, 0x52, 0x5a, 0x41, 0x50, 0x4f, 0x57];
    assert(state@ =~= initial_words());
    assert(tag@ =~= domain_tag());
    state[0] = state[0] ^ u64_from_le_bytes(tag.as_slice());
    ouroboros_permute(&mut state);
    state
}

fn pad_message(data: &[u8], nonce: u64) -> (p: Vec<u8>)
    ensures
        p@ == padded(data@ + spec_u64_to_le_bytes(nonce)),
        p@.len() % 32 == 0,
{
    let mut p: Vec<u8> = Vec::new();
    for i in 0..data.len()
        invariant
            p@ == data@.subrange(0, i as int),
    {
        p.push(data[i]);
    }
    let nonce_bytes = u64_to_le_bytes(nonce);
    let ghost input = data@ + spec_u64_to_le_bytes(nonce);
    for i in 0..8usize
        invariant
            nonce_bytes@ == spec_u64_to_le_bytes(nonce),
            nonce_bytes@.len() == 8,
            input == data@ + spec_u64_to_le_bytes(nonce),
            p@ == data@ + nonce_bytes@.subrange(0, i as int),
    {
        p.push(nonce_bytes[i]);
    }
    assert(p@ =~= input);
    p.push(0x80u8);
    while p.len() % 32 != 0
        invariant
            input.len() + 1 <= p@.len() <= input.len() + 1 + zero_pad_len(input.len()),
            p@ =~= input.push(0x80u8) + Seq::new((p@.len() - input.len() - 1) as nat, |i: int| 0u8),
        decreases input.len() + 1 + zero_pad_len(input.len()) - p@.len(),
    {
        p.push(0u8);
    }
    p
}

fn absorb_padded(state: &mut [u64; 16], p: &Vec<u8>)
    requires
        p@.len() % 32 == 0,
    ensures
        final(state)@ == absorb(old(state)@, p@, p@.len() / 32),
{
    let ghost start = state@;
    let n = p.len();
    let chunks = n / 32;
    for k in 0..chunks
        invariant
            n == p@.len(),
            chunks == p@.len() / 32,
            p@.len() % 32 == 0,
            state@ == absorb(start, p@, k as nat),
    {
        assert(32 * k + 32 <= p@.len()) by (nonlinear_arith)
            requires
                k < chunks,
                chunks == p@.len() / 32,
                p@.len() % 32 == 0,
        ;
        let base = 32 * k;
        state[0] = state[0] ^ load_word(p, base);
        state[1] = state[1] ^ load_word(p, base + 8);
        state[2] = state[2] ^ load_word(p, base + 16);
        state[3] = state[3] ^ load_word(p, base + 24);
        ouroboros_permute(state);
    }
}

/// The little-endian bytes of the first `j` words of `s`, concatenated.
pub open spec fn words_le(s: Seq<u64>, j: nat) -> Seq<u8>
    decreases j,
{
    if j == 0 {
        Seq::empty()
    } else {
        words_le(s, (j - 1) as nat) + spec_u64_to_le_bytes(s[j - 1])
    }
}

fn write_words(state: &[u64; 16]) -> (out: Vec<u8>)
    ensures
        out@ == spec_u64_to_le_bytes(state@[0]) + spec_u64_to_le_bytes(state@[1])
            + spec_u64_to_le_bytes(state@[2]) + spec_u64_to_le_bytes(state@[3]),
{
    let mut out: Vec<u8> = Vec::new();
    for j in 0..4usize
        invariant
            out@ == words_le(state@, j as nat),
    {
        let bytes = u64_to_le_bytes(state[j]);
        for t in 0..8usize
            invariant
                bytes@ == spec_u64_to_le_bytes(state@[j as int]),
                bytes@.len() == 8,
                out@ == words_le(state@, j as nat) + bytes@.subrange(0, t as int),
        {
            out.push(bytes[t]);
        }
        assert(bytes@.subrange(0, 8) =~= bytes@);
    }
    assert(words_le(state@, 4) =~= spec_u64_to_le_bytes(state@[0]) + spec_u64_to_le_bytes(state@[1])
        + spec_u64_to_le_bytes(state@[2]) + spec_u64_to_le_bytes(state@[3])) by {
        reveal_with_fuel(words_le, 5);
        assert(words_le(state@, 0) =~= Seq::<u8>::empty());
    }
    out
}

/// The Zarza-Cerberus hasher. It holds no state: every call hashes afresh.
#[derive(Clone, Copy, Debug)]
pub struct ZRZHasher;

impl ZRZHasher {
    /// Creates a hasher.
    pub fn new() -> (hasher: Self) {
        ZRZHasher
    }

    /// Hashes `data` with `nonce`: the Ouroboros digest of the data followed
    /// by the nonce, hashed again with BLAKE3.
    pub fn hash(&self, data: &[u8], nonce: u64) -> (digest: [u8; 32])
        ensures
            digest@ == zrz_hash(data@, nonce),
    {
        let p = pad_message(data, nonce);
        let mut state = seeded_state();
        absorb_padded(&mut state, &p);
        let ghost absorbed = state@;
        for i in 0..12u32
            invariant
                state@ == permute_times(absorbed, i as nat),
        {
            ouroboros_permute(&mut state);
        }
        let out = write_words(&state);
        blake3_digest(out.as_slice())
    }

    /// Whether the hash of `data` with `nonce` is, byte for byte, at most
    /// `target`.
    pub fn verify(&self, data: &[u8], nonce: u64, target: &[u8; 32]) -> (ok: bool)
        ensures
            ok == meets_target(zrz_hash(data@, nonce), target@),
    {
        let hash = self.hash(data, nonce);
        let mut i: usize = 0;
        while i < 32
            invariant
                i <= 32,
                hash@ == zrz_hash(data@, nonce),
                forall|k: int| 0 <= k < i ==> #[trigger] hash@[k] <= target@[k],
            decreases 32 - i,
        {
            if hash[i] > target[i] {
                return false;
            }
            i = i + 1;
        }
        true
    }
}

} // verus!
