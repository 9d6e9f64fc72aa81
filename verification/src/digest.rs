//! SHA-256, as FIPS 180-4 defines it: what a file is told by.
use crate::text;
use vstd::prelude::*;

verus! {

/// The most bytes there is a digest of: their number of bits has 64 bits.
pub const MOST_BYTES: u64 = 0x1fff_ffff_ffff_ffff;

/// The constant of each round.
pub const ROUND: [u32; 64] = [
    0x428a_2f98, 0x7137_4491, 0xb5c0_fbcf, 0xe9b5_dba5, 0x3956_c25b, 0x59f1_11f1,
    0x923f_82a4, 0xab1c_5ed5, 0xd807_aa98, 0x1283_5b01, 0x2431_85be, 0x550c_7dc3,
    0x72be_5d74, 0x80de_b1fe, 0x9bdc_06a7, 0xc19b_f174, 0xe49b_69c1, 0xefbe_4786,
    0x0fc1_9dc6, 0x240c_a1cc, 0x2de9_2c6f, 0x4a74_84aa, 0x5cb0_a9dc, 0x76f9_88da,
    0x983e_5152, 0xa831_c66d, 0xb003_27c8, 0xbf59_7fc7, 0xc6e0_0bf3, 0xd5a7_9147,
    0x06ca_6351, 0x1429_2967, 0x27b7_0a85, 0x2e1b_2138, 0x4d2c_6dfc, 0x5338_0d13,
    0x650a_7354, 0x766a_0abb, 0x81c2_c92e, 0x9272_2c85, 0xa2bf_e8a1, 0xa81a_664b,
    0xc24b_8b70, 0xc76c_51a3, 0xd192_e819, 0xd699_0624, 0xf40e_3585, 0x106a_a070,
    0x19a4_c116, 0x1e37_6c08, 0x2748_774c, 0x34b0_bcb5, 0x391c_0cb3, 0x4ed8_aa4a,
    0x5b9c_ca4f, 0x682e_6ff3, 0x748f_82ee, 0x78a5_636f, 0x84c8_7814, 0x8cc7_0208,
    0x90be_fffa, 0xa450_6ceb, 0xbef9_a3f7, 0xc671_78f2,
];

/// The eight words that are carried from block to block.
#[derive(Debug, Clone, Copy, PartialEq, Eq, Structural)]
pub struct Words {
    pub a: u32,
    pub b: u32,
    pub c: u32,
    pub d: u32,
    pub e: u32,
    pub f: u32,
    pub g: u32,
    pub h: u32,
}

/// The words before the first block.
pub open spec fn initial() -> Words {
    Words {
        a: 0x6a09_e667,
        b: 0xbb67_ae85,
        c: 0x3c6e_f372,
        d: 0xa54f_f53a,
        e: 0x510e_527f,
        f: 0x9b05_688c,
        g: 0x1f83_d9ab,
        h: 0x5be0_cd19,
    }
}

fn initial_words() -> (r: Words)
    ensures
        r == initial(),
{
    Words {
        a: 0x6a09_e667,
        b: 0xbb67_ae85,
        c: 0x3c6e_f372,
        d: 0xa54f_f53a,
        e: 0x510e_527f,
        f: 0x9b05_688c,
        g: 0x1f83_d9ab,
        h: 0x5be0_cd19,
    }
}

// ---------------------------------------------------------------- one block

/// The first mix of a word in a round.
pub open spec fn big0(x: u32) -> u32 {
    ((x >> 2u32) | (x << 30u32)) ^ ((x >> 13u32) | (x << 19u32)) ^ ((x >> 22u32) | (x << 10u32))
}

fn big0_of(x: u32) -> (r: u32)
    ensures
        r == big0(x),
{
    ((x >> 2u32) | (x << 30u32)) ^ ((x >> 13u32) | (x << 19u32)) ^ ((x >> 22u32) | (x << 10u32))
}

/// The second mix of a word in a round.
pub open spec fn big1(x: u32) -> u32 {
    ((x >> 6u32) | (x << 26u32)) ^ ((x >> 11u32) | (x << 21u32)) ^ ((x >> 25u32) | (x << 7u32))
}

fn big1_of(x: u32) -> (r: u32)
    ensures
        r == big1(x),
{
    ((x >> 6u32) | (x << 26u32)) ^ ((x >> 11u32) | (x << 21u32)) ^ ((x >> 25u32) | (x << 7u32))
}

/// The first mix of a word in the schedule.
pub open spec fn small0(x: u32) -> u32 {
    ((x >> 7u32) | (x << 25u32)) ^ ((x >> 18u32) | (x << 14u32)) ^ (x >> 3u32)
}

fn small0_of(x: u32) -> (r: u32)
    ensures
        r == small0(x),
{
    ((x >> 7u32) | (x << 25u32)) ^ ((x >> 18u32) | (x << 14u32)) ^ (x >> 3u32)
}

/// The second mix of a word in the schedule.
pub open spec fn small1(x: u32) -> u32 {
    ((x >> 17u32) | (x << 15u32)) ^ ((x >> 19u32) | (x << 13u32)) ^ (x >> 10u32)
}

fn small1_of(x: u32) -> (r: u32)
    ensures
        r == small1(x),
{
    ((x >> 17u32) | (x << 15u32)) ^ ((x >> 19u32) | (x << 13u32)) ^ (x >> 10u32)
}

/// `y` where a bit of `x` is set, and `z` where it is not.
pub open spec fn choice(x: u32, y: u32, z: u32) -> u32 {
    (x & y) ^ (!x & z)
}

/// What two of the three hold, bit by bit.
pub open spec fn majority(x: u32, y: u32, z: u32) -> u32 {
    (x & y) ^ (x & z) ^ (y & z)
}

/// The word four bytes spell, the most significant first.
pub open spec fn big_endian(a: u8, b: u8, c: u8, d: u8) -> u32 {
    ((a as u32) << 24u32) | ((b as u32) << 16u32) | ((c as u32) << 8u32) | (d as u32)
}

/// The `t`th word of the schedule of a block.
pub open spec fn scheduled(block: Seq<u8>, t: nat) -> u32
    decreases t,
{
    if t < 16 {
        let i = 4 * t as int;
        big_endian(block[i], block[i + 1], block[i + 2], block[i + 3])
    } else {
        small1(scheduled(block, (t - 2) as nat)).wrapping_add(
            scheduled(block, (t - 7) as nat),
        ).wrapping_add(small0(scheduled(block, (t - 15) as nat))).wrapping_add(
            scheduled(block, (t - 16) as nat),
        )
    }
}

/// One round, with its constant and its word of the schedule.
pub open spec fn round(s: Words, k: u32, w: u32) -> Words {
    let t1 = s.h.wrapping_add(big1(s.e)).wrapping_add(choice(s.e, s.f, s.g)).wrapping_add(
        k,
    ).wrapping_add(w);
    let t2 = big0(s.a).wrapping_add(majority(s.a, s.b, s.c));
    Words {
        a: t1.wrapping_add(t2),
        b: s.a,
        c: s.b,
        d: s.c,
        e: s.d.wrapping_add(t1),
        f: s.e,
        g: s.f,
        h: s.g,
    }
}

/// The first `n` rounds over a block.
pub open spec fn rounds(s: Words, block: Seq<u8>, n: nat) -> Words
    decreases n,
{
    if n == 0 {
        s
    } else {
        let t = (n - 1) as nat;
        round(rounds(s, block, t), ROUND@[t as int], scheduled(block, t))
    }
}

/// The words after a block.
pub open spec fn absorbed(s: Words, block: Seq<u8>) -> Words {
    let r = rounds(s, block, 64);
    Words {
        a: s.a.wrapping_add(r.a),
        b: s.b.wrapping_add(r.b),
        c: s.c.wrapping_add(r.c),
        d: s.d.wrapping_add(r.d),
        e: s.e.wrapping_add(r.e),
        f: s.f.wrapping_add(r.f),
        g: s.g.wrapping_add(r.g),
        h: s.h.wrapping_add(r.h),
    }
}

fn next_round(s: Words, k: u32, w: u32) -> (r: Words)
    ensures
        r == round(s, k, w),
{
    let chosen: u32 = (s.e & s.f) ^ (!s.e & s.g);
    let most: u32 = (s.a & s.b) ^ (s.a & s.c) ^ (s.b & s.c);
    let t1: u32 = s.h.wrapping_add(big1_of(s.e)).wrapping_add(chosen).wrapping_add(k).wrapping_add(w);
    let t2: u32 = big0_of(s.a).wrapping_add(most);
    Words {
        a: t1.wrapping_add(t2),
        b: s.a,
        c: s.b,
        d: s.c,
        e: s.d.wrapping_add(t1),
        f: s.e,
        g: s.f,
        h: s.g,
    }
}

fn absorb(s: Words, block: &Vec<u8>) -> (r: Words)
    requires
        block@.len() == 64,
    ensures
        r == absorbed(s, block@),
{
    let mut w: [u32; 64] = [0u32; 64];
    let mut t: usize = 0;
    while t < 64
        invariant
            t <= 64,
            block@.len() == 64,
            w@.len() == 64,
            forall|j: int| 0 <= j < t ==> #[trigger] w@[j] == scheduled(block@, j as nat),
        decreases 64 - t,
    {
        let word: u32 = if t < 16 {
            let (a, b) = (block[4 * t] as u32, block[4 * t + 1] as u32);
            let (c, d) = (block[4 * t + 2] as u32, block[4 * t + 3] as u32);
            (a << 24u32) | (b << 16u32) | (c << 8u32) | d
        } else {
            small1_of(w[t - 2]).wrapping_add(w[t - 7]).wrapping_add(
                small0_of(w[t - 15]),
            ).wrapping_add(w[t - 16])
        };
        assert(word == scheduled(block@, t as nat));
        w[t] = word;
        t = t + 1;
    }
    let mut r: Words = s;
    let mut n: usize = 0;
    while n < 64
        invariant
            n <= 64,
            w@.len() == 64,
            r == rounds(s, block@, n as nat),
            forall|j: int| 0 <= j < 64 ==> #[trigger] w@[j] == scheduled(block@, j as nat),
        decreases 64 - n,
    {
        r = next_round(r, ROUND[n], w[n]);
        n = n + 1;
    }
    Words {
        a: s.a.wrapping_add(r.a),
        b: s.b.wrapping_add(r.b),
        c: s.c.wrapping_add(r.c),
        d: s.d.wrapping_add(r.d),
        e: s.e.wrapping_add(r.e),
        f: s.f.wrapping_add(r.f),
        g: s.g.wrapping_add(r.g),
        h: s.h.wrapping_add(r.h),
    }
}

// ---------------------------------------------------------------- a message

/// The words after all the blocks of a message of whole blocks.
pub open spec fn hashed(s: Seq<u8>) -> Words
    decreases s.len(),
{
    if s.len() < 64 {
        initial()
    } else {
        let n = s.len() - 64;
        absorbed(hashed(s.take(n)), s.skip(n))
    }
}

/// How many zeros pad a message of `n` bytes: with the byte that closes the
/// message and the eight of its length, they fill its last block.
pub open spec fn zeros_for(n: nat) -> nat {
    (119 - n % 64) as nat % 64
}

/// The bytes of a number, the most significant first.
pub open spec fn number_bytes(n: u64) -> Seq<u8> {
    seq![
        (n >> 56u64) as u8,
        (n >> 48u64) as u8,
        (n >> 40u64) as u8,
        (n >> 32u64) as u8,
        (n >> 24u64) as u8,
        (n >> 16u64) as u8,
        (n >> 8u64) as u8,
        n as u8,
    ]
}

/// The bytes of a word, the most significant first.
pub open spec fn word_bytes(w: u32) -> Seq<u8> {
    seq![(w >> 24u32) as u8, (w >> 16u32) as u8, (w >> 8u32) as u8, w as u8]
}

/// A message filled up to whole blocks.
pub open spec fn padded(message: Seq<u8>) -> Seq<u8> {
    message.push(0x80) + Seq::new(zeros_for(message.len()), |i: int| 0u8) + number_bytes(
        (8 * message.len()) as u64,
    )
}

/// The SHA-256 of a message.
pub open spec fn sha256(message: Seq<u8>) -> Seq<u8> {
    let w = hashed(padded(message));
    word_bytes(w.a) + word_bytes(w.b) + word_bytes(w.c) + word_bytes(w.d) + word_bytes(w.e)
        + word_bytes(w.f) + word_bytes(w.g) + word_bytes(w.h)
}

/// Bytes written in hexadecimal, two digits each.
pub open spec fn hex_text(bytes: Seq<u8>) -> Seq<char>
    decreases bytes.len(),
{
    if bytes.len() == 0 {
        Seq::empty()
    } else {
        hex_text(bytes.drop_last()) + text::byte_digits(bytes.last())
    }
}

/// A message that is taken in piece by piece: the words after its whole blocks,
/// and what is left of it.
struct Blocks {
    words: Words,
    tail: Vec<u8>,
    taken: Ghost<Seq<u8>>,
}

impl Blocks {
    spec fn wf(self) -> bool {
        let n = self.taken@.len() - self.tail@.len();
        &&& self.tail@.len() < 64
        &&& 0 <= n
        &&& n % 64 == 0
        &&& self.tail@ == self.taken@.skip(n)
        &&& self.words == hashed(self.taken@.take(n))
    }

    fn start() -> (r: Blocks)
        ensures
            r.wf(),
            r.taken@ == Seq::<u8>::empty(),
    {
        let r = Blocks {
            words: initial_words(),
            tail: Vec::new(),
            taken: Ghost(Seq::empty()),
        };
        assert(r.tail@ =~= r.taken@.skip(0));
        r
    }

    fn push(&mut self, b: u8)
        requires
            old(self).wf(),
        ensures
            final(self).wf(),
            final(self).taken@ == old(self).taken@.push(b),
    {
        let ghost n = self.taken@.len() - self.tail@.len();
        let ghost before = self.taken@;
        let ghost after = before.push(b);
        self.tail.push(b);
        self.taken = Ghost(after);
        assert(self.tail@ =~= after.skip(n));
        assert(after.take(n) =~= before.take(n));
        if self.tail.len() == 64 {
            self.words = absorb(self.words, &self.tail);
            self.tail.clear();
            proof {
                assert(after.len() - 64 == n);
                assert(after.take(after.len() as int) =~= after);
                assert(self.tail@ =~= after.skip(after.len() as int));
            }
        }
    }

    fn push_number(&mut self, n: u64)
        requires
            old(self).wf(),
        ensures
            final(self).wf(),
            final(self).taken@ == old(self).taken@ + number_bytes(n),
    {
        self.push((n >> 56u64) as u8);
        self.push((n >> 48u64) as u8);
        self.push((n >> 40u64) as u8);
        self.push((n >> 32u64) as u8);
        self.push((n >> 24u64) as u8);
        self.push((n >> 16u64) as u8);
        self.push((n >> 8u64) as u8);
        self.push(n as u8);
        assert(self.taken@ =~= old(self).taken@ + number_bytes(n));
    }

    fn copy(&self) -> (r: Blocks)
        ensures
            r.words == self.words,
            r.tail@ == self.tail@,
            r.taken@ == self.taken@,
    {
        let mut tail: Vec<u8> = Vec::new();
        let mut i: usize = 0;
        while i < self.tail.len()
            invariant
                i <= self.tail@.len(),
                tail@ == self.tail@.take(i as int),
            decreases self.tail@.len() - i,
        {
            tail.push(self.tail[i]);
            i = i + 1;
            assert(tail@ =~= self.tail@.take(i as int));
        }
        assert(self.tail@.take(i as int) =~= self.tail@);
        Blocks { words: self.words, tail, taken: Ghost(self.taken@) }
    }
}

/// The SHA-256 of what it is given, piece by piece.
pub struct Sha256 {
    blocks: Blocks,
    length: u64,
}

impl View for Sha256 {
    type V = Seq<u8>;

    closed spec fn view(&self) -> Seq<u8> {
        self.blocks.taken@
    }
}

impl Sha256 {
    pub closed spec fn wf(self) -> bool {
        &&& self.blocks.wf()
        &&& self.length == self@.len()
        &&& self.length <= MOST_BYTES
    }

    /// Nothing yet.
    pub fn new() -> (r: Sha256)
        ensures
            r.wf(),
            r@ == Seq::<u8>::empty(),
    {
        Sha256 { blocks: Blocks::start(), length: 0 }
    }

    /// Whether so many more bytes can be given.
    pub fn has_room(&self, bytes: usize) -> (r: bool)
        requires
            self.wf(),
        ensures
            r == (self@.len() + bytes <= MOST_BYTES),
    {
        bytes as u64 <= MOST_BYTES - self.length
    }

    /// Gives more of the message.
    pub fn feed(&mut self, bytes: &[u8])
        requires
            old(self).wf(),
            old(self)@.len() + bytes@.len() <= MOST_BYTES,
        ensures
            final(self).wf(),
            final(self)@ == old(self)@ + bytes@,
    {
        let mut i: usize = 0;
        assert(self@ =~= old(self)@ + bytes@.take(0));
        while i < bytes.len()
            invariant
                i <= bytes@.len(),
                self.wf(),
                self@ == old(self)@ + bytes@.take(i as int),
                old(self)@.len() + bytes@.len() <= MOST_BYTES,
            decreases bytes@.len() - i,
        {
            self.blocks.push(bytes[i]);
            self.length = self.length + 1;
            i = i + 1;
            assert(self@ =~= old(self)@ + bytes@.take(i as int));
        }
        assert(bytes@.take(i as int) =~= bytes@);
    }

    fn filled(&self) -> (r: Blocks)
        requires
            self.wf(),
        ensures
            r.wf(),
            r.taken@ == self@.push(0x80) + Seq::new(zeros_for(self@.len()), |i: int| 0u8),
    {
        let mut blocks = self.blocks.copy();
        let ghost message = self@;
        let zeros: u64 = (119 - self.length % 64) % 64;
        blocks.push(0x80);
        let mut i: u64 = 0;
        let ghost fill = Seq::new(zeros as nat, |i: int| 0u8);
        assert(blocks.taken@ =~= message.push(0x80) + fill.take(0));
        while i < zeros
            invariant
                i <= zeros,
                blocks.wf(),
                fill == Seq::new(zeros as nat, |i: int| 0u8),
                blocks.taken@ == message.push(0x80) + fill.take(i as int),
            decreases zeros - i,
        {
            blocks.push(0);
            i = i + 1;
            assert(blocks.taken@ =~= message.push(0x80) + fill.take(i as int));
        }
        assert(fill.take(i as int) =~= fill);
        blocks
    }

    fn finish(&self) -> (r: Words)
        requires
            self.wf(),
        ensures
            r == hashed(padded(self@)),
    {
        let mut blocks = self.filled();
        blocks.push_number(8 * self.length);
        proof {
            let n = self@.len();
            assert(blocks.taken@ =~= padded(self@));
            assert((n + 9 + zeros_for(n)) % 64 == 0);
            assert(blocks.tail@.len() == 0);
            assert(blocks.taken@.take(blocks.taken@.len() as int) =~= blocks.taken@);
        }
        blocks.words
    }

    /// The digest of what was given, in hexadecimal.
    pub fn hex(&self) -> (r: String)
        requires
            self.wf(),
        ensures
            r@ == hex_text(sha256(self@)),
    {
        let w = self.finish();
        let mut r = String::new();
        append_word(&mut r, w.a);
        append_word(&mut r, w.b);
        append_word(&mut r, w.c);
        append_word(&mut r, w.d);
        append_word(&mut r, w.e);
        append_word(&mut r, w.f);
        append_word(&mut r, w.g);
        append_word(&mut r, w.h);
        proof {
            let (a, b, c, d) = (word_bytes(w.a), word_bytes(w.b), word_bytes(w.c), word_bytes(w.d));
            let (e, f, g, h) = (word_bytes(w.e), word_bytes(w.f), word_bytes(w.g), word_bytes(w.h));
            lemma_hex_text(a, b);
            lemma_hex_text(a + b, c);
            lemma_hex_text(a + b + c, d);
            lemma_hex_text(a + b + c + d, e);
            lemma_hex_text(a + b + c + d + e, f);
            lemma_hex_text(a + b + c + d + e + f, g);
            lemma_hex_text(a + b + c + d + e + f + g, h);
            assert(Seq::<char>::empty() + hex_text(a) =~= hex_text(a));
        }
        r
    }
}

fn append_word(s: &mut String, w: u32)
    ensures
        final(s)@ == old(s)@ + hex_text(word_bytes(w)),
{
    text::append_byte(s, (w >> 24u32) as u8);
    text::append_byte(s, (w >> 16u32) as u8);
    text::append_byte(s, (w >> 8u32) as u8);
    text::append_byte(s, w as u8);
    proof {
        let b = word_bytes(w);
        assert(b.take(0) =~= Seq::empty());
        assert(b.take(1).drop_last() =~= b.take(0));
        assert(b.take(2).drop_last() =~= b.take(1));
        assert(b.take(3).drop_last() =~= b.take(2));
        assert(b.drop_last() =~= b.take(3));
        reveal_with_fuel(hex_text, 5);
        assert(s@ =~= old(s)@ + hex_text(b));
    }
}

proof fn lemma_hex_text(a: Seq<u8>, b: Seq<u8>)
    ensures
        hex_text(a + b) == hex_text(a) + hex_text(b),
    decreases b.len(),
{
    if b.len() == 0 {
        assert(a + b =~= a);
        assert(hex_text(a) + hex_text(b) =~= hex_text(a));
    } else {
        lemma_hex_text(a, b.drop_last());
        assert((a + b).drop_last() =~= a + b.drop_last());
        assert((a + b).last() == b.last());
        assert(hex_text(a + b) =~= hex_text(a) + hex_text(b));
    }
}

proof fn lemma_hex_length(b: Seq<u8>)
    ensures
        hex_text(b).len() == 2 * b.len(),
    decreases b.len(),
{
    if b.len() > 0 {
        lemma_hex_length(b.drop_last());
    }
}

/// A digest is 32 bytes, and is written in 64 digits, whatever the message: it
/// is filled up to whole blocks first.
pub proof fn law_a_digest_has_its_length(message: Seq<u8>)
    ensures
        sha256(message).len() == 32,
        hex_text(sha256(message)).len() == 64,
        padded(message).len() % 64 == 0,
{
    lemma_hex_length(sha256(message));
}

} // verus!
