//! SipHash-1-3 with a 128-bit digest.
use super::bytes;
use vstd::prelude::*;

verus! {

/// A 128-bit digest.
#[derive(Clone, Copy, Debug, PartialEq, Eq, Structural)]
pub struct Digest {
    pub hi: u64,
    pub lo: u64,
}

impl Digest {
    /// The digest's 16 bytes.
    pub open spec fn encoded(self) -> Seq<u8> {
        bytes::le64(self.hi) + bytes::le64(self.lo)
    }
}

/// The four words that the hash keeps.
#[derive(Clone, Copy, Debug, PartialEq, Eq, Structural)]
pub struct SipState {
    pub v0: u64,
    pub v1: u64,
    pub v2: u64,
    pub v3: u64,
}

/// A word rotated left by `n` bits.
pub open spec fn rotated(v: u64, n: u64) -> u64 {
    (v << n) | (v >> ((64 - n) as u64))
}

fn rotate(v: u64, n: u64) -> (r: u64)
    requires
        0 < n < 64,
    ensures
        r == rotated(v, n),
{
    (v << n) | (v >> (64 - n))
}

/// The sum of two words, modulo 2^64.
pub open spec fn plus(a: u64, b: u64) -> u64 {
    bytes::word64(a + b)
}

impl SipState {
    /// The first half of a round.
    pub open spec fn half(self) -> SipState {
        let v0 = plus(self.v0, self.v1);
        let v1 = rotated(self.v1, 13) ^ v0;
        let v2 = plus(self.v2, self.v3);
        let v3 = rotated(self.v3, 16) ^ v2;
        SipState { v0: rotated(v0, 32), v1, v2, v3 }
    }

    /// One round.
    pub open spec fn rounded(self) -> SipState {
        let s = self.half();
        let v0 = plus(s.v0, s.v3);
        let v3 = rotated(s.v3, 21) ^ v0;
        let v2 = plus(s.v2, s.v1);
        let v1 = rotated(s.v1, 17) ^ v2;
        SipState { v0, v1, v2: rotated(v2, 32), v3 }
    }

    /// The state after another word.
    pub open spec fn compressed(self, m: u64) -> SipState {
        let s = (SipState { v3: self.v3 ^ m, ..self }).rounded();
        SipState { v0: s.v0 ^ m, ..s }
    }

    /// The state after three rounds.
    pub open spec fn finalized(self) -> SipState {
        self.rounded().rounded().rounded()
    }

    /// All four words folded into one.
    pub open spec fn folded(self) -> u64 {
        self.v0 ^ self.v1 ^ self.v2 ^ self.v3
    }

    /// The state that a key starts with.
    pub open spec fn keyed(key: Seq<u8>) -> SipState {
        let k0 = bytes::u64_at(key, 0);
        let k1 = bytes::u64_at(key, 8);
        SipState {
            v0: 0x736f_6d65_7073_6575 ^ k0,
            v1: 0x646f_7261_6e64_6f6d ^ k1 ^ 0xee,
            v2: 0x6c79_6765_6e65_7261 ^ k0,
            v3: 0x7465_6462_7974_6573 ^ k1,
        }
    }

    /// One round.
    fn round(&mut self)
        ensures
            *final(self) == old(self).rounded(),
    {
        self.v0 = bytes::sum64(self.v0, self.v1);
        self.v1 = rotate(self.v1, 13);
        self.v1 = self.v1 ^ self.v0;
        self.v0 = rotate(self.v0, 32);
        self.v2 = bytes::sum64(self.v2, self.v3);
        self.v3 = rotate(self.v3, 16);
        self.v3 = self.v3 ^ self.v2;
        self.v0 = bytes::sum64(self.v0, self.v3);
        self.v3 = rotate(self.v3, 21);
        self.v3 = self.v3 ^ self.v0;
        self.v2 = bytes::sum64(self.v2, self.v1);
        self.v1 = rotate(self.v1, 17);
        self.v1 = self.v1 ^ self.v2;
        self.v2 = rotate(self.v2, 32);
    }

    /// Mixes in another word.
    fn compress(&mut self, m: u64)
        ensures
            *final(self) == old(self).compressed(m),
    {
        self.v3 = self.v3 ^ m;
        self.round();
        self.v0 = self.v0 ^ m;
    }

    /// Three rounds.
    fn finalize(&mut self)
        ensures
            *final(self) == old(self).finalized(),
    {
        self.round();
        self.round();
        self.round();
    }
}

/// The state after the first `n` words of a message.
pub open spec fn state_after(key: Seq<u8>, msg: Seq<u8>, n: int) -> SipState
    decreases n,
{
    if n <= 0 {
        SipState::keyed(key)
    } else {
        state_after(key, msg, n - 1).compressed(bytes::u64_at(msg, 8 * (n - 1)))
    }
}

/// What is left of a message behind its full words.
pub open spec fn rest(msg: Seq<u8>) -> Seq<u8> {
    msg.skip(8 * (msg.len() as int / 8))
}

/// The last word: what is left of the message, and the message's length
/// modulo 256 in the top byte.
pub open spec fn last_word(left: Seq<u8>, sum: u8) -> u64 {
    ((sum as u64) << 56u64) | bytes::u64_at(left + bytes::zeros(8 - left.len()), 0)
}

/// The digest that a state and the last word give.
pub open spec fn digest_of(state: SipState, last: u64) -> Digest {
    let s = state.compressed(last);
    let a = (SipState { v2: s.v2 ^ 0xee, ..s }).finalized();
    let b = (SipState { v1: a.v1 ^ 0xdd, ..a }).finalized();
    Digest { hi: a.folded(), lo: b.folded() }
}

/// The digest of a message.
pub open spec fn siphash(key: Seq<u8>, msg: Seq<u8>) -> Digest {
    digest_of(
        state_after(key, msg, msg.len() as int / 8),
        last_word(rest(msg), (msg.len() % 256) as u8),
    )
}

/// A hash in progress.
#[derive(Debug)]
pub struct SipHash13_128 {
    pub state: SipState,
    /// The bytes that do not fill a word yet.
    pub buf: Vec<u8>,
    /// The number of bytes read, modulo 256.
    pub sum: u8,
}

proof fn lemma_word_prefix(msg: Seq<u8>, b: u8, off: int)
    requires
        0 <= off,
        off + 8 <= msg.len(),
    ensures
        bytes::u64_at(msg.push(b), off) == bytes::u64_at(msg, off),
{
    reveal(bytes::u64_at);
    reveal(bytes::u32_at);
}

proof fn lemma_state_prefix(key: Seq<u8>, msg: Seq<u8>, b: u8, n: int)
    requires
        8 * n <= msg.len(),
    ensures
        state_after(key, msg.push(b), n) == state_after(key, msg, n),
    decreases n,
{
    if n > 0 {
        lemma_state_prefix(key, msg, b, n - 1);
        lemma_word_prefix(msg, b, 8 * (n - 1));
    }
}

impl SipHash13_128 {
    /// True when the hash, keyed with `key`, has read `msg`.
    pub open spec fn has_read(self, key: Seq<u8>, msg: Seq<u8>) -> bool {
        &&& self.state == state_after(key, msg, msg.len() as int / 8)
        &&& self.buf@ == rest(msg)
        &&& self.sum == msg.len() % 256
    }

    /// Starts a hash.
    pub fn new(key: &[u8]) -> (r: SipHash13_128)
        requires
            key.len() == 16,
        ensures
            r.has_read(key@, Seq::empty()),
    {
        let k0: u64 = bytes::get64(key, 0);
        let k1: u64 = bytes::get64(key, 8);
        let r = SipHash13_128 {
            state: SipState {
                v0: 0x736f_6d65_7073_6575 ^ k0,
                v1: 0x646f_7261_6e64_6f6d ^ k1 ^ 0xee,
                v2: 0x6c79_6765_6e65_7261 ^ k0,
                v3: 0x7465_6462_7974_6573 ^ k1,
            },
            buf: Vec::new(),
            sum: 0,
        };
        assert(r.buf@ =~= rest(Seq::empty()));
        r
    }

    fn update_byte(&mut self, b: u8)
        requires
            old(self).buf.len() < 8,
        ensures
            final(self).buf.len() < 8,
            forall|key: Seq<u8>, msg: Seq<u8>| #[trigger]
                old(self).has_read(key, msg) ==> final(self).has_read(key, msg.push(b)),
    {
        let ghost before = *self;
        self.sum = if self.sum == 255 {
            0
        } else {
            self.sum + 1
        };
        self.buf.push(b);
        let ghost filled = self.buf@;
        if self.buf.len() == 8 {
            let m: u64 = bytes::get64(self.buf.as_slice(), 0);
            self.state.compress(m);
            self.buf = Vec::new();
        }
        proof {
            assert forall|key: Seq<u8>, msg: Seq<u8>| #[trigger]
                before.has_read(key, msg) implies self.has_read(key, msg.push(b)) by {
                let next = msg.push(b);
                let n = msg.len() as int / 8;
                let left = msg.len() as int % 8;
                lemma_state_prefix(key, msg, b, n);
                assert(before.buf@ == rest(msg));
                assert(before.buf.len() == left);
                if left == 7 {
                    assert(next.len() as int / 8 == n + 1);
                    assert(filled =~= next.skip(8 * n));
                    reveal(bytes::u64_at);
                    reveal(bytes::u32_at);
                    assert(bytes::u64_at(next, 8 * n) == bytes::u64_at(filled, 0));
                    assert(self.buf@ =~= rest(next));
                } else {
                    assert(next.len() as int / 8 == n);
                    assert(self.buf@ =~= rest(next));
                }
            }
        }
    }

    /// Reads more of the message. In how many pieces a message is read does
    /// not matter.
    pub fn update(&mut self, msg: &[u8])
        requires
            old(self).buf.len() < 8,
        ensures
            final(self).buf.len() < 8,
            forall|key: Seq<u8>, m: Seq<u8>| #[trigger]
                old(self).has_read(key, m) ==> final(self).has_read(key, m + msg@),
    {
        let ghost before = *self;
        let mut i: usize = 0;
        proof {
            assert forall|key: Seq<u8>, m: Seq<u8>| #[trigger]
                before.has_read(key, m) implies self.has_read(key, m + msg@.take(0)) by {
                assert(m + msg@.take(0) =~= m);
            }
        }
        while i < msg.len()
            invariant
                i <= msg.len(),
                self.buf.len() < 8,
                forall|key: Seq<u8>, m: Seq<u8>| #[trigger]
                    before.has_read(key, m) ==> self.has_read(key, m + msg@.take(i as int)),
            decreases msg.len() - i,
        {
            let ghost now = *self;
            self.update_byte(msg[i]);
            proof {
                assert forall|key: Seq<u8>, m: Seq<u8>| #[trigger]
                    before.has_read(key, m) implies self.has_read(
                    key,
                    m + msg@.take(i + 1),
                ) by {
                    assert(now.has_read(key, m + msg@.take(i as int)));
                    assert((m + msg@.take(i as int)).push(msg@[i as int]) =~= m + msg@.take(
                        i + 1,
                    ));
                }
            }
            i += 1;
        }
        assert(msg@.take(msg.len() as int) =~= msg@);
    }

    /// Reads a digest.
    pub fn update_digest(&mut self, digest: Digest)
        requires
            old(self).buf.len() < 8,
        ensures
            final(self).buf.len() < 8,
            forall|key: Seq<u8>, m: Seq<u8>| #[trigger]
                old(self).has_read(key, m) ==> final(self).has_read(key, m + digest.encoded()),
    {
        let mut b: Vec<u8> = Vec::new();
        bytes::push64(&mut b, digest.hi);
        bytes::push64(&mut b, digest.lo);
        assert(b@ =~= digest.encoded());
        self.update(b.as_slice());
    }

    /// The digest of everything read.
    pub fn finish(self) -> (r: Digest)
        requires
            self.buf.len() < 8,
        ensures
            forall|key: Seq<u8>, msg: Seq<u8>| #[trigger]
                self.has_read(key, msg) ==> r == siphash(key, msg),
    {
        let mut buf: Vec<u8> = bytes::to_vec(self.buf.as_slice());
        let n: usize = 8 - buf.len();
        bytes::push_zeros(&mut buf, n);
        let sum: u64 = self.sum as u64;
        let last: u64 = (sum << 56u64) | bytes::get64(buf.as_slice(), 0);
        let mut s: SipState = self.state;
        s.compress(last);
        s.v2 = s.v2 ^ 0xee;
        s.finalize();
        let hi: u64 = s.v0 ^ s.v1 ^ s.v2 ^ s.v3;
        s.v1 = s.v1 ^ 0xdd;
        s.finalize();
        let lo: u64 = s.v0 ^ s.v1 ^ s.v2 ^ s.v3;
        Digest { hi, lo }
    }
}

/// The digest of a message.
pub fn hash_message(key: &[u8], msg: &[u8]) -> (r: Digest)
    requires
        key.len() == 16,
    ensures
        r == siphash(key@, msg@),
{
    let mut h = SipHash13_128::new(key);
    proof {
        assert(h.buf@ =~= Seq::empty());
    }
    h.update(msg);
    assert(Seq::<u8>::empty() + msg@ =~= msg@);
    h.finish()
}

} // verus!
