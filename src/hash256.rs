//! The SHA-256 hash, HMAC over it, and HKDF.

use vstd::prelude::*;

verus! {

pub const HASH256_H0: u32 = 0x6A09_E667;
pub const HASH256_H1: u32 = 0xBB67_AE85;
pub const HASH256_H2: u32 = 0x3C6E_F372;
pub const HASH256_H3: u32 = 0xA54F_F53A;
pub const HASH256_H4: u32 = 0x510E_527F;
pub const HASH256_H5: u32 = 0x9B05_688C;
pub const HASH256_H6: u32 = 0x1F83_D9AB;
pub const HASH256_H7: u32 = 0x5BE0_CD19;

/// The round constants.
pub open spec fn round_k() -> Seq<u32> {
    seq![
        0x428a2f98u32, 0x71374491, 0xb5c0fbcf, 0xe9b5dba5, 0x3956c25b, 0x59f111f1, 0x923f82a4,
        0xab1c5ed5, 0xd807aa98, 0x12835b01, 0x243185be, 0x550c7dc3, 0x72be5d74, 0x80deb1fe,
        0x9bdc06a7, 0xc19bf174, 0xe49b69c1, 0xefbe4786, 0x0fc19dc6, 0x240ca1cc, 0x2de92c6f,
        0x4a7484aa, 0x5cb0a9dc, 0x76f988da, 0x983e5152, 0xa831c66d, 0xb00327c8, 0xbf597fc7,
        0xc6e00bf3, 0xd5a79147, 0x06ca6351, 0x14292967, 0x27b70a85, 0x2e1b2138, 0x4d2c6dfc,
        0x53380d13, 0x650a7354, 0x766a0abb, 0x81c2c92e, 0x92722c85, 0xa2bfe8a1, 0xa81a664b,
        0xc24b8b70, 0xc76c51a3, 0xd192e819, 0xd6990624, 0xf40e3585, 0x106aa070, 0x19a4c116,
        0x1e376c08, 0x2748774c, 0x34b0bcb5, 0x391c0cb3, 0x4ed8aa4a, 0x5b9cca4f, 0x682e6ff3,
        0x748f82ee, 0x78a5636f, 0x84c87814, 0x8cc70208, 0x90befffa, 0xa4506ceb, 0xbef9a3f7,
        0xc67178f2,
    ]
}

/// The initial hash value.
pub open spec fn init_h() -> Seq<u32> {
    seq![
        HASH256_H0, HASH256_H1, HASH256_H2, HASH256_H3, HASH256_H4, HASH256_H5, HASH256_H6,
        HASH256_H7,
    ]
}

/// The block size of each round.
pub const BLOCK_SIZE: usize = 64;

/// Hash length in bytes.
pub const HASH_BYTES: usize = 32;

const IPAD_BYTE: u8 = 0x36;

const OPAD_BYTE: u8 = 0x5c;

pub open spec fn rotr(n: u32, x: u32) -> u32 {
    (x >> n) | (x << (32 - n) as u32)
}

pub open spec fn ch_spec(x: u32, y: u32, z: u32) -> u32 {
    (x & y) ^ (!x & z)
}

pub open spec fn maj_spec(x: u32, y: u32, z: u32) -> u32 {
    (x & y) ^ (x & z) ^ (y & z)
}

pub open spec fn sig0_spec(x: u32) -> u32 {
    rotr(2, x) ^ rotr(13, x) ^ rotr(22, x)
}

pub open spec fn sig1_spec(x: u32) -> u32 {
    rotr(6, x) ^ rotr(11, x) ^ rotr(25, x)
}

pub open spec fn theta0_spec(x: u32) -> u32 {
    rotr(7, x) ^ rotr(18, x) ^ (x >> 3u32)
}

pub open spec fn theta1_spec(x: u32) -> u32 {
    rotr(17, x) ^ rotr(19, x) ^ (x >> 10u32)
}

pub open spec fn wadd(x: u32, y: u32) -> u32 {
    x.wrapping_add(y)
}

/// Word `j` of the message schedule grown from the sixteen words of `w`.
#[verifier::opaque]
pub open spec fn sched_word(w: Seq<u32>, j: int) -> u32
    decreases j,
{
    if j < 16 {
        w[j]
    } else {
        wadd(
            wadd(
                wadd(theta1_spec(sched_word(w, j - 2)), sched_word(w, j - 7)),
                theta0_spec(sched_word(w, j - 15)),
            ),
            sched_word(w, j - 16),
        )
    }
}

pub open spec fn sched(w: Seq<u32>) -> Seq<u32> {
    Seq::new(64, |j: int| sched_word(w, j))
}

/// One round on the working variables `a..h`.
pub open spec fn round(s: Seq<u32>, k: u32, wj: u32) -> Seq<u32> {
    let t1 = wadd(wadd(wadd(wadd(s[7], sig1_spec(s[4])), ch_spec(s[4], s[5], s[6])), k), wj);
    let t2 = wadd(sig0_spec(s[0]), maj_spec(s[0], s[1], s[2]));
    seq![wadd(t1, t2), s[0], s[1], s[2], wadd(s[3], t1), s[4], s[5], s[6]]
}

/// The working variables after the first `n` rounds.
pub open spec fn rounds(s: Seq<u32>, ws: Seq<u32>, n: int) -> Seq<u32>
    decreases n,
{
    if n <= 0 {
        s
    } else {
        round(rounds(s, ws, n - 1), round_k()[n - 1], ws[n - 1])
    }
}

/// The compression function on hash value `h` and block words `w`.
#[verifier::opaque]
pub open spec fn compress(h: Seq<u32>, w: Seq<u32>) -> Seq<u32> {
    let s = rounds(h, sched(w), 64);
    Seq::new(8, |i: int| wadd(h[i], s[i]))
}

/// The hasher's state: bit count (low and high word), hash value, and block
/// words.
pub type HState = (u32, u32, Seq<u32>, Seq<u32>);

pub open spec fn init_state() -> HState {
    (0, 0, init_h(), Seq::new(64, |i: int| 0u32))
}

/// The state after one more message byte.
#[verifier::opaque]
pub open spec fn process_spec(st: HState, b: u8) -> HState {
    let cnt = ((st.0 / 32) % 16) as int;
    let w = st.3.update(cnt, (st.3[cnt] << 8u32) | (b as u32));
    let l0 = wadd(st.0, 8);
    let l1 = if l0 == 0 { wadd(st.1, 1) } else { st.1 };
    if l0 % 512 == 0 {
        (l0, l1, compress(st.2, w), sched(w))
    } else {
        (l0, l1, st.2, w)
    }
}

/// The state after a run of message bytes.
pub open spec fn process_all(st: HState, m: Seq<u8>) -> HState
    decreases m.len(),
{
    if m.len() == 0 {
        st
    } else {
        process_spec(process_all(st, m.drop_last()), m.last())
    }
}

/// The state after `n` zero bytes.
pub open spec fn process_zeros(st: HState, n: nat) -> HState
    decreases n,
{
    if n == 0 {
        st
    } else {
        process_spec(process_zeros(st, (n - 1) as nat), 0)
    }
}

/// Number of zero bytes that bring a bit count to 448 modulo 512.
pub open spec fn zero_count(l0: u32) -> nat {
    (((448 + 512 - (l0 % 512) as int) % 512) / 8) as nat
}

/// Big-endian bytes of the eight hash words.
pub open spec fn digest_bytes(h: Seq<u32>) -> Seq<u8> {
    Seq::new(32, |i: int| ((h[i / 4] >> (8 * (3 - i % 4)) as u32) & 0xff) as u8)
}

/// The digest that padding and the last block give from state `st`.
#[verifier::opaque]
pub open spec fn digest_spec(st: HState) -> Seq<u8> {
    let st1 = process_spec(st, 0x80);
    let st2 = process_zeros(st1, zero_count(st1.0));
    let w = st2.3.update(14, st.1).update(15, st.0);
    digest_bytes(compress(st2.2, w))
}

/// SHA-256 of a message.
#[verifier::opaque]
pub open spec fn sha256(m: Seq<u8>) -> Seq<u8> {
    digest_spec(process_all(init_state(), m))
}

/// The key block: the key, or its hash when longer than a block, padded with
/// zeros and masked with `pad`.
pub open spec fn key_block(key: Seq<u8>, pad: u8) -> Seq<u8> {
    let k = if key.len() > 64 { sha256(key) } else { key };
    Seq::new(64, |i: int| if i < k.len() { pad ^ k[i] } else { pad })
}

/// HMAC-SHA-256.
#[verifier::opaque]
pub open spec fn hmac_spec(key: Seq<u8>, text: Seq<u8>) -> Seq<u8> {
    sha256(key_block(key, 0x5c) + sha256(key_block(key, 0x36) + text))
}

/// The HKDF output blocks `T(1) .. T(n)`, concatenated, and the last block.
pub open spec fn hkdf_blocks(prk: Seq<u8>, info: Seq<u8>, n: nat) -> (Seq<u8>, Seq<u8>)
    decreases n,
{
    if n == 0 {
        (Seq::empty(), Seq::empty())
    } else {
        let (okm, prev) = hkdf_blocks(prk, info, (n - 1) as nat);
        let t = hmac_spec(prk, prev + info + seq![n as u8]);
        (okm + t, t)
    }
}

/// HKDF-Expand of `l` bytes.
pub open spec fn hkdf_expand_spec(prk: Seq<u8>, info: Seq<u8>, l: nat) -> Seq<u8> {
    let n = (l + 31) / 32;
    hkdf_blocks(prk, info, n).0.subrange(0, l as int)
}

/// A copy of a byte slice.
fn bytes_to_vec(s: &[u8]) -> (r: Vec<u8>)
    ensures
        r@ == s@,
{
    let mut r: Vec<u8> = Vec::new();
    let mut i: usize = 0;
    while i < s.len()
        invariant
            i <= s@.len(),
            r@ =~= s@.subrange(0, i as int),
        decreases s@.len() - i,
    {
        r.push(s[i]);
        i = i + 1;
    }
    r
}

/// An incremental SHA-256 hasher.
pub struct HASH256 {
    length: [u32; 2],
    h: [u32; 8],
    w: [u32; 64],
}

impl HASH256 {
    pub closed spec fn state(&self) -> HState {
        (self.length@[0], self.length@[1], self.h@, self.w@)
    }

    /// The bit count is a whole number of bytes.
    pub closed spec fn wf(&self) -> bool {
        self.length@[0] % 8 == 0
    }

    fn s(n: u32, x: u32) -> (r: u32)
        requires
            0 < n < 32,
        ensures
            r == rotr(n, x),
    {
        (x >> n) | (x << (32 - n))
    }

    fn r(n: u32, x: u32) -> (r: u32)
        requires
            n < 32,
        ensures
            r == x >> n,
    {
        x >> n
    }

    fn ch(x: u32, y: u32, z: u32) -> (r: u32)
        ensures
            r == ch_spec(x, y, z),
    {
        (x & y) ^ (!x & z)
    }

    fn maj(x: u32, y: u32, z: u32) -> (r: u32)
        ensures
            r == maj_spec(x, y, z),
    {
        (x & y) ^ (x & z) ^ (y & z)
    }

    fn sig0(x: u32) -> (r: u32)
        ensures
            r == sig0_spec(x),
    {
        HASH256::s(2, x) ^ HASH256::s(13, x) ^ HASH256::s(22, x)
    }

    fn sig1(x: u32) -> (r: u32)
        ensures
            r == sig1_spec(x),
    {
        HASH256::s(6, x) ^ HASH256::s(11, x) ^ HASH256::s(25, x)
    }

    fn theta0(x: u32) -> (r: u32)
        ensures
            r == theta0_spec(x),
    {
        HASH256::s(7, x) ^ HASH256::s(18, x) ^ HASH256::r(3, x)
    }

    fn theta1(x: u32) -> (r: u32)
        ensures
            r == theta1_spec(x),
    {
        HASH256::s(17, x) ^ HASH256::s(19, x) ^ HASH256::r(10, x)
    }

    /// Grows the message schedule and compresses the block into the hash value.
    #[verifier::rlimit(80)]
    #[verifier::spinoff_prover]
    fn transform(&mut self)
        ensures
            final(self).length@ == old(self).length@,
            final(self).h@ == compress(old(self).h@, old(self).w@),
            final(self).w@ == sched(old(self).w@),
    {
        let ghost w0 = self.w@;
        let ghost h0 = self.h@;
        reveal(compress);
        reveal(sched_word);
        let mut j: usize = 16;
        while j < 64
            invariant
                16 <= j <= 64,
                self.length@ == old(self).length@,
                self.h@ == h0,
                forall|k: int| 0 <= k < j ==> self.w@[k] == sched_word(w0, k),
                forall|k: int| j <= k < 64 ==> self.w@[k] == w0[k],
            decreases 64 - j,
        {
            let v = HASH256::theta1(self.w[j - 2]).wrapping_add(self.w[j - 7]).wrapping_add(
                HASH256::theta0(self.w[j - 15]),
            ).wrapping_add(self.w[j - 16]);
            proof {
                let jj = j as int;
                assert(self.w@[jj - 2] == sched_word(w0, jj - 2));
                assert(self.w@[jj - 7] == sched_word(w0, jj - 7));
                assert(self.w@[jj - 15] == sched_word(w0, jj - 15));
                assert(self.w@[jj - 16] == sched_word(w0, jj - 16));
                reveal_with_fuel(sched_word, 2);
                assert(sched_word(w0, jj) == wadd(
                    wadd(
                        wadd(theta1_spec(sched_word(w0, jj - 2)), sched_word(w0, jj - 7)),
                        theta0_spec(sched_word(w0, jj - 15)),
                    ),
                    sched_word(w0, jj - 16),
                ));
                assert(v == sched_word(w0, jj));
            }
            self.w[j] = v;
            j = j + 1;
        }
        assert(self.w@ =~= sched(w0));
        let k = [
            0x428a2f98u32, 0x71374491, 0xb5c0fbcf, 0xe9b5dba5, 0x3956c25b, 0x59f111f1, 0x923f82a4,
            0xab1c5ed5, 0xd807aa98, 0x12835b01, 0x243185be, 0x550c7dc3, 0x72be5d74, 0x80deb1fe,
            0x9bdc06a7, 0xc19bf174, 0xe49b69c1, 0xefbe4786, 0x0fc19dc6, 0x240ca1cc, 0x2de92c6f,
            0x4a7484aa, 0x5cb0a9dc, 0x76f988da, 0x983e5152, 0xa831c66d, 0xb00327c8, 0xbf597fc7,
            0xc6e00bf3, 0xd5a79147, 0x06ca6351, 0x14292967, 0x27b70a85, 0x2e1b2138, 0x4d2c6dfc,
            0x53380d13, 0x650a7354, 0x766a0abb, 0x81c2c92e, 0x92722c85, 0xa2bfe8a1, 0xa81a664b,
            0xc24b8b70, 0xc76c51a3, 0xd192e819, 0xd6990624, 0xf40e3585, 0x106aa070, 0x19a4c116,
            0x1e376c08, 0x2748774c, 0x34b0bcb5, 0x391c0cb3, 0x4ed8aa4a, 0x5b9cca4f, 0x682e6ff3,
            0x748f82ee, 0x78a5636f, 0x84c87814, 0x8cc70208, 0x90befffa, 0xa4506ceb, 0xbef9a3f7,
            0xc67178f2,
        ];
        assert(k@ =~= round_k());
        let mut a = self.h[0];
        let mut b = self.h[1];
        let mut c = self.h[2];
        let mut d = self.h[3];
        let mut e = self.h[4];
        let mut f = self.h[5];
        let mut g = self.h[6];
        let mut hh = self.h[7];
        let ghost ws = sched(w0);
        assert(seq![a, b, c, d, e, f, g, hh] =~= h0);
        let mut j: usize = 0;
        while j < 64
            invariant
                j <= 64,
                k@ == round_k(),
                self.w@ == ws,
                self.h@ == h0,
                self.length@ == old(self).length@,
                seq![a, b, c, d, e, f, g, hh] == rounds(h0, ws, j as int),
            decreases 64 - j,
        {
            let t1 = hh.wrapping_add(HASH256::sig1(e)).wrapping_add(HASH256::ch(e, f, g)).wrapping_add(
                k[j],
            ).wrapping_add(self.w[j]);
            let t2 = HASH256::sig0(a).wrapping_add(HASH256::maj(a, b, c));
            let ghost prev = seq![a, b, c, d, e, f, g, hh];
            hh = g;
            g = f;
            f = e;
            e = d.wrapping_add(t1);
            d = c;
            c = b;
            b = a;
            a = t1.wrapping_add(t2);
            proof {
                assert(seq![a, b, c, d, e, f, g, hh] =~= round(prev, round_k()[j as int], ws[j as int]));
            }
            j = j + 1;
        }
        let ghost s = seq![a, b, c, d, e, f, g, hh];
        self.h[0] = self.h[0].wrapping_add(a);
        self.h[1] = self.h[1].wrapping_add(b);
        self.h[2] = self.h[2].wrapping_add(c);
        self.h[3] = self.h[3].wrapping_add(d);
        self.h[4] = self.h[4].wrapping_add(e);
        self.h[5] = self.h[5].wrapping_add(f);
        self.h[6] = self.h[6].wrapping_add(g);
        self.h[7] = self.h[7].wrapping_add(hh);
        assert(self.h@ =~= compress(h0, w0));
    }

    /// Resets to the initial state.
    pub fn init(&mut self)
        ensures
            final(self).wf(),
            final(self).state() == init_state(),
    {
        let mut i: usize = 0;
        while i < 64
            invariant
                i <= 64,
                forall|k: int| 0 <= k < i ==> self.w@[k] == 0,
            decreases 64 - i,
        {
            self.w[i] = 0;
            i = i + 1;
        }
        self.length[0] = 0;
        self.length[1] = 0;
        self.h[0] = HASH256_H0;
        self.h[1] = HASH256_H1;
        self.h[2] = HASH256_H2;
        self.h[3] = HASH256_H3;
        self.h[4] = HASH256_H4;
        self.h[5] = HASH256_H5;
        self.h[6] = HASH256_H6;
        self.h[7] = HASH256_H7;
        assert(self.h@ =~= init_h());
        assert(self.w@ =~= Seq::new(64, |i: int| 0u32));
    }

    pub fn new() -> (r: HASH256)
        ensures
            r.wf(),
            r.state() == init_state(),
    {
        let mut nh = HASH256 { length: [0; 2], h: [0; 8], w: [0; 64] };
        nh.init();
        nh
    }

    /// Processes one message byte.
    pub fn process(&mut self, byt: u8)
        requires
            old(self).wf(),
        ensures
            final(self).wf(),
            final(self).state() == process_spec(old(self).state(), byt),
    {
        reveal(process_spec);
        let cnt = ((self.length[0] / 32) % 16) as usize;
        let v = (self.w[cnt] << 8u32) | (byt as u32);
        self.w[cnt] = v;
        self.length[0] = self.length[0].wrapping_add(8);
        if self.length[0] == 0 {
            self.length[1] = self.length[1].wrapping_add(1);
            self.length[0] = 0;
        }
        assert(self.length@[0] % 8 == 0);
        if (self.length[0] % 512) == 0 {
            self.transform();
        }
    }

    /// Processes an array of bytes.
    pub fn process_array(&mut self, b: &[u8])
        requires
            old(self).wf(),
        ensures
            final(self).wf(),
            final(self).state() == process_all(old(self).state(), b@),
    {
        let mut i: usize = 0;
        while i < b.len()
            invariant
                i <= b@.len(),
                self.wf(),
                self.state() == process_all(old(self).state(), b@.subrange(0, i as int)),
            decreases b@.len() - i,
        {
            proof {
                assert(b@.subrange(0, i + 1).drop_last() =~= b@.subrange(0, i as int));
            }
            self.process(b[i]);
            i = i + 1;
        }
        assert(b@.subrange(0, b@.len() as int) =~= b@);
    }

    /// Processes a 32-bit integer, most significant byte first.
    pub fn process_num(&mut self, n: i32)
        requires
            old(self).wf(),
        ensures
            final(self).wf(),
            final(self).state() == process_spec(
                process_spec(
                    process_spec(process_spec(old(self).state(), ((n >> 24u32) & 0xff) as u8), ((n
                        >> 16u32) & 0xff) as u8),
                    ((n >> 8u32) & 0xff) as u8,
                ),
                (n & 0xff) as u8,
            ),
    {
        self.process(((n >> 24u32) & 0xff) as u8);
        self.process(((n >> 16u32) & 0xff) as u8);
        self.process(((n >> 8u32) & 0xff) as u8);
        self.process((n & 0xff) as u8);
    }

    /// Pads, finishes and returns the 32-byte digest, then resets.
    pub fn hash(&mut self) -> (r: [u8; HASH_BYTES])
        requires
            old(self).wf(),
        ensures
            r@ == digest_spec(old(self).state()),
            final(self).wf(),
            final(self).state() == init_state(),
    {
        let ghost st0 = self.state();
        reveal(digest_spec);
        let mut digest: [u8; 32] = [0; 32];
        let len0 = self.length[0];
        let len1 = self.length[1];
        self.process(0x80);
        let ghost st1 = self.state();
        let n: u32 = ((448 + 512 - (self.length[0] % 512)) % 512) / 8;
        let mut i: u32 = 0;
        while i < n
            invariant
                i <= n,
                n == zero_count(st1.0),
                self.wf(),
                self.state() == process_zeros(st1, i as nat),
            decreases n - i,
        {
            self.process(0);
            i = i + 1;
        }
        self.w[14] = len1;
        self.w[15] = len0;
        let ghost wfin = self.w@;
        assert(wfin =~= process_zeros(st1, zero_count(st1.0)).3.update(14, st0.1).update(15, st0.0));
        self.transform();
        let ghost hf = self.h@;
        let mut i: usize = 0;
        while i < 32
            invariant
                i <= 32,
                self.h@ == hf,
                forall|k: int| 0 <= k < i ==> digest@[k] == digest_bytes(hf)[k],
            decreases 32 - i,
        {
            digest[i] = ((self.h[i / 4] >> (8 * (3 - (i % 4) as u32))) & 0xff) as u8;
            i = i + 1;
        }
        assert(digest@ =~= digest_bytes(hf));
        self.init();
        digest
    }

    /// SHA-256 of a whole message.
    fn hash_of(m: &[u8]) -> (r: [u8; HASH_BYTES])
        ensures
            r@ == sha256(m@),
    {
        reveal(sha256);
        let mut hash256 = HASH256::new();
        hash256.init();
        hash256.process_array(m);
        hash256.hash()
    }

    /// HMAC-SHA-256 of `text` under `key` (RFC 2104).
    pub fn hmac(key: &[u8], text: &[u8]) -> (r: [u8; HASH_BYTES])
        ensures
            r@ == hmac_spec(key@, text@),
    {
        reveal(hmac_spec);
        let mut k: Vec<u8> = bytes_to_vec(key);
        if k.len() > BLOCK_SIZE {
            k = bytes_to_vec(&HASH256::hash_of(k.as_slice()));
        }
        let ghost kk = if key@.len() > 64 { sha256(key@) } else { key@ };
        assert(k@ == kk);
        let mut inner: Vec<u8> = vec![IPAD_BYTE; BLOCK_SIZE];
        let mut outer: Vec<u8> = vec![OPAD_BYTE; BLOCK_SIZE];
        let mut i: usize = 0;
        while i < k.len()
            invariant
                k@ == kk,
                kk.len() <= 64,
                i <= k@.len(),
                inner@.len() == 64,
                outer@.len() == 64,
                forall|j: int| 0 <= j < i ==> inner@[j] == 0x36 ^ kk[j] && outer@[j] == 0x5c ^ kk[j],
                forall|j: int| i <= j < 64 ==> inner@[j] == 0x36 && outer@[j] == 0x5c,
            decreases k@.len() - i,
        {
            inner.set(i, inner[i] ^ k[i]);
            outer.set(i, outer[i] ^ k[i]);
            i = i + 1;
        }
        assert(inner@ =~= key_block(key@, 0x36));
        assert(outer@ =~= key_block(key@, 0x5c));
        let ghost ib = inner@;
        let ghost ob = outer@;
        inner.extend_from_slice(text);
        assert(inner@ == key_block(key@, 0x36) + text@);
        let ih = HASH256::hash_of(inner.as_slice());
        let ihv = bytes_to_vec(&ih);
        outer.extend_from_slice(ihv.as_slice());
        assert(outer@ == key_block(key@, 0x5c) + sha256(key_block(key@, 0x36) + text@));
        HASH256::hash_of(outer.as_slice())
    }

    /// HKDF-Extract (RFC 5869).
    pub fn hkdf_extract(salt: &[u8], ikm: &[u8]) -> (r: [u8; HASH_BYTES])
        ensures
            r@ == hmac_spec(salt@, ikm@),
    {
        HASH256::hmac(salt, ikm)
    }

    /// HKDF-Expand (RFC 5869) of `l` bytes.
    pub fn hkdf_extend(prk: &[u8], info: &[u8], l: u8) -> (r: Vec<u8>)
        ensures
            r@ == hkdf_expand_spec(prk@, info@, l as nat),
    {
        let mut n: u8 = l / 32;
        assert(n <= 7);
        if n * 32 < l {
            n += 1;
        }
        assert(n == (l + 31) / 32);
        let mut okm: Vec<u8> = Vec::new();
        let mut previous: Vec<u8> = Vec::new();
        let mut i: usize = 0;
        while i < n as usize
            invariant
                i <= n,
                n <= 8,
                (okm@, previous@) == hkdf_blocks(prk@, info@, i as nat),
                okm@.len() == 32 * i,
            decreases n - i,
        {
            let ghost prev = previous@;
            let ghost okm0 = okm@;
            let mut text: Vec<u8> = previous;
            text.extend_from_slice(info);
            text.push((i + 1) as u8);
            assert(text@ == prev + info@ + seq![((i + 1) as nat) as u8]);
            previous = bytes_to_vec(&HASH256::hmac(prk, text.as_slice()));
            okm.extend_from_slice(previous.as_slice());
            proof {
                let (o, p) = hkdf_blocks(prk@, info@, i as nat);
                assert(o == okm0 && p == prev);
                assert(hkdf_blocks(prk@, info@, (i + 1) as nat) == (o + hmac_spec(prk@, p + info@
                    + seq![((i + 1) as nat) as u8]), hmac_spec(prk@, p + info@ + seq![((i + 1) as nat) as u8])));
            }
            i = i + 1;
        }
        okm.resize(l as usize, 0);
        assert(okm@ =~= hkdf_blocks(prk@, info@, n as nat).0.subrange(0, l as int));
        okm
    }
}

} // verus!
