//! A deterministic byte stream in the ChaCha family, keyed by the Keccak-256
//! digest of an arbitrary seed.
//!
//! The block counter is never advanced: each block continues the rounds from
//! the state the previous block left, and emits that state added word-wise to
//! the initial state.
use vstd::prelude::*;

verus! {

/// The Keccak-256 digest of `data`.
pub uninterp spec fn keccak256_of(data: Seq<u8>) -> Seq<u8>;

/// Relies on `keccak_hash::keccak`: the 32-byte Keccak-256 digest of the input,
/// a function of the input bytes alone.
#[verifier::external_body]
fn keccak_digest(data: &[u8]) -> (r: Vec<u8>)
    ensures
        r@ == keccak256_of(data@),
        r@.len() == 32,
{
    keccak_hash::keccak(data).0.to_vec()
}

/// The four "expand 32-byte k" words.
pub const SIGMA0: u32 = 1634760805;
pub const SIGMA1: u32 = 857760878;
pub const SIGMA2: u32 = 2036477234;
pub const SIGMA3: u32 = 1797285236;

/// The round count of a freshly seeded stream.
pub const DEFAULT_ROUNDS: usize = 12;

/// Largest round count accepted.
pub const MAX_ROUNDS: usize = 64;

/// Left rotation of a 32-bit word by `k`, `0 < k < 32`.
pub open spec fn rotl(x: u32, k: u32) -> u32 {
    (x << k) | (x >> (32 - k) as u32)
}

/// The ChaCha quarter-round on state words `a, b, c, d`.
pub open spec fn quarter_round_spec(s: Seq<u32>, ia: int, ib: int, ic: int, id: int) -> Seq<u32> {
    let a1 = s[ia].wrapping_add(s[ib]);
    let d1 = rotl(s[id] ^ a1, 16);
    let c1 = s[ic].wrapping_add(d1);
    let b1 = rotl(s[ib] ^ c1, 12);
    let a2 = a1.wrapping_add(b1);
    let d2 = rotl(a2 ^ d1, 8);
    let c2 = c1.wrapping_add(d2);
    let b2 = rotl(b1 ^ c2, 7);
    s.update(ia, a2).update(ib, b2).update(ic, c2).update(id, d2)
}

/// Four column quarter-rounds followed by four diagonal quarter-rounds.
pub open spec fn double_round_spec(s: Seq<u32>) -> Seq<u32> {
    let s1 = quarter_round_spec(s, 0, 4, 8, 12);
    let s2 = quarter_round_spec(s1, 1, 5, 9, 13);
    let s3 = quarter_round_spec(s2, 2, 6, 10, 14);
    let s4 = quarter_round_spec(s3, 3, 7, 11, 15);
    let s5 = quarter_round_spec(s4, 0, 5, 10, 15);
    let s6 = quarter_round_spec(s5, 1, 6, 11, 12);
    let s7 = quarter_round_spec(s6, 2, 7, 8, 13);
    quarter_round_spec(s7, 3, 4, 9, 14)
}

/// `k` double rounds.
pub open spec fn double_rounds(s: Seq<u32>, k: nat) -> Seq<u32>
    decreases k,
{
    if k == 0 {
        s
    } else {
        double_round_spec(double_rounds(s, (k - 1) as nat))
    }
}

/// The working state after `m` blocks, each of `rounds / 2` double rounds.
pub open spec fn state_after(seed: Seq<u32>, rounds: nat, m: nat) -> Seq<u32>
    decreases m,
{
    if m == 0 {
        seed
    } else {
        double_rounds(state_after(seed, rounds, (m - 1) as nat), rounds / 2)
    }
}

/// The little-endian bytes of a word.
pub open spec fn le_bytes(w: u32) -> Seq<u8> {
    seq![(w % 256) as u8, ((w / 256) % 256) as u8, ((w / 65536) % 256) as u8, (w / 16777216) as u8]
}

/// Block `m` of the stream: each word of the state after `m + 1` blocks,
/// added to the initial word, little-endian.
pub open spec fn block_bytes(seed: Seq<u32>, rounds: nat, m: nat) -> Seq<u8> {
    Seq::new(
        64,
        |p: int| le_bytes(seed[p / 4].wrapping_add(state_after(seed, rounds, m + 1)[p / 4]))[p % 4],
    )
}

/// Byte `p` of the stream.
#[verifier::opaque]
pub open spec fn stream_byte(seed: Seq<u32>, rounds: nat, p: nat) -> u8 {
    block_bytes(seed, rounds, p / 64)[(p % 64) as int]
}

/// The word made of the four little-endian bytes `b[0..4]`.
pub open spec fn le_u32(b0: u8, b1: u8, b2: u8, b3: u8) -> u32 {
    (b0 as int + 256 * b1 as int + 65536 * b2 as int + 16777216 * b3 as int) as u32
}

/// Word `j` of the stream: bytes `4j .. 4j + 4`, little-endian.
pub open spec fn stream_word(seed: Seq<u32>, rounds: nat, j: nat) -> u32 {
    le_u32(
        stream_byte(seed, rounds, 4 * j),
        stream_byte(seed, rounds, 4 * j + 1),
        stream_byte(seed, rounds, 4 * j + 2),
        stream_byte(seed, rounds, 4 * j + 3),
    )
}

/// The key words: the digest read as eight little-endian words.
pub open spec fn key_word(digest: Seq<u8>, i: int) -> u32 {
    le_u32(digest[4 * i], digest[4 * i + 1], digest[4 * i + 2], digest[4 * i + 3])
}

/// The initial state for a 32-byte key: constants, key, zero counter and nonce.
pub open spec fn initial_state(digest: Seq<u8>) -> Seq<u32> {
    Seq::new(
        16,
        |i: int|
            if i == 0 {
                SIGMA0
            } else if i == 1 {
                SIGMA1
            } else if i == 2 {
                SIGMA2
            } else if i == 3 {
                SIGMA3
            } else if i < 12 {
                key_word(digest, i - 4)
            } else {
                0u32
            },
    )
}

/// Left rotation of a 32-bit word.
fn rotate(x: u32, k: u32) -> (r: u32)
    requires
        0 < k < 32,
    ensures
        r == rotl(x, k),
{
    (x << k) | (x >> (32 - k))
}

/// Seeded ChaCha stream.
///
/// The seed bytes are hashed with Keccak-256 and the digest keys the state;
/// counter and nonce start at zero.
pub struct ChaChaRng {
    state: Vec<u32>,
    seed_state: Vec<u32>,
    round_count: usize,
    buffer: Vec<u8>,
    buffer_offset: usize,
    blocks: Ghost<nat>,
}

impl ChaChaRng {
    /// The initial state.
    pub closed spec fn seed(&self) -> Seq<u32> {
        self.seed_state@
    }

    /// The number of rounds per block.
    pub closed spec fn rounds(&self) -> nat {
        self.round_count as nat
    }

    /// How many bytes of the stream have been handed out.
    pub closed spec fn position(&self) -> nat {
        if self.blocks@ == 0 {
            0
        } else {
            ((self.blocks@ - 1) * 64 + self.buffer_offset) as nat
        }
    }

    /// The internal state matches the stream at `position()`.
    pub closed spec fn wf(&self) -> bool {
        &&& self.seed_state@.len() == 16
        &&& self.state@.len() == 16
        &&& self.round_count <= MAX_ROUNDS
        &&& self.round_count % 2 == 0
        &&& self.buffer_offset <= self.buffer@.len()
        &&& if self.blocks@ == 0 {
            self.buffer@.len() == 0 && self.state@ == self.seed_state@
        } else {
            &&& self.state@ == state_after(self.seed_state@, self.round_count as nat, self.blocks@)
            &&& self.buffer@ == block_bytes(self.seed_state@, self.round_count as nat, (self.blocks@ - 1) as nat)
        }
    }
}

/// The 64 bytes emitted for a working state `s` over the initial state `seed`.
pub open spec fn emit(seed: Seq<u32>, s: Seq<u32>) -> Seq<u8> {
    Seq::new(64, |p: int| le_bytes(seed[p / 4].wrapping_add(s[p / 4]))[p % 4])
}

impl ChaChaRng {
    /// Apply the quarter-round to the state words at `indices`.
    fn quarter_round(&mut self, indices: [usize; 4])
        requires
            old(self).state@.len() == 16,
            indices[0] < 16 && indices[1] < 16 && indices[2] < 16 && indices[3] < 16,
        ensures
            final(self).state@ == quarter_round_spec(
                old(self).state@,
                indices[0] as int,
                indices[1] as int,
                indices[2] as int,
                indices[3] as int,
            ),
            final(self).seed_state == old(self).seed_state,
            final(self).round_count == old(self).round_count,
            final(self).buffer == old(self).buffer,
            final(self).buffer_offset == old(self).buffer_offset,
            final(self).blocks == old(self).blocks,
    {
        let mut a = self.state[indices[0]];
        let mut b = self.state[indices[1]];
        let mut c = self.state[indices[2]];
        let mut d = self.state[indices[3]];

        a = a.wrapping_add(b);
        d = rotate(d ^ a, 16);

        c = c.wrapping_add(d);
        b = rotate(b ^ c, 12);

        a = a.wrapping_add(b);
        d = rotate(a ^ d, 8);

        c = c.wrapping_add(d);
        b = rotate(b ^ c, 7);

        self.state.set(indices[0], a);
        self.state.set(indices[1], b);
        self.state.set(indices[2], c);
        self.state.set(indices[3], d);
    }

    /// Run `round_count / 2` double rounds on the state and append one block
    /// to the buffer.
    fn round(&mut self)
        requires
            old(self).state@.len() == 16,
            old(self).seed_state@.len() == 16,
        ensures
            final(self).state@ == double_rounds(old(self).state@, old(self).round_count as nat / 2),
            final(self).state@.len() == 16,
            final(self).buffer@ == old(self).buffer@ + emit(old(self).seed_state@, final(self).state@),
            final(self).seed_state == old(self).seed_state,
            final(self).round_count == old(self).round_count,
            final(self).buffer_offset == old(self).buffer_offset,
            final(self).blocks == old(self).blocks,
    {
        let half = self.round_count / 2;
        let mut k: usize = 0;
        while k < half
            invariant
                k <= half == self.round_count / 2,
                self.state@.len() == 16,
                self.state@ == double_rounds(old(self).state@, k as nat),
                self.seed_state == old(self).seed_state,
                self.round_count == old(self).round_count,
                self.buffer == old(self).buffer,
                self.buffer_offset == old(self).buffer_offset,
                self.blocks == old(self).blocks,
            decreases half - k,
        {
            // column rounds
            self.quarter_round([0, 4, 8, 12]);
            self.quarter_round([1, 5, 9, 13]);
            self.quarter_round([2, 6, 10, 14]);
            self.quarter_round([3, 7, 11, 15]);
            // diagonal rounds
            self.quarter_round([0, 5, 10, 15]);
            self.quarter_round([1, 6, 11, 12]);
            self.quarter_round([2, 7, 8, 13]);
            self.quarter_round([3, 4, 9, 14]);
            k += 1;
        }
        let mut block: Vec<u8> = Vec::new();
        let mut i: usize = 0;
        while i < 16
            invariant
                i <= 16,
                self.buffer == old(self).buffer,
                self.state@.len() == 16,
                self.seed_state@.len() == 16,
                self.state@ == double_rounds(old(self).state@, old(self).round_count as nat / 2),
                self.seed_state == old(self).seed_state,
                self.round_count == old(self).round_count,
                self.buffer_offset == old(self).buffer_offset,
                self.blocks == old(self).blocks,
                block@ == Seq::new(
                    4 * i as nat,
                    |p: int| le_bytes(self.seed_state@[p / 4].wrapping_add(self.state@[p / 4]))[p % 4],
                ),
            decreases 16 - i,
        {
            let w = self.seed_state[i].wrapping_add(self.state[i]);
            block.push((w % 256) as u8);
            block.push(((w / 256) % 256) as u8);
            block.push(((w / 65536) % 256) as u8);
            block.push((w / 16777216) as u8);
            i += 1;
            assert(block@ =~= Seq::new(
                4 * i as nat,
                |p: int| le_bytes(self.seed_state@[p / 4].wrapping_add(self.state@[p / 4]))[p % 4],
            ));
        }
        assert(block@ =~= emit(self.seed_state@, self.state@));
        self.buffer.append(&mut block);
    }
}

/// The 64-bit word made of eight little-endian bytes.
pub open spec fn le_u64(b: Seq<u8>) -> u64 {
    (b[0] as int + 0x100 * b[1] as int + 0x1_0000 * b[2] as int + 0x100_0000 * b[3] as int
        + 0x1_0000_0000 * b[4] as int + 0x100_0000_0000 * b[5] as int + 0x1_0000_0000_0000
        * b[6] as int + 0x100_0000_0000_0000 * b[7] as int) as u64
}

/// `len` stream bytes from position `p` on.
pub open spec fn stream_bytes(seed: Seq<u32>, rounds: nat, p: nat, len: nat) -> Seq<u8> {
    Seq::new(len, |i: int| stream_byte(seed, rounds, (p + i) as nat))
}

impl ChaChaRng {
    /// A stream keyed by the Keccak-256 digest of `seed`, with the default
    /// round count.
    pub fn from_seed(seed: &[u8]) -> (r: ChaChaRng)
        ensures
            r.wf(),
            r.seed() == initial_state(keccak256_of(seed@)),
            r.rounds() == DEFAULT_ROUNDS,
            r.position() == 0,
    {
        Self::with_rounds(seed, DEFAULT_ROUNDS)
    }

    /// A stream keyed by the Keccak-256 digest of `seed` that runs
    /// `round_count` rounds (an even number) per block.
    pub fn with_rounds(seed: &[u8], round_count: usize) -> (r: ChaChaRng)
        requires
            round_count <= MAX_ROUNDS,
            round_count % 2 == 0,
        ensures
            r.wf(),
            r.seed() == initial_state(keccak256_of(seed@)),
            r.rounds() == round_count,
            r.position() == 0,
    {
        let digest = keccak_digest(seed);
        let mut state: Vec<u32> = Vec::new();
        // nothing up my sleeve values
        state.push(SIGMA0);
        state.push(SIGMA1);
        state.push(SIGMA2);
        state.push(SIGMA3);
        // key values
        let mut i: usize = 0;
        while i < 8
            invariant
                i <= 8,
                digest@.len() == 32,
                state@.len() == 4 + i,
                forall|j: int| 0 <= j < 4 + i ==> state@[j] == initial_state(digest@)[j],
            decreases 8 - i,
        {
            let w = digest[4 * i] as u32 + 256 * (digest[4 * i + 1] as u32) + 65536 * (digest[4 * i
                + 2] as u32) + 16777216 * (digest[4 * i + 3] as u32);
            state.push(w);
            i += 1;
        }
        // counter and nonce values
        let mut j: usize = 12;
        while j < 16
            invariant
                12 <= j <= 16,
                digest@.len() == 32,
                state@.len() == j,
                forall|t: int| 0 <= t < j ==> state@[t] == initial_state(digest@)[t],
            decreases 16 - j,
        {
            state.push(0);
            j += 1;
        }
        assert(state@ =~= initial_state(digest@));
        let seed_state = state.clone();
        ChaChaRng {
            state,
            seed_state,
            round_count,
            buffer: Vec::new(),
            buffer_offset: 0,
            blocks: Ghost(0),
        }
    }

    /// The number of rounds per block.
    pub fn round_count(&self) -> (r: usize)
        ensures
            r == self.rounds(),
    {
        self.round_count
    }

    /// The next byte of the stream.
    pub fn get_byte(&mut self) -> (r: u8)
        requires
            old(self).wf(),
        ensures
            final(self).wf(),
            final(self).seed() == old(self).seed(),
            final(self).rounds() == old(self).rounds(),
            final(self).position() == old(self).position() + 1,
            r == stream_byte(old(self).seed(), old(self).rounds(), old(self).position()),
    {
        let ghost p = self.position();
        reveal(stream_byte);
        if self.buffer_offset == self.buffer.len() {
            let ghost b = self.blocks@;
            proof {
                if b > 0 {
                    assert(p == b * 64);
                }
            }
            assert(self.state@ == state_after(self.seed_state@, self.round_count as nat, b));
            self.buffer = Vec::new();
            self.buffer_offset = 0;
            self.round();
            assert(self.buffer@ =~= emit(self.seed_state@, self.state@));
            self.blocks = Ghost(b + 1);
            assert(self.state@ == state_after(self.seed_state@, self.round_count as nat, b + 1));
            assert(self.buffer@ =~= block_bytes(self.seed_state@, self.round_count as nat, b));
            assert(p / 64 == b && p % 64 == 0);
        } else {
            let ghost b = self.blocks@;
            assert(p / 64 == b - 1 && p % 64 == self.buffer_offset);
        }
        let byte = self.buffer[self.buffer_offset];
        self.buffer_offset += 1;
        byte
    }

    /// The next `len` bytes of the stream.
    pub fn get_bytes(&mut self, len: usize) -> (r: Vec<u8>)
        requires
            old(self).wf(),
        ensures
            final(self).wf(),
            final(self).seed() == old(self).seed(),
            final(self).rounds() == old(self).rounds(),
            final(self).position() == old(self).position() + len,
            r@ == stream_bytes(old(self).seed(), old(self).rounds(), old(self).position(), len as nat),
    {
        let mut bytes: Vec<u8> = Vec::new();
        let mut i: usize = 0;
        while i < len
            invariant
                i <= len,
                self.wf(),
                self.seed() == old(self).seed(),
                self.rounds() == old(self).rounds(),
                self.position() == old(self).position() + i,
                bytes@ == stream_bytes(old(self).seed(), old(self).rounds(), old(self).position(), i as nat),
            decreases len - i,
        {
            let b = self.get_byte();
            bytes.push(b);
            i += 1;
            assert(bytes@ =~= stream_bytes(old(self).seed(), old(self).rounds(), old(self).position(), i as nat));
        }
        bytes
    }

    /// The next four bytes of the stream as a little-endian word.
    pub fn next_u32(&mut self) -> (r: u32)
        requires
            old(self).wf(),
        ensures
            final(self).wf(),
            final(self).seed() == old(self).seed(),
            final(self).rounds() == old(self).rounds(),
            final(self).position() == old(self).position() + 4,
            r == le_u32(
                stream_byte(old(self).seed(), old(self).rounds(), old(self).position()),
                stream_byte(old(self).seed(), old(self).rounds(), old(self).position() + 1),
                stream_byte(old(self).seed(), old(self).rounds(), old(self).position() + 2),
                stream_byte(old(self).seed(), old(self).rounds(), old(self).position() + 3),
            ),
    {
        let b0 = self.get_byte();
        let b1 = self.get_byte();
        let b2 = self.get_byte();
        let b3 = self.get_byte();
        b0 as u32 + 256 * (b1 as u32) + 65536 * (b2 as u32) + 16777216 * (b3 as u32)
    }

    /// The next eight bytes of the stream as a little-endian word.
    pub fn next_u64(&mut self) -> (r: u64)
        requires
            old(self).wf(),
        ensures
            final(self).wf(),
            final(self).seed() == old(self).seed(),
            final(self).rounds() == old(self).rounds(),
            final(self).position() == old(self).position() + 8,
            r == le_u64(stream_bytes(old(self).seed(), old(self).rounds(), old(self).position(), 8)),
    {
        let b = self.get_bytes(8);
        b[0] as u64 + 0x100 * (b[1] as u64) + 0x1_0000 * (b[2] as u64) + 0x100_0000 * (b[3] as u64)
            + 0x1_0000_0000 * (b[4] as u64) + 0x100_0000_0000 * (b[5] as u64) + 0x1_0000_0000_0000 * (
        b[6] as u64) + 0x100_0000_0000_0000 * (b[7] as u64)
    }

    /// Overwrite every byte of `dest` with the next bytes of the stream.
    pub fn fill_bytes(&mut self, dest: &mut Vec<u8>)
        requires
            old(self).wf(),
        ensures
            final(self).wf(),
            final(self).seed() == old(self).seed(),
            final(self).rounds() == old(self).rounds(),
            final(self).position() == old(self).position() + old(dest)@.len(),
            final(dest)@ == stream_bytes(old(self).seed(), old(self).rounds(), old(self).position(), old(dest)@.len()),
    {
        let mut i: usize = 0;
        while i < dest.len()
            invariant
                i <= dest@.len() == old(dest)@.len(),
                self.wf(),
                self.seed() == old(self).seed(),
                self.rounds() == old(self).rounds(),
                self.position() == old(self).position() + i,
                forall|t: int| 0 <= t < i ==> dest@[t] == stream_byte(old(self).seed(), old(self).rounds(), (old(self).position() + t) as nat),
            decreases dest@.len() - i,
        {
            let b = self.get_byte();
            dest.set(i, b);
            i += 1;
        }
        assert(dest@ =~= stream_bytes(old(self).seed(), old(self).rounds(), old(self).position(), old(dest)@.len()));
    }
}

} // verus!
