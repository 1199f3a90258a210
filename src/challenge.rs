//! Transcript encoding and the sparse challenge drawn from it.
use vstd::prelude::*;
use crate::chacha_rng::{initial_state, keccak256_of, stream_word, DEFAULT_ROUNDS};
use crate::field::valid_modulus;
use crate::polynomial::{coef, l1_prefix, max_prefix, norm_l1_of, norm_max_of};

verus! {

/// Most stream words a challenge over `[0, n)` may consume: far more than
/// drawing every degree of `[0, n)` needs on average (about `n ln n`).
pub open spec fn draw_limit(n: nat) -> nat {
    64 * n + 0x1_0000
}

/// `2^32`, the number of values of a stream word.
pub const WORD_RANGE: u64 = 0x1_0000_0000;

/// The eight little-endian bytes of `v`.
pub open spec fn u64_le(v: nat) -> Seq<u8> {
    Seq::new(8, |i: int| ((v / vstd::arithmetic::power2::pow2((8 * i) as nat)) % 256) as u8)
}

/// The words of `e`, each as eight little-endian bytes.
pub open spec fn encode_words(e: Seq<u64>) -> Seq<u8>
    decreases e.len(),
{
    if e.len() == 0 {
        Seq::empty()
    } else {
        encode_words(e.drop_last()) + u64_le(e.last() as nat)
    }
}

/// The encodings of the sequences of `t`, one after another, each its length
/// followed by its words.
pub open spec fn encode_items(t: Seq<Seq<u64>>) -> Seq<u8>
    decreases t.len(),
{
    if t.len() == 0 {
        Seq::empty()
    } else {
        encode_items(t.drop_last()) + u64_le(t.last().len()) + encode_words(t.last())
    }
}

/// The canonical bytes of a transcript: its length, then each element's
/// length and coefficients, all as 64-bit little-endian integers.
pub open spec fn encode_transcript_spec(t: Seq<Seq<u64>>) -> Seq<u8> {
    u64_le(t.len()) + encode_items(t)
}

/// The sequences held by a vector of vectors.
pub open spec fn nested_view(t: Seq<Vec<u64>>) -> Seq<Seq<u64>> {
    Seq::new(t.len(), |i: int| t[i]@)
}

/// Relies on `bincode::serialize` (default configuration: fixed-width
/// little-endian integers, sequences prefixed with their length as a `u64`).
/// On a `Vec<Vec<u64>>` it cannot fail: the size limit is unbounded, every
/// sequence has a known length, and the writer is a `Vec`.
#[verifier::external_body]
pub(crate) fn encode_transcript(t: &Vec<Vec<u64>>) -> (r: Option<Vec<u8>>)
    ensures
        r.is_some(),
        r matches Some(b) ==> b@ == encode_transcript_spec(nested_view(t@)),
{
    bincode::serialize(t).ok()
}

/// The initial ChaCha state a transcript seeds.
pub open spec fn challenge_seed(t: Seq<Seq<u64>>) -> Seq<u32> {
    initial_state(keccak256_of(encode_transcript_spec(t)))
}

/// The largest multiple of `n` that is at most `2^32`: words below it are
/// accepted, the rest rejected, so that `word % n` is uniform.
pub open spec fn zone(n: nat) -> nat {
    (WORD_RANGE - (WORD_RANGE as nat % n)) as nat
}

/// The degrees chosen after `j` stream words, as membership flags over `[0, n)`.
pub open spec fn drawn(seed: Seq<u32>, n: nat, j: nat) -> Seq<bool>
    decreases j,
{
    if j == 0 {
        Seq::new(n, |_i: int| false)
    } else {
        let prev = drawn(seed, n, (j - 1) as nat);
        let w = stream_word(seed, DEFAULT_ROUNDS as nat, (j - 1) as nat);
        if (w as nat) < zone(n) {
            prev.update((w as nat % n) as int, true)
        } else {
            prev
        }
    }
}

/// How many flags are set.
pub open spec fn ones(s: Seq<bool>) -> nat
    decreases s.len(),
{
    if s.len() == 0 {
        0
    } else {
        ones(s.drop_last()) + if s.last() {
            1nat
        } else {
            0nat
        }
    }
}

/// After `j` words, `kappa` distinct degrees have been chosen, and after no
/// fewer words had they been.
pub open spec fn first_full(seed: Seq<u32>, n: nat, kappa: nat, j: nat) -> bool {
    &&& ones(drawn(seed, n, j)) == kappa
    &&& forall|i: nat| i < j ==> ones(#[trigger] drawn(seed, n, i)) < kappa
}

/// The polynomial with coefficient 1 at each chosen degree and 0 elsewhere.
pub open spec fn challenge_poly(flags: Seq<bool>) -> Seq<u64> {
    Seq::new(flags.len(), |i: int| if flags[i] { 1u64 } else { 0u64 })
}

/// `drawn` keeps its length.
pub proof fn lemma_drawn_len(seed: Seq<u32>, n: nat, j: nat)
    requires
        n > 0,
    ensures
        drawn(seed, n, j).len() == n,
    decreases j,
{
    if j > 0 {
        lemma_drawn_len(seed, n, (j - 1) as nat);
    }
}

/// No flag of an all-clear sequence is set.
pub proof fn lemma_ones_clear(n: nat)
    ensures
        ones(Seq::new(n, |_i: int| false)) == 0,
    decreases n,
{
    if n > 0 {
        lemma_ones_clear((n - 1) as nat);
        assert(Seq::new(n, |_i: int| false).drop_last() =~= Seq::new((n - 1) as nat, |_i: int| false));
    }
}

/// Setting a flag that was clear adds one to the count.
pub proof fn lemma_ones_set(s: Seq<bool>, d: int)
    requires
        0 <= d < s.len(),
        !s[d],
    ensures
        ones(s.update(d, true)) == ones(s) + 1,
    decreases s.len(),
{
    let t = s.update(d, true);
    if d == s.len() - 1 {
        assert(t.drop_last() =~= s.drop_last());
    } else {
        lemma_ones_set(s.drop_last(), d);
        assert(t.drop_last() =~= s.drop_last().update(d, true));
    }
}

/// The first index at which `kappa` degrees are chosen is unique.
pub proof fn lemma_first_full_unique(seed: Seq<u32>, n: nat, kappa: nat, i: nat, j: nat)
    requires
        first_full(seed, n, kappa, i),
        first_full(seed, n, kappa, j),
    ensures
        i == j,
{
    if i < j {
        assert(ones(drawn(seed, n, i)) < kappa);
    } else if j < i {
        assert(ones(drawn(seed, n, j)) < kappa);
    }
}

/// The norms of a challenge polynomial: its l1 norm counts the chosen
/// degrees, and its l-infinity norm is 1 when any degree is chosen.
pub proof fn lemma_challenge_norms(flags: Seq<bool>, q: u64)
    requires
        valid_modulus(q),
    ensures
        norm_l1_of(challenge_poly(flags), q) == ones(flags),
        norm_max_of(challenge_poly(flags), q) == if ones(flags) > 0 {
            1nat
        } else {
            0nat
        },
{
    lemma_challenge_norms_prefix(flags, q, flags.len() as int);
    assert(flags.subrange(0, flags.len() as int) =~= flags);
}

/// The norms over the first `m` coefficients.
pub proof fn lemma_challenge_norms_prefix(flags: Seq<bool>, q: u64, m: int)
    requires
        valid_modulus(q),
        0 <= m <= flags.len(),
    ensures
        l1_prefix(challenge_poly(flags), q, m) == ones(flags.subrange(0, m)),
        max_prefix(challenge_poly(flags), q, m) == if ones(flags.subrange(0, m)) > 0 {
            1nat
        } else {
            0nat
        },
    decreases m,
{
    if m > 0 {
        lemma_challenge_norms_prefix(flags, q, m - 1);
        assert(flags.subrange(0, m).drop_last() =~= flags.subrange(0, m - 1));
        let c = coef(challenge_poly(flags), m - 1);
        assert(c == if flags[m - 1] { 1int } else { 0int });
        assert(crate::field::centered_abs(c, q as int) == if flags[m - 1] { 1nat } else { 0nat });
    }
}

} // verus!
