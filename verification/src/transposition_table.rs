//! A direct-mapped, fixed-capacity cache from position key to score.

use vstd::prelude::*;

use vstd::arithmetic::div_mod::{
    lemma_fundamental_div_mod, lemma_mod_bound, lemma_mod_equivalence, lemma_small_mod,
};

verus! {

/// Marks an empty slot. A stored partial key is always below 2^32, so a
/// lookup can never mistake an empty slot for a hit.
pub const EMPTY_SLOT: u64 = 0xFFFF_FFFF_FFFF_FFFFu64;

/// Stores the score of board positions, so we do not need to recompute it
/// if the same position comes up again.
///
/// The cache is direct mapped: a key is stored at index `key % capacity`
/// together with its remainder modulo 2^32. The capacity is odd and
/// `capacity * 2^32` exceeds every board key, so by the Chinese remainder
/// theorem the pair of index and partial key identifies the full key (see
/// [`lemma_partial_key_identifies`]): a hit never returns the score of
/// another position. Newer entries simply evict older ones.
pub struct TranspositionTable {
    /// The partial key of each filled slot, or [`EMPTY_SLOT`].
    pub keys: Vec<u64>,
    /// The score stored beside each partial key.
    pub scores: Vec<i8>,
}

impl TranspositionTable {
    /// One slot per key and a capacity that makes index and partial key
    /// identify a board: odd, and large enough that capacity * 2^32
    /// exceeds every 49-bit key.
    pub open spec fn wf(self) -> bool {
        &&& self.keys.len() == self.scores.len()
        &&& self.keys.len() % 2 == 1
        &&& self.keys.len() > 131072
    }

    /// The slot a key is stored in.
    pub open spec fn spec_index(self, board: u64) -> int {
        board as int % self.keys.len() as int
    }

    /// The partial key stored for a board.
    pub open spec fn spec_partial(board: u64) -> int {
        board as int % 0x100000000
    }

    /// The stored score of a board: present exactly when the board's slot
    /// holds the board's partial key.
    pub open spec fn spec_lookup(self, board: u64) -> Option<i8> {
        if self.keys[self.spec_index(board)] == Self::spec_partial(board) {
            Some(self.scores[self.spec_index(board)])
        } else {
            None
        }
    }

    /// Create a table of `capacity` empty slots. The capacity must be odd
    /// and exceed 2^17, so that index and partial key together identify a
    /// full 49-bit key.
    pub fn new(capacity: usize) -> (r: TranspositionTable)
        requires
            capacity % 2 == 1,
            capacity > 131072,
        ensures
            r.wf(),
            r.keys.len() == capacity,
            forall|j: int| 0 <= j < capacity ==> r.keys[j] == EMPTY_SLOT,
            forall|j: int| 0 <= j < capacity ==> r.scores[j] == 0,
    {
        TranspositionTable { keys: vec![EMPTY_SLOT; capacity], scores: vec![0i8; capacity] }
    }

    /// Store a score for a board, overwriting whatever the board's slot
    /// held.
    pub fn put(&mut self, board: u64, score: i8)
        requires
            old(self).wf(),
        ensures
            final (self).wf(),
            final (self).keys.len() == old(self).keys.len(),
            final (self).keys@ == old(self).keys@.update(
                old(self).spec_index(board),
                (Self::spec_partial(board)) as u64,
            ),
            final (self).scores@ == old(self).scores@.update(old(self).spec_index(board), score),
    {
        proof {
            lemma_mod_bound(board as int, self.keys.len() as int);
        }
        let index = (board % self.keys.len() as u64) as usize;
        let partial = board as u32 as u64;
        proof {
            assert(board as u32 as u64 == board % 0x100000000u64) by (bit_vector);
            assert(board % 0x100000000u64 == Self::spec_partial(board));
            assert(board as u64 % (self.keys.len() as u64) == self.spec_index(board));
        }
        self.keys.set(index, partial);
        self.scores.set(index, score);
    }

    /// Look a board up: the stored score if the board's slot holds the
    /// board's partial key, `None` otherwise.
    pub fn get(&self, board: u64) -> (r: Option<i8>)
        requires
            self.wf(),
        ensures
            r == self.spec_lookup(board),
    {
        proof {
            lemma_mod_bound(board as int, self.keys.len() as int);
            assert(board as u32 as u64 == board % 0x100000000u64) by (bit_vector);
        }
        let index = (board % self.keys.len() as u64) as usize;
        let found_key = self.keys[index];
        if found_key == board as u32 as u64 {
            // Hit
            Some(self.scores[index])
        } else {
            // Miss
            None
        }
    }
}

/// Storing a score and reading it back: the stored board hits and returns
/// exactly the stored score, while any board with a different partial key
/// misses on a table that held no other entry, whether or not it shares
/// the slot.
pub proof fn lemma_store_then_lookup(
    t0: TranspositionTable,
    t1: TranspositionTable,
    board: u64,
    score: i8,
    other: u64,
)
    requires
        t0.wf(),
        t1.keys@ == t0.keys@.update(
            t0.spec_index(board),
            (TranspositionTable::spec_partial(board)) as u64,
        ),
        t1.scores@ == t0.scores@.update(t0.spec_index(board), score),
        forall|j: int| 0 <= j < t0.keys.len() ==> t0.keys[j] == EMPTY_SLOT,
        TranspositionTable::spec_partial(other) != TranspositionTable::spec_partial(board),
    ensures
        t1.spec_lookup(board) == Some(score),
        t1.spec_lookup(other) == None::<i8>,
{
    lemma_mod_bound(board as int, t0.keys.len() as int);
    lemma_mod_bound(other as int, t0.keys.len() as int);
    assert(TranspositionTable::spec_partial(board) < 0x100000000) by {
        lemma_mod_bound(board as int, 0x100000000);
    }
    assert(TranspositionTable::spec_partial(other) < 0x100000000) by {
        lemma_mod_bound(other as int, 0x100000000);
    }
}

/// The Chinese-remainder property of the cache layout: two board keys
/// that share both their slot index and their partial key are equal,
/// because the capacity is odd, so coprime to 2^32, and the product of
/// capacity and 2^32 exceeds every board key.
pub proof fn lemma_partial_key_identifies(k1: u64, k2: u64, n: int)
    requires
        n % 2 == 1,
        n > 131072,
        k1 < 0x2000000000000,
        k2 < 0x2000000000000,
        k1 as int % n == k2 as int % n,
        k1 as int % 0x100000000 == k2 as int % 0x100000000,
    ensures
        k1 == k2,
{
    if k1 != k2 {
        let a: int = if k1 >= k2 {
            k1 as int
        } else {
            k2 as int
        };
        let b: int = if k1 >= k2 {
            k2 as int
        } else {
            k1 as int
        };
        let d = a - b;
        lemma_mod_equivalence(a, b, n);
        lemma_mod_equivalence(a, b, 0x100000000);
        assert(d % n == 0);
        assert(d % 0x100000000 == 0);
        lemma_fundamental_div_mod(d, 0x100000000);
        let e = d / 0x100000000;
        assert(d == 0x100000000 * e);
        assert(0 < d < 0x2000000000000);
        assert(0 <= e < 0x20000) by (nonlinear_arith)
            requires
                d == 0x100000000 * e,
                0 < d < 0x2000000000000,
        ;
        assert(vstd::arithmetic::power2::pow2(32) == 0x100000000) by {
            vstd::arithmetic::power2::lemma2_to64();
        }
        assert(vstd::arithmetic::power2::pow2(32) * e == d);
        lemma_odd_divisor_of_even_product(n, e, 32);
        assert(e % n == 0);
        if e == 0 {
            assert(d == 0);
        } else {
            lemma_small_mod(e as nat, n as nat);
        }
    }
}

/// An odd positive divisor of `2^j * e` divides `e`: the factors of two
/// can be peeled off one at a time.
proof fn lemma_odd_divisor_of_even_product(n: int, e: int, j: nat)
    requires
        n % 2 == 1,
        n > 0,
        e >= 0,
        (vstd::arithmetic::power2::pow2(j) * e) % n == 0,
    ensures
        e % n == 0,
    decreases j,
{
    if j == 0 {
        assert(vstd::arithmetic::power2::pow2(0) == 1) by {
            vstd::arithmetic::power2::lemma2_to64();
        }
        assert(1 * e == e) by (nonlinear_arith);
    } else {
        let m = vstd::arithmetic::power2::pow2((j - 1) as nat) * e;
        assert(vstd::arithmetic::power2::pow2(j) == 2 * vstd::arithmetic::power2::pow2(
            (j - 1) as nat,
        )) by {
            vstd::arithmetic::power2::lemma_pow2_unfold(j);
        }
        assert(vstd::arithmetic::power2::pow2(j) * e == 2 * m) by (nonlinear_arith)
            requires
                vstd::arithmetic::power2::pow2(j) == 2 * vstd::arithmetic::power2::pow2(
                    (j - 1) as nat,
                ),
                m == vstd::arithmetic::power2::pow2((j - 1) as nat) * e,
        ;
        lemma_odd_divides_double(n, m);
        lemma_odd_divisor_of_even_product(n, e, (j - 1) as nat);
    }
}

/// An odd number that divides `2 * m` divides `m`.
proof fn lemma_odd_divides_double(n: int, m: int)
    requires
        n % 2 == 1,
        n > 0,
        m >= 0,
        (2 * m) % n == 0,
    ensures
        m % n == 0,
{
    lemma_fundamental_div_mod(2 * m, n);
    let q = (2 * m) / n;
    assert(2 * m == n * q);
    assert(q >= 0) by (nonlinear_arith)
        requires
            2 * m == n * q,
            m >= 0,
            n > 0,
    ;
    if q % 2 == 0 {
        lemma_fundamental_div_mod(q, 2);
        let h = q / 2;
        assert(q == 2 * h);
        assert(m == n * h) by (nonlinear_arith)
            requires
                2 * m == n * q,
                q == 2 * h,
        ;
        vstd::arithmetic::div_mod::lemma_mod_multiples_basic(h, n);
        assert((n * h) % n == 0);
    } else {
        // An odd times an odd is odd, yet 2 * m is even.
        lemma_fundamental_div_mod(q, 2);
        lemma_fundamental_div_mod(n, 2);
        let qh = q / 2;
        let nh = n / 2;
        assert(q == 2 * qh + 1);
        assert(n == 2 * nh + 1);
        assert(n * q == 2 * (2 * nh * qh + nh + qh) + 1) by (nonlinear_arith)
            requires
                q == 2 * qh + 1,
                n == 2 * nh + 1,
        ;
        let odd_half = 2 * nh * qh + nh + qh;
        assert(2 * m == 2 * odd_half + 1);
        assert(false) by (nonlinear_arith)
            requires
                2 * m == 2 * odd_half + 1,
        ;
    }
}

} // verus!
