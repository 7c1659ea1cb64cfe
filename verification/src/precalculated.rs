//! Precalculated scores for positions with few stones.
//!
//! Solving a position with very few stones can take long even for a fast
//! search, so such scores are computed ahead of time and shipped as a flat
//! table: one 9-byte record per position, the canonical key as 8 bytes
//! little endian followed by one signed score byte, sorted ascending by
//! key. [`OpeningBook::from_bytes`] parses such a table and
//! [`precalculated_score`] answers from it.

use vstd::prelude::*;

use crate::ConnectFour;

verus! {

/// The key of the `j`-th record of a book file: 8 bytes little endian.
#[verifier::opaque]
pub open spec fn record_key(data: Seq<u8>, j: int) -> u64 {
    (data[9 * j] as u64) | ((data[9 * j + 1] as u64) << 8) | ((data[9 * j + 2] as u64) << 16) | ((
    data[9 * j + 3] as u64) << 24) | ((data[9 * j + 4] as u64) << 32) | ((data[9 * j
        + 5] as u64) << 40) | ((data[9 * j + 6] as u64) << 48) | ((data[9 * j + 7] as u64) << 56)
}

/// The score byte of the `j`-th record of a book file.
#[verifier::opaque]
pub open spec fn record_score(data: Seq<u8>, j: int) -> i8 {
    data[9 * j + 8] as i8
}

/// The records of a book file are sorted strictly ascending by key.
pub open spec fn records_sorted(data: Seq<u8>) -> bool {
    forall|j: int|
        1 <= j < data.len() / 9 ==> record_key(data, j - 1) < #[trigger] record_key(data, j)
}

/// Every score of a book file is the score of a solved game: won or lost
/// at the earliest with the very next stone, so within 22 of zero.
pub open spec fn record_scores_plausible(data: Seq<u8>) -> bool {
    forall|j: int| 0 <= j < data.len() / 9 ==> -22 <= #[trigger] record_score(data, j) <= 22
}

/// In a sequence whose neighbours ascend strictly, so do all pairs.
proof fn lemma_ascending_pairs(s: Seq<u64>, a: int, b: int)
    requires
        forall|j: int| 0 < j < s.len() ==> s[j - 1] < #[trigger] s[j],
        0 <= a < b < s.len(),
    ensures
        s[a] < s[b],
    decreases b - a,
{
    if a + 1 < b {
        lemma_ascending_pairs(s, a, b - 1);
    }
}

/// A sorted table of precalculated scores, keyed by canonical position
/// key, covering every position with fewer than `cutoff` stones.
pub struct OpeningBook {
    /// The canonical keys, sorted strictly ascending.
    pub keys: Vec<u64>,
    /// The score belonging to each key.
    pub scores: Vec<i8>,
    /// Positions with fewer stones than this are covered by the book. An
    /// empty book carries a cutoff of zero.
    pub cutoff: u8,
}

/// Read the key of the `j`-th record: 8 bytes little endian.
fn read_record_key(data: &[u8], j: usize) -> (r: u64)
    requires
        9 * j + 9 <= data@.len(),
    ensures
        r == record_key(data@, j as int),
{
    let n = data.len();
    let off = 9 * j;
    let r = (data[off] as u64) | ((data[off + 1] as u64) << 8u64) | ((data[off + 2] as u64)
        << 16u64) | ((data[off + 3] as u64) << 24u64) | ((data[off + 4] as u64) << 32u64) | ((
    data[off + 5] as u64) << 40u64) | ((data[off + 6] as u64) << 48u64) | ((data[off + 7] as u64)
        << 56u64);
    proof {
        reveal(record_key);
    }
    r
}

/// Read the score byte of the `j`-th record.
fn read_record_score(data: &[u8], j: usize) -> (r: i8)
    requires
        9 * j + 9 <= data@.len(),
    ensures
        r == record_score(data@, j as int),
{
    let n = data.len();
    let off = 9 * j;
    let r = data[off + 8] as i8;
    proof {
        reveal(record_score);
    }
    r
}

impl OpeningBook {
    /// One score per key, keys strictly ascending, and every score in
    /// the range a solved game can have.
    pub open spec fn wf(self) -> bool {
        &&& self.keys.len() == self.scores.len()
        &&& forall|a: int, b: int|
            0 <= a < b < self.keys.len() ==> #[trigger] self.keys[a] < #[trigger] self.keys[b]
        &&& forall|j: int| 0 <= j < self.scores.len() ==> -22 <= #[trigger] self.scores[j] <= 22
    }

    /// The book holds a record for this key.
    pub open spec fn spec_contains(self, key: u64) -> bool {
        exists|j: int| 0 <= j < self.keys.len() && self.keys[j] == key
    }

    /// The score the book holds for this key.
    pub open spec fn spec_score_of(self, key: u64) -> i8 {
        self.scores[choose|j: int| 0 <= j < self.keys.len() && self.keys[j] == key]
    }

    /// A book with no records, covering nothing.
    pub fn empty() -> (r: OpeningBook)
        ensures
            r.wf(),
            r.keys.len() == 0,
            r.cutoff == 0,
    {
        OpeningBook { keys: Vec::new(), scores: Vec::new(), cutoff: 0 }
    }

    /// Parse a book from its file bytes: 9-byte records, sorted strictly
    /// ascending by key, each score one a solved game can have. Returns
    /// `None` exactly when the length is no multiple of nine, the keys
    /// are out of order, or a score is out of range. `cutoff` is the
    /// stone count up to which the caller vouches the records reach.
    #[verifier::rlimit(60)]
    pub fn from_bytes(data: &[u8], cutoff: u8) -> (r: Option<OpeningBook>)
        ensures
            r.is_some() <==> (data@.len() % 9 == 0 && records_sorted(data@)
                && record_scores_plausible(data@)),
            r.is_some() ==> {
                let book = r.unwrap();
                &&& book.wf()
                &&& book.cutoff == cutoff
                &&& book.keys.len() == data@.len() / 9
                &&& forall|j: int|
                    0 <= j < book.keys.len() ==> #[trigger] book.keys[j] == record_key(data@, j)
                &&& forall|j: int|
                    0 <= j < book.keys.len() ==> #[trigger] book.scores[j] == record_score(
                        data@,
                        j,
                    )
            },
    {
        if data.len() % 9 != 0 {
            return None;
        }
        let records = data.len() / 9;
        proof {
            vstd::arithmetic::div_mod::lemma_fundamental_div_mod(data@.len() as int, 9);
        }
        let mut keys: Vec<u64> = Vec::new();
        let mut scores: Vec<i8> = Vec::new();
        let mut j: usize = 0;
        while j < records
            invariant
                records == data@.len() / 9,
                data@.len() % 9 == 0,
                9 * records <= data@.len(),
                j <= records,
                keys.len() == j,
                scores.len() == j,
                forall|jj: int| 0 <= jj < j ==> #[trigger] keys[jj] == record_key(data@, jj),
                forall|jj: int| 0 <= jj < j ==> #[trigger] scores[jj] == record_score(data@, jj),
                forall|jj: int|
                    1 <= jj < j ==> record_key(data@, jj - 1) < #[trigger] record_key(data@, jj),
                forall|jj: int| 0 <= jj < j ==> -22 <= #[trigger] record_score(data@, jj) <= 22,
            decreases records - j,
        {
            let key = read_record_key(data, j);
            let score = read_record_score(data, j);
            if j > 0 && key <= keys[j - 1] {
                // Out of order: the file is no valid book.
                return None;
            }
            if score < -22 || score > 22 {
                // No solved game scores this: the file is no valid book.
                return None;
            }
            keys.push(key);
            scores.push(score);
            j = j + 1;
        }
        proof {
            assert forall|a: int, b: int| 0 <= a < b < keys.len() implies #[trigger] keys[a]
                < #[trigger] keys[b] by {
                lemma_ascending_pairs(keys@, a, b);
            }
        }
        Some(OpeningBook { keys, scores, cutoff })
    }

    /// Number of records in the book.
    pub fn len(&self) -> (r: usize)
        ensures
            r == self.keys.len(),
    {
        self.keys.len()
    }

    /// Binary-search the book: the stored score for the key, or `None`
    /// where the book holds no record for it.
    pub fn lookup(&self, key: u64) -> (r: Option<i8>)
        requires
            self.wf(),
        ensures
            r.is_some() <==> self.spec_contains(key),
            r.is_some() ==> r == Some(self.spec_score_of(key)),
    {
        let mut lo: usize = 0;
        let mut hi: usize = self.keys.len();
        while lo < hi
            invariant
                self.wf(),
                lo <= hi <= self.keys.len(),
                forall|j: int| 0 <= j < lo ==> #[trigger] self.keys[j] < key,
                forall|j: int| hi <= j < self.keys.len() ==> key < #[trigger] self.keys[j],
            decreases hi - lo,
        {
            let mid = lo + (hi - lo) / 2;
            let found = self.keys[mid];
            if found == key {
                let s = self.scores[mid];
                proof {
                    assert(0 <= mid < self.keys.len() && self.keys[mid as int] == key);
                    let j = choose|j: int| 0 <= j < self.keys.len() && self.keys[j] == key;
                    if j != mid {
                        assert(self.keys[j] != self.keys[mid as int]);
                    }
                }
                return Some(s);
            } else if found < key {
                lo = mid + 1;
            } else {
                hi = mid;
            }
        }
        proof {
            if self.spec_contains(key) {
                let j = choose|j: int| 0 <= j < self.keys.len() && self.keys[j] == key;
                assert(false);
            }
        }
        None
    }
}

/// It can take seconds to minutes to calculate the score of a board with
/// few stones on it. To keep things fast, the scores of such boards can
/// be precalculated: where the book carries a record for the board, its
/// score is returned as `Some(score)`, otherwise `None`.
pub fn precalculated_score(book: &OpeningBook, board: &ConnectFour) -> (r: Option<i8>)
    requires
        book.wf(),
        board.wf(),
    ensures
        board.spec_stones() >= book.cutoff ==> r.is_none(),
        board.spec_stones() < book.cutoff ==> {
            let key = (board.spec_encode()) as u64;
            &&& r.is_some() <==> book.spec_contains(key)
            &&& r.is_some() ==> r == Some(book.spec_score_of(key))
        },
{
    if board.stones() >= book.cutoff {
        return None;
    }
    book.lookup(board.encode())
}

} // verus!
