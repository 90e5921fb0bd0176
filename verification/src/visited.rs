//! The set of boards that a search has met, with a ceiling on its size.

use std::collections::HashMap;
use vstd::prelude::*;
use vstd::std_specs::hash::group_hash_axioms;

verus! {

/// The modulus of the bucket key: the largest prime below 2³².
pub const HASH_MODULUS: u64 = 4294967291;

/// The bucket key after one more cell.
pub open spec fn hash_step(h: int, v: i32) -> int {
    (h * 31 + (v + 0x8000_0000)) % (HASH_MODULUS as int)
}

/// The bucket key of the first `n` cells.
pub open spec fn hash_prefix(cells: Seq<i32>, n: int) -> int
    decreases n,
{
    if n <= 0 {
        7
    } else {
        hash_step(hash_prefix(cells, n - 1), cells[n - 1])
    }
}

/// The key of the bucket that holds a board with these cells.
pub open spec fn board_hash(cells: Seq<i32>) -> int {
    hash_prefix(cells, cells.len() as int)
}

/// One of the boards in `bucket` has these cells.
pub open spec fn bucket_has(bucket: Seq<Vec<i32>>, cells: Seq<i32>) -> bool {
    exists|j: int| 0 <= j < bucket.len() && (#[trigger] bucket[j])@ == cells
}

/// The bucket for these cells exists and holds them.
pub open spec fn stored(buckets: Map<u64, Vec<Vec<i32>>>, cells: Seq<i32>) -> bool {
    &&& buckets.contains_key(board_hash(cells) as u64)
    &&& bucket_has(buckets[board_hash(cells) as u64]@, cells)
}

/// What became of a board that was offered to the set.
#[derive(Copy, Clone, Debug, PartialEq, Eq, Structural)]
pub enum InsertOutcome {
    /// The board was new and is now in the set.
    Inserted,
    /// The board was in the set already.
    AlreadyPresent,
    /// The board was new, but the set is at its ceiling.
    Full,
}

/// The key of the bucket that holds a board with these cells.
fn hash_cells(cells: &Vec<i32>) -> (h: u64)
    ensures
        h == board_hash(cells@),
        h < HASH_MODULUS,
{
    let mut h: u64 = 7;
    let mut i: usize = 0;
    while i < cells.len()
        invariant
            i <= cells@.len(),
            h == hash_prefix(cells@, i as int),
            h < HASH_MODULUS,
        decreases cells@.len() - i,
    {
        let v = (cells[i] as i64 + 0x8000_0000) as u64;
        h = (h * 31 + v) % HASH_MODULUS;
        i += 1;
    }
    h
}

/// Whether two vectors hold the same cells.
fn same_cells(a: &Vec<i32>, b: &Vec<i32>) -> (r: bool)
    ensures
        r == (a@ == b@),
{
    let r = *a == *b;
    proof {
        if r {
            assert(a@ =~= b@);
        }
    }
    r
}

/// Whether one of the boards in `bucket` has these cells.
fn bucket_holds(bucket: &Vec<Vec<i32>>, cells: &Vec<i32>) -> (r: bool)
    ensures
        r == bucket_has(bucket@, cells@),
{
    let mut j: usize = 0;
    while j < bucket.len()
        invariant
            j <= bucket@.len(),
            forall|k: int| 0 <= k < j ==> (#[trigger] bucket@[k])@ != cells@,
        decreases bucket@.len() - j,
    {
        if same_cells(&bucket[j], cells) {
            return true;
        }
        j += 1;
    }
    false
}

/// A set of boards, each given by its cells, that takes no more than
/// `limit` boards.
pub struct VisitedSet {
    buckets: HashMap<u64, Vec<Vec<i32>>>,
    count: usize,
    limit: usize,
    contents: Ghost<Set<Seq<i32>>>,
}

impl View for VisitedSet {
    type V = Set<Seq<i32>>;

    /// The boards in the set, each as its cells.
    closed spec fn view(&self) -> Set<Seq<i32>> {
        self.contents@
    }
}

impl VisitedSet {
    /// The buckets hold the boards of the set, each under its key, and the
    /// count is the number of boards.
    pub closed spec fn wf(&self) -> bool {
        &&& self.contents@.finite()
        &&& self.count == self.contents@.len()
        &&& self.count <= self.limit
        &&& forall|k: u64, j: int|
            self.buckets@.contains_key(k) && 0 <= j < self.buckets@[k]@.len() ==> {
                &&& board_hash((#[trigger] self.buckets@[k]@[j])@) == k
                &&& self.contents@.contains(self.buckets@[k]@[j]@)
            }
        &&& forall|s: Seq<i32>| #[trigger]
            self.contents@.contains(s) ==> stored(self.buckets@, s)
    }

    /// The most boards that the set takes.
    pub closed spec fn spec_limit(&self) -> usize {
        self.limit
    }

    /// What follows from `wf` for users of the set.
    pub proof fn lemma_wf(&self)
        requires
            self.wf(),
        ensures
            self@.finite(),
            self@.len() <= self.limit(),
    {
    }

    /// An empty set that takes up to `limit` boards.
    pub fn new(limit: usize) -> (r: VisitedSet)
        ensures
            r.wf(),
            r@ == Set::<Seq<i32>>::empty(),
            r.limit() == limit,
    {
        VisitedSet {
            buckets: HashMap::new(),
            count: 0,
            limit,
            contents: Ghost(Set::empty()),
        }
    }

    /// The number of boards in the set.
    pub fn len(&self) -> (r: usize)
        requires
            self.wf(),
        ensures
            r == self@.len(),
    {
        self.count
    }

    /// The most boards that the set takes.
    #[verifier::when_used_as_spec(spec_limit)]
    pub fn limit(&self) -> (r: usize)
        ensures
            r == self.spec_limit(),
    {
        self.limit
    }

    /// Whether a board with these cells is in the set.
    pub fn contains(&self, cells: &Vec<i32>) -> (r: bool)
        requires
            self.wf(),
        ensures
            r == self@.contains(cells@),
    {
        broadcast use group_hash_axioms;

        let h = hash_cells(cells);
        match self.buckets.get(&h) {
            Some(bucket) => {
                let r = bucket_holds(bucket, cells);
                proof {
                    if r {
                        let j = choose|j: int|
                            0 <= j < bucket@.len() && (#[trigger] bucket@[j])@ == cells@;
                        assert(self.contents@.contains(self.buckets@[h]@[j]@));
                    }
                }
                r
            },
            None => false,
        }
    }

    /// Puts a board with these cells into the set, unless it is there
    /// already or the set is at its ceiling.
    pub fn insert(&mut self, cells: Vec<i32>) -> (r: InsertOutcome)
        requires
            old(self).wf(),
        ensures
            final(self).wf(),
            final(self).limit() == old(self).limit(),
            match r {
                InsertOutcome::AlreadyPresent => {
                    &&& old(self)@.contains(cells@)
                    &&& final(self)@ == old(self)@
                },
                InsertOutcome::Full => {
                    &&& !old(self)@.contains(cells@)
                    &&& old(self)@.len() == old(self).limit()
                    &&& final(self)@ == old(self)@
                },
                InsertOutcome::Inserted => {
                    &&& !old(self)@.contains(cells@)
                    &&& old(self)@.len() < old(self).limit()
                    &&& final(self)@ == old(self)@.insert(cells@)
                },
            },
    {
        broadcast use group_hash_axioms;

        if self.contains(&cells) {
            return InsertOutcome::AlreadyPresent;
        }
        if self.count >= self.limit {
            return InsertOutcome::Full;
        }
        let h = hash_cells(&cells);
        let ghost before = self.buckets@;
        let ghost s = cells@;
        let mut bucket = match self.buckets.remove(&h) {
            Some(b) => b,
            None => Vec::new(),
        };
        let ghost old_bucket = bucket@;
        bucket.push(cells);
        let ghost new_bucket = bucket;
        self.buckets.insert(h, bucket);
        self.count = self.count + 1;
        self.contents = Ghost(self.contents@.insert(s));
        proof {
            let now = self.buckets@;
            assert(now == before.remove(h).insert(h, new_bucket));
            assert(before.contains_key(h) ==> old_bucket == before[h]@);
            assert(!before.contains_key(h) ==> old_bucket.len() == 0);
            assert forall|k: u64, j: int|
                now.contains_key(k) && 0 <= j < now[k]@.len() implies {
                &&& board_hash((#[trigger] now[k]@[j])@) == k
                &&& self.contents@.contains(now[k]@[j]@)
            } by {
                if k == h {
                    if j < old_bucket.len() {
                        assert(now[k]@[j] == before[h]@[j]);
                        assert(old(self).contents@.contains(before[h]@[j]@));
                    }
                } else {
                    assert(now[k] == before[k]);
                    assert(old(self).contents@.contains(before[k]@[j]@));
                }
            }
            assert forall|t: Seq<i32>| #[trigger] self.contents@.contains(t) implies stored(
                now,
                t,
            ) by {
                if t == s {
                    assert(now[h]@[old_bucket.len() as int]@ == s);
                } else {
                    assert(old(self).contents@.contains(t));
                    assert(stored(before, t));
                    let k = board_hash(t) as u64;
                    let j = choose|j: int|
                        0 <= j < before[k]@.len() && (#[trigger] before[k]@[j])@ == t;
                    if k == h {
                        assert(now[k]@[j] == before[k]@[j]);
                    } else {
                        assert(now[k] == before[k]);
                    }
                }
            }
        }
        InsertOutcome::Inserted
    }
}

} // verus!
