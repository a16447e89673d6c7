use vstd::prelude::*;

verus! {

/// A growable set of world ids, one bit per id.
#[derive(Clone, Debug, PartialEq, Eq)]
pub struct WorldIdSet {
    pub words: Vec<u64>,
}

/// Bit `j` of `w`.
pub open spec fn word_bit(w: u64, j: u64) -> bool {
    (w >> j) & 1u64 == 1u64
}

proof fn lemma_word_set(w: u64, i: u64, j: u64)
    requires
        i < 64,
        j < 64,
    ensures
        word_bit(w | (1u64 << i), j) == (i == j || word_bit(w, j)),
{
    assert(((w | (1u64 << i)) >> j) & 1u64 == 1u64 <==> (i == j || (w >> j) & 1u64 == 1u64)) by (bit_vector)
        requires
            i < 64,
            j < 64,
    ;
}

proof fn lemma_word_zero(j: u64)
    ensures
        !word_bit(0u64, j),
{
    assert((0u64 >> j) & 1u64 != 1u64) by (bit_vector);
}

/// Number of members below `k`.
pub open spec fn members_below(s: Seq<u64>, k: nat) -> nat
    decreases k,
{
    if k == 0 {
        0
    } else {
        members_below(s, (k - 1) as nat) + if has_id(s, (k - 1) as nat) {
            1nat
        } else {
            0nat
        }
    }
}

/// Whether id `id` is in the set of words `s`.
pub open spec fn has_id(s: Seq<u64>, id: nat) -> bool {
    id / 64 < s.len() && word_bit(s[(id / 64) as int], (id % 64) as u64)
}

impl WorldIdSet {
    pub open spec fn has(&self, id: nat) -> bool {
        has_id(self.words@, id)
    }

    /// The empty set with room for `world_count` ids.
    pub fn with_capacity(world_count: usize) -> (s: WorldIdSet)
        ensures
            s.words@.len() == world_count / 64 + if world_count % 64 == 0 { 0int } else { 1int },
            forall|id: nat| !s.has(id),
    {
        let n = world_count / 64 + if world_count % 64 == 0 { 0 } else { 1 };
        let mut words: Vec<u64> = Vec::new();
        let mut i: usize = 0;
        while i < n
            invariant
                i <= n,
                words@.len() == i,
                forall|j: int| 0 <= j < i ==> words@[j] == 0,
            decreases n - i,
        {
            words.push(0);
            i = i + 1;
        }
        let s = WorldIdSet { words };
        proof {
            assert forall|id: nat| !s.has(id) by {
                if id / 64 < s.words@.len() {
                    lemma_word_zero((id % 64) as u64);
                }
            }
        }
        s
    }

    /// Adds id `id`, growing the set when needed.
    pub fn insert(&mut self, id: usize)
        ensures
            forall|x: nat| final(self).has(x) <==> (old(self).has(x) || x == id),
    {
        let word = id / 64;
        let ghost before = self.words@;
        while self.words.len() <= word
            invariant
                self.words@.len() >= before.len(),
                forall|j: int| 0 <= j < before.len() ==> self.words@[j] == before[j],
                forall|j: int| before.len() <= j < self.words@.len() ==> self.words@[j] == 0,
            decreases word + 1 - self.words@.len(),
        {
            self.words.push(0);
        }
        let ghost grown = self.words@;
        let w = self.words[word];
        let bit = (id % 64) as u64;
        self.words.set(word, w | (1u64 << bit));
        proof {
            assert forall|x: nat| self.has(x) <==> (has_id(before, x) || x == id) by {
                let xw = x / 64;
                let xb = (x % 64) as u64;
                if xw == word {
                    lemma_word_set(w, bit, xb);
                    if xb == bit {
                        assert(x == id);
                    }
                    if xw >= before.len() {
                        lemma_word_zero(xb);
                    }
                } else if xw < grown.len() && xw >= before.len() {
                    lemma_word_zero(xb);
                }
            }
        }
    }

    /// Whether id `id` is in the set.
    pub fn contains(&self, id: usize) -> (r: bool)
        ensures
            r == self.has(id as nat),
    {
        let word = id / 64;
        if word >= self.words.len() {
            return false;
        }
        (self.words[word] >> ((id % 64) as u64)) & 1u64 == 1u64
    }

    /// The set of all ids below `world_count`.
    pub fn full(world_count: usize) -> (s: WorldIdSet)
        ensures
            forall|id: nat| s.has(id) <==> id < world_count,
    {
        let mut s = WorldIdSet::with_capacity(world_count);
        let mut id: usize = 0;
        while id < world_count
            invariant
                id <= world_count,
                forall|x: nat| s.has(x) <==> x < id,
            decreases world_count - id,
        {
            s.insert(id);
            id = id + 1;
        }
        s
    }

    /// Number of ids in the set.
    pub fn len(&self) -> (r: usize)
        requires
            self.words@.len() * 64 <= usize::MAX,
        ensures
            r == members_below(self.words@, (self.words@.len() * 64) as nat),
    {
        let total = self.words.len() * 64;
        let mut count: usize = 0;
        let mut id: usize = 0;
        while id < total
            invariant
                id <= total,
                total == self.words@.len() * 64,
                count == members_below(self.words@, id as nat),
                count <= id,
            decreases total - id,
        {
            if self.contains(id) {
                count = count + 1;
            }
            id = id + 1;
        }
        count
    }
}

} // verus!
