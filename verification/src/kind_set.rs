use vstd::prelude::*;

use crate::piece::{kind_of, spec_kind_of, Kind, NUM_KIND};

verus! {

/// A small set of piece kinds, one bit per kind.
#[derive(Clone, Copy, Debug, PartialEq, Eq, Structural)]
pub struct KindSet(pub u16);

/// All kinds in index order.
pub open spec fn kind_seq() -> Seq<Kind> {
    Seq::new(NUM_KIND as nat, |i: int| spec_kind_of(i))
}

/// Kind `i` set in the bit pattern `b`.
pub open spec fn bit(b: u16, i: u16) -> bool {
    (b >> i) & 1u16 == 1u16
}

proof fn lemma_bit_set(b: u16, i: u16, j: u16)
    requires
        i < 16,
        j < 16,
    ensures
        bit(b | (1u16 << i), j) == (i == j || bit(b, j)),
{
    assert(((b | (1u16 << i)) >> j) & 1u16 == 1u16 <==> (i == j || (b >> j) & 1u16 == 1u16))
        by (bit_vector)
        requires
            i < 16,
            j < 16,
    ;
}

proof fn lemma_bit_bound(b: u16, i: u16)
    requires
        b < 0x4000,
        i < 14,
    ensures
        (b | (1u16 << i)) < 0x4000,
{
    assert((b | (1u16 << i)) < 0x4000) by (bit_vector)
        requires
            b < 0x4000,
            i < 14,
    ;
}

proof fn lemma_bit_empty(b: u16, j: u16)
    requires
        b == 0,
    ensures
        !bit(b, j),
{
    assert((b >> j) & 1u16 != 1u16) by (bit_vector)
        requires
            b == 0,
    ;
}

proof fn lemma_bit_nonempty(b: u16)
    requires
        b != 0,
        b < 0x4000,
    ensures
        exists|j: u16| j < 14 && #[trigger] bit(b, j),
{
    assert(bit(b, 0) || bit(b, 1) || bit(b, 2) || bit(b, 3) || bit(b, 4) || bit(b, 5) || bit(b, 6)
        || bit(b, 7) || bit(b, 8) || bit(b, 9) || bit(b, 10) || bit(b, 11) || bit(b, 12) || bit(
        b,
        13,
    )) by (bit_vector)
        requires
            b != 0,
            b < 0x4000,
    ;
}

impl KindSet {
    /// Only the fourteen kind bits may be set.
    pub open spec fn wf(self) -> bool {
        self.0 < 0x4000
    }

    /// Whether kind `k` is in the set.
    pub open spec fn has(self, k: Kind) -> bool {
        bit(self.0, k.spec_index() as u16)
    }

    /// The kinds of the set in index order.
    pub open spec fn kinds(self) -> Seq<Kind> {
        kind_seq().filter(|k: Kind| self.has(k))
    }

    /// The empty set.
    pub fn new() -> (s: KindSet)
        ensures
            s.wf(),
            forall|k: Kind| !s.has(k),
    {
        proof {
            assert forall|k: Kind| !KindSet(0).has(k) by {
                lemma_bit_empty(0, k.spec_index() as u16);
            }
        }
        KindSet(0)
    }

    /// The set of the kinds listed.
    pub fn from_iter(kinds: &[Kind]) -> (s: KindSet)
        ensures
            s.wf(),
            forall|k: Kind| s.has(k) <==> kinds@.contains(k),
    {
        let mut s = KindSet::new();
        let mut i: usize = 0;
        while i < kinds.len()
            invariant
                i <= kinds@.len(),
                s.wf(),
                forall|k: Kind| s.has(k) <==> kinds@.take(i as int).contains(k),
            decreases kinds@.len() - i,
        {
            let ghost prev = s;
            s.insert(kinds[i]);
            proof {
                assert forall|k: Kind| s.has(k) <==> kinds@.take(i + 1).contains(k) by {
                    crate::world::lemma_take_contains(kinds@, i as int, k);
                }
            }
            i = i + 1;
        }
        proof {
            assert(kinds@.take(kinds@.len() as int) =~= kinds@);
        }
        s
    }

    /// Adds kind `kind`.
    pub fn insert(&mut self, kind: Kind)
        requires
            old(self).wf(),
        ensures
            final(self).wf(),
            forall|k: Kind| final(self).has(k) <==> (old(self).has(k) || k == kind),
    {
        let i = kind.index() as u16;
        proof {
            lemma_bit_bound(self.0, i);
            assert forall|k: Kind| bit(self.0 | (1u16 << i), k.spec_index() as u16) <==> (bit(
                self.0,
                k.spec_index() as u16,
            ) || k == kind) by {
                lemma_bit_set(self.0, i, k.spec_index() as u16);
                if k.spec_index() == kind.spec_index() {
                    crate::piece::lemma_index_injective(k, kind);
                }
            }
        }
        self.0 = self.0 | (1u16 << i);
    }

    /// Whether kind `kind` is in the set.
    pub fn contains(self, kind: Kind) -> (r: bool)
        ensures
            r == self.has(kind),
    {
        let i = kind.index() as u16;
        (self.0 >> i) & 1u16 == 1u16
    }

    /// Whether no kind is in the set.
    pub fn is_empty(self) -> (r: bool)
        requires
            self.wf(),
        ensures
            r == forall|k: Kind| !self.has(k),
    {
        proof {
            if self.0 == 0 {
                assert forall|k: Kind| !self.has(k) by {
                    lemma_bit_empty(self.0, k.spec_index() as u16);
                }
            } else {
                lemma_bit_nonempty(self.0);
                let j = choose|j: u16| j < 14 && #[trigger] bit(self.0, j);
                assert(self.has(spec_kind_of(j as int)));
            }
        }
        self.0 == 0
    }

    /// The kinds of the set in index order.
    pub fn iter(self) -> (r: Vec<Kind>)
        ensures
            r@ == self.kinds(),
    {
        let mut r: Vec<Kind> = Vec::new();
        let mut i: usize = 0;
        while i < NUM_KIND
            invariant
                i <= NUM_KIND,
                r@ == kind_seq().take(i as int).filter(|k: Kind| self.has(k)),
            decreases NUM_KIND - i,
        {
            let k = kind_of(i);
            proof {
                assert(kind_seq().take(i + 1) =~= kind_seq().take(i as int).push(k));
                kind_seq().take(i as int).lemma_filter_push(k, |k: Kind| self.has(k));
            }
            if self.contains(k) {
                r.push(k);
            }
            i = i + 1;
        }
        proof {
            assert(kind_seq().take(NUM_KIND as int) =~= kind_seq());
        }
        r
    }

    /// The number of kinds in the set.
    pub fn len(self) -> (r: usize)
        ensures
            r == self.kinds().len(),
    {
        self.iter().len()
    }

    /// The kinds of the set in index order.
    pub fn to_btree_set(self) -> (r: Vec<Kind>)
        ensures
            r@ == self.kinds(),
    {
        self.iter()
    }
}

/// A kind is listed by `kinds` exactly when it is in the set.
pub proof fn lemma_kinds_contains(s: KindSet, k: Kind)
    ensures
        s.kinds().contains(k) <==> s.has(k),
{
    let f = |k: Kind| s.has(k);
    if s.has(k) {
        assert(kind_seq()[k.spec_index() as int] == k);
        kind_seq().lemma_filter_contains(f, k.spec_index() as int);
    }
    if s.kinds().contains(k) {
        kind_seq().lemma_filter_contains_rev(f, k);
    }
}

/// The kinds of a set come in strictly increasing index order.
pub proof fn lemma_kinds_sorted(s: KindSet)
    ensures
        forall|a: int, b: int|
            0 <= a < b < s.kinds().len() ==> (#[trigger] s.kinds()[a]).spec_index() < (
            #[trigger] s.kinds()[b]).spec_index(),
{
    lemma_filter_increasing(kind_seq(), |k: Kind| s.has(k), NUM_KIND as int);
    assert(kind_seq().take(NUM_KIND as int) =~= kind_seq());
}

proof fn lemma_filter_increasing(ks: Seq<Kind>, f: spec_fn(Kind) -> bool, n: int)
    requires
        ks == kind_seq(),
        0 <= n <= NUM_KIND,
    ensures
        forall|a: int, b: int|
            0 <= a < b < ks.take(n).filter(f).len() ==> (#[trigger] ks.take(n).filter(f)[a]).spec_index()
                < (#[trigger] ks.take(n).filter(f)[b]).spec_index(),
        forall|a: int|
            0 <= a < ks.take(n).filter(f).len() ==> (#[trigger] ks.take(n).filter(f)[a]).spec_index()
                < n,
    decreases n,
{
    if n > 0 {
        lemma_filter_increasing(ks, f, n - 1);
        let prev = ks.take(n - 1);
        assert(ks.take(n) =~= prev.push(ks[n - 1]));
        prev.lemma_filter_push(ks[n - 1], f);
    } else {
        assert(ks.take(0).filter(f).len() == 0) by {
            reveal(Seq::filter);
        }
    }
}

} // verus!
