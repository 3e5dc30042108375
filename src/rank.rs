use vstd::prelude::*;

verus! {

/// A score with the payload it was computed for.
#[derive(Debug)]
pub struct Rank<T> {
    pub rank: i64,
    pub data: T,
}

/// `j` is the entry a full selector gives up: the lowest score, and among
/// equal lowest scores the one inserted last, so earlier entries win ties.
pub open spec fn is_evicted<T>(s: Seq<Rank<T>>, j: int) -> bool {
    &&& 0 <= j < s.len()
    &&& forall|k: int| 0 <= k < s.len() ==> s[j].rank <= #[trigger] s[k].rank
    &&& forall|k: int| j < k < s.len() ==> s[j].rank < #[trigger] s[k].rank
}

/// The index that `is_evicted` names; there is only one.
pub open spec fn evict_index<T>(s: Seq<Rank<T>>) -> int {
    choose|j: int| is_evicted(s, j)
}

/// The entries after `cand` is inserted into a selector holding `s`.
pub open spec fn inserted<T>(s: Seq<Rank<T>>, cand: Rank<T>) -> Seq<Rank<T>> {
    if s.len() == 0 {
        s
    } else {
        s.push(cand).remove(evict_index(s.push(cand)))
    }
}

/// `capacity` sentinel entries of score 0 carrying `data`.
pub open spec fn sentinels<T>(capacity: nat, data: T) -> Seq<Rank<T>> {
    Seq::new(capacity, |k: int| Rank { rank: 0, data })
}

proof fn lemma_evicted_unique<T>(s: Seq<Rank<T>>, j: int)
    requires
        is_evicted(s, j),
    ensures
        evict_index(s) == j,
{
    let e = evict_index(s);
    assert(is_evicted(s, e));
    if e < j {
        assert(s[e].rank < s[j].rank);
        assert(s[j].rank <= s[e].rank);
    } else if j < e {
        assert(s[j].rank < s[e].rank);
        assert(s[e].rank <= s[j].rank);
    }
}

/// Keeps the `K` highest-scoring entries seen so far, in insertion order.
pub struct RankSelector<T> {
    entries: Vec<Rank<T>>,
}

impl<T> View for RankSelector<T> {
    type V = Seq<Rank<T>>;

    closed spec fn view(&self) -> Seq<Rank<T>> {
        self.entries@
    }
}

impl<T: Copy> RankSelector<T> {
    /// A selector holding `capacity` sentinel entries of score 0.
    pub fn new(capacity: usize, sentinel: T) -> (r: Self)
        ensures
            r@ == sentinels(capacity as nat, sentinel),
    {
        let mut entries: Vec<Rank<T>> = Vec::new();
        let mut i: usize = 0;
        while i < capacity
            invariant
                i <= capacity,
                entries@.len() == i,
                forall|k: int| 0 <= k < i ==> #[trigger] entries@[k] == (Rank { rank: 0, data: sentinel }),
            decreases capacity - i,
        {
            entries.push(Rank { rank: 0, data: sentinel });
            i = i + 1;
        }
        proof {
            assert(entries@ =~= sentinels(capacity as nat, sentinel));
        }
        RankSelector { entries }
    }
}

impl<T> RankSelector<T> {
    /// Adds a candidate, then drops the entry that `is_evicted` names, so
    /// the number of entries never changes.
    pub fn insert(&mut self, cand: Rank<T>)
        ensures
            final(self)@ == inserted(old(self)@, cand),
            old(self)@.len() > 0 ==> is_evicted(old(self)@.push(cand), evict_index(old(self)@.push(cand))),
    {
        let n = self.entries.len();
        if n == 0 {
            return;
        }
        let ghost s = self.entries@.push(cand);
        let mut j: usize = 0;
        let mut i: usize = 1;
        while i < n
            invariant
                n == self.entries@.len(),
                1 <= i <= n,
                j < i,
                forall|k: int| 0 <= k < i ==> self.entries@[j as int].rank <= #[trigger] self.entries@[k].rank,
                forall|k: int| j < k < i ==> self.entries@[j as int].rank < #[trigger] self.entries@[k].rank,
            decreases n - i,
        {
            if self.entries[i].rank <= self.entries[j].rank {
                j = i;
            }
            i = i + 1;
        }
        if cand.rank <= self.entries[j].rank {
            proof {
                assert(is_evicted(s, n as int));
                lemma_evicted_unique(s, n as int);
                assert(s.remove(n as int) =~= self.entries@);
            }
        } else {
            proof {
                assert(is_evicted(s, j as int));
                lemma_evicted_unique(s, j as int);
            }
            self.entries.remove(j);
            self.entries.push(cand);
            proof {
                assert(self.entries@ =~= s.remove(j as int));
            }
        }
    }

    /// The retained entries, in insertion order.
    pub fn entries(&self) -> (r: &Vec<Rank<T>>)
        ensures
            r@ == self@,
    {
        &self.entries
    }
}

} // verus!
