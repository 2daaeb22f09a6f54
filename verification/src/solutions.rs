//! The best solutions of a search: at most a fixed number of them, kept in
//! increasing order of their keys (a smaller key is a better solution).

use vstd::prelude::*;

verus! {

/// A solution as the contracts see it: its key and its coordinates.
pub type SolutionView = (u64, Seq<i64>);

/// The keys never decrease along s.
pub open spec fn keys_sorted(s: Seq<SolutionView>) -> bool {
    forall|i: int, j: int| 0 <= i <= j < s.len() ==> (#[trigger] s[i]).0 <= (#[trigger] s[j]).0
}

/// The number of solutions of s whose key is below k: where a solution with
/// key k goes in a sorted s, after every better one and before the others.
pub open spec fn insert_pos(s: Seq<SolutionView>, k: u64) -> nat
    decreases s.len(),
{
    if s.len() == 0 {
        0
    } else {
        insert_pos(s.drop_last(), k) + if s.last().0 < k {
            1nat
        } else {
            0nat
        }
    }
}

/// s with (k, x) put at `insert_pos`, then cut to at most max solutions.
pub open spec fn insert_best(s: Seq<SolutionView>, k: u64, x: Seq<i64>, max: nat) -> Seq<SolutionView> {
    let t = s.insert(insert_pos(s, k) as int, (k, x));
    if t.len() > max {
        t.take(max as int)
    } else {
        t
    }
}

/// In a sorted s, the solutions before `insert_pos(s, k)` have keys below k
/// and the others do not.
pub proof fn lemma_insert_pos_sorted(s: Seq<SolutionView>, k: u64)
    requires
        keys_sorted(s),
    ensures
        insert_pos(s, k) <= s.len(),
        forall|i: int| 0 <= i < insert_pos(s, k) ==> (#[trigger] s[i]).0 < k,
        forall|i: int| insert_pos(s, k) <= i < s.len() ==> (#[trigger] s[i]).0 >= k,
    decreases s.len(),
{
    if s.len() > 0 {
        let t = s.drop_last();
        assert(keys_sorted(t)) by {
            assert forall|i: int, j: int| 0 <= i <= j < t.len() implies (#[trigger] t[i]).0 <= (#[trigger] t[j]).0 by {
                assert(t[i] == s[i] && t[j] == s[j]);
            }
        }
        lemma_insert_pos_sorted(t, k);
        let p = insert_pos(s, k);
        if s.last().0 < k {
            assert forall|i: int| 0 <= i < s.len() implies (#[trigger] s[i]).0 < k by {
                assert(s[i].0 <= s[s.len() - 1].0);
            }
            if insert_pos(t, k) < t.len() {
                let q = insert_pos(t, k) as int;
                assert(t[q].0 >= k);
                assert(t[q] == s[q]);
            }
        } else {
            assert forall|i: int| 0 <= i < p implies (#[trigger] s[i]).0 < k by {
                assert(t[i] == s[i]);
            }
            assert forall|i: int| p <= i < s.len() implies (#[trigger] s[i]).0 >= k by {
                if i < t.len() {
                    assert(t[i] == s[i]);
                }
            }
        }
    }
}

/// Insertion keeps the solutions sorted and at most max of them.
pub proof fn lemma_insert_best_sorted(s: Seq<SolutionView>, k: u64, x: Seq<i64>, max: nat)
    requires
        keys_sorted(s),
    ensures
        keys_sorted(insert_best(s, k, x, max)),
        insert_best(s, k, x, max).len() <= max,
        insert_best(s, k, x, max).len() <= s.len() + 1,
{
    lemma_insert_pos_sorted(s, k);
    let p = insert_pos(s, k) as int;
    let t = s.insert(p, (k, x));
    assert forall|i: int, j: int| 0 <= i <= j < t.len() implies (#[trigger] t[i]).0 <= (#[trigger] t[j]).0 by {
        if i < p && j < p {
            assert(t[i] == s[i] && t[j] == s[j]);
        } else if i < p && j == p {
            assert(t[i] == s[i]);
        } else if i < p {
            assert(t[i] == s[i] && t[j] == s[j - 1]);
        } else if i == p && j > p {
            assert(t[j] == s[j - 1]);
        } else if i > p {
            assert(t[i] == s[i - 1] && t[j] == s[j - 1]);
        }
    }
}

/// The best solutions found so far, by increasing key, at most `capacity()`
/// of them.
pub struct BestSolutions {
    entries: Vec<(u64, Vec<i64>)>,
    max_sols: usize,
}

impl View for BestSolutions {
    type V = Seq<SolutionView>;

    closed spec fn view(&self) -> Seq<SolutionView> {
        self.entries@.map_values(|e: (u64, Vec<i64>)| (e.0, e.1@))
    }
}

impl BestSolutions {
    #[verifier::type_invariant]
    closed spec fn well_formed(self) -> bool {
        &&& keys_sorted(self@)
        &&& self@.len() <= self.max_sols
    }

    /// How many solutions are kept at most.
    pub closed spec fn capacity(&self) -> nat {
        self.max_sols as nat
    }

    /// No solution yet; at most max_sols will be kept.
    pub fn new(max_sols: usize) -> (r: BestSolutions)
        ensures
            r@ == Seq::<SolutionView>::empty(),
            r.capacity() == max_sols,
    {
        let r = BestSolutions { entries: Vec::new(), max_sols };
        proof {
            assert(r@ =~= Seq::<SolutionView>::empty());
        }
        r
    }

    pub fn len(&self) -> (r: usize)
        ensures
            r == self@.len(),
    {
        self.entries.len()
    }

    pub fn max_sols(&self) -> (r: usize)
        ensures
            r == self.capacity(),
    {
        self.max_sols
    }

    /// Solution i: its key and its coordinates.
    pub fn get(&self, i: usize) -> (r: &(u64, Vec<i64>))
        requires
            i < self@.len(),
        ensures
            r.0 == self@[i as int].0,
            r.1@ == self@[i as int].1,
    {
        &self.entries[i]
    }

    /// Adds the solution (key, x) after every solution with a smaller key
    /// and before the others, then drops the worst if there are more than
    /// `capacity()`.
    pub fn insert(&mut self, key: u64, x: Vec<i64>)
        ensures
            final(self)@ == insert_best(old(self)@, key, x@, old(self).capacity()),
            final(self).capacity() == old(self).capacity(),
            keys_sorted(final(self)@),
            final(self)@.len() <= final(self).capacity(),
    {
        proof {
            use_type_invariant(&*self);
            lemma_insert_pos_sorted(self@, key);
            lemma_insert_best_sorted(self@, key, x@, self.max_sols as nat);
        }
        let ghost old_view = self@;
        let ghost xs = x@;
        let mut entries = Vec::new();
        std::mem::swap(&mut entries, &mut self.entries);
        let mut pos: usize = 0;
        while pos < entries.len() && entries[pos].0 < key
            invariant
                pos <= entries@.len(),
                old_view == entries@.map_values(|e: (u64, Vec<i64>)| (e.0, e.1@)),
                pos <= insert_pos(old_view, key),
                insert_pos(old_view, key) <= old_view.len(),
                forall|i: int| insert_pos(old_view, key) <= i < old_view.len() ==> (#[trigger] old_view[i]).0 >= key,
            decreases entries@.len() - pos,
        {
            proof {
                assert(old_view[pos as int].0 == entries@[pos as int].0);
            }
            pos = pos + 1;
        }
        proof {
            if pos < entries@.len() {
                assert(old_view[pos as int].0 == entries@[pos as int].0);
            }
            assert(pos == insert_pos(old_view, key));
        }
        entries.insert(pos, (key, x));
        let max = self.max_sols;
        if entries.len() > max {
            entries.truncate(max);
        }
        proof {
            let t = old_view.insert(pos as int, (key, xs));
            let now = entries@.map_values(|e: (u64, Vec<i64>)| (e.0, e.1@));
            if t.len() > max {
                assert(now =~= t.take(max as int));
            } else {
                assert(now =~= t);
            }
        }
        self.entries = entries;
    }
}

} // verus!
